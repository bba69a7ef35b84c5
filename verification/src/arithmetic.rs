//! Sums, products and quotients of single-precision values, each rounded
//! once, to nearest with ties to even, as IEEE 754 asks.
//!
//! Where the standard leaves the bits of a NaN result open, these
//! operations return the quiet NaN `0x7FC0_0000`.
use vstd::prelude::*;
use vstd::arithmetic::div_mod::*;
use vstd::arithmetic::power2::*;
use vstd::bits::*;
use crate::binary32::{lemma_binade_bounds, lemma_magnitude_against_unit, unit, Binary32};
use crate::rounding::{
    bit_length, finite, infinity, lemma_finite_is, lemma_round_below_half, lemma_rounded,
    lemma_rounding_keeps_values, lemma_same_ratio, lemma_short_multiples_are_representable,
    round_pack, rounded, widen,
};

verus! {

/// The NaN that operations return.
pub open spec fn quiet_nan() -> Binary32 {
    Binary32 { bits: 0x7FC0_0000 }
}

impl Binary32 {
    /// The product of two values.
    pub open spec fn product(self, other: Binary32) -> Binary32 {
        let negative = self.sign() != other.sign();
        if self.is_nan() || other.is_nan() {
            quiet_nan()
        } else if self.is_infinite() || other.is_infinite() {
            if self.is_zero() || other.is_zero() {
                quiet_nan()
            } else {
                infinity(negative)
            }
        } else {
            rounded(negative, self.magnitude() * other.magnitude(), unit())
        }
    }

    /// The quotient of two values.
    pub open spec fn quotient(self, other: Binary32) -> Binary32 {
        let negative = self.sign() != other.sign();
        if self.is_nan() || other.is_nan() {
            quiet_nan()
        } else if self.is_infinite() {
            if other.is_infinite() {
                quiet_nan()
            } else {
                infinity(negative)
            }
        } else if other.is_infinite() {
            finite(negative, 0)
        } else if other.is_zero() {
            if self.is_zero() {
                quiet_nan()
            } else {
                infinity(negative)
            }
        } else {
            rounded(negative, self.magnitude() * unit(), other.magnitude())
        }
    }

    /// The sum of two values.  An exact zero is positive unless both
    /// values are negative.
    pub open spec fn sum(self, other: Binary32) -> Binary32 {
        if self.is_nan() || other.is_nan() {
            quiet_nan()
        } else if self.is_infinite() {
            if other.is_infinite() && self.sign() != other.sign() {
                quiet_nan()
            } else {
                self
            }
        } else if other.is_infinite() {
            other
        } else {
            let exact = self.quanta() + other.quanta();
            if exact == 0 {
                finite(self.sign() && other.sign(), 0)
            } else {
                rounded(exact < 0, vstd::math::abs(exact) as nat, 1)
            }
        }
    }

    /// Multiplies two values.
    pub fn mul(self, other: Binary32) -> (r: Binary32)
        ensures
            r == self.product(other),
    {
        let negative = (self.bits >= 0x8000_0000) != (other.bits >= 0x8000_0000);
        let sign_bit: u32 = if negative {
            0x8000_0000
        } else {
            0
        };
        if self.is_nan_value() || other.is_nan_value() {
            return Binary32 { bits: 0x7FC0_0000 };
        }
        if self.is_infinite_value() || other.is_infinite_value() {
            if self.is_zero_value() || other.is_zero_value() {
                return Binary32 { bits: 0x7FC0_0000 };
            }
            return Binary32 { bits: sign_bit + 0x7F80_0000 };
        }
        let (_, sa, ea) = self.parts();
        let (_, sb, eb) = other.parts();
        assert(sa as u64 * sb as u64 <= 0xFF_FFFF * 0xFF_FFFF) by (nonlinear_arith)
            requires
                sa <= 0xFF_FFFF,
                sb <= 0xFF_FFFF,
        ;
        let n: u64 = sa as u64 * sb as u64;
        let ghost num = self.magnitude() * other.magnitude();
        proof {
            lemma_pow2_adds(ea as nat, eb as nat);
            lemma_pow2_pos(149);
            assert(num == n * pow2((ea + eb) as nat)) by (nonlinear_arith)
                requires
                    num == (sa * pow2(ea as nat)) * (sb * pow2(eb as nat)),
                    n == sa * sb,
                    pow2((ea + eb) as nat) == pow2(ea as nat) * pow2(eb as nat),
            ;
        }
        if n == 0 {
            let r = Binary32 { bits: sign_bit };
            proof {
                assert(num == 0) by (nonlinear_arith)
                    requires
                        num == n * pow2((ea + eb) as nat),
                        n == 0,
                ;
                lemma_round_below_half(0, unit());
                lemma_pow2_pos(253);
                lemma_finite_is(r);
            }
            return r;
        }
        let (wide, extra) = widen(n);
        proof {
            lemma_pow2_adds(149, extra as nat);
            lemma_pow2_pos((ea + eb) as nat);
            assert(pow2((ea + eb) as nat) * unit() > 0) by (nonlinear_arith)
                requires
                    pow2((ea + eb) as nat) > 0,
                    unit() > 0,
            ;
            assert(wide * pow2((ea + eb) as nat) * unit() == num * pow2((149 + extra) as nat))
                by (nonlinear_arith)
                requires
                    wide == n * pow2(extra as nat),
                    num == n * pow2((ea + eb) as nat),
                    pow2((149 + extra) as nat) == unit() * pow2(extra as nat),
            ;
            assert(num * pow2((149 + extra) as nat) < (wide + 1) * pow2((ea + eb) as nat) * unit())
                by (nonlinear_arith)
                requires
                    wide * pow2((ea + eb) as nat) * unit() == num * pow2((149 + extra) as nat),
                    pow2((ea + eb) as nat) * unit() > 0,
            ;
        }
        round_pack(negative, wide, ea + eb, 149 + extra, false, Ghost(num), Ghost(unit()))
    }

    /// Divides one value by another.
    pub fn div(self, other: Binary32) -> (r: Binary32)
        ensures
            r == self.quotient(other),
    {
        let negative = (self.bits >= 0x8000_0000) != (other.bits >= 0x8000_0000);
        let sign_bit: u32 = if negative {
            0x8000_0000
        } else {
            0
        };
        if self.is_nan_value() || other.is_nan_value() {
            return Binary32 { bits: 0x7FC0_0000 };
        }
        if self.is_infinite_value() {
            if other.is_infinite_value() {
                return Binary32 { bits: 0x7FC0_0000 };
            }
            return Binary32 { bits: sign_bit + 0x7F80_0000 };
        }
        if other.is_infinite_value() {
            let r = Binary32 { bits: sign_bit };
            proof {
                lemma_finite_is(r);
            }
            return r;
        }
        if other.is_zero_value() {
            if self.is_zero_value() {
                return Binary32 { bits: 0x7FC0_0000 };
            }
            return Binary32 { bits: sign_bit + 0x7F80_0000 };
        }
        let (_, sa, ea) = self.parts();
        let (_, sb, eb) = other.parts();
        let ghost num = self.magnitude() * unit();
        let ghost den = other.magnitude();
        proof {
            lemma_pow2_pos(149);
            lemma_pow2_pos(eb as nat);
            lemma_pow2_pos(ea as nat);
            assert(sb > 0) by (nonlinear_arith)
                requires
                    sb * pow2(eb as nat) > 0,
                    sb >= 0,
            ;
        }
        if sa == 0 {
            let r = Binary32 { bits: sign_bit };
            proof {
                assert(num == 0) by (nonlinear_arith)
                    requires
                        num == (sa * pow2(ea as nat)) * unit(),
                        sa == 0,
                ;
                lemma_round_below_half(0, den);
                lemma_pow2_pos(253);
                lemma_finite_is(r);
            }
            return r;
        }
        let len = bit_length(sa as u64);
        proof {
            lemma2_to64();
            lemma2_to64_rest();
            if len > 24 {
                lemma_pow2_strictly_increases(24, (len - 1) as nat);
            }
        }
        let shift: u32 = 24 - len + 39;
        proof {
            lemma_pow2_adds(len as nat, shift as nat);
            lemma_pow2_adds((len - 1) as nat, shift as nat);
            lemma_pow2_pos(shift as nat);
            assert(pow2(62) <= sa * pow2(shift as nat) < pow2(63)) by (nonlinear_arith)
                requires
                    pow2((len - 1) as nat) <= sa < pow2(len as nat),
                    pow2((len - 1) as nat) * pow2(shift as nat) == pow2(62),
                    pow2(len as nat) * pow2(shift as nat) == pow2(63),
                    pow2(shift as nat) > 0,
            ;
            lemma_u64_shl_is_mul(sa as u64, shift as u64);
        }
        let top: u64 = (sa as u64) << shift;
        let q: u64 = top / (sb as u64);
        let rem: u64 = top % (sb as u64);
        proof {
            lemma_fundamental_div_mod(top as int, sb as int);
            assert(q >= 0x200_0000 && q <= top) by (nonlinear_arith)
                requires
                    top == sb * q + rem,
                    0 <= rem < sb,
                    0 < sb < 0x100_0000,
                    top >= 0x4000_0000_0000_0000,
                    q >= 0,
            ;
            lemma_div_describes(
                sa as nat,
                ea as nat,
                sb as nat,
                eb as nat,
                shift as nat,
                q as nat,
                rem as nat,
            );
        }
        round_pack(negative, q, ea + 149, eb + shift, rem != 0, Ghost(num), Ghost(den))
    }

    /// Adds two finite values of which the first has the larger exponent,
    /// or the same.
    fn add_ordered(self, other: Binary32) -> (r: Binary32)
        requires
            self.is_finite(),
            other.is_finite(),
            self.exponent() >= other.exponent(),
        ensures
            r == self.sum(other),
    {
        let (n1, s1, e1) = self.parts();
        let (n2, s2, e2) = other.parts();
        let ghost m1 = self.magnitude();
        let ghost m2 = other.magnitude();
        let ghost exact = self.quanta() + other.quanta();
        let d: u32 = e1 - e2;
        proof {
            lemma2_to64();
            lemma2_to64_rest();
            lemma_pow2_pos(e2 as nat);
            lemma_pow2_pos(253);
        }
        if d > 27 {
            let subtract = n1 != n2 && s2 != 0;
            let n: u64 = if subtract {
                (s1 as u64) * 8 - 1
            } else {
                (s1 as u64) * 8
            };
            let ghost num = vstd::math::abs(exact) as nat;
            proof {
                lemma_far_apart(s1 as nat, e1 as nat, s2 as nat, e2 as nat);
                let u = pow2((e1 - 3) as nat);
                assert(pow2(0) == 1);
                assert(m1 >= u && m1 > m2) by (nonlinear_arith)
                    requires
                        m1 == (s1 * 8) * u,
                        s1 >= 1,
                        m2 < u,
                ;
                if subtract {
                    assert(num == m1 - m2);
                    assert(n * u * 1 < num * 1 && num * 1 < (n + 1) * u * 1) by (nonlinear_arith)
                        requires
                            num == m1 - m2,
                            m1 == (s1 * 8) * u,
                            0 < m2 < u,
                            n == s1 * 8 - 1,
                    ;
                } else {
                    assert(num == m1 + m2);
                    assert(n * u * 1 <= num * 1 && num * 1 < (n + 1) * u * 1 && (n * u * 1 < num
                        * 1 <==> s2 != 0)) by (nonlinear_arith)
                        requires
                            num == m1 + m2,
                            m1 == (s1 * 8) * u,
                            0 <= m2 < u,
                            m2 > 0 <==> s2 != 0,
                            n == s1 * 8,
                    ;
                }
            }
            return round_pack(n1, n, e1 - 3, 0, s2 != 0, Ghost(num), Ghost(1));
        }
        proof {
            lemma_pow2_adds(d as nat, e2 as nat);
            lemma_pow2_strictly_increases(d as nat, 28);
            lemma_pow2_pos(d as nat);
            assert(s1 * pow2(d as nat) < 0x100_0000 * 0x1000_0000) by (nonlinear_arith)
                requires
                    s1 < 0x100_0000,
                    0 < pow2(d as nat) < 0x1000_0000,
            ;
            lemma_u64_shl_is_mul(s1 as u64, d as u64);
        }
        let wide1: u64 = (s1 as u64) << d;
        let ghost p = pow2(e2 as nat);
        proof {
            assert(m1 == wide1 * p) by (nonlinear_arith)
                requires
                    m1 == s1 * pow2(e1 as nat),
                    pow2(e1 as nat) == pow2(d as nat) * p,
                    wide1 == s1 * pow2(d as nat),
            ;
        }
        let negative: bool;
        let n: u64;
        if n1 == n2 {
            n = wide1 + s2 as u64;
            negative = n1;
        } else if wide1 >= s2 as u64 {
            n = wide1 - s2 as u64;
            negative = n1;
        } else {
            n = s2 as u64 - wide1;
            negative = n2;
        }
        proof {
            assert(wide1 * p + s2 * p == (wide1 + s2) * p) by (nonlinear_arith);
            assert(wide1 * p - s2 * p == (wide1 - s2) * p) by (nonlinear_arith);
            assert(n > 0 ==> n * p > 0) by (nonlinear_arith)
                requires
                    p > 0,
            ;
            assert(n == 0 ==> n * p == 0) by (nonlinear_arith);
            assert(m2 == s2 * p);
            if n1 == n2 {
                assert(n * p == m1 + m2);
            } else if wide1 >= s2 {
                assert(n * p == m1 - m2);
            } else {
                assert(s2 * p - wide1 * p == (s2 - wide1) * p) by (nonlinear_arith);
                assert(n * p == m2 - m1);
            }
            assert(vstd::math::abs(exact) == n * p);
            assert(exact != 0 ==> (exact < 0 <==> negative));
        }
        if n == 0 {
            let r = Binary32 {
                bits: if n1 && n2 {
                    0x8000_0000
                } else {
                    0
                },
            };
            proof {
                lemma_finite_is(r);
            }
            return r;
        }
        let (wide, extra) = widen(n);
        proof {
            assert(wide * p * 1 == (n * p) * pow2(extra as nat)) by (nonlinear_arith)
                requires
                    wide == n * pow2(extra as nat),
            ;
            assert((n * p) * pow2(extra as nat) < (wide + 1) * p * 1) by (nonlinear_arith)
                requires
                    wide * p * 1 == (n * p) * pow2(extra as nat),
                    p > 0,
            ;
        }
        round_pack(negative, wide, e2, extra, false, Ghost(n as nat * p), Ghost(1))
    }

    /// Adds two values.
    pub fn add(self, other: Binary32) -> (r: Binary32)
        ensures
            r == self.sum(other),
    {
        if self.is_nan_value() || other.is_nan_value() {
            return Binary32 { bits: 0x7FC0_0000 };
        }
        if self.is_infinite_value() {
            if other.is_infinite_value() && (self.bits >= 0x8000_0000) != (other.bits
                >= 0x8000_0000) {
                return Binary32 { bits: 0x7FC0_0000 };
            }
            return self;
        }
        if other.is_infinite_value() {
            return other;
        }
        if (self.bits / 0x80_0000) % 0x100 >= (other.bits / 0x80_0000) % 0x100 {
            self.add_ordered(other)
        } else {
            other.add_ordered(self)
        }
    }
}

/// The value one.
pub open spec fn one() -> Binary32 {
    Binary32 { bits: 0x3F80_0000 }
}

/// The value minus one.
pub open spec fn minus_one() -> Binary32 {
    Binary32 { bits: 0xBF80_0000 }
}

impl Binary32 {
    /// The value with at most one turn taken off: a value that has reached
    /// one has one subtracted, any other value is kept as it is.
    pub open spec fn wrapped(self) -> Binary32 {
        if self.at_least_one() {
            self.sum(minus_one())
        } else {
            self
        }
    }

    /// Takes at most one turn off; see [`Self::wrapped`].
    pub fn wrap_once(self) -> (r: Binary32)
        ensures
            r == self.wrapped(),
    {
        if self.is_at_least_one() {
            self.add(Binary32 { bits: 0xBF80_0000 })
        } else {
            self
        }
    }
}

/// The encoding of one denotes one.
pub proof fn lemma_one()
    ensures
        one().represents(1),
        one().magnitude() == unit(),
{
    lemma2_to64();
    lemma_pow2_adds(23, 126);
    assert(one().exponent() == 127 && one().fraction() == 0);
}

/// Dividing by one changes nothing but the bits of a NaN.
pub proof fn lemma_over_one(x: Binary32)
    requires
        !x.is_nan(),
    ensures
        x.quotient(one()) == x,
{
    lemma_one();
    lemma_pow2_pos(149);
    if x.is_finite() {
        lemma_same_ratio(x.magnitude(), 1, unit());
        assert(x.magnitude() * unit() == unit() * x.magnitude()) by (nonlinear_arith);
        lemma_rounding_keeps_values(x);
    } else {
        assert(x.bits == 0x7F80_0000 || x.bits == 0xFF80_0000);
    }
}

/// Below 2^24, taking a turn off a value that has reached one is exact:
/// the result is not negative and is less by exactly one.
pub proof fn lemma_wrap_is_exact(x: Binary32)
    requires
        x.is_finite(),
        x.at_least_one(),
        x.magnitude() < 0x100_0000 * unit(),
    ensures
        x.wrapped().is_finite(),
        !x.wrapped().sign(),
        x.wrapped().magnitude() == x.magnitude() - unit(),
{
    let e = x.exponent();
    let sig = 0x80_0000 + x.fraction();
    lemma2_to64();
    lemma_magnitude_against_unit(x);
    lemma_magnitude_against_unit(minus_one());
    lemma_binade_bounds(x);
    assert(minus_one().exponent() == 127 && minus_one().fraction() == 0);
    lemma_pow2_adds(23, 126);
    assert(minus_one().magnitude() == unit());
    if e >= 151 {
        lemma_pow2_unfold(150);
        if e > 151 {
            lemma_pow2_strictly_increases(150, (e - 1) as nat);
        }
        assert(0x100_0000 * pow2(149) <= 0x80_0000 * pow2((e - 1) as nat)) by (nonlinear_arith)
            requires
                2 * pow2(149) <= pow2((e - 1) as nat),
        ;
    }
    let exact = x.quanta() + minus_one().quanta();
    assert(exact == x.magnitude() - unit());
    if exact == 0 {
        let zero = Binary32 { bits: 0 };
        assert(zero.is_finite() && !zero.sign() && zero.magnitude() == 0);
    } else {
        let s = (150 - e) as nat;
        let p = pow2((e - 1) as nat);
        lemma_pow2_adds(s, (e - 1) as nat);
        if s < 23 {
            lemma_pow2_strictly_increases(s, 23);
        }
        let n = (sig - pow2(s)) as nat;
        assert(sig * p - pow2(s) * p == n * p) by (nonlinear_arith)
            requires
                n == sig - pow2(s),
        ;
        lemma_short_multiples_are_representable(n, (e - 1) as nat);
        lemma_rounded(false, exact as nat, 1);
        lemma_pow2_strictly_increases(149, 253);
        assert(0x100_0000 * pow2(149) < 0x100_0000 * pow2(253)) by (nonlinear_arith)
            requires
                pow2(149) < pow2(253),
        ;
    }
}

/// What the quotient of the significands says of the quotient of the
/// values.
proof fn lemma_div_describes(sa: nat, ea: nat, sb: nat, eb: nat, shift: nat, q: nat, rem: nat)
    requires
        sa * pow2(shift) == sb * q + rem,
        rem < sb,
    ensures
        ({
            let num = (sa * pow2(ea)) * unit();
            let den = sb * pow2(eb);
            let a = pow2(ea + 149);
            let b = pow2(eb + shift);
            &&& den > 0
            &&& q * a * den <= num * b
            &&& num * b < (q + 1) * a * den
            &&& (rem != 0 <==> q * a * den < num * b)
        }),
{
    let num = (sa * pow2(ea)) * unit();
    let den = sb * pow2(eb);
    let a = pow2(ea + 149);
    let b = pow2(eb + shift);
    lemma_pow2_adds(ea, 149);
    lemma_pow2_adds(eb, shift);
    lemma_pow2_pos(ea + 149);
    lemma_pow2_pos(eb);
    let w = a * pow2(eb);
    assert(w > 0) by (nonlinear_arith)
        requires
            a > 0,
            pow2(eb) > 0,
            w == a * pow2(eb),
    ;
    assert(den > 0) by (nonlinear_arith)
        requires
            sb > 0,
            pow2(eb) > 0,
            den == sb * pow2(eb),
    ;
    assert(num * b == (sb * q + rem) * w) by (nonlinear_arith)
        requires
            num == (sa * pow2(ea)) * unit(),
            a == pow2(ea) * unit(),
            b == pow2(eb) * pow2(shift),
            sa * pow2(shift) == sb * q + rem,
            w == a * pow2(eb),
    ;
    assert(q * a * den == (sb * q) * w) by (nonlinear_arith)
        requires
            den == sb * pow2(eb),
            w == a * pow2(eb),
    ;
    assert((q + 1) * a * den == (sb * q + sb) * w) by (nonlinear_arith)
        requires
            den == sb * pow2(eb),
            w == a * pow2(eb),
    ;
    assert((sb * q) * w <= (sb * q + rem) * w < (sb * q + sb) * w && (rem != 0 <==> (sb * q) * w
        < (sb * q + rem) * w)) by (nonlinear_arith)
        requires
            0 <= rem < sb,
            w > 0,
    ;
}

/// With exponents more than twenty-seven apart, the smaller value is less
/// than an eighth of the larger one's last place.
proof fn lemma_far_apart(s1: nat, e1: nat, s2: nat, e2: nat)
    requires
        s2 < 0x100_0000,
        e1 > e2 + 27,
    ensures
        s2 * pow2(e2) < pow2((e1 - 3) as nat),
        s1 * pow2(e1) == (s1 * 8) * pow2((e1 - 3) as nat),
        s2 != 0 <==> s2 * pow2(e2) > 0,
{
    lemma2_to64();
    lemma_pow2_adds(24, e2);
    lemma_pow2_adds(3, (e1 - 3) as nat);
    lemma_pow2_pos(e2);
    if e1 - 3 > e2 + 24 {
        lemma_pow2_strictly_increases(e2 + 24, (e1 - 3) as nat);
    }
    assert(s2 * pow2(e2) < 0x100_0000 * pow2(e2)) by (nonlinear_arith)
        requires
            s2 < 0x100_0000,
            pow2(e2) > 0,
    ;
    assert(s1 * (8 * pow2((e1 - 3) as nat)) == (s1 * 8) * pow2((e1 - 3) as nat))
        by (nonlinear_arith);
    assert(s2 != 0 <==> s2 * pow2(e2) > 0) by (nonlinear_arith)
        requires
            pow2(e2) > 0,
            s2 >= 0,
    ;
}

} // verus!
