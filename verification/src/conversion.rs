//! Conversions between integers and single-precision values.
use vstd::prelude::*;
use vstd::arithmetic::div_mod::*;
use vstd::arithmetic::power2::*;
use vstd::bits::*;
use crate::binary32::{lemma_binade_bounds, unit, Binary32};
use crate::rounding::{
    lemma_finite_is, lemma_round_below_half, lemma_rounded,
    lemma_short_multiples_are_representable, round_pack, rounded, widen,
};

verus! {

impl Binary32 {
    /// The conversion of an integer: the value nearest to it.
    pub open spec fn of_int(v: int) -> Binary32 {
        rounded(v < 0, vstd::math::abs(v) as nat * unit(), 1)
    }

    /// The value nearest to `n`, with the given sign.
    fn from_magnitude(negative: bool, n: u64) -> (r: Binary32)
        requires
            n < 0x8000_0000_0000_0000,
        ensures
            r == rounded(negative, n as nat * unit(), 1),
    {
        if n == 0 {
            let r = Binary32 {
                bits: if negative {
                    0x8000_0000
                } else {
                    0
                },
            };
            proof {
                assert(0 * unit() == 0) by (nonlinear_arith);
                lemma_round_below_half(0, 1);
                lemma_pow2_pos(253);
                lemma_finite_is(r);
            }
            return r;
        }
        let (wide, extra) = widen(n);
        proof {
            lemma_pow2_pos(149);
            assert(wide * pow2(149) * 1 == (n * unit()) * pow2(extra as nat)) by (nonlinear_arith)
                requires
                    wide == n * pow2(extra as nat),
                    unit() == pow2(149),
            ;
            assert((n * unit()) * pow2(extra as nat) < (wide + 1) * pow2(149) * 1)
                by (nonlinear_arith)
                requires
                    wide * pow2(149) * 1 == (n * unit()) * pow2(extra as nat),
                    pow2(149) > 0,
            ;
        }
        round_pack(negative, wide, 149, extra, false, Ghost(n as nat * unit()), Ghost(1))
    }

    /// Converts a signed integer.
    pub fn from_i32(v: i32) -> (r: Binary32)
        ensures
            r == Binary32::of_int(v as int),
    {
        if v < 0 {
            Binary32::from_magnitude(true, (0i64 - v as i64) as u64)
        } else {
            Binary32::from_magnitude(false, v as u64)
        }
    }

    /// Converts an unsigned integer.
    pub fn from_u32(v: u32) -> (r: Binary32)
        ensures
            r == Binary32::of_int(v as int),
    {
        Binary32::from_magnitude(false, v as u64)
    }
}

/// Integers of up to 24 binary digits, and 2^24 itself, convert exactly.
pub proof fn lemma_small_integers_are_exact(v: int)
    requires
        -0x100_0000 <= v <= 0x100_0000,
    ensures
        Binary32::of_int(v).represents(v),
{
    let n = vstd::math::abs(v) as nat;
    lemma_short_multiples_are_representable(n, 149);
    lemma_rounded(v < 0, n * unit(), 1);
    lemma_pow2_strictly_increases(149, 253);
    assert(n * pow2(149) < 0x100_0000 * pow2(253)) by (nonlinear_arith)
        requires
            n <= 0x100_0000,
            pow2(149) < pow2(253),
    ;
    assert(-(n * unit()) == (-n) * unit()) by (nonlinear_arith);
}

impl Binary32 {
    /// The integer nearest to the value, halves going away from zero, held
    /// to the range of `i32`; zero for NaN.
    pub open spec fn nearest_i32(self) -> int {
        if self.is_nan() {
            0
        } else if self.is_infinite() {
            if self.sign() {
                i32::MIN as int
            } else {
                i32::MAX as int
            }
        } else {
            let whole = (self.magnitude() + unit() / 2) / unit();
            if self.sign() {
                if whole > 0x8000_0000 {
                    i32::MIN as int
                } else {
                    -(whole as int)
                }
            } else {
                if whole > i32::MAX {
                    i32::MAX as int
                } else {
                    whole as int
                }
            }
        }
    }

    /// Rounds to the nearest integer and saturates at the ends of `i32`.
    pub fn round_to_i32(self) -> (r: i32)
        ensures
            r == self.nearest_i32(),
    {
        let negative = self.bits >= 0x8000_0000;
        let e: u32 = (self.bits / 0x80_0000) % 0x100;
        let f: u32 = self.bits % 0x80_0000;
        if e == 255 && f != 0 {
            return 0;
        }
        proof {
            if e < 255 {
                lemma_whole_part(self);
            }
        }
        if e >= 158 {
            return if negative {
                i32::MIN
            } else {
                i32::MAX
            };
        }
        if e <= 125 {
            return 0;
        }
        let sig: u32 = 0x80_0000 + f;
        let whole: u32 = if e >= 150 {
            proof {
                lemma2_to64();
                lemma_pow2_strictly_increases((e - 150) as nat, 8);
                assert(sig * pow2((e - 150) as nat) < 0x8000_0000) by (nonlinear_arith)
                    requires
                        sig < 0x100_0000,
                        pow2((e - 150) as nat) <= 0x80,
                ;
                lemma_u32_shl_is_mul(sig, (e - 150) as u32);
            }
            sig << (e - 150)
        } else {
            proof {
                lemma2_to64();
                lemma_u32_shl_is_mul(1, (149 - e) as u32);
                lemma_u32_shr_is_div((sig + pow2((149 - e) as nat)) as u32, (150 - e) as u32);
                if e < 126 {
                    lemma_pow2_strictly_increases((149 - e) as nat, 23);
                }
            }
            (sig + (1u32 << (149 - e))) >> (150 - e)
        };
        if negative {
            (0i64 - whole as i64) as i32
        } else {
            whole as i32
        }
    }
}

/// The nearest integer within `i32` is within `i32`.
pub proof fn lemma_nearest_i32_in_range(x: Binary32)
    ensures
        i32::MIN <= x.nearest_i32() <= i32::MAX,
{
    lemma_pow2_pos(149);
    lemma_div_pos_is_pos((x.magnitude() + unit() / 2) as int, unit() as int);
}

/// The whole part that rounding takes from a finite value, by the exponent
/// field: nothing below a half, everything from 2^23 upwards, and in
/// between the significand with half of the dropped digits' weight added
/// and the dropped digits cut off.
pub proof fn lemma_whole_part(x: Binary32)
    requires
        x.is_finite(),
    ensures
        ({
            let e = x.exponent();
            let sig = 0x80_0000 + x.fraction();
            let whole = (x.magnitude() + unit() / 2) / unit();
            &&& e <= 125 ==> whole == 0
            &&& 126 <= e <= 149 ==> whole == (sig + pow2((149 - e) as nat)) / pow2((150 - e) as nat)
                && whole <= 0x100_0000
            &&& 150 <= e ==> whole == sig * pow2((e - 150) as nat)
            &&& 158 <= e ==> whole >= 0x8000_0000
        }),
{
    let e = x.exponent();
    let sig = 0x80_0000 + x.fraction();
    let m = x.magnitude();
    lemma2_to64();
    lemma_pow2_unfold(149);
    lemma_pow2_pos(148);
    let half = pow2(148);
    assert(unit() / 2 == half);
    if e <= 125 {
        lemma_binade_bounds(x);
        if e == 0 {
            lemma_pow2_strictly_increases(23, 148);
        } else {
            lemma_pow2_adds(24, 124);
            if e < 125 {
                lemma_pow2_strictly_increases((e - 1) as nat, 124);
            }
            assert(0x100_0000 * pow2((e - 1) as nat) <= 0x100_0000 * pow2(124))
                by (nonlinear_arith)
                requires
                    pow2((e - 1) as nat) <= pow2(124),
            ;
        }
        lemma_basic_div((m + half) as int, unit() as int);
    } else if e <= 149 {
        let p = pow2((e - 1) as nat);
        let s = (150 - e) as nat;
        lemma_pow2_pos((e - 1) as nat);
        lemma_pow2_pos(s);
        lemma_pow2_adds((s - 1) as nat, (e - 1) as nat);
        lemma_pow2_adds(s, (e - 1) as nat);
        lemma_pow2_unfold(s);
        assert(m + half == p * (sig + pow2((s - 1) as nat))) by (nonlinear_arith)
            requires
                m == sig * p,
                half == pow2((s - 1) as nat) * p,
        ;
        assert(unit() == p * pow2(s)) by (nonlinear_arith)
            requires
                unit() == pow2(s) * p,
        ;
        lemma_div_multiples_vanish_quotient(
            p as int,
            (sig + pow2((s - 1) as nat)) as int,
            pow2(s) as int,
        );
        let num = sig + pow2((s - 1) as nat);
        assert(num / pow2(s) <= 0x100_0000) by {
            lemma_pow2_pos((s - 1) as nat);
            assert(num < 0x100_0000 * pow2(s) + pow2(s)) by (nonlinear_arith)
                requires
                    num == sig + pow2((s - 1) as nat),
                    sig < 0x100_0000,
                    pow2(s) == 2 * pow2((s - 1) as nat),
                    pow2((s - 1) as nat) >= 1,
            ;
            lemma_fundamental_div_mod(num as int, pow2(s) as int);
            let q = num as int / pow2(s) as int;
            let r = num as int % pow2(s) as int;
            assert(q <= 0x100_0000) by (nonlinear_arith)
                requires
                    num == pow2(s) * q + r,
                    0 <= r,
                    num < 0x100_0000 * pow2(s) + pow2(s),
                    pow2(s) > 0,
            ;
        }
    } else {
        let t = (e - 150) as nat;
        lemma_pow2_adds(t, 149);
        lemma_pow2_strictly_increases(148, 149);
        let q = sig * pow2(t);
        assert(m + half == q * unit() + half) by (nonlinear_arith)
            requires
                m == sig * (pow2(t) * unit()),
                q == sig * pow2(t),
        ;
        lemma_fundamental_div_mod_converse(
            (m + half) as int,
            unit() as int,
            q as int,
            half as int,
        );
        if e >= 158 {
            if t > 8 {
                lemma_pow2_strictly_increases(8, t);
            }
            assert(sig * pow2(t) >= 0x8000_0000) by (nonlinear_arith)
                requires
                    sig >= 0x80_0000,
                    pow2(t) >= 0x100,
            ;
        }
    }
}

} // verus!
