//! IEEE 754 single-precision values as 32-bit encodings, with an exact
//! integer model of what each encoding denotes.
//!
//! Every finite single-precision value is a whole multiple of 2^-149.  The
//! model therefore measures values in *quanta* of 2^-149: the value one is
//! `unit()` quanta, and no fractions are needed anywhere.
use vstd::prelude::*;
use vstd::arithmetic::power2::*;

verus! {

/// An IEEE 754 single-precision value, held as its encoding.
///
/// Two of these are equal when their bits are: a NaN equals itself, and
/// the two zeros differ.  What the bits denote is the view.
#[derive(Clone, Copy, Debug, PartialEq, Eq, Structural)]
pub struct Binary32 {
    pub bits: u32,
}

/// What an encoding denotes.
pub enum Extended {
    /// A finite value, in quanta of 2^-149.  Both zeros denote `Finite(0)`.
    Finite(int),
    /// Positive or negative infinity.
    Infinite { negative: bool },
    /// Not a number.
    NotANumber,
}

/// The number of quanta in the value one.
pub open spec fn unit() -> nat {
    pow2(149)
}

impl View for Binary32 {
    type V = Extended;

    open spec fn view(&self) -> Extended {
        if self.is_nan() {
            Extended::NotANumber
        } else if self.is_infinite() {
            Extended::Infinite { negative: self.sign() }
        } else {
            Extended::Finite(self.quanta())
        }
    }
}

impl Binary32 {
    /// The sign bit.
    pub open spec fn sign(self) -> bool {
        self.bits >= 0x8000_0000
    }

    /// The eight-bit biased exponent field.
    pub open spec fn exponent(self) -> nat {
        ((self.bits / 0x80_0000) % 0x100) as nat
    }

    /// The twenty-three-bit fraction field.
    pub open spec fn fraction(self) -> nat {
        (self.bits % 0x80_0000) as nat
    }

    /// The encoding is a NaN.
    pub open spec fn is_nan(self) -> bool {
        self.exponent() == 255 && self.fraction() != 0
    }

    /// The encoding is an infinity.
    pub open spec fn is_infinite(self) -> bool {
        self.exponent() == 255 && self.fraction() == 0
    }

    /// The encoding is neither: it denotes a number.
    pub open spec fn is_finite(self) -> bool {
        self.exponent() < 255
    }

    /// The value is zero, of either sign.
    pub open spec fn is_zero(self) -> bool {
        self.is_finite() && self.magnitude() == 0
    }

    /// The absolute value in quanta; meaningful for finite encodings.
    pub open spec fn magnitude(self) -> nat {
        if self.exponent() == 0 {
            self.fraction()
        } else {
            (0x80_0000 + self.fraction()) * pow2((self.exponent() - 1) as nat)
        }
    }

    /// The signed value in quanta; meaningful for finite encodings.
    pub open spec fn quanta(self) -> int {
        if self.sign() {
            -(self.magnitude() as int)
        } else {
            self.magnitude() as int
        }
    }

    /// The encoding denotes exactly the integer `n`, and carries its sign.
    /// At most one encoding does.
    pub open spec fn represents(self, n: int) -> bool {
        self@ == Extended::Finite(n * unit()) && self.sign() == (n < 0)
    }

    /// The encoding denotes a value of at least one: a finite value of at
    /// least `unit()` quanta, or positive infinity.  False of every NaN.
    pub open spec fn at_least_one(self) -> bool {
        !self.is_nan() && !self.sign() && (self.is_infinite() || self.magnitude() >= unit())
    }

    /// Whether the value is at least one.
    pub fn is_at_least_one(self) -> (r: bool)
        ensures
            r == self.at_least_one(),
    {
        proof {
            if self.is_finite() {
                lemma_magnitude_against_unit(self);
            }
        }
        0x3F80_0000 <= self.bits && self.bits <= 0x7F80_0000
    }

    /// The sign bit, the significand and the exponent of a finite value:
    /// its magnitude is `sig * 2^exp` quanta.
    pub(crate) fn parts(self) -> (r: (bool, u32, u32))
        requires
            self.is_finite(),
        ensures
            r.0 == self.sign(),
            self.magnitude() == r.1 * pow2(r.2 as nat),
            r.1 < 0x100_0000,
            r.2 <= 253,
            r.2 > 0 ==> r.1 >= 0x80_0000,
            r.2 == (if self.exponent() == 0 {
                0
            } else {
                self.exponent() - 1
            }),
    {
        let e: u32 = (self.bits / 0x80_0000) % 0x100;
        let f: u32 = self.bits % 0x80_0000;
        if e == 0 {
            proof {
                lemma2_to64();
                assert(f * pow2(0) == f) by (nonlinear_arith)
                    requires
                        pow2(0) == 1,
                ;
            }
            (self.bits >= 0x8000_0000, f, 0)
        } else {
            (self.bits >= 0x8000_0000, 0x80_0000 + f, e - 1)
        }
    }

    /// Whether the encoding is a NaN.
    pub fn is_nan_value(self) -> (r: bool)
        ensures
            r == self.is_nan(),
    {
        self.bits % 0x8000_0000 > 0x7F80_0000
    }

    /// Whether the encoding is an infinity.
    pub fn is_infinite_value(self) -> (r: bool)
        ensures
            r == self.is_infinite(),
    {
        self.bits % 0x8000_0000 == 0x7F80_0000
    }

    /// Whether the value is zero, of either sign.
    pub fn is_zero_value(self) -> (r: bool)
        ensures
            r == self.is_zero(),
    {
        proof {
            if self.is_finite() && self.exponent() > 0 {
                lemma_pow2_pos((self.exponent() - 1) as nat);
                assert((0x80_0000 + self.fraction()) * pow2((self.exponent() - 1) as nat) > 0)
                    by (nonlinear_arith)
                    requires
                        pow2((self.exponent() - 1) as nat) > 0,
                ;
            }
        }
        self.bits % 0x8000_0000 == 0
    }
}

/// A finite encoding reaches `unit()` quanta exactly when its exponent field
/// is at least 127.
pub proof fn lemma_magnitude_against_unit(x: Binary32)
    requires
        x.is_finite(),
    ensures
        x.magnitude() >= unit() <==> x.exponent() >= 127,
{
    lemma2_to64();
    let e = x.exponent();
    let f = x.fraction();
    if e >= 127 {
        lemma_pow2_adds(23, 126);
        if e > 127 {
            lemma_pow2_strictly_increases(126, (e - 1) as nat);
        }
        assert(0x80_0000 * pow2(126) <= (0x80_0000 + f) * pow2((e - 1) as nat))
            by (nonlinear_arith)
            requires
                pow2(126) <= pow2((e - 1) as nat),
                f >= 0,
        ;
    } else if e >= 1 {
        lemma_pow2_adds(24, 125);
        if e < 126 {
            lemma_pow2_strictly_increases((e - 1) as nat, 125);
        }
        lemma_pow2_pos((e - 1) as nat);
        assert((0x80_0000 + f) * pow2((e - 1) as nat) < 0x100_0000 * pow2(125))
            by (nonlinear_arith)
            requires
                pow2((e - 1) as nat) <= pow2(125),
                0 < pow2((e - 1) as nat),
                0 <= f < 0x80_0000,
        ;
    } else {
        lemma_pow2_strictly_increases(23, 149);
    }
}

/// What the fields of `exp * 2^23 + sig` are when `sig` is a full 24-bit
/// significand, or 2^24 after a carry out of rounding, or shorter with
/// `exp` zero: the encoding is finite and denotes `sig * 2^exp` quanta.
pub proof fn lemma_packed(negative: bool, sig: nat, exp: nat, r: Binary32)
    requires
        sig <= 0x100_0000,
        0x80_0000 <= sig || exp == 0,
        exp * 0x80_0000 + sig < 0x7F80_0000,
        r.bits == (if negative {
            0x8000_0000
        } else {
            0nat
        }) + exp * 0x80_0000 + sig,
    ensures
        r.is_finite(),
        r.sign() == negative,
        r.magnitude() == sig * pow2(exp),
{
    if sig == 0x100_0000 {
        assert(r.exponent() == exp + 2);
        assert(r.fraction() == 0);
        lemma_pow2_unfold(exp + 1);
        assert(0x80_0000 * (2 * pow2(exp)) == 0x100_0000 * pow2(exp)) by (nonlinear_arith);
    } else if sig >= 0x80_0000 {
        assert(r.exponent() == exp + 1);
        assert(r.fraction() == sig - 0x80_0000);
    } else {
        lemma2_to64();
        assert(r.exponent() == 0);
        assert(r.fraction() == sig);
        assert(sig * pow2(0) == sig) by (nonlinear_arith)
            requires
                pow2(0) == 1,
        ;
    }
}

/// A finite encoding with a non-zero exponent field `e` lies between
/// `2^23 * 2^(e-1)` and `2^24 * 2^(e-1)` quanta; with a zero exponent field
/// it lies below 2^23 quanta.
pub proof fn lemma_binade_bounds(x: Binary32)
    requires
        x.is_finite(),
    ensures
        x.exponent() == 0 ==> x.magnitude() < 0x80_0000,
        x.exponent() > 0 ==> 0x80_0000 * pow2((x.exponent() - 1) as nat) <= x.magnitude()
            < 0x100_0000 * pow2((x.exponent() - 1) as nat),
{
    if x.exponent() > 0 {
        let p = pow2((x.exponent() - 1) as nat);
        let f = x.fraction();
        lemma_pow2_pos((x.exponent() - 1) as nat);
        assert(0x80_0000 * p <= (0x80_0000 + f) * p < 0x100_0000 * p) by (nonlinear_arith)
            requires
                0 <= f < 0x80_0000,
                p > 0,
        ;
    }
}

/// A finite value has one encoding: sign and magnitude fix every bit.
pub proof fn lemma_encoding_unique(a: Binary32, b: Binary32)
    requires
        a.is_finite(),
        b.is_finite(),
        a.sign() == b.sign(),
        a.magnitude() == b.magnitude(),
    ensures
        a == b,
{
    lemma2_to64();
    lemma_binade_bounds(a);
    lemma_binade_bounds(b);
    let ea = a.exponent();
    let eb = b.exponent();
    if ea < eb {
        lemma_exponents_order_magnitudes(a, b);
    } else if eb < ea {
        lemma_exponents_order_magnitudes(b, a);
    } else if ea > 0 {
        let p = pow2((ea - 1) as nat);
        lemma_pow2_pos((ea - 1) as nat);
        assert(a.fraction() == b.fraction()) by (nonlinear_arith)
            requires
                (0x80_0000 + a.fraction()) * p == (0x80_0000 + b.fraction()) * p,
                p > 0,
        ;
    }
    assert(a.bits == b.bits);
}

/// A smaller exponent field means a smaller magnitude.
pub proof fn lemma_exponents_order_magnitudes(a: Binary32, b: Binary32)
    requires
        a.is_finite(),
        b.is_finite(),
        a.exponent() < b.exponent(),
    ensures
        a.magnitude() < b.magnitude(),
{
    lemma2_to64();
    lemma_binade_bounds(a);
    lemma_binade_bounds(b);
    let ea = a.exponent();
    let eb = b.exponent();
    lemma_pow2_pos((eb - 1) as nat);
    if ea == 0 {
        assert(0x80_0000 <= 0x80_0000 * pow2((eb - 1) as nat)) by (nonlinear_arith)
            requires
                pow2((eb - 1) as nat) >= 1,
        ;
    } else {
        lemma_pow2_unfold(ea);
        if ea < eb - 1 {
            lemma_pow2_strictly_increases(ea, (eb - 1) as nat);
        }
        assert(0x100_0000 * pow2((ea - 1) as nat) <= 0x80_0000 * pow2((eb - 1) as nat))
            by (nonlinear_arith)
            requires
                2 * pow2((ea - 1) as nat) <= pow2((eb - 1) as nat),
        ;
    }
}

/// A finite value below one is at most the last value before one.
pub proof fn lemma_below_one(x: Binary32)
    requires
        x.is_finite(),
        x.magnitude() < unit(),
    ensures
        x.magnitude() <= unit() - pow2(125),
{
    lemma2_to64();
    lemma_magnitude_against_unit(x);
    lemma_binade_bounds(x);
    lemma_pow2_adds(24, 125);
    lemma_pow2_pos(125);
    let e = x.exponent();
    if e == 0 {
        assert(0x80_0000 <= 0xFF_FFFF * pow2(125)) by (nonlinear_arith)
            requires
                pow2(125) >= 1,
        ;
    } else {
        if e < 126 {
            lemma_pow2_strictly_increases((e - 1) as nat, 125);
        }
        assert((0x80_0000 + x.fraction()) * pow2((e - 1) as nat) <= 0xFF_FFFF * pow2(125))
            by (nonlinear_arith)
            requires
                x.fraction() < 0x80_0000,
                pow2((e - 1) as nat) <= pow2(125),
        ;
    }
}

/// A finite value below another is below it by at least a 2^24th of the
/// other.
pub proof fn lemma_gap_below(x: Binary32, y: Binary32)
    requires
        x.is_finite(),
        y.is_finite(),
        x.magnitude() < y.magnitude(),
    ensures
        0x100_0000 * x.magnitude() <= 0xFF_FFFF * y.magnitude(),
{
    lemma2_to64();
    lemma_binade_bounds(x);
    lemma_binade_bounds(y);
    let ex = x.exponent();
    let ey = y.exponent();
    let mx = x.magnitude();
    let my = y.magnitude();
    if ex > ey {
        lemma_exponents_order_magnitudes(y, x);
    } else if ex == ey {
        if ex == 0 {
            assert(0x100_0000 * mx <= 0xFF_FFFF * my) by (nonlinear_arith)
                requires
                    mx + 1 <= my,
                    my < 0x80_0000,
            ;
        } else {
            let p = pow2((ex - 1) as nat);
            let sx = 0x80_0000 + x.fraction();
            let sy = 0x80_0000 + y.fraction();
            lemma_pow2_pos((ex - 1) as nat);
            assert(sx < sy) by (nonlinear_arith)
                requires
                    sx * p < sy * p,
                    p > 0,
            ;
            assert(0x100_0000 * (sx * p) <= 0xFF_FFFF * (sy * p)) by (nonlinear_arith)
                requires
                    sx + 1 <= sy,
                    sy < 0x100_0000,
                    p > 0,
            ;
        }
    } else {
        // A smaller exponent: at most the last value of the binade below.
        let p = pow2((ey - 1) as nat);
        lemma_pow2_pos((ey - 1) as nat);
        assert(0x80_0000 * p <= my);
        if ex == 0 {
            assert(0x100_0000 * mx <= 0xFF_FFFF * (0x80_0000 * p)) by (nonlinear_arith)
                requires
                    mx < 0x80_0000,
                    p >= 1,
            ;
        } else {
            let px = pow2((ex - 1) as nat);
            let sx = 0x80_0000 + x.fraction();
            lemma_pow2_unfold(ex);
            if ex < ey - 1 {
                lemma_pow2_strictly_increases(ex, (ey - 1) as nat);
            }
            assert(0x100_0000 * (sx * px) <= 0xFF_FFFF * (0x80_0000 * p)) by (nonlinear_arith)
                requires
                    sx <= 0xFF_FFFF,
                    2 * px <= p,
                    px > 0,
            ;
        }
        assert(0xFF_FFFF * (0x80_0000 * p) <= 0xFF_FFFF * my) by (nonlinear_arith)
            requires
                0x80_0000 * p <= my,
        ;
    }
}

} // verus!
