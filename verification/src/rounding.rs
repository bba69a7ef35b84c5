//! Rounding to nearest, ties to even: what the result of an operation is,
//! given the exact result as a ratio of quanta.
use vstd::prelude::*;
use vstd::arithmetic::div_mod::*;
use vstd::arithmetic::power2::*;
use vstd::bits::*;
use crate::binary32::{
    lemma_binade_bounds, lemma_encoding_unique, lemma_packed, unit, Binary32,
};

verus! {

/// The distance, in quanta, between neighbouring representable magnitudes
/// at `m`: one up to 2^24 quanta, and doubling with every further doubling
/// of `m`.
pub open spec fn spacing(m: nat) -> nat
    decreases m,
{
    if m < 0x100_0000 {
        1
    } else {
        2 * spacing(m / 2)
    }
}

/// The spacing is never zero.
pub proof fn lemma_spacing_positive(m: nat)
    ensures
        spacing(m) > 0,
    decreases m,
{
    if m >= 0x100_0000 {
        lemma_spacing_positive(m / 2);
    }
}

/// Between `2^23 * 2^e` and `2^24 * 2^e` quanta the spacing is `2^e`.
pub proof fn lemma_spacing_in_binade(m: nat, e: nat)
    requires
        0x80_0000 * pow2(e) <= m < 0x100_0000 * pow2(e),
    ensures
        spacing(m) == pow2(e),
    decreases e,
{
    lemma2_to64();
    if e == 0 {
    } else {
        lemma_pow2_unfold(e);
        lemma_pow2_pos((e - 1) as nat);
        let p = pow2((e - 1) as nat);
        assert(0x80_0000 * (2 * p) == 2 * (0x80_0000 * p)) by (nonlinear_arith);
        assert(0x100_0000 * (2 * p) == 2 * (0x100_0000 * p)) by (nonlinear_arith);
        assert(0x100_0000 <= 0x80_0000 * (2 * p)) by (nonlinear_arith)
            requires
                p >= 1,
        ;
        lemma_spacing_in_binade(m / 2, (e - 1) as nat);
    }
}

/// The integer nearest to `num / den`; of two equally near, the even one.
pub open spec fn round_half_even_ratio(num: nat, den: nat) -> nat {
    let q = num / den;
    let r = num % den;
    if 2 * r < den || (2 * r == den && q % 2 == 0) {
        q
    } else {
        q + 1
    }
}

/// The representable magnitude nearest to `num / den` quanta, ties going
/// to the even fraction, as if exponents had no upper end.
pub open spec fn nearest_magnitude(num: nat, den: nat) -> nat {
    let step = spacing(num / den);
    round_half_even_ratio(num, den * step) * step
}

/// The first magnitude, in quanta, that is too large to be finite: 2^128.
pub open spec fn overflow_threshold() -> nat {
    0x100_0000 * pow2(253)
}

/// The finite encoding with this sign and magnitude, for a magnitude that
/// has one.
pub open spec fn finite(negative: bool, magnitude: nat) -> Binary32 {
    choose|r: Binary32| r.is_finite() && r.sign() == negative && r.magnitude() == magnitude
}

/// The encoding of infinity with this sign.
pub open spec fn infinity(negative: bool) -> Binary32 {
    Binary32 {
        bits: if negative {
            0xFF80_0000
        } else {
            0x7F80_0000
        },
    }
}

/// The encoding that an operation returns whose exact result has this
/// sign and the magnitude `num / den` quanta: the nearest representable
/// value, or infinity where that would be 2^128 or more.
pub open spec fn rounded(negative: bool, num: nat, den: nat) -> Binary32 {
    let magnitude = nearest_magnitude(num, den);
    if magnitude >= overflow_threshold() {
        infinity(negative)
    } else {
        finite(negative, magnitude)
    }
}

/// An encoding is the finite encoding of its own sign and magnitude.
pub proof fn lemma_finite_is(r: Binary32)
    requires
        r.is_finite(),
    ensures
        finite(r.sign(), r.magnitude()) == r,
{
    let other = finite(r.sign(), r.magnitude());
    lemma_encoding_unique(r, other);
}

/// Rounding a ratio that lies in a known binade.  If `num / den` is at
/// least `q * 2^j` and less than `(q + 1) * 2^j`, with `q` a full 24-bit
/// significand (or a shorter one and `j` zero), then the spacing there is
/// `2^j`, and rounding looks at what `num / den` has over `q * 2^j`.
pub proof fn lemma_round_ratio(num: nat, den: nat, q: nat, j: nat)
    requires
        den > 0,
        q * pow2(j) * den <= num < (q + 1) * pow2(j) * den,
        0x80_0000 <= q < 0x100_0000 || (j == 0 && q < 0x80_0000),
    ensures
        spacing(num / den) == pow2(j),
        num / (den * pow2(j)) == q,
        num % (den * pow2(j)) == num - q * pow2(j) * den,
{
    let s = pow2(j);
    lemma_pow2_pos(j);
    lemma2_to64();
    let d = den * s;
    let r = (num - q * s * den) as nat;
    assert(d > 0) by (nonlinear_arith)
        requires
            den > 0,
            s > 0,
            d == den * s,
    ;
    assert(num == q * d + r && r < d) by (nonlinear_arith)
        requires
            q * s * den <= num < (q + 1) * s * den,
            d == den * s,
            r == num - q * s * den,
    ;
    lemma_fundamental_div_mod_converse(num as int, d as int, q as int, r as int);
    let f = num / den;
    lemma_fundamental_div_mod(num as int, den as int);
    lemma_mod_bound(num as int, den as int);
    assert(q * s <= f < (q + 1) * s) by (nonlinear_arith)
        requires
            q * s * den <= num < (q + 1) * s * den,
            num == den * f + (num % den),
            0 <= (num % den) < den,
            den > 0,
    ;
    if q >= 0x80_0000 {
        assert(0x80_0000 * s <= f < 0x100_0000 * s) by (nonlinear_arith)
            requires
                q * s <= f < (q + 1) * s,
                0x80_0000 <= q < 0x100_0000,
                s > 0,
        ;
        lemma_spacing_in_binade(f, j);
    } else {
        assert(f < 0x100_0000) by (nonlinear_arith)
            requires
                f < (q + 1) * s,
                s == 1,
                q < 0x80_0000,
        ;
    }
}

/// How the digits that rounding drops decide its direction.  The exact
/// value lies between `n * 2^up / 2^down` and the same for `n + 1`; `k`
/// digits of `n` are dropped, `rem` is what they are worth, and `later`
/// says whether the exact value has anything beyond `n`.
pub proof fn lemma_round_decision(
    num: nat,
    den: nat,
    n: nat,
    up: nat,
    down: nat,
    later: bool,
    k: nat,
    q: nat,
    rem: nat,
)
    requires
        den > 0,
        n * pow2(up) * den <= num * pow2(down),
        num * pow2(down) < (n + 1) * pow2(up) * den,
        later <==> n * pow2(up) * den < num * pow2(down),
        k >= 1,
        up + k >= down,
        n == q * pow2(k) + rem,
        rem < pow2(k),
        0x80_0000 <= q < 0x100_0000 || (up + k == down && q < 0x80_0000),
    ensures
        nearest_magnitude(num, den) == (if 2 * rem < pow2(k) || (2 * rem == pow2(k) && !later && q
            % 2 == 0) {
            q
        } else {
            q + 1
        }) * pow2((up + k - down) as nat),
{
    let j = (up + k - down) as nat;
    let a = pow2(up);
    let b = pow2(down);
    let big_k = pow2(k);
    let s = pow2(j);
    lemma_pow2_pos(up);
    lemma_pow2_pos(down);
    lemma_pow2_pos(k);
    lemma_pow2_pos(j);
    lemma_pow2_adds(j, down);
    lemma_pow2_adds(k, up);
    assert(s * b == big_k * a);
    lemma_pow2_unfold(k);
    let half = pow2((k - 1) as nat);
    let t = a * den;
    assert(t > 0) by (nonlinear_arith)
        requires
            a > 0,
            den > 0,
            t == a * den,
    ;
    let nb = num * b;
    assert(n * t <= nb < (n + 1) * t && (later <==> n * t < nb)) by (nonlinear_arith)
        requires
            n * a * den <= num * b,
            num * b < (n + 1) * a * den,
            later <==> n * a * den < num * b,
            t == a * den,
            nb == num * b,
    ;
    let phi = (nb - n * t) as nat;
    assert(phi < t) by (nonlinear_arith)
        requires
            nb < (n + 1) * t,
            phi == nb - n * t,
    ;
    // The bounds of the binade, first scaled by `b`, then as they stand.
    let low = q * s * den;
    let high = (q + 1) * s * den;
    assert(low * b == q * big_k * t) by (nonlinear_arith)
        requires
            low == q * s * den,
            s * b == big_k * a,
            t == a * den,
    ;
    assert(high * b == (q + 1) * big_k * t) by (nonlinear_arith)
        requires
            high == (q + 1) * s * den,
            s * b == big_k * a,
            t == a * den,
    ;
    assert(q * big_k * t + rem * t == n * t) by (nonlinear_arith)
        requires
            n == q * big_k + rem,
    ;
    assert(nb - low * b == rem * t + phi);
    assert(low * b <= nb) by (nonlinear_arith)
        requires
            nb - low * b == rem * t + phi,
            rem >= 0,
            t > 0,
            phi >= 0,
    ;
    assert(high * b == low * b + big_k * t) by (nonlinear_arith)
        requires
            low * b == q * big_k * t,
            high * b == (q + 1) * big_k * t,
    ;
    assert(nb < high * b) by (nonlinear_arith)
        requires
            nb - low * b == rem * t + phi,
            high * b == low * b + big_k * t,
            rem + 1 <= big_k,
            phi < t,
    ;
    assert(low <= num < high) by (nonlinear_arith)
        requires
            low * b <= num * b,
            num * b < high * b,
            b > 0,
    ;
    lemma_round_ratio(num, den, q, j);
    let d = den * s;
    let r = (num - low) as nat;
    assert(num / d == q);
    assert(num % d == r);
    // Twice the remainder against the divisor, scaled by `b`.
    assert(r * b == rem * t + phi) by (nonlinear_arith)
        requires
            r == num - low,
            nb == num * b,
            nb - low * b == rem * t + phi,
    ;
    assert(d * b == big_k * t) by (nonlinear_arith)
        requires
            d == den * s,
            s * b == big_k * a,
            t == a * den,
    ;
    if 2 * rem < big_k {
        assert(2 * (r * b) < d * b) by (nonlinear_arith)
            requires
                r * b == rem * t + phi,
                d * b == big_k * t,
                2 * rem + 2 <= big_k,
                phi < t,
        ;
        assert(2 * r < d) by (nonlinear_arith)
            requires
                2 * (r * b) < d * b,
                b > 0,
        ;
    } else if 2 * rem == big_k {
        assert(2 * (r * b) == d * b + 2 * phi) by (nonlinear_arith)
            requires
                r * b == rem * t + phi,
                d * b == big_k * t,
                2 * rem == big_k,
        ;
        if later {
            assert(2 * r > d) by (nonlinear_arith)
                requires
                    2 * (r * b) == d * b + 2 * phi,
                    phi > 0,
                    b > 0,
            ;
        } else {
            assert(2 * r == d) by (nonlinear_arith)
                requires
                    2 * (r * b) == d * b + 2 * phi,
                    phi == 0,
                    b > 0,
            ;
        }
    } else {
        assert(2 * (r * b) > d * b) by (nonlinear_arith)
            requires
                r * b == rem * t + phi,
                d * b == big_k * t,
                2 * rem > big_k,
                phi >= 0,
                t > 0,
        ;
        assert(2 * r > d) by (nonlinear_arith)
            requires
                2 * (r * b) > d * b,
                b > 0,
        ;
    }
}

/// Less than half a quantum rounds to nothing.
pub proof fn lemma_round_below_half(num: nat, den: nat)
    requires
        2 * num < den,
    ensures
        nearest_magnitude(num, den) == 0,
{
    lemma_basic_div(num as int, den as int);
    lemma_small_mod(num, den);
    assert(num / den == 0);
    assert(spacing(0) == 1);
    let step = spacing(num / den);
    assert(den * step == den) by (nonlinear_arith)
        requires
            step == 1,
    ;
    assert(round_half_even_ratio(num, den) == 0);
    assert(round_half_even_ratio(num, den * step) * step == 0);
}

/// A magnitude of at most 24 binary digits times a power of two (2^24
/// times a power of two as well) is representable: rounding leaves it as
/// it is.
pub proof fn lemma_short_multiples_are_representable(n: nat, e: nat)
    requires
        n <= 0x100_0000,
    ensures
        nearest_magnitude(n * pow2(e), 1) == n * pow2(e),
{
    let m = n * pow2(e);
    lemma_spacing_divides_short_multiples(n, e);
    lemma_spacing_positive(m);
    let s = spacing(m);
    assert(m / 1 == m);
    assert(1 * s == s);
    lemma_fundamental_div_mod(m as int, s as int);
    assert(s * (m / s) == (m / s) * s) by (nonlinear_arith);
}

proof fn lemma_spacing_divides_short_multiples(n: nat, e: nat)
    requires
        n <= 0x100_0000,
    ensures
        (n * pow2(e)) % spacing(n * pow2(e)) == 0,
    decreases e,
{
    let m = n * pow2(e);
    lemma2_to64();
    if m < 0x100_0000 {
    } else if e == 0 {
        assert(m == n) by (nonlinear_arith)
            requires
                m == n * pow2(0),
                pow2(0) == 1,
        ;
        assert(spacing(0x80_0000) == 1);
        assert(spacing(m) == 2 * spacing(m / 2));
    } else {
        let half = n * pow2((e - 1) as nat);
        lemma_pow2_unfold(e);
        assert(m == 2 * half) by (nonlinear_arith)
            requires
                m == n * (2 * pow2((e - 1) as nat)),
                half == n * pow2((e - 1) as nat),
        ;
        lemma_spacing_divides_short_multiples(n, (e - 1) as nat);
        lemma_spacing_positive(half);
        let s = spacing(half);
        lemma_fundamental_div_mod(half as int, s as int);
        let c = half / s;
        assert(m == c * (2 * s) + 0) by (nonlinear_arith)
            requires
                m == 2 * half,
                half == s * c,
        ;
        lemma_fundamental_div_mod_converse(m as int, (2 * s) as int, c as int, 0);
    }
}

/// How many times the spacing at `m` has doubled.
pub open spec fn binade(m: nat) -> nat
    decreases m,
{
    if m < 0x100_0000 {
        0
    } else {
        1 + binade(m / 2)
    }
}

/// The spacing at `m` is two to the binade of `m`, and cuts `m` down to a
/// significand of at most 24 digits: of exactly 24 above the lowest binade.
pub proof fn lemma_binade(m: nat)
    ensures
        spacing(m) == pow2(binade(m)),
        m / pow2(binade(m)) < 0x100_0000,
        binade(m) > 0 ==> m / pow2(binade(m)) >= 0x80_0000,
    decreases m,
{
    lemma2_to64();
    if m < 0x100_0000 {
        assert(m / 1 == m);
    } else {
        let b = binade(m / 2);
        lemma_binade(m / 2);
        lemma_pow2_unfold(b + 1);
        lemma_pow2_pos(b);
        lemma_div_denominator(m as int, 2, pow2(b) as int);
        if b == 0 {
            assert((m / 2) / 1 == m / 2);
        }
    }
}

/// Rounding arrives at one of the two representable magnitudes around the
/// ratio: `q * s` and `(q + 1) * s`, where `s` is the spacing at the ratio
/// and `q` counts how many times `s` goes into it.  It stays where the
/// ratio is `q * s` exactly.
pub proof fn lemma_rounds_to_a_neighbour(num: nat, den: nat)
    requires
        den > 0,
    ensures
        ({
            let b = binade(num / den);
            let s = pow2(b);
            let q = (num / den) / s;
            let m = nearest_magnitude(num, den);
            &&& s > 0
            &&& q < 0x100_0000
            &&& b > 0 ==> q >= 0x80_0000
            &&& q * s * den <= num < (q + 1) * s * den
            &&& q * s <= num / den < (q + 1) * s
            &&& m == round_half_even_ratio(num, den * s) * s
            &&& m == q * s || m == (q + 1) * s
            &&& num == q * s * den ==> m == q * s
        }),
{
    let f = num / den;
    let b = binade(f);
    let s = pow2(b);
    let q = f / s;
    lemma_binade(f);
    lemma_pow2_pos(b);
    lemma_fundamental_div_mod(num as int, den as int);
    lemma_mod_bound(num as int, den as int);
    lemma_fundamental_div_mod(f as int, s as int);
    lemma_mod_bound(f as int, s as int);
    assert(q * s <= f < (q + 1) * s) by (nonlinear_arith)
        requires
            f == s * q + (f % s),
            0 <= (f % s) < s,
    ;
    assert(q * s * den <= num && num < (q + 1) * s * den) by (nonlinear_arith)
        requires
            num == den * f + (num % den),
            0 <= (num % den) < den,
            q * s <= f < (q + 1) * s,
    ;
    lemma_round_ratio(num, den, q, b);
    assert(q * s <= (q + 1) * s) by (nonlinear_arith)
        requires
            s > 0,
    ;
    assert(den * s > 0) by (nonlinear_arith)
        requires
            den > 0,
            s > 0,
    ;
}

/// Rounding is off by at most half the spacing at the ratio.
pub proof fn lemma_rounding_error(num: nat, den: nat)
    requires
        den > 0,
    ensures
        2 * vstd::math::abs(nearest_magnitude(num, den) * den - num) <= spacing(num / den) * den,
{
    let b = binade(num / den);
    let s = pow2(b);
    let q = (num / den) / s;
    let d = den * s;
    lemma_rounds_to_a_neighbour(num, den);
    lemma_binade(num / den);
    lemma_round_ratio(num, den, q, b);
    let r = num % d;
    let m = nearest_magnitude(num, den);
    assert(r == num - q * s * den);
    if m == q * s {
        assert(m * den == q * s * den);
        if r != 0 {
            assert(q * s != (q + 1) * s) by (nonlinear_arith)
                requires
                    s > 0,
            ;
            assert(round_half_even_ratio(num, d) == q) by (nonlinear_arith)
                requires
                    round_half_even_ratio(num, d) * s == q * s,
                    s > 0,
            ;
        }
        assert(s * den == d) by (nonlinear_arith)
            requires
                d == den * s,
        ;
    } else {
        assert(m * den == q * s * den + d) by (nonlinear_arith)
            requires
                m == (q + 1) * s,
                d == den * s,
        ;
        assert(round_half_even_ratio(num, d) == q + 1) by (nonlinear_arith)
            requires
                round_half_even_ratio(num, d) * s == (q + 1) * s,
                s > 0,
        ;
        assert(s * den == d) by (nonlinear_arith)
            requires
                d == den * s,
        ;
    }
}

/// Rounding always arrives at an encoding.  Below the overflow threshold
/// the result is finite and has the sign and the rounded magnitude that
/// were asked for; from the threshold on it is infinity.
pub proof fn lemma_rounded(negative: bool, num: nat, den: nat)
    requires
        den > 0,
    ensures
        ({
            let m = nearest_magnitude(num, den);
            let r = rounded(negative, num, den);
            if m >= overflow_threshold() {
                r == infinity(negative)
            } else {
                r.is_finite() && r.sign() == negative && r.magnitude() == m
            }
        }),
{
    let b = binade(num / den);
    let s = pow2(b);
    lemma_rounds_to_a_neighbour(num, den);
    let rounded_q = round_half_even_ratio(num, den * s);
    let m = nearest_magnitude(num, den);
    lemma_round_ratio(num, den, (num / den) / s, b);
    lemma_threshold(rounded_q, b);
    if m < overflow_threshold() {
        let sign_bit: nat = if negative {
            0x8000_0000
        } else {
            0
        };
        let witness = Binary32 { bits: (sign_bit + b * 0x80_0000 + rounded_q) as u32 };
        lemma_packed(negative, rounded_q, b, witness);
    }
}

/// Rounding does not pass the last value of a binade: a ratio of at most
/// `(2^24 - 1) * 2^j` rounds to at most that.
pub proof fn lemma_rounds_within(num: nat, den: nat, j: nat)
    requires
        den > 0,
        num <= 0xFF_FFFF * pow2(j) * den,
    ensures
        nearest_magnitude(num, den) <= 0xFF_FFFF * pow2(j),
{
    let top = pow2(j);
    let b = binade(num / den);
    let s = pow2(b);
    let q = (num / den) / s;
    lemma_rounds_to_a_neighbour(num, den);
    lemma_pow2_pos(j);
    assert(q * s < 0x100_0000 * top) by (nonlinear_arith)
        requires
            q * s * den <= num,
            num <= 0xFF_FFFF * top * den,
            den > 0,
            top > 0,
    ;
    if b > j {
        lemma_pow2_unfold(j + 1);
        if b > j + 1 {
            lemma_pow2_strictly_increases(j + 1, b);
        }
        assert(q * s >= 0x100_0000 * top) by (nonlinear_arith)
            requires
                q >= 0x80_0000,
                s >= 2 * top,
        ;
    } else if b == j {
        assert(q <= 0xFF_FFFF) by (nonlinear_arith)
            requires
                q * s * den <= num,
                num <= 0xFF_FFFF * s * den,
                den > 0,
                s > 0,
        ;
        if q == 0xFF_FFFF {
            assert(num == q * s * den) by (nonlinear_arith)
                requires
                    q * s * den <= num,
                    num <= 0xFF_FFFF * s * den,
                    q == 0xFF_FFFF,
            ;
        } else {
            assert((q + 1) * s <= 0xFF_FFFF * s) by (nonlinear_arith)
                requires
                    q < 0xFF_FFFF,
                    s > 0,
            ;
        }
    } else {
        lemma_pow2_unfold(b + 1);
        if b + 1 < j {
            lemma_pow2_strictly_increases(b + 1, j);
        }
        assert((q + 1) * s <= 0xFF_FFFF * top) by (nonlinear_arith)
            requires
                q < 0x100_0000,
                s > 0,
                2 * s <= top,
        ;
    }
}

/// Rounding does not fall below one: a ratio of at least `unit()` quanta
/// rounds to at least that.
pub proof fn lemma_rounds_from_one(num: nat, den: nat)
    requires
        den > 0,
        num >= unit() * den,
    ensures
        nearest_magnitude(num, den) >= unit(),
{
    lemma2_to64();
    let f = num / den;
    let b = binade(f);
    let s = pow2(b);
    let q = f / s;
    lemma_rounds_to_a_neighbour(num, den);
    lemma_pow2_adds(23, 126);
    lemma_fundamental_div_mod(num as int, den as int);
    lemma_mod_bound(num as int, den as int);
    assert(f >= unit()) by (nonlinear_arith)
        requires
            num >= unit() * den,
            num == den * f + (num % den),
            0 <= (num % den) < den,
            den > 0,
    ;
    if b >= 126 {
        if b > 126 {
            lemma_pow2_strictly_increases(126, b);
        }
        assert(q * s >= 0x80_0000 * pow2(126)) by (nonlinear_arith)
            requires
                q >= 0x80_0000,
                s >= pow2(126),
        ;
    } else {
        lemma_pow2_unfold(126);
        if b + 1 < 126 {
            lemma_pow2_strictly_increases(b + 1, 126);
        }
        lemma_pow2_unfold(b + 1);
        assert((q + 1) * s <= 0x80_0000 * pow2(126)) by (nonlinear_arith)
            requires
                q < 0x100_0000,
                2 * s <= pow2(126),
                s > 0,
        ;
        assert(false);
    }
}

/// A ratio rounds as it does in any other terms.
pub proof fn lemma_same_ratio(num: nat, den: nat, k: nat)
    requires
        den > 0,
        k > 0,
    ensures
        nearest_magnitude(k * num, k * den) == nearest_magnitude(num, den),
{
    let step = spacing(num / den);
    lemma_spacing_positive(num / den);
    lemma_div_multiples_vanish_quotient(k as int, num as int, den as int);
    let d = den * step;
    assert(d > 0) by (nonlinear_arith)
        requires
            den > 0,
            step > 0,
            d == den * step,
    ;
    assert((k * den) * step == k * d) by (nonlinear_arith)
        requires
            d == den * step,
    ;
    lemma_div_multiples_vanish_quotient(k as int, num as int, d as int);
    lemma_truncate_middle(num as int, k as int, d as int);
    let r = num % d;
    assert((k * num) % (k * d) == k * r);
    assert((2 * (k * r) < k * d) == (2 * r < d) && (2 * (k * r) == k * d) == (2 * r == d))
        by (nonlinear_arith)
        requires
            k > 0,
    ;
}

/// A finite value rounds to itself.
pub proof fn lemma_rounding_keeps_values(x: Binary32)
    requires
        x.is_finite(),
    ensures
        nearest_magnitude(x.magnitude(), 1) == x.magnitude(),
        x.magnitude() < overflow_threshold(),
        rounded(x.sign(), x.magnitude(), 1) == x,
{
    lemma2_to64();
    lemma_binade_bounds(x);
    let e = x.exponent();
    if e == 0 {
        assert(x.magnitude() * pow2(0) == x.magnitude()) by (nonlinear_arith)
            requires
                pow2(0) == 1,
        ;
        lemma_short_multiples_are_representable(x.magnitude(), 0);
        lemma_pow2_pos(253);
        assert(0x80_0000 <= 0x100_0000 * pow2(253)) by (nonlinear_arith)
            requires
                pow2(253) >= 1,
        ;
    } else {
        lemma_short_multiples_are_representable(0x80_0000 + x.fraction(), (e - 1) as nat);
        if e - 1 < 253 {
            lemma_pow2_strictly_increases((e - 1) as nat, 253);
        }
        assert(0x100_0000 * pow2((e - 1) as nat) <= 0x100_0000 * pow2(253)) by (nonlinear_arith)
            requires
                pow2((e - 1) as nat) <= pow2(253),
        ;
    }
    lemma_finite_is(x);
}

/// The number of binary digits of `n`.
pub(crate) fn bit_length(n: u64) -> (len: u32)
    requires
        n < 0x8000_0000_0000_0000,
    ensures
        len <= 63,
        n < pow2(len as nat),
        len > 0 ==> pow2((len - 1) as nat) <= n,
{
    let mut len: u32 = 0;
    let mut top: u64 = 1;
    proof {
        lemma2_to64();
    }
    while top <= n
        invariant
            top == pow2(len as nat),
            len <= 63,
            len > 0 ==> pow2((len - 1) as nat) <= n,
            n < 0x8000_0000_0000_0000,
        decreases 64 - len,
    {
        proof {
            lemma2_to64_rest();
            if len >= 63 {
                assert(false);
            }
            lemma_pow2_unfold((len + 1) as nat);
            if len + 1 < 63 {
                lemma_pow2_strictly_increases((len + 1) as nat, 63);
            }
        }
        top = top * 2;
        len = len + 1;
    }
    len
}

/// The encoding with the given sign of an exact magnitude `num / den`
/// quanta, of which the caller knows this much: it lies between
/// `n * 2^up / 2^down` and the same for `n + 1`, and `later` says whether
/// it lies above the former.
pub(crate) fn round_pack(
    negative: bool,
    n: u64,
    up: u32,
    down: u32,
    later: bool,
    Ghost(num): Ghost<nat>,
    Ghost(den): Ghost<nat>,
) -> (r: Binary32)
    requires
        0x200_0000 <= n < 0x8000_0000_0000_0000,
        up <= 0x1000,
        down <= 0x1000,
        den > 0,
        n * pow2(up as nat) * den <= num * pow2(down as nat),
        num * pow2(down as nat) < (n + 1) * pow2(up as nat) * den,
        later <==> n * pow2(up as nat) * den < num * pow2(down as nat),
    ensures
        r == rounded(negative, num, den),
{
    let sign_bit: u32 = if negative {
        0x8000_0000
    } else {
        0
    };
    let len = bit_length(n);
    proof {
        lemma2_to64();
        if len < 26 {
            lemma_pow2_strictly_increases(len as nat, 26);
        }
    }
    let natural: u32 = len - 24;
    let k: u32 = if down > up + natural {
        down - up
    } else {
        natural
    };
    if k >= 64 {
        let r = Binary32 { bits: sign_bit };
        proof {
            lemma_below_half(num, den, n as nat, up as nat, down as nat);
            lemma_round_below_half(num, den);
            lemma_pow2_pos(253);
            lemma_finite_is(r);
        }
        return r;
    }
    proof {
        lemma_u64_pow2_no_overflow(k as nat);
        lemma_u64_pow2_no_overflow((k - 1) as nat);
        assert(1 * pow2(k as nat) <= u64::MAX);
        assert(1 * pow2((k - 1) as nat) <= u64::MAX);
        lemma_u64_shl_is_mul(1, k as u64);
        lemma_u64_shl_is_mul(1, (k - 1) as u64);
        lemma_pow2_unfold(k as nat);
    }
    let step: u64 = 1u64 << k;
    let half: u64 = 1u64 << (k - 1);
    let q: u64 = n / step;
    let rem: u64 = n % step;
    let sig: u64 = if rem > half || (rem == half && (later || q % 2 == 1)) {
        q + 1
    } else {
        q
    };
    let j: u32 = up + k - down;
    proof {
        lemma_fundamental_div_mod(n as int, step as int);
        assert(n == q * step + rem) by (nonlinear_arith)
            requires
                n == step * q + rem,
        ;
        lemma_pow2_adds(24, natural as nat);
        lemma_pow2_adds(23, natural as nat);
        if k == natural {
            assert(0x80_0000 <= q < 0x100_0000) by (nonlinear_arith)
                requires
                    n == q * step + rem,
                    0 <= rem < step,
                    0x80_0000 * step <= n < 0x100_0000 * step,
            ;
        } else {
            lemma_pow2_unfold((natural + 1) as nat);
            if natural + 1 < k {
                lemma_pow2_strictly_increases((natural + 1) as nat, k as nat);
            }
            assert(q < 0x80_0000) by (nonlinear_arith)
                requires
                    n == q * step + rem,
                    0 <= rem,
                    n < 0x100_0000 * pow2(natural as nat),
                    2 * pow2(natural as nat) <= step,
            ;
        }
        lemma_round_decision(
            num,
            den,
            n as nat,
            up as nat,
            down as nat,
            later,
            k as nat,
            q as nat,
            rem as nat,
        );
        assert(nearest_magnitude(num, den) == sig * pow2(j as nat));
        lemma_threshold(sig as nat, j as nat);
    }
    if j >= 254 || (j == 253 && sig == 0x100_0000) {
        return Binary32 { bits: sign_bit + 0x7F80_0000 };
    }
    let r = Binary32 { bits: sign_bit + j * 0x80_0000 + sig as u32 };
    proof {
        lemma_packed(negative, sig as nat, j as nat, r);
        lemma_finite_is(r);
    }
    r
}

/// With sixty-four or more digits to drop, the value is below a half.
proof fn lemma_below_half(num: nat, den: nat, n: nat, up: nat, down: nat)
    requires
        n < 0x8000_0000_0000_0000,
        num * pow2(down) < (n + 1) * pow2(up) * den,
        down >= up + 64,
    ensures
        2 * num < den,
{
    lemma2_to64();
    lemma_pow2_adds(up, 64);
    lemma_pow2_pos(up);
    lemma_pow2_pos(down);
    if down > up + 64 {
        lemma_pow2_strictly_increases(up + 64, down);
    }
    let a = pow2(up);
    let b = pow2(down);
    assert(2 * num * b < b * den) by (nonlinear_arith)
        requires
            num * b < (n + 1) * a * den,
            n + 1 <= 0x8000_0000_0000_0000,
            0x1_0000_0000_0000_0000 * a <= b,
            a > 0,
    ;
    assert(2 * num < den) by (nonlinear_arith)
        requires
            2 * num * b < b * den,
            b > 0,
    ;
}

/// Where a rounded significand times a power of two reaches the overflow
/// threshold.
proof fn lemma_threshold(sig: nat, j: nat)
    requires
        sig <= 0x100_0000,
        0x80_0000 <= sig || j == 0,
    ensures
        (j >= 254 || (j == 253 && sig == 0x100_0000)) <==> sig * pow2(j) >= overflow_threshold(),
        !(j >= 254 || (j == 253 && sig == 0x100_0000)) ==> j * 0x80_0000 + sig < 0x7F80_0000,
{
    lemma_pow2_unfold(254);
    lemma_pow2_pos(253);
    lemma_pow2_pos(j);
    if j >= 254 {
        if j > 254 {
            lemma_pow2_strictly_increases(254, j);
        }
        assert(sig * pow2(j) >= 0x80_0000 * (2 * pow2(253))) by (nonlinear_arith)
            requires
                sig >= 0x80_0000,
                pow2(j) >= 2 * pow2(253),
        ;
    } else if j == 253 {
        assert(sig < 0x100_0000 ==> sig * pow2(253) < 0x100_0000 * pow2(253))
            by (nonlinear_arith)
            requires
                pow2(253) > 0,
        ;
    } else {
        lemma_pow2_strictly_increases(j, 253);
        assert(sig * pow2(j) < 0x100_0000 * pow2(253)) by (nonlinear_arith)
            requires
                sig <= 0x100_0000,
                0 < pow2(j) < pow2(253),
        ;
    }
}

/// Gives a short number enough digits for rounding, by twenty-five more.
pub(crate) fn widen(n: u64) -> (r: (u64, u32))
    requires
        0 < n < 0x8000_0000_0000_0000,
    ensures
        r.0 == n * pow2(r.1 as nat),
        0x200_0000 <= r.0 < 0x8000_0000_0000_0000,
        r.1 <= 25,
{
    proof {
        lemma2_to64();
    }
    if n < 0x200_0000 {
        (n * 0x200_0000, 25)
    } else {
        assert(n * pow2(0) == n) by (nonlinear_arith)
            requires
                pow2(0) == 1,
        ;
        (n, 0)
    }
}

} // verus!
