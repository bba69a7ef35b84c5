//! What holds of the oscillator over whole runs of calls.
use vstd::prelude::*;
use vstd::arithmetic::div_mod::*;
use vstd::arithmetic::power2::*;
use crate::arithmetic::{lemma_one, lemma_over_one, lemma_wrap_is_exact, one};
use crate::conversion::{lemma_nearest_i32_in_range, lemma_small_integers_are_exact};
use crate::binary32::{lemma_below_one, lemma_encoding_unique, lemma_gap_below, unit, Binary32};
use crate::interface::SoundParameter;
use crate::rounding::{
    lemma_finite_is, lemma_round_below_half, lemma_rounded, lemma_rounding_error,
    lemma_rounding_keeps_values, lemma_rounds_from_one, lemma_rounds_within, nearest_magnitude,
    spacing,
};
use crate::simplex2::{silence, OscillatorState};

verus! {

/// One sample moves the phase by frequency over sample rate, within the
/// tolerance of single-precision arithmetic.  The step is the quotient of
/// frequency and sample rate, and the advanced phase the sum of phase and
/// step, each off by at most half the spacing of single-precision values
/// at the exact result.
pub proof fn law_advance_is_within_tolerance(state: OscillatorState)
    requires
        state.sample_rate != 0,
        state.phase.is_finite(),
        state.frequency.is_finite(),
        state.step().is_finite(),
        state.advanced().is_finite(),
    ensures
        ({
            let rate = Binary32::of_int(state.sample_rate as int).magnitude();
            let exact = state.frequency.magnitude() * unit();
            2 * vstd::math::abs(state.step().magnitude() * rate - exact) <= spacing(exact / rate)
                * rate
        }),
        ({
            let exact = state.phase.quanta() + state.step().quanta();
            2 * vstd::math::abs(state.advanced().quanta() - exact) <= spacing(
                vstd::math::abs(exact) as nat,
            )
        }),
{
    let rate = Binary32::of_int(state.sample_rate as int);
    lemma_converted_rate(state.sample_rate);
    lemma_pow2_pos(149);
    let negative = state.frequency.sign() != rate.sign();
    lemma_rounded(negative, state.frequency.magnitude() * unit(), rate.magnitude());
    lemma_rounding_error(state.frequency.magnitude() * unit(), rate.magnitude());
    let exact = state.phase.quanta() + state.step().quanta();
    if exact == 0 {
        let zero = Binary32 {
            bits: if state.phase.sign() && state.step().sign() {
                0x8000_0000
            } else {
                0
            },
        };
        assert(zero.is_finite() && zero.sign() == (state.phase.sign() && state.step().sign())
            && zero.magnitude() == 0);
        lemma_finite_is(zero);
    } else {
        let size = vstd::math::abs(exact) as nat;
        lemma_rounded(exact < 0, size, 1);
        lemma_rounding_error(size, 1);
        assert(size / 1 == size);
    }
}

/// A phase that was advanced to a value of at least zero and below two is
/// stored as a phase of at least zero and below one: the same point of the
/// cycle, with nothing lost to rounding.
pub proof fn law_phase_is_brought_into_the_cycle(state: OscillatorState)
    requires
        state.advanced().is_finite(),
        0 <= state.advanced().quanta() < 2 * unit(),
    ensures
        state.after_sample().phase.is_finite(),
        0 <= state.after_sample().phase.quanta() < unit(),
        state.after_sample().phase.quanta() == state.advanced().quanta() % (unit() as int),
{
    let advanced = state.advanced();
    lemma_pow2_pos(149);
    lemma2_to64();
    if advanced.at_least_one() {
        lemma_pow2_adds(1, 149);
        assert(2 * unit() <= 0x100_0000 * unit()) by (nonlinear_arith);
        lemma_wrap_is_exact(advanced);
        lemma_fundamental_div_mod_converse(
            advanced.quanta(),
            unit() as int,
            1,
            advanced.wrapped().quanta(),
        );
    } else {
        lemma_small_mod(advanced.quanta() as nat, unit());
    }
}

/// The value lies within the cycle: it is at least zero and below one.
pub open spec fn in_cycle(x: Binary32) -> bool {
    x.is_finite() && 0 <= x.quanta() < unit()
}

/// The phase never leaves the cycle.  If the phase lies within the cycle,
/// and so does the step, frequency over sample rate, then the phase one
/// sample on lies within the cycle again.
pub proof fn law_phase_stays_in_cycle(state: OscillatorState)
    requires
        in_cycle(state.phase),
        in_cycle(state.step()),
    ensures
        in_cycle(state.after_sample().phase),
{
    let a = state.phase;
    let b = state.step();
    let exact = a.quanta() + b.quanta();
    lemma_below_one(a);
    lemma_below_one(b);
    lemma_pow2_pos(149);
    lemma_pow2_pos(125);
    lemma_pow2_unfold(126);
    lemma_pow2_adds(24, 125);
    lemma2_to64();
    if exact == 0 {
        let zero = Binary32 {
            bits: if a.sign() && b.sign() {
                0x8000_0000
            } else {
                0
            },
        };
        assert(zero.is_finite() && zero.sign() == (a.sign() && b.sign()) && zero.magnitude()
            == 0);
        lemma_finite_is(zero);
    } else {
        let total = exact as nat;
        assert(total <= 2 * unit() - pow2(126));
        lemma_sum_below_two(total);
        lemma_rounded(false, total, 1);
        lemma_pow2_strictly_increases(150, 253);
        lemma_pow2_unfold(150);
        assert(2 * unit() < 0x100_0000 * pow2(253)) by (nonlinear_arith)
            requires
                2 * unit() < pow2(253),
        ;
        law_phase_is_brought_into_the_cycle(state);
    }
}

/// A sum of at most the last value before two rounds to less than two.
proof fn lemma_sum_below_two(total: nat)
    requires
        total <= 2 * unit() - pow2(126),
    ensures
        nearest_magnitude(total, 1) < 2 * unit(),
{
    lemma2_to64();
    lemma_pow2_adds(24, 126);
    lemma_pow2_unfold(150);
    lemma_pow2_pos(126);
    assert(2 * unit() == 0x100_0000 * pow2(126));
    assert(total <= 0xFF_FFFF * pow2(126) * 1) by (nonlinear_arith)
        requires
            total <= 0x100_0000 * pow2(126) - pow2(126),
    ;
    lemma_rounds_within(total, 1, 126);
}

/// The step is a proper fraction of a cycle wherever the frequency is not
/// negative and is below the sample rate, as converted: then it lies
/// within the cycle.
pub proof fn law_step_below_rate_is_in_cycle(state: OscillatorState)
    requires
        state.sample_rate != 0,
        state.frequency.is_finite(),
        0 <= state.frequency.quanta() < Binary32::of_int(state.sample_rate as int).quanta(),
    ensures
        in_cycle(state.step()),
{
    let f = state.frequency;
    let rate = Binary32::of_int(state.sample_rate as int);
    lemma_converted_rate(state.sample_rate);
    lemma2_to64();
    lemma_pow2_pos(149);
    lemma_pow2_pos(125);
    lemma_pow2_adds(24, 125);
    let mf = f.magnitude();
    let mr = rate.magnitude();
    assert(mf < mr);
    lemma_gap_below(f, rate);
    // The exact quotient is at most the last value before one.
    assert(mf * unit() <= 0xFF_FFFF * pow2(125) * mr) by (nonlinear_arith)
        requires
            0x100_0000 * mf <= 0xFF_FFFF * mr,
            unit() == 0x100_0000 * pow2(125),
    ;
    lemma_rounds_within(mf * unit(), mr, 125);
    let negative = f.sign() != rate.sign();
    lemma_rounded(negative, mf * unit(), mr);
    lemma_pow2_strictly_increases(125, 253);
    assert(0xFF_FFFF * pow2(125) < 0x100_0000 * pow2(253)) by (nonlinear_arith)
        requires
            pow2(125) < pow2(253),
    ;
    assert(0xFF_FFFF * pow2(125) < unit()) by (nonlinear_arith)
        requires
            unit() == 0x100_0000 * pow2(125),
            pow2(125) > 0,
    ;
    let step = state.step();
    assert(step.is_finite() && step.magnitude() < unit());
    if negative {
        // Only a frequency of negative zero gets here.
        assert(mf == 0);
        assert(0 * unit() == 0) by (nonlinear_arith);
        lemma_round_below_half(0, mr);
    }
}

/// The phase never leaves the cycle while the frequency is not negative
/// and is below the sample rate.
pub proof fn law_phase_stays_in_cycle_below_rate(state: OscillatorState)
    requires
        in_cycle(state.phase),
        state.sample_rate != 0,
        state.frequency.is_finite(),
        0 <= state.frequency.quanta() < Binary32::of_int(state.sample_rate as int).quanta(),
    ensures
        in_cycle(state.after_sample().phase),
{
    law_step_below_rate_is_in_cycle(state);
    law_phase_stays_in_cycle(state);
}

/// However many samples follow, the phase is within the cycle after each
/// of them, if it was to begin with and the frequency is not
/// negative and is below the sample rate.
pub proof fn law_phase_is_always_in_cycle(state: OscillatorState, n: nat)
    requires
        in_cycle(state.phase),
        state.sample_rate != 0,
        state.frequency.is_finite(),
        0 <= state.frequency.quanta() < Binary32::of_int(state.sample_rate as int).quanta(),
    ensures
        in_cycle(state.after_samples(n).phase),
    decreases n,
{
    if n > 0 {
        let earlier = state.after_samples((n - 1) as nat);
        law_phase_is_always_in_cycle(state, (n - 1) as nat);
        law_generation_keeps_settings(state, (n - 1) as nat);
        law_phase_stays_in_cycle_below_rate(earlier);
    }
}

/// A sample rate converts to a finite positive value of at least one.
proof fn lemma_converted_rate(rate: u32)
    requires
        rate != 0,
    ensures
        Binary32::of_int(rate as int).is_finite(),
        !Binary32::of_int(rate as int).sign(),
        Binary32::of_int(rate as int).magnitude() >= unit(),
{
    lemma2_to64();
    lemma_pow2_pos(149);
    let n = rate as nat;
    let num = n * unit();
    // At most 2^32, rounded or not.
    lemma_pow2_adds(9, 149);
    assert(num <= 0xFF_FFFF * pow2(158) * 1) by (nonlinear_arith)
        requires
            num == n * unit(),
            n < 0x1_0000_0000,
            pow2(158) == pow2(9) * pow2(149),
            pow2(9) == 512,
            unit() == pow2(149),
    ;
    lemma_rounds_within(num, 1, 158);
    lemma_pow2_strictly_increases(158, 253);
    assert(0xFF_FFFF * pow2(158) < 0x100_0000 * pow2(253)) by (nonlinear_arith)
        requires
            pow2(158) < pow2(253),
    ;
    lemma_rounded(false, num, 1);
    // At least one, rounded or not.
    assert(num >= unit() * 1) by (nonlinear_arith)
        requires
            num == n * unit(),
            n >= 1,
    ;
    lemma_rounds_from_one(num, 1);
}

/// The rollover latch after `n` samples is set exactly if it was set
/// before or one of the samples wrapped.  So generating never clears it, a
/// latch left unread stays set however many samples follow, and after a
/// read it tells whether there has been a wrap since.
pub proof fn law_rollover_latches(state: OscillatorState, n: nat)
    ensures
        state.after_samples(n).rollover == (state.rollover || exists|k: nat|
            k < n && (#[trigger] state.after_samples(k)).advanced().at_least_one()),
    decreases n,
{
    if n > 0 {
        let m = (n - 1) as nat;
        law_rollover_latches(state, m);
        let wrapped_before = exists|k: nat|
            k < m && (#[trigger] state.after_samples(k)).advanced().at_least_one();
        let wrapped_now = state.after_samples(m).advanced().at_least_one();
        let wrapped = exists|k: nat|
            k < n && (#[trigger] state.after_samples(k)).advanced().at_least_one();
        if wrapped_before {
            let k = choose|k: nat|
                k < m && (#[trigger] state.after_samples(k)).advanced().at_least_one();
            assert(k < n && state.after_samples(k).advanced().at_least_one());
        }
        if wrapped_now {
            assert(m < n && state.after_samples(m).advanced().at_least_one());
        }
        if wrapped {
            let k = choose|k: nat|
                k < n && (#[trigger] state.after_samples(k)).advanced().at_least_one();
            if k < m {
                assert(wrapped_before);
            } else {
                assert(k == m);
            }
        }
    }
}

/// A read of the latch and `n` samples later, the latch is set exactly if
/// one of those samples wrapped: each wrap is seen by the next read, and
/// by that read only.
pub proof fn law_read_sees_wraps_since_last_read(state: OscillatorState, n: nat)
    ensures
        ({
            let cleared = OscillatorState { rollover: false, ..state };
            cleared.after_samples(n).rollover == exists|k: nat|
                k < n && (#[trigger] cleared.after_samples(k)).advanced().at_least_one()
        }),
{
    law_rollover_latches(OscillatorState { rollover: false, ..state }, n);
}

/// Samples change the phase and the rollover latch and nothing else:
/// rate, frequency, radius, harmonics and seed are as they were.
pub proof fn law_generation_keeps_settings(state: OscillatorState, n: nat)
    ensures
        state.after_samples(n) == (OscillatorState {
            phase: state.after_samples(n).phase,
            rollover: state.after_samples(n).rollover,
            ..state
        }),
    decreases n,
{
    if n > 0 {
        law_generation_keeps_settings(state, (n - 1) as nat);
    }
}

/// Without harmonics there are no terms and the sample is silence,
/// positive zero, whatever the phase, the frequency and the seed, and
/// whatever the noise field holds.
pub proof fn law_no_harmonics_give_silence(
    state: OscillatorState,
    sine: Binary32,
    noises: Seq<Binary32>,
    i: int,
)
    requires
        state.harmonics <= 0,
    ensures
        state.harmonic_term(sine, i) is None,
        state.sample(sine, noises) == silence(),
        silence().bits == 0,
{
}

/// With one harmonic there is one term.  It reads the noise field with
/// the oscillator's own seed at a point whose coordinates are zero,
/// whatever the phase and the radius, as long as sine times radius is
/// finite; its divisor is one.  The sample has the value that was read
/// there, and is that very encoding unless what was read is negative zero.
pub proof fn law_single_harmonic_reads_the_origin(
    state: OscillatorState,
    sine: Binary32,
    noises: Seq<Binary32>,
    i: int,
)
    requires
        state.harmonics == 1,
        sine.product(state.radius).is_finite(),
        noises.len() == 1,
    ensures
        state.harmonic_term(sine, 0) is Some,
        state.harmonic_term(sine, 0)->0.seed == state.seed,
        state.harmonic_term(sine, 0)->0.x.is_zero(),
        state.harmonic_term(sine, 0)->0.y.is_zero(),
        state.harmonic_term(sine, 0)->0.divisor == one(),
        i != 0 ==> state.harmonic_term(sine, i) is None,
        !noises[0].is_nan() ==> state.sample(sine, noises)@ == noises[0]@,
        !noises[0].is_nan() && !(noises[0].is_zero() && noises[0].sign()) ==> state.sample(
            sine,
            noises,
        ) == noises[0],
{
    let term = state.harmonic_term(sine, 0)->0;
    let noise = noises[0];
    lemma_pow2_pos(149);
    lemma_pow2_pos(253);
    // The divisor is one, the coordinates are zero.
    lemma_small_integers_are_exact(1);
    lemma_one();
    lemma_encoding_unique(Binary32::of_int(1), one());
    lemma_small_integers_are_exact(0);
    let base = sine.product(state.radius);
    let zero = Binary32::of_int(0);
    assert(zero.magnitude() == 0);
    assert(base.magnitude() * zero.magnitude() == 0) by (nonlinear_arith)
        requires
            zero.magnitude() == 0,
    ;
    lemma_round_below_half(0, unit());
    lemma_rounded(base.sign() != zero.sign(), 0, unit());
    // The running total after the one term.
    assert(state.running_total(sine, noises, 0) == silence());
    assert(state.sample(sine, noises) == term.accumulated(silence(), noise));
    if !noise.is_nan() {
        lemma_over_one(noise);
        assert(noise.quotient(one()) == noise);
        assert(silence().is_finite() && !silence().sign() && silence().magnitude() == 0);
        if noise.is_finite() {
            if noise.quanta() == 0 {
                let positive_zero = Binary32 { bits: 0 };
                assert(positive_zero.is_finite() && !positive_zero.sign()
                    && positive_zero.magnitude() == 0);
                lemma_finite_is(positive_zero);
                if !noise.sign() {
                    lemma_encoding_unique(noise, positive_zero);
                }
            } else {
                lemma_rounding_keeps_values(noise);
            }
        }
    }
}

/// The terms of a sample are numbered from zero without gaps; each
/// divides by one more than its index, seeds are a hundred apart, and
/// both coordinates of a term are the same.
pub proof fn law_harmonic_terms_are_regular(state: OscillatorState, sine: Binary32, i: int)
    requires
        0 <= i < state.harmonic_count(),
    ensures
        state.harmonic_term(sine, i) is Some,
        state.harmonic_term(sine, i)->0.index == i,
        state.harmonic_term(sine, i)->0.divisor == Binary32::of_int(i + 1),
        state.harmonic_term(sine, i)->0.seed == state.seed + 100 * i,
        state.harmonic_term(sine, i)->0.x == state.harmonic_term(sine, i)->0.y,
        state.harmonic_term(sine, state.harmonic_count() as int) is None,
{
}

/// The four parameter names differ from one another, so a name selects at
/// most one parameter.
pub proof fn law_names_are_distinct()
    ensures
        "Frequency"@ != "Radius"@,
        "Frequency"@ != "Harmonics"@,
        "Frequency"@ != "Seed"@,
        "Radius"@ != "Harmonics"@,
        "Radius"@ != "Seed"@,
        "Harmonics"@ != "Seed"@,
{
    reveal_strlit("Frequency");
    reveal_strlit("Radius");
    reveal_strlit("Harmonics");
    reveal_strlit("Seed");
    assert("Frequency"@.len() == 9);
    assert("Radius"@.len() == 6);
    assert("Harmonics"@.len() == 9);
    assert("Seed"@.len() == 4);
    assert("Frequency"@[0] == 'F');
    assert("Harmonics"@[0] == 'H');
}

/// The parameters that can be written are the ones that are listed: a
/// write is taken exactly if some descriptor carries its name.
pub proof fn law_listed_names_are_the_known_ones(
    state: OscillatorState,
    name: Seq<char>,
    value: Binary32,
    listed: Seq<SoundParameter>,
)
    requires
        state.described_by(listed),
    ensures
        state.written(name, value) is Some <==> exists|i: int|
            0 <= i < listed.len() && (#[trigger] listed[i]).name@ == name,
{
    if state.written(name, value) is Some {
        let i: int = if name == "Frequency"@ {
            0
        } else if name == "Radius"@ {
            1
        } else if name == "Harmonics"@ {
            2
        } else {
            3
        };
        assert(listed[i].name@ == name);
    }
}

/// The descriptors show what was last written.  After a write to a
/// parameter, its descriptor carries the written value itself (frequency,
/// radius: unclamped, whatever the advised range) or the conversion of the
/// integer that was stored (harmonics, seed), and the other three
/// descriptors carry what they carried before.
pub proof fn law_descriptors_reflect_last_write(
    before: OscillatorState,
    name: Seq<char>,
    value: Binary32,
    after: OscillatorState,
    listed_before: Seq<SoundParameter>,
    listed_after: Seq<SoundParameter>,
)
    requires
        before.written(name, value) == Some(after),
        before.described_by(listed_before),
        after.described_by(listed_after),
    ensures
        name == "Frequency"@ ==> listed_after[0].value == value,
        name == "Radius"@ ==> listed_after[1].value == value,
        name == "Harmonics"@ ==> listed_after[2].value == Binary32::of_int(value.nearest_i32()),
        name == "Seed"@ ==> listed_after[3].value == Binary32::of_int(value.nearest_i32()),
        name != "Frequency"@ ==> listed_after[0].value == listed_before[0].value,
        name != "Radius"@ ==> listed_after[1].value == listed_before[1].value,
        name != "Harmonics"@ ==> listed_after[2].value == listed_before[2].value,
        name != "Seed"@ ==> listed_after[3].value == listed_before[3].value,
{
    law_names_are_distinct();
    lemma_nearest_i32_in_range(value);
}

/// Generating samples does not move the descriptors.
pub proof fn law_descriptors_ignore_generation(
    state: OscillatorState,
    n: nat,
    listed_before: Seq<SoundParameter>,
    listed_after: Seq<SoundParameter>,
    i: int,
)
    requires
        state.described_by(listed_before),
        state.after_samples(n).described_by(listed_after),
        0 <= i < 4,
    ensures
        listed_after[i].value == listed_before[i].value,
{
    law_generation_keeps_settings(state, n);
}

} // verus!
