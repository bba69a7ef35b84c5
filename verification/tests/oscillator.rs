use simplex_oscillator::binary32::Binary32;
use simplex_oscillator::interface::{same_text, ParamType, SoundAlgorithm, SoundError};
use simplex_oscillator::simplex2::{HarmonicTerm, SimplexOscillator2};

fn single(x: f32) -> Binary32 {
    Binary32 { bits: x.to_bits() }
}

fn float(x: Binary32) -> f32 {
    f32::from_bits(x.bits)
}

fn range(kind: ParamType) -> (f32, f32) {
    match kind {
        ParamType::Float { min, max } => (float(min), float(max)),
    }
}

/// An oscillator that moves `frequency / rate` of a cycle with each sample.
fn stepping(frequency: f32, rate: u32) -> SimplexOscillator2 {
    let mut osc = SimplexOscillator2::new();
    osc.set_sample_rate(rate);
    osc.update_parameter("Frequency", single(frequency)).expect("a known name");
    osc
}

#[test]
fn a_new_oscillator_has_the_defaults() {
    let state = SimplexOscillator2::new().state();
    assert_eq!(state.sample_rate, 0);
    assert_eq!(state.phase.bits, 0);
    assert!(!state.rollover);
    assert_eq!(float(state.frequency), 220.0);
    assert_eq!(float(state.radius), 1.0);
    assert_eq!(state.harmonics, 1);
    assert_eq!(state.seed, 0);
}

#[test]
fn the_name_is_fixed() {
    assert_eq!(SimplexOscillator2::new().get_name(), "Simplex harmonics");
}

#[test]
fn set_sample_rate_keeps_everything_else() {
    let mut osc = stepping(5.0, 4);
    assert_eq!(osc.advance_phase(), Ok(()));
    let before = osc.state();
    assert_eq!(float(before.phase), 0.25);
    assert!(before.rollover);
    osc.set_sample_rate(48_000);
    let after = osc.state();
    assert_eq!(after.sample_rate, 48_000);
    assert_eq!(after.phase, before.phase);
    assert_eq!(after.rollover, before.rollover);
    assert_eq!(after.frequency, before.frequency);
    assert_eq!(after.radius, before.radius);
    assert_eq!(after.harmonics, before.harmonics);
    assert_eq!(after.seed, before.seed);
}

#[test]
fn a_new_sample_rate_takes_effect_with_the_next_sample() {
    let mut osc = stepping(1.0, 4);
    assert_eq!(osc.advance_phase(), Ok(()));
    assert_eq!(float(osc.state().phase), 0.25);
    osc.set_sample_rate(8);
    assert_eq!(osc.advance_phase(), Ok(()));
    assert_eq!(float(osc.state().phase), 0.375);
}

#[test]
fn parameters_lists_the_four_in_order() {
    let list = SimplexOscillator2::new().parameters();
    assert_eq!(list.len(), 4);
    let names: Vec<&str> = list.iter().map(|p| p.name).collect();
    assert_eq!(names, vec!["Frequency", "Radius", "Harmonics", "Seed"]);
    assert_eq!(range(list[0].param_type), (22.0, 880.0));
    assert_eq!(range(list[1].param_type), (0.0, 10.0));
    assert_eq!(range(list[2].param_type), (1.0, 10.0));
    assert_eq!(range(list[3].param_type), (0.0, 10.0));
    assert_eq!(float(list[0].value), 220.0);
    assert_eq!(float(list[1].value), 1.0);
    assert_eq!(float(list[2].value), 1.0);
    assert_eq!(float(list[3].value), 0.0);
}

#[test]
fn parameters_reflect_the_latest_writes() {
    let mut osc = SimplexOscillator2::new();
    assert_eq!(osc.update_parameter("Frequency", single(440.5)), Ok(()));
    assert_eq!(osc.update_parameter("Radius", single(2.25)), Ok(()));
    assert_eq!(osc.update_parameter("Harmonics", single(7.0)), Ok(()));
    assert_eq!(osc.update_parameter("Seed", single(3.0)), Ok(()));
    assert_eq!(osc.update_parameter("Radius", single(4.5)), Ok(()));
    let list = osc.parameters();
    assert_eq!(float(list[0].value), 440.5);
    assert_eq!(float(list[1].value), 4.5);
    assert_eq!(float(list[2].value), 7.0);
    assert_eq!(float(list[3].value), 3.0);
}

#[test]
fn the_harmonics_descriptor_shows_the_harmonics_not_the_radius() {
    let mut osc = SimplexOscillator2::new();
    assert_eq!(osc.update_parameter("Radius", single(9.0)), Ok(()));
    assert_eq!(osc.update_parameter("Harmonics", single(5.0)), Ok(()));
    let list = osc.parameters();
    assert_eq!(float(list[1].value), 9.0);
    assert_eq!(float(list[2].value), 5.0);
}

#[test]
fn parameters_is_a_snapshot() {
    let mut osc = SimplexOscillator2::new();
    let earlier = osc.parameters();
    assert_eq!(osc.update_parameter("Frequency", single(100.0)), Ok(()));
    assert_eq!(float(earlier[0].value), 220.0);
    assert_eq!(float(osc.parameters()[0].value), 100.0);
}

#[test]
fn parameters_are_not_moved_by_generation() {
    let mut osc = stepping(3.0, 4);
    let before: Vec<u32> = osc.parameters().iter().map(|p| p.value.bits).collect();
    for _ in 0..10 {
        assert_eq!(osc.advance_phase(), Ok(()));
    }
    let after: Vec<u32> = osc.parameters().iter().map(|p| p.value.bits).collect();
    assert_eq!(before, after);
}

#[test]
fn harmonics_are_rounded_to_the_nearest_integer() {
    let mut osc = SimplexOscillator2::new();
    assert_eq!(osc.update_parameter("Harmonics", single(3.6)), Ok(()));
    assert_eq!(osc.state().harmonics, 4);
    assert_eq!(osc.update_parameter("Harmonics", single(3.4)), Ok(()));
    assert_eq!(osc.state().harmonics, 3);
    assert_eq!(osc.update_parameter("Harmonics", single(2.5)), Ok(()));
    assert_eq!(osc.state().harmonics, 3);
}

#[test]
fn the_seed_is_rounded_to_the_nearest_integer() {
    let mut osc = SimplexOscillator2::new();
    assert_eq!(osc.update_parameter("Seed", single(-2.4)), Ok(()));
    assert_eq!(osc.state().seed, -2);
    assert_eq!(osc.update_parameter("Seed", single(-2.5)), Ok(()));
    assert_eq!(osc.state().seed, -3);
    assert_eq!(osc.update_parameter("Seed", single(1.0e12)), Ok(()));
    assert_eq!(osc.state().seed, i32::MAX);
    assert_eq!(osc.update_parameter("Seed", single(f32::NAN)), Ok(()));
    assert_eq!(osc.state().seed, 0);
}

#[test]
fn an_unknown_name_is_refused_and_changes_nothing() {
    let mut osc = SimplexOscillator2::new();
    let before = osc.state();
    assert_eq!(osc.update_parameter("Bogus", single(1.0)), Err(SoundError::UnknownParameter));
    assert_eq!(osc.state(), before);
}

#[test]
fn names_are_matched_exactly() {
    let mut osc = SimplexOscillator2::new();
    let before = osc.state();
    for name in ["frequency", "FREQUENCY", "Frequency ", " Frequency", "Freq", "", "Seeds", "Harmonic"] {
        assert_eq!(
            osc.update_parameter(name, single(1.0)),
            Err(SoundError::UnknownParameter),
            "writing to {name:?}"
        );
    }
    assert_eq!(osc.state(), before);
}

#[test]
fn a_write_touches_one_field() {
    let mut osc = SimplexOscillator2::new();
    osc.set_sample_rate(8_000);
    let before = osc.state();
    assert_eq!(osc.update_parameter("Radius", single(0.5)), Ok(()));
    let after = osc.state();
    assert_eq!(float(after.radius), 0.5);
    assert_eq!(after.sample_rate, before.sample_rate);
    assert_eq!(after.phase, before.phase);
    assert_eq!(after.rollover, before.rollover);
    assert_eq!(after.frequency, before.frequency);
    assert_eq!(after.harmonics, before.harmonics);
    assert_eq!(after.seed, before.seed);
}

#[test]
fn writes_are_not_clamped_to_the_advised_range() {
    let mut osc = SimplexOscillator2::new();
    assert_eq!(osc.update_parameter("Frequency", single(10_000.0)), Ok(()));
    assert_eq!(osc.update_parameter("Radius", single(-3.0)), Ok(()));
    assert_eq!(osc.update_parameter("Harmonics", single(50.0)), Ok(()));
    assert_eq!(osc.update_parameter("Seed", single(-7.0)), Ok(()));
    let list = osc.parameters();
    assert_eq!(float(list[0].value), 10_000.0);
    assert_eq!(float(list[1].value), -3.0);
    assert_eq!(float(list[2].value), 50.0);
    assert_eq!(float(list[3].value), -7.0);
    assert_eq!(float(osc.debug_get_freq()), 10_000.0);
}

#[test]
fn real_parameters_keep_every_bit_of_what_was_written() {
    let mut osc = SimplexOscillator2::new();
    let odd = Binary32 { bits: 0x7FC0_1234 };
    assert_eq!(osc.update_parameter("Frequency", odd), Ok(()));
    assert_eq!(osc.update_parameter("Radius", single(-0.0)), Ok(()));
    assert_eq!(osc.state().frequency.bits, 0x7FC0_1234);
    assert_eq!(osc.state().radius.bits, 0x8000_0000);
}

#[test]
fn debug_get_freq_peeks_without_effect() {
    let mut osc = SimplexOscillator2::new();
    let before = osc.state();
    assert_eq!(float(osc.debug_get_freq()), 220.0);
    assert_eq!(osc.state(), before);
}

#[test]
fn generation_is_refused_without_a_sample_rate() {
    let mut osc = SimplexOscillator2::new();
    let before = osc.state();
    assert_eq!(osc.advance_phase(), Err(SoundError::NotConfigured));
    assert_eq!(osc.advance_phase(), Err(SoundError::NotConfigured));
    assert_eq!(osc.state(), before);
    osc.set_sample_rate(440);
    assert_eq!(osc.advance_phase(), Ok(()));
    assert_eq!(float(osc.state().phase), 0.5);
    osc.set_sample_rate(0);
    assert_eq!(osc.advance_phase(), Err(SoundError::NotConfigured));
    assert_eq!(float(osc.state().phase), 0.5);
}

#[test]
fn the_phase_advances_by_frequency_over_rate() {
    let mut osc = stepping(220.0, 44_100);
    assert_eq!(osc.advance_phase(), Ok(()));
    assert_eq!(osc.state().phase.bits, (220.0f32 / 44_100.0).to_bits());
    assert_eq!(osc.advance_phase(), Ok(()));
    let twice = 220.0f32 / 44_100.0 + 220.0f32 / 44_100.0;
    assert_eq!(osc.state().phase.bits, twice.to_bits());
}

#[test]
fn the_phase_wraps_by_exactly_one() {
    let mut osc = stepping(3.0, 8);
    assert_eq!(osc.advance_phase(), Ok(()));
    assert_eq!(float(osc.state().phase), 0.375);
    assert_eq!(osc.advance_phase(), Ok(()));
    assert_eq!(float(osc.state().phase), 0.75);
    assert!(!osc.state().rollover);
    assert_eq!(osc.advance_phase(), Ok(()));
    assert_eq!(float(osc.state().phase), 0.125);
    assert!(osc.state().rollover);
}

#[test]
fn a_phase_that_lands_on_one_wraps_to_zero() {
    let mut osc = stepping(1.0, 4);
    for _ in 0..3 {
        assert_eq!(osc.advance_phase(), Ok(()));
        assert!(!osc.state().rollover);
    }
    assert_eq!(osc.advance_phase(), Ok(()));
    assert_eq!(osc.state().phase.bits, 0);
    assert!(osc.state().rollover);
}

#[test]
fn the_phase_wraps_once_however_far_it_went() {
    let mut osc = stepping(880.0, 1);
    assert_eq!(osc.advance_phase(), Ok(()));
    assert_eq!(float(osc.state().phase), 879.0);
    assert!(osc.state().rollover);
}

#[test]
fn a_falling_phase_never_wraps() {
    let mut osc = stepping(-1.0, 4);
    for _ in 0..8 {
        assert_eq!(osc.advance_phase(), Ok(()));
    }
    assert_eq!(float(osc.state().phase), -2.0);
    assert!(!osc.state().rollover);
}

#[test]
fn the_rollover_flag_latches_until_read() {
    let mut osc = stepping(1.0, 4);
    assert!(!osc.debug_get_and_clear_cycle_flag());
    for _ in 0..3 {
        assert_eq!(osc.advance_phase(), Ok(()));
    }
    assert!(!osc.state().rollover);
    assert_eq!(osc.advance_phase(), Ok(()));
    assert!(osc.state().rollover);
    // Samples without a wrap leave the latch set.
    assert_eq!(osc.advance_phase(), Ok(()));
    assert_eq!(osc.advance_phase(), Ok(()));
    assert!(osc.state().rollover);
    assert!(osc.debug_get_and_clear_cycle_flag());
    assert!(!osc.debug_get_and_clear_cycle_flag());
    assert_eq!(osc.advance_phase(), Ok(()));
    assert!(!osc.debug_get_and_clear_cycle_flag());
    assert_eq!(osc.advance_phase(), Ok(()));
    assert!(osc.debug_get_and_clear_cycle_flag());
}

#[test]
fn wraps_missed_between_reads_are_seen_as_one() {
    let mut osc = stepping(3.0, 4);
    for _ in 0..12 {
        assert_eq!(osc.advance_phase(), Ok(()));
    }
    assert!(osc.debug_get_and_clear_cycle_flag());
    assert!(!osc.debug_get_and_clear_cycle_flag());
}

#[test]
fn reading_the_flag_keeps_everything_else() {
    let mut osc = stepping(5.0, 4);
    assert_eq!(osc.advance_phase(), Ok(()));
    let before = osc.state();
    assert!(osc.debug_get_and_clear_cycle_flag());
    let after = osc.state();
    assert!(!after.rollover);
    assert_eq!(after.phase, before.phase);
    assert_eq!(after.sample_rate, before.sample_rate);
    assert_eq!(after.frequency, before.frequency);
    assert_eq!(after.radius, before.radius);
    assert_eq!(after.harmonics, before.harmonics);
    assert_eq!(after.seed, before.seed);
}

#[test]
fn the_angle_is_the_phase_times_two_times_pi() {
    let mut osc = stepping(1.0, 8);
    assert_eq!(osc.angle().bits, 0);
    for _ in 0..7 {
        assert_eq!(osc.advance_phase(), Ok(()));
        let phase = float(osc.state().phase);
        assert_eq!(osc.angle().bits, (phase * 2.0 * std::f32::consts::PI).to_bits());
    }
    let mut osc = stepping(220.0, 44_100);
    for _ in 0..500 {
        assert_eq!(osc.advance_phase(), Ok(()));
        let phase = float(osc.state().phase);
        assert_eq!(osc.angle().bits, (phase * 2.0 * std::f32::consts::PI).to_bits());
    }
}

#[test]
fn no_harmonics_means_no_terms() {
    let mut osc = SimplexOscillator2::new();
    assert_eq!(osc.update_parameter("Harmonics", single(0.0)), Ok(()));
    assert_eq!(osc.harmonic_term(single(0.5), 0), None);
    assert_eq!(osc.harmonic_term(single(0.5), 1), None);
    assert_eq!(osc.update_parameter("Harmonics", single(-4.0)), Ok(()));
    assert_eq!(osc.state().harmonics, -4);
    assert_eq!(osc.harmonic_term(single(0.5), 0), None);
    assert_eq!(osc.harmonic_term(single(0.5), -1), None);
}

#[test]
fn one_harmonic_is_one_term_at_the_origin() {
    let mut osc = SimplexOscillator2::new();
    assert_eq!(osc.update_parameter("Seed", single(17.0)), Ok(()));
    assert_eq!(osc.update_parameter("Radius", single(3.5)), Ok(()));
    assert_eq!(
        osc.harmonic_term(single(0.8), 0),
        Some(HarmonicTerm { index: 0, seed: 17, x: single(0.0), y: single(0.0), divisor: single(1.0) })
    );
    assert_eq!(osc.harmonic_term(single(0.8), 1), None);
    assert_eq!(osc.harmonic_term(single(0.8), -1), None);
}

#[test]
fn harmonic_terms_step_the_seed_by_a_hundred() {
    let mut osc = SimplexOscillator2::new();
    assert_eq!(osc.update_parameter("Harmonics", single(4.0)), Ok(()));
    assert_eq!(osc.update_parameter("Seed", single(-5.0)), Ok(()));
    assert_eq!(osc.update_parameter("Radius", single(2.0)), Ok(()));
    let sine = single(0.25);
    let expected: [(i64, f32, f32); 4] =
        [(-5, 0.0, 1.0), (95, 0.5, 2.0), (195, 1.0, 3.0), (295, 1.5, 4.0)];
    for (i, (seed, coordinate, divisor)) in expected.into_iter().enumerate() {
        assert_eq!(
            osc.harmonic_term(sine, i as i32),
            Some(HarmonicTerm {
                index: i as i32,
                seed,
                x: single(coordinate),
                y: single(coordinate),
                divisor: single(divisor),
            })
        );
    }
    assert_eq!(osc.harmonic_term(sine, 4), None);
}

#[test]
fn both_coordinates_are_the_same() {
    let mut osc = SimplexOscillator2::new();
    assert_eq!(osc.update_parameter("Harmonics", single(10.0)), Ok(()));
    assert_eq!(osc.update_parameter("Radius", single(1.7)), Ok(()));
    for i in 0..10 {
        let term = osc.harmonic_term(single(-0.6180339), i).expect("ten harmonics");
        assert_eq!(term.x, term.y);
        assert_eq!(term.x.bits, (-0.6180339f32 * 1.7f32 * i as f32).to_bits());
        assert_eq!(term.divisor.bits, ((i + 1) as f32).to_bits());
    }
}

#[test]
fn harmonic_seeds_do_not_overflow() {
    let mut osc = SimplexOscillator2::new();
    assert_eq!(osc.update_parameter("Harmonics", single(3.0e9)), Ok(()));
    assert_eq!(osc.update_parameter("Seed", single(3.0e9)), Ok(()));
    assert_eq!(osc.state().harmonics, i32::MAX);
    assert_eq!(osc.state().seed, i32::MAX);
    let last = i32::MAX - 1;
    let term = osc.harmonic_term(single(1.0), last).expect("the last harmonic");
    assert_eq!(term.index, last);
    assert_eq!(term.seed, i32::MAX as i64 + 100 * last as i64);
    assert_eq!(term.divisor.bits, (i32::MAX as f32).to_bits());
    assert_eq!(term.x.bits, (last as f32).to_bits());
    assert_eq!(osc.harmonic_term(single(1.0), i32::MAX), None);
}

#[test]
fn a_term_adds_the_noise_over_its_divisor() {
    let term = HarmonicTerm {
        index: 2,
        seed: 0,
        x: single(0.0),
        y: single(0.0),
        divisor: single(3.0),
    };
    assert_eq!(term.accumulate(single(0.5), single(0.75)).bits, 0.75f32.to_bits());
    assert_eq!(
        term.accumulate(single(0.1), single(-0.35)).bits,
        (0.1f32 + -0.35f32 / 3.0).to_bits()
    );
    assert_eq!(term.accumulate(single(0.0), single(0.0)).bits, 0);
}

#[test]
fn same_text_compares_character_by_character() {
    assert!(same_text("", ""));
    assert!(same_text("Seed", "Seed"));
    assert!(!same_text("Seed", "seed"));
    assert!(!same_text("Seed", "Seeds"));
    assert!(!same_text("Seed", ""));
    assert!(same_text("h\u{e9}llo", "h\u{e9}llo"));
    assert!(!same_text("h\u{e9}llo", "hello"));
}

/// What a host can do with any sound algorithm, knowing no more of it.
fn exercise<A: SoundAlgorithm>(algorithm: &mut A) -> (usize, bool) {
    algorithm.set_sample_rate(8);
    let listed = algorithm.parameters();
    for parameter in &listed {
        assert_eq!(algorithm.update_parameter(parameter.name, parameter.value), Ok(()));
    }
    assert_eq!(
        algorithm.update_parameter("no such parameter", single(0.0)),
        Err(SoundError::UnknownParameter)
    );
    let sample = algorithm.generate_sample(|_| single(0.0), |_, _, _| single(0.0));
    (listed.len(), sample.is_ok())
}

#[test]
fn the_oscillator_is_a_sound_algorithm() {
    let mut osc = SimplexOscillator2::new();
    assert_eq!(exercise(&mut osc), (4, true));
    assert_eq!(osc.state().sample_rate, 8);
    assert_eq!(float(osc.state().phase), 26.5);
}
