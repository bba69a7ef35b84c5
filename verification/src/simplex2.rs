//! The oscillator: a phase accumulator whose position selects points of a
//! noise field, one per harmonic, summed with falling weights.
//!
//! The oscillator does everything but two things, which it leaves to its
//! host: taking the sine of an angle, and reading the noise field.  A host
//! hands both to `generate_sample` as functions.
//!
//! A host that cannot do so makes a sample in four steps.  It calls
//! [`SimplexOscillator2::advance_phase`]; it takes the sine of
//! [`SimplexOscillator2::angle`]; for `i` from zero upwards it asks
//! [`SimplexOscillator2::harmonic_term`] where to read the noise field,
//! until there is no further term; and it hands each value it has read to
//! [`HarmonicTerm::accumulate`], starting from
//! [`SimplexOscillator2::start_of_sample`].  The last total is the sample.
use vstd::prelude::*;
use crate::conversion::lemma_small_integers_are_exact;
use crate::binary32::Binary32;
use crate::interface::{same_text, ParamType, SoundAlgorithm, SoundError, SoundParameter};

verus! {

/// The value two.
pub open spec fn two() -> Binary32 {
    Binary32 { bits: 0x4000_0000 }
}

/// The single-precision value nearest to the circle constant:
/// 13176795 / 2^22.
pub open spec fn pi() -> Binary32 {
    Binary32 { bits: 0x4049_0FDB }
}

/// The total from which a sample starts: positive zero.
pub open spec fn silence() -> Binary32 {
    Binary32 { bits: 0 }
}

/// Everything the oscillator remembers between calls.
#[derive(Clone, Copy, Debug, PartialEq, Eq, Structural)]
pub struct OscillatorState {
    /// Output rate in Hz; zero until the host has set it.
    pub sample_rate: u32,
    /// Position within the cycle.
    pub phase: Binary32,
    /// Set when the phase wraps, cleared when the host reads it.
    pub rollover: bool,
    /// Cycles per second.
    pub frequency: Binary32,
    /// Scale of the noise coordinates.
    pub radius: Binary32,
    /// Number of harmonics summed into a sample; none if not positive.
    pub harmonics: i32,
    /// Seed of the first harmonic.
    pub seed: i32,
}

/// One term of a sample: the noise field with seed `seed` is read at
/// `(x, y, 0)`, and what is read is divided by `divisor`.
#[derive(Clone, Copy, Debug, PartialEq, Eq, Structural)]
pub struct HarmonicTerm {
    /// The number of the term, from zero.
    pub index: i32,
    pub seed: i64,
    pub x: Binary32,
    pub y: Binary32,
    pub divisor: Binary32,
}

impl HarmonicTerm {
    /// The running total after this term: the total before it, plus the
    /// noise value over the divisor.
    pub open spec fn accumulated(self, total: Binary32, noise: Binary32) -> Binary32 {
        total.sum(noise.quotient(self.divisor))
    }

    /// Adds this term's share of a sample to the running total, given
    /// what the host has read from the noise field.
    pub fn accumulate(&self, total: Binary32, noise: Binary32) -> (r: Binary32)
        ensures
            r == self.accumulated(total, noise),
    {
        total.add(noise.div(self.divisor))
    }
}

impl OscillatorState {
    /// The state of a new oscillator: 220 Hz, radius one, one harmonic,
    /// seed zero, phase zero, and no sample rate yet.
    pub open spec fn is_initial(self) -> bool {
        &&& self.sample_rate == 0
        &&& self.phase.represents(0)
        &&& !self.rollover
        &&& self.frequency.represents(220)
        &&& self.radius.represents(1)
        &&& self.harmonics == 1
        &&& self.seed == 0
    }

    /// Whether there is a parameter called `name`.  Names are matched
    /// exactly.
    pub open spec fn knows(name: Seq<char>) -> bool {
        name == "Frequency"@ || name == "Radius"@ || name == "Harmonics"@ || name == "Seed"@
    }

    /// The state after `value` is written to the parameter called `name`,
    /// or `None` if there is no such parameter.  Names are matched exactly.
    /// The two real-valued parameters take the value as it is, whatever
    /// their advised range; the two integer-valued ones take the nearest
    /// integer.
    pub open spec fn written(self, name: Seq<char>, value: Binary32) -> Option<OscillatorState> {
        if name == "Frequency"@ {
            Some(OscillatorState { frequency: value, ..self })
        } else if name == "Radius"@ {
            Some(OscillatorState { radius: value, ..self })
        } else if name == "Harmonics"@ {
            Some(OscillatorState { harmonics: value.nearest_i32() as i32, ..self })
        } else if name == "Seed"@ {
            Some(OscillatorState { seed: value.nearest_i32() as i32, ..self })
        } else {
            None
        }
    }

    /// The share of a cycle that one sample covers: frequency over sample
    /// rate.
    pub open spec fn step(self) -> Binary32 {
        self.frequency.quotient(Binary32::of_int(self.sample_rate as int))
    }

    /// The phase one sample on, before it is brought back into the cycle.
    pub open spec fn advanced(self) -> Binary32 {
        self.phase.sum(self.step())
    }

    /// The state one sample on.  The phase has advanced by one step and,
    /// if that took it to one or beyond, has had exactly one taken off,
    /// which sets the rollover latch.  Nothing clears the latch here, and
    /// nothing else changes.
    pub open spec fn after_sample(self) -> OscillatorState {
        OscillatorState {
            phase: self.advanced().wrapped(),
            rollover: self.rollover || self.advanced().at_least_one(),
            ..self
        }
    }

    /// The angle of the phase: the phase times two, times pi.
    pub open spec fn angle(self) -> Binary32 {
        self.phase.product(two()).product(pi())
    }

    /// The number of terms in one sample.
    pub open spec fn harmonic_count(self) -> nat {
        if self.harmonics > 0 {
            self.harmonics as nat
        } else {
            0
        }
    }

    /// The `i`-th term of one sample, counting from zero, given the sine
    /// of the angle.  Both coordinates are the sine times the radius times
    /// `i`; the seed is the oscillator's plus a hundred times `i`; the
    /// divisor is `i + 1`.
    pub open spec fn harmonic_term(self, sine: Binary32, i: int) -> Option<HarmonicTerm> {
        if 0 <= i < self.harmonic_count() {
            let coordinate = sine.product(self.radius).product(Binary32::of_int(i));
            Some(
                HarmonicTerm {
                    index: i as i32,
                    seed: (self.seed + 100 * i) as i64,
                    x: coordinate,
                    y: coordinate,
                    divisor: Binary32::of_int(i + 1),
                },
            )
        } else {
            None
        }
    }

    /// The running total of a sample after its first `n` terms, where
    /// `noises[i]` is what the host read from the noise field for term
    /// `i`.  It starts from silence.
    pub open spec fn running_total(self, sine: Binary32, noises: Seq<Binary32>, n: nat) -> Binary32
        decreases n,
    {
        if n == 0 {
            silence()
        } else {
            match self.harmonic_term(sine, n - 1) {
                Some(term) => term.accumulated(
                    self.running_total(sine, noises, (n - 1) as nat),
                    noises[n - 1],
                ),
                None => self.running_total(sine, noises, (n - 1) as nat),
            }
        }
    }

    /// The sample: the running total after all the terms.
    pub open spec fn sample(self, sine: Binary32, noises: Seq<Binary32>) -> Binary32 {
        self.running_total(sine, noises, self.harmonic_count())
    }

    /// `noises` holds, for each term of a sample, a value that `noise_at`
    /// returned for the term's seed and coordinates.
    pub open spec fn read_by<N: Fn(i64, Binary32, Binary32) -> Binary32>(
        self,
        noise_at: N,
        sine: Binary32,
        noises: Seq<Binary32>,
    ) -> bool {
        &&& noises.len() == self.harmonic_count()
        &&& forall|k: int|
            0 <= k < noises.len() ==> (#[trigger] self.harmonic_term(sine, k)) is Some
                && call_ensures(
                noise_at,
                (
                    self.harmonic_term(sine, k)->0.seed,
                    self.harmonic_term(sine, k)->0.x,
                    self.harmonic_term(sine, k)->0.y,
                ),
                noises[k],
            )
    }

    /// The running total after `n` terms looks at the first `n` noise
    /// values only.
    pub proof fn lemma_running_total_reads_a_prefix(
        self,
        sine: Binary32,
        noises: Seq<Binary32>,
        longer: Seq<Binary32>,
        n: nat,
    )
        requires
            n <= noises.len() <= longer.len(),
            forall|k: int| 0 <= k < n ==> noises[k] == longer[k],
        ensures
            self.running_total(sine, noises, n) == self.running_total(sine, longer, n),
        decreases n,
    {
        if n > 0 {
            self.lemma_running_total_reads_a_prefix(sine, noises, longer, (n - 1) as nat);
        }
    }

    /// The state `n` samples on.
    pub open spec fn after_samples(self, n: nat) -> OscillatorState
        decreases n,
    {
        if n == 0 {
            self
        } else {
            self.after_samples((n - 1) as nat).after_sample()
        }
    }

    /// `list` is the host's view of this state: the four parameters in
    /// their fixed order, each with its current value and advised range.
    pub open spec fn described_by(self, list: Seq<SoundParameter>) -> bool {
        &&& list.len() == 4
        &&& list[0].name@ == "Frequency"@
        &&& list[0].value == self.frequency
        &&& list[0].param_type.spans(22, 880)
        &&& list[1].name@ == "Radius"@
        &&& list[1].value == self.radius
        &&& list[1].param_type.spans(0, 10)
        &&& list[2].name@ == "Harmonics"@
        &&& list[2].value == Binary32::of_int(self.harmonics as int)
        &&& list[2].param_type.spans(1, 10)
        &&& list[3].name@ == "Seed"@
        &&& list[3].value == Binary32::of_int(self.seed as int)
        &&& list[3].param_type.spans(0, 10)
    }
}

/// An oscillator that sums harmonics read from a simplex-noise field.
pub struct SimplexOscillator2 {
    sample_rate: u32,
    phase: Binary32,
    debug_rollover_flag: bool,
    frequency: Binary32,
    radius: Binary32,
    harmonics: i32,
    seed: i32,
}

impl View for SimplexOscillator2 {
    type V = OscillatorState;

    closed spec fn view(&self) -> OscillatorState {
        OscillatorState {
            sample_rate: self.sample_rate,
            phase: self.phase,
            rollover: self.debug_rollover_flag,
            frequency: self.frequency,
            radius: self.radius,
            harmonics: self.harmonics,
            seed: self.seed,
        }
    }
}

/// A range between two small whole numbers.
fn float_range(low: i32, high: i32) -> (r: ParamType)
    requires
        0 <= low <= high <= 0x100_0000,
    ensures
        r.spans(low as int, high as int),
        r.well_formed(),
{
    let r = ParamType::Float { min: Binary32::from_i32(low), max: Binary32::from_i32(high) };
    proof {
        lemma_small_integers_are_exact(low as int);
        lemma_small_integers_are_exact(high as int);
        r.lemma_span_is_well_formed(low as int, high as int);
    }
    r
}

impl SimplexOscillator2 {
    /// An oscillator with the default settings and no sample rate.
    pub fn new() -> (r: Self)
        ensures
            r@.is_initial(),
    {
        proof {
            lemma_small_integers_are_exact(0);
            lemma_small_integers_are_exact(1);
            lemma_small_integers_are_exact(220);
        }
        Self {
            sample_rate: 0,
            phase: Binary32::from_i32(0),
            debug_rollover_flag: false,
            frequency: Binary32::from_i32(220),
            radius: Binary32::from_i32(1),
            harmonics: 1,
            seed: 0,
        }
    }

    /// The whole state, for inspection.
    pub fn state(&self) -> (s: OscillatorState)
        ensures
            s == self@,
    {
        OscillatorState {
            sample_rate: self.sample_rate,
            phase: self.phase,
            rollover: self.debug_rollover_flag,
            frequency: self.frequency,
            radius: self.radius,
            harmonics: self.harmonics,
            seed: self.seed,
        }
    }

    /// First step of a sample: moves the phase on by frequency over sample
    /// rate, wraps it, and latches the rollover flag if it wrapped.  While
    /// the sample rate is zero nothing happens.
    pub fn advance_phase(&mut self) -> (r: Result<(), SoundError>)
        ensures
            old(self)@.sample_rate == 0 ==> r == Err::<(), SoundError>(SoundError::NotConfigured)
                && final(self)@ == old(self)@,
            old(self)@.sample_rate != 0 ==> r == Ok::<(), SoundError>(()) && final(self)@ == old(
                self,
            )@.after_sample(),
    {
        if self.sample_rate == 0 {
            return Err(SoundError::NotConfigured);
        }
        let step = self.frequency.div(Binary32::from_u32(self.sample_rate));
        let advanced = self.phase.add(step);
        if advanced.is_at_least_one() {
            self.debug_rollover_flag = true;
        }
        self.phase = advanced.wrap_once();
        Ok(())
    }

    /// Second step of a sample: the angle whose sine the host takes.
    pub fn angle(&self) -> (r: Binary32)
        ensures
            r == self@.angle(),
    {
        self.phase.mul(Binary32 { bits: 0x4000_0000 }).mul(Binary32 { bits: 0x4049_0FDB })
    }

    /// Third step of a sample: the `i`-th term, for the host to read the
    /// noise field at, or `None` once `i` has reached the number of
    /// harmonics.
    pub fn harmonic_term(&self, sine: Binary32, i: i32) -> (r: Option<HarmonicTerm>)
        ensures
            r == self@.harmonic_term(sine, i as int),
    {
        if 0 <= i && i < self.harmonics {
            let coordinate = sine.mul(self.radius).mul(Binary32::from_i32(i));
            Some(
                HarmonicTerm {
                    index: i,
                    seed: self.seed as i64 + 100 * (i as i64),
                    x: coordinate,
                    y: coordinate,
                    divisor: Binary32::from_i32(i + 1),
                },
            )
        } else {
            None
        }
    }

    /// The total from which a sample starts.
    pub fn start_of_sample() -> (r: Binary32)
        ensures
            r == silence(),
    {
        Binary32 { bits: 0 }
    }
}

impl SoundAlgorithm for SimplexOscillator2 {
    open spec fn sample_rate(&self) -> u32 {
        self@.sample_rate
    }

    open spec fn frequency(&self) -> Binary32 {
        self@.frequency
    }

    open spec fn rollover(&self) -> bool {
        self@.rollover
    }

    open spec fn has_parameter(&self, name: Seq<char>) -> bool {
        OscillatorState::knows(name)
    }

    /// The name under which a host lists the oscillator.
    fn get_name(&self) -> (r: &'static str)
        ensures
            r@ == "Simplex harmonics"@,
    {
        "Simplex harmonics"
    }

    /// The current frequency; the state is left as it is.
    fn debug_get_freq(&mut self) -> (r: Binary32)
        ensures
            r == old(self)@.frequency,
            final(self)@ == old(self)@,
    {
        self.frequency
    }

    /// Reads the rollover latch and clears it.
    fn debug_get_and_clear_cycle_flag(&mut self) -> (r: bool)
        ensures
            r == old(self)@.rollover,
            final(self)@ == (OscillatorState { rollover: false, ..old(self)@ }),
    {
        let flag = self.debug_rollover_flag;
        self.debug_rollover_flag = false;
        flag
    }

    /// Sets the output rate.  The phase is kept, so a change in
    /// mid-stream takes effect with the next sample.
    fn set_sample_rate(&mut self, sample_rate: u32)
        ensures
            final(self)@ == (OscillatorState { sample_rate, ..old(self)@ }),
    {
        self.sample_rate = sample_rate;
    }

    /// Generates one sample, given the two things the oscillator leaves to
    /// its host: `sine_of` takes the sine of an angle, and `noise_at` reads
    /// the noise field with a seed at `(x, y, 0)`.
    ///
    /// The state moves on by one sample.  The result is the sum of the
    /// terms, each made of what `noise_at` returned for it, and the terms
    /// are made with what `sine_of` returned for the angle of the new
    /// phase.  While the sample rate is zero neither function is called and
    /// nothing happens.
    fn generate_sample<S, N>(&mut self, sine_of: S, noise_at: N) -> (r: Result<
        Binary32,
        SoundError,
    >) where S: Fn(Binary32) -> Binary32, N: Fn(i64, Binary32, Binary32) -> Binary32
        ensures
            old(self)@.sample_rate == 0 ==> r == Err::<Binary32, SoundError>(
                SoundError::NotConfigured,
            ) && final(self)@ == old(self)@,
            old(self)@.sample_rate != 0 ==> final(self)@ == old(self)@.after_sample() && exists|
                sine: Binary32,
                noises: Seq<Binary32>,
            |
                {
                    &&& call_ensures(sine_of, (final(self)@.angle(),), sine)
                    &&& final(self)@.read_by(noise_at, sine, noises)
                    &&& r == Ok::<Binary32, SoundError>(final(self)@.sample(sine, noises))
                },
            old(self)@.sample_rate != 0 && old(self)@.harmonics <= 0 ==> r == Ok::<
                Binary32,
                SoundError,
            >(silence()),
    {
        if self.advance_phase().is_err() {
            return Err(SoundError::NotConfigured);
        }
        let sine = sine_of(self.angle());
        let mut total = Self::start_of_sample();
        let ghost mut noises: Seq<Binary32> = Seq::empty();
        let mut i: i32 = 0;
        while i < self.harmonics
            invariant
                0 <= i,
                i <= self.harmonics || self.harmonics < 0,
                noises.len() == i,
                forall|seed: i64, x: Binary32, y: Binary32| call_requires(noise_at, (seed, x, y)),
                forall|k: int|
                    0 <= k < i ==> (#[trigger] self@.harmonic_term(sine, k)) is Some
                        && call_ensures(
                        noise_at,
                        (
                            self@.harmonic_term(sine, k)->0.seed,
                            self@.harmonic_term(sine, k)->0.x,
                            self@.harmonic_term(sine, k)->0.y,
                        ),
                        noises[k],
                    ),
                total == self@.running_total(sine, noises, i as nat),
            decreases self.harmonics - i,
        {
            let term = self.harmonic_term(sine, i).unwrap();
            let noise = noise_at(term.seed, term.x, term.y);
            proof {
                self@.lemma_running_total_reads_a_prefix(sine, noises, noises.push(noise), i as nat);
                noises = noises.push(noise);
            }
            total = term.accumulate(total, noise);
            i = i + 1;
        }
        proof {
            assert(i as nat == self@.harmonic_count());
            assert(self@.read_by(noise_at, sine, noises));
            assert(total == self@.sample(sine, noises));
        }
        Ok(total)
    }

    /// A snapshot of the four parameters, in their fixed order.
    fn parameters(&self) -> (r: Vec<SoundParameter>)
        ensures
            self@.described_by(r@),
            forall|i: int| 0 <= i < r@.len() ==> (#[trigger] r@[i]).param_type.well_formed(),
    {
        let mut list: Vec<SoundParameter> = Vec::new();
        list.push(
            SoundParameter {
                value: self.frequency,
                name: "Frequency",
                param_type: float_range(22, 880),
            },
        );
        list.push(
            SoundParameter { value: self.radius, name: "Radius", param_type: float_range(0, 10) },
        );
        list.push(
            SoundParameter {
                value: Binary32::from_i32(self.harmonics),
                name: "Harmonics",
                param_type: float_range(1, 10),
            },
        );
        list.push(
            SoundParameter {
                value: Binary32::from_i32(self.seed),
                name: "Seed",
                param_type: float_range(0, 10),
            },
        );
        proof {
            assert forall|name: Seq<char>| #[trigger] self.has_parameter(name) implies exists|
                i: int,
            |
                0 <= i < list@.len() && (#[trigger] list@[i]).name@ == name by {
                let i: int = if name == "Frequency"@ {
                    0
                } else if name == "Radius"@ {
                    1
                } else if name == "Harmonics"@ {
                    2
                } else {
                    3
                };
                assert(list@[i].name@ == name);
            }
        }
        list
    }

    /// Writes `value` to the parameter called `name`; see
    /// [`OscillatorState::written`].  An unknown name changes nothing.
    fn update_parameter(&mut self, name: &str, value: Binary32) -> (r: Result<(), SoundError>)
        ensures
            match old(self)@.written(name@, value) {
                Some(next) => r == Ok::<(), SoundError>(()) && final(self)@ == next,
                None => r == Err::<(), SoundError>(SoundError::UnknownParameter) && final(self)@
                    == old(self)@,
            },
    {
        if same_text(name, "Frequency") {
            self.frequency = value;
        } else if same_text(name, "Radius") {
            self.radius = value;
        } else if same_text(name, "Harmonics") {
            self.harmonics = value.round_to_i32();
        } else if same_text(name, "Seed") {
            self.seed = value.round_to_i32();
        } else {
            return Err(SoundError::UnknownParameter);
        }
        Ok(())
    }
}

} // verus!
