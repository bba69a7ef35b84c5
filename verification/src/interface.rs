//! What a host sees of any sound algorithm: what it can ask of one, the
//! descriptors of its parameters, and the reasons for which a request is
//! turned down.
use vstd::prelude::*;
use vstd::arithmetic::power2::lemma_pow2_pos;
use vstd::string::*;
use vstd::utf8::*;
use crate::binary32::{unit, Binary32};

verus! {

/// Why a request was turned down.  The state is left as it was.
#[derive(Clone, Copy, Debug, PartialEq, Eq, Structural)]
pub enum SoundError {
    /// The name matches none of the algorithm's parameters.
    UnknownParameter,
    /// Generation was asked for while the sample rate was zero.
    NotConfigured,
}

/// The kind of a parameter, with the range a host should offer for it.
/// The range is advice for presentation: a write is not held to it.
#[derive(Clone, Copy, Debug, PartialEq, Eq, Structural)]
pub enum ParamType {
    Float { min: Binary32, max: Binary32 },
}

/// One editable quantity of a sound algorithm, as a snapshot.
#[derive(Clone, Copy, Debug)]
pub struct SoundParameter {
    pub value: Binary32,
    pub name: &'static str,
    pub param_type: ParamType,
}

impl ParamType {
    /// Both ends are finite and the lower end does not exceed the upper.
    pub open spec fn well_formed(self) -> bool {
        match self {
            ParamType::Float { min, max } => min.is_finite() && max.is_finite() && min.quanta()
                <= max.quanta(),
        }
    }

    /// The range runs from the integer `low` to the integer `high`.
    pub open spec fn spans(self, low: int, high: int) -> bool {
        match self {
            ParamType::Float { min, max } => min.represents(low) && max.represents(high),
        }
    }

    /// A range between two whole numbers is well formed when they are in order.
    pub proof fn lemma_span_is_well_formed(self, low: int, high: int)
        requires
            self.spans(low, high),
            low <= high,
        ensures
            self.well_formed(),
    {
        lemma_pow2_pos(149);
        assert(low * unit() <= high * unit()) by (nonlinear_arith)
            requires
                low <= high,
                unit() > 0,
        ;
    }
}

/// What every sound algorithm offers its host, whatever it computes.
///
/// A host sets the sample rate once, then asks for one sample after the
/// other, and reads and writes parameters in between.  An algorithm leaves
/// two things to its host, which are handed in with each request for a
/// sample: `sine_of` takes the sine of an angle, and `noise_at` reads a
/// noise field with a seed at `(x, y, 0)`.
pub trait SoundAlgorithm: Sized {
    /// The sample rate that was last set; zero if none was yet.
    spec fn sample_rate(&self) -> u32;

    /// The frequency that the algorithm plays.
    spec fn frequency(&self) -> Binary32;

    /// The rollover latch: whether the phase has wrapped since the latch
    /// was last read.
    spec fn rollover(&self) -> bool;

    /// Whether the algorithm has a parameter of this name.
    spec fn has_parameter(&self, name: Seq<char>) -> bool;

    /// A name for the algorithm, for people to read.
    fn get_name(&self) -> (r: &'static str);

    /// The current frequency.  Nothing changes.
    fn debug_get_freq(&mut self) -> (r: Binary32)
        ensures
            r == old(self).frequency(),
            *final(self) == *old(self),
    ;

    /// Reads the rollover latch and clears it.  Nothing else changes that
    /// a host can see here.
    fn debug_get_and_clear_cycle_flag(&mut self) -> (r: bool)
        ensures
            r == old(self).rollover(),
            !final(self).rollover(),
            final(self).sample_rate() == old(self).sample_rate(),
            final(self).frequency() == old(self).frequency(),
            forall|name: Seq<char>| #[trigger]
                final(self).has_parameter(name) == old(self).has_parameter(name),
    ;

    /// Sets the sample rate, in Hz.  It may be set again at any time.
    fn set_sample_rate(&mut self, sample_rate: u32)
        ensures
            final(self).sample_rate() == sample_rate,
            final(self).rollover() == old(self).rollover(),
            final(self).frequency() == old(self).frequency(),
            forall|name: Seq<char>| #[trigger]
                final(self).has_parameter(name) == old(self).has_parameter(name),
    ;

    /// Moves on by one sample and returns it.  This needs a sample rate
    /// other than zero: without one nothing changes and neither function
    /// is called.  A sample never clears the rollover latch, and never
    /// touches the sample rate or the parameters.
    fn generate_sample<S, N>(&mut self, sine_of: S, noise_at: N) -> (r: Result<
        Binary32,
        SoundError,
    >) where S: Fn(Binary32) -> Binary32, N: Fn(i64, Binary32, Binary32) -> Binary32
        requires
            forall|angle: Binary32| call_requires(sine_of, (angle,)),
            forall|seed: i64, x: Binary32, y: Binary32| call_requires(noise_at, (seed, x, y)),
        ensures
            r is Err <==> old(self).sample_rate() == 0,
            r is Err ==> r == Err::<Binary32, SoundError>(SoundError::NotConfigured),
            r is Err ==> *final(self) == *old(self),
            old(self).rollover() ==> final(self).rollover(),
            final(self).sample_rate() == old(self).sample_rate(),
            final(self).frequency() == old(self).frequency(),
            forall|name: Seq<char>| #[trigger]
                final(self).has_parameter(name) == old(self).has_parameter(name),
    ;

    /// A snapshot of the parameters, in a fixed order: one descriptor for
    /// each parameter that the algorithm has, and no other.
    fn parameters(&self) -> (r: Vec<SoundParameter>)
        ensures
            forall|i: int| 0 <= i < r@.len() ==> self.has_parameter((#[trigger] r@[i]).name@),
            forall|name: Seq<char>| #[trigger]
                self.has_parameter(name) ==> exists|i: int|
                    0 <= i < r@.len() && (#[trigger] r@[i]).name@ == name,
    ;

    /// Writes a value to the parameter of this name, which is matched
    /// exactly.  A name that the algorithm does not have is refused, and
    /// then nothing changes.  No write touches the sample rate or the
    /// rollover latch.
    fn update_parameter(&mut self, name: &str, value: Binary32) -> (r: Result<(), SoundError>)
        ensures
            r is Ok <==> old(self).has_parameter(name@),
            r is Err ==> r == Err::<(), SoundError>(SoundError::UnknownParameter),
            r is Err ==> *final(self) == *old(self),
            final(self).sample_rate() == old(self).sample_rate(),
            final(self).rollover() == old(self).rollover(),
            forall|other: Seq<char>| #[trigger]
                final(self).has_parameter(other) == old(self).has_parameter(other),
    ;
}

/// Whether two texts are the same sequence of characters.
pub fn same_text(a: &str, b: &str) -> (r: bool)
    ensures
        r == (a@ == b@),
{
    let x = a.as_bytes();
    let y = b.as_bytes();
    proof {
        encode_utf8_decode_utf8(a@);
        encode_utf8_decode_utf8(b@);
    }
    if x.len() != y.len() {
        return false;
    }
    let mut i: usize = 0;
    while i < x.len()
        invariant
            i <= x.len(),
            x.len() == y.len(),
            forall|j: int| 0 <= j < i ==> x@[j] == y@[j],
            x@ == a.spec_bytes(),
            y@ == b.spec_bytes(),
        decreases x.len() - i,
    {
        if x[i] != y[i] {
            return false;
        }
        i = i + 1;
    }
    assert(x@ =~= y@);
    true
}

} // verus!
