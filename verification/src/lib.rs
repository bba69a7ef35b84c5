//! A verified oscillator: a phase accumulator that reads a noise field
//! once for every harmonic, and sums what it reads with falling weights.
//!
//! The oscillator works on IEEE 754 single-precision values throughout,
//! and this crate states and proves what it computes down to the last bit.
//! To that end the values are held as their encodings
//! ([`binary32::Binary32`]), and every operation on them is written out on
//! integers and proved to round as the standard says ([`rounding`],
//! [`arithmetic`], [`conversion`]).  Two things are left to the host, and
//! handed in as functions: the sine, and the noise field.
//!
//! [`interface`] holds what a host may expect of any sound algorithm,
//! [`simplex2`] the oscillator, and [`laws`] what holds of the oscillator
//! over whole runs of calls.
pub mod binary32;
pub mod rounding;
pub mod arithmetic;
pub mod conversion;
pub mod interface;
pub mod simplex2;
pub mod laws;
