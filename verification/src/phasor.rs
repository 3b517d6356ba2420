//! One entry of a spectrum.

use vstd::prelude::*;
use crate::complex::Complex;

verus! {

/// The estimated complex amplitude of a signal at one trial frequency.
///
/// The frequency is a whole number of the unit in which the sweep was asked
/// for. Magnitude and phase are read off `complex`.
#[derive(Clone, Copy, Debug, PartialEq, Eq, Structural)]
pub struct Phasor {
    pub frequency: u64,
    pub complex: Complex,
}

impl Phasor {
    /// The squared magnitude of the phasor's value.
    pub open spec fn power(self) -> int {
        self.complex.power()
    }
}

} // verus!
