//! Rejected configurations.

use vstd::prelude::*;

verus! {

/// A configuration on which no analysis can run.
#[derive(Clone, Copy, Debug, PartialEq, Eq, Structural)]
pub enum ConfigError {
    /// The sampling rate is zero.
    ZeroRate,
    /// The step of a sweep is zero, so the sweep would never advance.
    ZeroStep,
}

} // verus!
