//! Direct-summation spectrum analysis on fixed-point data.
//!
//! A sampled signal is held as integer amplitudes. For a trial frequency the
//! host supplies, for every point, the unit vector by which that point is
//! wound around the origin; the library scales each vector by the point's
//! amplitude and keeps the running mean of the products. A sweep repeats this
//! over an ascending range of frequencies, flags local maxima of the spectrum
//! as it grows, and finally merges, filters and deduplicates them.
//!
//! - [`sample`]: the signal, its time series and its turning points
//! - [`estimate`]: winding and running mean, the estimate at one frequency
//! - [`sweep`]: the sweep as a sequence of steps that the host drives
//! - [`peak`]: local maxima of a growing spectrum
//! - [`util`]: the final peaks of a finished spectrum
//! - [`input`], [`layout`]: the plain parts of taking a signal in and of
//!   laying the charts out
//!
//! Sines, cosines, square roots and arc tangents are left to the host, and
//! so is every unit: amplitudes, rotors and frequencies are whole numbers of
//! whatever the host counts in. Every function is total on the inputs its
//! contract admits: no operation overflows, indexes out of range or divides
//! by zero.

pub mod complex;
pub mod error;
pub mod estimate;
pub mod input;
pub mod layout;
pub mod math;
pub mod peak;
pub mod phasor;
pub mod sample;
pub mod sweep;
pub mod util;

pub use complex::{Complex, Rotor};
pub use error::ConfigError;
pub use estimate::{analyze_freq, calc_mean, graph_circle, RunningMean};
pub use peak::{latest_peak, max};
pub use phasor::Phasor;
pub use sample::{Point, Sample, Span};
pub use sweep::{analyze, Sweep};
