//! The frequency sweep.
//!
//! [`analyze`] runs a whole sweep and asks its host for the rotors at each
//! trial frequency. [`Sweep`] is the same sweep one step at a time: it names
//! the trial frequency that is due, takes the estimate there, appends it to
//! the spectrum and looks for a local peak. Between two steps the host is
//! free to draw, to wait, or to stop.

use vstd::prelude::*;
use vstd::arithmetic::div_mod::{lemma_fundamental_div_mod, lemma_mod_bound};
use crate::complex::{Complex, Rotor};
use crate::error::ConfigError;
use crate::estimate::{analyze_freq, mean, winding};
use crate::math::as_ints;
use crate::peak::{
    is_local_peak,
    latest_peak,
    lemma_local_peaks,
    lemma_local_peaks_push,
    local_peaks,
};
use crate::phasor::Phasor;
use crate::sample::Point;
use crate::util::{
    adjust_peaks,
    adjusted,
    lemma_adjusted,
    lemma_plateau_of_one,
    peak_ceiling,
    plateau_end,
    significant,
};

verus! {

/// A sweep in progress.
#[derive(Debug)]
pub struct Sweep {
    min: u64,
    max: u64,
    step: u64,
    next: Option<u64>,
    spectrum: Vec<Phasor>,
    peaks: Vec<usize>,
}

/// What a sweep is, mathematically.
pub struct SweepView {
    /// The first trial frequency.
    pub min: int,
    /// The bound that no trial frequency exceeds.
    pub max: int,
    /// The distance between two trial frequencies.
    pub step: int,
    /// The phasors estimated so far, in sweep order.
    pub spectrum: Seq<Phasor>,
    /// The local peaks flagged so far.
    pub raw_peaks: Seq<int>,
}

/// Whether `entry` holds an estimate of `points` at its frequency: the mean
/// of the series wound by rotors that `rotors_at` may give for that
/// frequency.
pub open spec fn estimated<F: Fn(u64) -> Vec<Rotor>>(
    points: Seq<Point>,
    rotors_at: F,
    entry: Phasor,
) -> bool {
    exists|rotors: Vec<Rotor>|
        call_ensures(rotors_at, (entry.frequency,), rotors) && entry.complex == mean(
            winding(points, #[trigger] rotors@),
        )
}

/// The number of trial frequencies `min, min + step, ...` that do not exceed `max`.
pub open spec fn sweep_len(min: int, max: int, step: int) -> int {
    if min > max {
        0
    } else {
        (max - min) / step + 1
    }
}

impl SweepView {
    /// The trial frequency of the entry at index `k`.
    pub open spec fn frequency(self, k: int) -> int {
        self.min + k * self.step
    }

    /// The trial frequency that is due, if the sweep is not over.
    pub open spec fn pending(self) -> Option<u64> {
        if self.frequency(self.spectrum.len() as int) <= self.max {
            Some(self.frequency(self.spectrum.len() as int) as u64)
        } else {
            None
        }
    }

    /// The sweep after the estimate `value` for the pending frequency `f`.
    pub open spec fn record(self, f: u64, value: Complex) -> SweepView {
        let spectrum = self.spectrum.push(Phasor { frequency: f, complex: value });
        SweepView { spectrum, raw_peaks: local_peaks(spectrum), ..self }
    }
}

impl View for Sweep {
    type V = SweepView;

    closed spec fn view(&self) -> SweepView {
        SweepView {
            min: self.min as int,
            max: self.max as int,
            step: self.step as int,
            spectrum: self.spectrum@,
            raw_peaks: as_ints(self.peaks@),
        }
    }
}

impl Sweep {
    /// The invariant of a sweep: a positive step; entry `k` of the spectrum
    /// stands at the frequency `min + k * step`, which does not exceed
    /// `max`; the raw peaks are the local peaks of the spectrum.
    pub closed spec fn wf(&self) -> bool {
        &&& self.step > 0
        &&& forall|k: int|
            0 <= k < self.spectrum@.len() ==> (#[trigger] self.spectrum@[k]).frequency
                == self@.frequency(k) && self@.frequency(k) <= self.max
        &&& self.next == self@.pending()
        &&& as_ints(self.peaks@) == local_peaks(self.spectrum@)
    }

    /// Begins a sweep over the trial frequencies
    /// `min, min + step, min + 2 * step, ...` up to and including `max`.
    ///
    /// A step of zero would never advance and is rejected.
    pub fn new(min: u64, max: u64, step: u64) -> (begun: Result<Sweep, ConfigError>)
        ensures
            step == 0 ==> begun == Err::<Sweep, ConfigError>(ConfigError::ZeroStep),
            step > 0 ==> begun is Ok,
            begun matches Ok(sweep) ==> sweep.wf() && sweep@ == (SweepView {
                min: min as int,
                max: max as int,
                step: step as int,
                spectrum: Seq::empty(),
                raw_peaks: Seq::empty(),
            }),
    {
        if step == 0 {
            return Err(ConfigError::ZeroStep);
        }
        let next: Option<u64> = if min <= max {
            Some(min)
        } else {
            None
        };
        let sweep = Sweep { min, max, step, next, spectrum: Vec::new(), peaks: Vec::new() };
        proof {
            assert(0 * (step as int) == 0) by (nonlinear_arith);
            assert(as_ints(sweep.peaks@) =~= Seq::<int>::empty());
            assert(sweep@.raw_peaks =~= Seq::<int>::empty());
        }
        Ok(sweep)
    }

    /// The trial frequency that is due: `min + n * step` after `n` estimates,
    /// as long as it does not exceed `max`.
    pub fn pending(&self) -> (due: Option<u64>)
        requires
            self.wf(),
        ensures
            due == self@.pending(),
    {
        self.next
    }

    /// Whether the sweep is over.
    pub fn is_done(&self) -> (done: bool)
        requires
            self.wf(),
        ensures
            done == (self@.pending() is None),
    {
        self.next.is_none()
    }

    /// The spectrum so far.
    pub fn spectrum(&self) -> (spectrum: &Vec<Phasor>)
        ensures
            spectrum@ == self@.spectrum,
    {
        &self.spectrum
    }

    /// The local peaks flagged so far, ascending.
    pub fn raw_peaks(&self) -> (peaks: &Vec<usize>)
        ensures
            as_ints(peaks@) == self@.raw_peaks,
    {
        &self.peaks
    }

    /// Takes the estimate at the pending frequency and appends it to the
    /// spectrum. Yields the index of the entry before it if that has become
    /// a local peak.
    ///
    /// Once the sweep is over this does nothing.
    pub fn record(&mut self, value: Complex) -> (found: Option<usize>)
        requires
            old(self).wf(),
        ensures
            final(self).wf(),
            old(self)@.pending() is None ==> final(self)@ == old(self)@ && found is None,
            old(self)@.pending() matches Some(f) ==> final(self)@ == old(self)@.record(f, value),
            found is Some <==> old(self)@.pending() is Some && is_local_peak(
                final(self)@.spectrum,
                final(self)@.spectrum.len() - 2,
            ),
            found matches Some(i) ==> i == final(self)@.spectrum.len() - 2,
    {
        match self.next {
            None => None,
            Some(f) => {
                let ghost start = self@;
                let ghost n = self.spectrum@.len() as int;
                proof {
                    assert(n * self.step >= 0) by (nonlinear_arith)
                        requires
                            n >= 0,
                            self.step > 0,
                    ;
                    assert((n + 1) * self.step == n * self.step + self.step) by (nonlinear_arith);
                    assert(f == start.frequency(n));
                }
                let ghost before = self.spectrum@;
                let ghost flagged = as_ints(self.peaks@);
                let entry: Phasor = Phasor { frequency: f, complex: value };
                self.spectrum.push(entry);
                let found: Option<usize> = latest_peak(self.spectrum.as_slice());
                proof {
                    lemma_local_peaks_push(before, entry);
                }
                match found {
                    Some(i) => {
                        self.peaks.push(i);
                        assert(as_ints(self.peaks@) =~= flagged.push(i as int));
                    },
                    None => {},
                }
                self.next = if self.step > self.max - f {
                    None
                } else {
                    Some(f + self.step)
                };
                proof {
                    assert(self.spectrum@ == before.push(entry));
                    assert(as_ints(self.peaks@) == local_peaks(self.spectrum@));
                    assert forall|k: int| 0 <= k < self.spectrum@.len() implies (
                    #[trigger] self.spectrum@[k]).frequency == self@.frequency(k)
                        && self@.frequency(k) <= self.max by {
                        if k < n {
                            assert(self.spectrum@[k] == before[k]);
                            assert(start.frequency(k) == self@.frequency(k));
                        }
                    }
                    assert(self@.frequency(n + 1) == f + self.step);
                    assert(self.next == self@.pending());
                    assert(self@ == start.record(f, value));
                }
                found
            },
        }
    }

    /// The final peaks of the spectrum so far: the raw peaks after plateau
    /// merge, significance filter and deduplication.
    ///
    /// A local peak is stronger than its right neighbour, so its plateau is
    /// itself and its final position the index after it: every final peak
    /// addresses an entry of the spectrum.
    pub fn peaks(&self) -> (peaks: Vec<usize>)
        requires
            self.wf(),
        ensures
            as_ints(peaks@) == adjusted(self@.spectrum, self@.raw_peaks),
            forall|k: int|
                0 <= k < peaks@.len() ==> 0 < #[trigger] peaks@[k] < self@.spectrum.len()
                    && is_local_peak(self@.spectrum, peaks@[k] - 1),
    {
        proof {
            lemma_local_peaks(self.spectrum@);
        }
        let peaks: Vec<usize> = adjust_peaks(self.spectrum.as_slice(), self.peaks.as_slice());
        proof {
            let spectrum = self.spectrum@;
            let raw = as_ints(self.peaks@);
            lemma_adjusted(spectrum, raw);
            assert forall|k: int| 0 <= k < peaks@.len() implies 0 < #[trigger] peaks@[k]
                < spectrum.len() && is_local_peak(spectrum, peaks@[k] - 1) by {
                let x = as_ints(peaks@)[k];
                assert(adjusted(spectrum, raw).contains(x));
                let j = choose|j: int|
                    0 <= j < raw.len() && significant(
                        (#[trigger] spectrum[raw[j]]).power(),
                        peak_ceiling(spectrum, raw),
                    ) && x == plateau_end(spectrum, raw[j]);
                assert(is_local_peak(spectrum, raw[j]));
                lemma_plateau_of_one(spectrum, raw[j]);
            }
        }
        peaks
    }
}

/// Sweeps `points` over the trial frequencies
/// `min, min + step, min + 2 * step, ...` up to and including `max`, and
/// yields the spectrum: one phasor for each frequency, in ascending order.
///
/// For each frequency in turn `rotors_at` is asked for the rotors of the
/// series there, and the phasor is the mean of the series wound by them. A
/// step of zero would never advance and is rejected before anything is
/// asked.
pub fn analyze<F>(points: &[Point], min: u64, max: u64, step: u64, rotors_at: F) -> (swept: Result<
    Vec<Phasor>,
    ConfigError,
>) where F: Fn(u64) -> Vec<Rotor>
    requires
        forall|f: u64| call_requires(rotors_at, (f,)),
    ensures
        step == 0 ==> swept == Err::<Vec<Phasor>, ConfigError>(ConfigError::ZeroStep),
        step > 0 ==> swept is Ok,
        swept matches Ok(spectrum) ==> spectrum@.len() == sweep_len(
            min as int,
            max as int,
            step as int,
        ),
        swept matches Ok(spectrum) ==> forall|k: int|
            0 <= k < spectrum@.len() ==> (#[trigger] spectrum@[k]).frequency == min + k * step,
        swept matches Ok(spectrum) ==> forall|j: int, k: int|
            0 <= j < k < spectrum@.len() ==> (#[trigger] spectrum@[j]).frequency < (
            #[trigger] spectrum@[k]).frequency,
        swept matches Ok(spectrum) ==> forall|k: int|
            0 <= k < spectrum@.len() ==> estimated(points@, rotors_at, #[trigger] spectrum@[k]),
{
    let mut sweep: Sweep = match Sweep::new(min, max, step) {
        Ok(sweep) => sweep,
        Err(error) => {
            return Err(error);
        },
    };
    loop
        invariant
            sweep.wf(),
            sweep@.min == min,
            sweep@.max == max,
            sweep@.step == step,
            forall|f: u64| call_requires(rotors_at, (f,)),
            forall|k: int|
                0 <= k < sweep@.spectrum.len() ==> estimated(
                    points@,
                    rotors_at,
                    #[trigger] sweep@.spectrum[k],
                ),
        ensures
            sweep.wf(),
            sweep@.pending() is None,
            sweep@.min == min,
            sweep@.max == max,
            sweep@.step == step,
            forall|k: int|
                0 <= k < sweep@.spectrum.len() ==> estimated(
                    points@,
                    rotors_at,
                    #[trigger] sweep@.spectrum[k],
                ),
        decreases sweep_len(min as int, max as int, step as int) - sweep@.spectrum.len(),
    {
        proof {
            lemma_sweep_order(sweep);
        }
        let f: u64 = match sweep.pending() {
            Some(f) => f,
            None => {
                break ;
            },
        };
        let ghost before = sweep@.spectrum;
        let rotors: Vec<Rotor> = rotors_at(f);
        let value: Complex = analyze_freq(points, rotors.as_slice());
        sweep.record(value);
        proof {
            assert forall|k: int| 0 <= k < sweep@.spectrum.len() implies estimated(
                points@,
                rotors_at,
                #[trigger] sweep@.spectrum[k],
            ) by {
                if k < before.len() {
                    assert(sweep@.spectrum[k] == before[k]);
                } else {
                    assert(call_ensures(rotors_at, (sweep@.spectrum[k].frequency,), rotors));
                }
            }
        }
    }
    proof {
        lemma_sweep_order(sweep);
    }
    Ok(sweep.spectrum)
}

/// A sweep visits its frequencies in strictly ascending order, entry `k` at
/// `min + k * step`, never holds more entries than there are frequencies up
/// to `max`, and is over exactly when it holds that many.
pub proof fn lemma_sweep_order(sweep: Sweep)
    requires
        sweep.wf(),
    ensures
        sweep@.step > 0,
        forall|k: int|
            0 <= k < sweep@.spectrum.len() ==> (#[trigger] sweep@.spectrum[k]).frequency
                == sweep@.min + k * sweep@.step,
        forall|j: int, k: int|
            0 <= j < k < sweep@.spectrum.len() ==> (#[trigger] sweep@.spectrum[j]).frequency < (
            #[trigger] sweep@.spectrum[k]).frequency,
        sweep@.spectrum.len() <= sweep_len(sweep@.min, sweep@.max, sweep@.step),
        sweep@.pending() is None <==> sweep@.spectrum.len() == sweep_len(
            sweep@.min,
            sweep@.max,
            sweep@.step,
        ),
        sweep@.raw_peaks == local_peaks(sweep@.spectrum),
{
    let v = sweep@;
    let n = v.spectrum.len() as int;
    assert forall|j: int, k: int| 0 <= j < k < n implies (#[trigger] v.spectrum[j]).frequency < (
    #[trigger] v.spectrum[k]).frequency by {
        assert(j * v.step < k * v.step) by (nonlinear_arith)
            requires
                j < k,
                v.step > 0,
        ;
    }
    if n > 0 {
        assert(v.spectrum[n - 1].frequency == v.frequency(n - 1));
    }
    lemma_sweep_len(v.min, v.max, v.step, n);
}

/// Where the first `n` trial frequencies do not exceed `max`, there are at
/// least `n` of them up to `max`, and exactly `n` if and only if the next
/// one exceeds `max`.
proof fn lemma_sweep_len(min: int, max: int, step: int, n: int)
    requires
        step > 0,
        n >= 0,
        n > 0 ==> min + (n - 1) * step <= max,
    ensures
        n <= sweep_len(min, max, step),
        min + n * step > max <==> n == sweep_len(min, max, step),
{
    if min <= max {
        let q = (max - min) / step;
        let r = (max - min) % step;
        lemma_fundamental_div_mod(max - min, step);
        lemma_mod_bound(max - min, step);
        assert(n - 1 <= q && (min + n * step > max <==> n == q + 1)) by (nonlinear_arith)
            requires
                step > 0,
                n >= 0,
                n > 0 ==> min + (n - 1) * step <= max,
                max - min == step * q + r,
                0 <= r < step,
                min <= max,
        ;
    } else {
        assert(n * step >= 0) by (nonlinear_arith)
            requires
                n >= 0,
                step > 0,
        ;
        if n > 0 {
            assert((n - 1) * step >= 0) by (nonlinear_arith)
                requires
                    n > 0,
                    step > 0,
            ;
        }
    }
}

} // verus!
