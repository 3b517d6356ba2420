//! Post-processing of the raw peaks of a spectrum.

use vstd::prelude::*;
use crate::math::{as_ints, lemma_square_of_abs};
use crate::phasor::Phasor;

verus! {

/// Whether every index of `peaks` addresses an entry of a spectrum of `len` entries.
pub open spec fn in_spectrum(peaks: Seq<int>, len: int) -> bool {
    forall|k: int| 0 <= k < peaks.len() ==> 0 <= #[trigger] peaks[k] < len
}

/// Walks right from `at` while the entries keep the squared magnitude of the
/// entry at `peak`, and yields the index at which the walk stops.
pub open spec fn plateau_scan(spectrum: Seq<Phasor>, peak: int, at: int) -> int
    decreases spectrum.len() - at,
{
    if 0 <= at < spectrum.len() && spectrum[at].power() == spectrum[peak].power() {
        plateau_scan(spectrum, peak, at + 1)
    } else {
        at
    }
}

/// The first index past the plateau that starts at `peak`: the least index
/// above `peak` that lies outside the spectrum or whose entry has another
/// magnitude than the entry at `peak`.
pub open spec fn plateau_end(spectrum: Seq<Phasor>, peak: int) -> int {
    plateau_scan(spectrum, peak, peak + 1)
}

/// The greatest squared magnitude among the entries that `peaks` addresses,
/// zero where there is none.
pub open spec fn peak_ceiling(spectrum: Seq<Phasor>, peaks: Seq<int>) -> int
    decreases peaks.len(),
{
    if peaks.len() == 0 {
        0
    } else {
        let rest = peak_ceiling(spectrum, peaks.drop_last());
        let last = spectrum[peaks.last()].power();
        if last > rest {
            last
        } else {
            rest
        }
    }
}

/// Whether a magnitude exceeds one third of the greatest magnitude, both
/// given squared: `m > c / 3` exactly when `9 m² > c²`.
pub open spec fn significant(power: int, ceiling: int) -> bool {
    9 * power > ceiling
}

/// The plateau ends of those peaks that are significant against `ceiling`,
/// in the order of `peaks`.
pub open spec fn merged(spectrum: Seq<Phasor>, peaks: Seq<int>, ceiling: int) -> Seq<int>
    decreases peaks.len(),
{
    if peaks.len() == 0 {
        Seq::empty()
    } else {
        let rest = merged(spectrum, peaks.drop_last(), ceiling);
        let peak = peaks.last();
        if significant(spectrum[peak].power(), ceiling) {
            rest.push(plateau_end(spectrum, peak))
        } else {
            rest
        }
    }
}

/// `s` with every run of equal neighbours collapsed to its first element.
pub open spec fn dedup(s: Seq<int>) -> Seq<int>
    decreases s.len(),
{
    if s.len() == 0 {
        s
    } else if s.len() >= 2 && s[s.len() - 2] == s.last() {
        dedup(s.drop_last())
    } else {
        dedup(s.drop_last()).push(s.last())
    }
}

/// The final peaks of a spectrum: each raw peak moved to the end of its
/// plateau, kept only where its magnitude exceeds a third of the greatest
/// raw peak, neighbours that coincide reported once.
pub open spec fn adjusted(spectrum: Seq<Phasor>, peaks: Seq<int>) -> Seq<int> {
    dedup(merged(spectrum, peaks, peak_ceiling(spectrum, peaks)))
}

/// Post-processes the raw peaks of a finished sweep.
///
/// Each raw peak is moved to the first index past its plateau, which may be
/// the length of the spectrum where the plateau runs to its end. A peak is
/// kept only where its magnitude strictly exceeds one third of the greatest
/// magnitude among the raw peaks. Of neighbours that coincide one is kept.
pub fn adjust_peaks(phasors: &[Phasor], peaks: &[usize]) -> (adjusted_peaks: Vec<usize>)
    requires
        in_spectrum(as_ints(peaks@), phasors@.len() as int),
    ensures
        as_ints(adjusted_peaks@) == adjusted(phasors@, as_ints(peaks@)),
{
    let ghost raw = as_ints(peaks@);
    let mut ceiling: u128 = 0;
    let mut k: usize = 0;
    while k < peaks.len()
        invariant
            k <= peaks.len(),
            raw == as_ints(peaks@),
            in_spectrum(raw, phasors@.len() as int),
            ceiling == peak_ceiling(phasors@, raw.take(k as int)),
        decreases peaks.len() - k,
    {
        assert(raw[k as int] == peaks[k as int]);
        let power: u128 = phasors[peaks[k]].complex.norm_sqr();
        proof {
            assert(raw.take(k + 1).drop_last() == raw.take(k as int));
        }
        if power > ceiling {
            ceiling = power;
        }
        k += 1;
    }
    assert(raw.take(k as int) == raw);
    let threshold: u128 = ceiling / 9;

    let mut out: Vec<usize> = Vec::new();
    k = 0;
    while k < peaks.len()
        invariant
            k <= peaks.len(),
            raw == as_ints(peaks@),
            in_spectrum(raw, phasors@.len() as int),
            threshold == ceiling / 9,
            as_ints(out@) == dedup(merged(phasors@, raw.take(k as int), ceiling as int)),
            out@.len() == 0 <==> merged(phasors@, raw.take(k as int), ceiling as int).len() == 0,
        decreases peaks.len() - k,
    {
        let peak: usize = peaks[k];
        assert(raw[k as int] == peak);
        let power: u128 = phasors[peak].complex.norm_sqr();
        let mut end: usize = peak + 1;
        while end < phasors.len() && phasors[end].complex.norm_sqr() == power
            invariant
                peak < end <= phasors.len(),
                power == phasors@[peak as int].power(),
                plateau_scan(phasors@, peak as int, end as int) == plateau_end(phasors@, peak as int),
            decreases phasors.len() - end,
        {
            end += 1;
        }
        proof {
            let before = merged(phasors@, raw.take(k as int), ceiling as int);
            assert(raw.take(k + 1).drop_last() == raw.take(k as int));
            assert(raw.take(k + 1).last() == peak);
            assert(end == plateau_end(phasors@, peak as int));
            if before.len() > 0 {
                lemma_dedup_last(before);
                assert(as_ints(out@).last() == out@.last());
            }
            if significant(power as int, ceiling as int) {
                assert(before.push(end as int).drop_last() == before);
            }
        }
        if power > threshold {
            let n: usize = out.len();
            if n == 0 || out[n - 1] != end {
                let ghost kept = as_ints(out@);
                out.push(end);
                assert(as_ints(out@) =~= kept.push(end as int));
            }
        }
        k += 1;
    }
    assert(raw.take(k as int) == raw);
    out
}

/// The walk of `plateau_scan` stops inside `at ..= len`, crosses only entries
/// of the peak's magnitude, and stops at the end of the spectrum or at an
/// entry of another magnitude.
pub proof fn lemma_plateau_scan(spectrum: Seq<Phasor>, peak: int, at: int)
    requires
        0 <= at <= spectrum.len(),
    ensures
        at <= plateau_scan(spectrum, peak, at) <= spectrum.len(),
        forall|i: int|
            at <= i < plateau_scan(spectrum, peak, at) ==> (#[trigger] spectrum[i]).power()
                == spectrum[peak].power(),
        plateau_scan(spectrum, peak, at) < spectrum.len() ==> spectrum[plateau_scan(
            spectrum,
            peak,
            at,
        )].power() != spectrum[peak].power(),
    decreases spectrum.len() - at,
{
    if at < spectrum.len() && spectrum[at].power() == spectrum[peak].power() {
        lemma_plateau_scan(spectrum, peak, at + 1);
    }
}

/// The end of a plateau lies strictly above its peak and at most at the end
/// of the spectrum; every entry between them has the peak's magnitude, and
/// the entry at the end, if there is one, has not.
pub proof fn lemma_plateau_end(spectrum: Seq<Phasor>, peak: int)
    requires
        0 <= peak < spectrum.len(),
    ensures
        peak < plateau_end(spectrum, peak) <= spectrum.len(),
        forall|i: int|
            peak <= i < plateau_end(spectrum, peak) ==> (#[trigger] spectrum[i]).power()
                == spectrum[peak].power(),
        plateau_end(spectrum, peak) < spectrum.len() ==> spectrum[plateau_end(
            spectrum,
            peak,
        )].power() != spectrum[peak].power(),
{
    lemma_plateau_scan(spectrum, peak, peak + 1);
}

/// The ceiling is an upper bound of every raw peak's squared magnitude, and
/// it is attained by one of them unless there is none.
pub proof fn lemma_peak_ceiling(spectrum: Seq<Phasor>, peaks: Seq<int>)
    ensures
        forall|k: int|
            0 <= k < peaks.len() ==> (#[trigger] spectrum[peaks[k]]).power() <= peak_ceiling(
                spectrum,
                peaks,
            ),
        peaks.len() == 0 ==> peak_ceiling(spectrum, peaks) == 0,
        peaks.len() > 0 ==> exists|k: int|
            0 <= k < peaks.len() && (#[trigger] spectrum[peaks[k]]).power() == peak_ceiling(
                spectrum,
                peaks,
            ),
    decreases peaks.len(),
{
    if peaks.len() > 0 {
        let front = peaks.drop_last();
        lemma_peak_ceiling(spectrum, front);
        assert forall|k: int| 0 <= k < peaks.len() implies (#[trigger] spectrum[peaks[k]]).power()
            <= peak_ceiling(spectrum, peaks) by {
            if k < front.len() {
                assert(front[k] == peaks[k]);
                assert(spectrum[front[k]].power() <= peak_ceiling(spectrum, front));
            }
        }
        let last = spectrum[peaks.last()].power();
        if last > peak_ceiling(spectrum, front) || front.len() == 0 {
            lemma_square_of_abs(spectrum[peaks.last()].complex.re as int);
            lemma_square_of_abs(spectrum[peaks.last()].complex.im as int);
            assert(spectrum[peaks[peaks.len() - 1]].power() == peak_ceiling(spectrum, peaks));
        } else {
            let k = choose|k: int|
                0 <= k < front.len() && (#[trigger] spectrum[front[k]]).power() == peak_ceiling(
                    spectrum,
                    front,
                );
            assert(front[k] == peaks[k]);
            assert(spectrum[peaks[k]].power() == peak_ceiling(spectrum, peaks));
        }
    }
}

/// Deduplication keeps the last element.
pub proof fn lemma_dedup_last(s: Seq<int>)
    requires
        s.len() > 0,
    ensures
        dedup(s).len() > 0,
        dedup(s).last() == s.last(),
    decreases s.len(),
{
    if s.len() >= 2 && s[s.len() - 2] == s.last() {
        lemma_dedup_last(s.drop_last());
    }
}

/// No two neighbours of a deduplicated sequence are equal.
pub proof fn lemma_dedup_no_repeats(s: Seq<int>)
    ensures
        forall|i: int| 0 < i < dedup(s).len() ==> dedup(s)[i - 1] != #[trigger] dedup(s)[i],
    decreases s.len(),
{
    if s.len() > 0 {
        let front = s.drop_last();
        let kept = dedup(front);
        lemma_dedup_no_repeats(front);
        if front.len() > 0 {
            lemma_dedup_last(front);
        }
        assert forall|i: int| 0 < i < dedup(s).len() implies dedup(s)[i - 1] != #[trigger] dedup(
            s,
        )[i] by {
            if i < kept.len() {
                assert(kept[i - 1] != kept[i]);
            }
        }
    }
}

/// Deduplication neither adds nor loses a value.
pub proof fn lemma_dedup_members(s: Seq<int>)
    ensures
        forall|x: int| dedup(s).contains(x) <==> s.contains(x),
    decreases s.len(),
{
    if s.len() > 0 {
        let front = s.drop_last();
        let kept = dedup(front);
        lemma_dedup_members(front);
        assert forall|x: int| dedup(s).contains(x) implies s.contains(x) by {
            let i = choose|i: int| 0 <= i < dedup(s).len() && dedup(s)[i] == x;
            if i < kept.len() {
                assert(kept[i] == x);
                assert(kept.contains(x));
                assert(front.contains(x));
                let j = choose|j: int| 0 <= j < front.len() && front[j] == x;
                assert(s[j] == x);
            } else {
                assert(s[s.len() - 1] == x);
            }
        }
        assert forall|x: int| s.contains(x) implies dedup(s).contains(x) by {
            let j = choose|j: int| 0 <= j < s.len() && s[j] == x;
            if j < front.len() || (s.len() >= 2 && s[s.len() - 2] == s.last()) {
                if j < front.len() {
                    assert(front[j] == x);
                } else {
                    assert(front[front.len() - 1] == x);
                }
                assert(front.contains(x));
                assert(kept.contains(x));
                let i = choose|i: int| 0 <= i < kept.len() && kept[i] == x;
                assert(dedup(s)[i] == x);
            } else {
                assert(dedup(s)[dedup(s).len() - 1] == x);
            }
        }
    }
}

/// A value is among the merged peaks exactly when it is the plateau end of a
/// raw peak that is significant against the ceiling.
pub proof fn lemma_merged_members(spectrum: Seq<Phasor>, peaks: Seq<int>, ceiling: int)
    ensures
        forall|x: int|
            merged(spectrum, peaks, ceiling).contains(x) <==> exists|k: int|
                0 <= k < peaks.len() && significant(
                    (#[trigger] spectrum[peaks[k]]).power(),
                    ceiling,
                ) && x == plateau_end(spectrum, peaks[k]),
    decreases peaks.len(),
{
    let all = merged(spectrum, peaks, ceiling);
    if peaks.len() > 0 {
        let front = peaks.drop_last();
        let rest = merged(spectrum, front, ceiling);
        let peak = peaks.last();
        lemma_merged_members(spectrum, front, ceiling);
        assert forall|x: int| all.contains(x) <==> exists|k: int|
            0 <= k < peaks.len() && significant((#[trigger] spectrum[peaks[k]]).power(), ceiling)
                && x == plateau_end(spectrum, peaks[k]) by {
            if all.contains(x) {
                let i = choose|i: int| 0 <= i < all.len() && all[i] == x;
                if i < rest.len() {
                    assert(rest.contains(x));
                    let k = choose|k: int|
                        0 <= k < front.len() && significant(
                            (#[trigger] spectrum[front[k]]).power(),
                            ceiling,
                        ) && x == plateau_end(spectrum, front[k]);
                    assert(front[k] == peaks[k]);
                    assert(significant(spectrum[peaks[k]].power(), ceiling));
                } else {
                    assert(significant(spectrum[peaks[peaks.len() - 1]].power(), ceiling));
                }
            }
            if exists|k: int|
                0 <= k < peaks.len() && significant(
                    (#[trigger] spectrum[peaks[k]]).power(),
                    ceiling,
                ) && x == plateau_end(spectrum, peaks[k]) {
                let k = choose|k: int|
                    0 <= k < peaks.len() && significant(
                        (#[trigger] spectrum[peaks[k]]).power(),
                        ceiling,
                    ) && x == plateau_end(spectrum, peaks[k]);
                if k < front.len() {
                    assert(front[k] == peaks[k]);
                    assert(significant(spectrum[front[k]].power(), ceiling));
                    assert(rest.contains(x));
                    let i = choose|i: int| 0 <= i < rest.len() && rest[i] == x;
                    assert(all[i] == x);
                } else {
                    assert(all[all.len() - 1] == x);
                }
            }
        }
    }
}

/// A value is among the final peaks exactly when it is the plateau end of a
/// raw peak whose magnitude exceeds a third of the greatest raw peak's; a
/// raw peak of exactly a third is left out. No two neighbours among the
/// final peaks are equal.
pub proof fn lemma_adjusted(spectrum: Seq<Phasor>, peaks: Seq<int>)
    ensures
        forall|x: int|
            adjusted(spectrum, peaks).contains(x) <==> exists|k: int|
                0 <= k < peaks.len() && significant(
                    (#[trigger] spectrum[peaks[k]]).power(),
                    peak_ceiling(spectrum, peaks),
                ) && x == plateau_end(spectrum, peaks[k]),
        forall|i: int|
            0 < i < adjusted(spectrum, peaks).len() ==> adjusted(spectrum, peaks)[i - 1]
                != #[trigger] adjusted(spectrum, peaks)[i],
{
    let ceiling = peak_ceiling(spectrum, peaks);
    let all = merged(spectrum, peaks, ceiling);
    lemma_merged_members(spectrum, peaks, ceiling);
    lemma_dedup_members(all);
    lemma_dedup_no_repeats(all);
    assert forall|x: int|
        adjusted(spectrum, peaks).contains(x) <==> exists|k: int|
            0 <= k < peaks.len() && significant((#[trigger] spectrum[peaks[k]]).power(), ceiling)
                && x == plateau_end(spectrum, peaks[k]) by {
        assert(dedup(all).contains(x) <==> all.contains(x));
    }
}

/// Every final peak lies above the raw peak it came from and at most at the
/// length of the spectrum.
pub proof fn lemma_adjusted_range(spectrum: Seq<Phasor>, peaks: Seq<int>)
    requires
        in_spectrum(peaks, spectrum.len() as int),
    ensures
        forall|i: int|
            0 <= i < adjusted(spectrum, peaks).len() ==> 0 < #[trigger] adjusted(
                spectrum,
                peaks,
            )[i] <= spectrum.len(),
{
    let all = adjusted(spectrum, peaks);
    lemma_adjusted(spectrum, peaks);
    assert forall|i: int| 0 <= i < all.len() implies 0 < #[trigger] all[i] <= spectrum.len() by {
        let x = all[i];
        assert(all.contains(x));
        let k = choose|k: int|
            0 <= k < peaks.len() && significant(
                (#[trigger] spectrum[peaks[k]]).power(),
                peak_ceiling(spectrum, peaks),
            ) && x == plateau_end(spectrum, peaks[k]);
        lemma_plateau_end(spectrum, peaks[k]);
    }
}

/// A peak whose right neighbour has another magnitude has no plateau: its
/// adjusted position is the next index. Every local peak is such a peak.
pub proof fn lemma_plateau_of_one(spectrum: Seq<Phasor>, peak: int)
    requires
        0 <= peak,
        peak + 1 < spectrum.len(),
        spectrum[peak + 1].power() != spectrum[peak].power(),
    ensures
        plateau_end(spectrum, peak) == peak + 1,
{
}

} // verus!
