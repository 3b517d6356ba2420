//! Detection of local maxima in a spectrum.

use vstd::prelude::*;
use vstd::slice::slice_subrange;
use crate::phasor::Phasor;

verus! {

/// Whether `idx` is the last index at which `data` has its greatest squared
/// magnitude; for no data, whether it is zero.
pub open spec fn is_strongest(data: Seq<Phasor>, idx: int) -> bool {
    if data.len() == 0 {
        idx == 0
    } else {
        &&& 0 <= idx < data.len()
        &&& forall|i: int| 0 <= i < data.len() ==> (#[trigger] data[i]).power() <= data[idx].power()
        &&& forall|i: int| idx < i < data.len() ==> (#[trigger] data[i]).power() < data[idx].power()
    }
}

/// Whether the entry at `i` is a local peak: it has both neighbours, is at
/// least as strong as the left one and strictly stronger than the right one.
pub open spec fn is_local_peak(spectrum: Seq<Phasor>, i: int) -> bool {
    &&& 1 <= i
    &&& i + 1 < spectrum.len()
    &&& spectrum[i - 1].power() <= spectrum[i].power()
    &&& spectrum[i + 1].power() < spectrum[i].power()
}

/// The local peaks among the first `count` indices, ascending.
pub open spec fn local_peaks_within(spectrum: Seq<Phasor>, count: nat) -> Seq<int>
    decreases count,
{
    if count == 0 {
        Seq::empty()
    } else {
        let before = local_peaks_within(spectrum, (count - 1) as nat);
        if is_local_peak(spectrum, count - 1) {
            before.push(count - 1)
        } else {
            before
        }
    }
}

/// The local peaks of a spectrum, ascending.
pub open spec fn local_peaks(spectrum: Seq<Phasor>) -> Seq<int> {
    local_peaks_within(spectrum, spectrum.len())
}

/// Finds the strongest of some phasors by squared magnitude. Of several
/// that are equally strong the last one wins. Yields zero for no phasors.
pub fn max(data: &[Phasor]) -> (idx: usize)
    ensures
        is_strongest(data@, idx as int),
{
    let mut idx: usize = 0;
    let mut best: u128 = 0;
    let mut i: usize = 0;
    while i < data.len()
        invariant
            i <= data.len(),
            i == 0 ==> idx == 0 && best == 0,
            i > 0 ==> idx < i && best == data@[idx as int].power(),
            forall|j: int| 0 <= j < i ==> (#[trigger] data@[j]).power() <= best,
            forall|j: int| idx < j < i ==> (#[trigger] data@[j]).power() < best,
        decreases data.len() - i,
    {
        let power: u128 = data[i].complex.norm_sqr();
        if !(best > power) {
            idx = i;
            best = power;
        }
        i += 1;
    }
    idx
}

/// Looks at the last three entries of a growing spectrum and reports the
/// index of the middle one if it is a local peak.
///
/// Called once after each new entry, this flags every local peak of the
/// spectrum exactly once, in ascending order.
pub fn latest_peak(spectrum: &[Phasor]) -> (found: Option<usize>)
    ensures
        found is Some <==> is_local_peak(spectrum@, spectrum@.len() - 2),
        found matches Some(i) ==> i == spectrum@.len() - 2,
{
    let len: usize = spectrum.len();
    if len < 3 {
        return None;
    }
    let window: &[Phasor] = slice_subrange(spectrum, len - 3, len);
    let winner: usize = max(window);
    proof {
        assert(window@[0] == spectrum@[len - 3]);
        assert(window@[1] == spectrum@[len - 2]);
        assert(window@[2] == spectrum@[len - 1]);
    }
    if winner == 1 {
        Some(len - 2)
    } else {
        None
    }
}

/// Every local peak found among the first `count` indices is a local peak
/// below `count`; they ascend strictly, and none is missing.
pub proof fn lemma_local_peaks_within(spectrum: Seq<Phasor>, count: nat)
    ensures
        forall|k: int|
            0 <= k < local_peaks_within(spectrum, count).len() ==> {
                let i = #[trigger] local_peaks_within(spectrum, count)[k];
                0 <= i < count && is_local_peak(spectrum, i)
            },
        forall|j: int, k: int|
            0 <= j < k < local_peaks_within(spectrum, count).len() ==> local_peaks_within(
                spectrum,
                count,
            )[j] < local_peaks_within(spectrum, count)[k],
        forall|i: int|
            0 <= i < count && is_local_peak(spectrum, i) ==> local_peaks_within(
                spectrum,
                count,
            ).contains(i),
    decreases count,
{
    if count > 0 {
        let before = local_peaks_within(spectrum, (count - 1) as nat);
        let all = local_peaks_within(spectrum, count);
        lemma_local_peaks_within(spectrum, (count - 1) as nat);
        assert forall|i: int| 0 <= i < count && is_local_peak(spectrum, i) implies all.contains(
            i,
        ) by {
            if i < count - 1 {
                assert(before.contains(i));
                let k = choose|k: int| 0 <= k < before.len() && before[k] == i;
                assert(all[k] == i);
            } else {
                assert(all[all.len() - 1] == i);
            }
        }
        assert forall|j: int, k: int| 0 <= j < k < all.len() implies all[j] < all[k] by {
            if k < before.len() {
                assert(before[j] < before[k]);
            } else {
                assert(before[j] < count - 1);
            }
        }
    }
}

/// The local peaks of a spectrum are indices of it, each a local peak; they
/// ascend strictly, and none is missing.
pub proof fn lemma_local_peaks(spectrum: Seq<Phasor>)
    ensures
        forall|k: int|
            0 <= k < local_peaks(spectrum).len() ==> {
                let i = #[trigger] local_peaks(spectrum)[k];
                0 <= i < spectrum.len() && is_local_peak(spectrum, i)
            },
        forall|j: int, k: int|
            0 <= j < k < local_peaks(spectrum).len() ==> local_peaks(spectrum)[j] < local_peaks(
                spectrum,
            )[k],
        forall|i: int| is_local_peak(spectrum, i) ==> local_peaks(spectrum).contains(i),
{
    lemma_local_peaks_within(spectrum, spectrum.len());
}

/// A new entry at the end leaves the local peaks that were found standing
/// and decides of the entry before it alone.
pub proof fn lemma_local_peaks_push(spectrum: Seq<Phasor>, entry: Phasor)
    ensures
        local_peaks(spectrum.push(entry)) == (if is_local_peak(
            spectrum.push(entry),
            spectrum.len() - 1,
        ) {
            local_peaks(spectrum).push(spectrum.len() - 1)
        } else {
            local_peaks(spectrum)
        }),
{
    let grown = spectrum.push(entry);
    let len = spectrum.len();
    assert(!is_local_peak(grown, len as int));
    assert(local_peaks(grown) == local_peaks_within(grown, len));
    if len > 0 {
        let inner = (len - 1) as nat;
        lemma_local_peaks_prefix(spectrum, entry, inner);
        assert(!is_local_peak(spectrum, inner as int));
        assert(local_peaks(spectrum) == local_peaks_within(spectrum, inner));
        assert(local_peaks_within(grown, len) == (if is_local_peak(grown, inner as int) {
            local_peaks_within(grown, inner).push(inner as int)
        } else {
            local_peaks_within(grown, inner)
        }));
    }
}

proof fn lemma_local_peaks_prefix(spectrum: Seq<Phasor>, entry: Phasor, count: nat)
    requires
        count + 1 <= spectrum.len(),
    ensures
        local_peaks_within(spectrum.push(entry), count) == local_peaks_within(spectrum, count),
    decreases count,
{
    if count > 0 {
        lemma_local_peaks_prefix(spectrum, entry, (count - 1) as nat);
        let grown = spectrum.push(entry);
        let i = count - 1;
        assert(grown[i] == spectrum[i]);
        assert(grown[i + 1] == spectrum[i + 1]);
        if i >= 1 {
            assert(grown[i - 1] == spectrum[i - 1]);
        }
    }
}

/// At most one index is the strongest: of equally strong phasors only the
/// last qualifies.
pub proof fn lemma_strongest_unique(data: Seq<Phasor>, a: int, b: int)
    requires
        is_strongest(data, a),
        is_strongest(data, b),
    ensures
        a == b,
{
    if data.len() > 0 {
        assert(data[a].power() <= data[b].power());
        assert(data[b].power() <= data[a].power());
    }
}

/// In a window of three the middle phasor is the strongest exactly when it
/// is a local peak: at least as strong as the first and strictly stronger
/// than the last.
pub proof fn lemma_window_of_three(window: Seq<Phasor>)
    requires
        window.len() == 3,
    ensures
        is_strongest(window, 1) <==> is_local_peak(window, 1),
{
    if is_local_peak(window, 1) {
        assert forall|i: int| 0 <= i < 3 implies (#[trigger] window[i]).power()
            <= window[1].power() by {}
    }
    if is_strongest(window, 1) {
        assert(window[0].power() <= window[1].power());
        assert(window[2].power() < window[1].power());
    }
}

} // verus!
