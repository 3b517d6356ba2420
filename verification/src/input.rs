//! The plain parts of taking a signal in: which frames of an interleaved
//! recording belong to its first channel, and where the fields of a
//! `frequency:phase` pair lie.

use vstd::prelude::*;
use vstd::arithmetic::div_mod::lemma_fundamental_div_mod_converse;

verus! {

/// The byte that parts frequency and phase, a colon.
pub const SEPARATOR: u8 = 58;

/// Where the fields of one `frequency:phase` pair lie in its text, each as
/// the index of its first byte and the index after its last.
#[derive(Clone, Copy, Debug, PartialEq, Eq)]
pub struct Fields {
    /// From the start of the text up to its first colon or its end.
    pub frequency: (usize, usize),
    /// From behind the first colon up to the second colon or the end of the
    /// text; absent where the text holds no colon.
    pub phase: Option<(usize, usize)>,
}

/// The end of the field that starts at `from`: the index of the first
/// separator at or after `from`, or the length of the text.
pub open spec fn field_end(text: Seq<u8>, from: int) -> int
    decreases text.len() - from,
{
    if 0 <= from < text.len() && text[from] != SEPARATOR {
        field_end(text, from + 1)
    } else {
        from
    }
}

/// The first channel of `frames`, in which the samples of `channels`
/// channels take turns: the samples at `0, channels, 2 * channels, ...`.
pub open spec fn channel(frames: Seq<i32>, channels: int) -> Seq<i32> {
    Seq::new(((frames.len() + channels - 1) / channels) as nat, |k: int| frames[k * channels])
}

/// A field holds no separator and ends at a separator or at the end of the text.
pub proof fn lemma_field_end(text: Seq<u8>, from: int)
    requires
        0 <= from <= text.len(),
    ensures
        from <= field_end(text, from) <= text.len(),
        forall|i: int| from <= i < field_end(text, from) ==> #[trigger] text[i] != SEPARATOR,
        field_end(text, from) < text.len() ==> text[field_end(text, from)] == SEPARATOR,
    decreases text.len() - from,
{
    if from < text.len() && text[from] != SEPARATOR {
        lemma_field_end(text, from + 1);
    }
}

fn scan_field(text: &[u8], from: usize) -> (end: usize)
    requires
        from <= text@.len(),
    ensures
        end == field_end(text@, from as int),
        from <= end <= text@.len(),
{
    let mut end: usize = from;
    while end < text.len() && text[end] != SEPARATOR
        invariant
            from <= end <= text@.len(),
            field_end(text@, end as int) == field_end(text@, from as int),
        decreases text.len() - end,
    {
        end += 1;
    }
    end
}

/// Finds the fields of one `frequency:phase` pair. The phase may be
/// missing; what follows a second colon belongs to neither field.
pub fn split_freq_phase(text: &[u8]) -> (fields: Fields)
    ensures
        fields.frequency == (0usize, field_end(text@, 0) as usize),
        fields.frequency.1 <= text@.len(),
        fields.phase is None <==> field_end(text@, 0) == text@.len(),
        fields.phase matches Some(phase) ==> phase.0 == field_end(text@, 0) + 1 && phase.1
            == field_end(text@, field_end(text@, 0) + 1) && phase.0 <= phase.1 <= text@.len(),
{
    let first: usize = scan_field(text, 0);
    if first == text.len() {
        Fields { frequency: (0, first), phase: None }
    } else {
        let second: usize = scan_field(text, first + 1);
        Fields { frequency: (0, first), phase: Some((first + 1, second)) }
    }
}

/// Picks the first channel out of an interleaved recording.
pub fn first_channel(frames: &[i32], channels: usize) -> (picked: Vec<i32>)
    requires
        channels > 0,
    ensures
        picked@ == channel(frames@, channels as int),
{
    let len: usize = frames.len();
    let mut picked: Vec<i32> = Vec::new();
    let mut i: usize = 0;
    assert(0 * channels == 0) by (nonlinear_arith);
    while i < len
        invariant
            len == frames@.len(),
            channels >= 1,
            i <= len,
            len == 0 ==> picked@.len() == 0,
            i < len ==> i == picked@.len() * channels,
            i == len ==> len <= picked@.len() * channels,
            i == len && len > 0 ==> picked@.len() >= 1 && (picked@.len() - 1) * channels < len,
            forall|k: int| 0 <= k < picked@.len() ==> #[trigger] picked@[k] == frames@[k * channels],
        decreases len - i,
    {
        let ghost count = picked@.len() as int;
        picked.push(frames[i]);
        proof {
            assert((count + 1) * channels == count * channels + channels) by (nonlinear_arith);
        }
        if len - i <= channels {
            i = len;
        } else {
            i += channels;
        }
    }
    proof {
        let count = picked@.len() as int;
        let rest = len + channels - 1 - count * channels;
        assert(0 * channels == 0) by (nonlinear_arith);
        assert((count - 1) * channels == count * channels - channels) by (nonlinear_arith);
        lemma_fundamental_div_mod_converse(len + channels - 1, channels as int, count, rest);
        assert(count == (len + channels - 1) / (channels as int));
        assert(picked@ =~= channel(frames@, channels as int));
    }
    picked
}

} // verus!
