//! A sampled signal and the series derived from it.

use vstd::prelude::*;
use vstd::arithmetic::div_mod::{
    lemma_fundamental_div_mod,
    lemma_fundamental_div_mod_converse,
    lemma_mod_bound,
};
use crate::error::ConfigError;
use crate::math::{abs, as_ints, magnitude};

verus! {

/// One point of a time series. Its instant is `tick` sampling periods after
/// the start of the sample, that is `tick / rate` seconds.
#[derive(Clone, Copy, Debug, PartialEq, Eq, Structural)]
pub struct Point {
    pub tick: usize,
    pub amplitude: i32,
}

/// A length of time as whole seconds and the sampling periods beyond them.
#[derive(Clone, Copy, Debug, PartialEq, Eq, Structural)]
pub struct Span {
    pub seconds: usize,
    pub ticks: usize,
}

/// A signal sampled at a fixed rate.
#[derive(Clone, Debug, PartialEq, Eq)]
pub struct Sample {
    /// The amplitudes in sampling order, in a unit that the producer chooses.
    pub data: Vec<i32>,
    /// Samples per second.
    pub rate: usize,
}

/// Whether `peak` is the greatest absolute amplitude of `data`, zero for no data.
pub open spec fn is_max_amplitude(data: Seq<i32>, peak: int) -> bool {
    &&& forall|i: int| 0 <= i < data.len() ==> abs(#[trigger] data[i] as int) <= peak
    &&& data.len() == 0 ==> peak == 0
    &&& data.len() > 0 ==> exists|i: int|
        0 <= i < data.len() && abs(#[trigger] data[i] as int) == peak
}

/// The distance between the indices that a series of about `resolution`
/// points takes from `len` amplitudes.
pub open spec fn stride(len: int, resolution: int) -> int {
    if len / resolution > 1 {
        len / resolution
    } else {
        1
    }
}

/// Every `stride`-th amplitude of `data`, from the first on, each with its index.
pub open spec fn time_series(data: Seq<i32>, stride: int) -> Seq<Point> {
    Seq::new(
        ((data.len() + stride - 1) / stride) as nat,
        |k: int| Point { tick: (k * stride) as usize, amplitude: data[k * stride] },
    )
}

/// The rise of the absolute amplitude within the pair of samples `2 * pair`
/// and `2 * pair + 1`.
pub open spec fn slope(data: Seq<i32>, pair: int) -> int {
    abs(data[2 * pair + 1] as int) - abs(data[2 * pair] as int)
}

/// Whether the envelope turns at `pair`: the slope of the pair before it and
/// its own slope have strictly opposite signs.
pub open spec fn turns(data: Seq<i32>, pair: int) -> bool {
    &&& 1 <= pair
    &&& 2 * pair + 1 < data.len()
    &&& {
        ||| slope(data, pair - 1) > 0 && slope(data, pair) < 0
        ||| slope(data, pair - 1) < 0 && slope(data, pair) > 0
    }
}

/// The first index of each of the first `pairs` pairs at which the envelope turns.
pub open spec fn turning_points_within(data: Seq<i32>, pairs: nat) -> Seq<int>
    decreases pairs,
{
    if pairs == 0 {
        Seq::empty()
    } else {
        let before = turning_points_within(data, (pairs - 1) as nat);
        if turns(data, pairs - 1) {
            before.push(2 * (pairs - 1))
        } else {
            before
        }
    }
}

/// The indices at which the envelope of `data` turns, ascending.
pub open spec fn turning_points(data: Seq<i32>) -> Seq<int> {
    turning_points_within(data, data.len() / 2)
}

/// The points of `data` at the indices `ticks`.
pub open spec fn points_at(data: Seq<i32>, ticks: Seq<int>) -> Seq<Point> {
    Seq::new(ticks.len(), |k: int| Point { tick: ticks[k] as usize, amplitude: data[ticks[k]] })
}

impl Sample {
    /// Whether the sample meets its invariant: a positive rate.
    pub open spec fn wf(&self) -> bool {
        self.rate > 0
    }

    /// Makes a sample, unless the rate is zero.
    pub fn new(data: Vec<i32>, rate: usize) -> (made: Result<Sample, ConfigError>)
        ensures
            rate == 0 ==> made == Err::<Sample, ConfigError>(ConfigError::ZeroRate),
            rate > 0 ==> made == Ok::<Sample, ConfigError>(Sample { data, rate }),
            made matches Ok(sample) ==> sample.wf(),
    {
        if rate == 0 {
            Err(ConfigError::ZeroRate)
        } else {
            Ok(Sample { data, rate })
        }
    }

    /// Whether the sample holds no amplitude.
    pub fn is_empty(&self) -> (empty: bool)
        ensures
            empty == (self.data@.len() == 0),
    {
        self.data.len() == 0
    }

    /// The greatest absolute amplitude, zero for an empty sample.
    pub fn max_amplitude(&self) -> (peak: u32)
        ensures
            is_max_amplitude(self.data@, peak as int),
    {
        let mut peak: u32 = 0;
        let mut i: usize = 0;
        while i < self.data.len()
            invariant
                i <= self.data.len(),
                is_max_amplitude(self.data@.take(i as int), peak as int),
            decreases self.data.len() - i,
        {
            let ghost seen = self.data@.take(i as int);
            let ghost next = self.data@.take(i + 1);
            let m: u32 = magnitude(self.data[i]);
            proof {
                assert forall|j: int| 0 <= j < next.len() implies abs(#[trigger] next[j] as int)
                    <= (if m > peak {
                    m
                } else {
                    peak
                }) by {
                    if j < i {
                        assert(next[j] == seen[j]);
                    }
                }
                if m > peak || i == 0 {
                    assert(abs(next[i as int] as int) == m);
                } else {
                    let j = choose|j: int| 0 <= j < seen.len() && abs(#[trigger] seen[j] as int) == peak;
                    assert(abs(next[j] as int) == peak);
                }
            }
            if m > peak {
                peak = m;
            }
            i += 1;
        }
        assert(self.data@.take(i as int) == self.data@);
        peak
    }

    /// The length of the sample in time.
    pub fn time(&self) -> (span: Span)
        requires
            self.wf(),
        ensures
            span.seconds == self.data@.len() / (self.rate as nat),
            span.ticks == self.data@.len() % (self.rate as nat),
    {
        let len: usize = self.data.len();
        Span { seconds: len / self.rate, ticks: len % self.rate }
    }

    /// The sample as a time series of about `res` points: the amplitudes at
    /// the indices `0, s, 2s, ...` for the stride `s = max(len / res, 1)`,
    /// each with its index. With `res` above half the length every amplitude
    /// is taken.
    pub fn with_time(&self, res: usize) -> (points: Vec<Point>)
        requires
            res > 0,
        ensures
            points@ == time_series(self.data@, stride(self.data@.len() as int, res as int)),
    {
        let len: usize = self.data.len();
        let ss: usize = if len / res > 1 {
            len / res
        } else {
            1
        };
        let mut points: Vec<Point> = Vec::new();
        let mut i: usize = 0;
        while i < len
            invariant
                len == self.data@.len(),
                ss >= 1,
                i <= len,
                len == 0 ==> points@.len() == 0,
                i < len ==> i == points@.len() * ss,
                i == len ==> len <= points@.len() * ss,
                i == len && len > 0 ==> points@.len() >= 1 && (points@.len() - 1) * ss < len,
                forall|k: int|
                    0 <= k < points@.len() ==> #[trigger] points@[k] == (Point {
                        tick: (k * ss) as usize,
                        amplitude: self.data@[k * ss],
                    }),
            decreases len - i,
        {
            let ghost count = points@.len() as int;
            points.push(Point { tick: i, amplitude: self.data[i] });
            proof {
                assert((count + 1) * ss == count * ss + ss) by (nonlinear_arith);
            }
            if len - i <= ss {
                i = len;
            } else {
                i += ss;
            }
        }
        proof {
            let count = points@.len() as int;
            if len == 0 {
                assert(count * ss == 0) by (nonlinear_arith)
                    requires
                        count == 0,
                ;
            } else {
                let rest = len + ss - 1 - count * ss;
                assert((count - 1) * ss == count * ss - ss) by (nonlinear_arith);
                assert(len + ss - 1 == count * ss + rest);
                lemma_fundamental_div_mod_converse(len + ss - 1, ss as int, count, rest);
            }
            assert(count == (len + ss - 1) / (ss as int));
            assert(points@ =~= time_series(self.data@, ss as int));
        }
        points
    }

    /// The indices at which the envelope of the signal turns.
    ///
    /// The amplitudes are read in pairs `(0, 1), (2, 3), ...`; a last one
    /// without a partner is left out. A pair's slope is the absolute value of
    /// its second amplitude less that of its first. The first index of a pair
    /// is reported where the slope of the pair before it and its own slope
    /// have strictly opposite signs.
    pub fn peaks(&self) -> (turning: Vec<usize>)
        ensures
            as_ints(turning@) == turning_points(self.data@),
    {
        let len: usize = self.data.len();
        let pairs: usize = len / 2;
        let mut turning: Vec<usize> = Vec::new();
        let mut rising: bool = false;
        let mut falling: bool = false;
        let mut pair: usize = 0;
        while pair < pairs
            invariant
                len == self.data@.len(),
                pairs == len / 2,
                pair <= pairs,
                as_ints(turning@) == turning_points_within(self.data@, pair as nat),
                pair == 0 ==> !rising && !falling,
                pair > 0 ==> rising == (slope(self.data@, pair - 1) > 0),
                pair > 0 ==> falling == (slope(self.data@, pair - 1) < 0),
            decreases pairs - pair,
        {
            let first: usize = 2 * pair;
            let before: u32 = magnitude(self.data[first]);
            let now: u32 = magnitude(self.data[first + 1]);
            let up: bool = now > before;
            let down: bool = now < before;
            if (rising && down) || (falling && up) {
                let ghost found = as_ints(turning@);
                turning.push(first);
                assert(as_ints(turning@) =~= found.push(first as int));
            }
            rising = up;
            falling = down;
            pair += 1;
        }
        turning
    }

    /// The sample reduced to its turning points: a cheaper stand-in for the
    /// whole series, at the price of fidelity.
    pub fn simplify(&self) -> (points: Vec<Point>)
        ensures
            points@ == points_at(self.data@, turning_points(self.data@)),
    {
        let turning: Vec<usize> = self.peaks();
        proof {
            lemma_turning_points(self.data@);
        }
        let mut points: Vec<Point> = Vec::new();
        let mut k: usize = 0;
        while k < turning.len()
            invariant
                k <= turning.len(),
                as_ints(turning@) == turning_points(self.data@),
                forall|j: int|
                    0 <= j < turning@.len() ==> 0 <= #[trigger] as_ints(turning@)[j]
                        < self.data@.len(),
                points@ == points_at(self.data@, as_ints(turning@).take(k as int)),
            decreases turning.len() - k,
        {
            let tick: usize = turning[k];
            assert(as_ints(turning@)[k as int] == tick);
            let ghost taken = points@;
            points.push(Point { tick, amplitude: self.data[tick] });
            assert(points@ =~= points_at(self.data@, as_ints(turning@).take(k + 1)));
            k += 1;
        }
        assert(as_ints(turning@).take(k as int) == as_ints(turning@));
        points
    }
}

/// The turning points are even indices in strictly ascending order, each the
/// first index of a pair at which the envelope turns, and no such pair is
/// missing.
pub proof fn lemma_turning_points(data: Seq<i32>)
    ensures
        forall|k: int|
            0 <= k < turning_points(data).len() ==> {
                let tick = #[trigger] turning_points(data)[k];
                0 <= tick && tick + 1 < data.len() && tick % 2 == 0 && turns(data, tick / 2)
            },
        forall|j: int, k: int|
            0 <= j < k < turning_points(data).len() ==> turning_points(data)[j]
                < turning_points(data)[k],
        forall|pair: int| turns(data, pair) ==> turning_points(data).contains(2 * pair),
{
    lemma_turning_points_within(data, data.len() / 2);
    assert forall|pair: int| turns(data, pair) implies turning_points(data).contains(2 * pair) by {
        assert(0 <= pair < data.len() / 2);
    }
}

/// What `lemma_turning_points` states, of the first `pairs` pairs.
pub proof fn lemma_turning_points_within(data: Seq<i32>, pairs: nat)
    requires
        pairs <= data.len() / 2,
    ensures
        forall|k: int|
            0 <= k < turning_points_within(data, pairs).len() ==> {
                let tick = #[trigger] turning_points_within(data, pairs)[k];
                0 <= tick < 2 * pairs && tick % 2 == 0 && turns(data, tick / 2)
            },
        forall|j: int, k: int|
            0 <= j < k < turning_points_within(data, pairs).len() ==> turning_points_within(
                data,
                pairs,
            )[j] < turning_points_within(data, pairs)[k],
        forall|pair: int|
            0 <= pair < pairs && turns(data, pair) ==> turning_points_within(data, pairs).contains(
                2 * pair,
            ),
    decreases pairs,
{
    if pairs > 0 {
        let before = turning_points_within(data, (pairs - 1) as nat);
        let all = turning_points_within(data, pairs);
        lemma_turning_points_within(data, (pairs - 1) as nat);
        assert forall|pair: int| 0 <= pair < pairs && turns(data, pair) implies all.contains(
            2 * pair,
        ) by {
            if pair < pairs - 1 {
                assert(before.contains(2 * pair));
                let k = choose|k: int| 0 <= k < before.len() && before[k] == 2 * pair;
                assert(all[k] == 2 * pair);
            } else {
                assert(all[all.len() - 1] == 2 * pair);
            }
        }
        assert forall|j: int, k: int| 0 <= j < k < all.len() implies all[j] < all[k] by {
            if k < before.len() {
                assert(before[j] < before[k]);
            } else {
                assert(before[j] < 2 * (pairs - 1));
            }
        }
    }
}

/// Every point of a time series carries the amplitude found at its own
/// tick: point `k` stands at tick `k * stride`, inside the data. With a
/// stride of one the series has a point for every index.
pub proof fn lemma_time_series(data: Seq<i32>, stride: int)
    requires
        stride >= 1,
        data.len() <= usize::MAX,
    ensures
        forall|k: int|
            0 <= k < time_series(data, stride).len() ==> {
                let point = #[trigger] time_series(data, stride)[k];
                point.tick == k * stride && point.tick < data.len() && point.amplitude
                    == data[point.tick as int]
            },
        stride == 1 ==> time_series(data, stride).len() == data.len(),
{
    let len = data.len() as int;
    let count = (len + stride - 1) / stride;
    lemma_fundamental_div_mod(len + stride - 1, stride);
    lemma_mod_bound(len + stride - 1, stride);
    assert forall|k: int| 0 <= k < time_series(data, stride).len() implies {
        let point = #[trigger] time_series(data, stride)[k];
        point.tick == k * stride && point.tick < data.len() && point.amplitude
            == data[point.tick as int]
    } by {
        assert(0 <= k * stride < len) by (nonlinear_arith)
            requires
                0 <= k < count,
                stride >= 1,
                len + stride - 1 == stride * count + (len + stride - 1) % stride,
                0 <= (len + stride - 1) % stride < stride,
        ;
    }
}

/// A resolution of more than half the length asks for every amplitude.
pub proof fn lemma_full_resolution(len: int, resolution: int)
    requires
        0 <= len < 2 * resolution,
    ensures
        stride(len, resolution) == 1,
{
    lemma_fundamental_div_mod(len, resolution);
    lemma_mod_bound(len, resolution);
    let q = len / resolution;
    assert(q <= 1) by (nonlinear_arith)
        requires
            len == resolution * q + len % resolution,
            0 <= len % resolution,
            0 <= len < 2 * resolution,
    ;
}

} // verus!
