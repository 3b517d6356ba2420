//! The phasor estimator: winding a series around the origin and taking the
//! running mean of the wound points.

use vstd::prelude::*;
use vstd::arithmetic::div_mod::{
    lemma_fundamental_div_mod,
    lemma_fundamental_div_mod_converse,
    lemma_mod_bound,
};
use crate::complex::{Complex, Rotor};
use crate::sample::Point;

verus! {

/// A point wound by a rotor: the rotor scaled by the point's amplitude.
pub open spec fn wound(point: Point, rotor: Rotor) -> Complex {
    Complex {
        re: (point.amplitude * rotor.re) as i64,
        im: (point.amplitude * rotor.im) as i64,
    }
}

/// The series `data` wound by `rotors`, point by point. Where the two differ
/// in length, what the longer one holds beyond the other is left out.
pub open spec fn winding(data: Seq<Point>, rotors: Seq<Rotor>) -> Seq<Complex> {
    Seq::new(
        if data.len() <= rotors.len() {
            data.len()
        } else {
            rotors.len()
        },
        |i: int| wound(data[i], rotors[i]),
    )
}

/// The sum of the real parts.
pub open spec fn sum_re(values: Seq<Complex>) -> int
    decreases values.len(),
{
    if values.len() == 0 {
        0
    } else {
        sum_re(values.drop_last()) + values.last().re
    }
}

/// The sum of the imaginary parts.
pub open spec fn sum_im(values: Seq<Complex>) -> int
    decreases values.len(),
{
    if values.len() == 0 {
        0
    } else {
        sum_im(values.drop_last()) + values.last().im
    }
}

/// The arithmetic mean of `values`, each part rounded down to a whole
/// number; the origin for no values.
pub open spec fn mean(values: Seq<Complex>) -> Complex {
    if values.len() == 0 {
        Complex { re: 0, im: 0 }
    } else {
        Complex {
            re: (sum_re(values) / (values.len() as int)) as i64,
            im: (sum_im(values) / (values.len() as int)) as i64,
        }
    }
}

/// The product of an amplitude and a rotor's part fits the part of a complex
/// number, so `wound` holds the exact products.
pub proof fn lemma_wound_exact(point: Point, rotor: Rotor)
    ensures
        wound(point, rotor).re == point.amplitude * rotor.re,
        wound(point, rotor).im == point.amplitude * rotor.im,
{
    lemma_product_fits(point.amplitude as int, rotor.re as int);
    lemma_product_fits(point.amplitude as int, rotor.im as int);
}

proof fn lemma_product_fits(a: int, x: int)
    by (nonlinear_arith)
    requires
        -0x8000_0000 <= a <= 0x7fff_ffff,
        -0x8000_0000 <= x <= 0x7fff_ffff,
    ensures
        -0x4000_0000_0000_0000 < a * x <= 0x4000_0000_0000_0000,
{
}

/// Each sum lies within the range of one part times the number of values.
pub proof fn lemma_sum_bounds(values: Seq<Complex>)
    ensures
        -0x8000_0000_0000_0000 * values.len() <= sum_re(values) <= 0x7fff_ffff_ffff_ffff
            * values.len(),
        -0x8000_0000_0000_0000 * values.len() <= sum_im(values) <= 0x7fff_ffff_ffff_ffff
            * values.len(),
    decreases values.len(),
{
    if values.len() > 0 {
        lemma_sum_bounds(values.drop_last());
    }
}

/// A quotient of a total within `count` times the range of `i64` lies
/// within the range of `i64`.
proof fn lemma_quotient_fits(total: int, count: int)
    requires
        count > 0,
        -0x8000_0000_0000_0000 * count <= total < 0x8000_0000_0000_0000 * count,
    ensures
        -0x8000_0000_0000_0000 <= total / count <= 0x7fff_ffff_ffff_ffff,
{
    lemma_fundamental_div_mod(total, count);
    lemma_mod_bound(total, count);
    let q = total / count;
    let r = total % count;
    assert(q >= -0x8000_0000_0000_0000 && q < 0x8000_0000_0000_0000) by (nonlinear_arith)
        requires
            total == count * q + r,
            0 <= r < count,
            -0x8000_0000_0000_0000 * count <= total < 0x8000_0000_0000_0000 * count,
    ;
}

/// The parts of the mean are the exact quotients of the sums by the number
/// of values: no part leaves the range of `i64`.
pub proof fn lemma_mean_exact(values: Seq<Complex>)
    requires
        values.len() > 0,
    ensures
        mean(values).re == sum_re(values) / (values.len() as int),
        mean(values).im == sum_im(values) / (values.len() as int),
{
    lemma_sum_bounds(values);
    lemma_quotient_fits(sum_re(values), values.len() as int);
    lemma_quotient_fits(sum_im(values), values.len() as int);
}

/// The mean of a stream of complex values, kept up to date value by value.
///
/// With the mean `m` of `n` values in hand, the next value `c` gives the mean
/// `(m * n + c) / (n + 1)`. The division is carried out on whole numbers;
/// its remainder is kept and enters the next step, so the mean at every step
/// is the exact sum divided by the count, rounded down, and no rounding
/// error builds up.
#[derive(Clone, Copy, Debug)]
pub struct RunningMean {
    value: Complex,
    carry_re: u64,
    carry_im: u64,
    count: usize,
}

impl RunningMean {
    /// The number of values taken in.
    pub closed spec fn count(&self) -> nat {
        self.count as nat
    }

    /// The sum of the real parts taken in.
    pub closed spec fn total_re(&self) -> int {
        self.value.re * self.count + self.carry_re
    }

    /// The sum of the imaginary parts taken in.
    pub closed spec fn total_im(&self) -> int {
        self.value.im * self.count + self.carry_im
    }

    /// The invariant: each remainder is less than the count, and before the
    /// first value everything is zero.
    pub closed spec fn wf(&self) -> bool {
        &&& self.count == 0 ==> self.value.re == 0 && self.value.im == 0 && self.carry_re == 0
            && self.carry_im == 0
        &&& self.count > 0 ==> self.carry_re < self.count && self.carry_im < self.count
    }

    /// Whether the accumulator stands for `values`: it has their count and
    /// their sums.
    pub open spec fn holds(&self, values: Seq<Complex>) -> bool {
        &&& self.wf()
        &&& self.count() == values.len()
        &&& self.total_re() == sum_re(values)
        &&& self.total_im() == sum_im(values)
    }

    /// An accumulator that has taken in nothing.
    pub fn new() -> (acc: RunningMean)
        ensures
            acc.holds(Seq::empty()),
            acc.count() == 0,
            acc.total_re() == 0,
            acc.total_im() == 0,
    {
        RunningMean { value: Complex { re: 0, im: 0 }, carry_re: 0, carry_im: 0, count: 0 }
    }

    /// The number of values taken in.
    pub fn len(&self) -> (n: usize)
        ensures
            n == self.count(),
    {
        self.count
    }

    /// Takes in one more value.
    pub fn push(&mut self, c: Complex)
        requires
            old(self).wf(),
            old(self).count() < usize::MAX,
        ensures
            final(self).wf(),
            final(self).count() == old(self).count() + 1,
            final(self).total_re() == old(self).total_re() + c.re,
            final(self).total_im() == old(self).total_im() + c.im,
            forall|values: Seq<Complex>| #[trigger]
                old(self).holds(values) ==> final(self).holds(values.push(c)),
    {
        let (re, carry_re) = step(self.value.re, self.carry_re, self.count, c.re);
        let (im, carry_im) = step(self.value.im, self.carry_im, self.count, c.im);
        let ghost before = *self;
        self.value = Complex { re, im };
        self.carry_re = carry_re;
        self.carry_im = carry_im;
        self.count = self.count + 1;
        proof {
            assert forall|values: Seq<Complex>| #[trigger] before.holds(values) implies self.holds(
                values.push(c),
            ) by {
                assert(values.push(c).drop_last() == values);
            }
        }
    }

    /// The mean of the values taken in, the origin before the first.
    pub fn mean(&self) -> (m: Complex)
        requires
            self.wf(),
        ensures
            self.count() == 0 ==> m.re == 0 && m.im == 0,
            self.count() > 0 ==> m.re == self.total_re() / (self.count() as int) && m.im
                == self.total_im() / (self.count() as int),
            forall|values: Seq<Complex>| #[trigger] self.holds(values) ==> m == mean(values),
    {
        proof {
            if self.count > 0 {
                lemma_fundamental_div_mod_converse(
                    self.total_re(),
                    self.count as int,
                    self.value.re as int,
                    self.carry_re as int,
                );
                lemma_fundamental_div_mod_converse(
                    self.total_im(),
                    self.count as int,
                    self.value.im as int,
                    self.carry_im as int,
                );
            }
        }
        self.value
    }
}

/// One step of the running mean on one part: from the mean `m` of `n` values
/// with the remainder `carry`, and the next value `c`, to the mean of the
/// `n + 1` values and its remainder.
fn step(m: i64, carry: u64, n: usize, c: i64) -> (next: (i64, u64))
    requires
        n < usize::MAX,
        n == 0 ==> m == 0 && carry == 0,
        n > 0 ==> carry < n,
    ensures
        next.0 * (n + 1) + next.1 == m * n + carry + c,
        next.1 < n + 1,
{
    let count: i128 = n as i128;
    proof {
        lemma_scaled_bounds(m as int, n as int);
    }
    let total: i128 = (m as i128) * count + (carry as i128) + (c as i128);
    proof {
        lemma_quotient_fits(total as int, n + 1);
        lemma_fundamental_div_mod(total as int, n + 1);
        lemma_mod_bound(total as int, n + 1);
        assert((n + 1) * (total as int / (n + 1)) == (total as int / (n + 1)) * (n + 1))
            by (nonlinear_arith);
    }
    let quotient: Option<i128> = total.checked_div_euclid(count + 1);
    let remainder: Option<i128> = total.checked_rem_euclid(count + 1);
    (quotient.unwrap() as i64, remainder.unwrap() as u64)
}

proof fn lemma_scaled_bounds(m: int, n: int)
    by (nonlinear_arith)
    requires
        -0x8000_0000_0000_0000 <= m <= 0x7fff_ffff_ffff_ffff,
        0 <= n <= 0xffff_ffff_ffff_ffff,
    ensures
        -0x8000_0000_0000_0000 * n <= m * n <= 0x7fff_ffff_ffff_ffff * n,
        -0x8000_0000_0000_0000 * 0xffff_ffff_ffff_ffff <= m * n,
        m * n <= 0x7fff_ffff_ffff_ffff * 0xffff_ffff_ffff_ffff,
{
}

/// Winds a series: scales each point's rotor by the point's amplitude.
///
/// `rotors[i]` is the unit vector that stands for the angle of point `i` at
/// the trial frequency. The result has the length of the shorter argument.
pub fn graph_circle(data: &[Point], rotors: &[Rotor]) -> (circle: Vec<Complex>)
    ensures
        circle@ == winding(data@, rotors@),
{
    let len: usize = if data.len() <= rotors.len() {
        data.len()
    } else {
        rotors.len()
    };
    let mut circle: Vec<Complex> = Vec::new();
    let mut i: usize = 0;
    while i < len
        invariant
            i <= len,
            len <= data@.len(),
            len <= rotors@.len(),
            circle@.len() == i,
            forall|j: int| 0 <= j < i ==> #[trigger] circle@[j] == wound(data@[j], rotors@[j]),
        decreases len - i,
    {
        let point: Point = data[i];
        let rotor: Rotor = rotors[i];
        proof {
            lemma_wound_exact(point, rotor);
        }
        circle.push(
            Complex {
                re: (point.amplitude as i64) * (rotor.re as i64),
                im: (point.amplitude as i64) * (rotor.im as i64),
            },
        );
        i += 1;
    }
    assert(circle@ =~= winding(data@, rotors@));
    circle
}

/// The mean of `data`, taken in one pass with a running mean; the origin
/// for no data.
pub fn calc_mean(data: Vec<Complex>) -> (center: Complex)
    ensures
        center == mean(data@),
        data@.len() == 0 ==> center.re == 0 && center.im == 0,
        data@.len() > 0 ==> center.re == sum_re(data@) / (data@.len() as int) && center.im
            == sum_im(data@) / (data@.len() as int),
{
    let mut acc: RunningMean = RunningMean::new();
    let mut i: usize = 0;
    while i < data.len()
        invariant
            i <= data.len(),
            acc.holds(data@.take(i as int)),
        decreases data.len() - i,
    {
        assert(data@.take(i + 1) == data@.take(i as int).push(data@[i as int]));
        acc.push(data[i]);
        i += 1;
    }
    proof {
        assert(data@.take(i as int) == data@);
        if data@.len() > 0 {
            lemma_mean_exact(data@);
        }
    }
    acc.mean()
}

/// Estimates the complex amplitude of `data` at the trial frequency for
/// which `rotors` was made: the mean of the wound series.
pub fn analyze_freq(data: &[Point], rotors: &[Rotor]) -> (value: Complex)
    ensures
        value == mean(winding(data@, rotors@)),
        data@.len() == 0 || rotors@.len() == 0 ==> value.re == 0 && value.im == 0,
{
    calc_mean(graph_circle(data, rotors))
}

/// Nothing wound gives the origin: where the series or the rotors are
/// empty, the estimate is zero whatever the other holds.
pub proof fn lemma_empty_estimate(data: Seq<Point>, rotors: Seq<Rotor>)
    requires
        data.len() == 0 || rotors.len() == 0,
    ensures
        winding(data, rotors).len() == 0,
        mean(winding(data, rotors)) == (Complex { re: 0, im: 0 }),
{
}

/// The mean times the count differs from the sum by less than the count:
/// each part of the mean is the sum's quotient rounded down.
pub proof fn lemma_mean_rounds_down(values: Seq<Complex>)
    requires
        values.len() > 0,
    ensures
        mean(values).re * values.len() <= sum_re(values) < (mean(values).re + 1) * values.len(),
        mean(values).im * values.len() <= sum_im(values) < (mean(values).im + 1) * values.len(),
{
    let n = values.len() as int;
    lemma_mean_exact(values);
    lemma_fundamental_div_mod(sum_re(values), n);
    lemma_mod_bound(sum_re(values), n);
    lemma_fundamental_div_mod(sum_im(values), n);
    lemma_mod_bound(sum_im(values), n);
    let re = mean(values).re as int;
    let im = mean(values).im as int;
    assert(re * n == n * re && (re + 1) * n == n * re + n) by (nonlinear_arith);
    assert(im * n == n * im && (im + 1) * n == n * im + n) by (nonlinear_arith);
}

/// Rotors that all lie on the real axis keep the whole signal there: each
/// wound point is its amplitude times the rotor's real part, and the mean
/// has no imaginary part. This is the winding at frequency zero.
pub proof fn lemma_winding_on_axis(data: Seq<Point>, rotors: Seq<Rotor>)
    requires
        forall|i: int| 0 <= i < rotors.len() ==> (#[trigger] rotors[i]).im == 0,
    ensures
        forall|i: int|
            0 <= i < winding(data, rotors).len() ==> (#[trigger] winding(data, rotors)[i]).im == 0
                && winding(data, rotors)[i].re == data[i].amplitude * rotors[i].re,
        sum_im(winding(data, rotors)) == 0,
        mean(winding(data, rotors)).im == 0,
{
    let wound_series = winding(data, rotors);
    assert forall|i: int| 0 <= i < wound_series.len() implies (#[trigger] wound_series[i]).im == 0
        && wound_series[i].re == data[i].amplitude * rotors[i].re by {
        lemma_wound_exact(data[i], rotors[i]);
        assert(data[i].amplitude * rotors[i].im == 0) by (nonlinear_arith)
            requires
                rotors[i].im == 0,
        ;
    }
    lemma_sum_im_of_reals(wound_series);
}

proof fn lemma_sum_im_of_reals(values: Seq<Complex>)
    requires
        forall|i: int| 0 <= i < values.len() ==> (#[trigger] values[i]).im == 0,
    ensures
        sum_im(values) == 0,
    decreases values.len(),
{
    if values.len() > 0 {
        let front = values.drop_last();
        assert forall|i: int| 0 <= i < front.len() implies (#[trigger] front[i]).im == 0 by {
            assert(front[i] == values[i]);
        }
        lemma_sum_im_of_reals(front);
    }
}

/// A mean lies between the least and the greatest of its values: where
/// every real part lies within `low ..= high`, so does the real part of the
/// mean, and likewise for the imaginary parts.
pub proof fn lemma_mean_within(values: Seq<Complex>, low: int, high: int)
    requires
        values.len() > 0,
    ensures
        (forall|i: int| 0 <= i < values.len() ==> low <= (#[trigger] values[i]).re <= high) ==> low
            <= mean(values).re <= high,
        (forall|i: int| 0 <= i < values.len() ==> low <= (#[trigger] values[i]).im <= high) ==> low
            <= mean(values).im <= high,
{
    let n = values.len() as int;
    lemma_mean_exact(values);
    if forall|i: int| 0 <= i < values.len() ==> low <= (#[trigger] values[i]).re <= high {
        lemma_sum_re_within(values, low, high);
        lemma_quotient_within(sum_re(values), n, low, high);
    }
    if forall|i: int| 0 <= i < values.len() ==> low <= (#[trigger] values[i]).im <= high {
        lemma_sum_im_within(values, low, high);
        lemma_quotient_within(sum_im(values), n, low, high);
    }
}

proof fn lemma_sum_re_within(values: Seq<Complex>, low: int, high: int)
    requires
        forall|i: int| 0 <= i < values.len() ==> low <= (#[trigger] values[i]).re <= high,
    ensures
        low * values.len() <= sum_re(values) <= high * values.len(),
    decreases values.len(),
{
    if values.len() > 0 {
        let front = values.drop_last();
        assert forall|i: int| 0 <= i < front.len() implies low <= (#[trigger] front[i]).re
            <= high by {
            assert(front[i] == values[i]);
        }
        lemma_sum_re_within(front, low, high);
        let n = front.len() as int;
        assert(low * (n + 1) == low * n + low && high * (n + 1) == high * n + high)
            by (nonlinear_arith);
    }
}

proof fn lemma_sum_im_within(values: Seq<Complex>, low: int, high: int)
    requires
        forall|i: int| 0 <= i < values.len() ==> low <= (#[trigger] values[i]).im <= high,
    ensures
        low * values.len() <= sum_im(values) <= high * values.len(),
    decreases values.len(),
{
    if values.len() > 0 {
        let front = values.drop_last();
        assert forall|i: int| 0 <= i < front.len() implies low <= (#[trigger] front[i]).im
            <= high by {
            assert(front[i] == values[i]);
        }
        lemma_sum_im_within(front, low, high);
        let n = front.len() as int;
        assert(low * (n + 1) == low * n + low && high * (n + 1) == high * n + high)
            by (nonlinear_arith);
    }
}

proof fn lemma_quotient_within(total: int, count: int, low: int, high: int)
    requires
        count > 0,
        low * count <= total <= high * count,
    ensures
        low <= total / count <= high,
{
    lemma_fundamental_div_mod(total, count);
    lemma_mod_bound(total, count);
    let q = total / count;
    let r = total % count;
    assert(low <= q <= high) by (nonlinear_arith)
        requires
            count > 0,
            total == count * q + r,
            0 <= r < count,
            low * count <= total <= high * count,
    ;
}

} // verus!
