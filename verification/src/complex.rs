//! Fixed-point complex numbers.

use vstd::prelude::*;
use crate::math::{lemma_square_bound, lemma_square_of_abs, magnitude_wide};

verus! {

/// A complex number with integer parts, in a unit that its producer chooses.
#[derive(Clone, Copy, Debug, PartialEq, Eq, Structural)]
pub struct Complex {
    pub re: i64,
    pub im: i64,
}

/// A vector on the unit circle, scaled to integers: the factor by which one
/// point is wound for one trial frequency.
#[derive(Clone, Copy, Debug, PartialEq, Eq, Structural)]
pub struct Rotor {
    pub re: i32,
    pub im: i32,
}

impl Complex {
    /// The squared magnitude, `re² + im²`.
    pub open spec fn power(self) -> int {
        self.re * self.re + self.im * self.im
    }

    /// The origin.
    pub fn zero() -> (z: Complex)
        ensures
            z.re == 0,
            z.im == 0,
    {
        Complex { re: 0, im: 0 }
    }

    /// Computes the squared magnitude without a square root.
    pub fn norm_sqr(&self) -> (n: u128)
        ensures
            n == self.power(),
    {
        let re: u128 = magnitude_wide(self.re);
        let im: u128 = magnitude_wide(self.im);
        proof {
            lemma_square_bound(re as int);
            lemma_square_bound(im as int);
            lemma_square_of_abs(self.re as int);
            lemma_square_of_abs(self.im as int);
        }
        re * re + im * im
    }
}

} // verus!
