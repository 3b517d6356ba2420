//! Small definitions shared by the other modules.

use vstd::prelude::*;

verus! {

/// The absolute value of an integer.
pub open spec fn abs(x: int) -> int {
    if x < 0 {
        -x
    } else {
        x
    }
}

/// A sequence of machine indices as mathematical integers.
pub open spec fn as_ints(indices: Seq<usize>) -> Seq<int> {
    indices.map_values(|i: usize| i as int)
}

/// The absolute value of an amplitude; it fits even for the least `i32`.
pub fn magnitude(x: i32) -> (m: u32)
    ensures
        m == abs(x as int),
{
    if x < 0 {
        (-(x as i64)) as u32
    } else {
        x as u32
    }
}

/// The absolute value of one part of a complex number.
pub fn magnitude_wide(x: i64) -> (m: u128)
    ensures
        m == abs(x as int),
        m <= 0x8000_0000_0000_0000,
{
    if x < 0 {
        (-(x as i128)) as u128
    } else {
        x as u128
    }
}

/// A square is the square of the absolute value.
pub proof fn lemma_square_of_abs(x: int)
    by (nonlinear_arith)
    ensures
        abs(x) * abs(x) == x * x,
        x * x >= 0,
{
}

/// The square of a magnitude of at most 2^63 is at most 2^126.
pub proof fn lemma_square_bound(m: int)
    by (nonlinear_arith)
    requires
        0 <= m <= 0x8000_0000_0000_0000,
    ensures
        0 <= m * m <= 0x4000_0000_0000_0000_0000_0000_0000_0000,
{
}

} // verus!
