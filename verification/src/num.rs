//! General helpers for numerics.

use vstd::prelude::*;

verus! {

/// An error for when two arrays should have the same dimensionality, but do
/// not.
#[derive(Clone, Copy, Debug, PartialEq, Eq, Structural)]
pub struct DimensionMismatchError {
    /// The number of dimensions that the array was expected to have.
    pub expected: usize,
    /// The number of dimensions that the array actually had.
    pub actual: usize,
}

/// Check that an array shape has `ndim` dimensions, and give its extents as
/// `usize` values (cut to the machine's word, as `as` does).
pub fn shape_to_extents(shape: &[u64], ndim: usize) -> (res: Result<Vec<usize>, DimensionMismatchError>)
    ensures
        shape@.len() == ndim ==> (res matches Ok(v) && v@.len() == ndim
            && forall|i: int| 0 <= i < ndim ==> v@[i] == shape@[i] as usize),
        shape@.len() != ndim ==> res == Err::<Vec<usize>, DimensionMismatchError>(
            DimensionMismatchError { expected: ndim, actual: shape@.len() as usize },
        ),
{
    if shape.len() != ndim {
        return Err(DimensionMismatchError { expected: ndim, actual: shape.len() });
    }
    let mut v: Vec<usize> = Vec::new();
    let mut i: usize = 0;
    while i < shape.len()
        invariant
            i <= shape@.len(),
            v@.len() == i,
            forall|j: int| 0 <= j < i ==> v@[j] == shape@[j] as usize,
        decreases shape@.len() - i,
    {
        v.push(#[verifier::truncate] (shape[i] as usize));
        i += 1;
    }
    Ok(v)
}

} // verus!
