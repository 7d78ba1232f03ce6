use vstd::prelude::*;

pub mod factoradic;
pub mod lexicographic_iterator;
pub mod masked_vec;

use crate::lexicographic_iterator::LexicographicIterator;

verus! {

/// Enumerates the permutations of `vec` in lexicographic order of positions.
pub fn lexicographically<'a, T>(vec: &'a Vec<T>) -> (r: LexicographicIterator<'a, T>)
    ensures
        r.wf(),
        r.source() == vec@,
        r.counter().digits@ == crate::factoradic::zeros(vec@.len()),
        r.remaining() == crate::factoradic::factorial(vec@.len()),
{
    lexicographic_iterator::new(vec)
}

} // verus!
