use vstd::prelude::*;
use crate::factoradic::{Factoradic, factorial, lehmer_decode, value_of, zeros};

verus! {

/// The entries of `source` in the order that `perm` gives.
pub open spec fn permuted<T>(source: Seq<T>, perm: Seq<usize>) -> Seq<T> {
    Seq::new(perm.len(), |i: int| source[perm[i] as int])
}

/// Enumerates the permutations of a borrowed sequence in lexicographic order
/// of positions, one permutation per call of `next`.
pub struct LexicographicIterator<'a, T> {
    initial_state: &'a Vec<T>,
    current_factoradic: Factoradic,
}

impl<'a, T> LexicographicIterator<'a, T> {
    /// The sequence whose permutations are enumerated.
    pub closed spec fn source(&self) -> Seq<T> {
        self.initial_state@
    }

    /// The counter whose digits encode the next permutation.
    pub closed spec fn counter(&self) -> Factoradic {
        self.current_factoradic
    }

    pub closed spec fn wf(&self) -> bool {
        &&& self.current_factoradic.wf()
        &&& self.current_factoradic.digits@.len() == self.initial_state@.len()
    }

    /// How many permutations are still to come.
    pub closed spec fn remaining(&self) -> nat {
        if self.current_factoradic.has_overflowed {
            0
        } else {
            (factorial(self.initial_state@.len()) - value_of(self.current_factoradic.digits@)) as nat
        }
    }

    /// One call of `next` takes `self` to `after`, producing a permutation or not:
    /// one is produced exactly while some are still to come.
    pub open spec fn steps_to(self, after: Self, produced: bool) -> bool {
        &&& after.wf()
        &&& after.source() == self.source()
        &&& self.remaining() == 0 ==> !produced && after.remaining() == 0
        &&& self.remaining() > 0 ==> produced && after.remaining() == self.remaining() - 1
    }

    /// The enumeration of the permutations of `vec`, starting with `vec` itself.
    pub fn new(vec: &'a Vec<T>) -> (r: LexicographicIterator<'a, T>)
        ensures
            r.wf(),
            r.source() == vec@,
            r.counter().digits@ == zeros(vec@.len()),
            r.remaining() == factorial(vec@.len()),
    {
        LexicographicIterator { current_factoradic: Factoradic::new(vec.len()), initial_state: vec }
    }

    /// The next permutation, or `None` once all `n!` of them have been produced.
    pub fn next(&mut self) -> (r: Option<Vec<&'a T>>)
        requires
            old(self).wf(),
        ensures
            old(self).steps_to(*final(self), r.is_some()),
            old(self).counter().is_incremented(final(self).counter()),
            old(self).remaining() > 0 ==> value_of(old(self).counter().digits@) + old(
                self,
            ).remaining() == factorial(old(self).source().len()),
            old(self).remaining() > 0 ==> (r matches Some(p) && p@.len() == old(self).source().len()
                && forall|i: int|
                0 <= i < p@.len() ==> *p@[i] == permuted(
                    old(self).source(),
                    lehmer_decode(old(self).counter().digits@),
                )[i]),
    {
        proof {
            crate::factoradic::lemma_value_bound(self.current_factoradic.digits@);
        }
        if self.current_factoradic.has_overflowed {
            None
        } else {
            let perm = self.current_factoradic.to_permutation();
            let n = perm.len();
            let mut result: Vec<&'a T> = Vec::with_capacity(n);
            let mut i: usize = 0;
            while i < n
                invariant
                    i <= n == perm@.len() == self.initial_state@.len(),
                    forall|j: int| 0 <= j < n ==> perm@[j] < n,
                    result@.len() == i,
                    forall|j: int|
                        0 <= j < i ==> *result@[j] == permuted(self.initial_state@, perm@)[j],
                decreases n - i,
            {
                let index = perm[i];
                result.push(&self.initial_state[index]);
                i += 1;
            }
            self.current_factoradic.incr();
            Some(result)
        }
    }
}

/// An enumeration of `n` entries produces a permutation on each of its first
/// `n!` calls of `next` and on none after them.
pub proof fn lemma_enumeration_count<'a, T>(
    run: Seq<LexicographicIterator<'a, T>>,
    produced: Seq<bool>,
)
    requires
        run.len() == produced.len() + 1,
        run[0].wf(),
        run[0].remaining() == factorial(run[0].source().len()),
        forall|j: int| 0 <= j < produced.len() ==> (#[trigger] run[j]).steps_to(run[j + 1], produced[j]),
    ensures
        forall|k: int|
            0 <= k < produced.len() ==> (#[trigger] produced[k] <==> k < factorial(
                run[0].source().len(),
            )),
    decreases produced.len(),
{
    let total = factorial(run[0].source().len());
    if produced.len() > 0 {
        let last = produced.len() - 1;
        let prev_run = run.drop_last();
        let prev_produced = produced.drop_last();
        assert forall|j: int| 0 <= j < prev_produced.len() implies (#[trigger] prev_run[j]).steps_to(
            prev_run[j + 1],
            prev_produced[j],
        ) by {
            assert(run[j].steps_to(run[j + 1], produced[j]));
        }
        lemma_enumeration_count(prev_run, prev_produced);
        lemma_remaining_along_run(run, produced);
        assert(run[last].steps_to(run[last + 1], produced[last]));
        assert forall|k: int| 0 <= k < produced.len() implies (#[trigger] produced[k] <==> k
            < total) by {
            if k < last {
                assert(prev_produced[k] == produced[k]);
            }
        }
    }
}

/// Along a run, the count of permutations still to come falls by one per
/// call until it reaches zero, and the source stays the same.
proof fn lemma_remaining_along_run<'a, T>(
    run: Seq<LexicographicIterator<'a, T>>,
    produced: Seq<bool>,
)
    requires
        run.len() == produced.len() + 1,
        forall|j: int| 0 <= j < produced.len() ==> (#[trigger] run[j]).steps_to(run[j + 1], produced[j]),
    ensures
        forall|k: int|
            0 <= k < run.len() ==> (#[trigger] run[k]).source() == run[0].source()
                && run[k].remaining() == if k <= run[0].remaining() {
                run[0].remaining() - k
            } else {
                0
            },
    decreases produced.len(),
{
    if produced.len() > 0 {
        let last = produced.len() - 1;
        let prev_run = run.drop_last();
        let prev_produced = produced.drop_last();
        assert forall|j: int| 0 <= j < prev_produced.len() implies (#[trigger] prev_run[j]).steps_to(
            prev_run[j + 1],
            prev_produced[j],
        ) by {
            assert(run[j].steps_to(run[j + 1], produced[j]));
        }
        lemma_remaining_along_run(prev_run, prev_produced);
        assert(run[last].steps_to(run[last + 1], produced[last]));
        assert(prev_run[last] == run[last]);
        assert forall|k: int| 0 <= k < run.len() implies (#[trigger] run[k]).source() == run[0].source()
            && run[k].remaining() == if k <= run[0].remaining() {
            run[0].remaining() - k
        } else {
            0
        } by {
            if k <= last {
                assert(prev_run[k] == run[k]);
            }
        }
    }
}

/// The enumeration of the permutations of `vec`, starting with `vec` itself.
pub fn new<'a, T>(vec: &'a Vec<T>) -> (r: LexicographicIterator<'a, T>)
    ensures
        r.wf(),
        r.source() == vec@,
        r.counter().digits@ == zeros(vec@.len()),
        r.remaining() == factorial(vec@.len()),
{
    LexicographicIterator::new(vec)
}

} // verus!
