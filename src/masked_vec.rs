use vstd::prelude::*;

verus! {

/// The values at unmasked positions, in their original order.
pub open spec fn live<T>(vals: Seq<T>, mask: Seq<bool>) -> Seq<T>
    decreases vals.len(),
{
    if vals.len() == 0 || mask.len() == 0 {
        Seq::empty()
    } else {
        let rest = live(vals.drop_last(), mask.drop_last());
        if mask.last() {
            rest
        } else {
            rest.push(vals.last())
        }
    }
}

/// The number of unmasked positions.
pub open spec fn unmasked_count(mask: Seq<bool>) -> nat
    decreases mask.len(),
{
    if mask.len() == 0 {
        0
    } else if mask.last() {
        unmasked_count(mask.drop_last())
    } else {
        unmasked_count(mask.drop_last()) + 1
    }
}

/// `actual` is the position of the unmasked entry of rank `rank`.
pub open spec fn is_rank_position(mask: Seq<bool>, actual: int, rank: int) -> bool {
    &&& 0 <= actual < mask.len()
    &&& !mask[actual]
    &&& unmasked_count(mask.subrange(0, actual)) == rank
}

proof fn lemma_live_len<T>(vals: Seq<T>, mask: Seq<bool>)
    requires
        vals.len() == mask.len(),
    ensures
        live(vals, mask).len() == unmasked_count(mask),
    decreases vals.len(),
{
    if vals.len() > 0 {
        lemma_live_len(vals.drop_last(), mask.drop_last());
    }
}

proof fn lemma_count_bound(mask: Seq<bool>)
    ensures
        unmasked_count(mask) <= mask.len(),
    decreases mask.len(),
{
    if mask.len() > 0 {
        lemma_count_bound(mask.drop_last());
    }
}

proof fn lemma_live_concat<T>(v1: Seq<T>, m1: Seq<bool>, v2: Seq<T>, m2: Seq<bool>)
    requires
        v1.len() == m1.len(),
        v2.len() == m2.len(),
    ensures
        live(v1 + v2, m1 + m2) == live(v1, m1) + live(v2, m2),
        unmasked_count(m1 + m2) == unmasked_count(m1) + unmasked_count(m2),
    decreases v2.len(),
{
    if v2.len() == 0 {
        assert(v1 + v2 =~= v1);
        assert(m1 + m2 =~= m1);
        assert(live(v1, m1) + live(v2, m2) =~= live(v1, m1));
    } else {
        lemma_live_concat(v1, m1, v2.drop_last(), m2.drop_last());
        assert((v1 + v2).drop_last() =~= v1 + v2.drop_last());
        assert((m1 + m2).drop_last() =~= m1 + m2.drop_last());
        if !m2.last() {
            assert(live(v1, m1) + live(v2.drop_last(), m2.drop_last()).push(v2.last())
                =~= (live(v1, m1) + live(v2.drop_last(), m2.drop_last())).push(v2.last()));
        }
    }
}

/// Splits the sequences around position `a`.
proof fn lemma_live_split<T>(vals: Seq<T>, mask: Seq<bool>, a: int)
    requires
        vals.len() == mask.len(),
        0 <= a < mask.len(),
    ensures
        live(vals, mask) == live(vals.subrange(0, a), mask.subrange(0, a)) + live(
            seq![vals[a]],
            seq![mask[a]],
        ) + live(vals.subrange(a + 1, vals.len() as int), mask.subrange(a + 1, mask.len() as int)),
        unmasked_count(mask) == unmasked_count(mask.subrange(0, a)) + unmasked_count(seq![mask[a]])
            + unmasked_count(mask.subrange(a + 1, mask.len() as int)),
{
    let n = vals.len() as int;
    let (v1, v2, v3) = (vals.subrange(0, a), seq![vals[a]], vals.subrange(a + 1, n));
    let (m1, m2, m3) = (mask.subrange(0, a), seq![mask[a]], mask.subrange(a + 1, n));
    lemma_live_concat(v1, m1, v2, m2);
    lemma_live_concat(v1 + v2, m1 + m2, v3, m3);
    assert(v1 + v2 + v3 =~= vals);
    assert(m1 + m2 + m3 =~= mask);
}

/// Masking the entry at `a` removes it from the live values and the count.
proof fn lemma_mask_one<T>(vals: Seq<T>, mask: Seq<bool>, a: int)
    requires
        vals.len() == mask.len(),
        0 <= a < mask.len(),
        !mask[a],
    ensures
        live(vals, mask)[unmasked_count(mask.subrange(0, a)) as int] == vals[a],
        live(vals, mask.update(a, true)) == live(vals, mask).remove(
            unmasked_count(mask.subrange(0, a)) as int,
        ),
        unmasked_count(mask.update(a, true)) + 1 == unmasked_count(mask),
{
    let n = vals.len() as int;
    let m2 = mask.update(a, true);
    lemma_live_split(vals, mask, a);
    lemma_live_split(vals, m2, a);
    assert(m2.subrange(0, a) =~= mask.subrange(0, a));
    assert(m2.subrange(a + 1, n) =~= mask.subrange(a + 1, n));
    lemma_live_len(vals.subrange(0, a), mask.subrange(0, a));
    let pre = live(vals.subrange(0, a), mask.subrange(0, a));
    let post = live(vals.subrange(a + 1, n), mask.subrange(a + 1, n));
    assert(live(seq![vals[a]], seq![mask[a]]) =~= seq![vals[a]]) by {
        assert(seq![vals[a]].drop_last() =~= Seq::<T>::empty());
        assert(seq![mask[a]].drop_last() =~= Seq::<bool>::empty());
        assert(live(Seq::<T>::empty(), Seq::<bool>::empty()) =~= Seq::<T>::empty());
    }
    assert(live(seq![vals[a]], seq![m2[a]]) =~= Seq::<T>::empty()) by {
        assert(seq![vals[a]].drop_last() =~= Seq::<T>::empty());
        assert(seq![m2[a]].drop_last() =~= Seq::<bool>::empty());
        assert(m2[a]);
        assert(live(Seq::<T>::empty(), Seq::<bool>::empty()) =~= Seq::<T>::empty());
    }
    assert(unmasked_count(seq![mask[a]]) == 1) by {
        assert(seq![mask[a]].drop_last() =~= Seq::<bool>::empty());
        assert(unmasked_count(Seq::<bool>::empty()) == 0);
    }
    assert(unmasked_count(seq![m2[a]]) == 0) by {
        assert(seq![m2[a]].drop_last() =~= Seq::<bool>::empty());
    }
    assert((pre + seq![vals[a]] + post).remove(pre.len() as int) =~= pre + Seq::<T>::empty()
        + post);
}


proof fn lemma_unmask_one<T>(vals: Seq<T>, mask: Seq<bool>, a: int)
    requires
        vals.len() == mask.len(),
        0 <= a < mask.len(),
        mask[a],
    ensures
        unmasked_count(mask.update(a, false)) == unmasked_count(mask) + 1,
{
    lemma_mask_one(vals, mask.update(a, false), a);
    assert(mask.update(a, false).update(a, true) =~= mask);
}

/// Overwriting the value at an unmasked position overwrites the live value of its rank.
proof fn lemma_set_one<T>(vals: Seq<T>, mask: Seq<bool>, a: int, val: T)
    requires
        vals.len() == mask.len(),
        0 <= a < mask.len(),
        !mask[a],
    ensures
        live(vals.update(a, val), mask) == live(vals, mask).update(
            unmasked_count(mask.subrange(0, a)) as int,
            val,
        ),
{
    let n = vals.len() as int;
    let v2 = vals.update(a, val);
    lemma_mask_one(vals, mask, a);
    lemma_mask_one(v2, mask, a);
    lemma_live_split(vals, mask, a);
    lemma_live_split(v2, mask, a);
    assert(v2.subrange(0, a) =~= vals.subrange(0, a));
    assert(v2.subrange(a + 1, n) =~= vals.subrange(a + 1, n));
    lemma_live_len(vals.subrange(0, a), mask.subrange(0, a));
    let pre = live(vals.subrange(0, a), mask.subrange(0, a));
    let post = live(vals.subrange(a + 1, n), mask.subrange(a + 1, n));
    assert(live(seq![vals[a]], seq![mask[a]]) =~= seq![vals[a]]) by {
        assert(seq![vals[a]].drop_last() =~= Seq::<T>::empty());
        assert(seq![mask[a]].drop_last() =~= Seq::<bool>::empty());
        assert(live(Seq::<T>::empty(), Seq::<bool>::empty()) =~= Seq::<T>::empty());
    }
    assert(live(seq![v2[a]], seq![mask[a]]) =~= seq![val]) by {
        assert(seq![v2[a]].drop_last() =~= Seq::<T>::empty());
        assert(seq![mask[a]].drop_last() =~= Seq::<bool>::empty());
        assert(live(Seq::<T>::empty(), Seq::<bool>::empty()) =~= Seq::<T>::empty());
    }
    assert((pre + seq![vals[a]] + post).update(pre.len() as int, val) =~= pre + seq![val] + post);
}

proof fn lemma_all_unmasked<T>(vals: Seq<T>, mask: Seq<bool>)
    requires
        vals.len() == mask.len(),
        forall|i: int| 0 <= i < mask.len() ==> !mask[i],
    ensures
        live(vals, mask) == vals,
        unmasked_count(mask) == mask.len(),
    decreases vals.len(),
{
    if vals.len() > 0 {
        lemma_all_unmasked(vals.drop_last(), mask.drop_last());
        assert(vals.drop_last().push(vals.last()) =~= vals);
    } else {
        assert(vals =~= Seq::<T>::empty());
    }
}

/// The abstract state of a `MaskedVec`: its values, its mask (`true` is absent)
/// and the number of entries still present.
pub ghost struct MaskedView<T> {
    pub vals: Seq<T>,
    pub mask: Seq<bool>,
    pub remaining: nat,
}

impl<T> MaskedView<T> {
    pub open spec fn wf(self) -> bool {
        &&& self.vals.len() == self.mask.len()
        &&& self.remaining == unmasked_count(self.mask)
    }

    /// The entries still present, in their original order.
    pub open spec fn live_values(self) -> Seq<T> {
        live(self.vals, self.mask)
    }

    /// The state after masking the entry at position `a`.
    pub open spec fn mask_actual(self, a: int) -> MaskedView<T> {
        if self.mask[a] {
            self
        } else {
            MaskedView {
                vals: self.vals,
                mask: self.mask.update(a, true),
                remaining: (self.remaining - 1) as nat,
            }
        }
    }

    /// The state after unmasking the entry at position `a`.
    pub open spec fn unmask_actual(self, a: int) -> MaskedView<T> {
        if self.mask[a] {
            MaskedView {
                vals: self.vals,
                mask: self.mask.update(a, false),
                remaining: self.remaining + 1,
            }
        } else {
            self
        }
    }
}

/// Masking an entry and then unmasking it restores the count and the mask bit;
/// masking a masked entry, or unmasking an unmasked one, changes nothing.
pub proof fn lemma_mask_round_trip<T>(v: MaskedView<T>, a: int)
    requires
        v.wf(),
        0 <= a < v.mask.len(),
    ensures
        !v.mask[a] ==> v.mask_actual(a).unmask_actual(a) == v,
        v.mask[a] ==> v.unmask_actual(a).mask_actual(a) == v,
        v.mask_actual(a).mask_actual(a) == v.mask_actual(a),
        v.unmask_actual(a).unmask_actual(a) == v.unmask_actual(a),
        v.mask_actual(a).wf(),
        v.unmask_actual(a).wf(),
{
    if !v.mask[a] {
        lemma_mask_one(v.vals, v.mask, a);
        assert(v.mask.update(a, true).update(a, false) =~= v.mask);
    } else {
        lemma_unmask_one(v.vals, v.mask, a);
        assert(v.mask.update(a, false).update(a, true) =~= v.mask);
    }
}

/// A fixed sequence of values in which entries can be masked out and restored,
/// addressed either by position or by rank among the entries still present.
pub struct MaskedVec<T: Copy> {
    pub vec: Vec<T>,
    pub mask: Vec<bool>,
    pub length: usize,
}

impl<T: Copy> View for MaskedVec<T> {
    type V = MaskedView<T>;

    open spec fn view(&self) -> MaskedView<T> {
        MaskedView { vals: self.vec@, mask: self.mask@, remaining: self.length as nat }
    }
}

impl<T: Copy> MaskedVec<T> {
    pub open spec fn wf(&self) -> bool {
        self@.wf()
    }

    pub fn from_vec(vec: Vec<T>) -> (r: MaskedVec<T>)
        ensures
            r.wf(),
            r.vec@ == vec@,
            r.mask@ == Seq::new(vec@.len(), |i: int| false),
            r.length == vec@.len(),
            r@.live_values() == vec@,
    {
        let n = vec.len();
        let mut mask: Vec<bool> = Vec::with_capacity(n);
        let mut i: usize = 0;
        while i < n
            invariant
                i <= n,
                mask@ == Seq::new(i as nat, |j: int| false),
            decreases n - i,
        {
            mask.push(false);
            i += 1;
            assert(mask@ =~= Seq::new(i as nat, |j: int| false));
        }
        proof {
            lemma_all_unmasked(vec@, mask@);
        }
        MaskedVec { length: n, vec, mask }
    }

    /// The position of the entry of rank `i` among those still present, if any.
    pub fn get_actual_index(&self, i: usize) -> (r: Option<usize>)
        requires
            self.wf(),
        ensures
            r.is_none() <==> i >= self.length,
            r matches Some(a) ==> is_rank_position(self.mask@, a as int, i as int),
    {
        if i >= self.length {
            return None;
        }
        let n = self.mask.len();
        let mut unmasked: usize = 0;
        let mut total: usize = 0;
        while total < n
            invariant
                total <= n == self.mask@.len(),
                unmasked <= i < self.length,
                unmasked == unmasked_count(self.mask@.subrange(0, total as int)),
                self.wf(),
            decreases n - total,
        {
            assert(self.mask@.subrange(0, total + 1).drop_last() =~= self.mask@.subrange(
                0,
                total as int,
            ));
            if !self.mask[total] {
                if unmasked == i {
                    return Some(total);
                } else {
                    unmasked += 1;
                }
            }
            total += 1;
        }
        assert(self.mask@.subrange(0, n as int) =~= self.mask@);
        None
    }

    /// The value of rank `masked_index` among the entries still present.
    pub fn get_at(&self, masked_index: usize) -> (r: T)
        requires
            self.wf(),
            masked_index < self.length,
        ensures
            r == self@.live_values()[masked_index as int],
    {
        let a = self.get_actual_index(masked_index).unwrap();
        proof {
            lemma_mask_one(self.vec@, self.mask@, a as int);
        }
        self.vec[a]
    }

    /// Overwrites the value of rank `masked_index` among the entries still present.
    pub fn set_at(&mut self, masked_index: usize, val: T)
        requires
            old(self).wf(),
            masked_index < old(self).length,
        ensures
            final(self).wf(),
            final(self).mask@ == old(self).mask@,
            final(self).length == old(self).length,
            exists|a: int|
                is_rank_position(old(self).mask@, a, masked_index as int) && final(self).vec@
                    == old(self).vec@.update(a, val),
            final(self)@.live_values() == old(self)@.live_values().update(
                masked_index as int,
                val,
            ),
    {
        let a = self.get_actual_index(masked_index).unwrap();
        proof {
            lemma_set_one(self.vec@, self.mask@, a as int, val);
        }
        self.vec.set(a, val);
    }

    pub fn is_masked_at(&self, actual_index: usize) -> (r: bool)
        requires
            actual_index < self.mask@.len(),
        ensures
            r == self.mask@[actual_index as int],
    {
        self.mask[actual_index]
    }

    /// Masks the entry of rank `masked_index` among the entries still present.
    pub fn mask_at(&mut self, masked_index: usize)
        requires
            old(self).wf(),
            masked_index < old(self).length,
        ensures
            final(self).wf(),
            final(self).vec@ == old(self).vec@,
            final(self).length == old(self).length - 1,
            exists|a: int|
                is_rank_position(old(self).mask@, a, masked_index as int) && final(self).mask@
                    == old(self).mask@.update(a, true),
            final(self)@.live_values() == old(self)@.live_values().remove(masked_index as int),
    {
        let a = self.get_actual_index(masked_index).unwrap();
        proof {
            lemma_mask_one(self.vec@, self.mask@, a as int);
        }
        self.mask.set(a, true);
        self.length -= 1;
    }

    /// Masks the entry at position `actual_index`; does nothing if it is masked already.
    pub fn mask_at_actual(&mut self, actual_index: usize)
        requires
            old(self).wf(),
            actual_index < old(self).mask@.len(),
        ensures
            final(self).wf(),
            final(self)@ == old(self)@.mask_actual(actual_index as int),
    {
        if !self.mask[actual_index] {
            proof {
                lemma_mask_one(self.vec@, self.mask@, actual_index as int);
            }
            self.mask.set(actual_index, true);
            self.length -= 1;
        }
    }

    /// Unmasks the entry at position `actual_index`; does nothing if it is present already.
    pub fn unmask_at_actual(&mut self, actual_index: usize)
        requires
            old(self).wf(),
            actual_index < old(self).mask@.len(),
        ensures
            final(self).wf(),
            final(self)@ == old(self)@.unmask_actual(actual_index as int),
    {
        if self.mask[actual_index] {
            proof {
                lemma_unmask_one(self.vec@, self.mask@, actual_index as int);
                lemma_count_bound(self.mask@.update(actual_index as int, false));
                assert(self.mask@.len() == self.mask.len());
            }
            self.mask.set(actual_index, false);
            self.length += 1;
        }
    }
}

} // verus!
