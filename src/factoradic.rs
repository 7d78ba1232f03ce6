use vstd::prelude::*;
use crate::masked_vec::MaskedVec;

verus! {

pub open spec fn factorial(n: nat) -> nat
    decreases n,
{
    if n == 0 {
        1
    } else {
        n * factorial((n - 1) as nat)
    }
}

/// Every digit is at most its place value: the digit at position `i` of `n`
/// digits (counted from the most significant end) is at most `n - 1 - i`.
pub open spec fn digits_valid(d: Seq<usize>) -> bool {
    forall|i: int| 0 <= i < d.len() ==> d[i] <= d.len() - 1 - i
}

/// The number that big-endian factorial-base digits stand for: the digit at
/// place `p` (counted from the right) weighs `p!`.
pub open spec fn value_of(d: Seq<usize>) -> nat
    decreases d.len(),
{
    if d.len() == 0 {
        0
    } else {
        (d[0] as nat) * factorial((d.len() - 1) as nat) + value_of(d.drop_first())
    }
}

pub open spec fn zeros(n: nat) -> Seq<usize> {
    Seq::new(n, |i: int| 0usize)
}

/// The indices `0, 1, ..., n - 1` in order.
pub open spec fn identity(n: nat) -> Seq<usize> {
    Seq::new(n, |i: int| i as usize)
}

/// Each digit in turn takes the entry of that rank out of `pool`.
pub open spec fn decode_from(d: Seq<usize>, pool: Seq<usize>) -> Seq<usize>
    decreases d.len(),
{
    if d.len() == 0 {
        Seq::empty()
    } else {
        seq![pool[d[0] as int]] + decode_from(d.drop_first(), pool.remove(d[0] as int))
    }
}

/// The permutation of `0..n` that `n` factorial-base digits encode.
pub open spec fn lehmer_decode(d: Seq<usize>) -> Seq<usize> {
    decode_from(d, identity(d.len()))
}

/// `p` holds each of `0..n` exactly once.
pub open spec fn is_permutation_of_range(p: Seq<usize>, n: nat) -> bool {
    &&& p.len() == n
    &&& forall|i: int| 0 <= i < p.len() ==> p[i] < n
    &&& p.no_duplicates()
}

pub proof fn lemma_factorial_positive(n: nat)
    ensures
        factorial(n) >= 1,
    decreases n,
{
    if n > 0 {
        lemma_factorial_positive((n - 1) as nat);
        assert(n * factorial((n - 1) as nat) >= 1) by (nonlinear_arith)
            requires
                n >= 1,
                factorial((n - 1) as nat) >= 1,
        ;
    }
}

pub proof fn lemma_factorial_monotone(m: nat, n: nat)
    requires
        m <= n,
    ensures
        factorial(m) <= factorial(n),
    decreases n,
{
    if m < n {
        lemma_factorial_monotone(m, (n - 1) as nat);
        lemma_factorial_positive((n - 1) as nat);
        assert(factorial((n - 1) as nat) <= n * factorial((n - 1) as nat)) by (nonlinear_arith)
            requires
                n >= 1,
        ;
    }
}

proof fn lemma_valid_drop_first(d: Seq<usize>)
    requires
        digits_valid(d),
        d.len() > 0,
    ensures
        digits_valid(d.drop_first()),
{
}

/// Valid digits of length `n` stand for a number below `n!`.
pub proof fn lemma_value_bound(d: Seq<usize>)
    requires
        digits_valid(d),
    ensures
        value_of(d) < factorial(d.len()),
    decreases d.len(),
{
    if d.len() > 0 {
        let n = d.len();
        let f = factorial((n - 1) as nat);
        lemma_valid_drop_first(d);
        lemma_value_bound(d.drop_first());
        let d0 = d[0] as nat;
        assert(d0 * f + f <= n * f) by (nonlinear_arith)
            requires
                d0 + 1 <= n,
        ;
    }
}

proof fn lemma_value_zeros(d: Seq<usize>)
    requires
        forall|i: int| 0 <= i < d.len() ==> d[i] == 0,
    ensures
        value_of(d) == 0,
    decreases d.len(),
{
    if d.len() > 0 {
        lemma_value_zeros(d.drop_first());
    }
}

/// The largest digits stand for `n! - 1`.
proof fn lemma_value_max(d: Seq<usize>)
    requires
        forall|i: int| 0 <= i < d.len() ==> d[i] == d.len() - 1 - i,
    ensures
        value_of(d) + 1 == factorial(d.len()),
    decreases d.len(),
{
    if d.len() > 0 {
        let n = d.len();
        let f = factorial((n - 1) as nat);
        lemma_value_max(d.drop_first());
        let d0 = d[0] as nat;
        assert(d0 * f + f == n * f) by (nonlinear_arith)
            requires
                d0 + 1 == n,
        ;
    }
}

/// Raising the digit at `i` by one and clearing the largest digits to its
/// right adds one to the value.
proof fn lemma_value_succ(s: Seq<usize>, t: Seq<usize>, i: int)
    requires
        s.len() == t.len(),
        0 <= i < s.len(),
        forall|j: int| 0 <= j < i ==> t[j] == s[j],
        t[i] == s[i] + 1,
        forall|j: int| i < j < s.len() ==> s[j] == s.len() - 1 - j && t[j] == 0,
    ensures
        value_of(t) == value_of(s) + 1,
    decreases i,
{
    let n = s.len();
    let f = factorial((n - 1) as nat);
    if i == 0 {
        lemma_value_max(s.drop_first());
        lemma_value_zeros(t.drop_first());
        let s0 = s[0] as nat;
        assert((s0 + 1) * f == s0 * f + f) by (nonlinear_arith);
    } else {
        lemma_value_succ(s.drop_first(), t.drop_first(), i - 1);
    }
}


proof fn lemma_decode_from(d: Seq<usize>, pool: Seq<usize>)
    requires
        d.len() <= pool.len(),
        forall|i: int| 0 <= i < d.len() ==> d[i] < pool.len() - i,
        pool.no_duplicates(),
    ensures
        decode_from(d, pool).len() == d.len(),
        forall|k: int| 0 <= k < d.len() ==> pool.contains(#[trigger] decode_from(d, pool)[k]),
        decode_from(d, pool).no_duplicates(),
    decreases d.len(),
{
    if d.len() > 0 {
        let k = d[0] as int;
        let rest_pool = pool.remove(k);
        let rest = decode_from(d.drop_first(), rest_pool);
        let r = decode_from(d, pool);
        assert(rest_pool.no_duplicates()) by {
            assert forall|a: int, b: int|
                0 <= a < rest_pool.len() && 0 <= b < rest_pool.len() && a != b implies rest_pool[a]
                != rest_pool[b] by {
                let a2 = if a < k { a } else { a + 1 };
                let b2 = if b < k { b } else { b + 1 };
                assert(rest_pool[a] == pool[a2]);
                assert(rest_pool[b] == pool[b2]);
            }
        }
        lemma_decode_from(d.drop_first(), rest_pool);
        assert forall|j: int| 0 <= j < rest.len() implies pool.contains(rest[j]) && rest[j]
            != pool[k] by {
            let w = choose|w: int| 0 <= w < rest_pool.len() && rest_pool[w] == rest[j];
            let w2 = if w < k { w } else { w + 1 };
            assert(rest_pool[w] == pool[w2]);
        }
        assert forall|j: int| 0 <= j < d.len() implies pool.contains(#[trigger] r[j]) by {
            if j > 0 {
                assert(r[j] == rest[j - 1]);
            }
        }
        assert forall|a: int, b: int| 0 <= a < r.len() && 0 <= b < r.len() && a != b implies r[a]
            != r[b] by {
            if a > 0 {
                assert(r[a] == rest[a - 1]);
            }
            if b > 0 {
                assert(r[b] == rest[b - 1]);
            }
        }
    }
}

/// Valid digits decode to a permutation of `0..n`.
pub proof fn lemma_decode_is_permutation(d: Seq<usize>)
    requires
        digits_valid(d),
        d.len() <= usize::MAX,
    ensures
        is_permutation_of_range(lehmer_decode(d), d.len()),
{
    let n = d.len();
    let id = identity(n);
    assert(id.no_duplicates()) by {
        assert forall|a: int, b: int| 0 <= a < n && 0 <= b < n && a != b implies id[a] != id[b] by {
            assert(id[a] == a && id[b] == b);
        }
    }
    lemma_decode_from(d, id);
    let r = lehmer_decode(d);
    assert forall|k: int| 0 <= k < r.len() implies r[k] < n by {
        assert(id.contains(r[k]));
    }
}

/// `a` comes strictly before `b` in lexicographic order: they agree up to
/// some position, where `a` holds the smaller entry.
pub open spec fn lex_less(a: Seq<usize>, b: Seq<usize>) -> bool {
    exists|i: int|
        0 <= i < a.len() && i < b.len() && a.subrange(0, i) == b.subrange(0, i) && a[i] < b[i]
}

pub open spec fn strictly_increasing(p: Seq<usize>) -> bool {
    forall|a: int, b: int| 0 <= a < b < p.len() ==> p[a] < p[b]
}

/// Valid digits of equal length compare by value as they compare digit by digit.
proof fn lemma_value_order_digits(s: Seq<usize>, t: Seq<usize>) -> (i: int)
    requires
        digits_valid(s),
        digits_valid(t),
        s.len() == t.len(),
        value_of(s) < value_of(t),
    ensures
        0 <= i < s.len(),
        s.subrange(0, i) == t.subrange(0, i),
        s[i] < t[i],
    decreases s.len(),
{
    let n = s.len();
    let f = factorial((n - 1) as nat);
    lemma_valid_drop_first(s);
    lemma_valid_drop_first(t);
    lemma_value_bound(s.drop_first());
    lemma_value_bound(t.drop_first());
    let (s0, t0) = (s[0] as nat, t[0] as nat);
    if s0 > t0 {
        assert(t0 * f + f <= s0 * f) by (nonlinear_arith)
            requires
                t0 + 1 <= s0,
        ;
        assert(false);
        0
    } else if s0 < t0 {
        assert(s.subrange(0, 0) =~= t.subrange(0, 0));
        0
    } else {
        let j = lemma_value_order_digits(s.drop_first(), t.drop_first());
        assert(s.subrange(0, j + 1) =~= seq![s[0]] + s.drop_first().subrange(0, j));
        assert(t.subrange(0, j + 1) =~= seq![t[0]] + t.drop_first().subrange(0, j));
        j + 1
    }
}

/// Digits that first differ at `i`, smaller in `s`, decode (from a strictly
/// increasing pool) to sequences that first differ at `i`, smaller in `s`'s.
proof fn lemma_decode_order(s: Seq<usize>, t: Seq<usize>, pool: Seq<usize>, i: int)
    requires
        s.len() == t.len() <= pool.len(),
        forall|j: int| 0 <= j < s.len() ==> s[j] < pool.len() - j,
        forall|j: int| 0 <= j < t.len() ==> t[j] < pool.len() - j,
        strictly_increasing(pool),
        0 <= i < s.len(),
        s.subrange(0, i) == t.subrange(0, i),
        s[i] < t[i],
    ensures
        decode_from(s, pool).subrange(0, i) == decode_from(t, pool).subrange(0, i),
        decode_from(s, pool)[i] < decode_from(t, pool)[i],
    decreases i,
{
    lemma_decode_len(s, pool);
    lemma_decode_len(t, pool);
    if i == 0 {
        assert(decode_from(s, pool).subrange(0, 0) =~= decode_from(t, pool).subrange(0, 0));
    } else {
        assert(s[0] == s.subrange(0, i)[0]);
        assert(t[0] == t.subrange(0, i)[0]);
        let rest_pool = pool.remove(s[0] as int);
        assert(strictly_increasing(rest_pool)) by {
            assert forall|a: int, b: int| 0 <= a < b < rest_pool.len() implies rest_pool[a]
                < rest_pool[b] by {
                let a2 = if a < s[0] { a } else { a + 1 };
                let b2 = if b < s[0] { b } else { b + 1 };
                assert(rest_pool[a] == pool[a2]);
                assert(rest_pool[b] == pool[b2]);
            }
        }
        assert(s.drop_first().subrange(0, i - 1) =~= s.subrange(0, i).drop_first());
        assert(t.drop_first().subrange(0, i - 1) =~= t.subrange(0, i).drop_first());
        lemma_decode_order(s.drop_first(), t.drop_first(), rest_pool, i - 1);
        let (ds, dt) = (decode_from(s, pool), decode_from(t, pool));
        let (rs, rt) = (
            decode_from(s.drop_first(), rest_pool),
            decode_from(t.drop_first(), rest_pool),
        );
        assert(ds.subrange(0, i) =~= seq![pool[s[0] as int]] + rs.subrange(0, i - 1));
        assert(dt.subrange(0, i) =~= seq![pool[t[0] as int]] + rt.subrange(0, i - 1));
        assert(ds[i] == rs[i - 1]);
        assert(dt[i] == rt[i - 1]);
    }
}

proof fn lemma_decode_len(d: Seq<usize>, pool: Seq<usize>)
    ensures
        decode_from(d, pool).len() == d.len(),
    decreases d.len(),
{
    if d.len() > 0 {
        lemma_decode_len(d.drop_first(), pool.remove(d[0] as int));
    }
}

/// Decoding keeps order: of two valid digit sequences of one length, the one
/// with the smaller value decodes to the lexicographically smaller permutation.
/// So a counter counting up enumerates permutations in increasing order.
pub proof fn lemma_decode_monotone(s: Seq<usize>, t: Seq<usize>)
    requires
        digits_valid(s),
        digits_valid(t),
        s.len() == t.len(),
        s.len() <= usize::MAX,
        value_of(s) < value_of(t),
    ensures
        lex_less(lehmer_decode(s), lehmer_decode(t)),
{
    let n = s.len();
    let i = lemma_value_order_digits(s, t);
    let id = identity(n);
    assert(strictly_increasing(id)) by {
        assert forall|a: int, b: int| 0 <= a < b < id.len() implies id[a] < id[b] by {
            assert(id[a] == a && id[b] == b);
        }
    }
    lemma_decode_order(s, t, id, i);
    lemma_decode_len(s, id);
    lemma_decode_len(t, id);
}

/// Counting from zero: along a run of counters of `n` digits, each one
/// increment after the one before, the counter after `k` increments holds `k`
/// for every `k < n!`, and is overflowed after `n!` increments or more.
pub proof fn lemma_increments_count(run: Seq<Factoradic>)
    requires
        run.len() > 0,
        run[0].digits@ == zeros(run[0].digits@.len()),
        !run[0].has_overflowed,
        forall|j: int| 0 <= j < run.len() - 1 ==> (#[trigger] run[j]).is_incremented(run[j + 1]),
    ensures
        forall|k: int|
            0 <= k < run.len() ==> {
                &&& (#[trigger] run[k]).wf()
                &&& run[k].digits@.len() == run[0].digits@.len()
                &&& k < factorial(run[0].digits@.len()) ==> !run[k].has_overflowed && value_of(
                    run[k].digits@,
                ) == k
                &&& k >= factorial(run[0].digits@.len()) ==> run[k].has_overflowed
            },
    decreases run.len(),
{
    let n = run[0].digits@.len();
    let last = run.len() - 1;
    if run.len() == 1 {
        lemma_value_zeros(run[0].digits@);
        lemma_factorial_positive(n);
    } else {
        let prev = run.drop_last();
        assert forall|j: int| 0 <= j < prev.len() - 1 implies (#[trigger] prev[j]).is_incremented(
            prev[j + 1],
        ) by {
            assert(run[j].is_incremented(run[j + 1]));
        }
        lemma_increments_count(prev);
        assert(prev[last - 1] == run[last - 1]);
        assert(run[last - 1].is_incremented(run[last]));
        lemma_value_bound(run[last - 1].digits@);
        assert forall|k: int| 0 <= k < run.len() implies {
            &&& (#[trigger] run[k]).wf()
            &&& run[k].digits@.len() == n
            &&& k < factorial(n) ==> !run[k].has_overflowed && value_of(run[k].digits@) == k
            &&& k >= factorial(n) ==> run[k].has_overflowed
        } by {
            if k < last {
                assert(prev[k] == run[k]);
            }
        }
    }
}

/// A number in the factorial number system, with its digits stored
/// most significant first. Its digits decode to a permutation of as many
/// indices as there are digits.
#[derive(PartialEq, Debug)]
pub struct Factoradic {
    pub digits: Vec<usize>,
    pub has_overflowed: bool,
}

impl Factoradic {
    /// The digits are within their place values, and an overflowed counter
    /// rests at zero.
    pub open spec fn wf(&self) -> bool {
        &&& digits_valid(self.digits@)
        &&& self.has_overflowed ==> self.digits@ == zeros(self.digits@.len())
    }

    /// The counter with `size` digits at zero.
    pub fn new(size: usize) -> (r: Factoradic)
        ensures
            r.wf(),
            r.digits@ == zeros(size as nat),
            !r.has_overflowed,
            value_of(r.digits@) == 0,
    {
        let mut result = Factoradic { digits: Vec::with_capacity(size), has_overflowed: false };
        let mut i: usize = 0;
        while i < size
            invariant
                i <= size,
                result.digits@ == zeros(i as nat),
                !result.has_overflowed,
            decreases size - i,
        {
            result.digits.push(0);
            i += 1;
            assert(result.digits@ =~= zeros(i as nat));
        }
        proof {
            lemma_value_zeros(result.digits@);
        }
        result
    }

    /// The counter with the given digits, or `None` where a digit exceeds its
    /// place value.
    pub fn from_vec(digits: Vec<usize>) -> (r: Option<Factoradic>)
        ensures
            r.is_some() <==> digits_valid(digits@),
            r matches Some(f) ==> f.wf() && f.digits@ == digits@ && !f.has_overflowed,
    {
        let size = digits.len();
        let mut i: usize = 0;
        while i < size
            invariant
                i <= size == digits@.len(),
                forall|j: int| 0 <= j < i ==> digits@[j] <= size - 1 - j,
            decreases size - i,
        {
            let place = size - i - 1;
            if digits[i] > place {
                return None;
            }
            i += 1;
        }
        Some(Factoradic { digits, has_overflowed: false })
    }

    /// What one increment makes of `self`: the next value, or, past the
    /// largest value, zero with the overflow flag set for good.
    pub open spec fn is_incremented(self, next: Factoradic) -> bool {
        let n = self.digits@.len();
        &&& next.wf()
        &&& next.digits@.len() == n
        &&& self.has_overflowed ==> next.digits@ == self.digits@ && next.has_overflowed
        &&& !self.has_overflowed && value_of(self.digits@) + 1 < factorial(n) ==> !next.has_overflowed
            && value_of(next.digits@) == value_of(self.digits@) + 1
        &&& !self.has_overflowed && value_of(self.digits@) + 1 == factorial(n) ==> next.has_overflowed
            && next.digits@ == zeros(n)
    }

    /// Adds one, carrying from the least significant digit leftward; past the
    /// largest value the counter wraps to zero and is marked overflowed.
    pub fn incr(&mut self) -> (r: &mut Factoradic)
        requires
            old(self).wf(),
        ensures
            old(self).is_incremented(*r),
            *final(self) == *final(r),
    {
        if self.has_overflowed {
            return self;
        }
        let ghost start = self.digits@;
        let size = self.digits.len();
        let mut i: usize = size;
        while i > 0
            invariant
                i <= size == start.len() == self.digits@.len(),
                !self.has_overflowed,
                !old(self).has_overflowed,
                digits_valid(start),
                start == old(self).digits@,
                forall|j: int| 0 <= j < i ==> self.digits@[j] == start[j],
                forall|j: int| i <= j < size ==> self.digits@[j] == 0,
                forall|j: int| i <= j < size ==> start[j] == size - 1 - j,
            decreases i,
        {
            let pos = i - 1;
            let place = size - pos - 1;
            assert(self.digits@[pos as int] == start[pos as int]);
            if self.digits[pos] == place {
                self.digits.set(pos, 0);
                i = pos;
            } else {
                let digit = self.digits[pos];
                assert(digit < place);
                self.digits.set(pos, digit + 1);
                proof {
                    assert forall|j: int| 0 <= j < size implies self.digits@[j] <= size - 1 - j by {
                        if j < pos {
                            assert(self.digits@[j] == start[j]);
                        }
                    }
                    lemma_value_succ(start, self.digits@, pos as int);
                    lemma_value_bound(self.digits@);
                }
                return self;
            }
        }
        self.has_overflowed = true;
        proof {
            lemma_value_max(start);
            assert forall|j: int| 0 <= j < size implies self.digits@[j] == zeros(size as nat)[j] by {
                assert(self.digits@[j] == 0);
            }
            assert(self.digits@ =~= zeros(size as nat));
        }
        self
    }

    /// The value of the digits, where `n!` fits in a `u64` for `n` digits.
    /// An overflowed counter rests at zero, so its value is 0.
    pub fn to_u64(&self) -> (r: u64)
        requires
            self.wf(),
            factorial(self.digits@.len()) <= u64::MAX,
        ensures
            r == value_of(self.digits@),
    {
        let n = self.digits.len();
        let ghost d = self.digits@;
        let mut weight: u64 = 1;
        let mut sum: u64 = 0;
        let mut place: usize = 0;
        while place < n
            invariant
                place <= n == d.len(),
                d == self.digits@,
                digits_valid(d),
                factorial(d.len()) <= u64::MAX,
                place == 0 ==> weight == 1,
                place > 0 ==> weight == factorial((place - 1) as nat),
                sum == value_of(d.subrange(n - place, n as int)),
            decreases n - place,
        {
            let idx = n - 1 - place;
            proof {
                lemma_factorial_monotone(place as nat, d.len());
                let suffix = d.subrange(idx as int, n as int);
                assert(suffix.drop_first() =~= d.subrange(n - place, n as int));
                assert(digits_valid(suffix));
                lemma_value_bound(suffix);
                lemma_factorial_monotone((place + 1) as nat, d.len());
            }
            if place != 0 {
                assert(factorial(place as nat) == place * factorial((place - 1) as nat));
                assert(weight * place == factorial(place as nat)) by (nonlinear_arith)
                    requires
                        factorial(place as nat) == place * factorial((place - 1) as nat),
                        weight == factorial((place - 1) as nat),
                ;
                assert(factorial(place as nat) <= u64::MAX);
                weight *= place as u64;
            }
            assert(weight == factorial(place as nat));
            let digit = self.digits[idx];
            assert(value_of(d.subrange(idx as int, n as int)) == digit * factorial(place as nat)
                + sum);
            sum += (digit as u64) * weight;
            place += 1;
        }
        proof {
            assert(d.subrange(0, n as int) =~= d);
        }
        sum
    }

    /// The permutation of `0..n` that the digits encode: each digit in turn
    /// picks the remaining index of its rank and removes it. An overflowed
    /// counter rests at zero, so it gives the identity.
    pub fn to_permutation(&self) -> (r: Vec<usize>)
        requires
            self.wf(),
        ensures
            r@ == lehmer_decode(self.digits@),
            is_permutation_of_range(r@, self.digits@.len()),
    {
        let n = self.digits.len();
        let ghost d = self.digits@;
        let mut unpermuted_indices: Vec<usize> = Vec::with_capacity(n);
        let mut i: usize = 0;
        while i < n
            invariant
                i <= n,
                unpermuted_indices@ == identity(i as nat),
            decreases n - i,
        {
            unpermuted_indices.push(i);
            i += 1;
            assert(unpermuted_indices@ =~= identity(i as nat));
        }
        let mut masked_indices = MaskedVec::from_vec(unpermuted_indices);
        let mut result: Vec<usize> = Vec::with_capacity(n);
        let mut k: usize = 0;
        assert(d.subrange(0, n as int) =~= d);
        while k < n
            invariant
                k <= n == d.len(),
                d == self.digits@,
                digits_valid(d),
                masked_indices.wf(),
                masked_indices.length == n - k,
                lehmer_decode(d) == result@ + decode_from(
                    d.subrange(k as int, n as int),
                    masked_indices@.live_values(),
                ),
            decreases n - k,
        {
            let digit = self.digits[k];
            let ghost pool = masked_indices@.live_values();
            let ghost rest = d.subrange(k as int, n as int);
            assert(rest.drop_first() =~= d.subrange(k + 1, n as int));
            let masked_digit = masked_indices.get_at(digit);
            result.push(masked_digit);
            masked_indices.mask_at(digit);
            assert(decode_from(rest, pool) == seq![masked_digit] + decode_from(
                d.subrange(k + 1, n as int),
                masked_indices@.live_values(),
            ));
            assert(lehmer_decode(d) =~= result@ + decode_from(
                d.subrange(k + 1, n as int),
                masked_indices@.live_values(),
            ));
            k += 1;
        }
        proof {
            assert(lehmer_decode(d) =~= result@);
            lemma_decode_is_permutation(d);
        }
        result
    }
}

/// The counter with `size` digits at zero.
pub fn new(size: usize) -> (r: Factoradic)
    ensures
        r.wf(),
        r.digits@ == zeros(size as nat),
        !r.has_overflowed,
        value_of(r.digits@) == 0,
{
    Factoradic::new(size)
}

} // verus!
