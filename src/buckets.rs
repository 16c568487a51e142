use rand::rngs::StdRng;
use vstd::prelude::*;

use crate::random::uniform_below;

verus! {

/// Sum of the values of `s`.
pub open spec fn sum(s: Seq<u32>) -> int
    decreases s.len(),
{
    if s.len() == 0 {
        0
    } else {
        sum(s.drop_last()) + s.last()
    }
}

/// Number of occurrences of `x` in `s`.
pub open spec fn count(s: Seq<u32>, x: u32) -> nat
    decreases s.len(),
{
    if s.len() == 0 {
        0
    } else {
        count(s.drop_last(), x) + if s.last() == x {
            1nat
        } else {
            0nat
        }
    }
}

proof fn lemma_sum_nonneg(s: Seq<u32>)
    ensures
        sum(s) >= 0,
    decreases s.len(),
{
    if s.len() > 0 {
        lemma_sum_nonneg(s.drop_last());
    }
}

proof fn lemma_sum_update(s: Seq<u32>, i: int, v: u32)
    requires
        0 <= i < s.len(),
    ensures
        sum(s.update(i, v)) == sum(s) - s[i] + v,
    decreases s.len(),
{
    let t = s.update(i, v);
    if i < s.len() - 1 {
        assert(t.drop_last() =~= s.drop_last().update(i, v));
        lemma_sum_update(s.drop_last(), i, v);
    } else {
        assert(t.drop_last() =~= s.drop_last());
    }
}

proof fn lemma_elem_le_sum(s: Seq<u32>, i: int)
    requires
        0 <= i < s.len(),
    ensures
        s[i] <= sum(s),
    decreases s.len(),
{
    lemma_sum_nonneg(s.drop_last());
    if i < s.len() - 1 {
        lemma_elem_le_sum(s.drop_last(), i);
    }
}

proof fn lemma_positive_sum_has_positive(s: Seq<u32>) -> (i: int)
    requires
        sum(s) > 0,
    ensures
        0 <= i < s.len(),
        s[i] > 0,
    decreases s.len(),
{
    if s.last() > 0 {
        (s.len() - 1) as int
    } else {
        lemma_positive_sum_has_positive(s.drop_last())
    }
}

proof fn lemma_sum_take(s: Seq<u32>, k: int)
    requires
        0 <= k < s.len(),
    ensures
        sum(s.take(k + 1)) == sum(s.take(k)) + s[k],
        sum(s.take(k + 1)) <= sum(s),
    decreases s.len() - k,
{
    assert(s.take(k + 1).drop_last() =~= s.take(k));
    if k + 1 < s.len() {
        lemma_sum_take(s, k + 1);
        assert(s[k + 1] >= 0);
    } else {
        assert(s.take(k + 1) =~= s);
    }
}

proof fn lemma_count_push(s: Seq<u32>, y: u32, x: u32)
    ensures
        count(s.push(y), x) == count(s, x) + if y == x {
            1nat
        } else {
            0nat
        },
{
    assert(s.push(y).drop_last() =~= s);
}

/// Per-category counts of items to hand out, with the number of items they
/// add up to.
pub struct Buckets {
    storage: Vec<u32>,
    desired_size: usize,
}

impl Buckets {
    #[verifier::type_invariant]
    spec fn inv(self) -> bool {
        &&& sum(self.storage@) == self.desired_size
        &&& self.storage@.len() <= u32::MAX
    }

    /// Remaining count of each category.
    pub closed spec fn counts(self) -> Seq<u32> {
        self.storage@
    }

    /// Number of items a draw hands out.
    pub closed spec fn total(self) -> nat {
        self.desired_size as nat
    }

    /// Buckets holding at least `base_values[i]` items of category `i`, the
    /// items that are missing to reach `desired_size` added one at a time to
    /// categories chosen uniformly at random.
    pub fn new(r: &mut StdRng, base_values: Vec<u32>, desired_size: usize) -> (b: Buckets)
        requires
            sum(base_values@) <= desired_size,
            desired_size <= u32::MAX,
            base_values@.len() <= u32::MAX,
            sum(base_values@) < desired_size ==> base_values@.len() > 0,
        ensures
            b.counts().len() == base_values@.len(),
            forall|i: int| 0 <= i < base_values@.len() ==> #[trigger] b.counts()[i] >= base_values@[i],
            sum(b.counts()) == desired_size,
            b.total() == desired_size,
            exists|draws: Seq<u32>|
                {
                    &&& draws.len() == desired_size - sum(base_values@)
                    &&& forall|t: int| 0 <= t < draws.len() ==> #[trigger] draws[t] < base_values@.len()
                    &&& forall|i: int|
                        0 <= i < base_values@.len() ==> #[trigger] b.counts()[i] == base_values@[i] + count(
                            draws,
                            i as u32,
                        )
                },
    {
        let ghost base = base_values@;
        let mut storage = base_values;
        let n = storage.len();
        let mut present: usize = 0;
        let mut k: usize = 0;
        while k < n
            invariant
                storage@ == base,
                n == base.len(),
                k <= n,
                present == sum(base.take(k as int)),
                sum(base) <= desired_size,
            decreases n - k,
        {
            proof {
                lemma_sum_take(base, k as int);
            }
            present = present + storage[k] as usize;
            k = k + 1;
        }
        assert(base.take(n as int) =~= base);
        let missing = desired_size - present;
        let mut draws: Vec<u32> = Vec::new();
        let mut i: usize = 0;
        while i < missing
            invariant
                n == base.len(),
                n <= u32::MAX,
                i <= missing,
                draws@.len() == i,
                missing > 0 ==> n > 0,
                forall|t: int| 0 <= t < draws@.len() ==> #[trigger] draws@[t] < n,
            decreases missing - i,
        {
            let index = uniform_below(r, n);
            draws.push(index as u32);
            i = i + 1;
        }
        Self::fill_from_draws(&mut storage, &draws);
        Buckets { storage, desired_size }
    }

    /// Adds one to the count of each category drawn in `draws`.
    pub fn fill_from_draws(counts: &mut Vec<u32>, draws: &Vec<u32>)
        requires
            old(counts)@.len() <= u32::MAX,
            forall|t: int| 0 <= t < draws@.len() ==> #[trigger] draws@[t] < old(counts)@.len(),
            sum(old(counts)@) + draws@.len() <= u32::MAX,
        ensures
            final(counts)@.len() == old(counts)@.len(),
            forall|i: int|
                0 <= i < old(counts)@.len() ==> #[trigger] final(counts)@[i] == old(counts)@[i] + count(
                    draws@,
                    i as u32,
                ),
            sum(final(counts)@) == sum(old(counts)@) + draws@.len(),
    {
        let ghost start = old(counts)@;
        let n = counts.len();
        let mut t: usize = 0;
        while t < draws.len()
            invariant
                n == start.len(),
                n <= u32::MAX,
                counts@.len() == n,
                t <= draws@.len(),
                forall|k: int| 0 <= k < draws@.len() ==> #[trigger] draws@[k] < n,
                sum(start) + draws@.len() <= u32::MAX,
                sum(counts@) == sum(start) + t,
                forall|i: int|
                    0 <= i < n ==> #[trigger] counts@[i] == start[i] + count(draws@.take(t as int), i as u32),
            decreases draws@.len() - t,
        {
            let d = draws[t] as usize;
            let ghost before = counts@;
            proof {
                lemma_elem_le_sum(counts@, d as int);
                lemma_sum_update(counts@, d as int, (counts@[d as int] + 1) as u32);
            }
            let v = counts[d] + 1;
            counts.set(d, v);
            proof {
                assert(draws@.take(t + 1) =~= draws@.take(t as int).push(draws@[t as int]));
                assert forall|i: int| 0 <= i < n implies #[trigger] counts@[i] == start[i] + count(
                    draws@.take(t + 1),
                    i as u32,
                ) by {
                    lemma_count_push(draws@.take(t as int), draws@[t as int], i as u32);
                    assert((draws@[t as int] == i as u32) == (d as int == i));
                }
            }
            t = t + 1;
        }
        assert(draws@.take(draws@.len() as int) =~= draws@);
    }

    /// The counts, one per category.
    pub fn storage(&self) -> (r: &Vec<u32>)
        ensures
            r@ == self.counts(),
    {
        &self.storage
    }

    /// Number of items a draw hands out.
    pub fn desired_size(&self) -> (r: usize)
        ensures
            r == self.total(),
    {
        self.desired_size
    }

    /// Hands out every item once, in random order: each step picks uniformly
    /// a category that still has items left, which is the law of drawing a
    /// category uniformly and drawing again while it is empty. The buckets
    /// themselves are left as they are, so each draw starts afresh.
    pub fn draw(&self, r: &mut StdRng) -> (res: Vec<u32>)
        ensures
            res@.len() == self.total(),
            forall|k: int| 0 <= k < res@.len() ==> #[trigger] res@[k] < self.counts().len(),
            forall|c: int|
                0 <= c < self.counts().len() ==> #[trigger] count(res@, c as u32) == self.counts()[c],
    {
        proof {
            use_type_invariant(self);
        }
        let ghost full = self.storage@;
        let n = self.storage.len();
        let mut st: Vec<u32> = Vec::new();
        let mut j: usize = 0;
        while j < n
            invariant
                n == full.len(),
                full == self.storage@,
                j <= n,
                st@ == full.take(j as int),
            decreases n - j,
        {
            st.push(self.storage[j]);
            assert(st@ =~= full.take(j + 1));
            j = j + 1;
        }
        assert(st@ =~= full);
        let mut res: Vec<u32> = Vec::new();
        let mut i: usize = 0;
        while i < self.desired_size
            invariant
                n == full.len(),
                full == self.storage@,
                n <= u32::MAX,
                sum(full) == self.desired_size,
                st@.len() == n,
                i <= self.desired_size,
                res@.len() == i,
                sum(st@) == self.desired_size - i,
                forall|k: int| 0 <= k < res@.len() ==> #[trigger] res@[k] < n,
                forall|c: int| 0 <= c < n ==> #[trigger] count(res@, c as u32) + st@[c] == full[c],
            decreases self.desired_size - i,
        {
            let mut nonzero: Vec<usize> = Vec::new();
            let mut k: usize = 0;
            while k < n
                invariant
                    st@.len() == n,
                    k <= n,
                    forall|t: int|
                        0 <= t < nonzero@.len() ==> #[trigger] nonzero@[t] < n && st@[nonzero@[t] as int] > 0,
                    nonzero@.len() == 0 ==> forall|q: int| 0 <= q < k ==> st@[q] == 0,
                decreases n - k,
            {
                if st[k] > 0 {
                    nonzero.push(k);
                }
                k = k + 1;
            }
            proof {
                let w = lemma_positive_sum_has_positive(st@);
                assert(nonzero@.len() > 0);
            }
            let t = uniform_below(r, nonzero.len());
            let c = nonzero[t];
            assert(st@[c as int] > 0);
            let ghost before = res@;
            res.push(c as u32);
            proof {
                lemma_sum_update(st@, c as int, (st@[c as int] - 1) as u32);
                assert forall|x: int| 0 <= x < n implies #[trigger] count(res@, x as u32) + st@.update(
                    c as int,
                    (st@[c as int] - 1) as u32,
                )[x] == full[x] by {
                    lemma_count_push(before, c as u32, x as u32);
                    assert((c as u32 == x as u32) == (c as int == x));
                }
            }
            let v = st[c] - 1;
            st.set(c, v);
            i = i + 1;
        }
        proof {
            assert forall|c: int| 0 <= c < n implies st@[c] == 0 by {
                lemma_elem_le_sum(st@, c);
            }
        }
        res
    }
}

} // verus!
