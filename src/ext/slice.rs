//! Counting and summing over slices.
use vstd::prelude::*;
use std::collections::HashMap;

verus! {

/// How many items of `s` equal `x`.
pub open spec fn occurrences(s: Seq<usize>, x: nat) -> nat
    decreases s.len(),
{
    if s.len() == 0 {
        0
    } else {
        occurrences(s.drop_last(), x) + if s.last() == x { 1nat } else { 0 }
    }
}

/// The indices `i` from `from` below `to` with `s[i] == c`, in increasing order.
pub open spec fn indices_of(s: Seq<usize>, c: usize, from: int, to: int) -> Seq<usize>
    decreases to - from,
{
    if to <= from {
        Seq::empty()
    } else {
        indices_of(s, c, from, to - 1) + if s[to - 1] == c {
            seq![(to - 1) as usize]
        } else {
            Seq::empty()
        }
    }
}

/// Groups the indices of `counts` by their value (from index 1 on when `exclude_zero`):
/// each value that occurs maps to the indices holding it, in increasing order.
pub fn group(counts: &[usize], exclude_zero: bool) -> (r: HashMap<usize, Vec<usize>>)
    ensures
        ({
            let start: int = if exclude_zero { 1 } else { 0 };
            &&& forall|c: usize|
                #[trigger] r@.contains_key(c) <==> exists|i: int| start <= i < counts@.len() && counts@[i] == c
            &&& forall|c: usize| #[trigger] r@.contains_key(c) ==> r@[c]@ == indices_of(counts@, c, start, counts@.len() as int)
        }),
{
    broadcast use vstd::std_specs::hash::group_hash_axioms;

    let start: usize = if exclude_zero && counts.len() > 0 { 1 } else { 0 };
    let ghost gs: int = if exclude_zero { 1 } else { 0 };
    let mut map: HashMap<usize, Vec<usize>> = HashMap::new();
    let mut i: usize = start;
    proof {
        assert forall|c: usize| indices_of(counts@, c, gs, i as int) == Seq::<usize>::empty() by {}
    }
    while i < counts.len()
        invariant
            start <= i <= counts@.len(),
            gs <= i || counts@.len() == 0,
            start == gs || counts@.len() == 0,
            forall|c: usize|
                #[trigger] map@.contains_key(c) <==> exists|j: int| gs <= j < i && counts@[j] == c,
            forall|c: usize| #[trigger] map@.contains_key(c) ==> map@[c]@ == indices_of(counts@, c, gs, i as int),
        decreases counts.len() - i,
    {
        let c = counts[i];
        let mut list: Vec<usize> = Vec::new();
        match map.get(&c) {
            Some(v) => {
                let mut k: usize = 0;
                while k < v.len()
                    invariant
                        k <= v@.len(),
                        list@ == v@.subrange(0, k as int),
                    decreases v.len() - k,
                {
                    list.push(v[k]);
                    proof {
                        assert(v@.subrange(0, k + 1) == v@.subrange(0, k as int).push(v@[k as int]));
                    }
                    k += 1;
                }
                proof {
                    assert(v@.subrange(0, v@.len() as int) == v@);
                }
            },
            None => {},
        }
        let ghost before = map@;
        list.push(i);
        map.insert(c, list);
        proof {
            assert forall|d: usize| #[trigger] map@.contains_key(d) <==> exists|j: int| gs <= j < i + 1 && counts@[j] == d by {
                if d == c {
                    assert(counts@[i as int] == d);
                } else if before.contains_key(d) {
                    let j = choose|j: int| gs <= j < i && counts@[j] == d;
                    assert(gs <= j < i + 1 && counts@[j] == d);
                } else if exists|j: int| gs <= j < i + 1 && counts@[j] == d {
                    let j = choose|j: int| gs <= j < i + 1 && counts@[j] == d;
                    assert(j != i);
                }
            }
            assert forall|d: usize| #[trigger] map@.contains_key(d) implies map@[d]@ == indices_of(counts@, d, gs, i + 1) by {
                if d != c {
                    assert(map@[d] == before[d]);
                } else if !before.contains_key(c) {
                    assert forall|j: int| gs <= j < i implies counts@[j] != c by {}
                    lemma_indices_none(counts@, c, gs, i as int);
                }
            }
        }
        i += 1;
    }
    map
}

proof fn lemma_indices_none(s: Seq<usize>, c: usize, from: int, to: int)
    requires
        forall|j: int| from <= j < to ==> s[j] != c,
    ensures
        indices_of(s, c, from, to) == Seq::<usize>::empty(),
    decreases to - from,
{
    if to > from {
        lemma_indices_none(s, c, from, to - 1);
    }
}

/// Counting the occurrences of small values.
pub trait CountOccurrences {
    spec fn items(&self) -> Seq<usize>;

    /// Entry `x`, for `x` from 0 to `n`, is how many items equal `x`.
    fn count(&self, n: usize) -> (r: Vec<usize>)
        requires
            n < usize::MAX,
        ensures
            r@.len() == n + 1,
            forall|x: int| 0 <= x <= n ==> r@[x] == occurrences(self.items(), x as nat);

    /// The indices grouped by the value they hold (from index 1 on when `exclude_zero`).
    fn group(&self, exclude_zero: bool) -> (r: HashMap<usize, Vec<usize>>)
        ensures
            ({
                let start: int = if exclude_zero { 1 } else { 0 };
                let s = self.items();
                &&& forall|c: usize|
                    #[trigger] r@.contains_key(c) <==> exists|i: int| start <= i < s.len() && s[i] == c
                &&& forall|c: usize| #[trigger] r@.contains_key(c) ==> r@[c]@ == indices_of(s, c, start, s.len() as int)
            });
}

proof fn lemma_occurrences_bound(s: Seq<usize>, x: nat)
    ensures
        occurrences(s, x) <= s.len(),
    decreases s.len(),
{
    if s.len() > 0 {
        lemma_occurrences_bound(s.drop_last(), x);
    }
}

impl CountOccurrences for [usize] {
    open spec fn items(&self) -> Seq<usize> {
        self@
    }

    fn group(&self, exclude_zero: bool) -> (r: HashMap<usize, Vec<usize>>) {
        group(self, exclude_zero)
    }

    fn count(&self, n: usize) -> (r: Vec<usize>) {
        let mut cnt: Vec<usize> = Vec::new();
        let mut x: usize = 0;
        while x <= n
            invariant
                x <= n + 1,
                n < usize::MAX,
                cnt@.len() == x,
                forall|y: int| 0 <= y < x ==> cnt@[y] == 0,
            decreases n + 1 - x,
        {
            cnt.push(0);
            x += 1;
        }
        let mut i: usize = 0;
        proof {
            assert(self@.subrange(0, 0) =~= Seq::<usize>::empty());
        }
        while i < self.len()
            invariant
                i <= self@.len(),
                cnt@.len() == n + 1,
                forall|y: int| 0 <= y <= n ==> cnt@[y] == occurrences(self@.subrange(0, i as int), y as nat),
            decreases self.len() - i,
        {
            let v = self[i];
            proof {
                assert(self@.subrange(0, i + 1).drop_last() == self@.subrange(0, i as int));
                lemma_occurrences_bound(self@.subrange(0, i as int), v as nat);
            }
            if v <= n {
                let c = cnt[v];
                cnt.set(v, c + 1);
            }
            i += 1;
        }
        proof {
            assert(self@.subrange(0, self@.len() as int) == self@);
        }
        cnt
    }
}

/// The sum of `s[i..j]`.
pub open spec fn range_sum(s: Seq<i64>, i: int, j: int) -> int
    decreases j - i,
{
    if j <= i {
        0
    } else {
        range_sum(s, i, j - 1) + s[j - 1]
    }
}

/// No sum of consecutive items overflows.
pub open spec fn sums_fit(s: Seq<i64>) -> bool {
    forall|i: int, j: int| 0 <= i <= j <= s.len() ==> i64::MIN <= #[trigger] range_sum(s, i, j) <= i64::MAX
}

/// The largest sum of consecutive items, 0 for none: every such sum is at most `m`, and
/// `m` is one of them.
pub open spec fn is_max_sum(s: Seq<i64>, m: int) -> bool {
    &&& forall|i: int, j: int| 0 <= i <= j <= s.len() ==> #[trigger] range_sum(s, i, j) <= m
    &&& exists|i: int, j: int| 0 <= i <= j <= s.len() && #[trigger] range_sum(s, i, j) == m
}

/// The largest sum of a run of consecutive items (Kadane's rule); 0 when all are negative.
pub fn max_sum(arr: &[i64]) -> (r: i64)
    requires
        sums_fit(arr@),
    ensures
        is_max_sum(arr@, r as int),
{
    let ghost s = arr@;
    let mut best: i64 = 0;
    let mut cur: i64 = 0;
    let mut k: usize = 0;
    proof {
        assert(range_sum(s, 0, 0) == 0);
    }
    while k < arr.len()
        invariant
            s == arr@,
            sums_fit(s),
            k <= s.len(),
            k > 0 ==> (forall|i: int| 0 <= i < k ==> #[trigger] range_sum(s, i, k as int) <= cur),
            k > 0 ==> exists|i: int| 0 <= i < k && #[trigger] range_sum(s, i, k as int) == cur,
            k == 0 ==> cur == 0,
            forall|i: int, j: int| 0 <= i <= j <= k ==> #[trigger] range_sum(s, i, j) <= best,
            exists|i: int, j: int| 0 <= i <= j <= k && #[trigger] range_sum(s, i, j) == best,
        decreases s.len() - k,
    {
        let x = arr[k];
        let base: i64 = if cur > 0 { cur } else { 0 };
        proof {
            // the best run ending at k + 1 extends the best run ending at k, or starts at k
            let start = if cur > 0 {
                choose|i: int| 0 <= i < k && #[trigger] range_sum(s, i, k as int) == cur
            } else {
                k as int
            };
            assert(range_sum(s, start, k + 1) == range_sum(s, start, k as int) + s[k as int]);
            if cur <= 0 {
                assert(range_sum(s, start, k as int) == 0);
            }
            assert(range_sum(s, start, k + 1) == base + x);
            assert(i64::MIN <= range_sum(s, start, k + 1) <= i64::MAX);
            assert forall|i: int| 0 <= i < k + 1 implies #[trigger] range_sum(s, i, k + 1) <= base + x by {
                assert(range_sum(s, i, k + 1) == range_sum(s, i, k as int) + s[k as int]);
                if i < k {
                    assert(range_sum(s, i, k as int) <= cur);
                } else {
                    assert(range_sum(s, i, k as int) == 0);
                }
            }
        }
        cur = base + x;
        proof {
            assert forall|i: int, j: int| 0 <= i <= j <= k + 1 implies #[trigger] range_sum(s, i, j)
                <= if cur > best { cur } else { best } by {
                assert(range_sum(s, 0, 0) <= best);
                if j == k + 1 && i < j {
                    assert(range_sum(s, i, k + 1) <= cur);
                } else if j == k + 1 {
                    assert(range_sum(s, i, j) == 0);
                }
            }
        }
        if cur > best {
            best = cur;
        }
        k += 1;
    }
    best
}

/// The largest sum of a run of consecutive items of `items`; 0 when all are negative.
pub fn max_sum_from_iter(items: Vec<i64>) -> (r: i64)
    requires
        sums_fit(items@),
    ensures
        is_max_sum(items@, r as int),
{
    max_sum(items.as_slice())
}

/// The largest sum of a run of consecutive items.
pub trait MaxSum {
    spec fn items(&self) -> Seq<i64>;

    fn max_sum(&self) -> (r: i64)
        requires
            sums_fit(self.items()),
        ensures
            is_max_sum(self.items(), r as int);
}

impl MaxSum for [i64] {
    open spec fn items(&self) -> Seq<i64> {
        self@
    }

    fn max_sum(&self) -> (r: i64) {
        max_sum(self)
    }
}

} // verus!
