//! Vectors returned rotated or reversed.
use vstd::prelude::*;

verus! {

/// Rotation of a vector, returning it.
pub trait Rotated: Sized {
    spec fn items(&self) -> Seq<Self::Item>;

    type Item;

    /// The items from `k` on, then the first `k`.
    fn rotated_left(self, k: usize) -> (r: Self)
        requires
            k <= self.items().len(),
        ensures
            r.items() == self.items().subrange(k as int, self.items().len() as int) + self.items().subrange(0, k as int);

    /// The last `k` items, then the others.
    fn rotated_right(self, k: usize) -> (r: Self)
        requires
            k <= self.items().len(),
        ensures
            r.items() == self.items().subrange(self.items().len() - k, self.items().len() as int)
                + self.items().subrange(0, self.items().len() - k);
}

impl<T> Rotated for Vec<T> {
    type Item = T;

    open spec fn items(&self) -> Seq<T> {
        self@
    }

    fn rotated_left(self, k: usize) -> (r: Self) {
        let mut head = self;
        let mut tail = head.split_off(k);
        tail.append(&mut head);
        tail
    }

    fn rotated_right(self, k: usize) -> (r: Self) {
        let mut head = self;
        let at = head.len() - k;
        let mut tail = head.split_off(at);
        tail.append(&mut head);
        tail
    }
}

/// Reversal of a vector, returning it.
pub trait Reversed: Sized {
    type Item;

    spec fn items(&self) -> Seq<Self::Item>;

    /// The items in reverse order.
    fn reversed(self) -> (r: Self)
        ensures
            r.items() == self.items().reverse();
}

impl<T> Reversed for Vec<T> {
    type Item = T;

    open spec fn items(&self) -> Seq<T> {
        self@
    }

    fn reversed(self) -> (r: Self) {
        let ghost s = self@;
        let mut rest = self;
        let mut r: Vec<T> = Vec::new();
        while rest.len() > 0
            invariant
                s == rest@ + r@.reverse(),
            decreases rest@.len(),
        {
            let ghost before_r = r@;
            let ghost before_s = rest@;
            let x = rest.pop().unwrap();
            r.push(x);
            proof {
                assert(r@.reverse() =~= seq![x] + before_r.reverse());
                assert(before_s =~= rest@.push(x));
                assert(s =~= rest@ + r@.reverse());
            }
        }
        proof {
            assert(r@.reverse().reverse() =~= r@);
            assert(s.reverse() =~= r@);
        }
        r
    }
}

/// The items in non-decreasing order.
pub open spec fn is_sorted(s: Seq<i64>) -> bool {
    forall|j: int, k: int| 0 <= j < k < s.len() ==> s[j] <= s[k]
}

/// Sorting a vector, returning it.
pub trait Sorted: Sized {
    spec fn items(&self) -> Seq<i64>;

    /// The same items in non-decreasing order.
    fn sorted(self) -> (r: Self)
        ensures
            is_sorted(r.items()),
            r.items().to_multiset() == self.items().to_multiset();

    /// The distinct items in increasing order.
    fn sorted_dedup(self) -> (r: Self)
        ensures
            forall|j: int, k: int| 0 <= j < k < r.items().len() ==> r.items()[j] < r.items()[k],
            forall|x: i64| r.items().contains(x) <==> self.items().contains(x);
}

impl Sorted for Vec<i64> {
    open spec fn items(&self) -> Seq<i64> {
        self@
    }

    fn sorted(self) -> (r: Self) {
        let mut out: Vec<i64> = Vec::new();
        let mut i: usize = 0;
        proof {
            assert(self@.subrange(0, 0) =~= Seq::<i64>::empty());
        }
        while i < self.len()
            invariant
                i <= self@.len(),
                is_sorted(out@),
                out@.to_multiset() == self@.subrange(0, i as int).to_multiset(),
            decreases self.len() - i,
        {
            let x = self[i];
            let mut pos: usize = 0;
            while pos < out.len() && out[pos] <= x
                invariant
                    pos <= out@.len(),
                    forall|j: int| 0 <= j < pos ==> out@[j] <= x,
                decreases out.len() - pos,
            {
                pos += 1;
            }
            let ghost before = out@;
            out.insert(pos, x);
            proof {
                vstd::seq_lib::to_multiset_insert(before, pos as int, x);
                vstd::seq_lib::to_multiset_build(self@.subrange(0, i as int), x);
                assert(self@.subrange(0, i + 1) == self@.subrange(0, i as int).push(x));
                assert forall|j: int, k: int| 0 <= j < k < out@.len() implies out@[j] <= out@[k] by {
                    if pos < before.len() {
                        assert(before[pos as int] > x);
                    }
                }
            }
            i += 1;
        }
        proof {
            assert(self@.subrange(0, self@.len() as int) == self@);
        }
        out
    }

    fn sorted_dedup(self) -> (r: Self) {
        let ghost orig = self@;
        let s = self.sorted();
        proof {
            assert forall|x: i64| s@.contains(x) <==> orig.contains(x) by {
                vstd::seq_lib::to_multiset_contains(s@, x);
                vstd::seq_lib::to_multiset_contains(orig, x);
            }
        }
        let mut out: Vec<i64> = Vec::new();
        let mut i: usize = 0;
        while i < s.len()
            invariant
                i <= s@.len(),
                is_sorted(s@),
                forall|j: int, k: int| 0 <= j < k < out@.len() ==> out@[j] < out@[k],
                forall|x: i64| out@.contains(x) <==> s@.subrange(0, i as int).contains(x),
                i > 0 ==> out@.len() > 0 && out@.last() == s@[i - 1],
                i == 0 ==> out@.len() == 0,
            decreases s.len() - i,
        {
            let x = s[i];
            let ghost before = out@;
            if out.len() == 0 || out[out.len() - 1] != x {
                out.push(x);
                proof {
                    if i > 0 {
                        assert(s@[i - 1] <= x);
                        assert(before.last() < x);
                    }
                    assert(out@ == before.push(x));
                    assert forall|j: int, k: int| 0 <= j < k < out@.len() implies out@[j] < out@[k] by {
                        if k == out@.len() - 1 {
                            assert(out@[k] == x);
                            assert(out@[j] == before[j]);
                            if j < before.len() - 1 {
                                assert(before[j] < before[before.len() - 1]);
                            }
                        } else {
                            assert(out@[j] == before[j] && out@[k] == before[k]);
                        }
                    }
                    assert forall|y: i64| out@.contains(y) <==> s@.subrange(0, i + 1).contains(y) by {
                        if out@.contains(y) && y != x {
                            let j = choose|j: int| 0 <= j < out@.len() && out@[j] == y;
                            assert(before[j] == y);
                            assert(before.contains(y));
                            let k = choose|k: int| 0 <= k < i && #[trigger] s@.subrange(0, i as int)[k] == y;
                            assert(s@.subrange(0, i + 1)[k] == y);
                        }
                        if out@.contains(y) && y == x {
                            assert(s@.subrange(0, i + 1)[i as int] == y);
                        }
                        if s@.subrange(0, i + 1).contains(y) {
                            let k = choose|k: int| 0 <= k < i + 1 && #[trigger] s@.subrange(0, i + 1)[k] == y;
                            if k < i {
                                assert(s@.subrange(0, i as int)[k] == y);
                                assert(before.contains(y));
                                let j = choose|j: int| 0 <= j < before.len() && before[j] == y;
                                assert(out@[j] == y);
                            } else {
                                assert(out@[out@.len() - 1] == y);
                            }
                        }
                    }
                }
            } else {
                proof {
                    assert forall|y: i64| out@.contains(y) <==> s@.subrange(0, i + 1).contains(y) by {
                        if out@.contains(y) {
                            let k = choose|k: int| 0 <= k < i && #[trigger] s@.subrange(0, i as int)[k] == y;
                            assert(s@.subrange(0, i + 1)[k] == y);
                        }
                        if s@.subrange(0, i + 1).contains(y) {
                            let k = choose|k: int| 0 <= k < i + 1 && #[trigger] s@.subrange(0, i + 1)[k] == y;
                            if k < i {
                                assert(s@.subrange(0, i as int)[k] == y);
                            } else {
                                assert(out@[out@.len() - 1] == y);
                            }
                        }
                    }
                }
            }
            i += 1;
        }
        proof {
            assert(s@.subrange(0, s@.len() as int) == s@);
        }
        out
    }
}

} // verus!
