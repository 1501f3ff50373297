//! Stable sorting, stated over the positions of the items: the order in which
//! a stable sort leaves them, and what holds of that order.

use vstd::prelude::*;

verus! {

/// `le(i, j)`: item `i` may stand before item `j`.
pub type Before = spec_fn(int, int) -> bool;

/// Of any two items one may stand before the other.
pub open spec fn is_total(le: Before) -> bool {
    forall|i: int, j: int| #[trigger] le(i, j) || le(j, i)
}

/// An item that may stand before a second, which may stand before a third,
/// may stand before the third.
pub open spec fn is_transitive(le: Before) -> bool {
    forall|i: int, j: int, k: int| #[trigger] le(i, j) && #[trigger] le(j, k) ==> le(i, k)
}

/// Where item `x` goes into `order`: behind the items, from `from` on, that
/// may stand before it.
pub open spec fn insert_pos(order: Seq<int>, x: int, le: Before, from: int) -> int
    decreases order.len() - from,
{
    if from < 0 || from >= order.len() {
        order.len() as int
    } else if le(order[from], x) {
        insert_pos(order, x, le, from + 1)
    } else {
        from
    }
}

/// The order in which a stable sort leaves the items `0..n`: each item in
/// turn goes behind the items that may stand before it.
pub open spec fn stable_order(n: nat, le: Before) -> Seq<int>
    decreases n,
{
    if n == 0 {
        Seq::empty()
    } else {
        let prev = stable_order((n - 1) as nat, le);
        prev.insert(insert_pos(prev, n - 1, le, 0), n - 1)
    }
}

/// `order` holds each of the items `0..n` once.
pub open spec fn is_permutation(order: Seq<int>, n: nat) -> bool {
    &&& order.len() == n
    &&& forall|a: int| 0 <= a < order.len() ==> 0 <= #[trigger] order[a] < n
    &&& forall|a: int, b: int|
        0 <= a < b < order.len() ==> #[trigger] order[a] != #[trigger] order[b]
}

/// Each item may stand before every item behind it.
pub open spec fn is_sorted(order: Seq<int>, le: Before) -> bool {
    forall|a: int, b: int|
        0 <= a < b < order.len() ==> le(#[trigger] order[a], #[trigger] order[b])
}

/// Items of which either may stand before the other are in the order in
/// which they came.
pub open spec fn is_stable(order: Seq<int>, le: Before) -> bool {
    forall|a: int, b: int|
        0 <= a < b < order.len() && le(#[trigger] order[b], #[trigger] order[a]) ==> order[a]
            < order[b]
}

/// An item goes behind items that may stand before it, and in front of one
/// that may not.
pub proof fn lemma_insert_pos(order: Seq<int>, x: int, le: Before, from: int)
    requires
        0 <= from <= order.len(),
    ensures
        from <= insert_pos(order, x, le, from) <= order.len(),
        forall|a: int| from <= a < insert_pos(order, x, le, from) ==> le(#[trigger] order[a], x),
        insert_pos(order, x, le, from) < order.len() ==> !le(
            order[insert_pos(order, x, le, from)],
            x,
        ),
    decreases order.len() - from,
{
    if from < order.len() && le(order[from], x) {
        lemma_insert_pos(order, x, le, from + 1);
    }
}

/// A stable sort leaves each item in the order once.
pub proof fn lemma_order_is_permutation(n: nat, le: Before)
    ensures
        is_permutation(stable_order(n, le), n),
    decreases n,
{
    if n > 0 {
        let prev = stable_order((n - 1) as nat, le);
        lemma_order_is_permutation((n - 1) as nat, le);
        lemma_insert_pos(prev, n - 1, le, 0);
        let p = insert_pos(prev, n - 1, le, 0);
        let order = prev.insert(p, n - 1);
        assert forall|a: int| 0 <= a < order.len() implies 0 <= #[trigger] order[a] < n by {
            if a < p {
                assert(order[a] == prev[a]);
            } else if a > p {
                assert(order[a] == prev[a - 1]);
            }
        }
        assert forall|a: int, b: int| 0 <= a < b < order.len() implies #[trigger] order[a]
            != #[trigger] order[b] by {
            let pa = if a < p {
                a
            } else {
                a - 1
            };
            let pb = if b < p {
                b
            } else {
                b - 1
            };
            if a != p && b != p {
                assert(order[a] == prev[pa]);
                assert(order[b] == prev[pb]);
            } else if a == p {
                assert(order[b] == prev[pb]);
            } else {
                assert(order[a] == prev[pa]);
            }
        }
    }
}

/// A stable sort leaves the items sorted, and those that tie in the order in
/// which they came.
pub proof fn lemma_order_is_sorted_and_stable(n: nat, le: Before)
    requires
        is_total(le),
        is_transitive(le),
    ensures
        is_sorted(stable_order(n, le), le),
        is_stable(stable_order(n, le), le),
    decreases n,
{
    if n > 0 {
        let prev = stable_order((n - 1) as nat, le);
        lemma_order_is_permutation((n - 1) as nat, le);
        lemma_order_is_sorted_and_stable((n - 1) as nat, le);
        lemma_insert_pos(prev, n - 1, le, 0);
        let p = insert_pos(prev, n - 1, le, 0);
        let x = n - 1;
        let order = prev.insert(p, x);
        assert forall|b: int| p <= b < prev.len() implies le(x, #[trigger] prev[b]) && !le(
            prev[b],
            x,
        ) by {
            assert(!le(prev[p], x));
            if b > p {
                assert(le(prev[p], prev[b]));
            }
            if le(prev[b], x) {
                assert(le(prev[p], prev[b]) && le(prev[b], x));
            }
            assert(le(x, prev[b]) || le(prev[b], x));
        }
        assert forall|a: int, b: int| 0 <= a < b < order.len() implies le(
            #[trigger] order[a],
            #[trigger] order[b],
        ) by {
            let pa = if a < p {
                a
            } else {
                a - 1
            };
            let pb = if b < p {
                b
            } else {
                b - 1
            };
            if a != p && b != p {
                assert(order[a] == prev[pa]);
                assert(order[b] == prev[pb]);
                assert(le(prev[pa], prev[pb]));
            } else if a == p {
                assert(order[b] == prev[pb]);
                assert(le(x, prev[pb]));
            } else {
                assert(order[a] == prev[pa]);
                assert(le(prev[pa], x));
            }
        }
        assert forall|a: int, b: int|
            0 <= a < b < order.len() && le(
                #[trigger] order[b],
                #[trigger] order[a],
            ) implies order[a] < order[b] by {
            let pa = if a < p {
                a
            } else {
                a - 1
            };
            let pb = if b < p {
                b
            } else {
                b - 1
            };
            if a != p && b != p {
                assert(order[a] == prev[pa]);
                assert(order[b] == prev[pb]);
                assert(le(prev[pb], prev[pa]) ==> prev[pa] < prev[pb]);
            } else if a == p {
                assert(order[b] == prev[pb]);
                assert(!le(prev[pb], x));
            } else {
                assert(order[a] == prev[pa]);
                assert(0 <= prev[pa] < n - 1);
            }
        }
    }
}

/// Item `i` stands ahead of item `j`: it may stand before it, and where
/// either may stand before the other, it came first.
pub open spec fn ahead(le: Before, i: int, j: int) -> bool {
    le(i, j) && (!le(j, i) || i < j)
}

/// Each item stands ahead of every item behind it.
pub open spec fn is_strictly_sorted(order: Seq<int>, le: Before) -> bool {
    forall|a: int, b: int|
        0 <= a < b < order.len() ==> ahead(le, #[trigger] order[a], #[trigger] order[b])
}

/// `order` holds items from `lo` up to `hi` only, and each of them.
pub open spec fn covers(order: Seq<int>, lo: int, hi: int) -> bool {
    &&& forall|a: int| 0 <= a < order.len() ==> lo <= #[trigger] order[a] < hi
    &&& forall|x: int| lo <= x < hi ==> order.contains(x)
}

/// A stable sort leaves every item in the order.
pub proof fn lemma_order_covers(n: nat, le: Before)
    ensures
        covers(stable_order(n, le), 0, n as int),
    decreases n,
{
    lemma_order_is_permutation(n, le);
    if n > 0 {
        let prev = stable_order((n - 1) as nat, le);
        lemma_order_covers((n - 1) as nat, le);
        lemma_insert_pos(prev, n - 1, le, 0);
        let p = insert_pos(prev, n - 1, le, 0);
        let order = prev.insert(p, n - 1);
        assert forall|x: int| 0 <= x < n implies order.contains(x) by {
            if x == n - 1 {
                assert(order[p] == x);
            } else {
                assert(prev.contains(x));
                let a = choose|a: int| 0 <= a < prev.len() && prev[a] == x;
                if a < p {
                    assert(order[a] == x);
                } else {
                    assert(order[a + 1] == x);
                }
            }
        }
    }
}

/// There is one way to sort: an order that holds each of the items `0..n`
/// and in which each stands ahead of those behind it is the order in which
/// a stable sort leaves them.
pub proof fn lemma_sorted_order_is_unique(order: Seq<int>, n: nat, le: Before)
    requires
        is_total(le),
        is_transitive(le),
        order.len() == n,
        covers(order, 0, n as int),
        is_strictly_sorted(order, le),
    ensures
        order == stable_order(n, le),
{
    let stable = stable_order(n, le);
    lemma_order_is_permutation(n, le);
    lemma_order_is_sorted_and_stable(n, le);
    lemma_order_covers(n, le);
    assert(is_strictly_sorted(stable, le)) by {
        assert forall|a: int, b: int| 0 <= a < b < stable.len() implies ahead(
            le,
            #[trigger] stable[a],
            #[trigger] stable[b],
        ) by {
            assert(le(stable[a], stable[b]));
        }
    }
    assert forall|k: int| 0 <= k < n implies order[k] == stable[k] by {
        lemma_same_place(order, stable, n, le, k);
    }
    assert(order =~= stable);
}

/// Two orders of the same items, each strictly sorted, agree at every place.
proof fn lemma_same_place(x: Seq<int>, y: Seq<int>, n: nat, le: Before, k: int)
    requires
        x.len() == n,
        y.len() == n,
        covers(x, 0, n as int),
        covers(y, 0, n as int),
        is_strictly_sorted(x, le),
        is_strictly_sorted(y, le),
        0 <= k < n,
    ensures
        x[k] == y[k],
    decreases k,
{
    assert forall|t: int| 0 <= t < k implies x[t] == y[t] by {
        lemma_same_place(x, y, n, le, t);
    }
    assert(0 <= x[k] < n);
    assert(0 <= y[k] < n);
    assert(y.contains(x[k]));
    assert(x.contains(y[k]));
    let m = choose|m: int| 0 <= m < y.len() && y[m] == x[k];
    let p = choose|p: int| 0 <= p < x.len() && x[p] == y[k];
    if m < k {
        assert(x[m] == y[m]);
        assert(ahead(le, x[m], x[k]));
    } else if m > k {
        assert(ahead(le, y[k], y[m]));
        if p < k {
            assert(x[p] == y[p]);
            assert(ahead(le, y[p], y[k]));
        } else if p > k {
            assert(ahead(le, x[k], x[p]));
        }
    }
}

/// Items that can be put in order: one may stand before the other as
/// `before` says, and `precedes` decides it.
pub trait Ranked {
    /// The number of items.
    spec fn count(&self) -> nat;

    /// Which item may stand before which.
    spec fn before(&self) -> Before;

    /// Of any two items one may stand before the other, and an item that
    /// may stand before a second that may stand before a third may stand
    /// before the third.
    proof fn lemma_ranked(&self)
        ensures
            is_total(self.before()),
            is_transitive(self.before()),
    ;

    /// Whether item `i` may stand before item `j`.
    fn precedes(&self, i: usize, j: usize) -> (r: bool)
        requires
            i < self.count(),
            j < self.count(),
        ensures
            r == (self.before())(i as int, j as int),
    ;
}

/// The items of a vector of positions, as numbers.
pub open spec fn positions(order: Seq<usize>) -> Seq<int> {
    Seq::new(order.len(), |k: int| order[k] as int)
}

/// Merges two sorted runs of items into one. Every item of the first run
/// came before every item of the second.
fn merge<R: Ranked>(items: &R, first: &Vec<usize>, second: &Vec<usize>) -> (r: Vec<usize>)
    requires
        is_strictly_sorted(positions(first@), items.before()),
        is_strictly_sorted(positions(second@), items.before()),
        forall|a: int| 0 <= a < first@.len() ==> (#[trigger] first@[a]) < items.count(),
        forall|b: int| 0 <= b < second@.len() ==> (#[trigger] second@[b]) < items.count(),
        forall|a: int, b: int|
            0 <= a < first@.len() && 0 <= b < second@.len() ==> (#[trigger] first@[a]) < (
            #[trigger] second@[b]),
        first@.len() + second@.len() <= usize::MAX,
    ensures
        r@.len() == first@.len() + second@.len(),
        is_strictly_sorted(positions(r@), items.before()),
        forall|x: int|
            positions(r@).contains(x) <==> positions(first@).contains(x) || positions(
                second@,
            ).contains(x),
{
    let ghost le = items.before();
    proof {
        items.lemma_ranked();
    }
    let mut r: Vec<usize> = Vec::new();
    let mut i: usize = 0;
    let mut j: usize = 0;
    let n1 = first.len();
    let n2 = second.len();
    while i < n1 || j < n2
        invariant
            le == items.before(),
            is_total(le),
            is_transitive(le),
            n1 == first@.len(),
            n2 == second@.len(),
            n1 + n2 <= usize::MAX,
            i <= n1,
            j <= n2,
            r@.len() == i + j,
            is_strictly_sorted(positions(first@), le),
            is_strictly_sorted(positions(second@), le),
            forall|a: int| 0 <= a < first@.len() ==> (#[trigger] first@[a]) < items.count(),
            forall|b: int| 0 <= b < second@.len() ==> (#[trigger] second@[b]) < items.count(),
            forall|a: int, b: int|
                0 <= a < first@.len() && 0 <= b < second@.len() ==> (#[trigger] first@[a]) < (
                #[trigger] second@[b]),
            is_strictly_sorted(positions(r@), le),
            forall|k: int, a: int|
                0 <= k < r@.len() && i <= a < n1 ==> ahead(
                    le,
                    #[trigger] positions(r@)[k],
                    #[trigger] positions(first@)[a],
                ),
            forall|k: int, b: int|
                0 <= k < r@.len() && j <= b < n2 ==> ahead(
                    le,
                    #[trigger] positions(r@)[k],
                    #[trigger] positions(second@)[b],
                ),
            forall|x: int|
                positions(r@).contains(x) <==> positions(first@).take(i as int).contains(x)
                    || positions(second@).take(j as int).contains(x),
        decreases (n1 - i) + (n2 - j),
    {
        let ghost before_r = positions(r@);
        let take_first = if i >= n1 {
            false
        } else if j >= n2 {
            true
        } else {
            items.precedes(first[i], second[j])
        };
        if take_first {
            let x = first[i];
            r.push(x);
            proof {
                let now = positions(r@);
                assert(now =~= before_r.push(x as int));
                let f = positions(first@);
                let s = positions(second@);
                assert(f[i as int] == x);
                assert(f.take(i + 1) =~= f.take(i as int).push(x as int));
                assert forall|a: int, b: int| 0 <= a < b < now.len() implies ahead(
                    le,
                    #[trigger] now[a],
                    #[trigger] now[b],
                ) by {
                    if b == now.len() - 1 {
                        assert(now[a] == before_r[a]);
                        assert(ahead(le, before_r[a], f[i as int]));
                    } else {
                        assert(now[a] == before_r[a] && now[b] == before_r[b]);
                    }
                }
                assert forall|k: int, a: int| 0 <= k < now.len() && i + 1 <= a < n1 implies ahead(
                    le,
                    #[trigger] now[k],
                    #[trigger] f[a],
                ) by {
                    if k == now.len() - 1 {
                        assert(ahead(le, f[i as int], f[a]));
                    } else {
                        assert(now[k] == before_r[k]);
                    }
                }
                assert forall|k: int, b: int| 0 <= k < now.len() && j <= b < n2 implies ahead(
                    le,
                    #[trigger] now[k],
                    #[trigger] s[b],
                ) by {
                    if k == now.len() - 1 {
                        assert(first@[i as int] < second@[b]);
                        assert(le(f[i as int], s[j as int]));
                        if b > j {
                            assert(ahead(le, s[j as int], s[b]));
                        }
                    } else {
                        assert(now[k] == before_r[k]);
                    }
                }
                assert forall|y: int|
                    now.contains(y) <==> f.take(i + 1).contains(y) || s.take(j as int).contains(
                        y,
                    ) by {
                    lemma_push_contains(before_r, x as int, y);
                    lemma_push_contains(f.take(i as int), x as int, y);
                }
            }
            i = i + 1;
        } else {
            let x = second[j];
            r.push(x);
            proof {
                let now = positions(r@);
                assert(now =~= before_r.push(x as int));
                let f = positions(first@);
                let s = positions(second@);
                assert(s[j as int] == x);
                assert(s.take(j + 1) =~= s.take(j as int).push(x as int));
                assert forall|a: int, b: int| 0 <= a < b < now.len() implies ahead(
                    le,
                    #[trigger] now[a],
                    #[trigger] now[b],
                ) by {
                    if b == now.len() - 1 {
                        assert(now[a] == before_r[a]);
                        assert(ahead(le, before_r[a], s[j as int]));
                    } else {
                        assert(now[a] == before_r[a] && now[b] == before_r[b]);
                    }
                }
                assert forall|k: int, b: int| 0 <= k < now.len() && j + 1 <= b < n2 implies ahead(
                    le,
                    #[trigger] now[k],
                    #[trigger] s[b],
                ) by {
                    if k == now.len() - 1 {
                        assert(ahead(le, s[j as int], s[b]));
                    } else {
                        assert(now[k] == before_r[k]);
                    }
                }
                assert forall|k: int, a: int| 0 <= k < now.len() && i <= a < n1 implies ahead(
                    le,
                    #[trigger] now[k],
                    #[trigger] f[a],
                ) by {
                    if k == now.len() - 1 {
                        assert(i < n1);
                        assert(!le(f[i as int], s[j as int]));
                        assert(le(s[j as int], f[i as int]) || le(f[i as int], s[j as int]));
                        if a > i {
                            assert(ahead(le, f[i as int], f[a]));
                            assert(le(s[j as int], f[i as int]) && le(f[i as int], f[a]));
                            if le(f[a], s[j as int]) {
                                assert(le(f[i as int], f[a]) && le(f[a], s[j as int]));
                            }
                        }
                    } else {
                        assert(now[k] == before_r[k]);
                    }
                }
                assert forall|y: int|
                    now.contains(y) <==> f.take(i as int).contains(y) || s.take(j + 1).contains(
                        y,
                    ) by {
                    lemma_push_contains(before_r, x as int, y);
                    lemma_push_contains(s.take(j as int), x as int, y);
                }
            }
            j = j + 1;
        }
    }
    proof {
        assert(positions(first@).take(n1 as int) =~= positions(first@));
        assert(positions(second@).take(n2 as int) =~= positions(second@));
    }
    r
}

/// A sequence with one more item holds what it held, and that item.
proof fn lemma_push_contains(s: Seq<int>, x: int, y: int)
    ensures
        s.push(x).contains(y) <==> s.contains(y) || y == x,
{
    if s.push(x).contains(y) {
        let k = choose|k: int| 0 <= k < s.push(x).len() && s.push(x)[k] == y;
        if k < s.len() {
            assert(s[k] == y);
        }
    }
    if s.contains(y) {
        let k = choose|k: int| 0 <= k < s.len() && s[k] == y;
        assert(s.push(x)[k] == y);
    }
    if y == x {
        assert(s.push(x)[s.len() as int] == y);
    }
}

/// Sorts the items from `lo` up to `hi`.
fn sort_range<R: Ranked>(items: &R, lo: usize, hi: usize) -> (r: Vec<usize>)
    requires
        lo <= hi <= items.count(),
    ensures
        r@.len() == hi - lo,
        is_strictly_sorted(positions(r@), items.before()),
        covers(positions(r@), lo as int, hi as int),
    decreases hi - lo,
{
    let mut r: Vec<usize> = Vec::new();
    if hi - lo == 0 {
        r
    } else if hi - lo == 1 {
        r.push(lo);
        assert(positions(r@)[0] == lo);
        r
    } else {
        let mid = lo + (hi - lo) / 2;
        let first = sort_range(items, lo, mid);
        let second = sort_range(items, mid, hi);
        proof {
            assert forall|a: int| 0 <= a < first@.len() implies (#[trigger] first@[a]) < mid by {
                assert(positions(first@)[a] == first@[a]);
            }
            assert forall|b: int| 0 <= b < second@.len() implies mid <= (#[trigger] second@[b])
                < hi by {
                assert(positions(second@)[b] == second@[b]);
            }
        }
        let merged = merge(items, &first, &second);
        proof {
            let m = positions(merged@);
            let f = positions(first@);
            let s = positions(second@);
            assert forall|a: int| 0 <= a < m.len() implies lo <= #[trigger] m[a] < hi by {
                assert(m.contains(m[a]));
                assert(f.contains(m[a]) || s.contains(m[a]));
                if f.contains(m[a]) {
                    let k = choose|k: int| 0 <= k < f.len() && f[k] == m[a];
                    assert(lo <= f[k] < mid);
                } else {
                    let k = choose|k: int| 0 <= k < s.len() && s[k] == m[a];
                    assert(mid <= s[k] < hi);
                }
            }
            assert forall|x: int| lo <= x < hi implies m.contains(x) by {
                if x < mid {
                    assert(f.contains(x));
                } else {
                    assert(s.contains(x));
                }
            }
        }
        merged
    }
}

/// The order in which a stable sort leaves the items.
pub fn stable_sort<R: Ranked>(items: &R, n: usize) -> (order: Vec<usize>)
    requires
        n == items.count(),
    ensures
        order@.len() == n,
        positions(order@) == stable_order(n as nat, items.before()),
        forall|k: int| 0 <= k < n ==> (#[trigger] order@[k]) < n,
{
    let order = sort_range(items, 0, n);
    proof {
        items.lemma_ranked();
        lemma_sorted_order_is_unique(positions(order@), n as nat, items.before());
        assert forall|k: int| 0 <= k < n implies (#[trigger] order@[k]) < n by {
            assert(positions(order@)[k] == order@[k]);
        }
    }
    order
}

} // verus!
