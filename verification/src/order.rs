//! Stable ordering of items by a rank, for dumps that list things in order.

use vstd::prelude::*;

verus! {

/// A way to compare items that are known by their positions `0 .. size`.
pub trait Ranking: Sized {
    /// The number of items.
    spec fn size(self) -> nat;

    /// Whether item `i` ranks at or below item `j`.
    spec fn le(self, i: int, j: int) -> bool;

    /// Of two items one ranks at or below the other.
    proof fn lemma_total(self, i: int, j: int)
        requires
            0 <= i < self.size(),
            0 <= j < self.size(),
        ensures
            self.le(i, j) || self.le(j, i),
    ;

    /// Ranking at or below carries over.
    proof fn lemma_transitive(self, i: int, j: int, k: int)
        requires
            0 <= i < self.size(),
            0 <= j < self.size(),
            0 <= k < self.size(),
            self.le(i, j),
            self.le(j, k),
        ensures
            self.le(i, k),
    ;
}

/// Whether `order` lists distinct items below `bound` by rising rank, items
/// of equal rank by rising position.
pub open spec fn is_ordered<R: Ranking>(ranking: R, order: Seq<int>, bound: int) -> bool {
    &&& forall|a: int| 0 <= a < order.len() ==> 0 <= #[trigger] order[a] < bound
    &&& forall|a: int, b: int|
        0 <= a < b < order.len() ==> (#[trigger] order[a]) != (#[trigger] order[b]) && ranking.le(
            order[a],
            order[b],
        ) && (ranking.le(order[b], order[a]) ==> order[a] < order[b])
}

/// Whether `order` lists each of the first `n` items once, by rising rank
/// and items of equal rank by rising position.
pub open spec fn is_stable_order<R: Ranking>(ranking: R, n: nat, order: Seq<int>) -> bool {
    &&& order.len() == n
    &&& is_ordered(ranking, order, n as int)
    &&& forall|i: int| 0 <= i < n ==> order.contains(i)
}

/// `order` with item `i` put behind the last item that ranks at or below it.
pub open spec fn placed<R: Ranking>(ranking: R, order: Seq<int>, i: int) -> Seq<int>
    decreases order.len(),
{
    if order.len() == 0 {
        seq![i]
    } else if ranking.le(order.last(), i) {
        order.push(i)
    } else {
        placed(ranking, order.drop_last(), i).push(order.last())
    }
}

/// The first `n` items in stable order.
pub open spec fn stable_order<R: Ranking>(ranking: R, n: nat) -> Seq<int>
    decreases n,
{
    if n == 0 {
        Seq::empty()
    } else {
        placed(ranking, stable_order(ranking, (n - 1) as nat), n - 1)
    }
}

/// Placing an item into an ordered list of earlier items leaves the list
/// ordered, and adds that item and no other.
pub proof fn lemma_placed<R: Ranking>(ranking: R, order: Seq<int>, i: int)
    requires
        0 <= i < ranking.size(),
        is_ordered(ranking, order, i),
    ensures
        is_ordered(ranking, placed(ranking, order, i), i + 1),
        placed(ranking, order, i).len() == order.len() + 1,
        placed(ranking, order, i).contains(i),
        forall|x: int| order.contains(x) ==> placed(ranking, order, i).contains(x),
        forall|x: int| placed(ranking, order, i).contains(x) ==> order.contains(x) || x == i,
    decreases order.len(),
{
    let result = placed(ranking, order, i);
    if order.len() == 0 {
        assert(result[0] == i);
    } else if ranking.le(order.last(), i) {
        let n = order.len() as int;
        assert(result[n] == i);
        assert forall|x: int| order.contains(x) implies result.contains(x) by {
            let a = choose|a: int| 0 <= a < order.len() && order[a] == x;
            assert(result[a] == x);
        }
        assert forall|a: int, b: int| 0 <= a < b < result.len() implies (#[trigger] result[a])
            != (#[trigger] result[b]) && ranking.le(result[a], result[b]) && (ranking.le(
            result[b],
            result[a],
        ) ==> result[a] < result[b]) by {
            if b < n {
                assert(result[a] == order[a] && result[b] == order[b]);
            } else {
                assert(result[a] == order[a]);
                if a < n - 1 {
                    assert(ranking.le(order[a], order[n - 1]));
                    ranking.lemma_transitive(order[a], order[n - 1], i);
                }
            }
        }
        assert forall|x: int| result.contains(x) implies order.contains(x) || x == i by {
            let a = choose|a: int| 0 <= a < result.len() && result[a] == x;
            if a < n {
                assert(order[a] == x);
            }
        }
    } else {
        let front = order.drop_last();
        let last = order.last();
        let n = order.len() as int;
        assert(forall|a: int| 0 <= a < front.len() ==> front[a] == order[a]);
        assert(is_ordered(ranking, front, i));
        lemma_placed(ranking, front, i);
        let inner = placed(ranking, front, i);
        assert(result == inner.push(last));
        assert(last == order[n - 1]);
        ranking.lemma_total(last, i);
        assert forall|a: int| 0 <= a < result.len() implies 0 <= #[trigger] result[a] < i + 1 by {
            if a < inner.len() {
                assert(result[a] == inner[a]);
            }
        }
        assert forall|a: int, b: int| 0 <= a < b < result.len() implies (#[trigger] result[a])
            != (#[trigger] result[b]) && ranking.le(result[a], result[b]) && (ranking.le(
            result[b],
            result[a],
        ) ==> result[a] < result[b]) by {
            if b < inner.len() {
                assert(result[a] == inner[a] && result[b] == inner[b]);
            } else {
                assert(result[b] == last);
                assert(result[a] == inner[a]);
                assert(inner.contains(inner[a]));
                if inner[a] != i {
                    assert(front.contains(inner[a]));
                    let c = choose|c: int| 0 <= c < front.len() && front[c] == inner[a];
                    assert(order[c] == inner[a]);
                    assert(c < n - 1);
                }
            }
        }
        assert(result[inner.len() as int] == last);
        assert forall|x: int| order.contains(x) implies result.contains(x) by {
            let a = choose|a: int| 0 <= a < order.len() && order[a] == x;
            if a < n - 1 {
                assert(front[a] == x);
                assert(front.contains(x));
                let c = choose|c: int| 0 <= c < inner.len() && inner[c] == x;
                assert(result[c] == x);
            }
        }
        assert(result.contains(i)) by {
            let c = choose|c: int| 0 <= c < inner.len() && inner[c] == i;
            assert(result[c] == i);
        }
        assert forall|x: int| result.contains(x) implies order.contains(x) || x == i by {
            let a = choose|a: int| 0 <= a < result.len() && result[a] == x;
            if a < inner.len() {
                assert(result[a] == inner[a]);
                assert(inner.contains(x));
                if x != i {
                    assert(front.contains(x));
                    let c = choose|c: int| 0 <= c < front.len() && front[c] == x;
                    assert(order[c] == x);
                }
            } else {
                assert(order[n - 1] == x);
            }
        }
    }
}

/// The stable order is what its name says: it lists each item once, by
/// rising rank, and items of equal rank in the order in which they stand.
pub proof fn lemma_stable_order<R: Ranking>(ranking: R, n: nat)
    requires
        n <= ranking.size(),
    ensures
        is_stable_order(ranking, n, stable_order(ranking, n)),
    decreases n,
{
    if n > 0 {
        let before = stable_order(ranking, (n - 1) as nat);
        lemma_stable_order(ranking, (n - 1) as nat);
        lemma_placed(ranking, before, n - 1);
        let order = stable_order(ranking, n);
        assert forall|i: int| 0 <= i < n implies order.contains(i) by {
            if i < n - 1 {
                assert(before.contains(i));
            }
        }
    }
}

/// Items that can be compared when the program runs.
pub trait Ranked {
    type Rank: Ranking;

    /// The ranking that the comparisons follow.
    spec fn ranking(&self) -> Self::Rank;

    fn count(&self) -> (n: usize)
        ensures
            n == self.ranking().size(),
    ;

    fn le(&self, i: usize, j: usize) -> (b: bool)
        requires
            i < self.ranking().size(),
            j < self.ranking().size(),
        ensures
            b == self.ranking().le(i as int, j as int),
    ;
}

/// The positions in `order` as mathematical integers.
pub open spec fn positions(order: Seq<usize>) -> Seq<int> {
    order.map_values(|i: usize| i as int)
}

/// The positions of `items` in stable order.
pub fn stable_order_of<T: Ranked>(items: &T) -> (order: Vec<usize>)
    ensures
        positions(order@) == stable_order(items.ranking(), items.ranking().size()),
        order.len() == items.ranking().size(),
        forall|k: int| 0 <= k < order.len() ==> (#[trigger] order@[k]) < items.ranking().size(),
{
    let n = items.count();
    let mut order: Vec<usize> = Vec::new();
    let mut i: usize = 0;
    assert(positions(order@) =~= stable_order(items.ranking(), 0));
    while i < n
        invariant
            i <= n,
            n == items.ranking().size(),
            order.len() == i,
            positions(order@) == stable_order(items.ranking(), i as nat),
            forall|k: int| 0 <= k < order.len() ==> (#[trigger] order@[k]) < i,
        decreases n - i,
    {
        let ghost before = positions(order@);
        let mut p: usize = order.len();
        proof {
            assert(before.take(p as int) =~= before);
            assert(before + before.skip(p as int) =~= before);
        }
        while p > 0 && !items.le(order[p - 1], i)
            invariant
                p <= order.len(),
                order.len() == i,
                i < n,
                n == items.ranking().size(),
                before == positions(order@),
                forall|k: int| 0 <= k < order.len() ==> (#[trigger] order@[k]) < i,
                placed(items.ranking(), before, i as int) == placed(
                    items.ranking(),
                    before.take(p as int),
                    i as int,
                ) + before.skip(p as int),
            decreases p,
        {
            proof {
                let head = before.take(p as int);
                assert(head.last() == before[p - 1]);
                assert(head.drop_last() =~= before.take(p - 1));
                assert(before.skip(p - 1) =~= seq![before[p - 1]] + before.skip(p as int));
                assert(placed(items.ranking(), head, i as int) == placed(
                    items.ranking(),
                    before.take(p - 1),
                    i as int,
                ).push(before[p - 1]));
                assert(placed(items.ranking(), before.take(p - 1), i as int).push(before[p - 1])
                    + before.skip(p as int) =~= placed(
                    items.ranking(),
                    before.take(p - 1),
                    i as int,
                ) + before.skip(p - 1));
            }
            p -= 1;
        }
        proof {
            let head = before.take(p as int);
            if p > 0 {
                assert(head.last() == before[p - 1]);
            }
            assert(placed(items.ranking(), head, i as int) == head.push(i as int));
        }
        order.insert(p, i);
        proof {
            assert(positions(order@) =~= before.take(p as int).push(i as int) + before.skip(
                p as int,
            ));
        }
        i += 1;
    }
    order
}

} // verus!
