//! Lists of lists of indices: the neighbours of each vertex, the edges around
//! each vertex, the vertices of each plate.

use vstd::prelude::*;
use vstd::seq_lib::seq_to_set_is_finite;
use vstd::set_lib::lemma_set_disjoint_lens;

verus! {

/// Every neighbour that `adjacencies` names is a vertex.
pub open spec fn graph(adjacencies: Seq<Seq<usize>>) -> bool {
    forall|p: int, i: int|
        0 <= p < adjacencies.len() && 0 <= i < adjacencies[p].len() ==> #[trigger] adjacencies[p][i]
            < adjacencies.len()
}

/// Whether every neighbour that `adjacencies` names is a vertex.
pub fn is_graph(adjacencies: &Vec<Vec<usize>>) -> (r: bool)
    ensures
        r == graph(adjacencies.deep_view()),
{
    let n = adjacencies.len();
    let mut p: usize = 0;
    while p < n
        invariant
            n == adjacencies.len(),
            p <= n,
            forall|a: int, i: int|
                0 <= a < p && 0 <= i < adjacencies.deep_view()[a].len()
                    ==> #[trigger] adjacencies.deep_view()[a][i] < n,
        decreases n - p,
    {
        let mut i: usize = 0;
        while i < adjacencies[p].len()
            invariant
                n == adjacencies.len(),
                p < n,
                i <= adjacencies[p as int].len(),
                forall|j: int| 0 <= j < i ==> #[trigger] adjacencies.deep_view()[p as int][j] < n,
            decreases adjacencies[p as int].len() - i,
        {
            if adjacencies[p][i] >= n {
                assert(adjacencies.deep_view()[p as int][i as int] >= n);
                return false;
            }
            i += 1;
        }
        p += 1;
    }
    true
}

/// `i` is a slot of list `k`.
pub open spec fn member(lists: Seq<Seq<usize>>, k: int, i: int) -> bool {
    0 <= k < lists.len() && 0 <= i < lists[k].len()
}

/// Some list holds the index `v`.
pub open spec fn listed(lists: Seq<Seq<usize>>, v: usize) -> bool {
    exists|k: int, i: int| member(lists, k, i) && lists[k][i] == v
}

/// The number of entries of all the lists together.
pub open spec fn total(lists: Seq<Seq<usize>>) -> nat
    decreases lists.len(),
{
    if lists.len() == 0 {
        0
    } else {
        total(lists.drop_last()) + lists.last().len()
    }
}

/// The indices that the first `n` lists hold.
spec fn held(lists: Seq<Seq<usize>>, n: int) -> Set<usize> {
    Set::new(|v: usize| exists|k: int, i: int| k < n && member(lists, k, i) && lists[k][i] == v)
}

/// The indices below `n`.
spec fn below(n: nat) -> Set<usize> {
    Set::new(|v: usize| v < n)
}

proof fn lemma_below(n: nat)
    requires
        n <= usize::MAX + 1,
    ensures
        below(n).finite(),
        below(n).len() == n,
    decreases n,
{
    if n == 0 {
        assert(below(n) =~= Set::empty());
    } else {
        lemma_below((n - 1) as nat);
        assert(below((n - 1) as nat).insert((n - 1) as usize) =~= below(n));
    }
}

proof fn lemma_held(lists: Seq<Seq<usize>>, n: int)
    requires
        0 <= n <= lists.len(),
        forall|k1: int, i1: int, k2: int, i2: int|
            #![trigger member(lists, k1, i1), member(lists, k2, i2)]
            member(lists, k1, i1) && member(lists, k2, i2) && lists[k1][i1] == lists[k2][i2]
                ==> k1 == k2 && i1 == i2,
    ensures
        held(lists, n).finite(),
        held(lists, n).len() == total(lists.take(n)),
    decreases n,
{
    if n == 0 {
        assert(held(lists, n) =~= Set::empty());
        assert(lists.take(0).len() == 0);
    } else {
        lemma_held(lists, n - 1);
        let last = lists[n - 1];
        assert forall|i: int, j: int|
            0 <= i < last.len() && 0 <= j < last.len() && i != j implies last[i] != last[j] by {
            assert(member(lists, n - 1, i) && member(lists, n - 1, j));
        }
        last.unique_seq_to_set();
        seq_to_set_is_finite(last);
        assert forall|v: usize| held(lists, n).contains(v) implies #[trigger] (held(lists, n - 1)
            + last.to_set()).contains(v) by {
            let (k, i) = choose|k: int, i: int| k < n && member(lists, k, i) && lists[k][i] == v;
            if k == n - 1 {
                assert(last[i] == v);
            }
        }
        assert forall|v: usize|
            (held(lists, n - 1) + last.to_set()).contains(v) implies #[trigger] held(
            lists,
            n,
        ).contains(v) by {
            if last.to_set().contains(v) {
                let i = choose|i: int| 0 <= i < last.len() && last[i] == v;
                assert(member(lists, n - 1, i));
            }
        }
        assert(held(lists, n) =~= held(lists, n - 1) + last.to_set());
        assert(held(lists, n - 1).disjoint(last.to_set())) by {
            assert forall|v: usize| held(lists, n - 1).contains(v) implies !last.to_set().contains(
                v,
            ) by {
                let (k, i) = choose|k: int, i: int|
                    k < n - 1 && member(lists, k, i) && lists[k][i] == v;
                if last.to_set().contains(v) {
                    let j = choose|j: int| 0 <= j < last.len() && last[j] == v;
                    assert(member(lists, n - 1, j));
                }
            }
        }
        lemma_set_disjoint_lens(held(lists, n - 1), last.to_set());
        assert(lists.take(n).drop_last() =~= lists.take(n - 1));
        assert(lists.take(n).last() == last);
    }
}

/// Lists that hold every index below `n` once, and nothing else, have `n`
/// entries in all.
pub proof fn lemma_total(lists: Seq<Seq<usize>>, n: nat)
    requires
        n <= usize::MAX + 1,
        forall|v: usize| v < n <==> listed(lists, v),
        forall|k1: int, i1: int, k2: int, i2: int|
            #![trigger member(lists, k1, i1), member(lists, k2, i2)]
            member(lists, k1, i1) && member(lists, k2, i2) && lists[k1][i1] == lists[k2][i2]
                ==> k1 == k2 && i1 == i2,
    ensures
        total(lists) == n,
{
    lemma_held(lists, lists.len() as int);
    lemma_below(n);
    assert(lists.take(lists.len() as int) =~= lists);
    assert forall|v: usize| held(lists, lists.len() as int).contains(v) <==> below(n).contains(
        v,
    ) by {
        if held(lists, lists.len() as int).contains(v) {
            let (k, i) = choose|k: int, i: int|
                k < lists.len() && member(lists, k, i) && lists[k][i] == v;
            assert(listed(lists, v));
        }
        if v < n {
            assert(listed(lists, v));
        }
    }
    assert(held(lists, lists.len() as int) =~= below(n));
}

} // verus!
