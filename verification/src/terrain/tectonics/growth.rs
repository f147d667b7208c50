//! Region growing: plates spread from their seeds over the mesh.

use vstd::prelude::*;
use rand::rngs::StdRng;
use crate::lists::{graph, listed, member};
use crate::random::pick;

verus! {

/// Vertex `q` is a neighbour of one of the first `upto` vertices of `plate`.
pub open spec fn touches(
    adjacencies: Seq<Seq<usize>>,
    plate: Seq<usize>,
    upto: int,
    q: usize,
) -> bool {
    exists|j: int| 0 <= j < upto && (#[trigger] adjacencies[plate[j] as int]).contains(q)
}

/// The work-list entries that a plate gains when it claims a vertex: one for
/// each neighbour of the vertex, in order, that no plate has claimed.
pub open spec fn frontier(plate: usize, neighbours: Seq<usize>, assigned: Seq<bool>) -> Seq<
    (usize, usize),
>
    decreases neighbours.len(),
{
    if neighbours.len() == 0 {
        Seq::empty()
    } else {
        let rest = frontier(plate, neighbours.drop_last(), assigned);
        if assigned[neighbours.last() as int] {
            rest
        } else {
            rest.push((plate, neighbours.last()))
        }
    }
}

/// What is still to do: for every unclaimed vertex among the first `n`, one
/// more than the number of its neighbours.
pub open spec fn debt(adjacencies: Seq<Seq<usize>>, assigned: Seq<bool>, n: int) -> nat
    decreases n,
{
    if n <= 0 {
        0
    } else {
        debt(adjacencies, assigned, n - 1) + if assigned[n - 1] {
            0
        } else {
            adjacencies[n - 1].len() + 1
        }
    }
}

/// The state of region growing.
pub struct Growth {
    /// The seed of each plate.
    pub seeds: Vec<usize>,
    /// The work-list: pairs of a plate and a vertex that the plate may claim.
    pub queue: Vec<(usize, usize)>,
    /// For each vertex, whether a plate has claimed it.
    pub assigned: Vec<bool>,
    /// For each plate, the vertices it has claimed, in the order of claiming.
    pub plates: Vec<Vec<usize>>,
}

/// The mathematical content of a [`Growth`].
pub struct GrowthView {
    pub seeds: Seq<usize>,
    pub queue: Seq<(usize, usize)>,
    pub assigned: Seq<bool>,
    pub plates: Seq<Seq<usize>>,
}

impl View for Growth {
    type V = GrowthView;

    open spec fn view(&self) -> GrowthView {
        GrowthView {
            seeds: self.seeds@,
            queue: self.queue@,
            assigned: self.assigned@,
            plates: self.plates.deep_view(),
        }
    }
}

impl GrowthView {
    /// Some entry of the work-list names vertex `v`.
    pub open spec fn queued(self, v: usize) -> bool {
        exists|i: int| 0 <= i < self.queue.len() && (#[trigger] self.queue[i]).1 == v
    }

    /// Vertex `v` is claimed already or waits in the work-list.
    pub open spec fn settled(self, v: usize) -> bool {
        self.assigned[v as int] || self.queued(v)
    }

    /// A work-list entry is justified: an empty plate waits for its seed only,
    /// any other plate for neighbours of its vertices.
    pub open spec fn entry(self, adjacencies: Seq<Seq<usize>>, e: (usize, usize)) -> bool {
        &&& e.0 < self.plates.len()
        &&& e.1 < adjacencies.len()
        &&& if self.plates[e.0 as int].len() == 0 {
            e.1 == self.seeds[e.0 as int]
        } else {
            self.assigned[e.1 as int] || touches(
                adjacencies,
                self.plates[e.0 as int],
                self.plates[e.0 as int].len() as int,
                e.1,
            )
        }
    }

    /// The invariant of region growing over the graph `adjacencies`.
    pub open spec fn wf(self, adjacencies: Seq<Seq<usize>>) -> bool {
        &&& graph(adjacencies)
        &&& self.assigned.len() == adjacencies.len()
        &&& self.plates.len() == self.seeds.len()
        &&& forall|k: int|
            0 <= k < self.seeds.len() ==> #[trigger] self.seeds[k] < adjacencies.len()
        &&& forall|i: int|
            0 <= i < self.queue.len() ==> self.entry(adjacencies, #[trigger] self.queue[i])
        &&& forall|k: int, i: int| #[trigger]
            member(self.plates, k, i) ==> self.plates[k][i] < adjacencies.len()
                && self.assigned[self.plates[k][i] as int]
        &&& forall|k1: int, i1: int, k2: int, i2: int|
            #![trigger member(self.plates, k1, i1), member(self.plates, k2, i2)]
            member(self.plates, k1, i1) && member(self.plates, k2, i2) && self.plates[k1][i1]
                == self.plates[k2][i2] ==> k1 == k2 && i1 == i2
        &&& forall|v: usize|
            v < adjacencies.len() && #[trigger] self.assigned[v as int] ==> listed(self.plates, v)
        &&& forall|k: int|
            0 <= k < self.plates.len() && (#[trigger] self.plates[k]).len() > 0
                ==> self.plates[k][0] == self.seeds[k]
        &&& forall|k: int, i: int| #[trigger]
            member(self.plates, k, i) && i > 0 ==> touches(
                adjacencies,
                self.plates[k],
                i,
                self.plates[k][i],
            )
        &&& forall|k: int| 0 <= k < self.seeds.len() ==> self.settled(#[trigger] self.seeds[k])
        &&& forall|p: int, i: int|
            0 <= p < adjacencies.len() && self.assigned[p] && 0 <= i < adjacencies[p].len()
                ==> self.settled(#[trigger] adjacencies[p][i])
    }

    /// A bound on the number of steps that growing can still take.
    pub open spec fn fuel(self, adjacencies: Seq<Seq<usize>>) -> nat {
        self.queue.len() + debt(adjacencies, self.assigned, adjacencies.len() as int)
    }

    /// The state after the work-list entry at position `k` has been taken.
    ///
    /// The entry leaves the list and the last entry takes its place. If its
    /// vertex is unclaimed, the entry's plate claims it, and every unclaimed
    /// neighbour of the vertex joins the list for that plate.
    pub open spec fn step(self, adjacencies: Seq<Seq<usize>>, k: int) -> GrowthView {
        let (plate, p) = self.queue[k];
        let rest = self.queue.update(k, self.queue.last()).drop_last();
        if self.assigned[p as int] {
            GrowthView { queue: rest, ..self }
        } else {
            let assigned = self.assigned.update(p as int, true);
            GrowthView {
                seeds: self.seeds,
                queue: rest + frontier(plate, adjacencies[p as int], assigned),
                assigned,
                plates: self.plates.update(plate as int, self.plates[plate as int].push(p)),
            }
        }
    }
}

/// The frontier of a vertex holds exactly its unclaimed neighbours.
pub proof fn lemma_frontier(plate: usize, neighbours: Seq<usize>, assigned: Seq<bool>)
    ensures
        frontier(plate, neighbours, assigned).len() <= neighbours.len(),
        forall|i: int|
            0 <= i < neighbours.len() ==> assigned[(#[trigger] neighbours[i]) as int] || frontier(
                plate,
                neighbours,
                assigned,
            ).contains((plate, neighbours[i])),
        forall|j: int|
            0 <= j < frontier(plate, neighbours, assigned).len() ==> {
                let e = #[trigger] frontier(plate, neighbours, assigned)[j];
                e.0 == plate && neighbours.contains(e.1) && !assigned[e.1 as int]
            },
    decreases neighbours.len(),
{
    let f = frontier(plate, neighbours, assigned);
    if neighbours.len() > 0 {
        let init = neighbours.drop_last();
        let rest = frontier(plate, init, assigned);
        lemma_frontier(plate, init, assigned);
        assert forall|i: int| 0 <= i < neighbours.len() implies assigned[(
        #[trigger] neighbours[i]) as int] || f.contains((plate, neighbours[i])) by {
            if i < init.len() {
                assert(init[i] == neighbours[i]);
                if !assigned[neighbours[i] as int] {
                    let j = choose|j: int| 0 <= j < rest.len() && rest[j] == (plate, init[i]);
                    assert(f[j] == (plate, neighbours[i]));
                }
            } else if !assigned[neighbours[i] as int] {
                assert(f[f.len() - 1] == (plate, neighbours[i]));
            }
        }
        assert forall|j: int| 0 <= j < f.len() implies ({
            let e = #[trigger] f[j];
            e.0 == plate && neighbours.contains(e.1) && !assigned[e.1 as int]
        }) by {
            if j < rest.len() {
                let e = rest[j];
                assert(f[j] == e);
                let i = choose|i: int| 0 <= i < init.len() && init[i] == e.1;
                assert(neighbours[i] == e.1);
            } else {
                assert(neighbours[neighbours.len() - 1] == f[j].1);
            }
        }
    }
}

/// Claiming a vertex pays off its share of the debt.
pub proof fn lemma_debt(adjacencies: Seq<Seq<usize>>, assigned: Seq<bool>, p: int, n: int)
    requires
        0 <= p < assigned.len(),
        !assigned[p],
        0 <= n <= assigned.len(),
    ensures
        debt(adjacencies, assigned, n) == debt(adjacencies, assigned.update(p, true), n) + if p
            < n {
            adjacencies[p].len() + 1
        } else {
            0
        },
    decreases n,
{
    if n > 0 {
        lemma_debt(adjacencies, assigned, p, n - 1);
    }
}

/// Dropping a taken entry keeps every other entry in the work-list.
proof fn lemma_rest(queue: Seq<(usize, usize)>, k: int)
    requires
        0 <= k < queue.len(),
    ensures
        forall|i: int|
            0 <= i < queue.len() && i != k ==> queue.update(k, queue.last()).drop_last().contains(
                #[trigger] queue[i],
            ),
        forall|j: int|
            0 <= j < queue.len() - 1 ==> queue.contains(
                #[trigger] queue.update(k, queue.last()).drop_last()[j],
            ),
{
    let rest = queue.update(k, queue.last()).drop_last();
    assert forall|i: int| 0 <= i < queue.len() && i != k implies rest.contains(
        #[trigger] queue[i],
    ) by {
        if i == queue.len() - 1 {
            assert(rest[k] == queue[i]);
        } else {
            assert(rest[i] == queue[i]);
        }
    }
    assert forall|j: int| 0 <= j < queue.len() - 1 implies queue.contains(#[trigger] rest[j]) by {
        if j == k {
            assert(queue[queue.len() - 1] == rest[j]);
        } else {
            assert(queue[j] == rest[j]);
        }
    }
}

/// Taking an entry whose vertex is claimed already keeps the invariant.
proof fn lemma_step_skip(g: GrowthView, adjacencies: Seq<Seq<usize>>, k: int)
    requires
        g.wf(adjacencies),
        0 <= k < g.queue.len(),
        g.assigned[g.queue[k].1 as int],
    ensures
        g.step(adjacencies, k).wf(adjacencies),
        g.step(adjacencies, k).fuel(adjacencies) < g.fuel(adjacencies),
{
    let h = g.step(adjacencies, k);
    lemma_rest(g.queue, k);
    assert forall|i: int| 0 <= i < h.queue.len() implies h.entry(
        adjacencies,
        #[trigger] h.queue[i],
    ) by {
        let e = h.queue[i];
        assert(g.queue.contains(e));
        let j = choose|j: int| 0 <= j < g.queue.len() && g.queue[j] == e;
        assert(g.entry(adjacencies, g.queue[j]));
        if g.plates[e.0 as int].len() > 0 && !g.assigned[e.1 as int] {
            let w = choose|w: int|
                0 <= w < g.plates[e.0 as int].len() && (
                #[trigger] adjacencies[g.plates[e.0 as int][w] as int]).contains(e.1);
            assert(adjacencies[h.plates[e.0 as int][w] as int].contains(e.1));
        }
    }
    assert forall|v: usize| v < adjacencies.len() && g.settled(v) implies h.settled(v) by {
        if !g.assigned[v as int] {
            let i = choose|i: int| 0 <= i < g.queue.len() && (#[trigger] g.queue[i]).1 == v;
            assert(i != k);
            assert(h.queue.contains(g.queue[i]));
            let j = choose|j: int| 0 <= j < h.queue.len() && h.queue[j] == g.queue[i];
            assert(h.queue[j].1 == v);
        }
    }
    assert forall|k1: int, i1: int| #[trigger] member(h.plates, k1, i1) implies member(
        g.plates,
        k1,
        i1,
    ) by {}
    assert forall|v: usize|
        v < adjacencies.len() && #[trigger] h.assigned[v as int] implies listed(h.plates, v) by {
        assert(listed(g.plates, v));
        let (a, b) = choose|a: int, b: int| member(g.plates, a, b) && g.plates[a][b] == v;
        assert(member(h.plates, a, b));
    }
    assert forall|a: int, i: int| #[trigger] member(h.plates, a, i) && i > 0 implies touches(
        adjacencies,
        h.plates[a],
        i,
        h.plates[a][i],
    ) by {
        assert(member(g.plates, a, i));
        assert(touches(adjacencies, g.plates[a], i, g.plates[a][i]));
        let j = choose|j: int|
            0 <= j < i && (#[trigger] adjacencies[g.plates[a][j] as int]).contains(g.plates[a][i]);
        assert(adjacencies[h.plates[a][j] as int].contains(h.plates[a][i]));
    }
    assert forall|a: int| 0 <= a < h.seeds.len() implies h.settled(#[trigger] h.seeds[a]) by {
        assert(g.settled(g.seeds[a]));
    }
    assert forall|q: int, i: int|
        0 <= q < adjacencies.len() && h.assigned[q] && 0 <= i
            < adjacencies[q].len() implies h.settled(#[trigger] adjacencies[q][i]) by {
        assert(g.settled(adjacencies[q][i]));
    }
}

/// Taking an entry whose vertex is unclaimed keeps the invariant.
proof fn lemma_step_claim(g: GrowthView, adjacencies: Seq<Seq<usize>>, k: int)
    requires
        g.wf(adjacencies),
        0 <= k < g.queue.len(),
        !g.assigned[g.queue[k].1 as int],
    ensures
        g.step(adjacencies, k).wf(adjacencies),
        g.step(adjacencies, k).fuel(adjacencies) < g.fuel(adjacencies),
{
    let h = g.step(adjacencies, k);
    let (plate, p) = g.queue[k];
    let rest = g.queue.update(k, g.queue.last()).drop_last();
    let added = frontier(plate, adjacencies[p as int], h.assigned);
    let old_len = g.plates[plate as int].len() as int;
    lemma_rest(g.queue, k);
    lemma_frontier(plate, adjacencies[p as int], h.assigned);
    lemma_debt(adjacencies, g.assigned, p as int, adjacencies.len() as int);
    assert(g.entry(adjacencies, g.queue[k]));
    assert(h.plates[plate as int][old_len] == p);
    assert(adjacencies[h.plates[plate as int][old_len] as int] == adjacencies[p as int]);

    assert forall|a: int, i: int| #[trigger] member(h.plates, a, i) implies (member(g.plates, a, i)
        && h.plates[a][i] == g.plates[a][i]) || (a == plate && i == old_len && h.plates[a][i]
        == p) by {}
    assert forall|a: int, i: int| #[trigger] member(g.plates, a, i) implies member(h.plates, a, i)
        && h.plates[a][i] == g.plates[a][i] by {}

    assert forall|a: int, upto: int, q: usize|
        0 <= a < g.plates.len() && upto <= g.plates[a].len() && touches(
            adjacencies,
            g.plates[a],
            upto,
            q,
        ) implies #[trigger] touches(adjacencies, h.plates[a], upto, q) by {
        let j = choose|j: int|
            0 <= j < upto && (#[trigger] adjacencies[g.plates[a][j] as int]).contains(q);
        assert(member(g.plates, a, j));
        assert(adjacencies[h.plates[a][j] as int].contains(q));
    }
    assert forall|a: int, upto: int, q: usize|
        touches(adjacencies, h.plates[a], upto, q) implies #[trigger] touches(
        adjacencies,
        h.plates[a],
        upto + 1,
        q,
    ) by {
        let j = choose|j: int|
            0 <= j < upto && (#[trigger] adjacencies[h.plates[a][j] as int]).contains(q);
        assert(0 <= j < upto + 1);
    }

    assert forall|i: int| 0 <= i < h.queue.len() implies h.entry(
        adjacencies,
        #[trigger] h.queue[i],
    ) by {
        let e = h.queue[i];
        if i < rest.len() {
            assert(e == rest[i]);
            assert(g.queue.contains(e));
            let j = choose|j: int| 0 <= j < g.queue.len() && g.queue[j] == e;
            assert(g.entry(adjacencies, g.queue[j]));
            if e.0 == plate {
                if old_len > 0 && !g.assigned[e.1 as int] {
                    assert(touches(adjacencies, g.plates[plate as int], old_len, e.1));
                    assert(touches(adjacencies, h.plates[plate as int], old_len, e.1));
                    assert(touches(adjacencies, h.plates[plate as int], old_len + 1, e.1));
                }
            } else {
                if g.plates[e.0 as int].len() > 0 && !g.assigned[e.1 as int] {
                    assert(touches(
                        adjacencies,
                        h.plates[e.0 as int],
                        g.plates[e.0 as int].len() as int,
                        e.1,
                    ));
                }
            }
        } else {
            assert(e == added[i - rest.len()]);
            assert(adjacencies[p as int].contains(e.1));
            let w = choose|w: int|
                0 <= w < adjacencies[p as int].len() && adjacencies[p as int][w] == e.1;
            assert(adjacencies[p as int][w] < adjacencies.len());
            assert(adjacencies[h.plates[plate as int][old_len] as int].contains(e.1));
        }
    }
    assert forall|v: usize| v < adjacencies.len() && g.settled(v) implies h.settled(v) by {
        if !h.assigned[v as int] {
            assert(v != p);
            let i = choose|i: int| 0 <= i < g.queue.len() && (#[trigger] g.queue[i]).1 == v;
            assert(i != k);
            assert(rest.contains(g.queue[i]));
            let j = choose|j: int| 0 <= j < rest.len() && rest[j] == g.queue[i];
            assert(h.queue[j].1 == v);
        }
    }
    assert forall|v: usize|
        v < adjacencies.len() && #[trigger] h.assigned[v as int] implies listed(h.plates, v) by {
        if v == p {
            assert(member(h.plates, plate as int, old_len));
        } else {
            assert(listed(g.plates, v));
            let (a, b) = choose|a: int, b: int| member(g.plates, a, b) && g.plates[a][b] == v;
            assert(member(h.plates, a, b));
        }
    }
    assert forall|a: int, i: int| #[trigger] member(h.plates, a, i) && i > 0 implies touches(
        adjacencies,
        h.plates[a],
        i,
        h.plates[a][i],
    ) by {
        if member(g.plates, a, i) {
            assert(touches(adjacencies, g.plates[a], i, g.plates[a][i]));
        } else {
            assert(touches(adjacencies, g.plates[plate as int], old_len, p));
        }
    }
    assert forall|a: int| 0 <= a < h.seeds.len() implies h.settled(#[trigger] h.seeds[a]) by {
        assert(g.settled(g.seeds[a]));
    }
    assert forall|q: int, i: int|
        0 <= q < adjacencies.len() && h.assigned[q] && 0 <= i
            < adjacencies[q].len() implies h.settled(#[trigger] adjacencies[q][i]) by {
        let x = adjacencies[q][i];
        if q == p {
            if !h.assigned[x as int] {
                assert(added.contains((plate, x)));
                let j = choose|j: int| 0 <= j < added.len() && added[j] == (plate, x);
                assert(h.queue[rest.len() + j].1 == x);
            }
        } else {
            assert(g.settled(x));
        }
    }
    assert forall|k1: int, i1: int, k2: int, i2: int|
        #![trigger member(h.plates, k1, i1), member(h.plates, k2, i2)]
        member(h.plates, k1, i1) && member(h.plates, k2, i2) && h.plates[k1][i1]
            == h.plates[k2][i2] implies k1 == k2 && i1 == i2 by {
        if member(g.plates, k1, i1) && member(g.plates, k2, i2) {
        } else if member(g.plates, k1, i1) {
            assert(g.assigned[g.plates[k1][i1] as int]);
        } else if member(g.plates, k2, i2) {
            assert(g.assigned[g.plates[k2][i2] as int]);
        }
    }
    assert forall|a: int|
        0 <= a < h.plates.len() && (#[trigger] h.plates[a]).len() > 0 implies h.plates[a][0]
        == h.seeds[a] by {
        if a == plate && old_len == 0 {
        } else {
            assert(g.plates[a].len() > 0);
        }
    }
}

/// Every step of region growing keeps the invariant and uses up fuel.
pub proof fn lemma_step(g: GrowthView, adjacencies: Seq<Seq<usize>>, k: int)
    requires
        g.wf(adjacencies),
        0 <= k < g.queue.len(),
    ensures
        g.step(adjacencies, k).wf(adjacencies),
        g.step(adjacencies, k).fuel(adjacencies) < g.fuel(adjacencies),
{
    if g.assigned[g.queue[k].1 as int] {
        lemma_step_skip(g, adjacencies, k);
    } else {
        lemma_step_claim(g, adjacencies, k);
    }
}

/// `walk` starts at a seed and follows edges of the graph.
pub open spec fn path(adjacencies: Seq<Seq<usize>>, seeds: Seq<usize>, walk: Seq<usize>) -> bool {
    &&& walk.len() > 0
    &&& seeds.contains(walk[0])
    &&& forall|i: int|
        0 <= i < walk.len() - 1 ==> (#[trigger] walk[i]) < adjacencies.len()
            && adjacencies[walk[i] as int].contains(walk[i + 1])
}

/// Some walk leads from a seed to vertex `v`.
pub open spec fn reachable(adjacencies: Seq<Seq<usize>>, seeds: Seq<usize>, v: usize) -> bool {
    exists|walk: Seq<usize>| path(adjacencies, seeds, walk) && walk.last() == v
}

/// What holds of the plates that region growing leaves, whatever the order in
/// which the work-list was emptied.
///
/// There is one plate for each seed. No vertex is claimed twice, and the
/// claimed vertices are those that a walk from a seed reaches. A plate that
/// claimed anything claimed its own seed first, and every later vertex is a
/// neighbour of one that the plate claimed before.
pub open spec fn grown(
    plates: Seq<Seq<usize>>,
    adjacencies: Seq<Seq<usize>>,
    seeds: Seq<usize>,
) -> bool {
    &&& plates.len() == seeds.len()
    &&& forall|k: int, i: int| #[trigger] member(plates, k, i) ==> plates[k][i] < adjacencies.len()
    &&& forall|k1: int, i1: int, k2: int, i2: int|
        #![trigger member(plates, k1, i1), member(plates, k2, i2)]
        member(plates, k1, i1) && member(plates, k2, i2) && plates[k1][i1] == plates[k2][i2] ==> k1
            == k2 && i1 == i2
    &&& forall|v: usize| listed(plates, v) <==> reachable(adjacencies, seeds, v)
    &&& forall|k: int|
        0 <= k < plates.len() && (#[trigger] plates[k]).len() > 0 ==> plates[k][0] == seeds[k]
    &&& forall|k: int, i: int| #[trigger]
        member(plates, k, i) && i > 0 ==> touches(adjacencies, plates[k], i, plates[k][i])
}

/// A vertex that a plate holds can be reached from the plate's seed.
proof fn lemma_member_reachable(g: GrowthView, adjacencies: Seq<Seq<usize>>, k: int, i: int)
    requires
        g.wf(adjacencies),
        member(g.plates, k, i),
    ensures
        reachable(adjacencies, g.seeds, g.plates[k][i]),
    decreases i,
{
    let v = g.plates[k][i];
    if i == 0 {
        let walk = seq![v];
        assert(g.seeds[k] == walk[0]);
        assert(path(adjacencies, g.seeds, walk) && walk.last() == v);
    } else {
        assert(touches(adjacencies, g.plates[k], i, v));
        let j = choose|j: int|
            0 <= j < i && (#[trigger] adjacencies[g.plates[k][j] as int]).contains(v);
        lemma_member_reachable(g, adjacencies, k, j);
        let u = g.plates[k][j];
        assert(member(g.plates, k, j));
        let before = choose|walk: Seq<usize>| path(adjacencies, g.seeds, walk) && walk.last() == u;
        let walk = before.push(v);
        assert(walk[0] == before[0]);
        assert forall|n: int| 0 <= n < walk.len() - 1 implies (#[trigger] walk[n])
            < adjacencies.len() && adjacencies[walk[n] as int].contains(walk[n + 1]) by {
            if n < before.len() - 1 {
                assert(walk[n] == before[n] && walk[n + 1] == before[n + 1]);
            }
        }
        assert(path(adjacencies, g.seeds, walk) && walk.last() == v);
    }
}

/// Once the work-list is empty, every vertex on a walk from a seed is claimed.
proof fn lemma_walk_assigned(g: GrowthView, adjacencies: Seq<Seq<usize>>, walk: Seq<usize>)
    requires
        g.wf(adjacencies),
        g.queue.len() == 0,
        path(adjacencies, g.seeds, walk),
    ensures
        walk.last() < adjacencies.len(),
        g.assigned[walk.last() as int],
    decreases walk.len(),
{
    if walk.len() == 1 {
        let k = choose|k: int| 0 <= k < g.seeds.len() && g.seeds[k] == walk[0];
        assert(g.settled(g.seeds[k]));
    } else {
        let before = walk.drop_last();
        assert(before[0] == walk[0]);
        assert forall|n: int| 0 <= n < before.len() - 1 implies (#[trigger] before[n])
            < adjacencies.len() && adjacencies[before[n] as int].contains(before[n + 1]) by {
            assert(before[n] == walk[n] && before[n + 1] == walk[n + 1]);
        }
        lemma_walk_assigned(g, adjacencies, before);
        let u = walk[walk.len() - 2];
        assert(u == before.last());
        assert(adjacencies[u as int].contains(walk[walk.len() - 2 + 1]));
        let i = choose|i: int|
            0 <= i < adjacencies[u as int].len() && adjacencies[u as int][i] == walk.last();
        assert(g.settled(adjacencies[u as int][i]));
    }
}

/// When the work-list is empty the plates are grown.
pub proof fn lemma_finished(g: GrowthView, adjacencies: Seq<Seq<usize>>)
    requires
        g.wf(adjacencies),
        g.queue.len() == 0,
    ensures
        grown(g.plates, adjacencies, g.seeds),
{
    assert forall|v: usize| listed(g.plates, v) <==> reachable(adjacencies, g.seeds, v) by {
        if listed(g.plates, v) {
            let (k, i) = choose|k: int, i: int| member(g.plates, k, i) && g.plates[k][i] == v;
            lemma_member_reachable(g, adjacencies, k, i);
        }
        if reachable(adjacencies, g.seeds, v) {
            let walk = choose|walk: Seq<usize>|
                path(adjacencies, g.seeds, walk) && walk.last() == v;
            lemma_walk_assigned(g, adjacencies, walk);
        }
    }
}

impl Growth {
    /// The state before the first step: nothing is claimed, and each plate
    /// waits for its seed.
    pub open spec fn initial(order: nat, seeds: Seq<usize>) -> GrowthView {
        GrowthView {
            seeds,
            queue: Seq::new(seeds.len(), |k: int| (k as usize, seeds[k])),
            assigned: Seq::new(order, |v: int| false),
            plates: Seq::new(seeds.len(), |k: int| Seq::empty()),
        }
    }

    /// Starts region growing over the graph `adjacencies` from `seeds`.
    pub fn new(adjacencies: &Vec<Vec<usize>>, seeds: Vec<usize>) -> (growth: Growth)
        requires
            graph(adjacencies.deep_view()),
            forall|k: int| 0 <= k < seeds.len() ==> #[trigger] seeds[k] < adjacencies.len(),
        ensures
            growth@ == Self::initial(adjacencies@.len(), seeds@),
            growth@.wf(adjacencies.deep_view()),
    {
        let mut queue: Vec<(usize, usize)> = Vec::new();
        let mut plates: Vec<Vec<usize>> = Vec::new();
        let mut k: usize = 0;
        while k < seeds.len()
            invariant
                k <= seeds.len(),
                queue@ == Seq::new(k as nat, |j: int| (j as usize, seeds@[j])),
                plates@.len() == k,
                plates.deep_view() == Seq::new(k as nat, |j: int| Seq::<usize>::empty()),
            decreases seeds.len() - k,
        {
            let ghost before = plates.deep_view();
            queue.push((k, seeds[k]));
            plates.push(Vec::new());
            k += 1;
            proof {
                let after = plates.deep_view();
                assert forall|j: int| 0 <= j < k implies #[trigger] after[j] =~= Seq::empty() by {
                    if j < k - 1 {
                        assert(after[j] == before[j]);
                    }
                }
                assert(after =~= Seq::new(k as nat, |j: int| Seq::<usize>::empty()));
            }
        }
        let mut assigned: Vec<bool> = Vec::new();
        let mut v: usize = 0;
        while v < adjacencies.len()
            invariant
                v <= adjacencies.len(),
                assigned@ == Seq::new(v as nat, |j: int| false),
            decreases adjacencies.len() - v,
        {
            assigned.push(false);
            v += 1;
        }
        let growth = Growth { seeds, queue, assigned, plates };
        proof {
            let g = growth@;
            let adj = adjacencies.deep_view();
            assert(g == Self::initial(adjacencies@.len(), seeds@));
            assert forall|a: int| 0 <= a < g.seeds.len() implies g.settled(
                #[trigger] g.seeds[a],
            ) by {
                assert(g.queue[a].1 == g.seeds[a]);
            }
        }
        growth
    }

    /// Takes the work-list entry at position `k`.
    pub fn step(&mut self, adjacencies: &Vec<Vec<usize>>, k: usize)
        requires
            old(self)@.wf(adjacencies.deep_view()),
            k < old(self).queue.len(),
        ensures
            final(self)@ == old(self)@.step(adjacencies.deep_view(), k as int),
            final(self)@.wf(adjacencies.deep_view()),
            final(self)@.fuel(adjacencies.deep_view()) < old(self)@.fuel(adjacencies.deep_view()),
    {
        let ghost before = self@;
        let ghost adj = adjacencies.deep_view();
        proof {
            lemma_step(before, adj, k as int);
            assert(before.entry(adj, before.queue[k as int]));
        }
        let (plate, p) = self.queue.swap_remove(k);
        if !self.assigned[p] {
            self.assigned[p] = true;
            self.plates[plate].push(p);
            let ghost rest = self.queue@;
            let ghost assigned = self.assigned@;
            assert(self.plates.deep_view() =~~= before.plates.update(
                plate as int,
                before.plates[plate as int].push(p),
            ));
            let mut i: usize = 0;
            while i < adjacencies[p].len()
                invariant
                    p < adjacencies.len(),
                    adj == adjacencies.deep_view(),
                    graph(adj),
                    i <= adjacencies[p as int].len(),
                    self.assigned@ == assigned,
                    assigned.len() == adj.len(),
                    self.seeds == old(self).seeds,
                    self.plates.deep_view() == before.plates.update(
                        plate as int,
                        before.plates[plate as int].push(p),
                    ),
                    self.queue@ == rest + frontier(plate, adj[p as int].take(i as int), assigned),
                decreases adjacencies[p as int].len() - i,
            {
                let q = adjacencies[p][i];
                proof {
                    let taken = adj[p as int].take(i + 1);
                    assert(taken.drop_last() == adj[p as int].take(i as int));
                    assert(taken.last() == q);
                }
                if !self.assigned[q] {
                    self.queue.push((plate, q));
                }
                i += 1;
            }
            assert(adj[p as int].take(i as int) == adj[p as int]);
        }
    }
}

/// Grows one plate from each seed until no vertex within reach is unclaimed.
///
/// The work-list starts with the seeds. Again and again an entry at a random
/// position is taken from it; if the entry's vertex is unclaimed, the entry's
/// plate claims it and the vertex's unclaimed neighbours join the list.
pub fn grow(adjacencies: &Vec<Vec<usize>>, seeds: Vec<usize>, rng: &mut StdRng) -> (plates: Vec<
    Vec<usize>,
>)
    requires
        graph(adjacencies.deep_view()),
        forall|k: int| 0 <= k < seeds.len() ==> #[trigger] seeds[k] < adjacencies.len(),
    ensures
        grown(plates.deep_view(), adjacencies.deep_view(), seeds@),
{
    let ghost start = seeds@;
    let mut growth = Growth::new(adjacencies, seeds);
    while growth.queue.len() > 0
        invariant
            growth@.wf(adjacencies.deep_view()),
            growth@.seeds == start,
        decreases growth@.fuel(adjacencies.deep_view()),
    {
        let k = pick(rng, growth.queue.len());
        growth.step(adjacencies, k);
    }
    proof {
        lemma_finished(growth@, adjacencies.deep_view());
    }
    growth.plates
}

} // verus!
