//! The topology of the mesh: triangles, directed edges, and for each vertex
//! the edges that leave it and the neighbours that they reach.

use vstd::prelude::*;
use crate::lists::{graph, lemma_total, listed, member, total};

verus! {

/// The corner that follows corner `e` in its triangle.
pub open spec fn next(e: int) -> int {
    if e % 3 == 2 {
        e - 2
    } else {
        e + 1
    }
}

/// The corner that precedes corner `e` in its triangle.
pub open spec fn prev(e: int) -> int {
    if e % 3 == 0 {
        e + 2
    } else {
        e - 1
    }
}

/// A mesh of triangles over a set of vertices.
///
/// Triangle `t` has the corners `3t`, `3t + 1` and `3t + 2`. Each corner `e`
/// also names a directed edge: the side of the triangle that runs from the
/// vertex at `e` to the vertex at the next corner.
pub struct Triangulation {
    /// The number of vertices.
    pub num_points: usize,
    /// For each corner, the vertex that lies there.
    pub triangles: Vec<usize>,
    /// For each directed edge, its twin: the edge that joins the same two
    /// vertices in the opposite direction.
    pub half_edges: Vec<usize>,
}

impl Triangulation {
    /// The number of corners, which is also the number of directed edges.
    pub open spec fn corners(&self) -> int {
        self.triangles@.len() as int
    }

    /// The vertex that the directed edge `e` leaves.
    pub open spec fn source(&self, e: int) -> int {
        self.triangles@[e] as int
    }

    /// The vertex that the directed edge `e` reaches.
    pub open spec fn target(&self, e: int) -> int {
        self.triangles@[next(e)] as int
    }

    /// The twin of the directed edge `e`.
    pub open spec fn twin(&self, e: int) -> int {
        self.half_edges@[e] as int
    }

    /// The edge that follows `e` around the vertex that `e` leaves: the twin
    /// of the edge that reaches that vertex in the triangle of `e`.
    pub open spec fn turn(&self, e: int) -> int {
        self.twin(prev(e))
    }

    /// The corners come in threes, every index is in range, and every edge
    /// joins two different vertices.
    pub open spec fn indexed(&self) -> bool {
        &&& self.corners() % 3 == 0
        &&& self.half_edges@.len() == self.corners()
        &&& forall|e: int|
            0 <= e < self.corners() ==> #[trigger] self.source(e) != self.target(e)
        &&& forall|e: int|
            0 <= e < self.corners() ==> #[trigger] self.triangles@[e] < self.num_points
        &&& forall|e: int|
            0 <= e < self.corners() ==> #[trigger] self.half_edges@[e] < self.corners()
    }

    /// Every directed edge has exactly one twin: the twin of its twin is the
    /// edge itself, and the twin runs the other way between the same vertices.
    pub open spec fn twinned(&self) -> bool {
        forall|e: int|
            0 <= e < self.corners() ==> self.twin(#[trigger] self.twin(e)) == e && self.source(
                self.twin(e),
            ) == self.target(e) && self.target(self.twin(e)) == self.source(e)
    }

    /// `ring` is a stretch of the way around vertex `p`: its edges leave `p`,
    /// each is followed by the next edge around `p`, none occurs twice, and
    /// the first is the first corner that lies at `p`.
    pub open spec fn walk(&self, p: int, ring: Seq<usize>) -> bool {
        &&& forall|i: int|
            0 <= i < ring.len() ==> (#[trigger] ring[i]) < self.corners() && self.source(
                ring[i] as int,
            ) == p
        &&& forall|i: int|
            0 <= i < ring.len() - 1 ==> ring[i + 1] == self.turn((#[trigger] ring[i]) as int)
        &&& ring.no_duplicates()
        &&& ring.len() > 0 ==> forall|c: int|
            0 <= c < ring[0] ==> #[trigger] self.triangles@[c] != p
    }

    /// `ring` is the fan of vertex `p`: the whole way around `p`, holding
    /// every edge that leaves `p`, and closed.
    pub open spec fn fan(&self, p: int, ring: Seq<usize>) -> bool {
        &&& self.walk(p, ring)
        &&& ring.len() > 0 ==> self.turn(ring.last() as int) == ring[0]
        &&& forall|e: int|
            0 <= e < self.corners() && #[trigger] self.source(e) == p ==> ring.contains(e as usize)
    }

    /// The edges that leave vertex `p` form one fan.
    pub open spec fn ringed(&self, p: int) -> bool {
        exists|ring: Seq<usize>| self.fan(p, ring)
    }

    /// The mesh is a closed surface: every edge joins two different vertices
    /// and has its twin, and around every vertex the edges form a single
    /// closed fan.
    pub open spec fn closed(&self) -> bool {
        &&& self.indexed()
        &&& self.twinned()
        &&& forall|p: int| 0 <= p < self.num_points ==> #[trigger] self.ringed(p)
    }

    /// The vertices that the given edges reach, list by list.
    pub open spec fn neighbours(&self, edges: Seq<Seq<usize>>) -> Seq<Seq<usize>> {
        Seq::new(
            edges.len(),
            |p: int| Seq::new(edges[p].len(), |i: int| self.triangles@[next(edges[p][i] as int)]),
        )
    }

    /// The corner that follows corner `e` in its triangle.
    pub fn next_edge(e: usize) -> (n: usize)
        requires
            e < usize::MAX,
        ensures
            n == next(e as int),
    {
        if e % 3 == 2 {
            e - 2
        } else {
            e + 1
        }
    }

    /// The corner that precedes corner `e` in its triangle.
    pub fn prev_edge(e: usize) -> (n: usize)
        requires
            e < usize::MAX,
        ensures
            n == prev(e as int),
    {
        if e % 3 == 0 {
            e + 2
        } else {
            e - 1
        }
    }

    /// Whether the corners come in threes, every index is in range and every
    /// edge joins two different vertices.
    pub fn is_indexed(&self) -> (r: bool)
        ensures
            r == self.indexed(),
    {
        let n = self.triangles.len();
        if n % 3 != 0 || self.half_edges.len() != n {
            return false;
        }
        let mut e: usize = 0;
        while e < n
            invariant
                n == self.triangles.len(),
                n == self.half_edges.len(),
                e <= n,
                n % 3 == 0,
                forall|i: int| 0 <= i < e ==> #[trigger] self.triangles@[i] < self.num_points,
                forall|i: int| 0 <= i < e ==> #[trigger] self.half_edges@[i] < n,
                forall|i: int| 0 <= i < e ==> #[trigger] self.source(i) != self.target(i),
            decreases n - e,
        {
            if self.triangles[e] >= self.num_points || self.half_edges[e] >= n {
                return false;
            }
            if self.triangles[e] == self.triangles[Self::next_edge(e)] {
                assert(self.source(e as int) == self.target(e as int));
                return false;
            }
            e += 1;
        }
        true
    }

    /// Whether every directed edge has its twin.
    pub fn is_twinned(&self) -> (r: bool)
        requires
            self.indexed(),
        ensures
            r == self.twinned(),
    {
        let n = self.triangles.len();
        let mut e: usize = 0;
        while e < n
            invariant
                self.indexed(),
                n == self.triangles.len(),
                e <= n,
                forall|i: int|
                    0 <= i < e ==> self.twin(#[trigger] self.twin(i)) == i && self.source(
                        self.twin(i),
                    ) == self.target(i) && self.target(self.twin(i)) == self.source(i),
            decreases n - e,
        {
            let twin = self.half_edges[e];
            if self.half_edges[twin] != e || self.triangles[Self::next_edge(twin)]
                != self.triangles[e] || self.triangles[twin] != self.triangles[Self::next_edge(e)] {
                assert(!(self.twin(self.twin(e as int)) == e && self.source(self.twin(e as int))
                    == self.target(e as int) && self.target(self.twin(e as int)) == self.source(
                    e as int,
                )));
                return false;
            }
            e += 1;
        }
        true
    }
}

/// The number of directed edges among the first `n` that no fan holds yet.
spec fn pending(seen: Seq<bool>, n: int) -> nat
    decreases n,
{
    if n <= 0 {
        0
    } else {
        pending(seen, n - 1) + if seen[n - 1] {
            0nat
        } else {
            1nat
        }
    }
}

proof fn lemma_pending(seen: Seq<bool>, e: int, n: int)
    requires
        0 <= e < seen.len(),
        !seen[e],
        0 <= n <= seen.len(),
    ensures
        pending(seen, n) == pending(seen.update(e, true), n) + if e < n {
            1nat
        } else {
            0nat
        },
    decreases n,
{
    if n > 0 {
        lemma_pending(seen, e, n - 1);
    }
}

/// Turning around a vertex stays at the vertex.
pub proof fn lemma_turn(t: Triangulation, e: int)
    requires
        t.indexed(),
        t.twinned(),
        0 <= e < t.corners(),
    ensures
        0 <= t.turn(e) < t.corners(),
        t.source(t.turn(e)) == t.source(e),
        0 <= next(e) < t.corners(),
        0 <= prev(e) < t.corners(),
        next(prev(e)) == e,
        prev(next(e)) == e,
{
    let back = prev(e);
    assert(t.half_edges@[back] < t.corners());
    assert(t.twin(t.twin(back)) == back);
}

/// The fan that a closed mesh has around vertex `p`.
spec fn the_fan(t: Triangulation, p: int) -> Seq<usize> {
    choose|ring: Seq<usize>| t.fan(p, ring)
}

/// `firsts` holds, for each vertex, the first corner that lies at it, or
/// the number of corners where no corner does.
spec fn first_corners(t: Triangulation, firsts: Seq<usize>) -> bool {
    &&& firsts.len() == t.num_points
    &&& forall|p: int|
        0 <= p < firsts.len() ==> {
            &&& (#[trigger] firsts[p]) <= t.corners()
            &&& firsts[p] < t.corners() ==> t.triangles@[firsts[p] as int] == p
            &&& forall|c: int| 0 <= c < firsts[p] ==> #[trigger] t.triangles@[c] != p
        }
}

/// On a closed mesh the fan of a vertex starts at its first corner, and is
/// empty where no corner lies at the vertex.
proof fn lemma_fan_start(t: Triangulation, firsts: Seq<usize>, p: int)
    requires
        t.closed(),
        first_corners(t, firsts),
        0 <= p < t.num_points,
    ensures
        t.fan(p, the_fan(t, p)),
        firsts[p] == t.corners() ==> the_fan(t, p).len() == 0,
        firsts[p] < t.corners() ==> the_fan(t, p).len() > 0 && the_fan(t, p)[0] == firsts[p],
{
    assert(t.ringed(p));
    let ring = the_fan(t, p);
    let c0 = firsts[p] as int;
    if ring.len() > 0 {
        let e = ring[0] as int;
        assert(t.source(e) == p);
        assert(t.triangles@[e] == p);
    }
    if c0 < t.corners() {
        assert(t.source(c0) == p);
        assert(ring.contains(c0 as usize));
        let e = ring[0] as int;
        assert(t.triangles@[c0] == p);
        assert(e == c0);
    }
}

impl Triangulation {
    /// For each vertex the first corner that lies at it.
    fn firsts(&self) -> (firsts: Vec<usize>)
        requires
            self.indexed(),
        ensures
            first_corners(*self, firsts@),
    {
        let n = self.triangles.len();
        let mut firsts: Vec<usize> = Vec::new();
        let mut p: usize = 0;
        while p < self.num_points
            invariant
                p <= self.num_points,
                firsts.len() == p,
                forall|i: int| 0 <= i < p ==> firsts[i] == n,
            decreases self.num_points - p,
        {
            firsts.push(n);
            p += 1;
        }
        let mut c: usize = 0;
        while c < n
            invariant
                self.indexed(),
                n == self.triangles.len(),
                c <= n,
                firsts.len() == self.num_points,
                forall|p: int|
                    0 <= p < firsts.len() ==> {
                        &&& (#[trigger] firsts[p]) < c || firsts[p] == n
                        &&& firsts[p] < n ==> self.triangles@[firsts[p] as int] == p
                        &&& forall|i: int|
                            0 <= i < c && i < firsts[p] ==> #[trigger] self.triangles@[i] != p
                    },
            decreases n - c,
        {
            let v = self.triangles[c];
            if firsts[v] == n {
                firsts[v] = c;
            }
            c += 1;
        }
        firsts
    }
}

/// What the search for the fans knows once it has walked around every
/// vertex before `p`: the fans found, and which edges they hold.
spec fn fans_found(
    t: Triangulation,
    firsts: Seq<usize>,
    edges: Seq<Seq<usize>>,
    seen: Seq<bool>,
    p: int,
) -> bool {
    &&& edges.len() == p
    &&& seen.len() == t.corners()
    &&& forall|a: int|
        0 <= a < p ==> {
            &&& t.walk(a, #[trigger] edges[a])
            &&& edges[a].len() > 0 ==> t.turn(edges[a].last() as int) == edges[a][0]
            &&& firsts[a] < t.corners() ==> edges[a].len() > 0
        }
    &&& forall|e: int|
        0 <= e < t.corners() ==> (#[trigger] seen[e] <==> t.source(e) < p && edges[t.source(
            e,
        )].contains(e as usize))
    &&& t.closed() ==> forall|a: int| 0 <= a < p ==> t.fan(a, #[trigger] edges[a])
}

/// A stretch of the way around a vertex can be extended by the edge that
/// follows its last edge, unless the stretch holds that edge already.
proof fn lemma_walk_push(t: Triangulation, p: int, ring: Seq<usize>, e: usize)
    requires
        t.walk(p, ring),
        e < t.corners(),
        t.source(e as int) == p,
        !ring.contains(e),
        ring.len() > 0 ==> e == t.turn(ring.last() as int),
        ring.len() == 0 ==> forall|c: int| 0 <= c < e ==> #[trigger] t.triangles@[c] != p,
    ensures
        t.walk(p, ring.push(e)),
{
    let now = ring.push(e);
    assert forall|i: int| 0 <= i < now.len() implies (#[trigger] now[i]) < t.corners() && t.source(
        now[i] as int,
    ) == p by {
        if i < ring.len() {
            assert(now[i] == ring[i]);
        }
    }
    assert forall|i: int| 0 <= i < now.len() - 1 implies now[i + 1] == t.turn(
        (#[trigger] now[i]) as int,
    ) by {
        if i < ring.len() - 1 {
            assert(now[i] == ring[i] && now[i + 1] == ring[i + 1]);
        } else {
            assert(now[i] == ring.last());
        }
    }
    assert forall|i: int, j: int| 0 <= i < now.len() && 0 <= j < now.len() && i != j implies now[i]
        != now[j] by {
        if i < ring.len() && j < ring.len() {
            assert(ring[i] != ring[j]);
        } else if i < ring.len() {
            assert(ring.contains(ring[i]));
        } else {
            assert(ring.contains(ring[j]));
        }
    }
    if ring.len() > 0 {
        assert(now[0] == ring[0]);
    }
}

/// On a closed mesh, a walk that has followed the fan of a vertex so far
/// goes on following it, and comes back to its start exactly at the end of
/// the fan.
proof fn lemma_follow(t: Triangulation, p: int, fan: Seq<usize>, i: int)
    requires
        t.fan(p, fan),
        0 <= i < fan.len(),
    ensures
        fan.take(i).push(fan[i]) == fan.take(i + 1),
        !fan.take(i).contains(fan[i]),
        i + 1 < fan.len() ==> t.turn(fan[i] as int) == fan[i + 1] && fan[i + 1] != fan[0],
        i + 1 == fan.len() ==> t.turn(fan[i] as int) == fan[0] && fan.take(i + 1) == fan,
{
    assert(fan.take(i).push(fan[i]) =~= fan.take(i + 1));
    if fan.take(i).contains(fan[i]) {
        let j = choose|j: int| 0 <= j < fan.take(i).len() && fan.take(i)[j] == fan[i];
        assert(fan[j] == fan[i]);
    }
    if i + 1 == fan.len() {
        assert(fan.take(i + 1) =~= fan);
        assert(fan.last() == fan[i]);
    }
}

/// Two fans of one vertex start with the same edge.
proof fn lemma_fans_start_alike(t: Triangulation, p: int, a: Seq<usize>, b: Seq<usize>)
    requires
        t.indexed(),
        t.twinned(),
        t.fan(p, a),
        t.fan(p, b),
        a.len() > 0,
        b.len() > 0,
    ensures
        a[0] == b[0],
{
    let (x, y) = (a[0] as int, b[0] as int);
    assert(t.source(x) == p && t.source(y) == p);
    assert(t.triangles@[x] == p);
    assert(t.triangles@[y] == p);
}

/// A vertex has one fan only: two fans of the same vertex are equal.
pub proof fn lemma_fan_unique(t: Triangulation, p: int, a: Seq<usize>, b: Seq<usize>)
    requires
        t.indexed(),
        t.twinned(),
        t.fan(p, a),
        t.fan(p, b),
    ensures
        a == b,
{
    if a.len() > 0 && b.len() > 0 {
        lemma_fans_start_alike(t, p, a, b);
        lemma_fans_agree(t, p, a, b, a.len() - 1);
        lemma_fans_agree(t, p, b, a, b.len() - 1);
        assert forall|i: int| 0 <= i < a.len() implies a[i] == b[i] by {
            lemma_fans_agree(t, p, a, b, i);
        }
    } else if a.len() > 0 {
        assert(t.source(a[0] as int) == p);
        assert(b.contains(a[0]));
    } else if b.len() > 0 {
        assert(t.source(b[0] as int) == p);
        assert(a.contains(b[0]));
    }
    assert(a =~= b);
}

/// Two fans of one vertex that start alike go on alike, and neither ends
/// before the other.
proof fn lemma_fans_agree(t: Triangulation, p: int, a: Seq<usize>, b: Seq<usize>, i: int)
    requires
        t.fan(p, a),
        t.fan(p, b),
        a.len() > 0,
        b.len() > 0,
        a[0] == b[0],
        0 <= i < a.len(),
    ensures
        i < b.len(),
        a[i] == b[i],
    decreases i,
{
    if i > 0 {
        lemma_fans_agree(t, p, a, b, i - 1);
        lemma_follow(t, p, a, i - 1);
        lemma_follow(t, p, b, i - 1);
    }
}

/// Walks once around vertex `p`, from the edge `start` until `start` comes
/// again, and marks the edges passed. Gives up at an edge that is marked
/// already.
fn around(
    template: &Triangulation,
    p: usize,
    start: usize,
    seen: &mut Vec<bool>,
    Ghost(fan): Ghost<Seq<usize>>,
) -> (ring: Option<Vec<usize>>)
    requires
        template.indexed(),
        template.twinned(),
        start < template.corners(),
        template.source(start as int) == p,
        old(seen).len() == template.corners(),
        forall|x: int| 0 <= x < template.corners() && old(seen)[x] ==> template.source(x) != p,
        forall|c: int| 0 <= c < start ==> #[trigger] template.triangles@[c] != p,
        template.closed() ==> template.fan(p as int, fan) && fan.len() > 0 && fan[0] == start,
    ensures
        final(seen).len() == template.corners(),
        ring is None ==> !template.closed(),
        ring matches Some(ring) ==> {
            &&& template.walk(p as int, ring@)
            &&& ring@.len() > 0
            &&& template.turn(ring@.last() as int) == ring@[0]
            &&& forall|x: int|
                0 <= x < template.corners() ==> (final(seen)[x] <==> old(seen)[x] || ring@.contains(
                    x as usize,
                ))
            &&& template.closed() ==> ring@ == fan
        },
{
    let n = template.triangles.len();
    let mut ring: Vec<usize> = Vec::new();
    let mut e = start;
    let mut done = false;
    while !done
        invariant
            template.indexed(),
            template.twinned(),
            n == template.triangles.len(),
            start < n,
            template.source(start as int) == p,
            forall|c: int| 0 <= c < start ==> #[trigger] template.triangles@[c] != p,
            seen.len() == n,
            forall|x: int| 0 <= x < n && old(seen)[x] ==> template.source(x) != p,
            forall|x: int|
                0 <= x < n ==> (seen@[x] <==> old(seen)[x] || ring@.contains(x as usize)),
            template.walk(p as int, ring@),
            ring@.len() > 0 ==> ring@[0] == start,
            !done ==> e < n && template.source(e as int) == p,
            !done && ring@.len() == 0 ==> e == start,
            !done && ring@.len() > 0 ==> e == template.turn(ring@.last() as int),
            done ==> ring@.len() > 0 && template.turn(ring@.last() as int) == start,
            template.closed() ==> template.fan(p as int, fan) && fan.len() > 0 && fan[0] == start,
            template.closed() && !done ==> ring@.len() < fan.len() && ring@ == fan.take(
                ring@.len() as int,
            ) && e == fan[ring@.len() as int],
            template.closed() && done ==> ring@ == fan,
        decreases pending(seen@, n as int) + if done { 0nat } else { 1nat },
    {
        let ghost before = ring@;
        let ghost marks = seen@;
        if seen[e] {
            proof {
                if template.closed() {
                    lemma_follow(*template, p as int, fan, before.len() as int);
                }
            }
            return None;
        }
        proof {
            lemma_pending(marks, e as int, n as int);
            lemma_turn(*template, e as int);
            lemma_walk_push(*template, p as int, before, e);
            if template.closed() {
                lemma_follow(*template, p as int, fan, before.len() as int);
            }
        }
        seen[e] = true;
        ring.push(e);
        let ghost pushed = e;
        e = template.half_edges[Triangulation::prev_edge(e)];
        done = e == start;
        proof {
            let now = ring@;
            assert(now[0] == start) by {
                if before.len() > 0 {
                    assert(now[0] == before[0]);
                }
            }
            assert(now.last() == pushed);
            assert forall|x: int| 0 <= x < n implies (seen@[x] <==> old(seen)[x] || now.contains(
                x as usize,
            )) by {
                if x == pushed {
                    assert(now[now.len() - 1] == x);
                } else {
                    if before.contains(x as usize) {
                        let j = choose|j: int| 0 <= j < before.len() && before[j] == x;
                        assert(now[j] == x);
                    }
                    if now.contains(x as usize) {
                        let j = choose|j: int| 0 <= j < now.len() && now[j] == x;
                        assert(before[j] == x);
                    }
                }
            }
        }
    }
    Some(ring)
}

/// Finds the fan of edges around every vertex.
///
/// For each vertex the result holds the directed edges that leave it, which
/// are the corners that lie at it, in the order in which they follow each
/// other around the vertex, starting with the first corner that lies at the
/// vertex. There is a result exactly if the mesh is a closed surface.
pub fn fans(template: &Triangulation) -> (fans: Option<Vec<Vec<usize>>>)
    ensures
        fans is Some <==> template.closed(),
        fans matches Some(fans) ==> {
            &&& fans.len() == template.num_points
            &&& forall|p: int|
                0 <= p < fans.len() ==> template.fan(p, #[trigger] fans.deep_view()[p])
        },
{
    if !template.is_indexed() {
        return None;
    }
    if !template.is_twinned() {
        return None;
    }
    let n = template.triangles.len();
    let firsts = template.firsts();
    let mut seen: Vec<bool> = Vec::new();
    let mut e: usize = 0;
    while e < n
        invariant
            e <= n,
            seen.len() == e,
            forall|i: int| 0 <= i < e ==> !seen[i],
        decreases n - e,
    {
        seen.push(false);
        e += 1;
    }
    let mut edges: Vec<Vec<usize>> = Vec::new();
    let mut p: usize = 0;
    while p < template.num_points
        invariant
            template.indexed(),
            template.twinned(),
            n == template.triangles.len(),
            first_corners(*template, firsts@),
            p <= template.num_points,
            fans_found(*template, firsts@, edges.deep_view(), seen@, p as int),
        decreases template.num_points - p,
    {
        let ghost found = edges.deep_view();
        let ghost marks = seen@;
        let ghost fan = the_fan(*template, p as int);
        proof {
            if template.closed() {
                lemma_fan_start(*template, firsts@, p as int);
            }
        }
        let ring = if firsts[p] < n {
            match around(template, p, firsts[p], &mut seen, Ghost(fan)) {
                Some(ring) => ring,
                None => {
                    return None;
                },
            }
        } else {
            Vec::new()
        };
        let ghost last = ring@;
        proof {
            if template.closed() {
                assert(last =~= fan);
            }
            assert forall|x: int| 0 <= x < n implies (#[trigger] seen@[x] <==> marks[x]
                || last.contains(x as usize)) by {}
        }
        edges.push(ring);
        proof {
            let all = edges.deep_view();
            assert forall|a: int| 0 <= a < p + 1 implies #[trigger] all[a] == found.push(
                last,
            )[a] by {
                if a < p {
                    assert(all[a] == edges@[a].deep_view());
                    assert(found[a] == edges@[a].deep_view());
                } else {
                    assert(all[a] =~= last);
                }
            }
            assert(all =~= found.push(last));
            assert forall|x: int| 0 <= x < n implies (#[trigger] seen@[x] <==> template.source(x)
                < p + 1 && all[template.source(x)].contains(x as usize)) by {
                let a = template.source(x);
                lemma_turn(*template, x);
                if last.contains(x as usize) {
                    let j = choose|j: int| 0 <= j < last.len() && last[j] == x;
                    assert(template.source(last[j] as int) == p);
                }
                if a < p {
                    assert(all[a] == found[a]);
                }
            }
            assert forall|a: int| 0 <= a < p + 1 implies ({
                &&& template.walk(a, #[trigger] all[a])
                &&& all[a].len() > 0 ==> template.turn(all[a].last() as int) == all[a][0]
                &&& firsts@[a] < template.corners() ==> all[a].len() > 0
            }) by {
                if a < p {
                    assert(all[a] == found[a]);
                }
            }
            if template.closed() {
                assert forall|a: int| 0 <= a < p + 1 implies template.fan(a, #[trigger] all[a]) by {
                    if a < p {
                        assert(all[a] == found[a]);
                    }
                }
            }
        }
        p += 1;
    }
    let mut e: usize = 0;
    while e < n
        invariant
            e <= n,
            seen.len() == n,
            forall|i: int| 0 <= i < e ==> seen[i],
            template.indexed(),
            template.twinned(),
            n == template.triangles.len(),
            fans_found(
                *template,
                firsts@,
                edges.deep_view(),
                seen@,
                template.num_points as int,
            ),
        decreases n - e,
    {
        if !seen[e] {
            proof {
                if template.closed() {
                    let a = template.source(e as int);
                    assert(template.triangles@[e as int] < template.num_points);
                    assert(template.fan(a, edges.deep_view()[a]));
                }
            }
            return None;
        }
        e += 1;
    }
    proof {
        let all = edges.deep_view();
        assert forall|a: int| 0 <= a < template.num_points implies template.fan(
            a,
            #[trigger] all[a],
        ) by {
            assert forall|x: int|
                0 <= x < template.corners() && #[trigger] template.source(x)
                    == a implies all[a].contains(x as usize) by {
                assert(seen@[x]);
            }
        }
        assert forall|a: int| 0 <= a < template.num_points implies #[trigger] template.ringed(
            a,
        ) by {
            assert(template.fan(a, all[a]));
        }
    }
    Some(edges)
}

/// `edges` and `adjacencies` are the topology of the closed mesh `t`: for
/// each vertex the fan of the edges that leave it, which are the corners
/// that lie at it, and the vertices that these edges reach.
pub open spec fn topology(
    t: Triangulation,
    edges: Seq<Seq<usize>>,
    adjacencies: Seq<Seq<usize>>,
) -> bool {
    &&& t.closed()
    &&& edges.len() == t.num_points
    &&& forall|p: int| 0 <= p < edges.len() ==> t.fan(p, #[trigger] edges[p])
    &&& adjacencies == t.neighbours(edges)
}

/// Every edge that `edges` names, and the corner that follows it, is a
/// corner of a mesh with `corners` corners.
pub open spec fn cornered(edges: Seq<Seq<usize>>, corners: int) -> bool {
    forall|p: int, i: int|
        0 <= p < edges.len() && 0 <= i < edges[p].len() ==> (#[trigger] edges[p][i]) < corners
            && next(edges[p][i] as int) < corners
}

/// Finds the neighbours of every vertex: for each edge in `edges` the vertex
/// that it reaches, which lies at the next corner, in the same order.
pub fn adjacencies(template: &Triangulation, edges: &Vec<Vec<usize>>) -> (adjacencies: Vec<
    Vec<usize>,
>)
    requires
        cornered(edges.deep_view(), template.corners()),
    ensures
        adjacencies.deep_view() == template.neighbours(edges.deep_view()),
{
    let mut adjacencies: Vec<Vec<usize>> = Vec::new();
    let mut p: usize = 0;
    while p < edges.len()
        invariant
            p <= edges.len(),
            adjacencies.len() == p,
            cornered(edges.deep_view(), template.corners()),
            forall|a: int|
                0 <= a < p ==> #[trigger] adjacencies.deep_view()[a] == template.neighbours(
                    edges.deep_view(),
                )[a],
        decreases edges.len() - p,
    {
        let ghost before = adjacencies.deep_view();
        let mut row: Vec<usize> = Vec::new();
        let mut i: usize = 0;
        while i < edges[p].len()
            invariant
                p < edges.len(),
                i <= edges[p as int].len(),
                row.len() == i,
                cornered(edges.deep_view(), template.corners()),
                forall|j: int|
                    0 <= j < i ==> row[j] == template.triangles@[next(
                        edges.deep_view()[p as int][j] as int,
                    )],
            decreases edges[p as int].len() - i,
        {
            let e = edges[p][i];
            assert(e == edges.deep_view()[p as int][i as int]);
            assert(e < template.triangles.len());
            row.push(template.triangles[Triangulation::next_edge(e)]);
            i += 1;
        }
        let ghost last = row@;
        adjacencies.push(row);
        proof {
            let now = adjacencies.deep_view();
            assert(last =~= template.neighbours(edges.deep_view())[p as int]);
            assert forall|a: int| 0 <= a < p + 1 implies #[trigger] now[a] == template.neighbours(
                edges.deep_view(),
            )[a] by {
                if a < p {
                    assert(now[a] == adjacencies@[a].deep_view());
                    assert(before[a] == adjacencies@[a].deep_view());
                } else {
                    assert(now[a] =~= last);
                }
            }
        }
        p += 1;
    }
    assert(adjacencies.deep_view() =~= template.neighbours(edges.deep_view()));
    adjacencies
}

/// The edges of the fans of a mesh, and the corners that follow them, are
/// corners of the mesh.
proof fn lemma_fans_cornered(t: Triangulation, edges: Seq<Seq<usize>>)
    requires
        t.corners() % 3 == 0,
        forall|p: int| 0 <= p < edges.len() ==> t.walk(p, #[trigger] edges[p]),
    ensures
        cornered(edges, t.corners()),
{
    assert forall|p: int, i: int| 0 <= p < edges.len() && 0 <= i < edges[p].len() implies (
    #[trigger] edges[p][i]) < t.corners() && next(edges[p][i] as int) < t.corners() by {
        let ring = edges[p];
        assert(t.walk(p, ring));
        assert(ring[i] < t.corners());
    }
}

/// Builds the topology of a mesh from its corners and twins.
///
/// There is a result exactly if the mesh is a closed surface; it holds the
/// mesh, the fan of edges around each vertex and the neighbours of each
/// vertex.
pub fn template(num_points: usize, triangles: Vec<usize>, half_edges: Vec<usize>) -> (result:
    Option<(Triangulation, Vec<Vec<usize>>, Vec<Vec<usize>>)>)
    ensures
        result is Some <==> (Triangulation { num_points, triangles, half_edges }).closed(),
        result matches Some((template, edges, adjacencies)) ==> {
            &&& template == (Triangulation { num_points, triangles, half_edges })
            &&& topology(template, edges.deep_view(), adjacencies.deep_view())
        },
{
    let template = Triangulation { num_points, triangles, half_edges };
    match fans(&template) {
        Some(edges) => {
            proof {
                lemma_fans_cornered(template, edges.deep_view());
            }
            let adjacencies = adjacencies(&template, &edges);
            Some((template, edges, adjacencies))
        },
        None => None,
    }
}

/// The topology of a closed mesh keeps its lists in step. At every vertex
/// there are as many neighbours as edges. The edge in each slot is a corner
/// that lies at the vertex, and it reaches the neighbour in that slot, which
/// lies at the next corner; its twin runs back from the neighbour. The list
/// of a vertex holds exactly the corners that lie at it. The twin of the
/// twin of an edge is the edge, and the twin lies in another triangle. Every
/// neighbour is a vertex, and no vertex is its own neighbour.
pub proof fn lemma_topology(t: Triangulation, edges: Seq<Seq<usize>>, adjacencies: Seq<Seq<usize>>)
    requires
        topology(t, edges, adjacencies),
    ensures
        edges.len() == t.num_points,
        adjacencies.len() == t.num_points,
        forall|p: int| 0 <= p < t.num_points ==> #[trigger] edges[p].len() == adjacencies[p].len(),
        forall|e: int|
            0 <= e < t.corners() ==> 0 <= #[trigger] t.twin(e) < t.corners() && t.twin(t.twin(e))
                == e && t.twin(e) / 3 != e / 3,
        forall|p: int, i: int|
            0 <= p < t.num_points && 0 <= i < edges[p].len() ==> {
                let e = #[trigger] edges[p][i] as int;
                &&& 0 <= e < t.corners()
                &&& t.triangles@[e] == p
                &&& t.triangles@[next(e)] == adjacencies[p][i]
                &&& t.source(e) == p
                &&& t.target(e) == adjacencies[p][i]
                &&& t.source(t.twin(e)) == adjacencies[p][i]
                &&& t.target(t.twin(e)) == p
                &&& adjacencies[p][i] != p
            },
        forall|p: int, e: usize|
            0 <= p < t.num_points ==> (#[trigger] edges[p].contains(e) <==> e < t.corners()
                && t.triangles@[e as int] == p),
        graph(adjacencies),
{
    assert forall|e: int| 0 <= e < t.corners() implies 0 <= #[trigger] t.twin(e) < t.corners()
        && t.twin(t.twin(e)) == e && t.twin(e) / 3 != e / 3 by {
        assert(t.half_edges@[e] < t.corners());
        let back = t.twin(e);
        if back / 3 == e / 3 {
            // within one triangle the twin would make one of its sides join
            // a vertex to itself
            assert(back == e || back == next(e) || back == prev(e));
            assert(t.source(e) != t.target(e));
            assert(t.source(next(e)) != t.target(next(e)));
            assert(t.source(prev(e)) != t.target(prev(e)));
            assert(next(next(e)) == prev(e) && next(prev(e)) == e);
        }
    }
    assert forall|p: int, i: int| 0 <= p < t.num_points && 0 <= i < edges[p].len() implies ({
        let e = #[trigger] edges[p][i] as int;
        &&& 0 <= e < t.corners()
        &&& t.triangles@[e] == p
        &&& t.triangles@[next(e)] == adjacencies[p][i]
        &&& t.source(e) == p
        &&& t.target(e) == adjacencies[p][i]
        &&& t.source(t.twin(e)) == adjacencies[p][i]
        &&& t.target(t.twin(e)) == p
        &&& adjacencies[p][i] != p
    }) by {
        let e = edges[p][i] as int;
        assert(t.fan(p, edges[p]));
        assert(t.source(e) != t.target(e));
    }
    assert forall|p: int, e: usize| 0 <= p < t.num_points implies (#[trigger] edges[p].contains(e)
        <==> e < t.corners() && t.triangles@[e as int] == p) by {
        assert(t.fan(p, edges[p]));
        if edges[p].contains(e) {
            let i = choose|i: int| 0 <= i < edges[p].len() && edges[p][i] == e;
            assert(t.source(edges[p][i] as int) == p);
        }
        if e < t.corners() && t.triangles@[e as int] == p {
            assert(t.source(e as int) == p);
        }
    }
    assert forall|p: int, i: int|
        0 <= p < adjacencies.len() && 0 <= i < adjacencies[p].len()
            implies #[trigger] adjacencies[p][i] < adjacencies.len() by {
        assert(t.fan(p, edges[p]));
        let e = edges[p][i] as int;
        assert(t.triangles@[next(e)] < t.num_points);
    }
}

/// The fans of a closed mesh partition its directed edges: every edge stands
/// in exactly one slot of exactly one fan, and the fans together hold as many
/// edges as the mesh has corners.
pub proof fn lemma_fans_partition(
    t: Triangulation,
    edges: Seq<Seq<usize>>,
    adjacencies: Seq<Seq<usize>>,
)
    requires
        topology(t, edges, adjacencies),
    ensures
        forall|e: usize| e < t.corners() <==> listed(edges, e),
        forall|p1: int, i1: int, p2: int, i2: int|
            #![trigger member(edges, p1, i1), member(edges, p2, i2)]
            member(edges, p1, i1) && member(edges, p2, i2) && edges[p1][i1] == edges[p2][i2] ==> p1
                == p2 && i1 == i2,
        total(edges) == t.corners(),
{
    assert(t.corners() == t.triangles.len() <= usize::MAX);
    assert forall|e: usize| e < t.corners() <==> listed(edges, e) by {
        if listed(edges, e) {
            let (p, i) = choose|p: int, i: int| member(edges, p, i) && edges[p][i] == e;
            assert(t.fan(p, edges[p]));
        }
        if e < t.corners() {
            let p = t.source(e as int);
            assert(t.triangles@[e as int] < t.num_points);
            assert(t.fan(p, edges[p]));
            assert(edges[p].contains(e));
            let i = choose|i: int| 0 <= i < edges[p].len() && edges[p][i] == e;
            assert(member(edges, p, i));
        }
    }
    assert forall|p1: int, i1: int, p2: int, i2: int|
        #![trigger member(edges, p1, i1), member(edges, p2, i2)]
        member(edges, p1, i1) && member(edges, p2, i2) && edges[p1][i1]
            == edges[p2][i2] implies p1 == p2 && i1 == i2 by {
        assert(t.fan(p1, edges[p1]));
        assert(t.fan(p2, edges[p2]));
        assert(t.source(edges[p1][i1] as int) == p1);
        assert(t.source(edges[p2][i2] as int) == p2);
    }
    lemma_total(edges, t.corners() as nat);
}

/// The corners among the first `n` that lie at vertex `p`, in ascending
/// order.
pub open spec fn corners_at(triangles: Seq<usize>, p: int, n: int) -> Seq<usize>
    decreases n,
{
    if n <= 0 {
        Seq::empty()
    } else {
        let rest = corners_at(triangles, p, n - 1);
        if triangles[n - 1] == p {
            rest.push((n - 1) as usize)
        } else {
            rest
        }
    }
}

/// The corners that lie at a vertex are listed once each, and nothing else.
pub proof fn lemma_corners_at(triangles: Seq<usize>, p: int, n: int)
    requires
        0 <= n <= triangles.len(),
        n <= usize::MAX,
    ensures
        forall|e: usize| #[trigger]
            corners_at(triangles, p, n).contains(e) <==> e < n && triangles[e as int] == p,
        corners_at(triangles, p, n).no_duplicates(),
    decreases n,
{
    let now = corners_at(triangles, p, n);
    if n > 0 {
        let rest = corners_at(triangles, p, n - 1);
        let last = (n - 1) as usize;
        lemma_corners_at(triangles, p, n - 1);
        assert(!rest.contains(last));
        if triangles[n - 1] == p {
            assert(now == rest.push(last));
            assert forall|e: usize| #[trigger] now.contains(e) <==> e < n && triangles[e as int]
                == p by {
                if now.contains(e) {
                    let i = choose|i: int| 0 <= i < now.len() && now[i] == e;
                    if i < rest.len() {
                        assert(rest[i] == e);
                        assert(rest.contains(e));
                    }
                }
                if e < n && triangles[e as int] == p {
                    if e < n - 1 {
                        assert(rest.contains(e));
                        let i = choose|i: int| 0 <= i < rest.len() && rest[i] == e;
                        assert(now[i] == e);
                    } else {
                        assert(now[now.len() - 1] == e);
                    }
                }
            }
            assert forall|i: int, j: int|
                0 <= i < now.len() && 0 <= j < now.len() && i != j implies now[i] != now[j] by {
                if i < rest.len() && j < rest.len() {
                    assert(rest[i] != rest[j]);
                } else if i < rest.len() {
                    assert(rest.contains(rest[i]));
                } else if j < rest.len() {
                    assert(rest.contains(rest[j]));
                }
            }
        } else {
            assert(now == rest);
            assert forall|e: usize| #[trigger] now.contains(e) <==> e < n && triangles[e as int]
                == p by {
                assert(rest.contains(e) <==> e < n - 1 && triangles[e as int] == p);
            }
        }
    } else {
        assert(now.len() == 0);
    }
}

/// `edges` lists the directed edges of the mesh by the vertex that they
/// leave: as fans where the mesh is a closed surface, and in ascending order
/// where it is not.
pub open spec fn listing(t: Triangulation, edges: Seq<Seq<usize>>) -> bool {
    &&& edges.len() == t.num_points
    &&& t.closed() ==> forall|p: int| 0 <= p < edges.len() ==> t.fan(p, #[trigger] edges[p])
    &&& !t.closed() ==> forall|p: int|
        0 <= p < edges.len() ==> #[trigger] edges[p] == corners_at(t.triangles@, p, t.corners())
}

/// Lists the corners by the vertex at which they lie, in ascending order.
fn corners(template: &Triangulation) -> (lists: Vec<Vec<usize>>)
    requires
        forall|e: int|
            0 <= e < template.corners() ==> #[trigger] template.triangles@[e] < template.num_points,
    ensures
        lists.len() == template.num_points,
        forall|p: int|
            0 <= p < lists.len() ==> #[trigger] lists.deep_view()[p] == corners_at(
                template.triangles@,
                p,
                template.corners(),
            ),
{
    let n = template.triangles.len();
    let mut lists: Vec<Vec<usize>> = Vec::new();
    let mut p: usize = 0;
    while p < template.num_points
        invariant
            p <= template.num_points,
            lists.len() == p,
            forall|a: int| 0 <= a < p ==> (#[trigger] lists.deep_view()[a]).len() == 0,
        decreases template.num_points - p,
    {
        let ghost before = lists.deep_view();
        lists.push(Vec::new());
        proof {
            let now = lists.deep_view();
            assert forall|a: int| 0 <= a < p + 1 implies (#[trigger] now[a]).len() == 0 by {
                if a < p {
                    assert(now[a] == before[a]);
                }
            }
        }
        p += 1;
    }
    assert forall|a: int| 0 <= a < lists.len() implies #[trigger] lists.deep_view()[a]
        == corners_at(template.triangles@, a, 0) by {
        assert(lists.deep_view()[a] =~= Seq::empty());
    }
    let mut c: usize = 0;
    while c < n
        invariant
            n == template.triangles.len(),
            c <= n,
            lists.len() == template.num_points,
            forall|e: int|
                0 <= e < template.corners() ==> #[trigger] template.triangles@[e]
                    < template.num_points,
            forall|a: int|
                0 <= a < lists.len() ==> #[trigger] lists.deep_view()[a] == corners_at(
                    template.triangles@,
                    a,
                    c as int,
                ),
        decreases n - c,
    {
        let ghost before = lists.deep_view();
        let v = template.triangles[c];
        lists[v].push(c);
        proof {
            let now = lists.deep_view();
            assert(now =~~= before.update(v as int, before[v as int].push(c)));
            assert forall|a: int| 0 <= a < lists.len() implies #[trigger] now[a] == corners_at(
                template.triangles@,
                a,
                c + 1,
            ) by {
                assert(before[a] == corners_at(template.triangles@, a, c as int));
            }
        }
        c += 1;
    }
    lists
}

/// Lists the directed edges of a mesh by the vertex that they leave.
///
/// The list of a vertex holds the corners that lie at it. Where the mesh is
/// a closed surface the list is the fan of the vertex: the edges stand in the
/// order in which they follow each other around the vertex, starting with
/// the first corner. Where it is not, the corners stand in ascending order.
pub fn edges(template: &Triangulation) -> (edges: Vec<Vec<usize>>)
    requires
        forall|e: int|
            0 <= e < template.corners() ==> #[trigger] template.triangles@[e] < template.num_points,
    ensures
        listing(*template, edges.deep_view()),
{
    match fans(template) {
        Some(fans) => fans,
        None => corners(template),
    }
}

/// However the edges are listed, the list of a vertex holds exactly the
/// corners that lie at it: every edge stands in exactly one slot of exactly
/// one list, and the lists together hold as many edges as the mesh has
/// corners.
pub proof fn lemma_listing(t: Triangulation, edges: Seq<Seq<usize>>)
    requires
        listing(t, edges),
        forall|e: int| 0 <= e < t.corners() ==> #[trigger] t.triangles@[e] < t.num_points,
    ensures
        forall|p: int, e: usize|
            0 <= p < t.num_points ==> (#[trigger] edges[p].contains(e) <==> e < t.corners()
                && t.triangles@[e as int] == p),
        forall|p1: int, i1: int, p2: int, i2: int|
            #![trigger member(edges, p1, i1), member(edges, p2, i2)]
            member(edges, p1, i1) && member(edges, p2, i2) && edges[p1][i1] == edges[p2][i2] ==> p1
                == p2 && i1 == i2,
        total(edges) == t.corners(),
{
    assert(t.corners() == t.triangles.len() <= usize::MAX);
    if t.closed() {
        let adjacencies = t.neighbours(edges);
        lemma_topology(t, edges, adjacencies);
        lemma_fans_partition(t, edges, adjacencies);
    } else {
        assert forall|p: int, e: usize| 0 <= p < t.num_points implies (
        #[trigger] edges[p].contains(e) <==> e < t.corners() && t.triangles@[e as int] == p) by {
            lemma_corners_at(t.triangles@, p, t.corners());
            assert(edges[p] == corners_at(t.triangles@, p, t.corners()));
        }
        assert forall|p1: int, i1: int, p2: int, i2: int|
            #![trigger member(edges, p1, i1), member(edges, p2, i2)]
            member(edges, p1, i1) && member(edges, p2, i2) && edges[p1][i1]
                == edges[p2][i2] implies p1 == p2 && i1 == i2 by {
            lemma_corners_at(t.triangles@, p1, t.corners());
            assert(edges[p1] == corners_at(t.triangles@, p1, t.corners()));
            assert(edges[p2] == corners_at(t.triangles@, p2, t.corners()));
            assert(edges[p1].contains(edges[p1][i1]));
            assert(edges[p2].contains(edges[p2][i2]));
        }
        assert forall|e: usize| e < t.corners() <==> listed(edges, e) by {
            if listed(edges, e) {
                let (p, i) = choose|p: int, i: int| member(edges, p, i) && edges[p][i] == e;
                assert(edges[p].contains(e));
            }
            if e < t.corners() {
                let p = t.triangles@[e as int] as int;
                assert(edges[p].contains(e));
                let i = choose|i: int| 0 <= i < edges[p].len() && edges[p][i] == e;
                assert(member(edges, p, i));
            }
        }
        lemma_total(edges, t.corners() as nat);
    }
}

/// Neighbourhood is mutual: where `q` is a neighbour of `p`, `p` is a
/// neighbour of `q`.
pub proof fn lemma_neighbours_mutual(
    t: Triangulation,
    edges: Seq<Seq<usize>>,
    adjacencies: Seq<Seq<usize>>,
    p: int,
    q: usize,
)
    requires
        topology(t, edges, adjacencies),
        0 <= p < t.num_points,
        adjacencies[p].contains(q),
    ensures
        q < t.num_points,
        adjacencies[q as int].contains(p as usize),
{
    lemma_topology(t, edges, adjacencies);
    let i = choose|i: int| 0 <= i < adjacencies[p].len() && adjacencies[p][i] == q;
    let e = edges[p][i] as int;
    assert(t.fan(p, edges[p]));
    assert(t.target(e) == q);
    assert(t.triangles@[next(e)] < t.num_points);
    let back = t.twin(e);
    assert(t.source(back) == q);
    assert(t.fan(q as int, edges[q as int]));
    assert(edges[q as int].contains(back as usize));
    let j = choose|j: int| 0 <= j < edges[q as int].len() && edges[q as int][j] == back as usize;
    assert(adjacencies[q as int][j] == p);
}

} // verus!
