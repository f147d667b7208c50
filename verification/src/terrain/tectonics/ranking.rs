//! Ranking the plates by size, and the plate at the pole.

use vstd::prelude::*;
use crate::scalar::Scalar;

verus! {

/// A tectonic plate. Its rank is its position among the plates.
pub struct Plate {
    /// The index of the seed that the plate grew from.
    pub origin: usize,
    /// The vertices of the plate, in the order in which it claimed them.
    pub vertices: Vec<usize>,
}

/// The mathematical content of a [`Plate`].
pub struct PlateView {
    pub origin: usize,
    pub vertices: Seq<usize>,
}

impl DeepView for Plate {
    type V = PlateView;

    open spec fn deep_view(&self) -> PlateView {
        PlateView { origin: self.origin, vertices: self.vertices@ }
    }
}

/// Plate `a` comes before plate `b`: it is larger, or as large and grown
/// from an earlier seed.
pub open spec fn outranks(a: PlateView, b: PlateView) -> bool {
    a.vertices.len() > b.vertices.len() || (a.vertices.len() == b.vertices.len() && a.origin
        < b.origin)
}

/// The plates stand in descending order of size, plates of one size in the
/// order of their seeds.
pub open spec fn ranked(plates: Seq<PlateView>) -> bool {
    forall|i: int, j: int| 0 <= i < j < plates.len() ==> outranks(plates[i], plates[j])
}

/// One of `plates` grew from the seed with index `origin`.
pub open spec fn present(plates: Seq<PlateView>, origin: int) -> bool {
    exists|i: int| 0 <= i < plates.len() && (#[trigger] plates[i]).origin == origin
}

/// `plates` holds every plate of `grown`, and nothing else, each under the
/// index that it has in `grown`.
pub open spec fn holds(plates: Seq<PlateView>, grown: Seq<Seq<usize>>) -> bool {
    &&& forall|i: int|
        0 <= i < plates.len() ==> (#[trigger] plates[i]).origin < grown.len() && plates[i].vertices
            == grown[plates[i].origin as int]
    &&& forall|k: int| 0 <= k < grown.len() ==> #[trigger] present(plates, k)
}

/// Ranks the plates: the largest first, and of two plates of one size the
/// one that grew from the earlier seed.
pub fn rank(grown: Vec<Vec<usize>>) -> (plates: Vec<Plate>)
    ensures
        plates.len() == grown.len(),
        holds(plates.deep_view(), grown.deep_view()),
        ranked(plates.deep_view()),
{
    let ghost all = grown.deep_view();
    let mut rest = grown;
    let mut plates: Vec<Plate> = Vec::new();
    while rest.len() > 0
        invariant
            rest.len() <= all.len(),
            rest.deep_view() == all.take(rest.len() as int),
            plates.len() + rest.len() == all.len(),
            ranked(plates.deep_view()),
            forall|i: int|
                0 <= i < plates.len() ==> rest.len() <= (#[trigger] plates.deep_view()[i]).origin
                    < all.len() && plates.deep_view()[i].vertices
                    == all[plates.deep_view()[i].origin as int],
            forall|k: int|
                rest.len() <= k < all.len() ==> #[trigger] present(plates.deep_view(), k),
        decreases rest.len(),
    {
        let ghost before = plates.deep_view();
        let ghost waiting = rest.deep_view();
        let origin = rest.len() - 1;
        let vertices = rest.pop().unwrap();
        assert(vertices@ == all[origin as int]) by {
            assert(waiting[origin as int] == all[origin as int]);
        }
        assert(rest.deep_view() =~= all.take(rest.len() as int)) by {
            assert forall|k: int| 0 <= k < rest.len() implies #[trigger] rest.deep_view()[k]
                == all[k] by {
                assert(waiting[k] == all[k]);
            }
        }
        let mut at: usize = 0;
        while at < plates.len() && plates[at].vertices.len() > vertices.len()
            invariant
                at <= plates.len(),
                plates.deep_view() == before,
                forall|i: int|
                    0 <= i < at ==> (#[trigger] before[i]).vertices.len() > vertices@.len(),
            decreases plates.len() - at,
        {
            assert(before[at as int].vertices.len() == plates[at as int].vertices@.len());
            at += 1;
        }
        assert(at < plates.len() ==> before[at as int].vertices.len() <= vertices@.len()) by {
            if at < plates.len() {
                assert(before[at as int].vertices.len() == plates[at as int].vertices@.len());
            }
        }
        let plate = Plate { origin, vertices };
        let ghost new = plate.deep_view();
        plates.insert(at, plate);
        proof {
            let after = plates.deep_view();
            assert(after =~= before.insert(at as int, new));
            assert forall|i: int, j: int| 0 <= i < j < after.len() implies outranks(
                after[i],
                after[j],
            ) by {
                if j == at {
                    assert(after[i] == before[i]);
                } else if i == at {
                    assert(after[j] == before[j - 1]);
                    if j - 1 > at {
                        assert(outranks(before[at as int], before[j - 1]));
                    }
                } else {
                    let a = if i < at { i } else { i - 1 };
                    let b = if j < at { j } else { j - 1 };
                    assert(after[i] == before[a] && after[j] == before[b]);
                    assert(outranks(before[a], before[b]));
                }
            }
            assert forall|k: int| rest.len() <= k < all.len() implies #[trigger] present(
                after,
                k,
            ) by {
                if k == origin {
                    assert(after[at as int].origin == k);
                } else {
                    assert(present(before, k));
                    let i = choose|i: int|
                        0 <= i < before.len() && (#[trigger] before[i]).origin == k;
                    let j = if i < at { i } else { i + 1 };
                    assert(after[j] == before[i]);
                }
            }
            assert forall|i: int| 0 <= i < after.len() implies rest.len() <= (
            #[trigger] after[i]).origin < all.len() && after[i].vertices
                == all[after[i].origin as int] by {
                if i != at {
                    let a = if i < at { i } else { i - 1 };
                    assert(after[i] == before[a]);
                }
            }
        }
    }
    plates
}

/// The ranking of the plates is unique: two rankings of the same plates are
/// equal.
pub proof fn lemma_ranking_unique(a: Seq<PlateView>, b: Seq<PlateView>, grown: Seq<Seq<usize>>)
    requires
        a.len() == grown.len(),
        b.len() == grown.len(),
        holds(a, grown),
        holds(b, grown),
        ranked(a),
        ranked(b),
    ensures
        a == b,
{
    assert forall|i: int| 0 <= i < a.len() implies a[i] == b[i] by {
        lemma_same_rank(a, b, grown, i);
    }
    assert(a =~= b);
}

proof fn lemma_same_rank(a: Seq<PlateView>, b: Seq<PlateView>, grown: Seq<Seq<usize>>, i: int)
    requires
        a.len() == grown.len(),
        b.len() == grown.len(),
        holds(a, grown),
        holds(b, grown),
        ranked(a),
        ranked(b),
        0 <= i < a.len(),
    ensures
        a[i] == b[i],
    decreases i,
{
    assert forall|j: int| 0 <= j < i implies a[j] == b[j] by {
        lemma_same_rank(a, b, grown, j);
    }
    // where the plate at rank `i` of each ranking stands in the other
    assert(present(b, a[i].origin as int));
    let j = choose|j: int| 0 <= j < b.len() && (#[trigger] b[j]).origin == a[i].origin;
    assert(present(a, b[i].origin as int));
    let k = choose|k: int| 0 <= k < a.len() && (#[trigger] a[k]).origin == b[i].origin;
    assert(b[j] == a[i]);
    assert(a[k] == b[i]);
    if j < i {
        assert(a[j] == b[j]);
        assert(outranks(a[j], a[i]));
    } else if j > i {
        assert(outranks(b[i], b[j]));
        if k < i {
            assert(a[k] == b[k]);
            assert(outranks(b[k], b[i]));
        } else if k > i {
            assert(outranks(a[i], a[k]));
        }
    }
}

/// `i` is a slot of the plate of rank `k`.
pub open spec fn slot(plates: Seq<PlateView>, k: int, i: int) -> bool {
    0 <= k < plates.len() && 0 <= i < plates[k].vertices.len()
}

/// The vertex at slot `i` of plate `k` lies nearest to a pole: its latitude
/// is above zero, and no vertex of any plate has a greater one.
pub open spec fn summit(plates: Seq<PlateView>, latitudes: Seq<Scalar>, k: int, i: int) -> bool {
    &&& slot(plates, k, i)
    &&& Scalar::zero().less(latitudes[plates[k].vertices[i] as int])
    &&& forall|a: int, b: int| #[trigger]
        slot(plates, a, b) ==> !latitudes[plates[k].vertices[i] as int].less(
            latitudes[plates[a].vertices[b] as int],
        )
}

/// `r` is the rank of the polar plate: the first plate that holds a vertex
/// nearest to a pole, and the first plate of all where no vertex has a
/// latitude above zero.
pub open spec fn polar(plates: Seq<PlateView>, latitudes: Seq<Scalar>, r: int) -> bool {
    if exists|k: int, i: int| summit(plates, latitudes, k, i) {
        &&& exists|i: int| summit(plates, latitudes, r, i)
        &&& forall|k: int, i: int| summit(plates, latitudes, k, i) ==> r <= k
    } else {
        r == 0
    }
}

/// The polar plate is unique.
pub proof fn lemma_polar_unique(plates: Seq<PlateView>, latitudes: Seq<Scalar>, r: int, s: int)
    requires
        polar(plates, latitudes, r),
        polar(plates, latitudes, s),
    ensures
        r == s,
{
    if exists|k: int, i: int| summit(plates, latitudes, k, i) {
        let i = choose|i: int| summit(plates, latitudes, r, i);
        let j = choose|j: int| summit(plates, latitudes, s, j);
        assert(s <= r);
        assert(r <= s);
    }
}

/// Slot `(a, b)` comes before slot `(k, i)` when plates are read in order.
spec fn seen(k: int, i: int, a: int, b: int) -> bool {
    a < k || (a == k && b < i)
}

/// What the search for the polar plate knows once it has read every slot
/// before `(k, i)`.
spec fn scanned(
    plates: Seq<PlateView>,
    latitudes: Seq<Scalar>,
    k: int,
    i: int,
    best: int,
    pole: Scalar,
) -> bool {
    &&& !pole.is_nan()
    &&& pole.key() >= 0
    &&& forall|a: int, b: int| #[trigger]
        slot(plates, a, b) && seen(k, i, a, b) ==> !pole.less(
            latitudes[plates[a].vertices[b] as int],
        )
    &&& forall|a: int, b: int| #[trigger]
        slot(plates, a, b) && a < best ==> latitudes[plates[a].vertices[b] as int].is_nan()
            || latitudes[plates[a].vertices[b] as int].less(pole)
    &&& pole.key() > 0 ==> exists|j: int| #[trigger]
        slot(plates, best, j) && seen(k, i, best, j) && latitudes[plates[best].vertices[j] as int]
            == pole
    &&& pole.key() == 0 ==> best == 0
}

proof fn lemma_scanned(plates: Seq<PlateView>, latitudes: Seq<Scalar>, best: int, pole: Scalar)
    requires
        scanned(plates, latitudes, plates.len() as int, 0, best, pole),
    ensures
        polar(plates, latitudes, best),
{
    let n = plates.len() as int;
    assert forall|a: int, b: int| #[trigger] slot(plates, a, b) implies seen(n, 0, a, b) by {}
    if exists|k: int, i: int| summit(plates, latitudes, k, i) {
        let (k, i) = choose|k: int, i: int| summit(plates, latitudes, k, i);
        assert(slot(plates, k, i));
        assert(pole.key() > 0);
        let j = choose|j: int| #[trigger]
            slot(plates, best, j) && seen(n, 0, best, j)
                && latitudes[plates[best].vertices[j] as int] == pole;
        assert(summit(plates, latitudes, best, j));
        assert forall|a: int, b: int| summit(plates, latitudes, a, b) implies best <= a by {
            if a < best {
                assert(slot(plates, a, b));
                assert(slot(plates, best, j));
            }
        }
    } else {
        if pole.key() > 0 {
            let j = choose|j: int| #[trigger]
                slot(plates, best, j) && seen(n, 0, best, j)
                    && latitudes[plates[best].vertices[j] as int] == pole;
            assert(summit(plates, latitudes, best, j));
        }
    }
}

/// Finds the rank of the polar plate.
///
/// The plates are read in order of rank and each plate in the order of its
/// vertices; the polar plate is that of the first vertex whose latitude is
/// above zero and above that of every vertex read before.
pub fn polar_plate(plates: &Vec<Plate>, latitudes: &Vec<Scalar>) -> (r: usize)
    requires
        forall|k: int, i: int| #[trigger]
            slot(plates.deep_view(), k, i) ==> plates.deep_view()[k].vertices[i] < latitudes.len(),
    ensures
        polar(plates.deep_view(), latitudes@, r as int),
        plates.len() > 0 ==> r < plates.len(),
        plates.len() == 0 ==> r == 0,
{
    let ghost model = plates.deep_view();
    let mut best: usize = 0;
    let mut pole = Scalar::from_bits(0);
    let mut k: usize = 0;
    while k < plates.len()
        invariant
            k <= plates.len(),
            model == plates.deep_view(),
            forall|a: int, b: int| #[trigger]
                slot(model, a, b) ==> model[a].vertices[b] < latitudes.len(),
            scanned(model, latitudes@, k as int, 0, best as int, pole),
            plates.len() > 0 ==> best < plates.len(),
            plates.len() == 0 ==> best == 0,
        decreases plates.len() - k,
    {
        let mut i: usize = 0;
        while i < plates[k].vertices.len()
            invariant
                k < plates.len(),
                i <= plates[k as int].vertices.len(),
                model == plates.deep_view(),
                forall|a: int, b: int| #[trigger]
                    slot(model, a, b) ==> model[a].vertices[b] < latitudes.len(),
                scanned(model, latitudes@, k as int, i as int, best as int, pole),
                best < plates.len(),
            decreases plates[k as int].vertices.len() - i,
        {
            assert(slot(model, k as int, i as int));
            let v = plates[k].vertices[i];
            assert(v == model[k as int].vertices[i as int]);
            let latitude = latitudes[v];
            let ghost old_best = best as int;
            let ghost old_pole = pole;
            if latitude.gt(pole) {
                best = k;
                pole = latitude;
            }
            proof {
                assert forall|a: int, b: int| #[trigger]
                    slot(model, a, b) && seen(k as int, i + 1, a, b) implies !pole.less(
                    latitudes@[model[a].vertices[b] as int],
                ) by {
                    if seen(k as int, i as int, a, b) {
                        assert(!old_pole.less(latitudes@[model[a].vertices[b] as int]));
                    }
                }
                if old_pole.less(latitude) {
                    assert forall|a: int, b: int| #[trigger]
                        slot(model, a, b) && a < best
                            implies latitudes@[model[a].vertices[b] as int].is_nan()
                        || latitudes@[model[a].vertices[b] as int].less(pole) by {
                        assert(seen(k as int, i as int, a, b));
                        assert(!old_pole.less(latitudes@[model[a].vertices[b] as int]));
                    }
                    assert(slot(model, best as int, i as int) && seen(
                        k as int,
                        i + 1,
                        best as int,
                        i as int,
                    ));
                } else if old_pole.key() > 0 {
                    let j = choose|j: int| #[trigger]
                        slot(model, old_best, j) && seen(k as int, i as int, old_best, j)
                            && latitudes@[model[old_best].vertices[j] as int] == old_pole;
                    assert(slot(model, best as int, j) && seen(k as int, i + 1, best as int, j));
                }
            }
            i += 1;
        }
        proof {
            assert forall|a: int, b: int| #[trigger]
                slot(model, a, b) && seen(k + 1, 0, a, b) implies seen(
                k as int,
                i as int,
                a,
                b,
            ) by {}
            if pole.key() > 0 {
                let j = choose|j: int| #[trigger]
                    slot(model, best as int, j) && seen(k as int, i as int, best as int, j)
                        && latitudes@[model[best as int].vertices[j] as int] == pole;
                assert(slot(model, best as int, j) && seen(k + 1, 0, best as int, j));
            }
        }
        k += 1;
    }
    proof {
        lemma_scanned(model, latitudes@, best as int, pole);
    }
    best
}

} // verus!
