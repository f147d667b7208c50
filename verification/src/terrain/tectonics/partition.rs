//! The plates of a connected mesh partition its vertices.

use vstd::prelude::*;
use crate::scalar::Scalar;
use crate::lists::{listed, lemma_total, member, total};
use crate::terrain::tectonics::growth::{grown, reachable};
use crate::terrain::tectonics::ranking::{holds, outranks, present, PlateView};
use crate::terrain::tectonics::{exchanged, settled, POLAR_RANK};

verus! {

/// On a mesh where a walk from some seed reaches every vertex, the plates
/// that grew partition the vertices: every vertex stands in exactly one slot
/// of exactly one plate, and the sizes of the plates add up to the number of
/// vertices.
pub proof fn lemma_plates_partition(
    plates: Seq<Seq<usize>>,
    adjacencies: Seq<Seq<usize>>,
    seeds: Seq<usize>,
)
    requires
        grown(plates, adjacencies, seeds),
        adjacencies.len() <= usize::MAX,
        forall|v: usize| v < adjacencies.len() ==> reachable(adjacencies, seeds, v),
    ensures
        forall|v: usize| v < adjacencies.len() <==> listed(plates, v),
        forall|k1: int, i1: int, k2: int, i2: int|
            #![trigger member(plates, k1, i1), member(plates, k2, i2)]
            member(plates, k1, i1) && member(plates, k2, i2) && plates[k1][i1] == plates[k2][i2]
                ==> k1 == k2 && i1 == i2,
        total(plates) == adjacencies.len(),
{
    assert forall|v: usize| listed(plates, v) implies v < adjacencies.len() by {
        let (k, i) = choose|k: int, i: int| member(plates, k, i) && plates[k][i] == v;
    }
    lemma_total(plates, adjacencies.len());
}

/// The vertex lists of the plates, in order of rank.
pub open spec fn members(plates: Seq<PlateView>) -> Seq<Seq<usize>> {
    Seq::new(plates.len(), |k: int| plates[k].vertices)
}

/// The same holds of the plates of a planet, ranked and with the polar plate
/// in its place: on a mesh where a walk from some seed reaches every vertex,
/// they partition the vertices, and their sizes add up to the number of
/// vertices.
pub proof fn lemma_planet_partition(
    plates: Seq<PlateView>,
    adjacencies: Seq<Seq<usize>>,
    seeds: Seq<usize>,
    latitudes: Seq<Scalar>,
    q: int,
)
    requires
        settled(plates, adjacencies, seeds, latitudes, q),
        adjacencies.len() <= usize::MAX,
        forall|v: usize| v < adjacencies.len() ==> reachable(adjacencies, seeds, v),
    ensures
        forall|v: usize| v < adjacencies.len() <==> listed(members(plates), v),
        forall|k1: int, i1: int, k2: int, i2: int|
            #![trigger member(members(plates), k1, i1), member(members(plates), k2, i2)]
            member(members(plates), k1, i1) && member(members(plates), k2, i2)
                && plates[k1].vertices[i1] == plates[k2].vertices[i2] ==> k1 == k2 && i1 == i2,
        total(members(plates)) == adjacencies.len(),
{
    let by_size = exchanged(plates, POLAR_RANK as int, q);
    let claims = choose|claims: Seq<Seq<usize>>| #[trigger]
        grown(claims, adjacencies, seeds) && holds(by_size, claims);
    let lists = members(plates);
    lemma_plates_partition(claims, adjacencies, seeds);
    // where each plate stood when the plates were in order of size
    let at = |k: int|
        if k == POLAR_RANK {
            q
        } else if k == q {
            POLAR_RANK as int
        } else {
            k
        };
    assert forall|k: int| 0 <= k < plates.len() implies plates[k] == by_size[#[trigger] at(k)] && 0
        <= at(k) < plates.len() && at(at(k)) == k by {}
    assert forall|k: int, j: int| 0 <= k < j < plates.len() implies plates[k].origin
        != plates[j].origin by {
        let a = at(k);
        let b = at(j);
        if a < b {
            assert(outranks(by_size[a], by_size[b]));
        } else {
            assert(outranks(by_size[b], by_size[a]));
        }
    }
    assert forall|k1: int, i1: int, k2: int, i2: int|
        #![trigger member(lists, k1, i1), member(lists, k2, i2)]
        member(lists, k1, i1) && member(lists, k2, i2) && lists[k1][i1] == lists[k2][i2] implies k1
        == k2 && i1 == i2 by {
        let a = at(k1);
        let b = at(k2);
        assert(member(claims, by_size[a].origin as int, i1));
        assert(member(claims, by_size[b].origin as int, i2));
    }
    assert forall|v: usize| v < adjacencies.len() <==> listed(lists, v) by {
        if listed(lists, v) {
            let (k, i) = choose|k: int, i: int| member(lists, k, i) && lists[k][i] == v;
            let a = at(k);
            assert(member(claims, by_size[a].origin as int, i));
        }
        if v < adjacencies.len() {
            assert(listed(claims, v));
            let (k, i) = choose|k: int, i: int| member(claims, k, i) && claims[k][i] == v;
            assert(present(by_size, k));
            let a = choose|a: int| 0 <= a < by_size.len() && (#[trigger] by_size[a]).origin == k;
            assert(member(lists, at(a), i));
            assert(lists[at(a)][i] == v);
        }
    }
    lemma_total(lists, adjacencies.len());
}

} // verus!
