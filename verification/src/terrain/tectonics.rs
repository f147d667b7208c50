//! Tectonic plates: grown from seeds over the mesh, then ranked by size.

use vstd::prelude::*;
use rand::rngs::StdRng;
use crate::scalar::Scalar;
use crate::lists::{graph, member};
use crate::terrain::tectonics::growth::{grow, grown};
use crate::terrain::tectonics::ranking::{
    holds, polar, polar_plate, rank, ranked, slot, Plate, PlateView,
};

pub mod growth;
pub mod partition;
pub mod ranking;

verus! {

/// Whether the plate of size rank `i` is continental: every third plate,
/// starting with the second largest. All other plates are oceanic.
pub fn continental(i: usize) -> (r: bool)
    ensures
        r == (i % 3 == 1),
{
    i % 3 == 1
}

/// The number of plates that a planet has by default.
pub const NUM_PLATES: usize = 20;

/// The rank at which the polar plate is put. The rank is oceanic, so that
/// the pole is covered by frozen sea and not by a continent.
pub const POLAR_RANK: usize = 2;

/// No height rises above this: the bit pattern of `0.09`.
pub const MAX_HEIGHT: u32 = 0x3db8_51ec;

/// A height, held down to the maximum.
pub open spec fn capped(height: Scalar) -> Scalar {
    if (Scalar { bits: MAX_HEIGHT }).less(height) {
        Scalar { bits: MAX_HEIGHT }
    } else {
        height
    }
}

/// Holds a height down to the maximum: the result is the maximum where the
/// height is above it, and the height itself elsewhere, so that it is never
/// above the maximum.
pub fn cap(height: Scalar) -> (r: Scalar)
    ensures
        r == capped(height),
        !(Scalar { bits: MAX_HEIGHT }).less(r),
{
    if height.gt(Scalar::from_bits(MAX_HEIGHT)) {
        Scalar::from_bits(MAX_HEIGHT)
    } else {
        height
    }
}

/// The plates with those at positions `i` and `j` exchanged.
pub open spec fn exchanged(plates: Seq<PlateView>, i: int, j: int) -> Seq<PlateView> {
    plates.update(i, plates[j]).update(j, plates[i])
}

/// What holds of the plates of a planet.
///
/// They are the plates that grew from the seeds, ranked by size; only the
/// polar plate, whose rank by size was `q`, has changed places with the plate
/// whose rank was `POLAR_RANK`.
pub open spec fn settled(
    plates: Seq<PlateView>,
    adjacencies: Seq<Seq<usize>>,
    seeds: Seq<usize>,
    latitudes: Seq<Scalar>,
    q: int,
) -> bool {
    let by_size = exchanged(plates, POLAR_RANK as int, q);
    &&& 0 <= q < plates.len()
    &&& POLAR_RANK < plates.len()
    &&& exists|claims: Seq<Seq<usize>>| #[trigger]
        grown(claims, adjacencies, seeds) && holds(by_size, claims)
    &&& ranked(by_size)
    &&& polar(by_size, latitudes, q)
}

/// Finds the vertex nearest to a point, given the distance of every vertex
/// from the point: the index of the first distance that no other precedes in
/// the total order.
pub fn nearest(distances: &Vec<Scalar>) -> (best: usize)
    requires
        distances.len() > 0,
    ensures
        best < distances.len(),
        forall|i: int| 0 <= i < distances.len() ==> !distances[i].precedes(distances[best as int]),
        forall|i: int| 0 <= i < best ==> distances[best as int].precedes(distances[i]),
{
    let mut best: usize = 0;
    let mut i: usize = 1;
    while i < distances.len()
        invariant
            best < i <= distances.len(),
            forall|j: int| 0 <= j < i ==> !distances[j].precedes(distances[best as int]),
            forall|j: int| 0 <= j < best ==> distances[best as int].precedes(distances[j]),
        decreases distances.len() - i,
    {
        if distances[i].before(distances[best]) {
            best = i;
        }
        i += 1;
    }
    best
}

/// Divides the vertices of a mesh among tectonic plates.
///
/// One plate grows from each seed, claiming vertices along the edges of the
/// mesh in a random order. The plates are then ranked by size, and the plate
/// that reaches nearest to a pole changes places with the plate of rank
/// `POLAR_RANK`. `latitudes` holds, for each vertex, its distance from the
/// equator.
pub fn tectonics(
    adjacencies: &Vec<Vec<usize>>,
    seeds: Vec<usize>,
    latitudes: &Vec<Scalar>,
    rng: &mut StdRng,
) -> (plates: Vec<Plate>)
    requires
        graph(adjacencies.deep_view()),
        forall|k: int| 0 <= k < seeds.len() ==> #[trigger] seeds[k] < adjacencies.len(),
        seeds.len() > POLAR_RANK,
        latitudes.len() == adjacencies.len(),
    ensures
        plates.len() == seeds.len(),
        exists|q: int| #[trigger]
            settled(plates.deep_view(), adjacencies.deep_view(), seeds@, latitudes@, q),
{
    let ghost start = seeds@;
    let claims = grow(adjacencies, seeds, rng);
    let ghost claims_made = claims.deep_view();
    let mut plates = rank(claims);
    let ghost by_size = plates.deep_view();
    assert forall|k: int, i: int| #[trigger] slot(by_size, k, i) implies by_size[k].vertices[i]
        < latitudes.len() by {
        assert(member(claims_made, by_size[k].origin as int, i));
    }
    let q = polar_plate(&plates, latitudes);
    if q != POLAR_RANK {
        let mut plate = Plate { origin: 0, vertices: Vec::new() };
        core::mem::swap(&mut plates[POLAR_RANK], &mut plate);
        core::mem::swap(&mut plates[q], &mut plate);
        core::mem::swap(&mut plates[POLAR_RANK], &mut plate);
    }
    proof {
        assert(exchanged(plates.deep_view(), POLAR_RANK as int, q as int) =~= by_size);
        assert(grown(claims_made, adjacencies.deep_view(), start) && holds(by_size, claims_made));
        assert(settled(plates.deep_view(), adjacencies.deep_view(), start, latitudes@, q as int));
    }
    plates
}

} // verus!
