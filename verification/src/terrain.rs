//! The solid surface: plates, heights and what grows on them.

use vstd::prelude::*;
use crate::scalar::Scalar;

pub mod biomes;
pub mod tectonics;

verus! {

/// Heights above this are mountains: the bit pattern of `0.03`.
pub const MOUNTAIN_HEIGHT: u32 = 0x3cf5_c28f;

/// Heights above this, up to mountain height, are land: the bit pattern of
/// `-0.01`.
pub const LAND_HEIGHT: u32 = 0xbc23_d70a;

/// Heights above this, up to land height, are shallow water, and every
/// shallow vertex is put at this height: the bit pattern of `-0.02`.
pub const SHALLOW_HEIGHT: u32 = 0xbca3_d70a;

/// What lies at a vertex, by its height.
#[derive(Clone, Copy, Debug, PartialEq, Eq, Structural)]
pub enum Terrain {
    Mountain,
    Land,
    Shallow,
    Ocean,
}

impl Terrain {
    /// The terrain at a height: the first threshold that the height exceeds
    /// decides. A height that is no number exceeds none and is ocean.
    pub open spec fn of(height: Scalar) -> Terrain {
        if (Scalar { bits: MOUNTAIN_HEIGHT }).less(height) {
            Terrain::Mountain
        } else if (Scalar { bits: LAND_HEIGHT }).less(height) {
            Terrain::Land
        } else if (Scalar { bits: SHALLOW_HEIGHT }).less(height) {
            Terrain::Shallow
        } else {
            Terrain::Ocean
        }
    }

    /// How high the terrain lies among the four: ocean lowest, mountain
    /// highest.
    pub open spec fn elevation(self) -> int {
        match self {
            Terrain::Mountain => 3,
            Terrain::Land => 2,
            Terrain::Shallow => 1,
            Terrain::Ocean => 0,
        }
    }

    /// The height that a vertex of this terrain is given: land is raised to
    /// sea level, shallow water is put at one depth, mountain and ocean stay.
    pub open spec fn levelled(self, height: Scalar) -> Scalar {
        match self {
            Terrain::Land => if Scalar::zero().less(height) {
                height
            } else {
                Scalar::zero()
            },
            Terrain::Shallow => Scalar { bits: SHALLOW_HEIGHT },
            _ => height,
        }
    }

    /// Classifies a height.
    pub fn at_height(height: Scalar) -> (terrain: Terrain)
        ensures
            terrain == Terrain::of(height),
    {
        if height.gt(Scalar::from_bits(MOUNTAIN_HEIGHT)) {
            Terrain::Mountain
        } else if height.gt(Scalar::from_bits(LAND_HEIGHT)) {
            Terrain::Land
        } else if height.gt(Scalar::from_bits(SHALLOW_HEIGHT)) {
            Terrain::Shallow
        } else {
            Terrain::Ocean
        }
    }
}

/// Classifies every height, and levels the heights of land and shallow water.
pub fn terrain(heights: &mut Vec<Scalar>) -> (terrain: Vec<Terrain>)
    ensures
        terrain.len() == old(heights).len(),
        final(heights).len() == old(heights).len(),
        forall|p: int| 0 <= p < terrain.len() ==> terrain[p] == Terrain::of(old(heights)[p]),
        forall|p: int|
            0 <= p < terrain.len() ==> final(heights)[p] == terrain[p].levelled(old(heights)[p]),
{
    let mut terrain: Vec<Terrain> = Vec::new();
    let mut p: usize = 0;
    while p < heights.len()
        invariant
            p <= heights.len(),
            heights.len() == old(heights).len(),
            terrain.len() == p,
            forall|i: int| 0 <= i < p ==> terrain[i] == Terrain::of(old(heights)[i]),
            forall|i: int| 0 <= i < p ==> heights[i] == terrain[i].levelled(old(heights)[i]),
            forall|i: int| p <= i < heights.len() ==> heights[i] == old(heights)[i],
        decreases heights.len() - p,
    {
        let height = heights[p];
        let here = Terrain::at_height(height);
        match here {
            Terrain::Land => {
                if !height.gt(Scalar::from_bits(0)) {
                    heights[p] = Scalar::from_bits(0);
                }
            },
            Terrain::Shallow => {
                heights[p] = Scalar::from_bits(SHALLOW_HEIGHT);
            },
            _ => {},
        }
        terrain.push(here);
        p += 1;
    }
    terrain
}

/// A greater height never gives a lower terrain.
pub proof fn lemma_terrain_monotone(low: Scalar, high: Scalar)
    requires
        low.less(high),
    ensures
        Terrain::of(low).elevation() <= Terrain::of(high).elevation(),
{
}

} // verus!
