//! Biomes: what covers a vertex, by its terrain and its climate.

use vstd::prelude::*;
use crate::scalar::Scalar;
use crate::terrain::Terrain;

verus! {

/// Water colder than this is covered by ice: the bit pattern of `-0.8`.
pub const ICE_TEMPERATURE: u32 = 0xbf4c_cccd;

/// Land colder than this lies under snow: the bit pattern of `-0.6`.
pub const SNOW_TEMPERATURE: u32 = 0xbf19_999a;

/// Land colder than this, and not under snow, is tundra: the bit pattern of
/// `-0.2`.
pub const TUNDRA_TEMPERATURE: u32 = 0xbe4c_cccd;

/// Land that is not frozen and gets less rain than this is desert: the bit
/// pattern of `0.1`.
pub const ARID_PRECIPITATION: u32 = 0x3dcc_cccd;

/// Land warmer than this is tropical: the bit pattern of `0.3`.
pub const TROPICAL_TEMPERATURE: u32 = 0x3e99_999a;

/// Tropical land with more rain than this bears rainforest: the bit pattern
/// of `0.6`.
pub const RAINFOREST_PRECIPITATION: u32 = 0x3f19_999a;

/// Temperate land with more rain than this bears forest: the bit pattern of
/// `0.4`.
pub const FOREST_PRECIPITATION: u32 = 0x3ecc_cccd;

/// What covers a vertex.
#[derive(Clone, Copy, Debug, PartialEq, Eq, Structural)]
pub enum Biome {
    Mountain,
    Forest,
    Grassland,
    Plains,
    Rainforest,
    Desert,
    Tundra,
    Shallow,
    Ocean,
    Ice,
    Snow,
}

impl Biome {
    /// The biome of tropical land: rainforest where it rains enough, plains
    /// elsewhere.
    pub open spec fn of_tropics(precipitation: Scalar) -> Biome {
        if (Scalar { bits: RAINFOREST_PRECIPITATION }).less(precipitation) {
            Biome::Rainforest
        } else {
            Biome::Plains
        }
    }

    /// The biome of temperate land: forest where it rains enough, grassland
    /// elsewhere.
    pub open spec fn of_temperate(precipitation: Scalar) -> Biome {
        if (Scalar { bits: FOREST_PRECIPITATION }).less(precipitation) {
            Biome::Forest
        } else {
            Biome::Grassland
        }
    }

    /// The biome of land. The first rule that applies decides: snow by cold,
    /// tundra by cold, desert by drought, then the tropics by warmth; what is
    /// left is temperate.
    pub open spec fn of_land(temperature: Scalar, precipitation: Scalar) -> Biome {
        if temperature.less(Scalar { bits: SNOW_TEMPERATURE }) {
            Biome::Snow
        } else if temperature.less(Scalar { bits: TUNDRA_TEMPERATURE }) {
            Biome::Tundra
        } else if precipitation.less(Scalar { bits: ARID_PRECIPITATION }) {
            Biome::Desert
        } else if (Scalar { bits: TROPICAL_TEMPERATURE }).less(temperature) {
            Self::of_tropics(precipitation)
        } else {
            Self::of_temperate(precipitation)
        }
    }

    /// The biome of water: ice where it is cold enough, else `open`.
    pub open spec fn of_water(temperature: Scalar, open: Biome) -> Biome {
        if temperature.less(Scalar { bits: ICE_TEMPERATURE }) {
            Biome::Ice
        } else {
            open
        }
    }

    /// The biome of a vertex. `ocean_temperature` is the temperature that
    /// counts on water, `land_temperature` the one that counts on land.
    pub open spec fn of(
        terrain: Terrain,
        ocean_temperature: Scalar,
        land_temperature: Scalar,
        precipitation: Scalar,
    ) -> Biome {
        match terrain {
            Terrain::Mountain => Biome::Mountain,
            Terrain::Land => Self::of_land(land_temperature, precipitation),
            Terrain::Shallow => Self::of_water(ocean_temperature, Biome::Shallow),
            Terrain::Ocean => Self::of_water(ocean_temperature, Biome::Ocean),
        }
    }

    /// Classifies one vertex.
    pub fn at(
        terrain: Terrain,
        ocean_temperature: Scalar,
        land_temperature: Scalar,
        precipitation: Scalar,
    ) -> (biome: Biome)
        ensures
            biome == Biome::of(terrain, ocean_temperature, land_temperature, precipitation),
    {
        match terrain {
            Terrain::Mountain => Biome::Mountain,
            Terrain::Land => land(land_temperature, precipitation),
            Terrain::Shallow => shallow(ocean_temperature),
            Terrain::Ocean => ocean(ocean_temperature),
        }
    }
}

/// Classifies every vertex by its terrain and its climate.
pub fn biomes(
    terrain: &Vec<Terrain>,
    ocean_temperatures: &Vec<Scalar>,
    land_temperatures: &Vec<Scalar>,
    precipitation: &Vec<Scalar>,
) -> (biomes: Vec<Biome>)
    requires
        ocean_temperatures.len() == terrain.len(),
        land_temperatures.len() == terrain.len(),
        precipitation.len() == terrain.len(),
    ensures
        biomes.len() == terrain.len(),
        forall|p: int|
            0 <= p < terrain.len() ==> biomes[p] == Biome::of(
                terrain[p],
                ocean_temperatures[p],
                land_temperatures[p],
                precipitation[p],
            ),
{
    let mut biomes: Vec<Biome> = Vec::new();
    let mut p: usize = 0;
    while p < terrain.len()
        invariant
            p <= terrain.len(),
            ocean_temperatures.len() == terrain.len(),
            land_temperatures.len() == terrain.len(),
            precipitation.len() == terrain.len(),
            biomes.len() == p,
            forall|i: int|
                0 <= i < p ==> biomes[i] == Biome::of(
                    terrain[i],
                    ocean_temperatures[i],
                    land_temperatures[i],
                    precipitation[i],
                ),
        decreases terrain.len() - p,
    {
        biomes.push(
            Biome::at(terrain[p], ocean_temperatures[p], land_temperatures[p], precipitation[p]),
        );
        p += 1;
    }
    biomes
}

/// The biome of land at a temperature and a precipitation.
pub fn land(temperature: Scalar, precipitation: Scalar) -> (biome: Biome)
    ensures
        biome == Biome::of_land(temperature, precipitation),
{
    if temperature.lt(Scalar::from_bits(SNOW_TEMPERATURE)) {
        Biome::Snow
    } else if temperature.lt(Scalar::from_bits(TUNDRA_TEMPERATURE)) {
        Biome::Tundra
    } else if precipitation.lt(Scalar::from_bits(ARID_PRECIPITATION)) {
        Biome::Desert
    } else if temperature.gt(Scalar::from_bits(TROPICAL_TEMPERATURE)) {
        tropical(precipitation)
    } else {
        temperate(precipitation)
    }
}

/// The biome of tropical land at a precipitation.
pub fn tropical(precipitation: Scalar) -> (biome: Biome)
    ensures
        biome == Biome::of_tropics(precipitation),
{
    if precipitation.gt(Scalar::from_bits(RAINFOREST_PRECIPITATION)) {
        Biome::Rainforest
    } else {
        Biome::Plains
    }
}

/// The biome of temperate land at a precipitation.
pub fn temperate(precipitation: Scalar) -> (biome: Biome)
    ensures
        biome == Biome::of_temperate(precipitation),
{
    if precipitation.gt(Scalar::from_bits(FOREST_PRECIPITATION)) {
        Biome::Forest
    } else {
        Biome::Grassland
    }
}

/// The biome of shallow water at a temperature.
pub fn shallow(temperature: Scalar) -> (biome: Biome)
    ensures
        biome == Biome::of_water(temperature, Biome::Shallow),
{
    if temperature.lt(Scalar::from_bits(ICE_TEMPERATURE)) {
        Biome::Ice
    } else {
        Biome::Shallow
    }
}

/// The biome of the ocean at a temperature.
pub fn ocean(temperature: Scalar) -> (biome: Biome)
    ensures
        biome == Biome::of_water(temperature, Biome::Ocean),
{
    if temperature.lt(Scalar::from_bits(ICE_TEMPERATURE)) {
        Biome::Ice
    } else {
        Biome::Ocean
    }
}

/// A mountain is a mountain in every climate.
pub proof fn lemma_mountain_biome(
    ocean_temperature: Scalar,
    land_temperature: Scalar,
    precipitation: Scalar,
)
    ensures
        Biome::of(Terrain::Mountain, ocean_temperature, land_temperature, precipitation)
            == Biome::Mountain,
{
}

} // verus!
