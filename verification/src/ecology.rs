//! Biome classes of the ecology stage. The u32 biome raster stores each
//! class's code; the stage report carries the legend of names.

use vstd::prelude::*;

verus! {

/// Biome classes.
#[derive(Clone, Copy, Debug, PartialEq, Eq, PartialOrd, Ord, Hash)]
pub enum Biome {
    Water,
    Tundra,
    BorealForest,
    TemperateSeasonalForest,
    TemperateRainforest,
    TropicalRainforest,
    TropicalSeasonalForest,
    Savanna,
    Desert,
    Grassland,
    Shrubland,
    Wetland,
    BareRock,
    /// Standing fresh water (a measurement over water depth): ocean stays
    /// `Water`, lakes are their own class.
    Lake,
}

/// The raster code of each biome, in declaration order.
pub open spec fn biome_code(b: Biome) -> u32 {
    match b {
        Biome::Water => 0,
        Biome::Tundra => 1,
        Biome::BorealForest => 2,
        Biome::TemperateSeasonalForest => 3,
        Biome::TemperateRainforest => 4,
        Biome::TropicalRainforest => 5,
        Biome::TropicalSeasonalForest => 6,
        Biome::Savanna => 7,
        Biome::Desert => 8,
        Biome::Grassland => 9,
        Biome::Shrubland => 10,
        Biome::Wetland => 11,
        Biome::BareRock => 12,
        Biome::Lake => 13,
    }
}

/// Number of biome classes.
pub const BIOME_COUNT: u32 = 14;

impl Biome {
    /// The code stored in the biome raster.
    pub fn code(self) -> (r: u32)
        ensures
            r == biome_code(self),
            r < BIOME_COUNT,
    {
        match self {
            Biome::Water => 0,
            Biome::Tundra => 1,
            Biome::BorealForest => 2,
            Biome::TemperateSeasonalForest => 3,
            Biome::TemperateRainforest => 4,
            Biome::TropicalRainforest => 5,
            Biome::TropicalSeasonalForest => 6,
            Biome::Savanna => 7,
            Biome::Desert => 8,
            Biome::Grassland => 9,
            Biome::Shrubland => 10,
            Biome::Wetland => 11,
            Biome::BareRock => 12,
            Biome::Lake => 13,
        }
    }

    /// The biome stored under a raster code, if any.
    pub fn from_code(code: u32) -> (r: Option<Biome>)
        ensures
            r is Some <==> code < BIOME_COUNT,
            r matches Some(b) ==> biome_code(b) == code,
    {
        match code {
            0 => Some(Biome::Water),
            1 => Some(Biome::Tundra),
            2 => Some(Biome::BorealForest),
            3 => Some(Biome::TemperateSeasonalForest),
            4 => Some(Biome::TemperateRainforest),
            5 => Some(Biome::TropicalRainforest),
            6 => Some(Biome::TropicalSeasonalForest),
            7 => Some(Biome::Savanna),
            8 => Some(Biome::Desert),
            9 => Some(Biome::Grassland),
            10 => Some(Biome::Shrubland),
            11 => Some(Biome::Wetland),
            12 => Some(Biome::BareRock),
            13 => Some(Biome::Lake),
            _ => None,
        }
    }

    /// The legend name of the biome.
    pub fn name(self) -> (r: &'static str)
        ensures
            r@ == biome_name(self),
    {
        match self {
            Biome::Water => "water",
            Biome::Tundra => "tundra",
            Biome::BorealForest => "boreal_forest",
            Biome::TemperateSeasonalForest => "temperate_seasonal_forest",
            Biome::TemperateRainforest => "temperate_rainforest",
            Biome::TropicalRainforest => "tropical_rainforest",
            Biome::TropicalSeasonalForest => "tropical_seasonal_forest",
            Biome::Savanna => "savanna",
            Biome::Desert => "desert",
            Biome::Grassland => "grassland",
            Biome::Shrubland => "shrubland",
            Biome::Wetland => "wetland",
            Biome::BareRock => "bare_rock",
            Biome::Lake => "lake",
        }
    }
}

/// The legend name of each biome.
pub open spec fn biome_name(b: Biome) -> Seq<char> {
    match b {
        Biome::Water => "water"@,
        Biome::Tundra => "tundra"@,
        Biome::BorealForest => "boreal_forest"@,
        Biome::TemperateSeasonalForest => "temperate_seasonal_forest"@,
        Biome::TemperateRainforest => "temperate_rainforest"@,
        Biome::TropicalRainforest => "tropical_rainforest"@,
        Biome::TropicalSeasonalForest => "tropical_seasonal_forest"@,
        Biome::Savanna => "savanna"@,
        Biome::Desert => "desert"@,
        Biome::Grassland => "grassland"@,
        Biome::Shrubland => "shrubland"@,
        Biome::Wetland => "wetland"@,
        Biome::BareRock => "bare_rock"@,
        Biome::Lake => "lake"@,
    }
}

/// Decoding a code gives back the biome that was encoded.
pub proof fn lemma_code_roundtrip(b: Biome)
    ensures
        biome_code(b) < BIOME_COUNT,
        forall|c: Biome| biome_code(c) == biome_code(b) ==> c == b,
{
}

} // verus!
