//! The terrain kinds of a map cell.  A kind's index numbers the bit layer
//! that holds it while a map is generated; indices 16 to 19 are working
//! layers (birth area, birth line, two scratch layers).
use vstd::prelude::*;

verus! {

#[derive(Clone, Copy, PartialEq, Eq, Debug, Structural)]
pub enum Terrain {
    Null,
    Soil,
    DepthWater,
    DDepthWater,
    ShallowWater,
    Mud,
    FertileSoil,
    LingSoil,
    WetLand,
    StoneLand,
    RockBrown,
    RockGray,
    RockMarble,
    IronOre,
    CopperOre,
    SilverOre,
    BornSpace,
    BornLine,
    Tmp1,
    Tmp2,
}

impl Terrain {
    /// The kind's position in the declaration (its discriminant).
    pub open spec fn spec_index(self) -> usize {
        match self {
            Terrain::Null => 0,
            Terrain::Soil => 1,
            Terrain::DepthWater => 2,
            Terrain::DDepthWater => 3,
            Terrain::ShallowWater => 4,
            Terrain::Mud => 5,
            Terrain::FertileSoil => 6,
            Terrain::LingSoil => 7,
            Terrain::WetLand => 8,
            Terrain::StoneLand => 9,
            Terrain::RockBrown => 10,
            Terrain::RockGray => 11,
            Terrain::RockMarble => 12,
            Terrain::IronOre => 13,
            Terrain::CopperOre => 14,
            Terrain::SilverOre => 15,
            Terrain::BornSpace => 16,
            Terrain::BornLine => 17,
            Terrain::Tmp1 => 18,
            Terrain::Tmp2 => 19,
        }
    }

    /// `self as usize`.
    #[verifier::when_used_as_spec(spec_index)]
    pub fn index(self) -> (i: usize)
        ensures
            i == self.spec_index(),
    {
        match self {
            Terrain::Null => 0,
            Terrain::Soil => 1,
            Terrain::DepthWater => 2,
            Terrain::DDepthWater => 3,
            Terrain::ShallowWater => 4,
            Terrain::Mud => 5,
            Terrain::FertileSoil => 6,
            Terrain::LingSoil => 7,
            Terrain::WetLand => 8,
            Terrain::StoneLand => 9,
            Terrain::RockBrown => 10,
            Terrain::RockGray => 11,
            Terrain::RockMarble => 12,
            Terrain::IronOre => 13,
            Terrain::CopperOre => 14,
            Terrain::SilverOre => 15,
            Terrain::BornSpace => 16,
            Terrain::BornLine => 17,
            Terrain::Tmp1 => 18,
            Terrain::Tmp2 => 19,
        }
    }
}

} // verus!
