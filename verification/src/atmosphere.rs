//! Breathable-air bookkeeping that does not depend on gas amounts: which
//! tiles hold air, the gas species tracked, and the hazard classes shown to
//! the player. Gas amounts and pressures are simulated outside this crate.

use crate::map::Tile;
use vstd::prelude::*;

verus! {

/// Gas species tracked per cell, in storage order.
#[derive(Clone, Copy, PartialEq, Eq, Structural, Debug, Hash)]
pub enum Species {
    O2,
    Inert,
    Co2,
    Pollutant,
}

impl Species {
    /// Every species, in storage order.
    pub const ALL: [Species; 4] = [Species::O2, Species::Inert, Species::Co2, Species::Pollutant];

    pub fn label(self) -> (r: &'static str)
        ensures
            self == Species::O2 ==> r@ == "O2"@,
            self == Species::Inert ==> r@ == "inert"@,
            self == Species::Co2 ==> r@ == "CO2"@,
            self == Species::Pollutant ==> r@ == "pollutant"@,
    {
        match self {
            Species::O2 => "O2",
            Species::Inert => "inert",
            Species::Co2 => "CO2",
            Species::Pollutant => "pollutant",
        }
    }

    /// Storage slot of the species.
    pub fn index(self) -> (r: usize)
        ensures
            r < 4,
            Species::ALL[r as int] == self,
    {
        match self {
            Species::O2 => 0,
            Species::Inert => 1,
            Species::Co2 => 2,
            Species::Pollutant => 3,
        }
    }
}

/// Worst composition hazard found by a summary pass.
#[derive(Clone, Copy, PartialEq, Eq, Structural, Debug)]
pub enum Hazard {
    Safe,
    LowO2,
    HighCo2,
    Polluted,
}

impl Hazard {
    pub fn label(self) -> (r: &'static str)
        ensures
            self == Hazard::Safe ==> r@ == ""@,
            self == Hazard::LowO2 ==> r@ == "LOW O2"@,
            self == Hazard::HighCo2 ==> r@ == "HIGH CO2"@,
            self == Hazard::Polluted ==> r@ == "POLLUTED"@,
    {
        match self {
            Hazard::Safe => "",
            Hazard::LowO2 => "LOW O2",
            Hazard::HighCo2 => "HIGH CO2",
            Hazard::Polluted => "POLLUTED",
        }
    }
}

/// Tiles that hold air: floor, machines and doors (walls and the outside
/// do not).
pub open spec fn spec_is_air_tile(t: Option<Tile>) -> bool {
    t == Some(Tile::Floor) || t == Some(Tile::Machine) || t == Some(Tile::Door)
}

pub fn is_air_tile(t: Option<Tile>) -> (r: bool)
    ensures
        r == spec_is_air_tile(t),
{
    match t {
        Some(Tile::Floor) | Some(Tile::Machine) | Some(Tile::Door) => true,
        _ => false,
    }
}

} // verus!
