//! Ship Alive — the verified simulation core of a small ship colony sim.
//!
//! Four crew live and work inside a fixed starter ship: they haul cargo,
//! construct and tear down interior structures, run a fabricator, and keep
//! the ship powered and airtight. This crate holds the rules of that world —
//! grid map, pathfinding, jobs, power networks, doors and compartments,
//! production and the simulation clock — each with a proved contract.

use vstd::prelude::*;

pub mod items;
pub mod map;
pub mod path;
pub mod text;
pub mod storage;
pub mod production;
pub mod simtime;
pub mod time_ctrl;
pub mod log;
pub mod stats;
pub mod crew;
pub mod graph;
pub mod grid;
pub mod dist;
pub mod building;
pub mod power;
pub mod coolant;
pub mod airtight;
pub mod atmosphere;
pub mod jobs;
pub mod thermal;
pub mod task;
pub mod art;
pub mod controls;
pub mod movement;
pub mod scan;
pub mod wake;

verus! {

/// Exclusive full-map overlay view (power / thermal / coolant /
/// compartments). Mutually exclusive by construction — one value, one
/// active mode.
#[derive(Clone, Copy, PartialEq, Eq, Structural, Debug)]
pub enum OverlayMode {
    Off,
    Power,
    Thermal,
    Coolant,
    Compartments,
}

impl Default for OverlayMode {
    fn default() -> (r: Self)
        ensures
            r == OverlayMode::Off,
    {
        OverlayMode::Off
    }
}

/// The overlay after one press of the cycle key.
pub open spec fn next_overlay(m: OverlayMode) -> OverlayMode {
    match m {
        OverlayMode::Off => OverlayMode::Power,
        OverlayMode::Power => OverlayMode::Thermal,
        OverlayMode::Thermal => OverlayMode::Coolant,
        OverlayMode::Coolant => OverlayMode::Compartments,
        OverlayMode::Compartments => OverlayMode::Off,
    }
}

impl OverlayMode {
    pub fn label(self) -> (r: &'static str)
        ensures
            self == OverlayMode::Off ==> r@ == "Off"@,
            self == OverlayMode::Power ==> r@ == "Power"@,
            self == OverlayMode::Thermal ==> r@ == "Thermal"@,
            self == OverlayMode::Coolant ==> r@ == "Coolant"@,
            self == OverlayMode::Compartments ==> r@ == "Compartments"@,
    {
        match self {
            OverlayMode::Off => "Off",
            OverlayMode::Power => "Power",
            OverlayMode::Thermal => "Thermal",
            OverlayMode::Coolant => "Coolant",
            OverlayMode::Compartments => "Compartments",
        }
    }

    pub fn cycle(self) -> (r: Self)
        ensures
            r == next_overlay(self),
    {
        match self {
            OverlayMode::Off => OverlayMode::Power,
            OverlayMode::Power => OverlayMode::Thermal,
            OverlayMode::Thermal => OverlayMode::Coolant,
            OverlayMode::Coolant => OverlayMode::Compartments,
            OverlayMode::Compartments => OverlayMode::Off,
        }
    }
}

/// Cycling visits every overlay once and returns to the start after five
/// presses.
pub proof fn lemma_overlay_cycle(m: OverlayMode)
    ensures
        next_overlay(next_overlay(next_overlay(next_overlay(next_overlay(m))))) == m,
        next_overlay(m) != m,
{
}

} // verus!
