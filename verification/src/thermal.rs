//! Thermal condition of a device. The temperatures themselves are simulated
//! outside this crate; a device's temperature reaches this module as the
//! band it falls in relative to the device's thresholds, and the state
//! machine with hysteresis, reactor derating and the log lines are decided
//! here.

use crate::building::{def, def_label, BuildingKind};
use crate::coolant::PUMP_DEMAND;
use crate::power::{PowerSolution, REACTOR_OUTPUT};
use crate::text::{int_dec, push_int, string_of};
use vstd::prelude::*;

verus! {

/// Thermal condition of a device, with hysteresis applied by the simulation.
#[derive(Clone, Copy, PartialEq, Eq, Structural, Debug, Default)]
pub enum ThermalState {
    #[default]
    Normal,
    /// Derated but running.
    Overheat,
    /// Emergency: reactors make emergency power only, fabricators stop.
    Critical,
}

/// Fabricator work speed under each state, in parts per million.
pub open spec fn spec_work_factor_ppm(s: ThermalState) -> int {
    match s {
        ThermalState::Normal => 1_000_000,
        ThermalState::Overheat => 400_000,
        ThermalState::Critical => 0,
    }
}

impl ThermalState {
    pub fn label(self) -> (r: &'static str)
        ensures
            self == ThermalState::Normal ==> r@ == "normal"@,
            self == ThermalState::Overheat ==> r@ == "OVERHEAT"@,
            self == ThermalState::Critical ==> r@ == "THERMAL CRITICAL"@,
    {
        match self {
            ThermalState::Normal => "normal",
            ThermalState::Overheat => "OVERHEAT",
            ThermalState::Critical => "THERMAL CRITICAL",
        }
    }

    /// Fabricator work-speed factor under this state, in parts per million
    /// (full speed, 40 %, stalled).
    pub fn work_factor_ppm(self) -> (r: u32)
        ensures
            r == spec_work_factor_ppm(self),
    {
        match self {
            ThermalState::Normal => 1_000_000,
            ThermalState::Overheat => 400_000,
            ThermalState::Critical => 0,
        }
    }
}


/// Pumps on network `net` among the devices `0..k`.
pub open spec fn pumps_on(device_net: Seq<Option<usize>>, is_pump: Seq<bool>, net: usize, k: int) -> int
    decreases k,
{
    if k <= 0 {
        0
    } else {
        pumps_on(device_net, is_pump, net, k - 1) + if device_net[k - 1] == Some(net) && is_pump[k - 1] {
            1int
        } else {
            0int
        }
    }
}

/// Emergency output a critical reactor keeps: enough for the pumps on its
/// network plus a small margin (one pump's worth when it is unconnected).
pub open spec fn spec_emergency_output(device_net: Seq<Option<usize>>, is_pump: Seq<bool>, reactor: int) -> int {
    match device_net[reactor] {
        None => PUMP_DEMAND + 4,
        Some(net) => pumps_on(device_net, is_pump, net, device_net.len() as int) * PUMP_DEMAND + 4,
    }
}

/// Emergency output of device `reactor` (by position) under the power
/// solution `power`; `is_pump` marks the pumps among the devices.
pub fn emergency_output_for(power: &PowerSolution, is_pump: &[bool], reactor: usize) -> (r: u32)
    requires
        reactor < power.device_net@.len(),
        is_pump@.len() == power.device_net@.len(),
        power.device_net@.len() <= 0x1000_0000,
    ensures
        r == spec_emergency_output(power.device_net@, is_pump@, reactor as int),
{
    let net = match power.device_net[reactor] {
        None => {
            return PUMP_DEMAND + 4;
        },
        Some(net) => net,
    };
    let n = power.device_net.len();
    let mut count: u32 = 0;
    let mut d: usize = 0;
    while d < n
        invariant
            n == power.device_net@.len(),
            is_pump@.len() == n,
            n <= 0x1000_0000,
            0 <= d <= n,
            count == pumps_on(power.device_net@, is_pump@, net, d as int),
            count <= d,
        decreases n - d,
    {
        let here = match power.device_net[d] {
            Some(g) => g == net,
            None => false,
        };
        if here && is_pump[d] {
            count = count + 1;
        }
        d = d + 1;
    }
    count * PUMP_DEMAND + 4
}

/// Where a device's hottest footprint tile stands against its thresholds.
/// Every device orders them `recover_from_overheat < overheat_at <
/// recover_from_critical < critical_at`, so a temperature falls in exactly
/// one band.
#[derive(Clone, Copy, PartialEq, Eq, Structural, Debug)]
pub enum TempBand {
    /// Below `recover_from_overheat`.
    Cool,
    /// From `recover_from_overheat` up to `overheat_at`.
    Mild,
    /// From `overheat_at` up to `recover_from_critical`.
    Warm,
    /// From `recover_from_critical` up to `critical_at`.
    Hot,
    /// At or above `critical_at`.
    Scorching,
}

/// The state after one step at temperature band `b`: trip upward at
/// `overheat_at` / `critical_at`, recover only below the lower recovery
/// thresholds (and from critical only back to overheat).
pub open spec fn spec_next_state(s: ThermalState, b: TempBand) -> ThermalState {
    match s {
        ThermalState::Normal => match b {
            TempBand::Scorching => ThermalState::Critical,
            TempBand::Warm | TempBand::Hot => ThermalState::Overheat,
            _ => ThermalState::Normal,
        },
        ThermalState::Overheat => match b {
            TempBand::Scorching => ThermalState::Critical,
            TempBand::Cool => ThermalState::Normal,
            _ => ThermalState::Overheat,
        },
        ThermalState::Critical => match b {
            TempBand::Hot | TempBand::Scorching => ThermalState::Critical,
            _ => ThermalState::Overheat,
        },
    }
}

/// Reactor output while overheated: 60 % of full output.
pub const DERATED_REACTOR_OUTPUT: u32 = 60;

/// Generation of a reactor in state `s`, given its emergency output.
pub open spec fn spec_reactor_output(s: ThermalState, emergency: u32) -> u32 {
    match s {
        ThermalState::Normal => REACTOR_OUTPUT,
        ThermalState::Overheat => DERATED_REACTOR_OUTPUT,
        ThermalState::Critical => emergency,
    }
}

/// Log line for a device entering state `s` at `degrees` °C.
pub open spec fn thermal_text(kind: BuildingKind, s: ThermalState, degrees: int) -> Seq<char> {
    def_label(kind) + match s {
        ThermalState::Overheat => " overheated at "@ + int_dec(degrees) + "°C — derating"@,
        ThermalState::Critical => " THERMAL CRITICAL at "@ + int_dec(degrees) + "°C — emergency mode"@,
        ThermalState::Normal => " cooled to "@ + int_dec(degrees) + "°C — recovered"@,
    }
}

impl ThermalState {
    /// One step of the hysteresis state machine at temperature band `band`.
    pub fn next(self, band: TempBand) -> (r: ThermalState)
        ensures
            r == spec_next_state(self, band),
            band == TempBand::Scorching ==> r == ThermalState::Critical,
            band == TempBand::Cool && self != ThermalState::Critical ==> r == ThermalState::Normal,
            self == ThermalState::Normal && (band == TempBand::Warm || band == TempBand::Hot) ==> r
                == ThermalState::Overheat,
            self == ThermalState::Overheat && band != TempBand::Scorching && band != TempBand::Cool ==> r
                == ThermalState::Overheat,
            self == ThermalState::Critical && band == TempBand::Hot ==> r == ThermalState::Critical,
            self == ThermalState::Critical && band != TempBand::Hot && band != TempBand::Scorching ==> r
                == ThermalState::Overheat,
            self == ThermalState::Normal && band == TempBand::Mild ==> r == ThermalState::Normal,
    {
        match self {
            ThermalState::Normal => match band {
                TempBand::Scorching => ThermalState::Critical,
                TempBand::Warm | TempBand::Hot => ThermalState::Overheat,
                _ => ThermalState::Normal,
            },
            ThermalState::Overheat => match band {
                TempBand::Scorching => ThermalState::Critical,
                TempBand::Cool => ThermalState::Normal,
                _ => ThermalState::Overheat,
            },
            ThermalState::Critical => match band {
                TempBand::Hot | TempBand::Scorching => ThermalState::Critical,
                _ => ThermalState::Overheat,
            },
        }
    }
}

/// Generation a reactor runs at in state `s`: full, derated, or the
/// emergency output that keeps its network's coolant pumps running.
pub fn reactor_output(s: ThermalState, emergency: u32) -> (r: u32)
    ensures
        r == spec_reactor_output(s, emergency),
{
    match s {
        ThermalState::Normal => REACTOR_OUTPUT,
        ThermalState::Overheat => DERATED_REACTOR_OUTPUT,
        ThermalState::Critical => emergency,
    }
}

/// The event-log line announcing that a device of `kind` entered state `s`
/// at `degrees` °C (the temperature rounded to whole degrees).
pub fn thermal_log_text(kind: BuildingKind, s: ThermalState, degrees: i32) -> (r: String)
    ensures
        r@ == thermal_text(kind, s, degrees as int),
{
    let (head, tail) = match s {
        ThermalState::Overheat => (" overheated at ", "°C — derating"),
        ThermalState::Critical => (" THERMAL CRITICAL at ", "°C — emergency mode"),
        ThermalState::Normal => (" cooled to ", "°C — recovered"),
    };
    let mut digits: Vec<char> = Vec::new();
    push_int(&mut digits, degrees);
    let num = string_of(digits);
    let mut text = String::from_str(def(kind).label);
    text.append(head);
    text.append(num.as_str());
    text.append(tail);
    text
}

/// The thresholds: at or above `critical_at` every device goes critical;
/// below `recover_from_overheat` a device that is not critical is normal;
/// a normal device trips to overheat from `overheat_at` up; an overheated
/// one stays so between the recovery threshold and `critical_at`; a
/// critical one stays critical from `recover_from_critical` up and drops
/// to overheat below it.
pub proof fn lemma_thermal_thresholds(s: ThermalState, b: TempBand)
    ensures
        b == TempBand::Scorching ==> spec_next_state(s, b) == ThermalState::Critical,
        b == TempBand::Cool && s != ThermalState::Critical ==> spec_next_state(s, b) == ThermalState::Normal,
        s == ThermalState::Normal && (b == TempBand::Warm || b == TempBand::Hot) ==> spec_next_state(s, b)
            == ThermalState::Overheat,
        s == ThermalState::Overheat && b != TempBand::Scorching && b != TempBand::Cool ==> spec_next_state(s, b)
            == ThermalState::Overheat,
        s == ThermalState::Critical && b == TempBand::Hot ==> spec_next_state(s, b) == ThermalState::Critical,
        s == ThermalState::Critical && b != TempBand::Hot && b != TempBand::Scorching ==> spec_next_state(s, b)
            == ThermalState::Overheat,
{
}

/// Reactor output by state: full when normal, derated below full when
/// overheated, exactly the emergency output when critical.
pub proof fn lemma_reactor_output_by_state(s: ThermalState, emergency: u32)
    ensures
        s == ThermalState::Normal ==> spec_reactor_output(s, emergency) == REACTOR_OUTPUT,
        s == ThermalState::Overheat ==> spec_reactor_output(s, emergency) == REACTOR_OUTPUT * 6 / 10,
        s == ThermalState::Critical ==> spec_reactor_output(s, emergency) == emergency,
{
}

/// At a steady temperature the state settles within two steps and then
/// stays put: the hysteresis never flaps.
pub proof fn lemma_steady_band_settles(s: ThermalState, b: TempBand)
    ensures
        spec_next_state(spec_next_state(spec_next_state(s, b), b), b) == spec_next_state(spec_next_state(s, b), b),
{
}

/// A critical device never recovers straight to normal, and a normal one
/// never trips below `overheat_at`.
pub proof fn lemma_no_skipped_recovery(s: ThermalState, b: TempBand)
    ensures
        s == ThermalState::Critical ==> spec_next_state(s, b) != ThermalState::Normal,
        s == ThermalState::Normal && (b == TempBand::Cool || b == TempBand::Mild) ==> spec_next_state(s, b)
            == ThermalState::Normal,
{
}

} // verus!
