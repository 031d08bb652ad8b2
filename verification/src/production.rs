//! Minimal production chain: asteroid ore → fabricator → machinery parts.
//!
//! A fabricator is a built 2x2 machine. The player gives it an order
//! (`Produce N` or `Repeat`); auto-logistics hauls ore into its input buffer;
//! when inputs are satisfied a crew member walks over and *operates* the
//! machine for the recipe duration — nothing happens without a worker. Output
//! piles up in the machine's output buffer until haulers move it to storage,
//! so a full output blocks further cycles (visible machine state).

use crate::items::{kind_index, ItemKind};
use vstd::prelude::*;

verus! {

/// The single recipe.
#[derive(Clone, Copy)]
pub struct Recipe {
    pub in_kind: ItemKind,
    pub in_qty: u32,
    pub out_kind: ItemKind,
    pub out_qty: u32,
    /// Crew work per cycle, in sim seconds.
    pub work_secs: u32,
}

/// 2 ore → 1 part, 6 sim seconds of crew work.
pub open spec fn spec_recipe() -> Recipe {
    Recipe { in_kind: ItemKind::Ore, in_qty: 2, out_kind: ItemKind::Part, out_qty: 1, work_secs: 6 }
}

/// The recipe every fabricator runs (see `spec_recipe`).
pub fn recipe() -> (r: Recipe)
    ensures
        r == spec_recipe(),
{
    Recipe { in_kind: ItemKind::Ore, in_qty: 2, out_kind: ItemKind::Part, out_qty: 1, work_secs: 6 }
}

/// One production order: `batches` more runs, or endless when `repeat`.
#[derive(Clone, Copy, PartialEq, Eq, Structural, Debug)]
pub struct Order {
    pub batches: u32,
    pub repeat: bool,
}

#[derive(Clone, Copy, PartialEq, Eq, Structural, Debug)]
pub enum MachineState {
    NoOrder,
    WaitingInput,
    WaitingWorker,
    Working,
    OutputBlocked,
}

impl MachineState {
    pub fn label(&self) -> (r: &'static str)
        ensures
            *self == MachineState::NoOrder ==> r@ == "Idle — no order"@,
            *self == MachineState::WaitingInput ==> r@ == "Waiting for input"@,
            *self == MachineState::WaitingWorker ==> r@ == "Waiting for worker"@,
            *self == MachineState::Working ==> r@ == "Working"@,
            *self == MachineState::OutputBlocked ==> r@ == "Output blocked — haul parts away"@,
    {
        match self {
            MachineState::NoOrder => "Idle — no order",
            MachineState::WaitingInput => "Waiting for input",
            MachineState::WaitingWorker => "Waiting for worker",
            MachineState::Working => "Working",
            MachineState::OutputBlocked => "Output blocked — haul parts away",
        }
    }

    pub fn blocked(&self) -> (r: bool)
        ensures
            r == (*self == MachineState::OutputBlocked),
    {
        match self {
            MachineState::OutputBlocked => true,
            _ => false,
        }
    }
}

/// Input buffer capacity (recipe input units).
pub const INPUT_CAP: u32 = 8;

/// Output buffer capacity (recipe output units).
pub const OUTPUT_CAP: u32 = 6;

/// Cycle progress at completion, in parts per million.
pub const PROGRESS_FULL: u32 = 1_000_000;

pub struct Fabricator {
    /// Input buffer counts by `ItemKind::index`.
    pub input: [u32; 3],
    /// Output buffer counts by `ItemKind::index`.
    pub output: [u32; 3],
    pub order: Option<Order>,
    /// True while a crew member is operating the current cycle.
    pub active: bool,
    /// Progress of the current cycle in parts per million (0..=PROGRESS_FULL).
    pub progress: u32,
}

impl Default for Fabricator {
    fn default() -> (r: Self)
        ensures
            r.input@ == seq![0u32, 0u32, 0u32],
            r.output@ == seq![0u32, 0u32, 0u32],
            r.order is None,
            !r.active,
            r.progress == 0,
    {
        Fabricator { input: [0, 0, 0], output: [0, 0, 0], order: None, active: false, progress: 0 }
    }
}

impl Fabricator {
    pub open spec fn spec_state(&self) -> MachineState {
        let r = spec_recipe();
        if self.order is None {
            MachineState::NoOrder
        } else if self.output@[kind_index(r.out_kind)] + r.out_qty > OUTPUT_CAP {
            MachineState::OutputBlocked
        } else if self.input@[kind_index(r.in_kind)] < r.in_qty {
            MachineState::WaitingInput
        } else if self.active {
            MachineState::Working
        } else {
            MachineState::WaitingWorker
        }
    }

    /// Units of recipe input still to deliver, before subtracting `inbound`.
    pub open spec fn spec_input_want(&self, inbound: u32) -> int {
        let r = spec_recipe();
        if self.order is None || self.spec_state() == MachineState::OutputBlocked {
            0
        } else {
            let o = self.order->0;
            let need = if o.repeat {
                INPUT_CAP as int
            } else if o.batches * r.in_qty <= INPUT_CAP {
                o.batches * r.in_qty
            } else {
                INPUT_CAP as int
            };
            let have = self.input@[kind_index(r.in_kind)] as int;
            let after_have = if need >= have { need - have } else { 0 };
            if after_have >= inbound { after_have - inbound } else { 0 }
        }
    }

    pub fn state(&self) -> (r: MachineState)
        ensures
            r == self.spec_state(),
    {
        let rec = recipe();
        if self.order.is_none() {
            return MachineState::NoOrder;
        }
        if self.output[rec.out_kind.index()] as u64 + rec.out_qty as u64 > OUTPUT_CAP as u64 {
            return MachineState::OutputBlocked;
        }
        if self.input[rec.in_kind.index()] < rec.in_qty {
            return MachineState::WaitingInput;
        }
        if self.active {
            MachineState::Working
        } else {
            MachineState::WaitingWorker
        }
    }

    /// Can a worker start a cycle right now?
    pub fn ready_to_work(&self) -> (r: bool)
        ensures
            r == (self.spec_state() == MachineState::WaitingWorker),
    {
        self.state() == MachineState::WaitingWorker
    }

    /// How many more units of recipe input the logistics system should deliver
    /// (`inbound` = units already reserved by haulers heading here).
    pub fn input_want(&self, inbound: u32) -> (r: u32)
        requires
            self.order matches Some(o) ==> o.batches * spec_recipe().in_qty <= u32::MAX,
        ensures
            r == self.spec_input_want(inbound),
    {
        let rec = recipe();
        if self.order.is_none() || self.state().blocked() {
            return 0;
        }
        let need_total: u32 = match self.order {
            Some(o) => {
                if o.repeat {
                    INPUT_CAP
                } else {
                    let n = o.batches * rec.in_qty;
                    if n <= INPUT_CAP {
                        n
                    } else {
                        INPUT_CAP
                    }
                }
            },
            None => 0,
        };
        need_total.saturating_sub(self.input[rec.in_kind.index()]).saturating_sub(inbound)
    }

    /// Complete one production cycle (inputs are consumed at the end, so a
    /// canceled cycle never destroys material). Returns the produced kind.
    pub fn finish_cycle(&mut self) -> (r: ItemKind)
        requires
            old(self).output@[kind_index(spec_recipe().out_kind)] + spec_recipe().out_qty <= u32::MAX,
        ensures
            r == spec_recipe().out_kind,
            ({
                let rec = spec_recipe();
                let ii = kind_index(rec.in_kind);
                let oi = kind_index(rec.out_kind);
                let have = old(self).input@[ii];
                &&& final(self).input@ == old(self).input@.update(
                    ii,
                    (if have >= rec.in_qty { have - rec.in_qty } else { 0 }) as u32,
                )
                &&& final(self).output@ == old(self).output@.update(
                    oi,
                    (old(self).output@[oi] + rec.out_qty) as u32,
                )
            }),
            match old(self).order {
                Some(o) => if o.repeat {
                    final(self).order == old(self).order
                } else if o.batches <= 1 {
                    final(self).order is None
                } else {
                    final(self).order == Some(Order { batches: (o.batches - 1) as u32, repeat: false })
                },
                None => final(self).order is None,
            },
            !final(self).active,
            final(self).progress == 0,
    {
        let rec = recipe();
        let ii = rec.in_kind.index();
        let oi = rec.out_kind.index();
        self.input[ii] = self.input[ii].saturating_sub(rec.in_qty);
        self.output[oi] = self.output[oi] + rec.out_qty;
        match self.order {
            Some(o) => {
                if !o.repeat {
                    let b = o.batches.saturating_sub(1);
                    if b == 0 {
                        self.order = None;
                    } else {
                        self.order = Some(Order { batches: b, repeat: false });
                    }
                }
            },
            None => {},
        }
        self.active = false;
        self.progress = 0;
        rec.out_kind
    }

    /// Add `batches` runs to the order (saturating), starting a plain order
    /// when there is none.
    pub fn add_to_order(&mut self, batches: u32)
        ensures
            final(self).order == Some(match old(self).order {
                Some(o) => Order {
                    batches: if o.batches + batches > u32::MAX {
                        u32::MAX
                    } else {
                        (o.batches + batches) as u32
                    },
                    repeat: o.repeat,
                },
                None => Order { batches, repeat: false },
            }),
            final(self).input == old(self).input,
            final(self).output == old(self).output,
            final(self).active == old(self).active,
            final(self).progress == old(self).progress,
    {
        let next = match self.order {
            Some(o) => Order { batches: o.batches.saturating_add(batches), repeat: o.repeat },
            None => Order { batches, repeat: false },
        };
        self.order = Some(next);
    }

    /// Toggle endless repeat, starting an empty repeating order when there is
    /// none.
    pub fn toggle_repeat(&mut self)
        ensures
            final(self).order == Some(match old(self).order {
                Some(o) => Order { batches: o.batches, repeat: !o.repeat },
                None => Order { batches: 0, repeat: true },
            }),
            final(self).input == old(self).input,
            final(self).output == old(self).output,
            final(self).active == old(self).active,
            final(self).progress == old(self).progress,
    {
        let next = match self.order {
            Some(o) => Order { batches: o.batches, repeat: !o.repeat },
            None => Order { batches: 0, repeat: true },
        };
        self.order = Some(next);
    }

    /// Clear the order and abort a running cycle; buffered input is kept.
    pub fn clear_order(&mut self)
        ensures
            final(self).order is None,
            final(self).input == old(self).input,
            final(self).output == old(self).output,
            !final(self).active,
            final(self).progress == 0,
    {
        self.order = None;
        self.abort_cycle();
    }

    /// A hauler loads one unit of `kind` into the input buffer.
    pub fn load(&mut self, kind: ItemKind)
        requires
            old(self).input@[kind_index(kind)] < u32::MAX,
        ensures
            final(self).input@ == old(self).input@.update(
                kind_index(kind),
                (old(self).input@[kind_index(kind)] + 1) as u32,
            ),
            final(self).output@ == old(self).output@,
            final(self).order == old(self).order,
            final(self).active == old(self).active,
            final(self).progress == old(self).progress,
    {
        let i = kind.index();
        self.input[i] = self.input[i] + 1;
    }

    /// Abort the current cycle (worker left): no material is consumed.
    pub fn abort_cycle(&mut self)
        ensures
            final(self).input@ == old(self).input@,
            final(self).output@ == old(self).output@,
            final(self).order == old(self).order,
            !final(self).active,
            final(self).progress == 0,
    {
        self.active = false;
        self.progress = 0;
    }
}

/// A blocked output or a missing order never draws supply: whenever the
/// machine is output-blocked or has no order, `input_want` is zero for every
/// inbound count, and it never asks for more than fills the input buffer.
pub proof fn lemma_input_want_bounds(f: Fabricator, inbound: u32)
    ensures
        (f.spec_state() == MachineState::OutputBlocked || f.order is None) ==> f.spec_input_want(inbound) == 0,
        f.spec_input_want(inbound) <= INPUT_CAP,
        f.spec_input_want(inbound) + inbound >= f.spec_input_want(0) || f.spec_input_want(inbound) == 0,
{
}

} // verus!
