//! Player time-scale control: Pause / 1× / 2× / 4×.
//!
//! The scale itself lives in `GameSpeed`; the pacing of simulation time is
//! owned by `simtime`. Space toggles between Pause and the last non-paused
//! speed.

use crate::simtime::{speed_label, speed_label_text};
use vstd::prelude::*;

verus! {

#[derive(Clone, Copy, PartialEq, Eq, Structural, Debug)]
pub struct GameSpeed {
    /// Index into `crate::simtime::SPEED_SCALES` (0 = paused).
    pub index: usize,
    /// Last explicitly chosen non-paused index (for Space resume).
    pub last_nonzero: usize,
}

impl GameSpeed {
    /// Indices stay inside the scale table and the remembered speed is a
    /// running one.
    pub open spec fn wf(&self) -> bool {
        self.index <= 3 && 1 <= self.last_nonzero <= 3
    }
}

impl Default for GameSpeed {
    fn default() -> (r: Self)
        ensures
            r.index == 1,
            r.last_nonzero == 1,
    {
        GameSpeed { index: 1, last_nonzero: 1 }
    }
}

impl GameSpeed {
    pub fn label(&self) -> (r: &'static str)
        ensures
            r@ == speed_label_text(self.index as int),
    {
        speed_label(self.index)
    }

    /// Pick a speed by index (clamped to the table). Index 0 is the pause
    /// button: it pauses, or resumes the remembered speed when already
    /// paused. Explicit picks are remembered.
    pub fn set_speed(&mut self, index: usize)
        requires
            old(self).wf(),
        ensures
            final(self).wf(),
            ({
                let i = if index > 3 { 3 } else { index as int };
                if i == 0 {
                    final(self).last_nonzero == old(self).last_nonzero && final(self).index == (if old(
                        self,
                    ).index == 0 {
                        old(self).last_nonzero as int
                    } else {
                        0
                    })
                } else {
                    final(self).index == i && final(self).last_nonzero == i
                }
            }),
    {
        let index = if index > 3 { 3 } else { index };
        if index == 0 {
            if self.index == 0 {
                self.index = self.last_nonzero;
            } else {
                self.index = 0;
            }
        } else {
            self.index = index;
            self.last_nonzero = index;
        }
    }

    /// Space: flip between Pause and the remembered speed.
    pub fn toggle_pause(&mut self)
        requires
            old(self).wf(),
        ensures
            final(self).wf(),
            final(self).last_nonzero == old(self).last_nonzero,
            final(self).index == (if old(self).index == 0 {
                old(self).last_nonzero as int
            } else {
                0
            }),
    {
        if self.index == 0 {
            self.index = self.last_nonzero;
        } else {
            self.index = 0;
        }
    }
}

/// The pause toggle, as a function of the speed state.
pub open spec fn toggled(s: GameSpeed) -> GameSpeed {
    GameSpeed { index: if s.index == 0 { s.last_nonzero } else { 0 }, last_nonzero: s.last_nonzero }
}

/// Pausing twice from a running speed comes back to that speed; from pause,
/// two toggles come back to pause.
pub proof fn lemma_toggle_twice(s: GameSpeed)
    requires
        s.wf(),
    ensures
        toggled(s).wf(),
        s.index == s.last_nonzero || s.index == 0 ==> toggled(toggled(s)) == s,
        s.index != 0 ==> toggled(toggled(s)).index == s.last_nonzero,
{
}

} // verus!
