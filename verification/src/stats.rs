//! Lightweight dev telemetry surfaced in the HUD and the autotest dumps.
//! Used to compare "bad layout vs. improved layout" runs during playtests.

use crate::text::{dec, push_chars, push_dec, string_of};
use vstd::prelude::*;

verus! {

#[derive(Clone, Copy, PartialEq, Eq, Structural, Debug, Default)]
pub struct Stats {
    pub built: u32,
    pub deconstructed: u32,
    /// Fabricator batches completed.
    pub produced: u32,
    pub hauls_done: u32,
    /// Total tiles of haul paths accepted by crew (rough logistics load).
    pub haul_distance: u32,
}

impl Stats {
    /// `built=.. demo=.. produced=.. hauls=.. haul_dist=..`
    pub open spec fn summary_text(&self) -> Seq<char> {
        "built="@ + dec(self.built as nat) + " demo="@ + dec(self.deconstructed as nat) + " produced="@
            + dec(self.produced as nat) + " hauls="@ + dec(self.hauls_done as nat) + " haul_dist="@ + dec(
            self.haul_distance as nat,
        )
    }

    pub fn summary(&self) -> (r: String)
        ensures
            r@ == self.summary_text(),
    {
        let mut out: Vec<char> = Vec::new();
        push_chars(&mut out, &['b', 'u', 'i', 'l', 't', '=']);
        push_dec(&mut out, self.built as u64);
        push_chars(&mut out, &[' ', 'd', 'e', 'm', 'o', '=']);
        push_dec(&mut out, self.deconstructed as u64);
        push_chars(&mut out, &[' ', 'p', 'r', 'o', 'd', 'u', 'c', 'e', 'd', '=']);
        push_dec(&mut out, self.produced as u64);
        push_chars(&mut out, &[' ', 'h', 'a', 'u', 'l', 's', '=']);
        push_dec(&mut out, self.hauls_done as u64);
        push_chars(&mut out, &[' ', 'h', 'a', 'u', 'l', '_', 'd', 'i', 's', 't', '=']);
        push_dec(&mut out, self.haul_distance as u64);
        proof {
            reveal_strlit("built=");
            reveal_strlit(" demo=");
            reveal_strlit(" produced=");
            reveal_strlit(" hauls=");
            reveal_strlit(" haul_dist=");
            assert(out@ =~= self.summary_text());
        }
        string_of(out)
    }
}

} // verus!
