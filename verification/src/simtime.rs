//! Unified simulation time — the single authoritative clock for gameplay.
//!
//! - **Real time** only drives the scheduler, rendering and UI.
//! - **Simulation time** (`SimClock`): the ship's continuous timeline,
//!   `T+HHH:MM:SS`, hours roll past 24 without wrapping, no game days.
//!   Measured in whole microseconds (`i64`) so 1000+ hour runs keep exact
//!   second-level precision.
//! - **Player time scale** (`GameSpeed`): Pause / 1× / 2× / 4× — how much
//!   simulation time one real second produces.
//!
//! Continuous gameplay advances in fixed steps of `SIM_STEP_US`; each frame
//! the real delta is offered as backlog and the fixed loop pulls whole steps
//! from it, so the clock never runs ahead of processed world state.

use crate::text::{dec, dec_pad, push_chars, push_dec, push_dec_pad, string_of};
use vstd::prelude::*;

verus! {

/// Simulation seconds advanced per real second at player scale 1×.
pub const BASE_SIM_RATE: i64 = 60;

/// Fixed simulation step for continuous systems: one sim second.
pub const SIM_STEP_US: i64 = 1_000_000;

/// Player time scales (index 0 = pause).
pub const SPEED_SCALES: [i64; 4] = [0, 1, 2, 4];

/// The scale at `index` (pause outside the table).
pub open spec fn speed_scale(index: int) -> int {
    if index == 1 {
        1
    } else if index == 2 {
        2
    } else if index == 3 {
        4
    } else {
        0
    }
}

/// While paused, a frame offers no simulation time, however long it was.
pub proof fn lemma_pause_offers_nothing(real_us: int)
    ensures
        real_us * BASE_SIM_RATE * speed_scale(0) == 0,
{
}

/// The authoritative simulation clock.
pub struct SimClock {
    pub elapsed_us: i64,
    /// dt (sim microseconds) visible to gameplay during the current step.
    pub step_dt_us: i64,
    /// Sim time offered but not yet executed (catch-up backlog).
    pub backlog_us: i64,
    /// Steps executed during the current frame.
    pub pending_steps: u64,
    /// Telemetry: steps executed in the last frame.
    pub steps_last_frame: u64,
    /// Telemetry: peak steps in any single frame since startup.
    pub peak_steps: u64,
}

/// State after pulling fixed steps from the backlog until less than one
/// step remains: `(elapsed, backlog)`.
pub open spec fn drain(elapsed: int, backlog: int) -> (int, int)
    decreases backlog,
{
    if backlog < 1_000_000int {
        (elapsed, backlog)
    } else {
        drain(elapsed + 1_000_000int, backlog - 1_000_000int)
    }
}

/// Draining adds the whole steps of the backlog to the elapsed time and
/// keeps the remainder.
pub proof fn lemma_drain_closed_form(elapsed: int, backlog: int)
    requires
        backlog >= 0,
    ensures
        drain(elapsed, backlog) == (
            elapsed + (backlog / 1_000_000int) * 1_000_000int,
            backlog % 1_000_000int,
        ),
    decreases backlog,
{
    if backlog >= 1_000_000int {
        lemma_drain_closed_form(elapsed + 1_000_000int, backlog - 1_000_000int);
        assert((backlog - 1_000_000int) / 1_000_000int == backlog / 1_000_000int - 1);
        assert((backlog - 1_000_000int) % 1_000_000int == backlog % 1_000_000int);
    }
}

/// Frames of any size reach the same time: offering `a` then `b` sim
/// microseconds, draining after each, ends exactly where offering `a + b`
/// at once and draining ends.
pub proof fn lemma_split_offers_agree(elapsed: int, backlog: int, a: int, b: int)
    requires
        backlog >= 0,
        a >= 0,
        b >= 0,
    ensures
        ({
            let s1 = drain(elapsed, backlog + a);
            drain(s1.0, s1.1 + b)
        }) == drain(elapsed, backlog + a + b),
{
    lemma_drain_closed_form(elapsed, backlog + a);
    let s1 = drain(elapsed, backlog + a);
    lemma_drain_closed_form(s1.0, s1.1 + b);
    lemma_drain_closed_form(elapsed, backlog + a + b);
    let x = backlog + a;
    let q1 = x / 1_000_000int;
    let r1 = x % 1_000_000int;
    let q2 = (r1 + b) / 1_000_000int;
    let r2 = (r1 + b) % 1_000_000int;
    assert(x == q1 * 1_000_000int + r1);
    assert(r1 + b == q2 * 1_000_000int + r2);
    assert(x + b == (q1 + q2) * 1_000_000int + r2);
    assert(0 <= r2 < 1_000_000int);
    assert((x + b) / 1_000_000int == q1 + q2 && (x + b) % 1_000_000int == r2) by {
        vstd::arithmetic::div_mod::lemma_fundamental_div_mod_converse(
            x + b,
            1_000_000int,
            q1 + q2,
            r2,
        );
    }
}

impl Default for SimClock {
    fn default() -> (r: Self)
        ensures
            r.spec_elapsed() == 0,
            r.spec_backlog() == 0,
            r.spec_dt() == 0,
            r.spec_pending() == 0,
            r.steps_last_frame == 0,
            r.peak_steps == 0,
    {
        SimClock {
            elapsed_us: 0,
            step_dt_us: 0,
            backlog_us: 0,
            pending_steps: 0,
            steps_last_frame: 0,
            peak_steps: 0,
        }
    }
}

impl SimClock {
    pub open spec fn spec_elapsed(&self) -> int {
        self.elapsed_us as int
    }

    pub open spec fn spec_backlog(&self) -> int {
        self.backlog_us as int
    }

    pub open spec fn spec_dt(&self) -> int {
        self.step_dt_us as int
    }

    pub open spec fn spec_pending(&self) -> int {
        self.pending_steps as int
    }

    /// The clock's invariant: time never runs backwards from zero and the
    /// backlog is never negative.
    pub open spec fn wf(&self) -> bool {
        self.spec_elapsed() >= 0 && self.spec_backlog() >= 0
    }

    /// Current simulation time in sim microseconds.
    pub fn now(&self) -> (r: i64)
        ensures
            r == self.spec_elapsed(),
    {
        self.elapsed_us
    }

    /// dt of the current tick in sim microseconds (`SIM_STEP_US` in the
    /// app; test harnesses may drive manual slices).
    pub fn dt(&self) -> (r: i64)
        ensures
            r == self.spec_dt(),
    {
        self.step_dt_us
    }

    /// Unprocessed offered sim time in whole sim seconds (catch-up backlog).
    pub fn backlog_secs(&self) -> (r: i64)
        requires
            self.wf(),
        ensures
            r == self.spec_backlog() / 1_000_000,
    {
        self.backlog_us / 1_000_000
    }

    /// Convert a real-time duration at 1× into sim time (both in
    /// microseconds) — the helper every gameplay constant is expressed
    /// through.
    pub fn real_secs_to_sim(real_us: i64) -> (r: i64)
        requires
            0 <= real_us <= i64::MAX / 60,
        ensures
            r == real_us * BASE_SIM_RATE,
    {
        assert(0 <= real_us * 60 <= i64::MAX) by (nonlinear_arith)
            requires
                0 <= real_us <= i64::MAX / 60,
        ;
        real_us * BASE_SIM_RATE
    }

    /// Called once per frame: convert the real delta (microseconds) at the
    /// player scale (index into `SPEED_SCALES`) into requested sim advance
    /// and add it to the backlog.
    pub fn offer_real_delta(&mut self, real_us: i64, scale_index: usize)
        requires
            old(self).wf(),
            real_us >= 0,
            scale_index < 4,
            old(self).spec_backlog() + real_us * BASE_SIM_RATE * speed_scale(scale_index as int) <= i64::MAX,
        ensures
            final(self).wf(),
            final(self).spec_backlog() == old(self).spec_backlog() + real_us * BASE_SIM_RATE
                * speed_scale(scale_index as int),
            final(self).spec_elapsed() == old(self).spec_elapsed(),
            final(self).spec_dt() == old(self).spec_dt(),
            final(self).spec_pending() == old(self).spec_pending(),
            final(self).steps_last_frame == old(self).steps_last_frame,
            final(self).peak_steps == old(self).peak_steps,
    {
        let scale = SPEED_SCALES[scale_index];
        assert(scale == speed_scale(scale_index as int));
        let per_us: i64 = BASE_SIM_RATE * scale;
        assert(0 <= real_us * per_us && real_us * per_us == real_us * BASE_SIM_RATE * scale) by (nonlinear_arith)
            requires
                real_us >= 0,
                scale >= 0,
                per_us == BASE_SIM_RATE * scale,
        ;
        self.backlog_us = self.backlog_us + real_us * per_us;
    }

    /// Advance exactly one fixed step, pulling it from the backlog. Returns
    /// false (and changes nothing) when less than one step is offered — the
    /// rest stays as backlog for later frames.
    pub fn begin_fixed_step(&mut self) -> (r: bool)
        requires
            old(self).wf(),
            old(self).spec_elapsed() + old(self).spec_backlog() <= i64::MAX,
            old(self).spec_pending() < u64::MAX,
        ensures
            final(self).wf(),
            r == (old(self).spec_backlog() >= SIM_STEP_US),
            r ==> final(self).spec_elapsed() == old(self).spec_elapsed() + SIM_STEP_US
                && final(self).spec_backlog() == old(self).spec_backlog() - SIM_STEP_US
                && final(self).spec_dt() == SIM_STEP_US && final(self).spec_pending()
                == old(self).spec_pending() + 1,
            !r ==> *final(self) == *old(self),
            final(self).spec_elapsed() + final(self).spec_backlog() == old(self).spec_elapsed()
                + old(self).spec_backlog(),
            drain(final(self).spec_elapsed(), final(self).spec_backlog()) == drain(
                old(self).spec_elapsed(),
                old(self).spec_backlog(),
            ),
            final(self).steps_last_frame == old(self).steps_last_frame,
            final(self).peak_steps == old(self).peak_steps,
    {
        if self.backlog_us < SIM_STEP_US {
            return false;
        }
        self.backlog_us = self.backlog_us - SIM_STEP_US;
        self.elapsed_us = self.elapsed_us + SIM_STEP_US;
        self.step_dt_us = SIM_STEP_US;
        self.pending_steps = self.pending_steps + 1;
        true
    }

    /// Called once per frame after the fixed loop: publish the frame's step
    /// count telemetry.
    pub fn frame_bookkeeping(&mut self)
        ensures
            final(self).steps_last_frame == old(self).spec_pending(),
            final(self).peak_steps == (if old(self).peak_steps >= old(self).spec_pending() {
                old(self).peak_steps as int
            } else {
                old(self).spec_pending()
            }),
            final(self).spec_pending() == 0,
            final(self).spec_elapsed() == old(self).spec_elapsed(),
            final(self).spec_backlog() == old(self).spec_backlog(),
            final(self).spec_dt() == old(self).spec_dt(),
    {
        self.steps_last_frame = self.pending_steps;
        if self.pending_steps > self.peak_steps {
            self.peak_steps = self.pending_steps;
        }
        self.pending_steps = 0;
    }

    /// Mark the current fixed step as empty (a stray fixed-loop run with no
    /// backlog): gameplay sees `dt() == 0` and cheaply no-ops.
    pub fn idle_step(&mut self)
        ensures
            final(self).spec_dt() == 0,
            final(self).spec_elapsed() == old(self).spec_elapsed(),
            final(self).spec_backlog() == old(self).spec_backlog(),
            final(self).spec_pending() == old(self).spec_pending(),
            final(self).steps_last_frame == old(self).steps_last_frame,
            final(self).peak_steps == old(self).peak_steps,
    {
        self.step_dt_us = 0;
    }

    /// Advance by an explicit sim-time slice (headless tests). The dt seen by
    /// systems equals the slice.
    pub fn advance_sim(&mut self, us: i64)
        requires
            old(self).wf(),
            us >= 0,
            old(self).spec_elapsed() + us <= i64::MAX,
        ensures
            final(self).wf(),
            final(self).spec_elapsed() == old(self).spec_elapsed() + us,
            final(self).spec_dt() == us,
            final(self).spec_backlog() == old(self).spec_backlog(),
            final(self).spec_pending() == old(self).spec_pending(),
    {
        self.elapsed_us = self.elapsed_us + us;
        self.step_dt_us = us;
    }
}

/// `T+HHH:MM:SS` for `secs` whole sim seconds — cumulative hours (≥ 24 and ≥
/// 1000 keep counting), no days.
pub open spec fn stamp(secs: nat) -> Seq<char> {
    seq!['T', '+'] + dec_pad(secs / 3600, 3) + seq![':'] + dec_pad((secs / 60) % 60, 2) + seq![':']
        + dec_pad(secs % 60, 2)
}

/// `T+HHH:MM:SS` — cumulative hours, no days.
pub fn format_sim_stamp(sim_secs: u64) -> (r: String)
    ensures
        r@ == stamp(sim_secs as nat),
{
    let mut out: Vec<char> = Vec::new();
    push_chars(&mut out, &['T', '+']);
    push_dec_pad(&mut out, sim_secs / 3600, 3);
    push_chars(&mut out, &[':']);
    push_dec_pad(&mut out, (sim_secs / 60) % 60, 2);
    push_chars(&mut out, &[':']);
    push_dec_pad(&mut out, sim_secs % 60, 2);
    string_of(out)
}

/// `n / d` rounded to the nearest integer, ties to even (how a `{:.0}`
/// rendering of the exact quotient rounds).
pub open spec fn div_round_even(n: nat, d: nat) -> nat
    recommends
        d > 0,
{
    let q = n / d;
    let r = n % d;
    if 2 * r > d || (2 * r == d && q % 2 == 1) {
        q + 1
    } else {
        q
    }
}

fn div_round_even_exec(n: u64, d: u64) -> (r: u64)
    requires
        0 < d,
        n < u64::MAX / 2,
    ensures
        r == div_round_even(n as nat, d as nat),
{
    let q = n / d;
    let r = n % d;
    assert(q <= n && r <= n) by (nonlinear_arith)
        requires
            q == n / d,
            r == n % d,
            d > 0,
    ;
    if 2 * r > d || (2 * r == d && q % 2 == 1) {
        q + 1
    } else {
        q
    }
}

/// Compact duration in ship terms for `us` sim microseconds: whole seconds
/// below a minute (`42s`), whole minutes below an hour (`6m`), else `H:MMh`.
pub open spec fn duration_text(us: nat) -> Seq<char> {
    if us < 60_000_000 {
        dec(div_round_even(us, 1_000_000)) + seq!['s']
    } else if us < 3_600_000_000 {
        dec(div_round_even(us, 60_000_000)) + seq!['m']
    } else {
        dec(us / 3_600_000_000) + seq![':'] + dec_pad((us % 3_600_000_000) / 60_000_000, 2) + seq![
            'h',
        ]
    }
}

/// Compact duration in ship terms (see `duration_text`).
pub fn format_sim_duration(us: u64) -> (r: String)
    requires
        us < u64::MAX / 2,
    ensures
        r@ == duration_text(us as nat),
{
    let mut out: Vec<char> = Vec::new();
    if us < 60_000_000 {
        push_dec(&mut out, div_round_even_exec(us, 1_000_000));
        push_chars(&mut out, &['s']);
    } else if us < 3_600_000_000 {
        push_dec(&mut out, div_round_even_exec(us, 60_000_000));
        push_chars(&mut out, &['m']);
    } else {
        push_dec(&mut out, us / 3_600_000_000);
        push_chars(&mut out, &[':']);
        push_dec_pad(&mut out, (us % 3_600_000_000) / 60_000_000, 2);
        push_chars(&mut out, &['h']);
    }
    string_of(out)
}

/// Player-facing speed labels derived from the `SPEED_SCALES` table.
pub open spec fn speed_label_text(index: int) -> Seq<char> {
    if index == 1 {
        "1x"@
    } else if index == 2 {
        "2x"@
    } else if index == 3 {
        "4x"@
    } else {
        "Paused"@
    }
}

pub fn speed_label(index: usize) -> (r: &'static str)
    ensures
        r@ == speed_label_text(index as int),
{
    if index == 1 {
        "1x"
    } else if index == 2 {
        "2x"
    } else if index == 3 {
        "4x"
    } else {
        "Paused"
    }
}

} // verus!
