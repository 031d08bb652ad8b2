use ship_alive::simtime::{format_sim_duration, format_sim_stamp, speed_label, SimClock, BASE_SIM_RATE, SIM_STEP_US};

const SEC: i64 = 1_000_000;

fn stamp_of(c: &SimClock) -> String {
    format_sim_stamp((c.now() / SEC) as u64)
}

#[test]
fn stamp_formats_cumulative_hours() {
    assert_eq!(format_sim_stamp(0), "T+000:00:00");
    assert_eq!(format_sim_stamp(3909), "T+001:05:09");
    assert_eq!(format_sim_stamp(86399), "T+023:59:59");
    assert_eq!(format_sim_stamp(86400), "T+024:00:00"); // no day wrap
    assert_eq!(format_sim_stamp(86401), "T+024:00:01");
    assert_eq!(format_sim_stamp(460_992), "T+128:03:12");
    assert_eq!(format_sim_stamp(3_600_000), "T+1000:00:00");
}

#[test]
fn duration_formats_ship_terms() {
    assert_eq!(format_sim_duration(42 * 1_000_000), "42s");
    assert_eq!(format_sim_duration(360 * 1_000_000), "6m");
    assert_eq!(format_sim_duration(5430 * 1_000_000), "1:30h");
}

#[test]
fn pump_and_steps_match_requested_advance() {
    let mut c = SimClock::default();
    // 1× for one real second = 60 sim s = 60 steps.
    c.offer_real_delta(SEC, 1);
    let mut steps = 0;
    while c.begin_fixed_step() {
        steps += 1;
    }
    assert_eq!(steps, 60);
    assert_eq!(c.now(), 60 * SEC);
    assert!(c.backlog_secs() * SEC < SIM_STEP_US);

    // 4× for one real second = 240 sim s.
    let mut c4 = SimClock::default();
    c4.offer_real_delta(SEC, 3);
    let mut s4 = 0;
    while c4.begin_fixed_step() {
        s4 += 1;
    }
    assert_eq!(s4, 240);
    assert_eq!(c4.now(), 240 * SEC);
}

#[test]
fn paused_offers_nothing() {
    let mut c = SimClock::default();
    c.offer_real_delta(10 * SEC, 0);
    assert!(!c.begin_fixed_step());
    assert_eq!(c.now(), 0);
}

#[test]
fn fractional_real_frames_accumulate() {
    let mut c = SimClock::default();
    // 60 fps at 1×: 60 frames of 1/60 s real (to the microsecond) = 60 sim s.
    for _ in 0..60 {
        c.offer_real_delta(16_667, 1);
        while c.begin_fixed_step() {}
    }
    assert_eq!(c.now(), 60 * SEC);
}

#[test]
fn irregular_frames_reach_same_time() {
    let chunks: [i64; 7] = [16_000, 16_000, 33_000, 8_000, 50_000, 24_000, 16_000];
    let total: i64 = chunks.iter().sum();
    let mut a = SimClock::default();
    for dt in chunks {
        a.offer_real_delta(dt, 1);
        while a.begin_fixed_step() {}
    }
    let mut b = SimClock::default();
    b.offer_real_delta(total, 1);
    while b.begin_fixed_step() {}
    assert_eq!(a.now(), b.now(), "irregular vs one chunk must agree");
}

#[test]
fn long_run_precision_stays_exact() {
    let mut c = SimClock::default();
    // 1000 hours in steps of 1 sim s.
    let target = 1000 * 3600 * SEC;
    c.offer_real_delta(target / BASE_SIM_RATE, 1);
    while c.begin_fixed_step() {}
    assert_eq!(c.now(), target);
    assert_eq!(stamp_of(&c), "T+1000:00:00");
    // Even at 10,000 hours the second count is exact (integer µs core).
    let mut c2 = SimClock::default();
    c2.offer_real_delta(10_000 * 3600 * SEC / BASE_SIM_RATE, 1);
    while c2.begin_fixed_step() {}
    assert_eq!(c2.now() % SEC, 0);
    assert_eq!(stamp_of(&c2), "T+10000:00:00");
}

#[test]
fn frame_bookkeeping_tracks_peak() {
    let mut c = SimClock::default();
    c.offer_real_delta(SEC / 10, 1);
    while c.begin_fixed_step() {}
    c.frame_bookkeeping();
    assert_eq!(c.steps_last_frame, 6);
    assert_eq!(c.peak_steps, 6);
    c.frame_bookkeeping();
    assert_eq!(c.steps_last_frame, 0);
    assert_eq!(c.peak_steps, 6);
    c.advance_sim(5 * SEC);
    assert_eq!(c.dt(), 5 * SEC);
    c.idle_step();
    assert_eq!(c.dt(), 0);
}

#[test]
fn speed_labels() {
    assert_eq!(speed_label(0), "Paused");
    assert_eq!(speed_label(3), "4x");
    assert_eq!(format_sim_duration(59_500_000), "60s");
}
