use mxd_bar::sensor::digits::{read_exp_value, synth_value_frame};
use mxd_bar::sensor::sampler::{
    accept_exp, cum_gain, metrics, next_base, prune, spark_gains, window_rate, Accept, PauseClock,
    Probe, Sample, Sampler, MetricsUpdate, AVG_N, HOUR_WINDOW,
};
use mxd_bar::state::{SamplerState, SPARK_BUCKETS};
use std::collections::VecDeque;

const NS: u64 = 1_000_000_000;
/// A monotonic clock reading well past its origin, like a real `Instant`.
const NOW: u64 = 100_000 * NS;

fn smp(base: u64, ago_secs: u64, exp: i64) -> Sample {
    Sample { at: base - ago_secs * NS, exp }
}

fn plateau(now: u64, start: i64, step: i64) -> VecDeque<Sample> {
    let mut r = VecDeque::new();
    for i in 0..AVG_N {
        r.push_back(smp(now, (AVG_N - 1 - i) as u64 * 5, start + i as i64 * step));
    }
    r
}

fn replay(base: u64, seq: &[(u64, Option<i64>)], recs: &mut VecDeque<Sample>, pending: &mut Vec<Sample>) -> (usize, usize) {
    let (mut ignored, mut levelup) = (0, 0);
    for (s, e) in seq {
        if let Some(exp) = *e {
            match accept_exp(recs, pending, base + s * NS, exp) {
                Accept::Ignored => ignored += 1,
                Accept::LevelUp => levelup += 1,
                Accept::Recorded => {}
            }
        }
    }
    (ignored, levelup)
}

fn linear_reads(ticks: u32, per_tick: i64, exp0: i64, miss: &[u32]) -> Vec<(u64, Option<i64>)> {
    (1..=ticks)
        .map(|k| {
            let exp = exp0 + per_tick * k as i64;
            (k as u64 * 5, if miss.contains(&k) { None } else { Some(exp) })
        })
        .collect()
}

fn rates(recs: &VecDeque<Sample>, base: u64, end_sec: u64) -> (i64, i64, u32, u32) {
    metrics(recs, base + end_sec * NS)
}

#[test]
fn normal_and_equal_recorded() {
    let now = NOW;
    let mut recs = VecDeque::new();
    let mut pend = Vec::new();
    assert_eq!(accept_exp(&mut recs, &mut pend, now - 5 * NS, 100), Accept::Recorded);
    assert_eq!(accept_exp(&mut recs, &mut pend, now, 100), Accept::Recorded);
    assert_eq!(recs.len(), 2);
}

#[test]
fn single_ocr_dip_is_ignored_history_kept() {
    let now = NOW;
    let mut recs = plateau(now, 1_000_000, 100);
    let n = recs.len();
    let mut pend = Vec::new();
    assert_eq!(accept_exp(&mut recs, &mut pend, now, 800_000), Accept::Ignored);
    assert_eq!(recs.len(), n);
    assert_eq!(accept_exp(&mut recs, &mut pend, now + 5 * NS, 1_001_200), Accept::Recorded);
    assert_eq!(recs.len(), n + 1);
    assert!(pend.is_empty());
}

#[test]
fn three_below_average_is_levelup_reset() {
    let now = NOW;
    let mut recs = plateau(now, 1_000_000, 0);
    let mut pend = Vec::new();
    assert_eq!(accept_exp(&mut recs, &mut pend, now, 3_000), Accept::Ignored);
    assert_eq!(accept_exp(&mut recs, &mut pend, now + 5 * NS, 3_100), Accept::Ignored);
    assert_eq!(accept_exp(&mut recs, &mut pend, now + 10 * NS, 3_200), Accept::LevelUp);
    assert_eq!(recs.len(), 1);
    assert_eq!(recs[0].exp, 3_200);
    assert!(pend.is_empty());
}

#[test]
fn dip_not_repeated_does_not_reset() {
    let now = NOW;
    let mut recs = plateau(now, 1_000_000, 0);
    let n = recs.len();
    let mut pend = Vec::new();
    assert_eq!(accept_exp(&mut recs, &mut pend, now, 900_000), Accept::Ignored);
    assert_eq!(accept_exp(&mut recs, &mut pend, now + 5 * NS, 1_000_000), Accept::Recorded);
    assert_eq!(recs.len(), n + 1);
    assert!(pend.is_empty());
}

/// EXP per second of a window: gain over the span.
fn per_sec(gain: i64, span_ns: u64) -> f64 {
    gain as f64 / (span_ns as f64 / NS as f64)
}

#[test]
fn rate_uses_real_timestamps() {
    let now = NOW;
    let mut recs = VecDeque::new();
    recs.push_back(smp(now, 10, 1000));
    recs.push_back(smp(now, 0, 1100));
    let (g, span, c) = window_rate(&recs, now, HOUR_WINDOW).unwrap();
    let r = per_sec(g, span);
    assert!((r - 10.0).abs() < 1e-9, "r={r}");
    assert_eq!(c, 2);
}

#[test]
fn minute_gap_still_correct_rate() {
    let now = NOW;
    let mut recs = VecDeque::new();
    recs.push_back(smp(now, 90, 1000));
    recs.push_back(smp(now, 0, 1450));
    let (g, span, _) = window_rate(&recs, now, HOUR_WINDOW).unwrap();
    let r = per_sec(g, span);
    assert!((r - 5.0).abs() < 1e-9, "r={r}");
}

#[test]
fn too_few_samples_is_none() {
    let now = NOW;
    let mut recs = VecDeque::new();
    recs.push_back(smp(now, 5, 1000));
    assert!(window_rate(&recs, now, HOUR_WINDOW).is_none());
    assert_eq!(metrics(&recs, now), (0, 0, 0, 0));
}

#[test]
fn metrics_minute_and_hour() {
    let now = NOW;
    let mut recs = VecDeque::new();
    for i in 0..5u64 {
        recs.push_back(smp(now, (4 - i) * 5, 1000 + i as i64 * 10));
    }
    let (pm, ph, nm, nh) = metrics(&recs, now);
    assert_eq!(pm, 120);
    assert_eq!(ph, 7200);
    assert_eq!(nm, 5);
    assert_eq!(nh, 5);
}

#[test]
fn prune_keeps_last_hour() {
    let now = NOW;
    let mut recs = VecDeque::new();
    recs.push_back(smp(now, 2 * 3600, 100));
    recs.push_back(smp(now, 3600 + 1, 200));
    recs.push_back(smp(now, 0, 300));
    prune(&mut recs, now);
    assert_eq!(recs.len(), 1);
    assert_eq!(recs[0].exp, 300);
}

#[test]
fn pause_clock_excludes_background_wall_time() {
    let t0 = NOW;
    let mut pc = PauseClock::new();
    assert_eq!(pc.step(t0), 0);
    let t1 = t0 + 5 * NS;
    let t2 = t0 + 10 * NS;
    assert_eq!(pc.step(t1), 5 * NS);
    assert_eq!(pc.step(t2), 5 * NS);
    assert_eq!(pc.active_now(t2), t2);
    let t3 = t0 + 15 * NS;
    let d = pc.step(t3);
    assert_eq!(d, 5 * NS);
    pc.pause(d);
    assert_eq!(pc.active_now(t3), t2);
    let t4 = t0 + 20 * NS;
    assert_eq!(pc.step(t4), 5 * NS);
    assert_eq!(pc.active_now(t4), t3);
}

#[test]
fn steady_farming_rates_are_exact() {
    let base = NOW;
    let mut recs = VecDeque::new();
    let mut pend = Vec::new();
    replay(base, &linear_reads(1440, 500, 0, &[]), &mut recs, &mut pend);
    let (pm, ph, nm, nh) = rates(&recs, base, 1440 * 5);
    assert_eq!(pm, 6000);
    assert_eq!(ph, 360_000);
    assert!(nm >= 12, "{nm}");
    assert!(nh >= 700, "{nh}");
    let front = recs.front().unwrap();
    assert!((front.exp - 360_000).abs() <= 500, "{}", front.exp);
}

#[test]
fn missed_reads_do_not_bias_endpoint_rate() {
    let base = NOW;
    let mut recs = VecDeque::new();
    let mut pend = Vec::new();
    let miss = [10u32, 17, 100, 120, 121, 122, 123, 124, 168, 169, 170, 171, 172, 173, 174, 175, 176, 177, 178, 179];
    let (ign, lv) = replay(base, &linear_reads(180, 500, 0, &miss), &mut recs, &mut pend);
    assert_eq!(ign, 0);
    assert_eq!(lv, 0);
    let (pm, ph, ..) = rates(&recs, base, 180 * 5);
    assert_eq!(pm, 6000);
    assert_eq!(ph, 360_000);
}

#[test]
fn single_bad_read_is_ignored_and_rates_continue() {
    let base = NOW;
    let mut seq = linear_reads(180, 500, 0, &[]);
    let k = 60u32;
    let dip_t = k as u64 * 5;
    seq[(k - 1) as usize] = (dip_t, Some(500 * (k as i64 - 1) - 7));
    let mut recs = VecDeque::new();
    let mut pend = Vec::new();
    let (ign, lv) = replay(base, &seq, &mut recs, &mut pend);
    assert_eq!(ign, 1);
    assert_eq!(lv, 0);
    assert_eq!(recs.len(), 179);
    let (pm, ph, ..) = rates(&recs, base, 180 * 5);
    assert_eq!(pm, 6000);
    assert_eq!(ph, 360_000);
}

#[test]
fn levelup_resets_then_new_level_rate_is_true() {
    let base = NOW;
    let mut recs = VecDeque::new();
    let mut pend = Vec::new();
    let tick = |secs: u64| base + secs * NS;
    for k in 1..=360u64 {
        assert_eq!(accept_exp(&mut recs, &mut pend, tick(5 * k), 500 * k as i64), Accept::Recorded);
    }
    let old_last = recs.back().unwrap().exp;
    assert_eq!(accept_exp(&mut recs, &mut pend, tick(1805), 1500), Accept::Ignored);
    assert_eq!(accept_exp(&mut recs, &mut pend, tick(1810), 2000), Accept::Ignored);
    assert_eq!(accept_exp(&mut recs, &mut pend, tick(1815), 2500), Accept::LevelUp);
    assert_eq!(recs.len(), 1);
    assert_eq!(recs[0].exp, 2500);
    assert!(old_last > 2500);
    assert_eq!(metrics(&recs, tick(1815)), (0, 0, 0, 0));
    for k in 364..=404u64 {
        let t = 5 * k;
        let exp = 2500 + 500 * (k - 363) as i64;
        assert_eq!(accept_exp(&mut recs, &mut pend, tick(t), exp), Accept::Recorded);
    }
    let (pm, ph, ..) = rates(&recs, base, 5 * 404);
    assert_eq!(pm, 6000);
    assert_eq!(ph, 360_000);
}

#[test]
fn recent_speedup_realtime_vs_hourly_average_differ() {
    let base = NOW;
    let mut seq: Vec<(u64, Option<i64>)> = Vec::with_capacity(840);
    let mut exp = 0i64;
    for k in 1..=840u64 {
        let per = if k <= 480 { 500 } else { 1000 };
        exp += per;
        seq.push((k * 5, Some(exp)));
    }
    let mut recs = VecDeque::new();
    let mut pend = Vec::new();
    replay(base, &seq, &mut recs, &mut pend);
    let (pm, ph, ..) = rates(&recs, base, 840 * 5);
    assert_eq!(pm, 12_000);
    assert_eq!(ph, 540_000);
    assert_ne!(pm, ph / 60);
}

#[test]
fn too_early_shows_dash_not_bogus_rate() {
    let base = NOW;
    let mut recs = VecDeque::new();
    let mut pend = Vec::new();
    assert_eq!(rates(&recs, base, 5), (0, 0, 0, 0));
    replay(base, &linear_reads(1, 500, 0, &[]), &mut recs, &mut pend);
    assert_eq!(rates(&recs, base, 5), (0, 0, 0, 0));
}

#[test]
fn synthetic_screenshot_pixels_to_rates_e2e() {
    let base = NOW;
    let mut recs = VecDeque::new();
    let mut pend = Vec::new();
    let mut exp = 100_000i64;
    for k in 1..=40u64 {
        exp += 500;
        let f = synth_value_frame(exp.to_string().as_bytes(), 758, 900, 800);
        let read = read_exp_value(&f).unwrap_or_else(|| panic!("frame {k}: {exp}"));
        assert_eq!(read, exp);
        accept_exp(&mut recs, &mut pend, base + 5 * k * NS, read);
    }
    let (pm, ph, ..) = rates(&recs, base, 5 * 40);
    assert_eq!(pm, 6000);
    assert_eq!(ph, 360_000);
}

const BURST: [i64; 13] = [
    472_974, 473_655, 473_899, 474_066, 474_156, 474_554, 474_785, 475_196, 475_196, 475_273, 475_387,
    475_693, 476_193,
];

#[test]
fn bursty_minute_exact_alignment_is_minute_sum() {
    let base = NOW;
    let mut recs = VecDeque::new();
    for (i, v) in BURST.iter().enumerate() {
        recs.push_back(Sample { at: base + i as u64 * 5 * NS, exp: *v });
    }
    let (pm, _, nm, _) = metrics(&recs, base + 60 * NS);
    assert_eq!(pm, 3219);
    assert_eq!(nm, 13);
}

#[test]
fn bursty_minute_drifted_boundary_not_under_counted() {
    let base = NOW;
    let mut recs = VecDeque::new();
    for (i, v) in BURST.iter().enumerate() {
        // t0 = 0, t1 = 5.3 s, then every 5.0 s up to 60.3 s.
        let t = if i == 0 { 0 } else { 5_300_000_000 + (i as u64 - 1) * 5 * NS };
        recs.push_back(Sample { at: base + t, exp: *v });
    }
    let (pm, _, nm, _) = metrics(&recs, base + 60_300_000_000);
    assert_eq!(pm, 3180);
    assert!(pm > 3000);
    assert_eq!(nm, 12);
}

fn steady_13(base: u64) -> VecDeque<Sample> {
    let mut recs = VecDeque::new();
    for k in 1..=13u64 {
        recs.push_back(Sample { at: base + 5 * k * NS, exp: 500 * k as i64 });
    }
    recs
}

#[test]
fn spark_steady_60s_all_buckets_equal() {
    let base = NOW;
    let recs = steady_13(base);
    let s = spark_gains(&recs, base + 65 * NS);
    assert_eq!(s.len(), SPARK_BUCKETS);
    for (i, g) in s.iter().enumerate() {
        assert_eq!(*g, 500, "bucket {i}");
    }
}

#[test]
fn spark_splits_read_gap_evenly() {
    let base = NOW;
    let mut recs = VecDeque::new();
    for t in [5u64, 10, 20, 25, 30, 35, 40, 45, 50, 55, 60, 65] {
        let exp = 500 * (t / 5) as i64;
        recs.push_back(Sample { at: base + t * NS, exp });
    }
    let s = spark_gains(&recs, base + 65 * NS);
    assert_eq!(s, [500; SPARK_BUCKETS]);
}

#[test]
fn spark_before_data_buckets_are_zero() {
    let base = NOW;
    let mut recs = VecDeque::new();
    for k in 9..=13u64 {
        recs.push_back(Sample { at: base + 5 * k * NS, exp: 500 * k as i64 });
    }
    let s = spark_gains(&recs, base + 65 * NS);
    assert_eq!(&s[0..8], &[0; 8]);
    assert_eq!(&s[8..], &[500; 4]);
}

#[test]
fn base_starts_at_first_sample_and_cum_grows() {
    let now = NOW;
    let mut recs = VecDeque::new();
    let mut pend = Vec::new();
    let mut base = None;
    let a1 = accept_exp(&mut recs, &mut pend, now - 10 * NS, 1000);
    assert_eq!(a1, Accept::Recorded);
    base = next_base(a1, &recs, base);
    assert_eq!(base.map(|b| b.exp), Some(1000));
    assert_eq!(cum_gain(&recs, base), 0);
    let a2 = accept_exp(&mut recs, &mut pend, now - 5 * NS, 1100);
    assert_eq!(a2, Accept::Recorded);
    base = next_base(a2, &recs, base);
    assert_eq!(cum_gain(&recs, base), 100);
    let a3 = accept_exp(&mut recs, &mut pend, now, 1300);
    base = next_base(a3, &recs, base);
    assert_eq!(cum_gain(&recs, base), 300);
}

#[test]
fn levelup_rebases_and_cum_restarts() {
    let now = NOW;
    let mut recs = plateau(now, 1_000_000, 0);
    let mut base = recs.front().copied();
    let mut pend = Vec::new();
    assert_eq!(accept_exp(&mut recs, &mut pend, now, 3000), Accept::Ignored);
    assert_eq!(accept_exp(&mut recs, &mut pend, now + 5 * NS, 3100), Accept::Ignored);
    let r3 = accept_exp(&mut recs, &mut pend, now + 10 * NS, 3200);
    assert_eq!(r3, Accept::LevelUp);
    assert_eq!(recs.len(), 1);
    base = next_base(r3, &recs, base);
    assert_eq!(base.map(|b| b.exp), Some(3200));
    assert_eq!(cum_gain(&recs, base), 0);
    let r4 = accept_exp(&mut recs, &mut pend, now + 15 * NS, 3700);
    assert_eq!(r4, Accept::Recorded);
    base = next_base(r4, &recs, base);
    assert_eq!(cum_gain(&recs, base), 500);
}

#[test]
fn cum_gain_ignores_hourly_prune() {
    let now = NOW;
    let mut recs = VecDeque::new();
    for k in 1..=1440u64 {
        recs.push_back(Sample { at: now - (1440 - k) * 5 * NS, exp: 500 * k as i64 });
    }
    let base = recs.front().copied();
    let full_gain = cum_gain(&recs, base);
    prune(&mut recs, now);
    assert!(recs.front().unwrap().exp > base.unwrap().exp);
    assert_eq!(cum_gain(&recs, base), full_gain);
    let window_gain = recs.back().unwrap().exp - recs.front().unwrap().exp;
    assert!(window_gain < full_gain);
}

// ---------------------------------------------------------------------------
// The sampling round
// ---------------------------------------------------------------------------

#[test]
fn fourth_failed_round_clears_figures() {
    let mut s = Sampler::new();
    let mut t = NOW;
    for round in 1..=6u32 {
        let r = s.tick(t, Probe::Unread);
        assert_eq!(r.state, SamplerState::OcrFailed);
        assert_eq!(r.msg, "未读到 EXP");
        match r.metrics {
            MetricsUpdate::Clear => assert_eq!(round, 4),
            MetricsUpdate::Keep => assert_ne!(round, 4),
            MetricsUpdate::Publish(_) => panic!("no figures without a reading"),
        }
        t += 5 * NS;
    }
    assert_eq!(s.miss, 4);
    let r = s.tick(t, Probe::Read(1000));
    assert_eq!(r.state, SamplerState::Running);
    assert_eq!(r.msg, "EXP 1000");
    assert_eq!(s.miss, 0);
    assert_eq!(r.log, Some((1000, false)));
}

#[test]
fn background_round_pauses_clock_and_keeps_figures() {
    let mut s = Sampler::new();
    let t0 = NOW;
    s.tick(t0, Probe::Read(100));
    s.tick(t0 + 5 * NS, Probe::Read(200));
    let r = s.tick(t0 + 10 * NS, Probe::Background);
    assert_eq!(r.state, SamplerState::Paused);
    assert_eq!(r.msg, "游戏不在前台，经验计时暂停");
    assert!(matches!(r.metrics, MetricsUpdate::Keep));
    assert_eq!(s.recs.len(), 2);
    assert_eq!(s.pc.lag, 5 * NS);
    // Back in the foreground: the paused 5 s are not on the active clock.
    s.tick(t0 + 15 * NS, Probe::Read(300));
    assert_eq!(s.recs.back().unwrap().at, t0 + 10 * NS);
}

#[test]
fn blank_capture_explains_minimised_window() {
    let mut s = Sampler::new();
    let r = s.tick(NOW, Probe::Blank { minimized: true });
    assert_eq!(r.state, SamplerState::OcrFailed);
    assert_eq!(r.msg, "游戏窗口最小化，抓不到画面");
    let r = s.tick(NOW + NS, Probe::Blank { minimized: false });
    assert_eq!(r.msg, "抓到的画面为空（PrintWindow/反外挂拦截，或窗口被遮挡）");
    let r = s.tick(NOW + 2 * NS, Probe::NoGame);
    assert_eq!(r.state, SamplerState::NoGame);
    assert_eq!(r.msg, "未检测到游戏窗口");
    let r = s.tick(NOW + 3 * NS, Probe::CaptureFailed);
    assert_eq!(r.state, SamplerState::NoGame);
    assert_eq!(r.msg, "无法抓取游戏窗口");
}

#[test]
fn levelup_round_reports_segment_head() {
    let mut s = Sampler::new();
    let mut t = NOW;
    for k in 0..12i64 {
        s.tick(t, Probe::Read(1_000_000 + k));
        t += 5 * NS;
    }
    let r1 = s.tick(t, Probe::Read(3000));
    assert_eq!(r1.msg, "EXP 递减(疑似瞬时误读)，该条未记录（当前 EXP 3000）");
    assert_eq!(r1.log, None);
    s.tick(t + 5 * NS, Probe::Read(3100));
    let r3 = s.tick(t + 10 * NS, Probe::Read(3200));
    assert_eq!(r3.msg, "判定升级，已重置（当前 EXP 3200）");
    assert_eq!(r3.log, Some((3200, true)));
    match r3.metrics {
        MetricsUpdate::Publish(m) => {
            assert_eq!(m.cum_gain, 0);
            assert_eq!(m.n_hour, 0);
            assert_eq!(m.updated, Some(t + 10 * NS));
        }
        _ => panic!("a reading publishes figures"),
    }
    assert_eq!(s.base.map(|b| b.exp), Some(3200));
}

#[test]
fn huge_exp_values_are_recorded() {
    let mut recs = VecDeque::new();
    let mut pend = Vec::new();
    let big = i64::MAX - 10;
    assert_eq!(accept_exp(&mut recs, &mut pend, NOW, big - 1_000), Accept::Recorded);
    assert_eq!(accept_exp(&mut recs, &mut pend, NOW + 60 * NS, big), Accept::Recorded);
    assert_eq!(recs.len(), 2);
    let (pm, ph, _, _) = metrics(&recs, NOW + 60 * NS);
    assert_eq!(pm, 1_000);
    assert_eq!(ph, 60_000);
}

#[test]
fn hourly_estimate_saturates_at_i64_max() {
    let mut recs = VecDeque::new();
    recs.push_back(Sample { at: NOW, exp: 0 });
    recs.push_back(Sample { at: NOW + 2 * NS, exp: i64::MAX });
    let (pm, ph, _, _) = metrics(&recs, NOW + 2 * NS);
    assert_eq!(pm, i64::MAX);
    assert_eq!(ph, i64::MAX);
}

#[test]
fn spark_buckets_add_up_to_the_minute() {
    let mut recs = VecDeque::new();
    let mut exp = 1_000i64;
    for k in 0..20u64 {
        exp += (k as i64 % 4) * 137;
        recs.push_back(Sample { at: NOW + k * 4 * NS, exp });
    }
    let now = NOW + 19 * 4 * NS;
    let s = spark_gains(&recs, now);
    let total: i64 = s.iter().sum();
    let (pm, _, _, _) = metrics(&recs, now);
    assert_eq!(total, pm);
    assert!(s.iter().all(|g| *g >= 0));
}

#[test]
fn steady_exp_shows_no_rate() {
    let mut recs = VecDeque::new();
    for k in 0..30u64 {
        recs.push_back(Sample { at: NOW + k * 5 * NS, exp: 777_000 });
    }
    let (pm, ph, nm, _) = metrics(&recs, NOW + 29 * 5 * NS);
    assert_eq!((pm, ph), (0, 0));
    assert!(nm >= 12);
}

#[test]
fn spark_of_chain_starting_after_now_is_flat() {
    let mut recs = VecDeque::new();
    recs.push_back(Sample { at: 20 * NS, exp: 100 });
    recs.push_back(Sample { at: 25 * NS, exp: 150 });
    let s = spark_gains(&recs, 10 * NS);
    assert_eq!(s[0], 50);
    assert!(s[1..].iter().all(|g| *g == 0));
}
