use mxd_bar::config::{get, parse_ini, parse_milli, parse_uint, AppConfig, PANEL_UNSET};
use mxd_bar::util::{CalDate, ClockTime};

fn sample() -> AppConfig {
    let mut c = AppConfig::default();
    c.level = 120;
    c.job = "主教".into();
    c.map = "废弃都市".into();
    c.mode_solo = false;
    c.power = 4832;
    c.punch = Some((CalDate { y: 2026, m: 9, d: 3 }, ClockTime { h: 21, m: 30, s: 0 }));
    c.boss = Some((CalDate { y: 2026, m: 9, d: 3 }, ClockTime { h: 14, m: 2, s: 0 }));
    c.exp_label = "EXP".into();
    c.level_label = "Lv".into();
    c.uid_cache = Some("abcd1234".repeat(8));
    c.net_local = true;
    c.panel_x = 240_500;
    c.panel_y = 40_000;
    c
}

#[test]
fn ini_roundtrip() {
    let c = sample();
    let ini = parse_ini(&c.render());
    let back = AppConfig::from_ini(&ini);
    assert_eq!(c.level, back.level);
    assert_eq!(c.job, back.job);
    assert_eq!(c.map, back.map);
    assert_eq!(c.mode_solo, back.mode_solo);
    assert_eq!(c.power, back.power);
    assert_eq!(c.punch, back.punch);
    assert_eq!(c.boss, back.boss);
    assert_eq!(c.uid_cache, back.uid_cache);
    assert_eq!(c.net_local, back.net_local);
    assert_eq!(c.panel_x, back.panel_x);
    assert_eq!(c.panel_y, back.panel_y);
}

#[test]
fn panel_pos_roundtrip_and_defaults() {
    let d = AppConfig::default();
    assert_eq!(d.panel_x, PANEL_UNSET);
    assert_eq!(d.panel_y, PANEL_UNSET);
    let ini = parse_ini("[net]\nbase=local\n");
    let c = AppConfig::from_ini(&ini);
    assert_eq!(c.panel_x, PANEL_UNSET);
    assert_eq!(c.panel_y, PANEL_UNSET);
    let mut m = AppConfig::default();
    m.panel_x = 300_000;
    m.panel_y = PANEL_UNSET;
    assert_eq!(AppConfig::from_ini(&parse_ini(&m.render())).panel_x, 300_000);
    assert_eq!(AppConfig::from_ini(&parse_ini(&m.render())).panel_y, PANEL_UNSET);
    let bad = parse_ini("[panel]\nx=abc\ny=\n");
    let c = AppConfig::from_ini(&bad);
    assert_eq!(c.panel_x, PANEL_UNSET);
    assert_eq!(c.panel_y, PANEL_UNSET);
    let old = parse_ini("[panel]\nmode=auto\nx=240.0\ny=0.0\n");
    let c = AppConfig::from_ini(&old);
    assert_eq!(c.panel_x, 240_000);
    assert_eq!(c.panel_y, 0);
}

#[test]
fn net_local_roundtrip_and_case_insensitive() {
    assert!(!AppConfig::default().net_local);
    let local = parse_ini("[net]\nbase=LOCAL\n");
    assert!(AppConfig::from_ini(&local).net_local);
    let prod = parse_ini("[net]\nbase=prod\n");
    assert!(!AppConfig::from_ini(&prod).net_local);
    let mut c = AppConfig::default();
    c.net_local = true;
    assert!(AppConfig::from_ini(&parse_ini(&c.render())).net_local);
}

#[test]
fn empty_defaults() {
    let ini = parse_ini("");
    let c = AppConfig::from_ini(&ini);
    assert_eq!(c.level, 0);
    assert_eq!(c.job, "");
    assert!(c.mode_solo);
    assert_eq!(c.punch, None);
    assert_eq!(c.uid_cache, None);
    assert_eq!(c.exp_label, "EXP");
    assert_eq!(c.level_label, "Lv");
}

#[test]
fn placeholder_uid_is_kept_verbatim() {
    let c = AppConfig::default();
    assert!(c.uid_cache.is_none());
}

#[test]
fn ini_comments_sections_and_last_value_wins() {
    let ini = parse_ini("; comment\n# also\n[ report ]\n level = 7 \nlevel=9\n=x\nnoeq\n[ocr]\nexp_label=\r\n");
    assert_eq!(get(&ini, "report", "level"), Some("9"));
    assert_eq!(get(&ini, "ocr", "exp_label"), Some(""));
    assert_eq!(get(&ini, "report", ""), None);
    assert_eq!(get(&ini, "report", "noeq"), None);
    assert_eq!(ini.entries.len(), 3);
}

#[test]
fn render_writes_all_sections() {
    let text = sample().render();
    assert!(text.starts_with("[report]\nlevel=120\njob=主教\nmap=废弃都市\nmode=party\npower=4832\n"));
    assert!(text.contains("[timers]\npunch_date=2026-09-03\npunch_time=21:30\nboss_date=2026-09-03\nboss_time=14:02\n"));
    assert!(text.ends_with("[net]\nbase=local\n[panel]\nx=240.5\ny=40\n"));
    let d = AppConfig::default().render();
    assert!(d.contains("punch_date=\npunch_time=\n"));
    assert!(d.contains("[meta]\n[net]\nbase=prod\n"));
    assert!(d.ends_with("x=-1\ny=-1\n"));
}

#[test]
fn numbers_parse_like_std() {
    assert_eq!(parse_uint("+42", u32::MAX as u64), Some(42));
    assert_eq!(parse_uint("4294967295", u32::MAX as u64), Some(4_294_967_295));
    assert_eq!(parse_uint("4294967296", u32::MAX as u64), None);
    assert_eq!(parse_uint("-1", u32::MAX as u64), None);
    assert_eq!(parse_uint("", u32::MAX as u64), None);
    assert_eq!(parse_uint("+", u32::MAX as u64), None);
    assert_eq!(parse_milli("-0.25"), Some(-250));
    assert_eq!(parse_milli(".5"), Some(500));
    assert_eq!(parse_milli("3."), Some(3000));
    assert_eq!(parse_milli("1.23456"), Some(1234));
    assert_eq!(parse_milli("."), None);
    assert_eq!(parse_milli("1e3"), None);
}

#[test]
fn timers_read_only_real_dates_and_times() {
    let ok = AppConfig::from_ini(&parse_ini("[timers]\npunch_date=2026-09-03\npunch_time=21:30\n"));
    assert_eq!(ok.punch, Some((CalDate { y: 2026, m: 9, d: 3 }, ClockTime { h: 21, m: 30, s: 0 })));
    let bad_day = AppConfig::from_ini(&parse_ini("[timers]\npunch_date=2026-02-30\npunch_time=21:30\n"));
    assert_eq!(bad_day.punch, None);
    let bad_hour = AppConfig::from_ini(&parse_ini("[timers]\nboss_date=2026-09-03\nboss_time=24:00\n"));
    assert_eq!(bad_hour.boss, None);
    let no_time = AppConfig::from_ini(&parse_ini("[timers]\nboss_date=2026-09-03\n"));
    assert_eq!(no_time.boss, None);
}
