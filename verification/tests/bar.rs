use mxd_bar::bar::{bar_data, button_text, sizing_text, timer_for, wants_normal, Action};
use mxd_bar::config::AppConfig;
use mxd_bar::data::JobGroup;
use mxd_bar::net::ApiError;
use mxd_bar::state::{Page, ReportPhase, Shared, TimePickKind};
use mxd_bar::util::{CalDate, ClockTime, DateTime};

fn now() -> DateTime {
    DateTime { date: CalDate { y: 2026, m: 9, d: 3 }, time: ClockTime { h: 20, m: 0, s: 0 } }
}

fn shared() -> Shared {
    let jobs = vec![
        JobGroup { group: "战士系".into(), jobs: vec![] },
        JobGroup { group: "魔法师系".into(), jobs: vec!["火毒法师".into(), "主教".into()] },
    ];
    let mut cfg = AppConfig::default();
    cfg.punch = Some((CalDate { y: 2026, m: 9, d: 3 }, ClockTime { h: 20, m: 3, s: 0 }));
    Shared::new(cfg, jobs, vec![])
}

#[test]
fn rows_labels_and_primary() {
    let rows = Action::rows();
    assert_eq!(rows, vec![vec![Action::Report, Action::Manage], vec![Action::Boss, Action::Punch]]);
    assert_eq!(Action::Report.label(), "上报数据");
    assert_eq!(Action::About.label(), "关于");
    assert!(Action::Report.primary());
    assert!(!Action::Boss.primary());
    assert_eq!(sizing_text(Action::Punch), "999打卡 11h");
    assert_eq!(sizing_text(Action::Log), "");
    assert!(wants_normal(Action::Report));
    assert!(!wants_normal(Action::Manage));
}

#[test]
fn snapshot_shows_dashes_without_samples() {
    let mut g = shared();
    let d = bar_data(&g, now());
    assert_eq!(d.exp_min, "-");
    assert_eq!(d.test_time, "-");
    assert_eq!(d.spark, None);
    assert_eq!(d.punch.text, "999打卡 3m");
    assert_eq!(button_text(Action::Punch, &d), "999打卡 3m");
    assert_eq!(button_text(Action::Boss, &d), "BOSS 无");
    assert_eq!(button_text(Action::Manage, &d), "管理数据");
    assert!(timer_for(Action::Report, &d).is_none());
    g.exp.n_hour = 720;
    g.exp.per_min = 6000;
    g.exp.per_hour = 360_000;
    g.exp.cum_gain = 1234;
    let d = bar_data(&g, now());
    assert_eq!(d.exp_min, "6,000");
    assert_eq!(d.exp_hour, "360,000");
    assert_eq!(d.test_time, "1:00:00");
    assert_eq!(d.exp_cum, "1,234");
    assert!(d.spark.is_some());
}

#[test]
fn clicks_toggle_pages() {
    let mut g = shared();
    g.click(Action::Log, (0, 0));
    assert_eq!(g.page, Page::Log);
    g.click(Action::Log, (0, 0));
    assert_eq!(g.page, Page::Closed);
    g.click(Action::Boss, (13, 38));
    assert_eq!(g.page, Page::TimePick(TimePickKind::Boss));
    assert_eq!((g.pick.h, g.pick.m), (13, 38));
    g.apply_pick(TimePickKind::Boss, now());
    assert_eq!(g.cfg.boss, Some((CalDate { y: 2026, m: 9, d: 3 }, ClockTime { h: 13, m: 38, s: 0 })));
    g.pick.h = 9;
    g.pick.m = 0;
    g.apply_pick(TimePickKind::Punch, now());
    assert_eq!(g.cfg.punch, Some((CalDate { y: 2026, m: 9, d: 4 }, ClockTime { h: 9, m: 0, s: 0 })));
    g.exp.n_hour = 3;
    g.click(Action::Refresh, (0, 0));
    assert!(g.clear_queue);
    assert_eq!(g.exp.n_hour, 0);
    assert!(g.take_clear_request());
    assert!(!g.clear_queue);
    assert!(!g.take_clear_request());
}

#[test]
fn report_form_validates_and_finishes() {
    let mut g = shared();
    g.exp.per_hour = 360_000;
    g.exp.n_hour = 720;
    g.click(Action::Report, (0, 0));
    assert_eq!(g.page, Page::Report);
    assert_eq!((g.report.job_group, g.report.job), (1, 0));
    assert_eq!(g.report.exp_seconds, 3600);
    assert_eq!(g.report.level, "");
    assert_eq!(g.submit(), None);
    assert_eq!(g.report.err, "等级需为 ≥1 的正整数");
    g.report.level = " 120 ".into();
    assert_eq!(g.submit(), None);
    assert_eq!(g.report.err, "请填写或选择一个地图");
    g.report.map_query = " 废都 ".into();
    g.report.power = "0".into();
    assert_eq!(g.submit(), None);
    assert_eq!(g.report.err, "魔法力 需为 ≥1 的正整数");
    g.report.power = "4832".into();
    let req = g.submit().expect("valid form");
    assert!(g.report.submitting);
    assert_eq!(g.cfg.level, 120);
    assert_eq!(g.cfg.map, "废都");
    assert_eq!(g.cfg.job, "火毒法师");
    let p = g.submission(req).expect("pending");
    assert_eq!(p.exp_per_hour, 360_000);
    assert!(g.submission(req + 1).is_none());
    g.finish_submit(req + 1, "https://a.b", Ok("x".into()));
    assert!(g.report.submitting);
    g.finish_submit(req, "https://a.b", Ok("x".into()));
    assert_eq!(g.report.phase, ReportPhase::Success);
    assert_eq!(g.report.success.as_ref().unwrap().url, "https://a.b/exp.html?id=x");
    // A failure shows the reason.
    let mut h = shared();
    h.click(Action::Report, (0, 0));
    h.report.level = "1".into();
    h.report.map_query = "m".into();
    h.report.power = "1".into();
    let r = h.submit().unwrap();
    h.finish_submit(r, "b", Err(ApiError { status: Some(429), message: "慢".into() }));
    assert_eq!(h.report.err, "上报失败：慢");
    assert!(!h.report.submitting);
}

#[test]
fn job_name_and_cap_note() {
    let g = shared();
    assert_eq!(g.job_name(1, 1), "主教");
    assert_eq!(g.job_name(0, 0), "");
    assert_eq!(g.job_name(7, 0), "");
    assert_eq!(mxd_bar::report::cap_note("一二三四五六七八九十一二三四五六七八九十多"), "一二三四五六七八九十一二三四五六七八九十");
}

#[test]
fn opening_report_resets_the_form() {
    let mut g = shared();
    g.cfg.level = 120;
    g.exp.per_hour = 360_000;
    g.exp.n_hour = 700;
    g.report.phase = ReportPhase::Success;
    g.report.note = "old note".into();
    g.report.req = 5;
    g.click(Action::Report, (20, 0));
    assert_eq!(g.page, Page::Report);
    assert_eq!(g.report.phase, ReportPhase::Form);
    assert_eq!(g.report.level, "120");
    assert_eq!(g.report.note, "");
    assert_eq!(g.report.req, 6);
    assert_eq!(g.report.exp_per_hour, 360_000);
    assert_eq!(g.report.exp_seconds, 3500);
    // closing keeps the form as it is
    g.click(Action::Report, (20, 1));
    assert_eq!(g.page, Page::Closed);
    assert_eq!(g.report.req, 6);
    // reopening steps the request again
    g.click(Action::Report, (20, 2));
    assert_eq!(g.report.req, 7);
}
