use mxd_bar::state::{exp_log_rows, push_exp_log, ExpLogLine, EXP_LOG_CAP};
use std::collections::VecDeque;

fn ln(hms: &str, exp: i64, seg: bool) -> ExpLogLine {
    ExpLogLine { hms: hms.into(), exp, seg }
}

#[test]
fn rows_delta_vs_previous_record() {
    let mut log = VecDeque::new();
    log.push_back(ln("11:14:22", 232_999, false));
    log.push_back(ln("11:14:27", 233_222, false));
    log.push_back(ln("11:14:32", 233_445, false));
    let rows = exp_log_rows(&log);
    assert_eq!(rows[0].delta, None);
    assert_eq!(rows[1].delta, Some(223));
    assert_eq!(rows[2].delta, Some(223));
    assert_eq!(rows[1].t, "11:14:27");
    assert_eq!(rows[1].exp, 233_222);
}

#[test]
fn levelup_seg_head_has_no_negative_bracket() {
    let mut log = VecDeque::new();
    log.push_back(ln("11:20:00", 500_000, false));
    log.push_back(ln("11:20:05", 500_200, false));
    log.push_back(ln("11:20:10", 3_120, true));
    log.push_back(ln("11:20:15", 3_350, false));
    log.push_back(ln("11:20:20", 3_580, false));
    let rows = exp_log_rows(&log);
    assert_eq!(rows[2].delta, None);
    assert_eq!(rows[3].delta, Some(230));
    assert_eq!(rows[4].delta, Some(230));
}

#[test]
fn trimmed_head_is_new_baseline() {
    let mut log = VecDeque::new();
    log.push_back(ln("11:20:10", 3_120, true));
    log.push_back(ln("11:20:15", 3_350, false));
    let rows = exp_log_rows(&log);
    assert_eq!(rows[0].delta, None);
    assert_eq!(rows[1].delta, Some(3_350 - 3_120));
}

#[test]
fn log_keeps_last_thousand_lines() {
    let mut log = VecDeque::new();
    for i in 0..(EXP_LOG_CAP as i64 + 5) {
        push_exp_log(&mut log, ln("00:00:00", i, false));
    }
    assert_eq!(log.len(), EXP_LOG_CAP);
    assert_eq!(log.front().unwrap().exp, 5);
    assert_eq!(log.back().unwrap().exp, EXP_LOG_CAP as i64 + 4);
}

#[test]
fn saturating_delta_never_wraps() {
    let mut log = VecDeque::new();
    log.push_back(ln("a", i64::MIN, false));
    log.push_back(ln("b", i64::MAX, false));
    let rows = exp_log_rows(&log);
    assert_eq!(rows[1].delta, Some(i64::MAX));
}
