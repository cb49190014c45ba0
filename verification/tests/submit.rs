use mxd_bar::submit::{after_attempt, record_name, Attempt, NextStep, Submitted, ATTEMPTS};
use mxd_bar::util::{CalDate, ClockTime, DateTime};

const SITE: &str = "https://mxd.zhuzhu.website";

#[test]
fn success_links_the_returned_id() {
    let report = Some(String::from("{\"expPerHour\":120}"));
    match after_attempt(0, Attempt::Sent { id: Some("abc-1".into()), report: report.clone() }, SITE, "dev") {
        NextStep::Finish(Submitted::Success { id, share_url, report: got }) => {
            assert_eq!(id, "abc-1");
            assert_eq!(share_url, "https://mxd.zhuzhu.website/exp.html?id=abc-1");
            assert_eq!(got, report);
        }
        _ => panic!("a sent record finishes"),
    }
}

#[test]
fn success_without_id_uses_the_device() {
    match after_attempt(2, Attempt::Sent { id: None, report: None }, SITE, "dev-9") {
        NextStep::Finish(Submitted::Success { id, share_url, report }) => {
            assert_eq!(report, None);
            assert_eq!(id, "dev-9");
            assert_eq!(share_url, "https://mxd.zhuzhu.website/exp.html?id=dev-9");
        }
        _ => panic!("a sent record finishes"),
    }
}

#[test]
fn bad_data_is_not_retried() {
    for code in [400u16, 403, 413] {
        match after_attempt(0, Attempt::Refused { status: code, error: Some("bad".into()) }, SITE, "d") {
            NextStep::Finish(Submitted::Failure { status, error }) => {
                assert_eq!(status, code);
                assert_eq!(error, "bad");
            }
            _ => panic!("status {code} is final"),
        }
    }
}

#[test]
fn server_errors_back_off_then_give_up() {
    match after_attempt(0, Attempt::Refused { status: 500, error: None }, SITE, "d") {
        NextStep::Retry { delay_ms, failure: Submitted::Failure { status, error } } => {
            assert_eq!(delay_ms, 5000);
            assert_eq!(status, 500);
            assert_eq!(error, "HTTP 500");
        }
        _ => panic!("a 500 is retried"),
    }
    match after_attempt(1, Attempt::Failed { message: "timeout".into() }, SITE, "d") {
        NextStep::Retry { delay_ms, failure: Submitted::Failure { status, error } } => {
            assert_eq!(delay_ms, 10000);
            assert_eq!(status, 0);
            assert_eq!(error, "timeout");
        }
        _ => panic!("a network error is retried"),
    }
    match after_attempt(ATTEMPTS - 1, Attempt::Failed { message: "timeout".into() }, SITE, "d") {
        NextStep::Finish(Submitted::Failure { status, error }) => {
            assert_eq!(status, 0);
            assert_eq!(error, "timeout");
        }
        _ => panic!("the last attempt finishes"),
    }
}

#[test]
fn archive_name_matches_iso_time() {
    let t = DateTime { date: CalDate { y: 2026, m: 8, d: 25 }, time: ClockTime { h: 14, m: 41, s: 4 } };
    assert_eq!(record_name(t, 870), "rec-2026-08-25T14-41-04-870Z.json");
    let t2 = DateTime { date: CalDate { y: 2026, m: 1, d: 2 }, time: ClockTime { h: 3, m: 4, s: 5 } };
    assert_eq!(record_name(t2, 7), "rec-2026-01-02T03-04-05-007Z.json");
}
