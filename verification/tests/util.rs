use chrono::{Datelike, NaiveDate, NaiveDateTime, Timelike};
use mxd_bar::util::{
    boss_view, fmt_clock, humanize_down, merchant_view, next_occurrence, punch_view, thousands, CalDate,
    ClockTime, DateTime,
};

#[test]
fn thousands_groups() {
    assert_eq!(thousands(0), "0");
    assert_eq!(thousands(999), "999");
    assert_eq!(thousands(33622), "33,622");
    assert_eq!(thousands(-1234), "-1,234");
    assert_eq!(thousands(516103), "516,103");
}

#[test]
fn humanize_floors() {
    assert_eq!(humanize_down(0), "0s");
    assert_eq!(humanize_down(33), "33s");
    assert_eq!(humanize_down(59), "59s");
    assert_eq!(humanize_down(60), "1m");
    assert_eq!(humanize_down(22 * 60), "22m");
    assert_eq!(humanize_down(2 * 3600), "2h");
    assert_eq!(humanize_down(12 * 3600 + 300), "12h");
}

#[test]
fn clock_scales_units() {
    assert_eq!(fmt_clock(0), "0s");
    assert_eq!(fmt_clock(5), "5s");
    assert_eq!(fmt_clock(59), "59s");
    assert_eq!(fmt_clock(60), "1:00");
    assert_eq!(fmt_clock(65), "1:05");
    assert_eq!(fmt_clock(3599), "59:59");
    assert_eq!(fmt_clock(3600), "1:00:00");
    assert_eq!(fmt_clock(3665), "1:01:05");
    assert_eq!(fmt_clock(7200 + 123), "2:02:03");
}

#[test]
fn negative_seconds_count_as_zero() {
    assert_eq!(humanize_down(-5), "0s");
    assert_eq!(fmt_clock(-5), "0s");
    assert_eq!(thousands(1_000_000), "1,000,000");
}

fn date(y: i32, m: u32, d: u32) -> CalDate {
    CalDate { y, m, d }
}

fn dt(y: i32, mo: u32, d: u32, h: u32, mi: u32) -> DateTime {
    DateTime { date: date(y, mo, d), time: tm(h, mi) }
}

fn tm(h: u32, m: u32) -> ClockTime {
    ClockTime { h, m, s: 0 }
}

/// `t` moved by `secs` seconds, computed with chrono.
fn plus(t: DateTime, secs: i64) -> DateTime {
    let n: NaiveDateTime = NaiveDate::from_ymd_opt(t.date.y, t.date.m, t.date.d)
        .unwrap()
        .and_hms_opt(t.time.h, t.time.m, t.time.s)
        .unwrap()
        + chrono::Duration::seconds(secs);
    DateTime {
        date: date(n.year(), n.month(), n.day()),
        time: ClockTime { h: n.hour(), m: n.minute(), s: n.second() },
    }
}

#[test]
fn next_occurrence_rolls_day() {
    let now = dt(2026, 9, 3, 10, 0);
    assert_eq!(next_occurrence(now, tm(9, 0)), dt(2026, 9, 4, 9, 0));
    let now2 = dt(2026, 9, 3, 8, 0);
    assert_eq!(next_occurrence(now2, tm(9, 0)), dt(2026, 9, 3, 9, 0));
    let now3 = dt(2026, 9, 3, 9, 0);
    assert_eq!(next_occurrence(now3, tm(9, 0)), dt(2026, 9, 4, 9, 0));
}

#[test]
fn next_occurrence_crosses_month_and_year() {
    assert_eq!(next_occurrence(dt(2026, 12, 31, 23, 0), tm(9, 0)), dt(2027, 1, 1, 9, 0));
    assert_eq!(next_occurrence(dt(2028, 2, 28, 10, 0), tm(9, 0)), dt(2028, 2, 29, 9, 0));
    assert_eq!(next_occurrence(dt(2026, 2, 28, 10, 0), tm(9, 0)), dt(2026, 3, 1, 9, 0));
}

#[test]
fn punch_states() {
    let now = dt(2026, 9, 3, 20, 0);
    let v = punch_view(now, None);
    assert_eq!(v.text, "999打卡 无");
    assert!(!v.red);
    let v = punch_view(now, Some((date(2026, 9, 3), tm(20, 3))));
    assert_eq!(v.text, "999打卡 3m");
    assert!(!v.red);
    let v = punch_view(now, Some((date(2026, 9, 3), tm(20, 0))));
    assert_eq!(v.text, "999 待打卡");
    assert!(v.red && v.jitter);
    let v = punch_view(now, Some((date(2026, 9, 2), tm(23, 0))));
    assert!(v.red);
}

const P: i64 = 5 * 3600 + 59 * 60;

#[test]
fn merchant_unset_is_none() {
    let now = dt(2026, 9, 3, 14, 0);
    let v = merchant_view(now, None, None);
    assert_eq!(v.text, "神秘商人 无");
    assert!(!v.green);
}

#[test]
fn merchant_cycles_from_anchor() {
    let a = dt(2026, 9, 3, 14, 0);
    let v = merchant_view(plus(a, 60), Some(tm(5, 59)), Some(a));
    assert_eq!(v.text, "神秘商人 5h");
    assert!(!v.green);
    let v = merchant_view(plus(a, P + 30), Some(tm(5, 59)), Some(a));
    assert_eq!(v.text, "神秘商人 已刷新");
    assert!(v.green);
    let v = merchant_view(plus(a, P + 200), Some(tm(5, 59)), Some(a));
    assert_eq!(v.text, "神秘商人 5h");
    assert!(!v.green);
    let v = merchant_view(plus(a, 2 * P + 30), Some(tm(5, 59)), Some(a));
    assert!(v.green);
}

#[test]
fn merchant_default_period_when_time_unset() {
    let a = dt(2026, 9, 3, 14, 0);
    let v = merchant_view(plus(a, 60), None, Some(a));
    assert_eq!(v.text, "神秘商人 5h");
    assert!(!v.green);
}

#[test]
fn merchant_custom_cycle() {
    let a = dt(2026, 9, 3, 12, 0);
    let v = merchant_view(plus(a, 30), Some(tm(1, 0)), Some(a));
    assert_eq!(v.text, "神秘商人 59m");
    assert!(!v.green);
    let v = merchant_view(plus(a, 3600 + 5), Some(tm(1, 0)), Some(a));
    assert!(v.green);
}

#[test]
fn merchant_zero_period_is_none() {
    let a = dt(2026, 9, 3, 12, 0);
    let v = merchant_view(plus(a, 30), Some(tm(0, 0)), Some(a));
    assert_eq!(v.text, "神秘商人 无");
}

#[test]
fn boss_forward_only() {
    let now = dt(2026, 9, 3, 14, 0);
    assert_eq!(boss_view(now, None).text, "BOSS 无");
    let v = boss_view(now, Some((date(2026, 9, 3), tm(13, 38))));
    assert_eq!(v.text, "BOSS 22m");
    let v = boss_view(now, Some((date(2026, 9, 3), tm(12, 0))));
    assert_eq!(v.text, "BOSS 无");
    let v = boss_view(now, Some((date(2026, 9, 2), tm(14, 0))));
    assert_eq!(v.text, "BOSS 无");
    let v = boss_view(now, Some((date(2026, 9, 3), tm(15, 0))));
    assert_eq!(v.text, "BOSS 0s");
}

#[test]
fn punch_counts_across_midnight() {
    let now = dt(2026, 9, 3, 23, 50);
    let v = punch_view(now, Some((date(2026, 9, 4), tm(0, 30))));
    assert_eq!(v.text, "999打卡 40m");
}
