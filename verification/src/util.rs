//! Display formatting independent of the UI: thousands separators, the two
//! duration styles used on the bar, and the three timer buttons (999 punch,
//! mystery merchant, boss), computed from a given local date and time.
use crate::text::{dec, dec_string, lemma_dec_digits, pad2, push_char, push_dec, push_pad2};
use vstd::prelude::*;
use vstd::string::*;

verus! {

/// Output of the grouping loop after the first `i` digits: a comma goes
/// before every digit (except the first) that has a multiple of three
/// digits from it to the end.
pub open spec fn group_prefix(d: Seq<char>, i: int) -> Seq<char>
    decreases i,
{
    if i <= 0 {
        Seq::empty()
    } else {
        let p = group_prefix(d, i - 1);
        let q = if i - 1 > 0 && (d.len() - (i - 1)) % 3 == 0 {
            p.push(',')
        } else {
            p
        };
        q.push(d[i - 1])
    }
}

/// `d` with thousands separators.
pub open spec fn grouped(d: Seq<char>) -> Seq<char> {
    group_prefix(d, d.len() as int)
}

/// Absolute value.
pub open spec fn abs(n: int) -> int {
    if n < 0 { -n } else { n }
}

/// `thousands(n)`: sign, then the decimal digits of |n| grouped by three.
pub open spec fn thousands_spec(n: int) -> Seq<char> {
    (if n < 0 { seq!['-'] } else { Seq::empty() }) + grouped(dec(abs(n) as nat))
}

/// `s` without its commas.
pub open spec fn strip_commas(s: Seq<char>) -> Seq<char>
    decreases s.len(),
{
    if s.len() == 0 {
        s
    } else if s.last() == ',' {
        strip_commas(s.drop_last())
    } else {
        strip_commas(s.drop_last()).push(s.last())
    }
}

proof fn lemma_strip_group_prefix(d: Seq<char>, i: int)
    requires
        0 <= i <= d.len(),
        forall|k: int| 0 <= k < d.len() ==> d[k] != ',',
    ensures
        strip_commas(group_prefix(d, i)) == d.take(i),
    decreases i,
{
    if i > 0 {
        lemma_strip_group_prefix(d, i - 1);
        let p = group_prefix(d, i - 1);
        let q = if i - 1 > 0 && (d.len() - (i - 1)) % 3 == 0 {
            p.push(',')
        } else {
            p
        };
        assert(q.push(d[i - 1]).drop_last() == q);
        assert(p.push(',').drop_last() == p);
        assert(strip_commas(q) == strip_commas(p));
        assert(strip_commas(q.push(d[i - 1])) == strip_commas(q).push(d[i - 1]));
        assert(d.take(i) =~= d.take(i - 1).push(d[i - 1]));
    } else {
        assert(d.take(i) =~= Seq::<char>::empty());
    }
}

/// Law: taking the separators out of `thousands(n)` gives back the plain
/// decimal text of `n`.
pub proof fn lemma_thousands_strips_to_decimal(n: int)
    ensures
        strip_commas(grouped(dec(abs(n) as nat))) == dec(abs(n) as nat),
{
    let d = dec(abs(n) as nat);
    lemma_dec_digits(abs(n) as nat);
    assert forall|k: int| 0 <= k < d.len() implies d[k] != ',' by {
        assert('0' <= d[k] <= '9');
    }
    lemma_strip_group_prefix(d, d.len() as int);
    assert(d.take(d.len() as int) =~= d);
}

/// Thousands separators, e.g. 33622 → "33,622", -1234 → "-1,234".
pub fn thousands(n: i64) -> (r: String)
    requires
        n != i64::MIN,
    ensures
        r@ == thousands_spec(n as int),
{
    let negative = n < 0;
    let a: u64 = if negative {
        (-n) as u64
    } else {
        n as u64
    };
    let digits = dec_string(a);
    let ds = digits.as_str();
    let len = ds.unicode_len();
    let ghost d = dec(a as nat);
    let mut out = String::new();
    if negative {
        push_char(&mut out, '-');
    }
    let ghost head = out@;
    let mut i: usize = 0;
    while i < len
        invariant
            ds@ == d,
            len == d.len(),
            i <= len,
            out@ == head + group_prefix(d, i as int),
        decreases len - i,
    {
        let ch = ds.get_char(i);
        if i > 0 && (len - i) % 3 == 0 {
            push_char(&mut out, ',');
        }
        push_char(&mut out, ch);
        i = i + 1;
        assert(out@ =~= head + group_prefix(d, i as int));
    }
    assert(abs(n as int) == a);
    assert(out@ =~= thousands_spec(n as int));
    out
}

/// Seconds rounded down to one unit: `33s`, `22m`, `12h` (negative counts as 0).
pub open spec fn humanize_spec(secs: int) -> Seq<char> {
    let s = if secs < 0 { 0 } else { secs };
    if s < 60 {
        dec(s as nat).push('s')
    } else if s < 3600 {
        dec((s / 60) as nat).push('m')
    } else {
        dec((s / 3600) as nat).push('h')
    }
}

/// Seconds → a short count rounded down: `33s` / `55m` / `12h`.
pub fn humanize_down(secs: i64) -> (r: String)
    ensures
        r@ == humanize_spec(secs as int),
{
    let s: u64 = if secs < 0 {
        0
    } else {
        secs as u64
    };
    let mut out = String::new();
    if s < 60 {
        push_dec(&mut out, s);
        push_char(&mut out, 's');
    } else if s < 3600 {
        push_dec(&mut out, s / 60);
        push_char(&mut out, 'm');
    } else {
        push_dec(&mut out, s / 3600);
        push_char(&mut out, 'h');
    }
    assert(out@ =~= humanize_spec(secs as int));
    out
}

/// Clock style that grows with the value: `59s`, `M:SS`, `H:MM:SS`.
pub open spec fn clock_spec(secs: int) -> Seq<char> {
    let s = if secs < 0 { 0 } else { secs };
    if s < 60 {
        dec(s as nat).push('s')
    } else if s < 3600 {
        dec((s / 60) as nat).push(':') + pad2((s % 60) as nat)
    } else {
        dec((s / 3600) as nat).push(':') + pad2(((s % 3600) / 60) as nat).push(':') + pad2(
            (s % 60) as nat,
        )
    }
}

/// Seconds → clock text: `33s` → `1:05` → `1:00:00`.
pub fn fmt_clock(secs: i64) -> (r: String)
    ensures
        r@ == clock_spec(secs as int),
{
    let s: u64 = if secs < 0 {
        0
    } else {
        secs as u64
    };
    let mut out = String::new();
    if s < 60 {
        push_dec(&mut out, s);
        push_char(&mut out, 's');
    } else if s < 3600 {
        push_dec(&mut out, s / 60);
        push_char(&mut out, ':');
        push_pad2(&mut out, s % 60);
    } else {
        push_dec(&mut out, s / 3600);
        push_char(&mut out, ':');
        push_pad2(&mut out, (s % 3600) / 60);
        push_char(&mut out, ':');
        push_pad2(&mut out, s % 60);
    }
    assert(out@ =~= clock_spec(secs as int));
    out
}

// ---------------------------------------------------------------------------
// Local dates and times
// ---------------------------------------------------------------------------

/// A calendar date (proleptic Gregorian).
#[derive(Debug, Clone, Copy, PartialEq, Eq, Structural)]
pub struct CalDate {
    pub y: i32,
    pub m: u32,
    pub d: u32,
}

/// A time of day.
#[derive(Debug, Clone, Copy, PartialEq, Eq, Structural)]
pub struct ClockTime {
    pub h: u32,
    pub m: u32,
    pub s: u32,
}

/// A local date and time.
#[derive(Debug, Clone, Copy, PartialEq, Eq, Structural)]
pub struct DateTime {
    pub date: CalDate,
    pub time: ClockTime,
}

/// Leap year in the Gregorian calendar.
pub open spec fn is_leap(y: int) -> bool {
    (y % 4 == 0 && y % 100 != 0) || y % 400 == 0
}

/// Days in month `m` of year `y`.
pub open spec fn days_in_month(y: int, m: int) -> int {
    if m == 2 {
        if is_leap(y) { 29 } else { 28 }
    } else if m == 4 || m == 6 || m == 9 || m == 11 {
        30
    } else {
        31
    }
}

/// A real date inside the range the date library handles.
pub open spec fn date_ok(d: CalDate) -> bool {
    &&& -262_143 <= d.y <= 262_142
    &&& 1 <= d.m <= 12
    &&& 1 <= d.d <= days_in_month(d.y as int, d.m as int)
}

/// A real time of day (no leap second).
pub open spec fn time_ok(t: ClockTime) -> bool {
    t.h < 24 && t.m < 60 && t.s < 60
}

/// A real date and time.
pub open spec fn datetime_ok(t: DateTime) -> bool {
    date_ok(t.date) && time_ok(t.time)
}

/// Whether a date is real and in range (see [`date_ok`]).
pub fn date_valid(d: CalDate) -> (r: bool)
    ensures
        r == date_ok(d),
{
    if d.y < -262_143 || d.y > 262_142 || d.m < 1 || d.m > 12 || d.d < 1 {
        return false;
    }
    let leap = (d.y % 4 == 0 && d.y % 100 != 0) || d.y % 400 == 0;
    let dim: u32 = if d.m == 2 {
        if leap {
            29
        } else {
            28
        }
    } else if d.m == 4 || d.m == 6 || d.m == 9 || d.m == 11 {
        30
    } else {
        31
    };
    d.d <= dim
}

/// Whether a time of day is real (see [`time_ok`]).
pub fn time_valid(t: ClockTime) -> (r: bool)
    ensures
        r == time_ok(t),
{
    t.h < 24 && t.m < 60 && t.s < 60
}

/// Whether a date and time are real (see [`datetime_ok`]).
pub fn datetime_valid(t: DateTime) -> (r: bool)
    ensures
        r == datetime_ok(t),
{
    date_valid(t.date) && time_valid(t.time)
}

/// Days from 1970-01-01 to the date (negative before it).
pub open spec fn epoch_days(d: CalDate) -> int {
    let y = if d.m <= 2 { d.y - 1 } else { d.y as int };
    let era = y / 400;
    let yoe = y - era * 400;
    let mp = (d.m + 9) % 12;
    let doy = (153 * mp + 2) / 5 + d.d - 1;
    let doe = yoe * 365 + yoe / 4 - yoe / 100 + doy;
    era * 146097 + doe - 719468
}

/// Seconds since midnight.
pub open spec fn day_secs(t: ClockTime) -> int {
    t.h * 3600 + t.m * 60 + t.s
}

/// Seconds from 1970-01-01 00:00:00 to the date and time.
pub open spec fn epoch_secs(t: DateTime) -> int {
    epoch_days(t.date) * 86400 + day_secs(t.time)
}

/// The following calendar day.
pub open spec fn next_day_spec(d: CalDate) -> CalDate {
    if d.d < days_in_month(d.y as int, d.m as int) {
        CalDate { y: d.y, m: d.m, d: (d.d + 1) as u32 }
    } else if d.m < 12 {
        CalDate { y: d.y, m: (d.m + 1) as u32, d: 1 }
    } else {
        CalDate { y: (d.y + 1) as i32, m: 1, d: 1 }
    }
}

/// chrono `NaiveDateTime::signed_duration_since(..).num_seconds()`: whole
/// seconds from `b` to `a` on the proleptic Gregorian calendar.
#[verifier::external_body]
fn secs_between(a: DateTime, b: DateTime) -> (r: i64)
    requires
        datetime_ok(a),
        datetime_ok(b),
    ensures
        r == epoch_secs(a) - epoch_secs(b),
{
    let da = chrono::NaiveDate::from_ymd_opt(a.date.y, a.date.m, a.date.d).unwrap();
    let db = chrono::NaiveDate::from_ymd_opt(b.date.y, b.date.m, b.date.d).unwrap();
    let ta = da.and_hms_opt(a.time.h, a.time.m, a.time.s).unwrap();
    let tb = db.and_hms_opt(b.time.h, b.time.m, b.time.s).unwrap();
    ta.signed_duration_since(tb).num_seconds()
}

/// chrono `NaiveDate::succ_opt`: the next calendar day.
#[verifier::external_body]
fn next_date(d: CalDate) -> (r: CalDate)
    requires
        date_ok(d),
        d.y < 262_142,
    ensures
        r == next_day_spec(d),
{
    let n = chrono::NaiveDate::from_ymd_opt(d.y, d.m, d.d).unwrap().succ_opt().unwrap();
    CalDate { y: chrono::Datelike::year(&n), m: chrono::Datelike::month(&n), d: chrono::Datelike::day(&n) }
}

/// chrono `NaiveTime::num_seconds_from_midnight`.
#[verifier::external_body]
fn secs_from_midnight(t: ClockTime) -> (r: u32)
    requires
        time_ok(t),
    ensures
        r == day_secs(t),
{
    chrono::Timelike::num_seconds_from_midnight(&chrono::NaiveTime::from_hms_opt(t.h, t.m, t.s).unwrap())
}

/// The next `t` strictly after `now`: today's if still ahead, else tomorrow's.
pub fn next_occurrence(now: DateTime, t: ClockTime) -> (r: DateTime)
    requires
        datetime_ok(now),
        time_ok(t),
        now.date.y < 262_142,
    ensures
        r == (if epoch_secs(DateTime { date: now.date, time: t }) > epoch_secs(now) {
            DateTime { date: now.date, time: t }
        } else {
            DateTime { date: next_day_spec(now.date), time: t }
        }),
        datetime_ok(r),
{
    let cand = DateTime { date: now.date, time: t };
    if secs_between(cand, now) > 0 {
        cand
    } else {
        let nd = next_date(now.date);
        DateTime { date: nd, time: t }
    }
}

// ---------------------------------------------------------------------------
// Timer buttons
// ---------------------------------------------------------------------------

/// What one timer button shows.
#[derive(Debug, Clone, PartialEq, Eq)]
pub struct TimerUi {
    pub text: String,
    /// Red: overdue / waiting for the punch.
    pub red: bool,
    /// Green: the merchant just refreshed.
    pub green: bool,
    /// Shaking (only the pending punch).
    pub jitter: bool,
}

/// Merchant cycle when none is set: 05:59.
pub open spec fn merchant_default_spec() -> ClockTime {
    ClockTime { h: 5, m: 59, s: 0 }
}

/// After each merchant refresh the button stays green this long (s).
pub const MERCHANT_REFRESH_SHOW_S: i64 = 120;

/// Boss timers expire after this long (s): 99 minutes.
pub const BOSS_LIMIT_S: i64 = 5940;

fn plain(text: String) -> (r: TimerUi)
    ensures
        r.text == text,
        !r.red && !r.green && !r.jitter,
{
    TimerUi { text, red: false, green: false, jitter: false }
}

fn labelled(label: &str, secs: i64) -> (r: String)
    ensures
        r@ == label@ + humanize_spec(secs as int),
{
    let mut out = String::from_str(label);
    let h = humanize_down(secs);
    out.append(h.as_str());
    out
}

/// What the punch button shows at `now`.
pub open spec fn punch_shows(now: DateTime, t: Option<(CalDate, ClockTime)>, r: TimerUi) -> bool {
    match t {
        None => r.text@ == "999打卡 无"@ && !r.red && !r.green && !r.jitter,
        Some((d, tm)) => {
            let diff = epoch_secs(DateTime { date: d, time: tm }) - epoch_secs(now);
            if diff > 0 {
                r.text@ == "999打卡 "@ + humanize_spec(diff) && !r.red && !r.green && !r.jitter
            } else {
                r.text@ == "999 待打卡"@ && r.red && !r.green && r.jitter
            }
        },
    }
}

/// What the boss button shows at `now`.
pub open spec fn boss_shows(now: DateTime, t: Option<(CalDate, ClockTime)>, r: TimerUi) -> bool {
    &&& !r.red && !r.green && !r.jitter
    &&& match t {
        None => r.text@ == "BOSS 无"@,
        Some((d, tm)) => {
            let e0 = epoch_secs(now) - epoch_secs(DateTime { date: d, time: tm });
            let e = if e0 < 0 { 0 } else { e0 };
            if e >= BOSS_LIMIT_S {
                r.text@ == "BOSS 无"@
            } else {
                r.text@ == "BOSS "@ + humanize_spec(e)
            }
        },
    }
}

/// The 999 punch: counts down to the set moment; from that moment on (until
/// it is set again) a red, shaking "999 待打卡".
pub fn punch_view(now: DateTime, t: Option<(CalDate, ClockTime)>) -> (r: TimerUi)
    requires
        datetime_ok(now),
        t matches Some((d, tm)) ==> date_ok(d) && time_ok(tm),
    ensures
        punch_shows(now, t, r),
{
    match t {
        None => plain(String::from_str("999打卡 无")),
        Some((d, tm)) => {
            let diff = secs_between(DateTime { date: d, time: tm }, now);
            if diff > 0 {
                plain(labelled("999打卡 ", diff))
            } else {
                TimerUi { text: String::from_str("999 待打卡"), red: true, green: false, jitter: true }
            }
        },
    }
}

/// The merchant cycle length in seconds for a set (or the default) time.
pub open spec fn merchant_period(t: Option<ClockTime>) -> int {
    match t {
        Some(c) => day_secs(c),
        None => day_secs(merchant_default_spec()),
    }
}

/// Seconds since the anchor, never negative.
pub open spec fn merchant_elapsed(now: DateTime, a: DateTime) -> int {
    let s = epoch_secs(now) - epoch_secs(a);
    if s < 0 { 0 } else { s }
}

/// The mystery merchant: a repeating countdown of the set period from the
/// anchor (the last confirmation); green "已刷新" for two minutes after
/// each completed cycle; "无" without an anchor or with a zero period.
pub fn merchant_view(now: DateTime, t: Option<ClockTime>, anchor: Option<DateTime>) -> (r: TimerUi)
    requires
        datetime_ok(now),
        t matches Some(c) ==> time_ok(c),
        anchor matches Some(a) ==> datetime_ok(a),
    ensures
        !r.red && !r.jitter,
        match anchor {
            None => r.text@ == "神秘商人 无"@ && !r.green,
            Some(a) => {
                let p = merchant_period(t);
                let s = merchant_elapsed(now, a);
                if p <= 0 {
                    r.text@ == "神秘商人 无"@ && !r.green
                } else if s / p >= 1 && s % p < MERCHANT_REFRESH_SHOW_S {
                    r.text@ == "神秘商人 已刷新"@ && r.green
                } else {
                    r.text@ == "神秘商人 "@ + humanize_spec(p - s % p) && !r.green
                }
            },
        },
{
    let a = match anchor {
        None => return plain(String::from_str("神秘商人 无")),
        Some(a) => a,
    };
    let tm = match t {
        Some(c) => c,
        None => ClockTime { h: 5, m: 59, s: 0 },
    };
    let period = secs_from_midnight(tm) as i64;
    if period <= 0 {
        return plain(String::from_str("神秘商人 无"));
    }
    let d = secs_between(now, a);
    let s = if d < 0 {
        0
    } else {
        d
    };
    let since = s % period;
    let cycles = s / period;
    if cycles >= 1 && since < MERCHANT_REFRESH_SHOW_S {
        return TimerUi { text: String::from_str("神秘商人 已刷新"), red: false, green: true, jitter: false };
    }
    plain(labelled("神秘商人 ", period - since))
}

/// The boss stopwatch: time since the set moment (a future moment counts
/// as 0); after 99 minutes it expires to "BOSS 无".
pub fn boss_view(now: DateTime, t: Option<(CalDate, ClockTime)>) -> (r: TimerUi)
    requires
        datetime_ok(now),
        t matches Some((d, tm)) ==> date_ok(d) && time_ok(tm),
    ensures
        boss_shows(now, t, r),
{
    match t {
        None => plain(String::from_str("BOSS 无")),
        Some((d, tm)) => {
            let e0 = secs_between(now, DateTime { date: d, time: tm });
            let e = if e0 < 0 {
                0
            } else {
                e0
            };
            if e >= BOSS_LIMIT_S {
                plain(String::from_str("BOSS 无"))
            } else {
                plain(labelled("BOSS ", e))
            }
        },
    }
}

} // verus!
