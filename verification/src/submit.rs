//! The desktop shell's record submission: every record is archived locally
//! under a time-stamped name, then posted with up to three attempts (at once,
//! after 5 s, after 10 s); a 400, 403 or 413 answer is final, as retrying
//! cannot change it. Sending, sleeping and writing the file are the
//! application's; the decisions are here.
use crate::config::ymd_text;
use crate::text::{char_vec, dec, pad2, push_char, push_dec};
use crate::util::{datetime_ok, DateTime};
use vstd::prelude::*;

verus! {

/// Delay (ms) before attempt `i` (0-based): at once, 5 s, 10 s.
pub open spec fn retry_delay(i: int) -> u64 {
    if i <= 0 {
        0
    } else if i == 1 {
        5000
    } else {
        10000
    }
}

/// Number of attempts.
pub const ATTEMPTS: usize = 3;

/// What one attempt gave.
pub enum Attempt {
    /// The server accepted the record; `id` is the `id` of its answer and
    /// `report` the JSON text of its `report`, each if any.
    Sent { id: Option<String>, report: Option<String> },
    /// The server answered with an error status; `error` is the `error` of
    /// its answer, if any.
    Refused { status: u16, error: Option<String> },
    /// The request did not get an answer.
    Failed { message: String },
}

/// The final result of a submission.
pub enum Submitted {
    /// Accepted: the record's id, its share link and the server's report.
    Success { id: String, share_url: String, report: Option<String> },
    /// Not accepted: status (0 without an answer) and reason.
    Failure { status: u16, error: String },
}

/// What to do after an attempt.
pub enum NextStep {
    Finish(Submitted),
    /// Wait `delay_ms`, then try again; `failure` is what is reported if no
    /// attempt is left to succeed.
    Retry { delay_ms: u64, failure: Submitted },
}

/// Statuses that no retry can change (bad data, bad key, too large).
pub open spec fn final_status(status: u16) -> bool {
    status == 400 || status == 403 || status == 413
}

/// The failure an attempt stands for.
pub open spec fn failure_of(a: Attempt) -> (u16, Seq<char>) {
    match a {
        Attempt::Sent { .. } => (0, Seq::empty()),
        Attempt::Refused { status, error } => (status, match error {
            Some(e) => e@,
            None => "HTTP "@ + dec(status as nat),
        }),
        Attempt::Failed { message } => (0, message@),
    }
}

/// The decision after attempt `i` (0-based) of a record from `device_id`,
/// with share links under `site`: success finishes with the answer's id (the
/// device id when the answer has none); a final status or the last attempt
/// finishes with the failure; otherwise wait for the next attempt.
pub fn after_attempt(i: usize, attempt: Attempt, site: &str, device_id: &str) -> (r: NextStep)
    requires
        i < ATTEMPTS,
    ensures
        match attempt {
            Attempt::Sent { id, report } => {
                let idv = match id {
                    Some(x) => x@,
                    None => device_id@,
                };
                r matches NextStep::Finish(Submitted::Success { id: got, share_url, report: got_report }) && got@
                    == idv && share_url@ == site@ + "/exp.html?id="@ + idv && got_report == report
            },
            _ => {
                let f = failure_of(attempt);
                let fin = (attempt matches Attempt::Refused { status, .. } && final_status(status)) || i + 1
                    == ATTEMPTS;
                &&& fin ==> (r matches NextStep::Finish(Submitted::Failure { status, error }) && status == f.0
                    && error@ == f.1)
                &&& !fin ==> (r matches NextStep::Retry { delay_ms, failure: Submitted::Failure { status, error } }
                    && delay_ms == retry_delay(i + 1) && status == f.0 && error@ == f.1)
            },
        },
{
    let (status, error, stop) = match attempt {
        Attempt::Sent { id, report } => {
            let idv = match id {
                Some(x) => x,
                None => String::from_str(device_id),
            };
            let mut url = String::from_str(site);
            url.append("/exp.html?id=");
            url.append(idv.as_str());
            return NextStep::Finish(Submitted::Success { id: idv, share_url: url, report });
        },
        Attempt::Refused { status, error } => {
            let e = match error {
                Some(e) => e,
                None => {
                    let mut s = String::from_str("HTTP ");
                    push_dec(&mut s, status as u64);
                    s
                },
            };
            (status, e, status == 400 || status == 403 || status == 413)
        },
        Attempt::Failed { message } => (0u16, message, false),
    };
    let failure = Submitted::Failure { status, error };
    if stop || i + 1 == ATTEMPTS {
        NextStep::Finish(failure)
    } else {
        let delay_ms: u64 = if i + 1 == 1 {
            5000
        } else {
            10000
        };
        NextStep::Retry { delay_ms, failure }
    }
}

/// Three digits, zero-padded.
pub open spec fn pad3(n: nat) -> Seq<char> {
    if n < 10 {
        seq!['0', '0'] + dec(n)
    } else if n < 100 {
        seq!['0'] + dec(n)
    } else {
        dec(n)
    }
}

/// chrono's `%Y-%m-%dT%H:%M:%S%.3fZ` of a UTC time with `ms` milliseconds.
pub open spec fn iso_millis(t: DateTime, ms: u32) -> Seq<char> {
    ymd_text(t.date) + "T"@ + pad2(t.time.h as nat) + ":"@ + pad2(t.time.m as nat) + ":"@ + pad2(t.time.s as nat)
        + "."@ + pad3(ms as nat) + "Z"@
}

/// `:` and `.` replaced by `-`.
pub open spec fn dashed(s: Seq<char>) -> Seq<char> {
    s.map_values(|c: char| if c == ':' || c == '.' { '-' } else { c })
}

/// The archive file of a record made at `t` (UTC) and `ms` milliseconds:
/// `rec-` and the ISO time with `:` and `.` as `-`, then `.json`.
pub open spec fn record_name_spec(t: DateTime, ms: u32) -> Seq<char> {
    "rec-"@ + dashed(iso_millis(t, ms)) + ".json"@
}

/// chrono `NaiveDateTime::format("%Y-%m-%dT%H:%M:%S%.3fZ")` of the date,
/// time and milliseconds, rendered to a `String`.
#[verifier::external_body]
fn format_iso_millis(t: DateTime, ms: u32) -> (r: String)
    requires
        datetime_ok(t),
        ms < 1000,
    ensures
        r@ == iso_millis(t, ms),
{
    chrono::NaiveDate::from_ymd_opt(t.date.y, t.date.m, t.date.d)
        .unwrap()
        .and_hms_milli_opt(t.time.h, t.time.m, t.time.s, ms)
        .unwrap()
        .format("%Y-%m-%dT%H:%M:%S%.3fZ")
        .to_string()
}

/// File name of the local archive of a record made at `t` (UTC) plus `ms`
/// milliseconds (see [`record_name_spec`]).
pub fn record_name(t: DateTime, ms: u32) -> (r: String)
    requires
        datetime_ok(t),
        ms < 1000,
    ensures
        r@ == record_name_spec(t, ms),
{
    let iso = format_iso_millis(t, ms);
    let v = char_vec(iso.as_str());
    let mut out = String::from_str("rec-");
    let ghost head = out@;
    let mut i: usize = 0;
    while i < v.len()
        invariant
            i <= v@.len(),
            v@ == iso_millis(t, ms),
            out@ == head + dashed(v@.take(i as int)),
        decreases v@.len() - i,
    {
        let c = v[i];
        push_char(&mut out, if c == ':' || c == '.' {
            '-'
        } else {
            c
        });
        assert(dashed(v@.take(i + 1)) =~= dashed(v@.take(i as int)).push(
            if c == ':' || c == '.' {
                '-'
            } else {
                c
            },
        ));
        i = i + 1;
    }
    out.append(".json");
    assert(v@.take(v@.len() as int) =~= v@);
    out
}

} // verus!
