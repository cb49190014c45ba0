//! The shared state: what the sampler publishes for the bar (rates, status,
//! the EXP log), the PK rank, the report form and the loaded tables and
//! settings. Sharing it between threads is the application's job.
use crate::config::AppConfig;
use crate::data::{find_job, group_has, job_at, JobGroup, MapInfo};
use crate::text::{dec, dec_string};
use std::collections::VecDeque;
use vstd::prelude::*;
use vstd::string::*;

verus! {

/// Which drawer page is open under the bar.
#[derive(Debug, Clone, Copy, PartialEq, Eq, Structural)]
pub enum Page {
    /// No drawer page open.
    Closed,
    /// The report form (or its success page).
    Report,
    /// The hour/minute picker of one of the two timers.
    TimePick(TimePickKind),
    /// The console-style EXP log.
    Log,
    /// About: version and website.
    About,
}

/// Which timer the picker sets.
#[derive(Debug, Clone, Copy, PartialEq, Eq, Structural)]
pub enum TimePickKind {
    Punch,
    Boss,
}

/// The picker's selection.
#[derive(Debug, Clone, Copy, PartialEq, Eq, Structural)]
pub struct PickState {
    pub h: u32,
    pub m: u32,
}

impl Default for PickState {
    fn default() -> (r: Self)
        ensures
            r.h == 0 && r.m == 0,
    {
        PickState { h: 0, m: 0 }
    }
}

// ---------------------------------------------------------------------------
// EXP log
// ---------------------------------------------------------------------------

/// Most lines the EXP log keeps (the oldest go first).
pub const EXP_LOG_CAP: usize = 1000;

/// One raw log line: wall-clock `HH:MM:SS`, the EXP, and whether it is the
/// head of a new segment (a level-up).
#[derive(Debug, Clone)]
pub struct ExpLogLine {
    pub hms: String,
    pub exp: i64,
    pub seg: bool,
}

/// One displayed log row; `delta` is the gain over the previous line, absent
/// for a segment head or a first line.
#[derive(Debug, Clone)]
pub struct ExpLogRow {
    pub t: String,
    pub exp: i64,
    pub delta: Option<i64>,
    pub seg: bool,
}

/// `a - b` clamped to the `i64` range.
pub open spec fn sat_sub(a: i64, b: i64) -> i64 {
    let d = a - b;
    if d > i64::MAX {
        i64::MAX
    } else if d < i64::MIN {
        i64::MIN
    } else {
        d as i64
    }
}

fn sat_sub_exec(a: i64, b: i64) -> (r: i64)
    ensures
        r == sat_sub(a, b),
{
    let d = (a as i128) - (b as i128);
    if d > i64::MAX as i128 {
        i64::MAX
    } else if d < i64::MIN as i128 {
        i64::MIN
    } else {
        d as i64
    }
}

/// The gain shown on log line `i`.
pub open spec fn row_delta(log: Seq<ExpLogLine>, i: int) -> Option<i64> {
    if log[i].seg || i == 0 {
        None
    } else {
        Some(sat_sub(log[i].exp, log[i - 1].exp))
    }
}

/// The log as display rows: each line's time and EXP, with the gain over the
/// line before it, except on segment heads and on the first line.
pub fn exp_log_rows(log: &VecDeque<ExpLogLine>) -> (r: Vec<ExpLogRow>)
    ensures
        r@.len() == log@.len(),
        forall|i: int|
            0 <= i < log@.len() ==> {
                &&& (#[trigger] r@[i]).t@ == log@[i].hms@
                &&& r@[i].exp == log@[i].exp
                &&& r@[i].seg == log@[i].seg
                &&& r@[i].delta == row_delta(log@, i)
            },
{
    let mut out: Vec<ExpLogRow> = Vec::new();
    let mut last: Option<i64> = None;
    let mut i: usize = 0;
    while i < log.len()
        invariant
            i <= log@.len(),
            out@.len() == i,
            last == (if i == 0 { None } else { Some(log@[i - 1].exp) }),
            forall|k: int|
                0 <= k < i ==> {
                    &&& (#[trigger] out@[k]).t@ == log@[k].hms@
                    &&& out@[k].exp == log@[k].exp
                    &&& out@[k].seg == log@[k].seg
                    &&& out@[k].delta == row_delta(log@, k)
                },
        decreases log@.len() - i,
    {
        let ln = &log[i];
        let delta = match (ln.seg, last) {
            (true, _) => None,
            (false, Some(prev)) => Some(sat_sub_exec(ln.exp, prev)),
            (false, None) => None,
        };
        out.push(ExpLogRow { t: ln.hms.clone(), exp: ln.exp, delta, seg: ln.seg });
        last = Some(ln.exp);
        i = i + 1;
    }
    out
}

/// The last (at most) `EXP_LOG_CAP` lines of `s`.
pub open spec fn log_tail(s: Seq<ExpLogLine>) -> Seq<ExpLogLine> {
    if s.len() > EXP_LOG_CAP {
        s.subrange(s.len() - EXP_LOG_CAP, s.len() as int)
    } else {
        s
    }
}

/// Appends a line, dropping the oldest beyond `EXP_LOG_CAP`.
pub fn push_exp_log(log: &mut VecDeque<ExpLogLine>, line: ExpLogLine)
    ensures
        final(log)@ == log_tail(old(log)@.push(line)),
{
    log.push_back(line);
    let ghost full = log@;
    assert(log@ == full.subrange(0, full.len() as int));
    while log.len() > EXP_LOG_CAP
        invariant
            log_tail(full) == log_tail(log@),
            log@.len() >= 1,
            exists|k: int| 0 <= k <= full.len() && log@ == full.subrange(k, full.len() as int),
        decreases log@.len(),
    {
        let ghost before = log@;
        let ghost k0 = choose|k: int| 0 <= k <= full.len() && before == full.subrange(k, full.len() as int);
        log.pop_front();
        proof {
            assert(log@ =~= before.drop_first());
            assert(log@ =~= full.subrange(k0 + 1, full.len() as int));
            assert(log_tail(before) =~= log_tail(log@));
        }
    }
    proof {
        if full.len() > EXP_LOG_CAP {
            assert(log@ =~= log_tail(log@));
        }
    }
}

// ---------------------------------------------------------------------------
// Sampler output
// ---------------------------------------------------------------------------

/// Points of the bar's spark line: the last minute in 5 s buckets.
pub const SPARK_BUCKETS: usize = 12;

/// The latest figures the sampler publishes.
#[derive(Debug, Clone, Copy)]
pub struct ExpMetrics {
    pub per_min: i64,
    pub per_hour: i64,
    /// Samples behind the minute figure.
    pub n_min: u32,
    /// Samples behind the hour figure; 0 means "nothing to show" (`-`).
    pub n_hour: u32,
    /// Unused: the level is not read any more.
    pub level: Option<u32>,
    /// When the figures were last computed (monotonic ns), if ever.
    pub updated: Option<u64>,
    /// EXP gained in each 5 s bucket of the last minute, newest last.
    pub spark: [i64; 12],
    /// EXP gained in the current segment (since the last reset or level-up).
    pub cum_gain: i64,
}

impl ExpMetrics {
    /// All zero: nothing to show.
    pub open spec fn is_zero(&self) -> bool {
        &&& self.per_min == 0
        &&& self.per_hour == 0
        &&& self.n_min == 0
        &&& self.n_hour == 0
        &&& self.level is None
        &&& self.updated is None
        &&& forall|i: int| 0 <= i < 12 ==> self.spark[i] == 0
        &&& self.cum_gain == 0
    }
}

impl Default for ExpMetrics {
    fn default() -> (r: Self)
        ensures
            r.is_zero(),
    {
        ExpMetrics {
            per_min: 0,
            per_hour: 0,
            n_min: 0,
            n_hour: 0,
            level: None,
            updated: None,
            spark: [0i64; 12],
            cum_gain: 0,
        }
    }
}

/// The sampler's state as shown in the status line.
#[derive(Debug, Clone, Copy, PartialEq, Eq, Structural)]
pub enum SamplerState {
    Init,
    Running,
    NoGame,
    /// The game runs but is not in the foreground: sampling and the rate
    /// clock are paused, the figures stay as they were.
    Paused,
    OcrFailed,
}

impl Default for SamplerState {
    fn default() -> (r: Self)
        ensures
            r == SamplerState::Init,
    {
        SamplerState::Init
    }
}

/// State and message of the sampler.
#[derive(Debug, Clone)]
pub struct SamplerStatus {
    pub state: SamplerState,
    pub msg: String,
}

impl Default for SamplerStatus {
    fn default() -> (r: Self)
        ensures
            r.state == SamplerState::Init,
            r.msg@ == Seq::<char>::empty(),
    {
        SamplerStatus { state: SamplerState::Init, msg: String::new() }
    }
}

// ---------------------------------------------------------------------------
// PK and report
// ---------------------------------------------------------------------------

/// The latest PK result the reporting thread publishes.
#[derive(Debug, Clone)]
pub struct PkState {
    /// Rank from the server (1-based, as sent); `None` shows `-`.
    pub rank: Option<u32>,
    /// Number of participants, when sent.
    pub total: Option<u32>,
    /// When the last report succeeded (monotonic ns).
    pub updated: Option<u64>,
    /// Why the last report failed.
    pub error: Option<String>,
}

impl Default for PkState {
    fn default() -> (r: Self)
        ensures
            r.rank is None && r.total is None && r.updated is None && r.error is None,
    {
        PkState { rank: None, total: None, updated: None, error: None }
    }
}

/// Sub-page of the report flow.
#[derive(Debug, Clone, Copy, PartialEq, Eq, Structural)]
pub enum ReportPhase {
    Form,
    Success,
}

impl Default for ReportPhase {
    fn default() -> (r: Self)
        ensures
            r == ReportPhase::Form,
    {
        ReportPhase::Form
    }
}

/// What the success page shows.
#[derive(Debug, Clone)]
pub struct ReportSuccess {
    /// Share link `<base>/exp.html?id=<id>`.
    pub url: String,
}

/// One submission, frozen when the form validated.
#[derive(Debug, Clone)]
pub struct ReportPayload {
    pub level: u32,
    pub job: String,
    pub map: String,
    pub mode_solo: bool,
    pub power: u64,
    pub note: String,
    pub vip: bool,
    /// EXP/h cached when the page opened.
    pub exp_per_hour: i64,
    /// Seconds of sampling behind it (samples × 5 s).
    pub exp_seconds: i64,
}

/// The report form being edited.
#[derive(Debug, Clone)]
pub struct ReportState {
    pub phase: ReportPhase,
    pub level: String,
    pub job_group: usize,
    pub job: usize,
    pub map_query: String,
    pub mode_solo: bool,
    pub vip: bool,
    pub power: String,
    pub note: String,
    pub err: String,
    pub success: Option<ReportSuccess>,
    pub submitting: bool,
    pub exp_per_hour: i64,
    pub exp_seconds: i64,
    /// Bumped whenever the page opens or a submission starts; a late result
    /// for another number is dropped.
    pub req: u64,
    pub pending: Option<ReportPayload>,
}

impl Default for ReportState {
    fn default() -> (r: Self)
        ensures
            r.phase == ReportPhase::Form,
            r.level@ == Seq::<char>::empty(),
            r.job_group == 0 && r.job == 0,
            r.map_query@ == Seq::<char>::empty(),
            !r.mode_solo && !r.vip && !r.submitting,
            r.power@ == Seq::<char>::empty(),
            r.note@ == Seq::<char>::empty(),
            r.err@ == Seq::<char>::empty(),
            r.success is None && r.pending is None,
            r.exp_per_hour == 0 && r.exp_seconds == 0 && r.req == 0,
    {
        ReportState {
            phase: ReportPhase::Form,
            level: String::new(),
            job_group: 0,
            job: 0,
            map_query: String::new(),
            mode_solo: false,
            vip: false,
            power: String::new(),
            note: String::new(),
            err: String::new(),
            success: None,
            submitting: false,
            exp_per_hour: 0,
            exp_seconds: 0,
            req: 0,
            pending: None,
        }
    }
}

// ---------------------------------------------------------------------------
// Everything shared
// ---------------------------------------------------------------------------

/// The whole shared state.
pub struct Shared {
    pub exp: ExpMetrics,
    pub sampler: SamplerStatus,
    /// The bar asked the sampler to drop its samples (refresh icon).
    pub clear_queue: bool,
    pub exp_log: VecDeque<ExpLogLine>,
    pub page: Page,
    pub report: ReportState,
    pub pick: PickState,
    pub uid: Option<String>,
    pub uid_error: Option<String>,
    /// Access token for the v2 API.
    pub token: Option<String>,
    /// When the token expires (monotonic ns).
    pub token_exp: Option<u64>,
    pub token_error: Option<String>,
    pub pk: PkState,
    pub jobs: Vec<JobGroup>,
    /// Hunting maps only.
    pub maps: Vec<MapInfo>,
    pub cfg: AppConfig,
}

/// Index of the first group with at least one job among the first `k`.
pub open spec fn first_nonempty(groups: Seq<JobGroup>, k: int) -> Option<int>
    decreases k,
{
    if k <= 0 {
        None
    } else {
        match first_nonempty(groups, k - 1) {
            Some(g) => Some(g),
            None => if groups[k - 1].jobs@.len() > 0 { Some(k - 1) } else { None },
        }
    }
}

/// The form's job when none (or an unknown one) is configured: the first job
/// of the first non-empty group, else (0, 0).
pub open spec fn default_job(groups: Seq<JobGroup>) -> (usize, usize) {
    match first_nonempty(groups, groups.len() as int) {
        Some(g) => (g as usize, 0),
        None => (0, 0),
    }
}

/// A positive number as text, empty for 0.
pub open spec fn positive_text(n: nat) -> Seq<char> {
    if n > 0 { dec(n) } else { Seq::empty() }
}

/// `rep` is the report form opened from the state `before`: the form phase,
/// the settings' defaults (the saved job when the tables hold it, else the
/// first job), the current EXP/h and its sampled seconds frozen, and the
/// next request number.
pub open spec fn report_opened(before: Shared, rep: ReportState) -> bool {
    let c = before.cfg;
    &&& rep.phase == ReportPhase::Form
    &&& rep.level@ == positive_text(c.level as nat)
    &&& (c.job@.len() == 0 || forall|gi: int| 0 <= gi < before.jobs@.len() ==> !group_has(before.jobs@, gi, c.job@))
        ==> (rep.job_group, rep.job) == default_job(before.jobs@)
    &&& (c.job@.len() > 0 && exists|gi: int| 0 <= gi < before.jobs@.len() && group_has(before.jobs@, gi, c.job@))
        ==> {
        &&& job_at(before.jobs@, rep.job_group as int, rep.job as int, c.job@)
        &&& forall|g: int| 0 <= g < rep.job_group ==> !group_has(before.jobs@, g, c.job@)
        &&& forall|j: int| 0 <= j < rep.job ==> before.jobs@[rep.job_group as int].jobs@[j]@ != c.job@
    }
    &&& rep.map_query@ == c.map@
    &&& rep.mode_solo == c.mode_solo
    &&& !rep.vip
    &&& rep.power@ == positive_text(c.power as nat)
    &&& rep.note@ == Seq::<char>::empty()
    &&& rep.err@ == Seq::<char>::empty()
    &&& rep.success is None
    &&& !rep.submitting
    &&& rep.exp_per_hour == before.exp.per_hour
    &&& rep.exp_seconds == before.exp.n_hour as int * 5
    &&& rep.req == (if before.report.req == u64::MAX { 0 } else { (before.report.req + 1) as u64 })
    &&& rep.pending is None
}

/// The parts of the shared state that clicks, the sampler's reports and the
/// clear request never touch are the same in `a` and `b`: identity, token,
/// PK figures, tables and settings.
pub open spec fn same_rest(a: Shared, b: Shared) -> bool {
    &&& a.uid == b.uid
    &&& a.uid_error == b.uid_error
    &&& a.token == b.token
    &&& a.token_exp == b.token_exp
    &&& a.token_error == b.token_error
    &&& a.pk == b.pk
    &&& a.jobs@ == b.jobs@
    &&& a.maps@ == b.maps@
    &&& a.cfg == b.cfg
}

impl Shared {
    /// Fresh state around the loaded settings and tables.
    pub fn new(cfg: AppConfig, jobs: Vec<JobGroup>, maps: Vec<MapInfo>) -> (r: Self)
        ensures
            r.exp.is_zero(),
            r.sampler.state == SamplerState::Init,
            !r.clear_queue,
            r.exp_log@.len() == 0,
            r.page == Page::Closed,
            r.uid == cfg.uid_cache,
            r.token is None,
            r.jobs@ == jobs@,
            r.maps@ == maps@,
            r.cfg == cfg,
    {
        let uid = cfg.uid_cache.clone();
        Shared {
            exp: ExpMetrics::default(),
            sampler: SamplerStatus::default(),
            clear_queue: false,
            exp_log: VecDeque::new(),
            page: Page::Closed,
            report: ReportState::default(),
            pick: PickState::default(),
            uid,
            uid_error: None,
            token: None,
            token_exp: None,
            token_error: None,
            pk: PkState::default(),
            jobs,
            maps,
            cfg,
        }
    }

    /// Resets the report form from the settings when the page opens, and
    /// freezes the EXP/h and its sampled seconds of this moment.
    pub fn init_report(&mut self)
        ensures
            report_opened(*old(self), final(self).report),
            same_rest(*old(self), *final(self)),
            final(self).exp == old(self).exp,
            final(self).sampler == old(self).sampler,
            final(self).clear_queue == old(self).clear_queue,
            final(self).exp_log@ == old(self).exp_log@,
            final(self).page == old(self).page,
            final(self).pick == old(self).pick,
    {
        let (level, job, map, solo, power) = self.cfg.report_defaults();
        let mut first: (usize, usize) = (0, 0);
        let mut gi: usize = 0;
        let mut found = false;
        while gi < self.jobs.len() && !found
            invariant
                gi <= self.jobs@.len(),
                !found ==> first_nonempty(self.jobs@, gi as int) is None && first == (0usize, 0usize),
                found ==> first == default_job(self.jobs@),
            decreases self.jobs@.len() - gi + (if found { 0int } else { 1int }),
        {
            if self.jobs[gi].jobs.len() > 0 {
                first = (gi, 0);
                found = true;
                proof {
                    lemma_first_nonempty_stable(self.jobs@, gi as int + 1, self.jobs@.len() as int);
                }
            } else {
                gi = gi + 1;
            }
        }
        proof {
            if !found {
                lemma_first_nonempty_none(self.jobs@, gi as int);
            }
        }
        let jv = crate::text::char_vec(job.as_str());
        let sel = if jv.len() == 0 {
            first
        } else {
            match find_job(&self.jobs, job.as_str()) {
                Some(p) => p,
                None => first,
            }
        };
        let secs = (self.exp.n_hour as i64) * 5;
        let level_text = if level > 0 {
            dec_string(level as u64)
        } else {
            String::new()
        };
        let power_text = if power > 0 {
            dec_string(power)
        } else {
            String::new()
        };
        let req = self.report.req.wrapping_add(1);
        self.report = ReportState {
            phase: ReportPhase::Form,
            level: level_text,
            job_group: sel.0,
            job: sel.1,
            map_query: map,
            mode_solo: solo,
            vip: false,
            power: power_text,
            note: String::new(),
            err: String::new(),
            success: None,
            submitting: false,
            exp_per_hour: self.exp.per_hour,
            exp_seconds: secs,
            req,
            pending: None,
        };
    }

    /// Takes the bar's request to clear the samples: when set, it is reset,
    /// the figures go back to "nothing to show" and the EXP log is emptied;
    /// the caller then clears the sampler itself.
    pub fn take_clear_request(&mut self) -> (r: bool)
        ensures
            r == old(self).clear_queue,
            !final(self).clear_queue,
            r ==> final(self).exp.is_zero() && final(self).exp_log@.len() == 0,
            !r ==> final(self).exp == old(self).exp && final(self).exp_log@ == old(self).exp_log@,
            final(self).sampler == old(self).sampler,
            same_rest(*old(self), *final(self)),
            final(self).page == old(self).page,
            final(self).report == old(self).report,
            final(self).pick == old(self).pick,
    {
        if !self.clear_queue {
            return false;
        }
        self.clear_queue = false;
        self.exp = ExpMetrics::default();
        self.exp_log.clear();
        true
    }

    /// Name of job `ji` in group `gi`; empty when either is out of range.
    pub fn job_name(&self, gi: usize, ji: usize) -> (r: String)
        ensures
            r@ == (if gi < self.jobs@.len() && ji < self.jobs@[gi as int].jobs@.len() {
                self.jobs@[gi as int].jobs@[ji as int]@
            } else {
                Seq::empty()
            }),
    {
        if gi < self.jobs.len() && ji < self.jobs[gi].jobs.len() {
            self.jobs[gi].jobs[ji].clone()
        } else {
            String::new()
        }
    }
}

proof fn lemma_first_nonempty_stable(groups: Seq<JobGroup>, a: int, b: int)
    requires
        0 < a <= b <= groups.len(),
        first_nonempty(groups, a - 1) is None,
        groups[a - 1].jobs@.len() > 0,
    ensures
        first_nonempty(groups, b) == Some(a - 1),
    decreases b - a,
{
    if b > a {
        lemma_first_nonempty_stable(groups, a, b - 1);
    }
}

proof fn lemma_first_nonempty_none(groups: Seq<JobGroup>, k: int)
    requires
        k == groups.len(),
        first_nonempty(groups, k) is None,
    ensures
        default_job(groups) == (0usize, 0usize),
{
}

} // verus!
