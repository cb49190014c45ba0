//! The report form's rules: validating the form into a submission (and
//! keeping the values as next time's defaults), starting it, and taking the
//! server's answer back. Sending it is the application's job.
use crate::config::{parse_uint, parse_uint_spec};
use crate::data::MAGIC_GROUP;
use crate::net::{share_url, ApiError};
use crate::state::{ReportPayload, ReportPhase, ReportSuccess, Shared};
use crate::text::{char_vec, trim_spec, trim_str};
use vstd::prelude::*;
use vstd::string::*;

verus! {

/// Longest note, in characters.
pub const NOTE_MAX: usize = 20;

/// A positive integer typed in a form field (surrounding whitespace allowed).
pub open spec fn positive_field(s: Seq<char>, max: int) -> Option<int> {
    match parse_uint_spec(trim_spec(s), max) {
        Some(v) => if v >= 1 { Some(v) } else { None },
        None => None,
    }
}

/// Whether group `gi` is the mage group (its power field is magic power).
pub open spec fn is_mage_group(s: Shared, gi: int) -> bool {
    0 <= gi < s.jobs@.len() && s.jobs@[gi].group@ == MAGIC_GROUP@
}

/// The selected job's name, empty when the selection is out of range.
pub open spec fn selected_job(s: Shared) -> Seq<char> {
    let gi = s.report.job_group as int;
    let ji = s.report.job as int;
    if gi < s.jobs@.len() && ji < s.jobs@[gi].jobs@.len() {
        s.jobs@[gi].jobs@[ji]@
    } else {
        Seq::empty()
    }
}

/// The outcome of validating the form of `s`.
pub open spec fn validated(s: Shared, r: Result<ReportPayload, String>) -> bool {
    let level = positive_field(s.report.level@, u32::MAX as int);
    let power = positive_field(s.report.power@, u64::MAX as int);
    let job = selected_job(s);
    let map = trim_spec(s.report.map_query@);
    if level is None {
        r matches Err(e) && e@ == "等级需为 ≥1 的正整数"@
    } else if job.len() == 0 {
        r matches Err(e) && e@ == "请选择一个职业（data/jobs.json 缺失？）"@
    } else if map.len() == 0 {
        r matches Err(e) && e@ == "请填写或选择一个地图"@
    } else if power is None {
        r matches Err(e) && e@ == (if is_mage_group(s, s.report.job_group as int) {
            "魔法力"@
        } else {
            "攻击力"@
        }) + " 需为 ≥1 的正整数"@
    } else {
        &&& r matches Ok(p)
        &&& p.level == level->0
        &&& p.job@ == job
        &&& p.map@ == map
        &&& p.mode_solo == s.report.mode_solo
        &&& p.power == power->0
        &&& p.note@ == s.report.note@
        &&& p.vip == s.report.vip
        &&& p.exp_per_hour == s.report.exp_per_hour
        &&& p.exp_seconds == s.report.exp_seconds
    }
}

/// The first `NOTE_MAX` characters of a note.
pub fn cap_note(note: &str) -> (r: String)
    ensures
        r@ == if note@.len() > NOTE_MAX { note@.take(NOTE_MAX as int) } else { note@ },
{
    let v = char_vec(note);
    let n = if v.len() > NOTE_MAX {
        NOTE_MAX
    } else {
        v.len()
    };
    let mut s = String::new();
    let mut i: usize = 0;
    while i < n
        invariant
            n <= v@.len(),
            v@ == note@,
            i <= n,
            s@ == v@.take(i as int),
        decreases n - i,
    {
        crate::text::push_char(&mut s, v[i]);
        assert(v@.take(i + 1) =~= v@.take(i as int).push(v@[i as int]));
        i = i + 1;
    }
    assert(v@.take(n as int) =~= (if note@.len() > NOTE_MAX { note@.take(NOTE_MAX as int) } else { note@ }));
    s
}

fn copy_string(s: &String) -> (r: String)
    ensures
        r@ == s@,
{
    s.clone()
}

/// A copy of a submission.
pub fn copy_payload(p: &ReportPayload) -> (r: ReportPayload)
    ensures
        r.level == p.level,
        r.job@ == p.job@,
        r.map@ == p.map@,
        r.mode_solo == p.mode_solo,
        r.power == p.power,
        r.note@ == p.note@,
        r.vip == p.vip,
        r.exp_per_hour == p.exp_per_hour,
        r.exp_seconds == p.exp_seconds,
{
    ReportPayload {
        level: p.level,
        job: copy_string(&p.job),
        map: copy_string(&p.map),
        mode_solo: p.mode_solo,
        power: p.power,
        note: copy_string(&p.note),
        vip: p.vip,
        exp_per_hour: p.exp_per_hour,
        exp_seconds: p.exp_seconds,
    }
}

impl Shared {
    /// The form checked: level and power positive integers, a job
    /// selected, a map given; the submission, or the first problem.
    pub fn validate(&self) -> (r: Result<ReportPayload, String>)
        ensures
            validated(*self, r),
    {
        let level = match parse_uint(trim_str(self.report.level.as_str()), u32::MAX as u64) {
            Some(v) if v >= 1 => v as u32,
            _ => return Err(String::from_str("等级需为 ≥1 的正整数")),
        };
        let job = self.job_name(self.report.job_group, self.report.job);
        let jv = char_vec(job.as_str());
        if jv.len() == 0 {
            return Err(String::from_str("请选择一个职业（data/jobs.json 缺失？）"));
        }
        let map_t = trim_str(self.report.map_query.as_str());
        let mv = char_vec(map_t);
        if mv.len() == 0 {
            return Err(String::from_str("请填写或选择一个地图"));
        }
        let power = match parse_uint(trim_str(self.report.power.as_str()), u64::MAX) {
            Some(v) if v >= 1 => v,
            _ => {
                let gi = self.report.job_group;
                let mage = gi < self.jobs.len() && self.jobs[gi].group == String::from_str(MAGIC_GROUP);
                let mut e = String::from_str(if mage {
                    "魔法力"
                } else {
                    "攻击力"
                });
                e.append(" 需为 ≥1 的正整数");
                return Err(e);
            },
        };
        Ok(ReportPayload {
            level,
            job,
            map: String::from_str(map_t),
            mode_solo: self.report.mode_solo,
            power,
            note: copy_string(&self.report.note),
            vip: self.report.vip,
            exp_per_hour: self.report.exp_per_hour,
            exp_seconds: self.report.exp_seconds,
        })
    }

    /// Validates the form (see [`validate`](Shared::validate)); on success
    /// the values also become the settings' defaults.
    pub fn build_payload(&mut self) -> (r: Result<ReportPayload, String>)
        ensures
            validated(*old(self), r),
            r is Err ==> final(self).cfg == old(self).cfg,
            r matches Ok(p) ==> {
                &&& final(self).cfg.level == p.level
                &&& final(self).cfg.job@ == p.job@
                &&& final(self).cfg.map@ == p.map@
                &&& final(self).cfg.mode_solo == p.mode_solo
                &&& final(self).cfg.power == p.power
                &&& final(self).cfg.punch == old(self).cfg.punch
                &&& final(self).cfg.boss == old(self).cfg.boss
            },
            final(self).report == old(self).report,
            final(self).jobs@ == old(self).jobs@,
            final(self).page == old(self).page,
    {
        let r = self.validate();
        match &r {
            Ok(p) => {
                self.cfg.level = p.level;
                self.cfg.job = copy_string(&p.job);
                self.cfg.map = copy_string(&p.map);
                self.cfg.mode_solo = p.mode_solo;
                self.cfg.power = p.power;
            },
            Err(_) => {},
        }
        r
    }

    /// "确认提交": a valid form starts a submission (a new request number,
    /// returned; the error line cleared); an invalid one shows its problem.
    pub fn submit(&mut self) -> (r: Option<u64>)
        ensures
            r matches Some(q) ==> {
                &&& final(self).report.submitting
                &&& q == final(self).report.req
                &&& final(self).report.req == (if old(self).report.req == u64::MAX { 0 } else { (old(self).report.req + 1) as u64 })
                &&& final(self).report.pending is Some
                &&& final(self).report.err@ == Seq::<char>::empty()
            },
            r is None ==> final(self).report.submitting == old(self).report.submitting
                && final(self).report.req == old(self).report.req,
            r is Some ==> validated(*old(self), Ok(final(self).report.pending->0)),
            r is None ==> validated(*old(self), Err(final(self).report.err)),
            r is None ==> final(self).cfg == old(self).cfg,
            r is Some ==> {
                let p = final(self).report.pending->0;
                &&& final(self).cfg.level == p.level
                &&& final(self).cfg.job@ == p.job@
                &&& final(self).cfg.map@ == p.map@
                &&& final(self).cfg.mode_solo == p.mode_solo
                &&& final(self).cfg.power == p.power
                &&& final(self).cfg.punch == old(self).cfg.punch
                &&& final(self).cfg.boss == old(self).cfg.boss
            },
    {
        match self.build_payload() {
            Ok(p) => {
                self.report.err = String::new();
                self.report.submitting = true;
                self.report.req = self.report.req.wrapping_add(1);
                self.report.pending = Some(p);
                Some(self.report.req)
            },
            Err(e) => {
                self.report.err = e;
                None
            },
        }
    }

    /// The submission to send for request `req`: only while that very
    /// request is still being submitted.
    pub fn submission(&self, req: u64) -> (r: Option<ReportPayload>)
        ensures
            (self.report.submitting && self.report.req == req && self.report.pending is Some) <==> r is Some,
            r matches Some(p) ==> (self.report.pending matches Some(q) && p.job@ == q.job@ && p.level == q.level
                && p.power == q.power && p.map@ == q.map@),
    {
        if self.report.submitting && self.report.req == req {
            match &self.report.pending {
                Some(p) => Some(copy_payload(p)),
                None => None,
            }
        } else {
            None
        }
    }

    /// Takes the outcome of request `req` sent to `base`: ignored when the
    /// page was reopened or switched since; otherwise success moves to the
    /// success page with the share link, failure shows the reason.
    pub fn finish_submit(&mut self, req: u64, base: &str, result: Result<String, ApiError>)
        ensures
            !(old(self).report.submitting && old(self).report.req == req) ==> final(self).report == old(self).report,
            (old(self).report.submitting && old(self).report.req == req) ==> {
                &&& !final(self).report.submitting
                &&& match result {
                    Ok(id) => final(self).report.phase == ReportPhase::Success
                        && (final(self).report.success matches Some(s) && s.url@ == base@ + "/exp.html?id="@ + id@),
                    Err(e) => final(self).report.err@ == "上报失败："@ + e.message@
                        && final(self).report.phase == old(self).report.phase,
                }
            },
    {
        if !(self.report.submitting && self.report.req == req) {
            return;
        }
        match result {
            Ok(id) => {
                self.report.success = Some(ReportSuccess { url: share_url(base, id.as_str()) });
                self.report.submitting = false;
                self.report.phase = ReportPhase::Success;
            },
            Err(e) => {
                let mut m = String::from_str("上报失败：");
                m.append(e.message.as_str());
                self.report.err = m;
                self.report.submitting = false;
            },
        }
    }
}

} // verus!
