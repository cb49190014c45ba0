//! Sampling arithmetic: every 5 s the full EXP integer read from a window
//! capture is recorded as a `(time, EXP)` sample; rates are measured over the
//! trailing 60 s and 1 h windows from real timestamps.
//!
//! Times are nanoseconds on the *active* clock (wall clock minus paused time,
//! see [`PauseClock`]). EXP values are non-negative integers.
//!
//! Level-up versus misread: a reading below the last recorded one is compared
//! with the mean of the last (at most) 12 recorded samples. A reading still at
//! or above that mean is a transient misread and is ignored; three readings in
//! a row below it mean a level-up: the chain restarts from the newest of them.
//!
//! The sampling loop alternates outside work (finding the game window,
//! capturing it, sleeping) with decisions; the decisions are [`Sampler::tick`],
//! from what one round found to the new state and what to publish.
use super::capture::{frame_is_blank, frame_is_blank_spec, BgraFrame};
use super::digits::{exp_spec, read_exp_value};
use crate::state::{push_exp_log, ExpLogLine, ExpMetrics, SamplerState, Shared};
use crate::text::{int_dec, push_int};
use std::collections::VecDeque;
use vstd::prelude::*;
use vstd::string::*;

verus! {

broadcast use vstd::std_specs::vecdeque::group_vec_dequeue_axioms;

/// Sampling period in seconds.
pub const SAMPLE_INTERVAL_SECS: u64 = 5;
/// Nanoseconds per second.
pub const NANOS_PER_SEC: u64 = 1_000_000_000;
/// Sampling period (ns).
pub const SAMPLE_INTERVAL: u64 = 5_000_000_000;
/// Consecutive failed readings after which the displayed rates are cleared.
pub const MISS_LIMIT: u32 = 4;
/// Real-time window: the last 60 s (ns).
pub const MIN_WINDOW: u64 = 60_000_000_000;
/// Estimate window: the last hour (ns).
pub const HOUR_WINDOW: u64 = 3_600_000_000_000;
/// Two samples closer than this do not make a rate (ns).
pub const MIN_SPAN: u64 = 1_000_000_000;
/// Readings in a row below the previous mean that mean a level-up.
pub const LEVELUP_RUN: usize = 3;
/// How many recorded samples the "previous mean" looks back on.
pub const AVG_N: usize = 12;
/// Number of 5 s buckets in the one-minute spark line.
pub const SPARK_BUCKETS: usize = 12;
/// Largest EXP value: any non-negative `i64` (readings are decimal digits).
pub const EXP_MAX: i64 = 0x7fff_ffff_ffff_ffff;

/// One recorded reading: active-clock time (ns) and the full EXP value.
#[derive(Debug, Clone, Copy, PartialEq, Eq)]
pub struct Sample {
    pub at: u64,
    pub exp: i64,
}

/// What became of a new reading.
#[derive(Debug, Clone, Copy, PartialEq, Eq, Structural)]
pub enum Accept {
    /// Recorded in the chain.
    Recorded,
    /// A transient low value: not recorded, history kept.
    Ignored,
    /// Third reading in a row below the previous mean: level-up, chain restarted.
    LevelUp,
}

// ---------------------------------------------------------------------------
// Model
// ---------------------------------------------------------------------------

/// Every EXP value in the chain is non-negative (`EXP_MAX` is the largest `i64`).
pub open spec fn exps_in_range(s: Seq<Sample>) -> bool {
    forall|i: int| 0 <= i < s.len() ==> 0 <= #[trigger] s[i].exp <= EXP_MAX
}

/// Sample times never go backwards.
pub open spec fn times_sorted(s: Seq<Sample>) -> bool {
    forall|i: int, j: int| 0 <= i <= j < s.len() ==> s[i].at <= s[j].at
}

/// EXP never goes down along the chain.
pub open spec fn exps_nondecreasing(s: Seq<Sample>) -> bool {
    forall|i: int, j: int| 0 <= i <= j < s.len() ==> s[i].exp <= s[j].exp
}

/// The shape of any chain the rate functions work on.
pub open spec fn chain_ok(s: Seq<Sample>) -> bool {
    exps_in_range(s) && times_sorted(s)
}

/// The invariant of the recorded chain: in range, in time order, EXP non-decreasing.
pub open spec fn chain_wf(s: Seq<Sample>) -> bool {
    chain_ok(s) && exps_nondecreasing(s)
}

/// Sum of the EXP values of a chain.
pub open spec fn exp_sum(s: Seq<Sample>) -> int
    decreases s.len(),
{
    if s.len() == 0 {
        0
    } else {
        exp_sum(s.drop_last()) + s.last().exp
    }
}

/// How many recorded samples the mean looks at.
pub open spec fn avg_take(n: nat) -> nat {
    if n < AVG_N { n } else { AVG_N as nat }
}

/// Mean EXP of the last (at most) `AVG_N` samples, rounded down.
pub open spec fn recent_avg_spec(s: Seq<Sample>) -> Option<int> {
    if s.len() == 0 {
        None
    } else {
        let k = avg_take(s.len());
        Some(exp_sum(s.subrange(s.len() - k, s.len() as int)) / (k as int))
    }
}

/// Distance from `a` forward to `b`, zero when `b` is earlier.
pub open spec fn since(b: u64, a: u64) -> int {
    if b >= a { b - a } else { 0 }
}

/// Drop the oldest samples that are more than an hour before `now`,
/// always keeping the newest one.
pub open spec fn prune_spec(s: Seq<Sample>, now: u64) -> Seq<Sample>
    decreases s.len(),
{
    if s.len() > 1 && since(now, s[0].at) > HOUR_WINDOW {
        prune_spec(s.drop_first(), now)
    } else {
        s
    }
}

/// The acceptance rule: new chain, new pending run, verdict.
pub open spec fn accept_spec(recs: Seq<Sample>, pending: Seq<Sample>, now: u64, exp: i64) -> (
    Seq<Sample>,
    Seq<Sample>,
    Accept,
) {
    let s = Sample { at: now, exp };
    if recs.len() == 0 {
        (seq![s], pending, Accept::Recorded)
    } else if exp >= recs.last().exp {
        (prune_spec(recs.push(s), now), Seq::empty(), Accept::Recorded)
    } else if exp < recent_avg_spec(recs).unwrap() {
        if pending.len() + 1 >= LEVELUP_RUN {
            (seq![s], Seq::empty(), Accept::LevelUp)
        } else {
            (recs, pending.push(s), Accept::Ignored)
        }
    } else {
        (recs, Seq::empty(), Accept::Ignored)
    }
}

/// Segment start after one accepted reading.
pub open spec fn next_base_spec(accept: Accept, recs: Seq<Sample>, base: Option<Sample>) -> Option<
    Sample,
> {
    match accept {
        Accept::LevelUp => if recs.len() > 0 { Some(recs.last()) } else { None },
        _ => match base {
            Some(b) => Some(b),
            None => if recs.len() > 0 { Some(recs[0]) } else { None },
        },
    }
}

/// EXP gained in the current segment: newest EXP minus the segment start, never negative.
pub open spec fn cum_gain_spec(recs: Seq<Sample>, base: Option<Sample>) -> int {
    match base {
        Some(b) => if recs.len() > 0 {
            if recs.last().exp - b.exp > 0 { recs.last().exp - b.exp } else { 0 }
        } else {
            0
        },
        None => 0,
    }
}

// ---------------------------------------------------------------------------
// Lemmas
// ---------------------------------------------------------------------------

proof fn lemma_exp_sum_bounds(s: Seq<Sample>)
    requires
        exps_in_range(s),
    ensures
        0 <= exp_sum(s) <= s.len() * EXP_MAX,
    decreases s.len(),
{
    if s.len() > 0 {
        let t = s.drop_last();
        assert(exps_in_range(t)) by {
            assert forall|i: int| 0 <= i < t.len() implies 0 <= #[trigger] t[i].exp <= EXP_MAX by {
                assert(t[i] == s[i]);
            }
        }
        lemma_exp_sum_bounds(t);
        assert(0 <= s.last().exp <= EXP_MAX) by {
            assert(s.last() == s[s.len() - 1]);
        }
        assert((t.len() + 1) * EXP_MAX == t.len() * EXP_MAX + EXP_MAX) by (nonlinear_arith);
    }
}

/// Adding one more element at the front of the summed range.
proof fn lemma_exp_sum_prepend(s: Seq<Sample>, i: int, j: int)
    requires
        0 <= i < j <= s.len(),
    ensures
        exp_sum(s.subrange(i, j)) == s[i].exp + exp_sum(s.subrange(i + 1, j)),
    decreases j - i,
{
    if j - i == 1 {
        assert(s.subrange(i, j).drop_last() =~= Seq::<Sample>::empty());
        assert(s.subrange(i + 1, j) =~= Seq::<Sample>::empty());
    } else {
        lemma_exp_sum_prepend(s, i, j - 1);
        assert(s.subrange(i, j).drop_last() =~= s.subrange(i, j - 1));
        assert(s.subrange(i + 1, j).drop_last() =~= s.subrange(i + 1, j - 1));
    }
}

proof fn lemma_prune_props(s: Seq<Sample>, now: u64)
    ensures
        s.len() > 0 ==> prune_spec(s, now).len() > 0,
        s.len() > 0 ==> prune_spec(s, now).last() == s.last(),
        exists|k: int| 0 <= k <= s.len() && prune_spec(s, now) == s.subrange(k, s.len() as int),
        prune_spec(s, now).len() <= s.len(),
    decreases s.len(),
{
    if s.len() > 1 && since(now, s[0].at) > HOUR_WINDOW {
        lemma_prune_props(s.drop_first(), now);
        let k = choose|k: int|
            0 <= k <= s.drop_first().len() && prune_spec(s.drop_first(), now)
                == s.drop_first().subrange(k, s.drop_first().len() as int);
        assert(s.drop_first().subrange(k, s.drop_first().len() as int) =~= s.subrange(
            k + 1,
            s.len() as int,
        ));
        assert(s.drop_first().last() == s.last());
    } else {
        assert(s.subrange(0, s.len() as int) =~= s);
    }
}

/// Any suffix of a well-formed chain is well-formed.
proof fn lemma_suffix_wf(s: Seq<Sample>, k: int)
    requires
        chain_wf(s),
        0 <= k <= s.len(),
    ensures
        chain_wf(s.subrange(k, s.len() as int)),
{
    let t = s.subrange(k, s.len() as int);
    assert forall|i: int| 0 <= i < t.len() implies 0 <= #[trigger] t[i].exp <= EXP_MAX by {
        assert(t[i] == s[i + k]);
    }
    assert forall|i: int, j: int| 0 <= i <= j < t.len() implies t[i].at <= t[j].at && t[i].exp
        <= t[j].exp by {
        assert(t[i] == s[i + k]);
        assert(t[j] == s[j + k]);
    }
}

/// Law: pruning keeps a suffix of the chain that still ends with the newest
/// sample, and every sample it drops is more than an hour old.
pub proof fn lemma_prune_drops_only_old(s: Seq<Sample>, now: u64)
    ensures
        exists|k: int|
            0 <= k <= s.len() && prune_spec(s, now) == s.subrange(k, s.len() as int) && forall|i: int|
                0 <= i < k ==> since(now, #[trigger] s[i].at) > HOUR_WINDOW,
        s.len() > 0 ==> prune_spec(s, now).len() > 0 && prune_spec(s, now).last() == s.last(),
    decreases s.len(),
{
    lemma_prune_props(s, now);
    if s.len() > 1 && since(now, s[0].at) > HOUR_WINDOW {
        let t = s.drop_first();
        lemma_prune_drops_only_old(t, now);
        let k = choose|k: int|
            0 <= k <= t.len() && prune_spec(t, now) == t.subrange(k, t.len() as int) && forall|i: int|
                0 <= i < k ==> since(now, #[trigger] t[i].at) > HOUR_WINDOW;
        assert(t.subrange(k, t.len() as int) =~= s.subrange(k + 1, s.len() as int));
        assert forall|i: int| 0 <= i < k + 1 implies since(now, #[trigger] s[i].at) > HOUR_WINDOW by {
            if i > 0 {
                assert(s[i] == t[i - 1]);
            }
        }
    } else {
        assert(s.subrange(0, s.len() as int) =~= s);
    }
}

/// Law: the segment's gain does not change when old samples are pruned
/// (the segment start is kept apart from the chain).
pub proof fn lemma_cum_gain_ignores_prune(s: Seq<Sample>, now: u64, base: Option<Sample>)
    ensures
        cum_gain_spec(prune_spec(s, now), base) == cum_gain_spec(s, base),
{
    lemma_prune_props(s, now);
}

/// Law: whatever the reading, the recorded chain keeps its invariant
/// (in range, in time order, EXP non-decreasing).
pub proof fn lemma_accept_keeps_chain_wf(recs: Seq<Sample>, pending: Seq<Sample>, now: u64, exp: i64)
    requires
        chain_wf(recs),
        0 <= exp <= EXP_MAX,
        recs.len() > 0 ==> recs.last().at <= now,
    ensures
        chain_wf(accept_spec(recs, pending, now, exp).0),
{
    let s = Sample { at: now, exp };
    if recs.len() > 0 && exp >= recs.last().exp {
        let p = recs.push(s);
        assert forall|i: int| 0 <= i < p.len() implies 0 <= #[trigger] p[i].exp <= EXP_MAX by {
            if i < recs.len() {
                assert(p[i] == recs[i]);
            }
        }
        assert forall|i: int, j: int| 0 <= i <= j < p.len() implies p[i].at <= p[j].at && p[i].exp
            <= p[j].exp by {
            if j < recs.len() {
                assert(p[i] == recs[i]);
                assert(p[j] == recs[j]);
            } else if i < recs.len() {
                assert(p[i] == recs[i]);
                assert(recs.last() == recs[recs.len() - 1]);
            }
        }
        lemma_prune_props(p, now);
        let k = choose|k: int| 0 <= k <= p.len() && prune_spec(p, now) == p.subrange(k, p.len() as int);
        lemma_suffix_wf(p, k);
    }
}

/// Law: an ignored reading leaves the recorded chain exactly as it was;
/// a level-up leaves exactly one sample, the new reading.
pub proof fn lemma_accept_outcomes(recs: Seq<Sample>, pending: Seq<Sample>, now: u64, exp: i64)
    ensures
        accept_spec(recs, pending, now, exp).2 == Accept::Ignored ==> accept_spec(
            recs,
            pending,
            now,
            exp,
        ).0 == recs,
        accept_spec(recs, pending, now, exp).2 == Accept::LevelUp ==> accept_spec(
            recs,
            pending,
            now,
            exp,
        ).0 == seq![Sample { at: now, exp }],
        accept_spec(recs, pending, now, exp).2 == Accept::Recorded ==> accept_spec(
            recs,
            pending,
            now,
            exp,
        ).0.last() == (Sample { at: now, exp }),
        accept_spec(recs, pending, now, exp).1.len() < LEVELUP_RUN || accept_spec(
            recs,
            pending,
            now,
            exp,
        ).1 == pending,
{
    let s = Sample { at: now, exp };
    if recs.len() > 0 && exp >= recs.last().exp {
        lemma_prune_props(recs.push(s), now);
    }
}

// ---------------------------------------------------------------------------
// Chain operations
// ---------------------------------------------------------------------------

/// Mean EXP of the last (at most) 12 recorded samples; `None` for an empty chain.
pub fn recent_avg(recs: &VecDeque<Sample>) -> (r: Option<i64>)
    requires
        exps_in_range(recs@),
    ensures
        r matches Some(v) ==> recent_avg_spec(recs@) == Some(v as int),
        r is None <==> recs@.len() == 0,
{
    let n = recs.len();
    if n == 0 {
        return None;
    }
    let take = if n < AVG_N { n } else { AVG_N };
    let ghost s = recs@;
    let mut sum: i128 = 0;
    let mut i: usize = n;
    while i > n - take
        invariant
            n == s.len(),
            s == recs@,
            exps_in_range(s),
            1 <= take <= AVG_N,
            take <= n,
            n - take <= i <= n,
            sum == exp_sum(s.subrange(i as int, n as int)),
            0 <= sum <= (n - i) * EXP_MAX,
        decreases i,
    {
        i = i - 1;
        proof {
            lemma_exp_sum_prepend(s, i as int, n as int);
            assert(0 <= s[i as int].exp <= EXP_MAX);
            assert((n - i) * EXP_MAX == (n - (i + 1)) * EXP_MAX + EXP_MAX) by (nonlinear_arith);
            assert((n - i) * EXP_MAX <= 12 * EXP_MAX) by (nonlinear_arith)
                requires
                    n - i <= 12,
            ;
        }
        sum = sum + recs[i].exp as i128;
    }
    proof {
        assert(avg_take(s.len()) == take);
    }
    proof {
        let su = sum as int;
        let tk = take as int;
        assert(0 <= su / tk <= EXP_MAX) by (nonlinear_arith)
            requires
                0 <= su <= tk * EXP_MAX,
                tk >= 1,
        ;
    }
    Some((sum / (take as i128)) as i64)
}

/// Drop samples older than an hour before `now`, keeping at least the newest.
pub fn prune(recs: &mut VecDeque<Sample>, now: u64)
    ensures
        final(recs)@ == prune_spec(old(recs)@, now),
{
    while recs.len() > 1
        invariant
            prune_spec(recs@, now) == prune_spec(old(recs)@, now),
        ensures
            prune_spec(recs@, now) == recs@,
        decreases recs@.len(),
    {
        let f = recs[0].at;
        let age = if now >= f { now - f } else { 0 };
        if age <= HOUR_WINDOW {
            break;
        }
        let ghost before = recs@;
        recs.pop_front();
        proof {
            assert(recs@ =~= before.drop_first());
        }
    }
}

/// Accept or reject a new reading (see the module notes for the rule).
pub fn accept_exp(recs: &mut VecDeque<Sample>, pending: &mut Vec<Sample>, now: u64, exp: i64) -> (r:
    Accept)
    requires
        exps_in_range(old(recs)@),
        0 <= exp <= EXP_MAX,
    ensures
        (final(recs)@, final(pending)@, r) == accept_spec(old(recs)@, old(pending)@, now, exp),
{
    let s = Sample { at: now, exp };
    if recs.len() == 0 {
        recs.push_back(s);
        proof {
            assert(recs@ =~= seq![s]);
        }
        return Accept::Recorded;
    }
    let last = recs[recs.len() - 1].exp;
    if exp >= last {
        pending.clear();
        recs.push_back(s);
        prune(recs, now);
        proof {
            assert(pending@ =~= Seq::<Sample>::empty());
        }
        return Accept::Recorded;
    }
    let avg = recent_avg(recs);
    match avg {
        Some(a) if exp < a => {
            pending.push(s);
            if pending.len() >= LEVELUP_RUN {
                recs.clear();
                recs.push_back(s);
                pending.clear();
                proof {
                    assert(recs@ =~= seq![s]);
                    assert(pending@ =~= Seq::<Sample>::empty());
                }
                return Accept::LevelUp;
            }
            Accept::Ignored
        },
        _ => {
            pending.clear();
            proof {
                assert(pending@ =~= Seq::<Sample>::empty());
            }
            Accept::Ignored
        },
    }
}

/// Segment start after a reading: a level-up restarts it at the new anchor;
/// otherwise it stays, or (when there is none yet) becomes the oldest sample.
pub fn next_base(accept: Accept, recs: &VecDeque<Sample>, base: Option<Sample>) -> (r: Option<Sample>)
    ensures
        r == next_base_spec(accept, recs@, base),
{
    match accept {
        Accept::LevelUp => if recs.len() > 0 {
            Some(recs[recs.len() - 1])
        } else {
            None
        },
        _ => match base {
            Some(b) => Some(b),
            None => if recs.len() > 0 {
                Some(recs[0])
            } else {
                None
            },
        },
    }
}

/// EXP gained in the current segment (newest EXP minus segment start, at least 0).
pub fn cum_gain(recs: &VecDeque<Sample>, base: Option<Sample>) -> (r: i64)
    requires
        exps_in_range(recs@),
        base matches Some(b) ==> 0 <= b.exp <= EXP_MAX,
    ensures
        r == cum_gain_spec(recs@, base),
        r >= 0,
{
    match base {
        Some(b) => if recs.len() > 0 {
            let l = recs[recs.len() - 1].exp;
            if l - b.exp > 0 {
                l - b.exp
            } else {
                0
            }
        } else {
            0
        },
        None => 0,
    }
}


// ---------------------------------------------------------------------------
// Rates
// ---------------------------------------------------------------------------

/// `n / d` rounded to the nearest integer, halves away from zero (`d > 0`).
pub open spec fn round_div(n: int, d: int) -> int {
    if n >= 0 {
        (2 * n + d) / (2 * d)
    } else {
        -((2 * (-n) + d) / (2 * d))
    }
}

/// `v` capped at the largest `i64` (a float rate turned into an `i64`
/// saturates there).
pub open spec fn sat_i64(v: int) -> int {
    if v > i64::MAX {
        i64::MAX as int
    } else {
        v
    }
}

/// `n / d` rounded half up, computed from the quotient and remainder.
proof fn lemma_round_div_qr(n: int, d: int)
    requires
        n >= 0,
        d > 0,
    ensures
        round_div(n, d) == n / d + if 2 * (n % d) >= d { 1int } else { 0int },
{
    let q = n / d;
    let r = n % d;
    vstd::arithmetic::div_mod::lemma_fundamental_div_mod(n, d);
    vstd::arithmetic::div_mod::lemma_mod_pos_bound(n, d);
    assert(2 * n + d == q * (2 * d) + (2 * r + d)) by (nonlinear_arith)
        requires
            n == d * q + r,
    ;
    if 2 * r >= d {
        assert(q * (2 * d) + (2 * r + d) == (q + 1) * (2 * d) + (2 * r - d)) by (nonlinear_arith);
        vstd::arithmetic::div_mod::lemma_fundamental_div_mod_converse(2 * n + d, 2 * d, q + 1, 2 * r - d);
    } else {
        vstd::arithmetic::div_mod::lemma_fundamental_div_mod_converse(2 * n + d, 2 * d, q, 2 * r + d);
    }
}

/// EXP on the straight line from `a` to `b` at time `t`, rounded.
pub open spec fn interp(a: Sample, b: Sample, t: u64) -> int {
    let dt = since(b.at, a.at);
    if dt <= 0 {
        a.exp as int
    } else {
        round_div(a.exp * dt + (b.exp - a.exp) * (t - a.at), dt)
    }
}

/// From index `k` on, the first sample at or after `t` and the line into it.
pub open spec fn exp_at_scan(s: Seq<Sample>, t: u64, k: int) -> int
    decreases s.len() - k,
{
    if k >= s.len() || k < 1 {
        s.last().exp as int
    } else if s[k].at >= t {
        interp(s[k - 1], s[k], t)
    } else {
        exp_at_scan(s, t, k + 1)
    }
}

/// EXP of the chain at time `t`: the end values outside the chain's span,
/// linear between neighbouring samples inside it; 0 for an empty chain.
pub open spec fn exp_at_spec(s: Seq<Sample>, t: u64) -> int {
    if s.len() == 0 {
        0
    } else if t <= s[0].at {
        s[0].exp as int
    } else if t >= s.last().at {
        s.last().exp as int
    } else {
        exp_at_scan(s, t, 1)
    }
}

/// Index of the first sample at or after `c`, scanning from `i` (`s.len()` if none).
pub open spec fn first_at_or_after(s: Seq<Sample>, c: u64, i: int) -> int
    decreases s.len() - i,
{
    if i >= s.len() || i < 0 {
        s.len() as int
    } else if s[i].at >= c {
        i
    } else {
        first_at_or_after(s, c, i + 1)
    }
}

/// Number of samples at or after `c`.
pub open spec fn count_at_or_after(s: Seq<Sample>, c: u64) -> nat
    decreases s.len(),
{
    if s.len() == 0 {
        0
    } else {
        count_at_or_after(s.drop_last(), c) + if s.last().at >= c { 1nat } else { 0nat }
    }
}

/// Start of the trailing window: `now - win`, or the oldest sample when
/// the clock has not run that long.
pub open spec fn window_start(s: Seq<Sample>, now: u64, win: u64) -> u64 {
    if now >= win { (now - win) as u64 } else { s[0].at }
}

/// Two-point rate over the window: (EXP gained, time span, samples used).
/// With fewer than two samples in the window the newest two are used;
/// `None` with fewer than two samples or a span under `MIN_SPAN`.
pub open spec fn window_rate_spec(s: Seq<Sample>, now: u64, win: u64) -> Option<(int, int, nat)> {
    if s.len() < 2 {
        None
    } else {
        let n = s.len() as int;
        let lo0 = first_at_or_after(s, window_start(s, now, win), 0);
        let lo = if n - lo0 < 2 { n - 2 } else { lo0 };
        let dt = since(s.last().at, s[lo].at);
        if dt < MIN_SPAN {
            None
        } else {
            let de = s.last().exp - s[lo].exp;
            Some((if de > 0 { de } else { 0 }, dt, (n - lo) as nat))
        }
    }
}

/// The chain reaches back to the start of a full window.
pub open spec fn covers(s: Seq<Sample>, now: u64, win: u64) -> bool {
    now >= win && s.len() > 0 && s[0].at <= now - win
}

/// EXP gained over exactly the last `win` and the samples in it: with a full
/// window, newest EXP minus the chain's value at `now - win`; otherwise the
/// two-point rate scaled to the window. `None` when neither can be computed.
pub open spec fn window_gain_spec(s: Seq<Sample>, now: u64, win: u64) -> Option<(int, nat)> {
    if s.len() < 2 {
        None
    } else if covers(s, now, win) {
        let c = (now - win) as u64;
        let g = s.last().exp - exp_at_spec(s, c);
        Some((if g > 0 { g } else { 0 }, count_at_or_after(s, c)))
    } else {
        match window_rate_spec(s, now, win) {
            None => None,
            Some((de, dt, n)) => Some((sat_i64(round_div(de * win, dt)), n)),
        }
    }
}

/// Displayed figures: (EXP per minute, EXP per hour, samples in the minute,
/// samples in the hour); all zero when either window cannot be computed.
pub open spec fn metrics_spec(s: Seq<Sample>, now: u64) -> (int, int, u32, u32) {
    match (window_gain_spec(s, now, MIN_WINDOW), window_gain_spec(s, now, HOUR_WINDOW)) {
        (Some((pm, nm)), Some((ph, nh))) => (pm, ph, nm as u32, nh as u32),
        _ => (0, 0, 0, 0),
    }
}

/// The scan for the line into time `t` stops at the first sample at or
/// after `t`.
proof fn lemma_exp_at_scan_hits(s: Seq<Sample>, t: u64, k: int, i: int)
    requires
        1 <= k <= i < s.len(),
        forall|j: int| k <= j < i ==> s[j].at < t,
        s[i].at >= t,
    ensures
        exp_at_scan(s, t, k) == interp(s[i - 1], s[i], t),
    decreases i - k,
{
    if k < i {
        lemma_exp_at_scan_hits(s, t, k + 1, i);
    }
}

/// The line from `a` to `b` at `b`'s own time is `b`'s EXP.
proof fn lemma_interp_at_end(a: Sample, b: Sample)
    requires
        a.at < b.at,
        0 <= b.exp,
    ensures
        interp(a, b, b.at) == b.exp,
{
    let d = b.at - a.at;
    let e = b.exp as int;
    assert(a.exp * d + (b.exp - a.exp) * (b.at - a.at) == e * d) by (nonlinear_arith)
        requires
            d == b.at - a.at,
            e == b.exp,
    ;
    assert(e * d >= 0) by (nonlinear_arith)
        requires
            e >= 0,
            d > 0,
    ;
    assert(2 * (e * d) + d == e * (2 * d) + d) by (nonlinear_arith);
    vstd::arithmetic::div_mod::lemma_fundamental_div_mod_converse(2 * (e * d) + d, 2 * d, e, d);
}

/// Law: when the minute window starts exactly on a sample (the first one
/// at that time, older than the newest sample or the newest itself), the
/// EXP gained in the minute is the newest EXP minus that sample's, over
/// the samples from it on.
pub proof fn lemma_minute_on_sample(s: Seq<Sample>, now: u64, i: int)
    requires
        chain_wf(s),
        2 <= s.len(),
        0 <= i < s.len(),
        now >= MIN_WINDOW,
        s[i].at == now - MIN_WINDOW,
        forall|j: int| 0 <= j < i ==> s[j].at < s[i].at,
        i == s.len() - 1 || s[i].at < s.last().at,
    ensures
        window_gain_spec(s, now, MIN_WINDOW) == Some(
            (s.last().exp - s[i].exp, count_at_or_after(s, s[i].at)),
        ),
{
    let c = (now - MIN_WINDOW) as u64;
    let last = s.len() - 1;
    assert(s[0].at <= s[i].at);
    assert(s[i].exp <= s[last].exp);
    assert(s.last() == s[last]);
    if i == 0 {
        assert(exp_at_spec(s, c) == s[0].exp);
    } else if i == last {
        assert(s[0].at < c);
        assert(exp_at_spec(s, c) == s[last].exp);
    } else {
        assert(s[0].at < c && c < s[last].at);
        lemma_exp_at_scan_hits(s, c, 1, i);
        assert(s[i - 1].at < s[i].at);
        assert(0 <= s[i].exp);
        lemma_interp_at_end(s[i - 1], s[i]);
    }
}

/// `round_div` keeps the order of numerators.
proof fn lemma_round_div_mono(n1: int, n2: int, d: int)
    requires
        n1 <= n2,
        d > 0,
        n1 >= 0,
    ensures
        round_div(n1, d) <= round_div(n2, d),
{
    vstd::arithmetic::div_mod::lemma_div_is_ordered(2 * n1 + d, 2 * n2 + d, 2 * d);
}

/// `round_div(e * d, d)` is `e`.
proof fn lemma_round_div_exact(e: int, d: int)
    requires
        e >= 0,
        d > 0,
    ensures
        round_div(e * d, d) == e,
{
    assert(e * d >= 0) by (nonlinear_arith)
        requires
            e >= 0,
            d > 0,
    ;
    assert(2 * (e * d) + d == e * (2 * d) + d) by (nonlinear_arith);
    vstd::arithmetic::div_mod::lemma_fundamental_div_mod_converse(2 * (e * d) + d, 2 * d, e, d);
}

/// On a rising segment the line grows with time and stays between its ends.
proof fn lemma_interp_mono(a: Sample, b: Sample, t1: u64, t2: u64)
    requires
        0 <= a.exp <= b.exp,
        a.at <= t1 <= t2 <= b.at,
    ensures
        a.exp <= interp(a, b, t1) <= interp(a, b, t2) <= b.exp,
{
    let dt = since(b.at, a.at);
    if dt > 0 {
        let x1 = t1 - a.at;
        let x2 = t2 - a.at;
        let n1 = a.exp * dt + (b.exp - a.exp) * x1;
        let n2 = a.exp * dt + (b.exp - a.exp) * x2;
        assert(a.exp * dt <= n1 <= n2 <= b.exp * dt) by (nonlinear_arith)
            requires
                0 <= a.exp <= b.exp,
                0 <= x1 <= x2 <= dt,
                n1 == a.exp * dt + (b.exp - a.exp) * x1,
                n2 == a.exp * dt + (b.exp - a.exp) * x2,
        ;
        assert(a.exp * dt >= 0) by (nonlinear_arith)
            requires
                a.exp >= 0,
                dt > 0,
        ;
        lemma_round_div_exact(a.exp as int, dt);
        lemma_round_div_exact(b.exp as int, dt);
        lemma_round_div_mono(a.exp * dt, n1, dt);
        lemma_round_div_mono(n1, n2, dt);
        lemma_round_div_mono(n2, b.exp * dt, dt);
    }
}

/// The first sample at or after `c` from `k` on: every earlier one is
/// before `c`, it is at or after `c`, and it comes no later than any other
/// sample at or after `c`.
proof fn lemma_first_at_or_after(s: Seq<Sample>, c: u64, k: int)
    requires
        0 <= k <= s.len(),
    ensures
        k <= first_at_or_after(s, c, k) <= s.len(),
        forall|i: int| k <= i < first_at_or_after(s, c, k) ==> s[i].at < c,
        first_at_or_after(s, c, k) < s.len() ==> s[first_at_or_after(s, c, k)].at >= c,
    decreases s.len() - k,
{
    if k < s.len() && s[k].at < c {
        lemma_first_at_or_after(s, c, k + 1);
    }
}

/// The scan for the line into `t` ends at the first sample at or after `t`.
proof fn lemma_exp_at_scan_first(s: Seq<Sample>, t: u64, k: int)
    requires
        1 <= k <= s.len(),
    ensures
        exp_at_scan(s, t, k) == (if first_at_or_after(s, t, k) < s.len() {
            interp(s[first_at_or_after(s, t, k) - 1], s[first_at_or_after(s, t, k)], t)
        } else {
            s.last().exp as int
        }),
    decreases s.len() - k,
{
    if k < s.len() && s[k].at < t {
        lemma_exp_at_scan_first(s, t, k + 1);
    }
}

/// Inside the chain's span, the value at `t` lies on the segment into the
/// first sample at or after `t`, between that segment's ends.
proof fn lemma_exp_at_inside(s: Seq<Sample>, t: u64)
    requires
        chain_wf(s),
        s.len() > 0,
        s[0].at < t < s.last().at,
    ensures
        ({
            let j = first_at_or_after(s, t, 1);
            &&& 1 <= j < s.len()
            &&& s[j - 1].at < t <= s[j].at
            &&& exp_at_spec(s, t) == interp(s[j - 1], s[j], t)
            &&& s[j - 1].exp <= exp_at_spec(s, t) <= s[j].exp
        }),
{
    let n = s.len() as int;
    assert(s.last() == s[n - 1]);
    lemma_first_at_or_after(s, t, 1);
    lemma_exp_at_scan_first(s, t, 1);
    let j = first_at_or_after(s, t, 1);
    assert(j < n) by {
        if j >= n {
            assert(s[n - 1].at < t);
        }
    }
    if j > 1 {
        assert(s[j - 1].at < t);
    }
    assert(0 <= s[j - 1].exp <= s[j].exp);
    lemma_interp_mono(s[j - 1], s[j], t, t);
}

/// On a well-formed chain the interpolated value never falls as time goes on.
proof fn lemma_exp_at_mono(s: Seq<Sample>, t1: u64, t2: u64)
    requires
        chain_wf(s),
        t1 <= t2,
    ensures
        exp_at_spec(s, t1) <= exp_at_spec(s, t2),
{
    if s.len() > 0 {
        let n = s.len() as int;
        assert(s.last() == s[n - 1]);
        assert(s[0].exp <= s[n - 1].exp);
        if t1 <= s[0].at {
            if s[0].at < t2 < s.last().at {
                lemma_exp_at_inside(s, t2);
                let j = first_at_or_after(s, t2, 1);
                assert(s[0].exp <= s[j - 1].exp);
            }
        } else if t2 >= s.last().at {
            if t1 < s.last().at {
                lemma_exp_at_inside(s, t1);
                let j = first_at_or_after(s, t1, 1);
                assert(s[j].exp <= s[n - 1].exp);
            }
        } else {
            lemma_exp_at_inside(s, t1);
            lemma_exp_at_inside(s, t2);
            let j1 = first_at_or_after(s, t1, 1);
            let j2 = first_at_or_after(s, t2, 1);
            lemma_first_at_or_after(s, t1, 1);
            lemma_first_at_or_after(s, t2, 1);
            if j1 == j2 {
                assert(0 <= s[j1 - 1].exp <= s[j1].exp);
                lemma_interp_mono(s[j1 - 1], s[j1], t1, t2);
            } else {
                assert(j1 < j2) by {
                    if j2 < j1 {
                        assert(s[j2].at < t1);
                    }
                }
                assert(s[j1].exp <= s[j2 - 1].exp);
            }
        }
    }
}

/// The spark buckets `0..k` added up.
pub open spec fn spark_sum(s: Seq<Sample>, now: u64, k: int) -> int
    decreases k,
{
    if k <= 0 {
        0
    } else {
        spark_sum(s, now, k - 1) + spark_bucket(s, now, k - 1)
    }
}

proof fn lemma_spark_prefix(s: Seq<Sample>, now: u64, k: int)
    requires
        chain_wf(s),
        s.len() > 0,
        now >= MIN_WINDOW,
        0 <= k <= 12,
    ensures
        spark_sum(s, now, k) == exp_at_spec(s, (spark_start(s, now) + SAMPLE_INTERVAL * k) as u64)
            - exp_at_spec(s, spark_start(s, now)),
    decreases k,
{
    if k > 0 {
        lemma_spark_prefix(s, now, k - 1);
        let l = spark_start(s, now) + SAMPLE_INTERVAL * (k - 1);
        lemma_exp_at_mono(s, l as u64, (l + SAMPLE_INTERVAL) as u64);
    }
}

/// Law: on a recorded chain, each spark bucket is the rise of the chain's
/// value over its 5 s, and the twelve buckets add up to the EXP gained over
/// the last minute.
pub proof fn lemma_spark_sums_to_minute(s: Seq<Sample>, now: u64)
    requires
        chain_wf(s),
        s.len() > 0,
        now >= MIN_WINDOW,
    ensures
        forall|i: int|
            0 <= i < 12 ==> #[trigger] spark_bucket(s, now, i) == exp_at_spec(
                s,
                (now - MIN_WINDOW + SAMPLE_INTERVAL * (i + 1)) as u64,
            ) - exp_at_spec(s, (now - MIN_WINDOW + SAMPLE_INTERVAL * i) as u64),
        spark_sum(s, now, 12) == exp_at_spec(s, now) - exp_at_spec(s, (now - MIN_WINDOW) as u64),
{
    assert forall|i: int| 0 <= i < 12 implies #[trigger] spark_bucket(s, now, i) == exp_at_spec(
        s,
        (now - MIN_WINDOW + SAMPLE_INTERVAL * (i + 1)) as u64,
    ) - exp_at_spec(s, (now - MIN_WINDOW + SAMPLE_INTERVAL * i) as u64) by {
        let l = spark_start(s, now) + SAMPLE_INTERVAL * i;
        lemma_exp_at_mono(s, l as u64, (l + SAMPLE_INTERVAL) as u64);
    }
    lemma_spark_prefix(s, now, 12);
}

/// On a chain whose EXP never changes, the value at any time is that EXP.
proof fn lemma_exp_at_steady(s: Seq<Sample>, t: u64)
    requires
        chain_ok(s),
        s.len() > 0,
        forall|i: int| 0 <= i < s.len() ==> #[trigger] s[i].exp == s[0].exp,
    ensures
        exp_at_spec(s, t) == s[0].exp,
{
    let n = s.len() as int;
    assert(s.last() == s[n - 1]);
    assert(s[n - 1].exp == s[0].exp);
    if t > s[0].at && t < s.last().at {
        lemma_exp_at_scan_first(s, t, 1);
        lemma_first_at_or_after(s, t, 1);
        let j = first_at_or_after(s, t, 1);
        if j < n {
            let a = s[j - 1];
            let b = s[j];
            assert(a.exp == s[0].exp && b.exp == s[0].exp);
            assert(0 <= s[0].exp);
            let dt = since(b.at, a.at);
            if dt > 0 {
                assert(a.exp * dt + (b.exp - a.exp) * (t - a.at) == s[0].exp * dt) by (nonlinear_arith)
                    requires
                        a.exp == s[0].exp,
                        b.exp == s[0].exp,
                ;
                lemma_round_div_exact(s[0].exp as int, dt);
            }
        }
    }
}

/// On a chain whose EXP never changes, a window's gain is 0.
proof fn lemma_window_gain_steady(s: Seq<Sample>, now: u64, win: u64)
    requires
        chain_ok(s),
        forall|i: int| 0 <= i < s.len() ==> #[trigger] s[i].exp == s[0].exp,
    ensures
        window_gain_spec(s, now, win) matches Some((g, _)) ==> g == 0,
{
    if s.len() >= 2 {
        let n = s.len() as int;
        assert(s.last() == s[n - 1]);
        assert(s[n - 1].exp == s[0].exp);
        if covers(s, now, win) {
            lemma_exp_at_steady(s, (now - win) as u64);
        } else {
            match window_rate_spec(s, now, win) {
                Some((de, dt, k)) => {
                    let lo0 = first_at_or_after(s, window_start(s, now, win), 0);
                    let lo = if n - lo0 < 2 { n - 2 } else { lo0 };
                    lemma_first_at_or_after(s, window_start(s, now, win), 0);
                    assert(s[lo].exp == s[0].exp);
                    assert(de == 0);
                    assert(de * win == 0);
                    assert((2 * 0 + dt) / (2 * dt) == 0) by (nonlinear_arith)
                        requires
                            dt > 0,
                    ;
                },
                None => {},
            }
        }
    }
}

/// Law: a chain whose EXP never changes (steady, nothing gained) shows no
/// rate: EXP/min and EXP/h are both 0.
pub proof fn lemma_steady_exp_no_rate(s: Seq<Sample>, now: u64)
    requires
        chain_ok(s),
        forall|i: int| 0 <= i < s.len() ==> #[trigger] s[i].exp == s[0].exp,
    ensures
        metrics_spec(s, now).0 == 0,
        metrics_spec(s, now).1 == 0,
{
    lemma_window_gain_steady(s, now, MIN_WINDOW);
    lemma_window_gain_steady(s, now, HOUR_WINDOW);
}

/// Law: the displayed EXP/min and EXP/h are never negative.
pub proof fn lemma_metrics_nonneg(s: Seq<Sample>, now: u64)
    ensures
        metrics_spec(s, now).0 >= 0,
        metrics_spec(s, now).1 >= 0,
{
    lemma_window_gain_nonneg(s, now, MIN_WINDOW);
    lemma_window_gain_nonneg(s, now, HOUR_WINDOW);
}

proof fn lemma_window_gain_nonneg(s: Seq<Sample>, now: u64, win: u64)
    ensures
        window_gain_spec(s, now, win) matches Some((g, _)) ==> g >= 0,
{
    if s.len() >= 2 && !covers(s, now, win) {
        match window_rate_spec(s, now, win) {
            Some((de, dt, n)) => {
                assert(de * win >= 0) by (nonlinear_arith)
                    requires
                        de >= 0,
                        win >= 0,
                ;
                assert((2 * (de * win) + dt) / (2 * dt) >= 0) by (nonlinear_arith)
                    requires
                        de * win >= 0,
                        dt > 0,
                ;
            },
            None => {},
        }
    }
}

/// Start of the spark line's one-minute span.
pub open spec fn spark_start(s: Seq<Sample>, now: u64) -> u64 {
    if now >= MIN_WINDOW {
        (now - MIN_WINDOW) as u64
    } else if s.len() > 0 {
        s[0].at
    } else {
        now
    }
}

/// EXP gained in 5 s bucket `i` of the last minute (never negative).
pub open spec fn spark_bucket(s: Seq<Sample>, now: u64, i: int) -> int {
    let l = spark_start(s, now) + SAMPLE_INTERVAL * i;
    let r = l + SAMPLE_INTERVAL;
    let g = exp_at_spec(s, r as u64) - exp_at_spec(s, l as u64);
    if s.len() == 0 || g < 0 { 0 } else { g }
}

proof fn lemma_round_div_range(n: int, d: int, hi: int)
    requires
        d > 0,
        0 <= n <= hi * d,
        hi >= 0,
    ensures
        0 <= round_div(n, d) <= hi,
{
    assert(2 * n + d <= (2 * hi + 1) * d) by (nonlinear_arith)
        requires
            n <= hi * d,
            d > 0,
    ;
    assert((2 * n + d) / (2 * d) <= hi) by (nonlinear_arith)
        requires
            2 * n + d <= (2 * hi + 1) * d,
            d > 0,
            n >= 0,
    ;
    assert((2 * n + d) / (2 * d) >= 0) by (nonlinear_arith)
        requires
            n >= 0,
            d > 0,
    ;
}

/// A convex combination of two values in `0..=EXP_MAX` stays there.
proof fn lemma_interp_range(a: Sample, b: Sample, t: u64)
    requires
        0 <= a.exp <= EXP_MAX,
        0 <= b.exp <= EXP_MAX,
        a.at <= t <= b.at,
    ensures
        0 <= interp(a, b, t) <= EXP_MAX,
{
    let dt = since(b.at, a.at);
    if dt > 0 {
        let x = t - a.at;
        let n = a.exp * dt + (b.exp - a.exp) * x;
        assert(n == a.exp * (dt - x) + b.exp * x) by (nonlinear_arith)
            requires
                n == a.exp * dt + (b.exp - a.exp) * x,
        ;
        assert(0 <= a.exp * (dt - x)) by (nonlinear_arith)
            requires
                a.exp >= 0,
                dt - x >= 0,
        ;
        assert(0 <= b.exp * x) by (nonlinear_arith)
            requires
                b.exp >= 0,
                x >= 0,
        ;
        assert(a.exp * (dt - x) <= EXP_MAX * (dt - x)) by (nonlinear_arith)
            requires
                a.exp <= EXP_MAX,
                dt - x >= 0,
        ;
        assert(b.exp * x <= EXP_MAX * x) by (nonlinear_arith)
            requires
                b.exp <= EXP_MAX,
                x >= 0,
        ;
        assert(EXP_MAX * (dt - x) + EXP_MAX * x == EXP_MAX * dt) by (nonlinear_arith);
        lemma_round_div_range(n, dt, EXP_MAX as int);
    }
}

proof fn lemma_exp_at_scan_range(s: Seq<Sample>, t: u64, k: int)
    requires
        chain_ok(s),
        1 <= k <= s.len(),
        s[k - 1].at < t,
    ensures
        0 <= exp_at_scan(s, t, k) <= EXP_MAX,
    decreases s.len() - k,
{
    if k >= s.len() {
        assert(s.last() == s[s.len() - 1]);
    } else if s[k].at >= t {
        lemma_interp_range(s[k - 1], s[k], t);
    } else {
        lemma_exp_at_scan_range(s, t, k + 1);
    }
}

proof fn lemma_exp_at_range(s: Seq<Sample>, t: u64)
    requires
        chain_ok(s),
    ensures
        0 <= exp_at_spec(s, t) <= EXP_MAX,
{
    if s.len() > 0 {
        assert(s.last() == s[s.len() - 1]);
        if t > s[0].at && t < s.last().at {
            lemma_exp_at_scan_range(s, t, 1);
        }
    }
}

/// The chain's value at `t`: end values outside its span, linear
/// interpolation (rounded) between neighbouring samples inside it.
pub fn exp_at(recs: &VecDeque<Sample>, t: u64) -> (r: i64)
    requires
        chain_ok(recs@),
    ensures
        r == exp_at_spec(recs@, t),
        recs@.len() > 0 ==> 0 <= r <= EXP_MAX,
        recs@.len() == 0 ==> r == 0,
{
    let ghost s = recs@;
    proof {
        lemma_exp_at_range(s, t);
    }
    let n = recs.len();
    if n == 0 {
        return 0;
    }
    let first = recs[0];
    if t <= first.at {
        return first.exp;
    }
    let last = recs[n - 1];
    proof {
        assert(s.last() == s[n - 1]);
    }
    if t >= last.at {
        return last.exp;
    }
    let mut k: usize = 1;
    while k < n
        invariant
            s == recs@,
            n == s.len(),
            chain_ok(s),
            1 <= k <= n,
            s[k - 1].at < t,
            exp_at_spec(s, t) == exp_at_scan(s, t, k as int),
        decreases n - k,
    {
        let a = recs[k - 1];
        let b = recs[k];
        if b.at >= t {
            proof {
                lemma_interp_range(a, b, t);
            }
            let dt = b.at - a.at;
            if dt == 0 {
                return a.exp;
            }
            let x = t - a.at;
            proof {
                assert(0 <= a.exp * ((dt - x) as int) <= EXP_MAX * 0x1_0000_0000_0000_0000int)
                    by (nonlinear_arith)
                    requires
                        0 <= a.exp <= EXP_MAX,
                        0 <= dt - x < 0x1_0000_0000_0000_0000int,
                ;
                assert(0 <= b.exp * (x as int) <= EXP_MAX * 0x1_0000_0000_0000_0000int) by (nonlinear_arith)
                    requires
                        0 <= b.exp <= EXP_MAX,
                        0 <= x < 0x1_0000_0000_0000_0000int,
                ;
                assert(a.exp * ((dt - x) as int) + b.exp * (x as int) <= EXP_MAX * (dt as int))
                    by (nonlinear_arith)
                    requires
                        0 <= a.exp <= EXP_MAX,
                        0 <= b.exp <= EXP_MAX,
                        0 <= x <= dt,
                ;
                assert(EXP_MAX * (dt as int) < 0x8000_0000_0000_0000_0000_0000_0000_0000int) by (nonlinear_arith)
                    requires
                        0 <= dt < 0x1_0000_0000_0000_0000int,
                ;
                assert(a.exp * dt + (b.exp - a.exp) * x == a.exp * (dt - x) + b.exp * x)
                    by (nonlinear_arith);
            }
            let num: i128 = (a.exp as i128) * ((dt - x) as i128) + (b.exp as i128) * (x as i128);
            let q: i128 = num / (dt as i128);
            let rm: i128 = num % (dt as i128);
            proof {
                lemma_round_div_qr(num as int, dt as int);
            }
            let v: i128 = if 2 * rm >= dt as i128 {
                q + 1
            } else {
                q
            };
            return v as i64;
        }
        k = k + 1;
    }
    last.exp
}

/// First index at or after `c` and the count of samples from there on.
fn window_index(recs: &VecDeque<Sample>, c: u64) -> (r: usize)
    ensures
        r == first_at_or_after(recs@, c, 0),
        r <= recs@.len(),
{
    let n = recs.len();
    let mut i: usize = 0;
    while i < n
        invariant
            n == recs@.len(),
            i <= n,
            first_at_or_after(recs@, c, 0) == first_at_or_after(recs@, c, i as int),
        decreases n - i,
    {
        if recs[i].at >= c {
            return i;
        }
        i = i + 1;
    }
    n
}

proof fn lemma_first_at_or_after_bound(s: Seq<Sample>, c: u64, i: int)
    requires
        0 <= i <= s.len(),
    ensures
        i <= first_at_or_after(s, c, i) <= s.len(),
    decreases s.len() - i,
{
    if i < s.len() && s[i].at < c {
        lemma_first_at_or_after_bound(s, c, i + 1);
    }
}

/// Number of samples at or after `c`.
fn count_from(recs: &VecDeque<Sample>, c: u64) -> (r: usize)
    ensures
        r == count_at_or_after(recs@, c),
{
    let n = recs.len();
    let mut i: usize = 0;
    let mut cnt: usize = 0;
    while i < n
        invariant
            n == recs@.len(),
            i <= n,
            cnt == count_at_or_after(recs@.subrange(0, i as int), c),
            cnt <= i,
        decreases n - i,
    {
        proof {
            assert(recs@.subrange(0, i + 1).drop_last() =~= recs@.subrange(0, i as int));
        }
        if recs[i].at >= c {
            cnt = cnt + 1;
        }
        i = i + 1;
    }
    proof {
        assert(recs@.subrange(0, n as int) =~= recs@);
    }
    cnt
}

/// Two-point rate over a trailing window: (EXP gained, span in ns, samples
/// used); see [`window_rate_spec`].
pub fn window_rate(recs: &VecDeque<Sample>, now: u64, win: u64) -> (r: Option<(i64, u64, usize)>)
    requires
        chain_ok(recs@),
    ensures
        match (r, window_rate_spec(recs@, now, win)) {
            (None, None) => true,
            (Some((g, dt, n)), Some((g2, dt2, n2))) => g == g2 && dt == dt2 && n == n2,
            _ => false,
        },
{
    let ghost s = recs@;
    let n = recs.len();
    if n < 2 {
        return None;
    }
    let cutoff = if now >= win {
        now - win
    } else {
        recs[0].at
    };
    let mut lo = window_index(recs, cutoff);
    if n - lo < 2 {
        lo = n - 2;
    }
    let first = recs[lo];
    let last = recs[n - 1];
    proof {
        assert(s.last() == s[n - 1]);
        assert(0 <= first.exp <= EXP_MAX);
        assert(0 <= last.exp <= EXP_MAX);
    }
    let dt = if last.at >= first.at {
        last.at - first.at
    } else {
        0
    };
    if dt < MIN_SPAN {
        return None;
    }
    let de = if last.exp - first.exp > 0 {
        last.exp - first.exp
    } else {
        0
    };
    Some((de, dt, n - lo))
}

/// EXP gained over exactly the trailing `win` and the samples in it; see
/// [`window_gain_spec`].
pub fn window_gain(recs: &VecDeque<Sample>, now: u64, win: u64) -> (r: Option<(i64, usize)>)
    requires
        chain_ok(recs@),
    ensures
        match (r, window_gain_spec(recs@, now, win)) {
            (None, None) => true,
            (Some((g, n)), Some((g2, n2))) => g == g2 && n == n2,
            _ => false,
        },
{
    let ghost s = recs@;
    let n = recs.len();
    if n < 2 {
        return None;
    }
    if now >= win && recs[0].at <= now - win {
        let c = now - win;
        let v = exp_at(recs, c);
        let last = recs[n - 1].exp;
        proof {
            assert(s.last() == s[n - 1]);
            assert(0 <= last <= EXP_MAX);
        }
        let g = if last - v > 0 {
            last - v
        } else {
            0
        };
        let cnt = count_from(recs, c);
        return Some((g, cnt));
    }
    match window_rate(recs, now, win) {
        None => None,
        Some((de, dt, cnt)) => {
            proof {
                assert(0 <= de <= EXP_MAX);
                assert(0 <= (de as int) * (win as int) <= EXP_MAX * 0xffff_ffff_ffff_ffffint)
                    by (nonlinear_arith)
                    requires
                        0 <= de <= EXP_MAX,
                        0 <= win <= 0xffff_ffff_ffff_ffffint,
                ;
                lemma_round_div_qr((de as int) * (win as int), dt as int);
                assert((de as int) * (win as int) / (dt as int) <= (de as int) * (win as int)) by (nonlinear_arith)
                    requires
                        (de as int) * (win as int) >= 0,
                        dt >= 1,
                ;
                assert((de as int) * (win as int) / (dt as int) >= 0) by (nonlinear_arith)
                    requires
                        (de as int) * (win as int) >= 0,
                        dt >= 1,
                ;
            }
            let num: i128 = (de as i128) * (win as i128);
            let q: i128 = num / (dt as i128);
            let rm: i128 = num % (dt as i128);
            let v: i128 = if 2 * rm >= dt as i128 {
                q + 1
            } else {
                q
            };
            let g: i64 = if v > i64::MAX as i128 {
                i64::MAX
            } else {
                v as i64
            };
            Some((g, cnt))
        },
    }
}

/// Displayed figures (EXP/min, EXP/h, samples in the minute, samples in
/// the hour); all zero when either window cannot be computed.
pub fn metrics(recs: &VecDeque<Sample>, now: u64) -> (r: (i64, i64, u32, u32))
    requires
        chain_ok(recs@),
    ensures
        (r.0 as int, r.1 as int, r.2, r.3) == metrics_spec(recs@, now),
{
    let a = window_gain(recs, now, MIN_WINDOW);
    let b = window_gain(recs, now, HOUR_WINDOW);
    match (a, b) {
        (Some((pm, nm)), Some((ph, nh))) => (pm, ph, nm as u32, nh as u32),
        _ => (0, 0, 0, 0),
    }
}

/// The spark line: EXP gained in each 5 s bucket of the last minute, newest last.
pub fn spark_gains(recs: &VecDeque<Sample>, now: u64) -> (r: [i64; 12])
    requires
        chain_ok(recs@),
        recs@.len() > 0 && now < MIN_WINDOW ==> recs@[0].at <= u64::MAX - MIN_WINDOW,
    ensures
        forall|i: int| 0 <= i < 12 ==> r[i] == spark_bucket(recs@, now, i),
        forall|i: int| 0 <= i < 12 ==> r[i] >= 0,
{
    let mut out = [0i64; 12];
    let n = recs.len();
    if n == 0 {
        assert(forall|i: int| 0 <= i < 12 ==> out[i] == spark_bucket(recs@, now, i));
        return out;
    }
    let t0 = if now >= MIN_WINDOW {
        now - MIN_WINDOW
    } else {
        recs[0].at
    };
    proof {
        assert(t0 + MIN_WINDOW <= u64::MAX);
    }
    let mut i: usize = 0;
    while i < 12
        invariant
            n == recs@.len(),
            n > 0,
            chain_ok(recs@),
            t0 == spark_start(recs@, now),
            t0 + MIN_WINDOW <= u64::MAX,
            i <= 12,
            forall|j: int| 0 <= j < i ==> out[j] == spark_bucket(recs@, now, j),
            forall|j: int| 0 <= j < i ==> out[j] >= 0,
        decreases 12 - i,
    {
        let l = t0 + SAMPLE_INTERVAL * (i as u64);
        let r = l + SAMPLE_INTERVAL;
        let er = exp_at(recs, r);
        let el = exp_at(recs, l);
        let g = if er - el < 0 {
            0
        } else {
            er - el
        };
        out[i] = g;
        i = i + 1;
    }
    out
}

// ---------------------------------------------------------------------------
// Pause clock
// ---------------------------------------------------------------------------

/// Bookkeeping of the time the game was not in the foreground: samples are
/// stamped on the active clock `now - lag`, so background time does not
/// dilute the rates.
#[derive(Debug, Clone, Copy, PartialEq, Eq)]
pub struct PauseClock {
    /// Total paused wall time so far (ns).
    pub lag: u64,
    /// Wall time of the previous tick.
    pub prev: Option<u64>,
}

impl PauseClock {
    /// A clock with no pause and no previous tick.
    pub fn new() -> (r: Self)
        ensures
            r.lag == 0,
            r.prev is None,
    {
        PauseClock { lag: 0, prev: None }
    }

    /// Wall time since the previous tick (0 on the first), moving the tick to `now`.
    pub fn step(&mut self, now: u64) -> (d: u64)
        ensures
            final(self).prev == Some(now),
            final(self).lag == old(self).lag,
            d == match old(self).prev {
                None => 0,
                Some(p) => since(now, p),
            },
    {
        match self.prev {
            None => {
                self.prev = Some(now);
                0
            },
            Some(p) => {
                let d = if now >= p {
                    now - p
                } else {
                    0
                };
                self.prev = Some(now);
                d
            },
        }
    }

    /// Count a stretch of wall time as paused (saturating at the clock's range).
    pub fn pause(&mut self, elapsed: u64)
        ensures
            final(self).prev == old(self).prev,
            final(self).lag == if old(self).lag + elapsed > u64::MAX {
                u64::MAX
            } else {
                (old(self).lag + elapsed) as u64
            },
    {
        self.lag = self.lag.saturating_add(elapsed);
    }

    /// The active time: `now - lag`, or `now` itself when that would fall before the origin.
    pub fn active_now(&self, now: u64) -> (r: u64)
        ensures
            r == if now >= self.lag {
                (now - self.lag) as u64
            } else {
                now
            },
    {
        if now >= self.lag {
            now - self.lag
        } else {
            now
        }
    }
}

// ---------------------------------------------------------------------------
// One sampling round
// ---------------------------------------------------------------------------

/// What one round found.
#[derive(Debug, Clone, Copy, PartialEq, Eq, Structural)]
pub enum Probe {
    /// No game window.
    NoGame,
    /// The game is not in the foreground: sampling pauses.
    Background,
    /// The window could not be captured.
    CaptureFailed,
    /// The capture came back blank; `minimized` tells why, when known.
    Blank { minimized: bool },
    /// No EXP value could be read from the capture.
    Unread,
    /// The EXP value read.
    Read(i64),
}

/// What a round does to the published figures.
#[derive(Debug, Clone, Copy)]
pub enum MetricsUpdate {
    /// Leave them as they are.
    Keep,
    /// Reset them to "nothing to show".
    Clear,
    /// Publish these.
    Publish(ExpMetrics),
}

/// What a round publishes: status, figures, and a log line (EXP, segment head).
#[derive(Debug, Clone)]
pub struct TickReport {
    pub state: SamplerState,
    pub msg: String,
    pub metrics: MetricsUpdate,
    pub log: Option<(i64, bool)>,
}

/// The sampling state kept between rounds.
pub struct Sampler {
    /// The recorded chain (at most the last hour).
    pub recs: VecDeque<Sample>,
    /// Low readings waiting for a level-up verdict.
    pub pending: Vec<Sample>,
    /// Start of the current segment.
    pub base: Option<Sample>,
    /// Failed rounds in a row, up to `MISS_LIMIT`.
    pub miss: u32,
    /// Paused-time bookkeeping.
    pub pc: PauseClock,
    /// Active time of the latest foreground round.
    pub last_active: Ghost<u64>,
}

/// Failed rounds after one more failure (capped at the limit).
pub open spec fn miss_next(miss: u32) -> u32 {
    if miss >= MISS_LIMIT { miss } else { (miss + 1) as u32 }
}

/// Whether one more failure clears the figures: exactly when the count reaches the limit.
pub open spec fn miss_clears(miss: u32) -> bool {
    miss < MISS_LIMIT && miss + 1 >= MISS_LIMIT
}

/// The status text of a round that read nothing.
pub open spec fn fail_msg(p: Probe) -> Seq<char> {
    match p {
        Probe::NoGame => "未检测到游戏窗口"@,
        Probe::Background => "游戏不在前台，经验计时暂停"@,
        Probe::CaptureFailed => "无法抓取游戏窗口"@,
        Probe::Blank { minimized } => if minimized {
            "游戏窗口最小化，抓不到画面"@
        } else {
            "抓到的画面为空（PrintWindow/反外挂拦截，或窗口被遮挡）"@
        },
        _ => "未读到 EXP"@,
    }
}

/// The status text of a round that read `exp`.
pub open spec fn read_msg(a: Accept, exp: i64) -> Seq<char> {
    match a {
        Accept::Ignored => "EXP 递减(疑似瞬时误读)，该条未记录（当前 EXP "@ + int_dec(exp as int) + "）"@,
        Accept::LevelUp => "判定升级，已重置（当前 EXP "@ + int_dec(exp as int) + "）"@,
        Accept::Recorded => "EXP "@ + int_dec(exp as int),
    }
}

/// The figures published after a reading, for the chain, time and segment start.
pub open spec fn metrics_ok(m: ExpMetrics, recs: Seq<Sample>, now: u64, base: Option<Sample>, stamp: u64) -> bool {
    let (pm, ph, nm, nh) = metrics_spec(recs, now);
    &&& m.per_min == pm
    &&& m.per_hour == ph
    &&& m.n_min == nm
    &&& m.n_hour == nh
    &&& m.level is None
    &&& m.updated == Some(stamp)
    &&& forall|i: int| 0 <= i < 12 ==> m.spark[i] == spark_bucket(recs, now, i)
    &&& m.cum_gain == cum_gain_spec(recs, base)
}

impl Sampler {
    /// The invariant kept between rounds.
    pub open spec fn wf(&self) -> bool {
        &&& chain_wf(self.recs@)
        &&& self.base matches Some(b) ==> 0 <= b.exp <= EXP_MAX
        &&& self.miss <= MISS_LIMIT
        &&& forall|i: int| 0 <= i < self.recs@.len() ==> (#[trigger] self.recs@[i]).at <= self.last_active@
        &&& match self.pc.prev {
            None => self.pc.lag == 0 && self.last_active@ == 0,
            Some(p) => self.pc.lag + self.last_active@ <= p,
        }
    }

    /// Nothing recorded yet.
    pub fn new() -> (r: Self)
        ensures
            r.wf(),
            r.recs@.len() == 0,
            r.pending@.len() == 0,
            r.base is None,
            r.miss == 0,
            r.pc == PauseClock::new_spec(),
    {
        Sampler {
            recs: VecDeque::new(),
            pending: Vec::new(),
            base: None,
            miss: 0,
            pc: PauseClock::new(),
            last_active: Ghost(0),
        }
    }

    /// Drops the chain, the pending run, the segment start and the failure
    /// count (the bar's refresh); the pause clock goes on.
    pub fn clear(&mut self)
        requires
            old(self).wf(),
        ensures
            final(self).wf(),
            final(self).recs@.len() == 0,
            final(self).pending@.len() == 0,
            final(self).base is None,
            final(self).miss == 0,
            final(self).pc == old(self).pc,
    {
        self.recs.clear();
        self.pending.clear();
        self.base = None;
        self.miss = 0;
    }

    fn fail(&mut self, p: Probe) -> (r: TickReport)
        requires
            old(self).wf(),
            !(p is Read) && !(p is Background),
        ensures
            final(self).wf(),
            final(self).recs@ == old(self).recs@,
            final(self).pending@ == old(self).pending@,
            final(self).base == old(self).base,
            final(self).pc == old(self).pc,
            final(self).miss == miss_next(old(self).miss),
            r.state == (if p is NoGame || p is CaptureFailed {
                SamplerState::NoGame
            } else {
                SamplerState::OcrFailed
            }),
            r.msg@ == fail_msg(p),
            r.log is None,
            miss_clears(old(self).miss) ==> r.metrics is Clear,
            !miss_clears(old(self).miss) ==> r.metrics is Keep,
    {
        let state = match p {
            Probe::NoGame => SamplerState::NoGame,
            Probe::CaptureFailed => SamplerState::NoGame,
            _ => SamplerState::OcrFailed,
        };
        let msg = match p {
            Probe::NoGame => String::from_str("未检测到游戏窗口"),
            Probe::CaptureFailed => String::from_str("无法抓取游戏窗口"),
            Probe::Blank { minimized } => if minimized {
                String::from_str("游戏窗口最小化，抓不到画面")
            } else {
                String::from_str("抓到的画面为空（PrintWindow/反外挂拦截，或窗口被遮挡）")
            },
            _ => String::from_str("未读到 EXP"),
        };
        let mut metrics = MetricsUpdate::Keep;
        if self.miss < MISS_LIMIT {
            self.miss = self.miss + 1;
            if self.miss >= MISS_LIMIT {
                metrics = MetricsUpdate::Clear;
            }
        }
        TickReport { state, msg, metrics, log: None }
    }

    /// One round: `now_real` is the monotonic wall time (ns) and `probe`
    /// what the round found. Rounds without the game or in the background
    /// count as paused time; failures count towards clearing the figures
    /// (the fourth in a row clears them); a reading goes through
    /// [`accept_exp`] and the figures are recomputed on the active clock.
    pub fn tick(&mut self, now_real: u64, probe: Probe) -> (r: TickReport)
        requires
            old(self).wf(),
            old(self).pc.prev matches Some(p) ==> p <= now_real,
            probe matches Probe::Read(e) ==> 0 <= e <= EXP_MAX,
        ensures
            final(self).wf(),
            final(self).pc.prev == Some(now_real),
            ({
                let wall = match old(self).pc.prev {
                    None => 0,
                    Some(p) => since(now_real, p),
                };
                final(self).pc.lag == if probe is NoGame || probe is Background {
                    old(self).pc.lag + wall
                } else {
                    old(self).pc.lag as int
                }
            }),
            probe is Background ==> {
                &&& r.state == SamplerState::Paused
                &&& r.msg@ == fail_msg(probe)
                &&& r.metrics is Keep
                &&& r.log is None
                &&& final(self).recs@ == old(self).recs@
                &&& final(self).pending@ == old(self).pending@
                &&& final(self).base == old(self).base
                &&& final(self).miss == old(self).miss
            },
            !(probe is Background) && !(probe is Read) ==> {
                &&& r.state == (if probe is NoGame || probe is CaptureFailed {
                    SamplerState::NoGame
                } else {
                    SamplerState::OcrFailed
                })
                &&& r.msg@ == fail_msg(probe)
                &&& r.log is None
                &&& (miss_clears(old(self).miss) ==> r.metrics is Clear)
                &&& (!miss_clears(old(self).miss) ==> r.metrics is Keep)
                &&& final(self).miss == miss_next(old(self).miss)
                &&& final(self).recs@ == old(self).recs@
                &&& final(self).pending@ == old(self).pending@
                &&& final(self).base == old(self).base
            },
            probe matches Probe::Read(e) ==> {
                let now = if now_real >= old(self).pc.lag { (now_real - old(self).pc.lag) as u64 } else { now_real };
                let (recs, pending, acc) = accept_spec(old(self).recs@, old(self).pending@, now, e);
                let base = next_base_spec(acc, recs, old(self).base);
                &&& final(self).recs@ == recs
                &&& final(self).pending@ == pending
                &&& final(self).base == base
                &&& final(self).miss == 0
                &&& r.state == SamplerState::Running
                &&& r.msg@ == read_msg(acc, e)
                &&& r.metrics matches MetricsUpdate::Publish(m) && metrics_ok(m, recs, now, base, now_real)
                &&& r.log == (if acc == Accept::Ignored { None } else { Some((e, acc == Accept::LevelUp)) })
            },
    {
        let ghost old_last = self.last_active@;
        let wall = self.pc.step(now_real);
        match probe {
            Probe::NoGame => {
                self.pc.pause(wall);
                return self.fail(probe);
            },
            Probe::Background => {
                self.pc.pause(wall);
                return TickReport {
                    state: SamplerState::Paused,
                    msg: String::from_str("游戏不在前台，经验计时暂停"),
                    metrics: MetricsUpdate::Keep,
                    log: None,
                };
            },
            Probe::Read(e) => {
                let now = self.pc.active_now(now_real);
                proof {
                    self.last_active = Ghost(now);
                }
                self.miss = 0;
                let ghost old_recs = self.recs@;
                let acc = accept_exp(&mut self.recs, &mut self.pending, now, e);
                proof {
                    lemma_accept_keeps_chain_wf(old_recs, old(self).pending@, now, e);
                    lemma_accept_times(old_recs, old(self).pending@, now, e, old_last);
                }
                let base = next_base(acc, &self.recs, self.base);
                self.base = base;
                proof {
                    lemma_next_base_range(acc, self.recs@, old(self).base);
                }
                let cum = cum_gain(&self.recs, self.base);
                let (per_min, per_hour, n_min, n_hour) = metrics(&self.recs, now);
                proof {
                    if self.recs@.len() > 0 {
                        assert(self.recs@[0].at <= now);
                    }
                }
                let spark = spark_gains(&self.recs, now);
                let m = ExpMetrics {
                    per_min,
                    per_hour,
                    n_min,
                    n_hour,
                    level: None,
                    updated: Some(now_real),
                    spark,
                    cum_gain: cum,
                };
                let msg = read_message(acc, e);
                let log = match acc {
                    Accept::Ignored => None,
                    Accept::Recorded => Some((e, false)),
                    Accept::LevelUp => Some((e, true)),
                };
                return TickReport { state: SamplerState::Running, msg, metrics: MetricsUpdate::Publish(m), log };
            },
            _ => {
                return self.fail(probe);
            },
        }
    }
}

impl PauseClock {
    /// The clock `new` makes.
    pub open spec fn new_spec() -> PauseClock {
        PauseClock { lag: 0, prev: None }
    }
}

/// Readings keep the chain's times at or before the new active time.
proof fn lemma_accept_times(recs: Seq<Sample>, pending: Seq<Sample>, now: u64, exp: i64, bound: u64)
    requires
        forall|i: int| 0 <= i < recs.len() ==> (#[trigger] recs[i]).at <= bound,
        bound <= now,
    ensures
        forall|i: int| 0 <= i < accept_spec(recs, pending, now, exp).0.len() ==> (#[trigger] accept_spec(recs, pending, now, exp).0[i]).at <= now,
{
    let s = Sample { at: now, exp };
    if recs.len() > 0 && exp >= recs.last().exp {
        let p = recs.push(s);
        lemma_prune_props(p, now);
        let k = choose|k: int| 0 <= k <= p.len() && prune_spec(p, now) == p.subrange(k, p.len() as int);
        assert forall|i: int| 0 <= i < prune_spec(p, now).len() implies (#[trigger] prune_spec(p, now)[i]).at <= now by {
            assert(prune_spec(p, now)[i] == p[i + k]);
            if i + k < recs.len() {
                assert(p[i + k] == recs[i + k]);
            }
        }
    }
}

proof fn lemma_next_base_range(acc: Accept, recs: Seq<Sample>, base: Option<Sample>)
    requires
        exps_in_range(recs),
        base matches Some(b) ==> 0 <= b.exp <= EXP_MAX,
    ensures
        next_base_spec(acc, recs, base) matches Some(b) ==> 0 <= b.exp <= EXP_MAX,
{
    if recs.len() > 0 {
        assert(recs.last() == recs[recs.len() - 1]);
        assert(recs[0] == recs[0]);
    }
}

fn read_message(a: Accept, e: i64) -> (r: String)
    ensures
        r@ == read_msg(a, e),
{
    match a {
        Accept::Ignored => {
            let mut s = String::from_str("EXP 递减(疑似瞬时误读)，该条未记录（当前 EXP ");
            push_int(&mut s, e);
            s.append("）");
            s
        },
        Accept::LevelUp => {
            let mut s = String::from_str("判定升级，已重置（当前 EXP ");
            push_int(&mut s, e);
            s.append("）");
            s
        },
        Accept::Recorded => {
            let mut s = String::from_str("EXP ");
            push_int(&mut s, e);
            s
        },
    }
}

/// Law: from no failures, the figures are cleared on exactly the fourth
/// failed round in a row, and further failures leave them alone.
pub proof fn lemma_fourth_failure_clears()
    ensures
        !miss_clears(0) && !miss_clears(miss_next(0)) && !miss_clears(miss_next(miss_next(0))),
        miss_clears(miss_next(miss_next(miss_next(0)))),
        miss_next(miss_next(miss_next(miss_next(0)))) == MISS_LIMIT,
        !miss_clears(MISS_LIMIT),
        miss_next(MISS_LIMIT) == MISS_LIMIT,
{
}

/// The class of a capture: blank, the EXP value read, or unreadable.
pub open spec fn probe_spec(px: Seq<u8>, w: int, h: int, minimized: bool) -> Probe {
    if frame_is_blank_spec(px) {
        Probe::Blank { minimized }
    } else {
        match exp_spec(px, w, h) {
            Some(v) => Probe::Read(v as i64),
            None => Probe::Unread,
        }
    }
}

/// Classifies a capture: blank, unreadable, or the EXP value read.
pub fn probe_frame(frame: &BgraFrame, minimized: bool) -> (p: Probe)
    requires
        frame.wf(),
        frame.w * frame.h < 0x8000_0000,
    ensures
        p == probe_spec(frame.pixels@, frame.w as int, frame.h as int, minimized),
        p matches Probe::Read(e) ==> e >= 0,
{
    if frame_is_blank(frame) {
        return Probe::Blank { minimized };
    }
    match read_exp_value(frame) {
        Some(v) => Probe::Read(v),
        None => Probe::Unread,
    }
}

impl TickReport {
    /// Publishes a round into the shared state: status, figures, and (with
    /// the wall-clock `hms`) the log line.
    pub fn apply(self, shared: &mut Shared, hms: String)
        ensures
            final(shared).sampler.state == self.state,
            final(shared).sampler.msg == self.msg,
            match self.metrics {
                MetricsUpdate::Keep => final(shared).exp == old(shared).exp,
                MetricsUpdate::Clear => final(shared).exp.is_zero(),
                MetricsUpdate::Publish(m) => final(shared).exp == m,
            },
            match self.log {
                None => final(shared).exp_log@ == old(shared).exp_log@,
                Some((e, seg)) => final(shared).exp_log@ == crate::state::log_tail(
                    old(shared).exp_log@.push(ExpLogLine { hms, exp: e, seg }),
                ),
            },
            crate::state::same_rest(*old(shared), *final(shared)),
            final(shared).page == old(shared).page,
            final(shared).report == old(shared).report,
            final(shared).pick == old(shared).pick,
            final(shared).clear_queue == old(shared).clear_queue,
    {
        match self.log {
            Some((e, seg)) => push_exp_log(&mut shared.exp_log, ExpLogLine { hms, exp: e, seg }),
            None => {},
        }
        match self.metrics {
            MetricsUpdate::Keep => {},
            MetricsUpdate::Clear => {
                shared.exp = ExpMetrics::default();
            },
            MetricsUpdate::Publish(m) => {
                shared.exp = m;
            },
        }
        shared.sampler.state = self.state;
        shared.sampler.msg = self.msg;
    }
}

} // verus!
