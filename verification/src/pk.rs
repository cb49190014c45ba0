//! The live efficiency PK: every 10 s the current EXP/h is reported for a
//! rank, but only while there is a live rate (a sample read within the last
//! 30 s and an hourly figure); after five rounds in a row without a
//! successful report the rank is cleared. The loop, the sleeping and the
//! requests are the application's; each round's decisions are here.
use crate::net::{ApiError, PkRank};
use crate::state::PkState;
use vstd::prelude::*;

verus! {

/// Report period (ns): 10 s.
pub const REPORT_EVERY: u64 = 10_000_000_000;
/// A sample older than this (ns, 30 s) is stale.
pub const FRESH: u64 = 30_000_000_000;
/// Rounds in a row without a successful report before the rank is cleared.
pub const CLEAR_ROUNDS: u32 = 5;

/// There is a live rate: hourly samples exist and the last reading is less
/// than 30 s old at `now` (all monotonic ns).
pub fn report_live(n_hour: u32, updated: Option<u64>, now: u64) -> (r: bool)
    ensures
        r == (n_hour > 0 && (updated matches Some(t) && (if now >= t { now - t } else { 0 }) < FRESH)),
{
    match updated {
        Some(t) => n_hour > 0 && (if now >= t {
            now - t
        } else {
            0
        }) < FRESH,
        None => false,
    }
}

/// Rounds without a successful report so far.
#[derive(Debug, Clone, Copy, PartialEq, Eq, Structural)]
pub struct PkTracker {
    pub stale: u32,
}

/// Stale rounds after one more (saturating).
pub open spec fn stale_next(s: u32) -> u32 {
    if s == u32::MAX { s } else { (s + 1) as u32 }
}

impl PkTracker {
    /// No stale rounds.
    pub fn new() -> (r: Self)
        ensures
            r.stale == 0,
    {
        PkTracker { stale: 0 }
    }

    /// A round without a live rate: one more stale round; the rank is
    /// cleared from the fifth on.
    pub fn idle(&mut self, pk: &mut PkState)
        ensures
            final(self).stale == stale_next(old(self).stale),
            final(self).stale >= CLEAR_ROUNDS ==> final(pk).rank is None && final(pk).total is None,
            final(self).stale < CLEAR_ROUNDS ==> final(pk).rank == old(pk).rank && final(pk).total == old(pk).total,
            final(pk).updated == old(pk).updated,
            final(pk).error == old(pk).error,
    {
        self.stale = self.stale.saturating_add(1);
        if self.stale >= CLEAR_ROUNDS {
            pk.rank = None;
            pk.total = None;
        }
    }

    /// The outcome of a report sent at `now`: success publishes the rank (a
    /// total only when positive) and resets the count; failure keeps the
    /// old rank but records the reason, and counts as a stale round.
    pub fn reported(&mut self, pk: &mut PkState, result: Result<PkRank, ApiError>, now: u64)
        ensures
            match result {
                Ok(k) => {
                    &&& final(self).stale == 0
                    &&& final(pk).rank == Some(k.rank)
                    &&& final(pk).total == (if k.total > 0 { Some(k.total) } else { None })
                    &&& final(pk).updated == Some(now)
                    &&& final(pk).error is None
                },
                Err(e) => {
                    &&& final(self).stale == stale_next(old(self).stale)
                    &&& final(pk).error matches Some(m) && m@ == e.message@
                    &&& final(pk).updated == old(pk).updated
                    &&& (final(self).stale >= CLEAR_ROUNDS ==> final(pk).rank is None && final(pk).total is None)
                    &&& (final(self).stale < CLEAR_ROUNDS ==> final(pk).rank == old(pk).rank && final(pk).total == old(pk).total)
                },
            },
    {
        match result {
            Ok(k) => {
                self.stale = 0;
                pk.rank = Some(k.rank);
                pk.total = if k.total > 0 {
                    Some(k.total)
                } else {
                    None
                };
                pk.updated = Some(now);
                pk.error = None;
            },
            Err(e) => {
                self.stale = self.stale.saturating_add(1);
                pk.error = Some(e.message);
                if self.stale >= CLEAR_ROUNDS {
                    pk.rank = None;
                    pk.total = None;
                }
            },
        }
    }
}

/// Law: from a fresh tracker, five idle rounds in a row clear the rank and
/// fewer do not; one success resets the count.
pub proof fn lemma_fifth_idle_round_clears()
    ensures
        stale_next(stale_next(stale_next(stale_next(0)))) < CLEAR_ROUNDS,
        stale_next(stale_next(stale_next(stale_next(stale_next(0))))) >= CLEAR_ROUNDS,
{
}

} // verus!
