use mxd_bar::net::{ApiError, PkRank};
use mxd_bar::pk::{report_live, PkTracker};
use mxd_bar::state::PkState;

const NS: u64 = 1_000_000_000;
const NOW: u64 = 100_000 * NS;

#[test]
fn live_needs_fresh_sample() {
    let now = NOW;
    assert!(!report_live(0, Some(now - 2 * NS), now));
    assert!(!report_live(3, Some(now - 31 * NS), now));
    assert!(report_live(3, Some(now - 2 * NS), now));
    assert!(!report_live(3, None, now));
    assert!(report_live(3, Some(now - 29 * NS), now));
    assert!(!report_live(3, Some(now - 30 * NS), now));
}

#[test]
fn rank_cleared_after_five_rounds_without_success() {
    let mut pk = PkState::default();
    let mut t = PkTracker::new();
    t.reported(&mut pk, Ok(PkRank { rank: 3, total: 0 }), NOW);
    assert_eq!(pk.rank, Some(3));
    assert_eq!(pk.total, None);
    assert_eq!(pk.updated, Some(NOW));
    for _ in 0..4 {
        t.idle(&mut pk);
        assert_eq!(pk.rank, Some(3));
    }
    t.reported(&mut pk, Err(ApiError { status: Some(500), message: "boom".into() }), NOW);
    assert_eq!(pk.rank, None);
    assert_eq!(pk.error.as_deref(), Some("boom"));
    t.reported(&mut pk, Ok(PkRank { rank: 1, total: 9 }), NOW + NS);
    assert_eq!(t.stale, 0);
    assert_eq!(pk.total, Some(9));
    assert_eq!(pk.error, None);
}
