use mxd_bar::bar::Action;
use mxd_bar::config::PANEL_UNSET;
use mxd_bar::panel::{in_snap_band, Dock, PanelMode, Release, HOME_Y};

#[test]
fn start_mode_follows_saved_top_edge() {
    assert_eq!(Dock::new(0).mode, PanelMode::Auto);
    assert_eq!(Dock::new(20_000).mode, PanelMode::Auto);
    assert_eq!(Dock::new(20_001).mode, PanelMode::Normal);
    assert_eq!(Dock::new(PANEL_UNSET).mode, PanelMode::Normal);
    assert!(in_snap_band(0));
    assert!(!in_snap_band(-1));
    let d = Dock::new(0);
    assert!(!d.open && !d.pinned && !d.positioned);
    assert_eq!(d.dock_x, None);
}

#[test]
fn drop_without_moving_is_a_click() {
    let mut d = Dock::new(500_000);
    assert_eq!(d.drop_at(Some((100_000, 300_000)), (101_000, 299_000)), Release::Click);
    assert!(!d.positioned);
    assert_eq!(d.last_pos, None);
}

#[test]
fn drop_in_top_band_docks() {
    let mut d = Dock::new(500_000);
    d.positioned = true;
    let r = d.drop_at(Some((100_000, 300_000)), (250_000, 12_000));
    assert_eq!(r, Release::Dock { x: 250_000 });
    assert_eq!(d.mode, PanelMode::Auto);
    assert_eq!(d.dock_x, Some(250_000));
    assert!(!d.open && !d.pinned);
    assert!(d.positioned);
    // the saved (x, 0) starts docked again
    assert_eq!(Dock::new(0).mode, d.mode);
}

#[test]
fn drop_below_band_places_normal_card() {
    let mut d = Dock::new(0);
    d.open = true;
    d.dock_x = Some(5);
    let r = d.drop_at(None, (80_000, 20_001));
    assert_eq!(r, Release::Place { x: 80_000, y: 20_001 });
    assert_eq!(d.mode, PanelMode::Normal);
    assert_eq!(d.dock_x, None);
    assert!(!d.open);
    assert!(d.positioned);
    assert_eq!(d.last_pos, Some((80_000, 20_001)));
    assert_eq!(Dock::new(20_001).mode, d.mode);
}

#[test]
fn leaving_dock_moves_out_of_band() {
    let mut d = Dock::new(0);
    assert_eq!(d.leave_dock((100_000, 0), Some(1_920_000)), Some((100_000, HOME_Y)));
    assert_eq!(d.mode, PanelMode::Normal);
    assert_eq!(d.last_pos, Some((100_000, 40_000)));

    let mut d = Dock::new(0);
    assert_eq!(d.leave_dock((PANEL_UNSET, 300_000), Some(1_920_000)), Some((473_000, 300_000)));

    let mut d = Dock::new(0);
    assert_eq!(d.leave_dock((PANEL_UNSET, 300_000), Some(800_000)), Some((0, 300_000)));

    let mut d = Dock::new(0);
    d.positioned = true;
    assert_eq!(d.leave_dock((1, 1), None), None);
    assert!(!d.positioned);
    assert_eq!(d.mode, PanelMode::Normal);
}

#[test]
fn actions_that_need_the_card_undock() {
    let mut d = Dock::new(0);
    assert_eq!(d.on_action(Action::Exit, (0, 0), Some(1_000_000)), None);
    assert_eq!(d.on_action(Action::Refresh, (0, 0), Some(1_000_000)), None);
    assert_eq!(d.on_action(Action::Manage, (0, 0), Some(1_000_000)), None);
    assert_eq!(d.mode, PanelMode::Auto);
    assert_eq!(d.on_action(Action::Log, (7_000, 0), Some(1_000_000)), Some((7_000, 40_000)));
    assert_eq!(d.mode, PanelMode::Normal);
    // a normal card is left alone
    assert_eq!(d.on_action(Action::Report, (7_000, 0), Some(1_000_000)), None);
}

#[test]
fn docked_bar_folds_five_seconds_after_pointer_leaves() {
    let mut d = Dock::new(0);
    d.hover(false, true, false, 0);
    assert!(d.open);
    d.hover(false, false, true, 1_000);
    assert_eq!(d.leave_at, Some(1_000));
    assert!(d.open);
    d.hover(false, false, true, 2_000);
    assert_eq!(d.leave_at, Some(1_000));
    d.hover(false, false, false, 5_999);
    assert!(d.open);
    d.hover(false, false, false, 6_000);
    assert!(!d.open);
    assert_eq!(d.leave_at, None);
    d.hover(true, false, false, 6_100);
    assert!(d.open);
}

#[test]
fn position_saves_are_throttled() {
    let mut d = Dock::new(PANEL_UNSET);
    assert_eq!(d.heartbeat(Some((1, 1)), 0), None); // not placed yet
    assert_eq!(d.first_place(true, (PANEL_UNSET, PANEL_UNSET), Some(1_974_000), 974_000), Some((500_000, 40_000)));
    assert_eq!(d.first_place(true, (0, 0), Some(1_974_000), 974_000), None);
    assert_eq!(d.heartbeat(Some((500_400, 40_000)), 100), None); // within half a pixel
    assert_eq!(d.heartbeat(Some((600_000, 40_000)), 100), Some((600_000, 40_000)));
    assert_eq!(d.heartbeat(Some((700_000, 40_000)), 899), None); // too soon
    assert_eq!(d.heartbeat(Some((700_000, 40_000)), 900), Some((700_000, 40_000)));
}

#[test]
fn first_place_waits_for_size_and_screen() {
    let mut d = Dock::new(PANEL_UNSET);
    assert_eq!(d.first_place(false, (0, 0), Some(1_000_000), 500_000), None);
    assert_eq!(d.first_place(true, (0, 0), None, 500_000), None);
    assert_eq!(d.first_place(true, (3_000, 0), Some(1_000_000), 500_000), Some((3_000, 0)));
}

#[test]
fn docked_window_is_pinned_to_top() {
    let mut d = Dock::new(0);
    assert_eq!(d.pin(None, false, PANEL_UNSET, None), None); // no column known yet
    assert_eq!(d.pin(None, false, PANEL_UNSET, Some(1_974_000)), Some(500_000));
    assert_eq!(d.pin(Some((500_000, 0)), false, PANEL_UNSET, Some(1_974_000)), None);
    assert_eq!(d.pin(Some((502_000, 0)), true, PANEL_UNSET, Some(1_974_000)), None); // dragging
    assert_eq!(d.pin(Some((502_000, 0)), false, PANEL_UNSET, Some(1_974_000)), Some(500_000));
    assert_eq!(d.pin(Some((500_000, 1_400)), false, 0, None), None);
}
