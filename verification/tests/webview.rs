use mxd_bar::webview::{cursor_over, is_tauri_url, should_reload, snap_action, Fold, SnapAction};

#[test]
fn tauri_origin_only() {
    assert!(is_tauri_url("http://tauri.localhost/index.html"));
    assert!(is_tauri_url("https://tauri.localhost"));
    assert!(!is_tauri_url("about:blank"));
    assert!(!is_tauri_url("http://tauri.local"));
    assert!(!is_tauri_url("http://127.0.0.1/"));
}

#[test]
fn reload_only_foreign_pages_three_times() {
    assert!(!should_reload("http://tauri.localhost/popup.html", 0));
    assert!(!should_reload("about:blank", 0));
    assert!(should_reload("http://192.168.1.1/blocked", 0));
    assert!(should_reload("http://192.168.1.1/blocked", 2));
    assert!(!should_reload("http://192.168.1.1/blocked", 3));
}

#[test]
fn docking_follows_the_top_threshold() {
    assert_eq!(snap_action(false, 30, 0), SnapAction::Stay);
    assert_eq!(snap_action(false, 24, 0), SnapAction::Dock { to_top: true });
    assert_eq!(snap_action(false, 0, 0), SnapAction::Dock { to_top: false });
    assert_eq!(snap_action(true, 10, 0), SnapAction::Realign);
    assert_eq!(snap_action(true, 0, 0), SnapAction::Stay);
    assert_eq!(snap_action(true, 25, 0), SnapAction::Undock);
    assert_eq!(snap_action(false, 1060, 1040), SnapAction::Dock { to_top: true });
}

#[test]
fn cursor_inside_window_rectangle() {
    assert!(cursor_over(10, 10, 0, 0, 20, 20));
    assert!(!cursor_over(20, 10, 0, 0, 20, 20));
    assert!(cursor_over(-5, -5, -10, -10, 10, 10));
    assert!(!cursor_over(0, -10, -10, -10, 10, 10));
}

#[test]
fn fold_needs_dock_and_no_pointer() {
    let mut f = Fold::new();
    assert_eq!(f.collapse(72, 6, false), None); // not docked
    f.docked = true;
    assert_eq!(f.collapse(72, 6, true), None); // pointer over the bar
    assert_eq!(f.collapse(72, 6, false), Some(6));
    assert!(f.collapsed);
    assert_eq!(f.expanded_h, Some(72));
    assert_eq!(f.collapse(6, 6, false), None); // already folded
    assert_eq!(f.restore(6), Some(72));
    assert!(!f.collapsed);
    assert_eq!(f.restore(72), None);
}

#[test]
fn leaving_dock_unfolds() {
    let mut f = Fold::new();
    assert_eq!(f.moved(30, 0, 72), (SnapAction::Stay, None)); // too far below the top
    assert_eq!(f.moved(20, 0, 72), (SnapAction::Dock { to_top: true }, None));
    assert!(f.docked);
    assert_eq!(f.collapse(72, 6, false), Some(6));
    assert_eq!(f.moved(10, 0, 6), (SnapAction::Realign, None));
    assert!(f.collapsed);
    assert_eq!(f.moved(200, 0, 6), (SnapAction::Undock, Some(72)));
    assert!(!f.docked && !f.collapsed);
    assert_eq!(f.moved(200, 0, 72), (SnapAction::Stay, None));
}
