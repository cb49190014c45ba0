//! Rules of the webview shell: whether a page loaded from the app's own
//! protocol (a page elsewhere means the first navigation raced the protocol's
//! registration and must be retried), and the docking of the bar at the top
//! of the work area.
use crate::net::{has_prefix, starts_with_chars};
use crate::text::char_vec;
use vstd::prelude::*;

verus! {

/// Whether a URL is on the app's own `tauri.localhost` origin (http or https).
pub fn is_tauri_url(url: &str) -> (r: bool)
    ensures
        r == (has_prefix(url@, "http://tauri.localhost"@) || has_prefix(url@, "https://tauri.localhost"@)),
{
    let v = char_vec(url);
    let a = char_vec("http://tauri.localhost");
    let b = char_vec("https://tauri.localhost");
    starts_with_chars(&v, &a) || starts_with_chars(&v, &b)
}

/// How many times a window's page is reloaded at most.
pub const MAX_RELOADS: u32 = 3;

/// After a page load: reload when the page is neither the app's own nor
/// `about:blank` (navigation not started yet), while fewer than three
/// reloads were made.
pub fn should_reload(url: &str, reloads: u32) -> (r: bool)
    ensures
        r == (!(has_prefix(url@, "http://tauri.localhost"@) || has_prefix(url@, "https://tauri.localhost"@)
            || has_prefix(url@, "about:blank"@)) && reloads < MAX_RELOADS),
{
    if is_tauri_url(url) {
        return false;
    }
    let v = char_vec(url);
    let blank = char_vec("about:blank");
    if starts_with_chars(&v, &blank) {
        return false;
    }
    reloads < MAX_RELOADS
}

/// A window top within this many pixels of the work area's top docks.
pub const SNAP_THRESHOLD: i32 = 24;

/// What a move of the bar does to docking.
#[derive(Debug, Clone, Copy, PartialEq, Eq, Structural)]
pub enum SnapAction {
    /// Dock; move the window up to the top first when it is not there.
    Dock { to_top: bool },
    /// Leave the dock (and restore a collapsed bar).
    Undock,
    /// Docked and dragged within the threshold: back to the top.
    Realign,
    /// Nothing changes.
    Stay,
}

/// The docking decision for a window whose top is at `y` when the work
/// area starts at `top`.
pub fn snap_action(docked: bool, y: i32, top: i32) -> (r: SnapAction)
    ensures
        ({
            let near = y - top <= SNAP_THRESHOLD;
            r == if near && !docked {
                SnapAction::Dock { to_top: y != top }
            } else if !near && docked {
                SnapAction::Undock
            } else if near && docked && y != top {
                SnapAction::Realign
            } else {
                SnapAction::Stay
            }
        }),
{
    let near = (y as i64) - (top as i64) <= SNAP_THRESHOLD as i64;
    if near && !docked {
        SnapAction::Dock { to_top: y != top }
    } else if !near && docked {
        SnapAction::Undock
    } else if near && docked && y != top {
        SnapAction::Realign
    } else {
        SnapAction::Stay
    }
}

/// Whether the cursor (`px`, `py`) is over a window at (`x`, `y`) of
/// `w × h` pixels.
pub fn cursor_over(px: i32, py: i32, x: i32, y: i32, w: u32, h: u32) -> (r: bool)
    ensures
        r == (x <= px < x + w && y <= py < y + h),
{
    (px as i64) >= (x as i64) && (px as i64) < (x as i64) + (w as i64) && (py as i64) >= (y as i64) && (py as i64)
        < (y as i64) + (h as i64)
}

/// The bar's dock and fold: docked to the top of the work area, folded into
/// a thin line, and the height to give back when it unfolds.
#[derive(Debug, Clone, Copy)]
pub struct Fold {
    pub docked: bool,
    pub collapsed: bool,
    pub expanded_h: Option<u32>,
}

/// A request to fold a window `cur_h` tall into a line `line_h` tall: only a
/// docked, unfolded bar without the pointer over it folds; the new height.
pub open spec fn collapse_spec(f: Fold, cur_h: u32, line_h: u32, pointer_in: bool) -> (Fold, Option<u32>) {
    if f.docked && !f.collapsed && !pointer_in {
        (Fold { docked: f.docked, collapsed: true, expanded_h: Some(cur_h) }, Some(line_h))
    } else {
        (f, None)
    }
}

/// Unfolding a window now `cur_h` tall: the height it gets back (the one
/// saved when it folded), or nothing when it is not folded.
pub open spec fn restore_spec(f: Fold, cur_h: u32) -> (Fold, Option<u32>) {
    if f.collapsed {
        (
            Fold { collapsed: false, ..f },
            Some(
                match f.expanded_h {
                    Some(h) => h,
                    None => cur_h,
                },
            ),
        )
    } else {
        (f, None)
    }
}

/// A move of the window to top `y` (work area from `top`), the window being
/// `cur_h` tall: the docking decision, and the height to restore when
/// leaving the dock unfolds it.
pub open spec fn moved_spec(f: Fold, y: i32, top: i32, cur_h: u32) -> (Fold, SnapAction, Option<u32>) {
    let near = y - top <= SNAP_THRESHOLD;
    if near && !f.docked {
        (Fold { docked: true, ..f }, SnapAction::Dock { to_top: y != top }, None)
    } else if !near && f.docked {
        let (f2, h) = restore_spec(Fold { docked: false, ..f }, cur_h);
        (f2, SnapAction::Undock, h)
    } else if near && f.docked && y != top {
        (f, SnapAction::Realign, None)
    } else {
        (f, SnapAction::Stay, None)
    }
}

impl Fold {
    /// Not docked, not folded.
    pub fn new() -> (f: Fold)
        ensures
            !f.docked && !f.collapsed && f.expanded_h is None,
    {
        Fold { docked: false, collapsed: false, expanded_h: None }
    }

    /// Asks to fold the bar (`cur_h` tall) into a line `line_h` tall, the
    /// pointer being over it or not; `Some` with the new height when it folds.
    pub fn collapse(&mut self, cur_h: u32, line_h: u32, pointer_in: bool) -> (r: Option<u32>)
        ensures
            (*final(self), r) == collapse_spec(*old(self), cur_h, line_h, pointer_in),
    {
        if !self.docked || self.collapsed || pointer_in {
            return None;
        }
        self.expanded_h = Some(cur_h);
        self.collapsed = true;
        Some(line_h)
    }

    /// Unfolds the bar (`cur_h` tall now): `Some` with the height to give it.
    pub fn restore(&mut self, cur_h: u32) -> (r: Option<u32>)
        ensures
            (*final(self), r) == restore_spec(*old(self), cur_h),
    {
        if !self.collapsed {
            return None;
        }
        self.collapsed = false;
        match self.expanded_h {
            Some(h) => Some(h),
            None => Some(cur_h),
        }
    }

    /// The window moved to top `y`, the work area starting at `top`.
    pub fn moved(&mut self, y: i32, top: i32, cur_h: u32) -> (r: (SnapAction, Option<u32>))
        ensures
            ({
                let (f2, a, h) = moved_spec(*old(self), y, top, cur_h);
                *final(self) == f2 && r == (a, h)
            }),
    {
        let a = snap_action(self.docked, y, top);
        match a {
            SnapAction::Dock { .. } => {
                self.docked = true;
                (a, None)
            },
            SnapAction::Undock => {
                self.docked = false;
                let h = self.restore(cur_h);
                (a, h)
            },
            _ => (a, None),
        }
    }
}

/// Law: a bar folded and then unfolded gets back the height it had.
pub proof fn lemma_fold_restores_height(f: Fold, cur_h: u32, line_h: u32, later_h: u32)
    requires
        f.docked,
        !f.collapsed,
    ensures
        ({
            let (f2, r1) = collapse_spec(f, cur_h, line_h, false);
            let (f3, r2) = restore_spec(f2, later_h);
            r1 == Some(line_h) && r2 == Some(cur_h) && !f3.collapsed && f3.docked
        }),
{
}

/// Law: a bar that leaves the dock is never left folded, and a folded bar
/// only exists docked.
pub proof fn lemma_fold_only_docked(f: Fold, y: i32, top: i32, cur_h: u32, line_h: u32, pointer_in: bool)
    requires
        f.collapsed ==> f.docked,
    ensures
        ({
            let (f2, a, h) = moved_spec(f, y, top, cur_h);
            &&& f2.collapsed ==> f2.docked
            &&& (a == SnapAction::Undock && f.collapsed) ==> h is Some
        }),
        collapse_spec(f, cur_h, line_h, pointer_in).0.collapsed ==> collapse_spec(f, cur_h, line_h, pointer_in).0.docked,
        restore_spec(f, cur_h).0.collapsed ==> restore_spec(f, cur_h).0.docked,
{
}

} // verus!
