//! Where the bar's window goes: docking to the top edge of the screen, the
//! hover that opens a docked bar, the drop at the end of a drag and when the
//! position is written back. Positions are window top-left corners in
//! 1/1000 logical px, times in ms; the window toolkit does the moving.
use crate::bar::Action;
use vstd::prelude::*;

verus! {

/// A window whose top edge is within this distance of the screen top docks.
pub const TOP_SNAP: i64 = 20_000;

/// Top edge of a bar placed away from the top band.
pub const HOME_Y: i64 = 40_000;

/// Width of the bar.
pub const BAR_W: i64 = 974_000;

/// A drop closer than this (per axis) to where the drag began is a click.
pub const MOVE_SLACK: i64 = 1_000;

/// A position closer than this (per axis) to the one last saved is not saved.
pub const SAVE_SLACK: i64 = 500;

/// A docked window farther than this from its place is put back.
pub const PIN_SLACK: i64 = 1_500;

/// A docked bar left by the pointer for this long folds into a strip.
pub const AUTO_LEAVE_MS: u64 = 5_000;

/// Least time between two writes of the position.
pub const SAVE_GAP_MS: u64 = 800;

/// Normal card, or docked to the top (a strip that opens on hover).
#[derive(Clone, Copy, Debug, PartialEq, Eq, Structural)]
pub enum PanelMode {
    Normal,
    Auto,
}

/// The placement state of the bar's window.
#[derive(Clone, Copy, Debug)]
pub struct Dock {
    pub mode: PanelMode,
    /// A docked bar is shown open (not folded into the strip).
    pub open: bool,
    /// When the pointer left the docked bar, while it has not come back.
    pub leave_at: Option<u64>,
    /// The docked window has been sent to its place.
    pub pinned: bool,
    /// Column of the docked window.
    pub dock_x: Option<i64>,
    /// The normal window has been placed.
    pub positioned: bool,
    /// Position last recorded.
    pub last_pos: Option<(i64, i64)>,
    /// When the position was last written.
    pub last_save_at: Option<u64>,
}

/// What a drop at the end of a drag does.
#[derive(Clone, Copy, Debug, PartialEq, Eq, Structural)]
pub enum Release {
    /// The pointer did not really move: nothing changes.
    Click,
    /// Dropped in the top band: the bar docks at column `x`; the page closes
    /// and (`x`, 0) is saved.
    Dock { x: i64 },
    /// Dropped elsewhere: the bar stays there as a normal card and (`x`, `y`)
    /// is saved.
    Place { x: i64, y: i64 },
}

/// `y` lies in the top band. An unset position (negative) does not.
pub open spec fn near_top(y: int) -> bool {
    0 <= y <= TOP_SNAP
}

/// The mode a start with the saved top edge `y` opens in.
pub open spec fn start_mode(y: int) -> PanelMode {
    if near_top(y) {
        PanelMode::Auto
    } else {
        PanelMode::Normal
    }
}

/// The state before anything has happened.
pub open spec fn fresh(mode: PanelMode) -> Dock {
    Dock {
        mode,
        open: false,
        leave_at: None,
        pinned: false,
        dock_x: None,
        positioned: false,
        last_pos: None,
        last_save_at: None,
    }
}

/// `a` and `b` differ by more than `slack`.
pub open spec fn apart(a: int, b: int, slack: int) -> bool {
    a - b > slack || b - a > slack
}

/// The drop point `m` is away from the drag's start `origin` (an unknown
/// start counts as moved).
pub open spec fn moved(origin: Option<(i64, i64)>, m: (i64, i64)) -> bool {
    match origin {
        None => true,
        Some(o) => apart(o.0 as int, m.0 as int, MOVE_SLACK as int) || apart(o.1 as int, m.1 as int, MOVE_SLACK as int),
    }
}

/// Left edge that centres a window in `avail` spare width, 0 when none.
pub open spec fn centre_x(avail: int) -> int {
    if avail > 0 {
        avail / 2
    } else {
        0
    }
}

/// The saved column, or a window `width` wide centred on a screen `mon_w`
/// wide when none was saved.
pub open spec fn home_x(cfg_x: int, mon_w: int, width: int) -> int {
    if cfg_x >= 0 {
        cfg_x
    } else {
        centre_x(mon_w - width)
    }
}

/// The bar docks at column `x`, folded.
pub open spec fn docked(d: Dock, x: i64) -> Dock {
    Dock {
        mode: PanelMode::Auto,
        open: false,
        leave_at: None,
        pinned: false,
        dock_x: Some(x),
        positioned: d.positioned,
        last_pos: None,
        last_save_at: None,
    }
}

/// The bar leaves the dock.
pub open spec fn undocked(d: Dock) -> Dock {
    Dock { mode: PanelMode::Normal, open: false, leave_at: None, pinned: false, dock_x: None, ..d }
}

/// The bar was placed at `p` by hand.
pub open spec fn placed(d: Dock, p: (i64, i64)) -> Dock {
    Dock { positioned: true, last_pos: Some(p), last_save_at: None, ..d }
}

/// Pointer events of one frame on a docked bar: a drag or a pointer inside
/// opens it; the pointer leaving starts the clock; five seconds away fold it.
pub open spec fn hover_spec(d: Dock, dragging: bool, moved_in: bool, gone_out: bool, now: u64) -> Dock {
    let d1 = if dragging || moved_in {
        Dock { open: true, leave_at: None, ..d }
    } else {
        d
    };
    let d2 = if gone_out && d1.leave_at is None {
        Dock { leave_at: Some(now), ..d1 }
    } else {
        d1
    };
    if d2.leave_at is Some && now - d2.leave_at->0 >= AUTO_LEAVE_MS {
        Dock { open: false, leave_at: None, ..d2 }
    } else {
        d2
    }
}

/// A drop at `m` after a drag that began with the window at `origin`.
pub open spec fn drop_spec(d: Dock, origin: Option<(i64, i64)>, m: (i64, i64)) -> (Dock, Release) {
    if !moved(origin, m) {
        (d, Release::Click)
    } else if m.1 <= TOP_SNAP {
        (docked(d, m.0), Release::Dock { x: m.0 })
    } else {
        let d1 = if d.mode == PanelMode::Auto {
            undocked(d)
        } else {
            d
        };
        (placed(d1, m), Release::Place { x: m.0, y: m.1 })
    }
}

/// Leaving the dock for an action that needs the normal card: the window
/// goes to the saved place, moved down to `HOME_Y` when that lies in the top
/// band; with no screen size known the first frame places it later.
pub open spec fn leave_dock_spec(d: Dock, cfg: (i64, i64), mon: Option<i64>) -> (Dock, Option<(i64, i64)>) {
    let d1 = undocked(d);
    match mon {
        Some(mw) => {
            let x = home_x(cfg.0 as int, mw as int, BAR_W as int) as i64;
            let y = if cfg.1 > TOP_SNAP {
                cfg.1
            } else {
                HOME_Y
            };
            (placed(d1, (x, y)), Some((x, y)))
        },
        None => (Dock { positioned: false, ..d1 }, None),
    }
}

/// An action on the bar: one that needs the normal card brings a docked bar
/// back first.
pub open spec fn action_spec(d: Dock, action: Action, cfg: (i64, i64), mon: Option<i64>) -> (Dock, Option<(i64, i64)>) {
    if d.mode == PanelMode::Auto && !(action == Action::Exit || action == Action::Refresh || action
        == Action::Manage) {
        leave_dock_spec(d, cfg, mon)
    } else {
        (d, None)
    }
}

/// First placement of the normal card once its size is settled: the saved
/// place, else centred on the screen at `HOME_Y`.
pub open spec fn first_place_spec(d: Dock, sized: bool, cfg: (i64, i64), mon: Option<i64>, want_w: i64) -> (
    Dock,
    Option<(i64, i64)>,
) {
    if sized && !d.positioned && mon is Some {
        let x = home_x(cfg.0 as int, mon->0 as int, want_w as int) as i64;
        let y = if cfg.1 >= 0 {
            cfg.1
        } else {
            HOME_Y
        };
        (placed(d, (x, y)), Some((x, y)))
    } else {
        (d, None)
    }
}

/// The normal card's position `cur` in a frame at `now`: written back when
/// it moved by more than `SAVE_SLACK` and the last write is `SAVE_GAP_MS`
/// old.
pub open spec fn heartbeat_spec(d: Dock, cur: Option<(i64, i64)>, now: u64) -> (Dock, Option<(i64, i64)>) {
    if d.mode != PanelMode::Normal || !d.positioned || cur is None {
        (d, None)
    } else {
        let c = cur->0;
        let changed = match d.last_pos {
            Some(p) => apart(p.0 as int, c.0 as int, SAVE_SLACK as int) || apart(p.1 as int, c.1 as int, SAVE_SLACK as int),
            None => true,
        };
        if !changed {
            (d, None)
        } else if d.last_save_at is Some && now - d.last_save_at->0 < SAVE_GAP_MS {
            (d, None)
        } else {
            (Dock { last_pos: Some(c), last_save_at: Some(now), ..d }, Some(c))
        }
    }
}

/// A frame of the docked bar with the window at `cur`: the column is fixed
/// (the saved one, else centred) and the window is sent to (column, 0) when
/// it was not yet, or drifted by more than `PIN_SLACK`, unless a drag is on.
pub open spec fn pin_spec(d: Dock, cur: Option<(i64, i64)>, dragging: bool, cfg_x: i64, mon: Option<i64>) -> (
    Dock,
    Option<i64>,
) {
    let d1 = if d.dock_x is None && mon is Some {
        Dock { dock_x: Some(home_x(cfg_x as int, mon->0 as int, BAR_W as int) as i64), ..d }
    } else {
        d
    };
    match d1.dock_x {
        Some(x) => {
            let drifted = match cur {
                None => true,
                Some(c) => apart(c.0 as int, x as int, PIN_SLACK as int) || apart(c.1 as int, 0, PIN_SLACK as int),
            };
            if !dragging && (!d1.pinned || drifted) {
                (Dock { pinned: true, ..d1 }, Some(x))
            } else {
                (d1, None)
            }
        },
        None => (d1, None),
    }
}

/// Whether `y` lies in the top band.
pub fn in_snap_band(y: i64) -> (r: bool)
    ensures
        r == near_top(y as int),
{
    0 <= y && y <= TOP_SNAP
}

fn apart_exec(a: i64, b: i64, slack: i64) -> (r: bool)
    ensures
        r == apart(a as int, b as int, slack as int),
{
    let diff: i128 = a as i128 - b as i128;
    diff > slack as i128 || -diff > slack as i128
}

fn home_x_exec(cfg_x: i64, mon_w: i64, width: i64) -> (r: i64)
    ensures
        r as int == home_x(cfg_x as int, mon_w as int, width as int),
{
    if cfg_x >= 0 {
        cfg_x
    } else {
        let avail: i128 = mon_w as i128 - width as i128;
        if avail > 0 {
            (avail / 2) as i64
        } else {
            0
        }
    }
}

impl Dock {
    /// The state at start: docked when the saved top edge `panel_y` lies in
    /// the top band (the mode is not saved; the position tells it).
    pub fn new(panel_y: i64) -> (d: Dock)
        ensures
            d == fresh(start_mode(panel_y as int)),
    {
        let mode = if in_snap_band(panel_y) {
            PanelMode::Auto
        } else {
            PanelMode::Normal
        };
        Dock {
            mode,
            open: false,
            leave_at: None,
            pinned: false,
            dock_x: None,
            positioned: false,
            last_pos: None,
            last_save_at: None,
        }
    }

    /// Pointer events of one frame on the docked bar.
    pub fn hover(&mut self, dragging: bool, moved_in: bool, gone_out: bool, now: u64)
        ensures
            *final(self) == hover_spec(*old(self), dragging, moved_in, gone_out, now),
    {
        if dragging || moved_in {
            self.open = true;
            self.leave_at = None;
        }
        if gone_out && self.leave_at.is_none() {
            self.leave_at = Some(now);
        }
        match self.leave_at {
            Some(t0) => {
                if now >= t0 && now - t0 >= AUTO_LEAVE_MS {
                    self.open = false;
                    self.leave_at = None;
                }
            },
            None => {},
        }
    }

    /// The drop at `m` ending a drag that began with the window at `origin`.
    pub fn drop_at(&mut self, origin: Option<(i64, i64)>, m: (i64, i64)) -> (r: Release)
        ensures
            (*final(self), r) == drop_spec(*old(self), origin, m),
    {
        let moved = match origin {
            None => true,
            Some(o) => apart_exec(o.0, m.0, MOVE_SLACK) || apart_exec(o.1, m.1, MOVE_SLACK),
        };
        if !moved {
            return Release::Click;
        }
        if m.1 <= TOP_SNAP {
            *self = Dock {
                mode: PanelMode::Auto,
                open: false,
                leave_at: None,
                pinned: false,
                dock_x: Some(m.0),
                positioned: self.positioned,
                last_pos: None,
                last_save_at: None,
            };
            return Release::Dock { x: m.0 };
        }
        if self.mode == PanelMode::Auto {
            self.leave_dock_state();
        }
        self.positioned = true;
        self.last_pos = Some(m);
        self.last_save_at = None;
        Release::Place { x: m.0, y: m.1 }
    }

    fn leave_dock_state(&mut self)
        ensures
            *final(self) == undocked(*old(self)),
    {
        self.mode = PanelMode::Normal;
        self.open = false;
        self.leave_at = None;
        self.pinned = false;
        self.dock_x = None;
    }

    /// Leaves the dock: where the window goes (and is saved), if the screen
    /// width `mon` is known.
    pub fn leave_dock(&mut self, cfg: (i64, i64), mon: Option<i64>) -> (r: Option<(i64, i64)>)
        ensures
            (*final(self), r) == leave_dock_spec(*old(self), cfg, mon),
    {
        self.leave_dock_state();
        match mon {
            Some(mw) => {
                let x = home_x_exec(cfg.0, mw, BAR_W);
                let y = if cfg.1 > TOP_SNAP {
                    cfg.1
                } else {
                    HOME_Y
                };
                self.positioned = true;
                self.last_pos = Some((x, y));
                self.last_save_at = None;
                Some((x, y))
            },
            None => {
                self.positioned = false;
                None
            },
        }
    }

    /// An action on the bar; `Some` where a docked bar was brought back and
    /// its window goes (and is saved).
    pub fn on_action(&mut self, action: Action, cfg: (i64, i64), mon: Option<i64>) -> (r: Option<(i64, i64)>)
        ensures
            (*final(self), r) == action_spec(*old(self), action, cfg, mon),
    {
        let needs_normal = match action {
            Action::Exit | Action::Refresh | Action::Manage => false,
            _ => true,
        };
        if self.mode == PanelMode::Auto && needs_normal {
            self.leave_dock(cfg, mon)
        } else {
            None
        }
    }

    /// First placement of the normal card `want_w` wide.
    pub fn first_place(&mut self, sized: bool, cfg: (i64, i64), mon: Option<i64>, want_w: i64) -> (r: Option<(i64, i64)>)
        ensures
            (*final(self), r) == first_place_spec(*old(self), sized, cfg, mon, want_w),
    {
        if !sized || self.positioned {
            return None;
        }
        match mon {
            Some(mw) => {
                let x = home_x_exec(cfg.0, mw, want_w);
                let y = if cfg.1 >= 0 {
                    cfg.1
                } else {
                    HOME_Y
                };
                self.positioned = true;
                self.last_pos = Some((x, y));
                self.last_save_at = None;
                Some((x, y))
            },
            None => None,
        }
    }

    /// The position to write back this frame, if any.
    pub fn heartbeat(&mut self, cur: Option<(i64, i64)>, now: u64) -> (r: Option<(i64, i64)>)
        ensures
            (*final(self), r) == heartbeat_spec(*old(self), cur, now),
    {
        if self.mode != PanelMode::Normal || !self.positioned {
            return None;
        }
        let c = match cur {
            Some(c) => c,
            None => return None,
        };
        let changed = match self.last_pos {
            Some(p) => apart_exec(p.0, c.0, SAVE_SLACK) || apart_exec(p.1, c.1, SAVE_SLACK),
            None => true,
        };
        if !changed {
            return None;
        }
        match self.last_save_at {
            Some(t) => {
                if now < t || now - t < SAVE_GAP_MS {
                    return None;
                }
            },
            None => {},
        }
        self.last_pos = Some(c);
        self.last_save_at = Some(now);
        Some(c)
    }

    /// The column to send the docked window to at the top edge this frame,
    /// if any.
    pub fn pin(&mut self, cur: Option<(i64, i64)>, dragging: bool, cfg_x: i64, mon: Option<i64>) -> (r: Option<i64>)
        ensures
            (*final(self), r) == pin_spec(*old(self), cur, dragging, cfg_x, mon),
    {
        if self.dock_x.is_none() {
            match mon {
                Some(mw) => {
                    self.dock_x = Some(home_x_exec(cfg_x, mw, BAR_W));
                },
                None => {},
            }
        }
        match self.dock_x {
            Some(x) => {
                let drifted = match cur {
                    None => true,
                    Some(c) => apart_exec(c.0, x, PIN_SLACK) || apart_exec(c.1, 0, PIN_SLACK),
                };
                if !dragging && (!self.pinned || drifted) {
                    self.pinned = true;
                    Some(x)
                } else {
                    None
                }
            },
            None => None,
        }
    }
}

/// Law: the mode is kept across a restart by the saved position alone: a
/// drop that docks saves a top edge that starts docked, and a drop that
/// places the card saves one that starts normal, as the state now is.
pub proof fn lemma_drop_survives_restart(d: Dock, origin: Option<(i64, i64)>, m: (i64, i64))
    ensures
        ({
            let (d2, rel) = drop_spec(d, origin, m);
            &&& rel matches Release::Dock { x } ==> start_mode(0) == d2.mode && d2.mode == PanelMode::Auto
            &&& rel matches Release::Place { x, y } ==> start_mode(y as int) == d2.mode && d2.mode
                == PanelMode::Normal
            &&& rel == Release::Click ==> d2 == d
        }),
{
}

/// Law: a bar brought back from the dock is never put in the top band, so
/// the next start does not dock it.
pub proof fn lemma_leave_dock_clears_band(d: Dock, cfg: (i64, i64), mon: Option<i64>)
    ensures
        ({
            let (d2, p) = leave_dock_spec(d, cfg, mon);
            &&& d2.mode == PanelMode::Normal
            &&& p matches Some(q) ==> !near_top(q.1 as int) && start_mode(q.1 as int) == PanelMode::Normal
        }),
{
}

/// Law: a docked bar the pointer left folds once `AUTO_LEAVE_MS` have passed
/// without the pointer coming back, and opens again when it comes back.
pub proof fn lemma_leave_folds(d: Dock, t0: u64, t: u64)
    requires
        d.leave_at is None,
        t >= t0 + AUTO_LEAVE_MS,
    ensures
        !hover_spec(hover_spec(d, false, false, true, t0), false, false, false, t).open,
        hover_spec(hover_spec(hover_spec(d, false, false, true, t0), false, false, false, t), false, true, false, t).open,
{
}

/// Law: after a write of the position, none follows within `SAVE_GAP_MS`.
pub proof fn lemma_saves_are_spaced(d: Dock, c1: Option<(i64, i64)>, c2: Option<(i64, i64)>, t1: u64, t2: u64)
    requires
        heartbeat_spec(d, c1, t1).1 is Some,
        t1 <= t2 < t1 + SAVE_GAP_MS,
    ensures
        heartbeat_spec(heartbeat_spec(d, c1, t1).0, c2, t2).1 is None,
{
}

} // verus!
