//! The bar: its buttons, what one frame shows (a snapshot of the shared
//! state), and what clicking a button or confirming the time picker does to
//! the shared state. Drawing and window handling are the application's job.
use crate::state::{report_opened, same_rest, ExpMetrics, Page, PickState, Shared, TimePickKind};
use crate::util::{
    boss_shows, boss_view, clock_spec, date_ok, datetime_ok, epoch_secs, fmt_clock, next_day_spec,
    next_occurrence, punch_shows, punch_view, thousands, thousands_spec, time_ok, CalDate, ClockTime,
    DateTime, TimerUi,
};
use vstd::prelude::*;
use vstd::string::*;

verus! {

/// A button of the bar (the four in the two rows and the four tool icons).
#[derive(Debug, Clone, Copy, PartialEq, Eq, Structural)]
pub enum Action {
    Report,
    Manage,
    Punch,
    Boss,
    /// Close the program (tool icon).
    Exit,
    /// Clear the EXP samples (tool icon).
    Refresh,
    /// Open/close the EXP log page (tool icon).
    Log,
    /// Open/close the about page (tool icon).
    About,
}

impl Action {
    /// The two button rows (the tool icons are not in them).
    pub fn rows() -> (r: Vec<Vec<Action>>)
        ensures
            r@.len() == 2,
            r@[0]@ == seq![Action::Report, Action::Manage],
            r@[1]@ == seq![Action::Boss, Action::Punch],
    {
        let a = vec![Action::Report, Action::Manage];
        let b = vec![Action::Boss, Action::Punch];
        let r = vec![a, b];
        r
    }

    /// The fixed label (the two timers show their state instead, see [`button_text`]).
    pub fn label(self) -> (r: &'static str)
        ensures
            r@ == label_spec(self),
    {
        match self {
            Action::Report => "上报数据",
            Action::Manage => "管理数据",
            Action::Punch => "999打卡",
            Action::Boss => "BOSS",
            Action::Exit => "关闭",
            Action::Refresh => "重置",
            Action::Log => "日志",
            Action::About => "关于",
        }
    }

    /// Only "上报数据" is the highlighted button.
    pub fn primary(self) -> (r: bool)
        ensures
            r == (self == Action::Report),
    {
        match self {
            Action::Report => true,
            _ => false,
        }
    }
}

/// The fixed label of each action.
pub open spec fn label_spec(a: Action) -> Seq<char> {
    match a {
        Action::Report => "上报数据"@,
        Action::Manage => "管理数据"@,
        Action::Punch => "999打卡"@,
        Action::Boss => "BOSS"@,
        Action::Exit => "关闭"@,
        Action::Refresh => "重置"@,
        Action::Log => "日志"@,
        Action::About => "关于"@,
    }
}

/// Everything one frame of the bar shows.
#[derive(Debug, Clone)]
pub struct BarData {
    pub exp_min: String,
    pub exp_hour: String,
    /// Sampled time (samples × 5 s), clock style.
    pub test_time: String,
    /// EXP gained in the current segment.
    pub exp_cum: String,
    /// PK rank as sent; `None` shows `-`.
    pub pk: Option<u32>,
    /// The spark line, when there are samples.
    pub spark: Option<[i64; 12]>,
    pub punch: TimerUi,
    pub boss: TimerUi,
}

/// The text on a button: the timers' live state, else the fixed label.
pub fn button_text(act: Action, data: &BarData) -> (r: &str)
    ensures
        r@ == match act {
            Action::Punch => data.punch.text@,
            Action::Boss => data.boss.text@,
            _ => label_spec(act),
        },
{
    match act {
        Action::Punch => data.punch.text.as_str(),
        Action::Boss => data.boss.text.as_str(),
        _ => act.label(),
    }
}

/// The timer state behind a button, for the two timer buttons.
pub fn timer_for(act: Action, data: &BarData) -> (r: Option<&TimerUi>)
    ensures
        match act {
            Action::Punch => r == Some(&data.punch),
            Action::Boss => r == Some(&data.boss),
            _ => r is None,
        },
{
    match act {
        Action::Punch => Some(&data.punch),
        Action::Boss => Some(&data.boss),
        _ => None,
    }
}

/// The text each button's width is laid out for (the widest state it
/// usually shows); the tool icons take no part.
pub fn sizing_text(act: Action) -> (r: &'static str)
    ensures
        r@ == match act {
            Action::Report => "上报数据"@,
            Action::Manage => "管理数据"@,
            Action::Punch => "999打卡 11h"@,
            Action::Boss => "BOSS 无"@,
            _ => ""@,
        },
{
    match act {
        Action::Report => "上报数据",
        Action::Manage => "管理数据",
        Action::Punch => "999打卡 11h",
        Action::Boss => "BOSS 无",
        _ => "",
    }
}

/// A figure, or `-` when there are no samples.
pub open spec fn figure(have: bool, text: Seq<char>) -> Seq<char> {
    if have { text } else { seq!['-'] }
}

fn dash() -> (r: String)
    ensures
        r@ == seq!['-'],
{
    let mut s = String::new();
    crate::text::push_char(&mut s, '-');
    s
}

/// What the bar shows at local time `now`: the figures (or `-` without
/// samples), the PK rank, the spark line and the two timer buttons.
pub fn bar_data(g: &Shared, now: DateTime) -> (r: BarData)
    requires
        datetime_ok(now),
        g.cfg.punch matches Some((d, t)) ==> date_ok(d) && time_ok(t),
        g.cfg.boss matches Some((d, t)) ==> date_ok(d) && time_ok(t),
        g.exp.per_min != i64::MIN && g.exp.per_hour != i64::MIN && g.exp.cum_gain != i64::MIN,
    ensures
        r.exp_min@ == figure(g.exp.n_hour > 0, thousands_spec(g.exp.per_min as int)),
        r.exp_hour@ == figure(g.exp.n_hour > 0, thousands_spec(g.exp.per_hour as int)),
        r.test_time@ == figure(g.exp.n_hour > 0, clock_spec(g.exp.n_hour * 5)),
        r.exp_cum@ == figure(g.exp.n_hour > 0, thousands_spec(g.exp.cum_gain as int)),
        r.pk == g.pk.rank,
        r.spark == (if g.exp.n_hour > 0 { Some(g.exp.spark) } else { None }),
        punch_shows(now, g.cfg.punch, r.punch),
        boss_shows(now, g.cfg.boss, r.boss),
{
    let have = g.exp.n_hour > 0;
    let exp_min = if have {
        thousands(g.exp.per_min)
    } else {
        dash()
    };
    let exp_hour = if have {
        thousands(g.exp.per_hour)
    } else {
        dash()
    };
    let test_time = if have {
        fmt_clock((g.exp.n_hour as i64) * 5)
    } else {
        dash()
    };
    let exp_cum = if have {
        thousands(g.exp.cum_gain)
    } else {
        dash()
    };
    let spark = if have {
        Some(g.exp.spark)
    } else {
        None
    };
    let punch = punch_view(now, g.cfg.punch);
    let boss = boss_view(now, g.cfg.boss);
    BarData { exp_min, exp_hour, test_time, exp_cum, pk: g.pk.rank, spark, punch, boss }
}

/// Actions that first bring a docked (auto) bar back to normal: all but
/// close, refresh and the data page.
pub fn wants_normal(action: Action) -> (r: bool)
    ensures
        r == !(action == Action::Exit || action == Action::Refresh || action == Action::Manage),
{
    match action {
        Action::Exit | Action::Refresh | Action::Manage => false,
        _ => true,
    }
}

/// The page a toggle leads to: closed when it is already open.
pub open spec fn toggled(cur: Page, p: Page) -> Page {
    if cur == p { Page::Closed } else { p }
}

impl Shared {
    /// A click on a button, `now_hm` being the local hour and minute: the
    /// report, log, about and picker pages toggle (opening the report resets
    /// its form, opening a picker preselects the current time); refresh
    /// asks the sampler to clear and blanks the figures at once. Closing the
    /// program and opening the data page change nothing here.
    pub fn click(&mut self, action: Action, now_hm: (u32, u32))
        ensures
            match action {
                Action::Report => if old(self).page == Page::Report {
                    final(self).page == Page::Closed && final(self).report == old(self).report
                } else {
                    final(self).page == Page::Report && report_opened(*old(self), final(self).report)
                },
                Action::Log => final(self).page == toggled(old(self).page, Page::Log),
                Action::About => final(self).page == toggled(old(self).page, Page::About),
                Action::Punch => final(self).page == toggled(old(self).page, Page::TimePick(TimePickKind::Punch))
                    && (old(self).page != Page::TimePick(TimePickKind::Punch) ==> final(self).pick == (PickState { h: now_hm.0, m: now_hm.1 })),
                Action::Boss => final(self).page == toggled(old(self).page, Page::TimePick(TimePickKind::Boss))
                    && (old(self).page != Page::TimePick(TimePickKind::Boss) ==> final(self).pick == (PickState { h: now_hm.0, m: now_hm.1 })),
                Action::Refresh => final(self).clear_queue && final(self).exp.is_zero() && final(self).page == old(self).page,
                _ => final(self).page == old(self).page && final(self).clear_queue == old(self).clear_queue,
            },
            same_rest(*old(self), *final(self)),
            final(self).sampler == old(self).sampler,
            final(self).exp_log@ == old(self).exp_log@,
            action != Action::Report ==> final(self).report == old(self).report,
            action != Action::Refresh ==> final(self).exp == old(self).exp && final(self).clear_queue
                == old(self).clear_queue,
            !(action == Action::Punch || action == Action::Boss) ==> final(self).pick == old(self).pick,
    {
        match action {
            Action::Report => {
                if self.page == Page::Report {
                    self.page = Page::Closed;
                } else {
                    self.init_report();
                    self.page = Page::Report;
                }
            },
            Action::Log => {
                self.page = if self.page == Page::Log {
                    Page::Closed
                } else {
                    Page::Log
                };
            },
            Action::About => {
                self.page = if self.page == Page::About {
                    Page::Closed
                } else {
                    Page::About
                };
            },
            Action::Refresh => {
                self.clear_queue = true;
                self.exp = ExpMetrics::default();
            },
            Action::Punch | Action::Boss => {
                let kind = if action == Action::Punch {
                    TimePickKind::Punch
                } else {
                    TimePickKind::Boss
                };
                if self.page == Page::TimePick(kind) {
                    self.page = Page::Closed;
                } else {
                    self.pick = PickState { h: now_hm.0, m: now_hm.1 };
                    self.page = Page::TimePick(kind);
                }
            },
            _ => {},
        }
    }

    /// Confirms the picker at local time `now`: the 999 punch goes to the
    /// next moment with the picked hour and minute that is still ahead (so
    /// confirming an overdue punch rolls it to the next day); the boss timer
    /// starts at the picked time today. Hours and minutes are taken modulo
    /// 24 and 60.
    pub fn apply_pick(&mut self, kind: TimePickKind, now: DateTime)
        requires
            datetime_ok(now),
            now.date.y < 262_142,
        ensures
            ({
                let t = ClockTime { h: (old(self).pick.h % 24) as u32, m: (old(self).pick.m % 60) as u32, s: 0 };
                match kind {
                    TimePickKind::Punch => final(self).cfg.punch == Some(
                        if epoch_secs(DateTime { date: now.date, time: t }) > epoch_secs(now) {
                            (now.date, t)
                        } else {
                            (next_day_spec(now.date), t)
                        },
                    ) && final(self).cfg.boss == old(self).cfg.boss,
                    TimePickKind::Boss => final(self).cfg.boss == Some((now.date, t))
                        && final(self).cfg.punch == old(self).cfg.punch,
                }
            }),
            final(self).cfg.punch matches Some((d, t)) ==> (old(self).cfg.punch == final(self).cfg.punch || (date_ok(d) && time_ok(t))),
            final(self).cfg.boss matches Some((d, t)) ==> (old(self).cfg.boss == final(self).cfg.boss || (date_ok(d) && time_ok(t))),
    {
        let t = ClockTime { h: self.pick.h % 24, m: self.pick.m % 60, s: 0 };
        match kind {
            TimePickKind::Punch => {
                let nxt = next_occurrence(now, t);
                self.cfg.punch = Some((nxt.date, nxt.time));
            },
            TimePickKind::Boss => {
                self.cfg.boss = Some((now.date, t));
            },
        }
    }
}

} // verus!
