//! The settings file `data.ini`: report form defaults (`[report]`), the two
//! timers (`[timers]`), OCR labels (`[ocr]`), the cached user id (`[meta]`),
//! the server choice (`[net]`) and the bar's last position (`[panel]`).
//!
//! A minimal INI: one entry per line, `[section]` headers and `key=value`
//! pairs, whole-line comments starting with `;` or `#`; a key given twice
//! keeps its last value. Where the file lives and reading/writing it is the
//! application's job.
//!
//! The bar position is kept in thousandths of a logical pixel, written as a
//! plain decimal (`240.5`, `-1`); `-1` (−1000 here) means "not recorded".
use crate::text::{
    char_vec, dec, digit, digit_char, int_dec, is_ws, pad2, push_char, push_dec, push_int, push_pad2, string_of,
    trim_end_spec, trim_spec, trim_start_spec, eq_ignore_ascii_case, eq_ignore_ascii_case_spec,
};
use crate::util::{CalDate, ClockTime, date_ok, time_ok};
use vstd::prelude::*;
use vstd::string::*;

verus! {

/// The two layouts of the bar; runtime only, never written to the file.
#[derive(Debug, Clone, Copy, PartialEq, Eq, Structural)]
pub enum PanelMode {
    /// Floating freely.
    Normal,
    /// Docked at the top edge, collapsed until hovered.
    Auto,
}

/// "Not recorded" for a panel coordinate (−1 px).
pub const PANEL_UNSET: i64 = -1000;

/// The whole persistent configuration.
#[derive(Debug, Clone)]
pub struct AppConfig {
    pub level: u32,
    pub job: String,
    pub map: String,
    /// true = solo, false = party.
    pub mode_solo: bool,
    pub power: u64,
    /// 999 punch target: date and time of day.
    pub punch: Option<(CalDate, ClockTime)>,
    /// Boss timer start: date and time of day.
    pub boss: Option<(CalDate, ClockTime)>,
    pub exp_label: String,
    pub level_label: String,
    /// Cached user id (md5 hex of the board serial).
    pub uid_cache: Option<String>,
    /// true = local test server, false = production.
    pub net_local: bool,
    /// Bar's top-left x at the last exit, in 1/1000 px; `PANEL_UNSET` if none.
    pub panel_x: i64,
    /// Bar's top-left y at the last exit, in 1/1000 px; `PANEL_UNSET` if none.
    pub panel_y: i64,
}

impl AppConfig {
    /// Empty strings, zero numbers, no timers, production server, no position.
    pub fn default_config() -> (r: Self)
        ensures
            r.level == 0,
            r.job@ == Seq::<char>::empty(),
            r.map@ == Seq::<char>::empty(),
            !r.mode_solo,
            r.power == 0,
            r.punch is None,
            r.boss is None,
            r.exp_label@ == Seq::<char>::empty(),
            r.level_label@ == Seq::<char>::empty(),
            r.uid_cache is None,
            !r.net_local,
            r.panel_x == PANEL_UNSET,
            r.panel_y == PANEL_UNSET,
    {
        AppConfig {
            level: 0,
            job: String::new(),
            map: String::new(),
            mode_solo: false,
            power: 0,
            punch: None,
            boss: None,
            exp_label: String::new(),
            level_label: String::new(),
            uid_cache: None,
            net_local: false,
            panel_x: PANEL_UNSET,
            panel_y: PANEL_UNSET,
        }
    }

    /// Defaults of the report form: (level, job, map, solo, power).
    pub fn report_defaults(&self) -> (r: (u32, String, String, bool, u64))
        ensures
            r.0 == self.level,
            r.1 == self.job,
            r.2 == self.map,
            r.3 == self.mode_solo,
            r.4 == self.power,
    {
        (self.level, self.job.clone(), self.map.clone(), self.mode_solo, self.power)
    }
}

impl Default for AppConfig {
    fn default() -> (r: Self)
        ensures
            r.level == 0,
            r.job@ == Seq::<char>::empty(),
            r.map@ == Seq::<char>::empty(),
            !r.mode_solo,
            r.power == 0,
            r.punch is None,
            r.boss is None,
            r.exp_label@ == Seq::<char>::empty(),
            r.level_label@ == Seq::<char>::empty(),
            r.uid_cache is None,
            !r.net_local,
            r.panel_x == PANEL_UNSET,
            r.panel_y == PANEL_UNSET,
    {
        AppConfig::default_config()
    }
}

// ---------------------------------------------------------------------------
// The INI model
// ---------------------------------------------------------------------------

/// One `key=value` pair and the section it stood in.
#[derive(Debug)]
pub struct IniEntry {
    pub section: String,
    pub key: String,
    pub value: String,
}

/// A parsed INI file: its pairs in file order.
#[derive(Debug)]
pub struct Ini {
    pub entries: Vec<IniEntry>,
}

/// An entry as text triples (section, key, value).
pub open spec fn entry_view(e: IniEntry) -> (Seq<char>, Seq<char>, Seq<char>) {
    (e.section@, e.key@, e.value@)
}

/// The entries of an INI as text triples.
pub open spec fn ini_view(ini: Ini) -> Seq<(Seq<char>, Seq<char>, Seq<char>)> {
    ini.entries@.map_values(|e: IniEntry| entry_view(e))
}

/// End of the line starting at `i`: the index of the next `\n`, or the length.
pub open spec fn line_end(s: Seq<char>, i: int) -> int
    decreases s.len() - i,
{
    if i >= s.len() || i < 0 || s[i] == '\n' {
        i
    } else {
        line_end(s, i + 1)
    }
}

/// The lines of `s` from position `i` on (split at `\n`).
pub open spec fn lines_from(s: Seq<char>, i: int) -> Seq<Seq<char>>
    decreases s.len() + 1 - i,
{
    if i > s.len() || i < 0 {
        Seq::empty()
    } else {
        let e = line_end(s, i);
        if e < i || e > s.len() {
            Seq::empty()
        } else {
            seq![s.subrange(i, e)] + lines_from(s, e + 1)
        }
    }
}

/// Position of the first `=` in `t` at or after `i`, or the length.
pub open spec fn first_eq(t: Seq<char>, i: int) -> int
    decreases t.len() - i,
{
    if i >= t.len() || i < 0 || t[i] == '=' {
        i
    } else {
        first_eq(t, i + 1)
    }
}

/// One line applied to the parse state (current section, entries so far).
pub open spec fn ini_step(
    sec: Seq<char>,
    acc: Seq<(Seq<char>, Seq<char>, Seq<char>)>,
    line: Seq<char>,
) -> (Seq<char>, Seq<(Seq<char>, Seq<char>, Seq<char>)>) {
    let t = trim_spec(line);
    if t.len() == 0 || t[0] == ';' || t[0] == '#' {
        (sec, acc)
    } else if t[0] == '[' && t.last() == ']' {
        (trim_spec(t.subrange(1, t.len() - 1)), acc)
    } else {
        let eq = first_eq(t, 0);
        if eq < t.len() {
            let key = trim_spec(t.subrange(0, eq));
            let val = trim_spec(t.subrange(eq + 1, t.len() as int));
            if key.len() > 0 {
                (sec, acc.push((sec, key, val)))
            } else {
                (sec, acc)
            }
        } else {
            (sec, acc)
        }
    }
}

/// The parse state after the first `k` lines.
pub open spec fn ini_fold(lines: Seq<Seq<char>>, k: int) -> (Seq<char>, Seq<(Seq<char>, Seq<char>, Seq<char>)>)
    decreases k,
{
    if k <= 0 {
        (Seq::empty(), Seq::empty())
    } else {
        let (sec, acc) = ini_fold(lines, k - 1);
        ini_step(sec, acc, lines[k - 1])
    }
}

/// The entries of an INI text.
pub open spec fn parse_ini_spec(text: Seq<char>) -> Seq<(Seq<char>, Seq<char>, Seq<char>)> {
    let ls = lines_from(text, 0);
    ini_fold(ls, ls.len() as int).1
}

/// The value of the last entry `key` in section `sec`.
pub open spec fn lookup(es: Seq<(Seq<char>, Seq<char>, Seq<char>)>, sec: Seq<char>, key: Seq<char>) -> Option<Seq<char>>
    decreases es.len(),
{
    if es.len() == 0 {
        None
    } else if es.last().0 == sec && es.last().1 == key {
        Some(es.last().2)
    } else {
        lookup(es.drop_last(), sec, key)
    }
}

fn is_ws_exec(c: char) -> (r: bool)
    ensures
        r == is_ws(c),
{
    let u = c as u32;
    (0x09 <= u && u <= 0x0d) || u == 0x20 || u == 0x85 || u == 0xa0 || u == 0x1680 || (0x2000 <= u
        && u <= 0x200a) || u == 0x2028 || u == 0x2029 || u == 0x202f || u == 0x205f || u == 0x3000
}

proof fn lemma_trim_start_step(v: Seq<char>, lo: int, hi: int)
    requires
        0 <= lo < hi <= v.len(),
        is_ws(v[lo]),
    ensures
        trim_start_spec(v.subrange(lo, hi)) == trim_start_spec(v.subrange(lo + 1, hi)),
{
    assert(v.subrange(lo, hi).drop_first() =~= v.subrange(lo + 1, hi));
}

proof fn lemma_trim_end_step(v: Seq<char>, lo: int, hi: int)
    requires
        0 <= lo < hi <= v.len(),
        is_ws(v[hi - 1]),
    ensures
        trim_end_spec(v.subrange(lo, hi)) == trim_end_spec(v.subrange(lo, hi - 1)),
{
    assert(v.subrange(lo, hi).drop_last() =~= v.subrange(lo, hi - 1));
}

/// Bounds of `v[a..b]` without leading and trailing whitespace.
pub(crate) fn trim_bounds(v: &Vec<char>, a: usize, b: usize) -> (r: (usize, usize))
    requires
        a <= b <= v@.len(),
    ensures
        a <= r.0 <= r.1 <= b,
        v@.subrange(r.0 as int, r.1 as int) == trim_spec(v@.subrange(a as int, b as int)),
{
    let mut lo = a;
    while lo < b && is_ws_exec(v[lo])
        invariant
            a <= lo <= b <= v@.len(),
            trim_start_spec(v@.subrange(a as int, b as int)) == trim_start_spec(v@.subrange(lo as int, b as int)),
        decreases b - lo,
    {
        proof {
            lemma_trim_start_step(v@, lo as int, b as int);
        }
        lo = lo + 1;
    }
    proof {
        if lo < b {
            assert(v@.subrange(lo as int, b as int)[0] == v@[lo as int]);
        }
        assert(trim_start_spec(v@.subrange(lo as int, b as int)) == v@.subrange(lo as int, b as int));
    }
    let mut hi = b;
    while hi > lo && is_ws_exec(v[hi - 1])
        invariant
            a <= lo <= hi <= b <= v@.len(),
            trim_end_spec(v@.subrange(lo as int, b as int)) == trim_end_spec(v@.subrange(lo as int, hi as int)),
        decreases hi - lo,
    {
        proof {
            lemma_trim_end_step(v@, lo as int, hi as int);
        }
        hi = hi - 1;
    }
    proof {
        if hi > lo {
            assert(v@.subrange(lo as int, hi as int).last() == v@[hi - 1]);
        }
        assert(trim_end_spec(v@.subrange(lo as int, hi as int)) == v@.subrange(lo as int, hi as int));
    }
    (lo, hi)
}

/// The characters `v[a..b]` as a `String`.
pub(crate) fn slice_string(v: &Vec<char>, a: usize, b: usize) -> (s: String)
    requires
        a <= b <= v@.len(),
    ensures
        s@ == v@.subrange(a as int, b as int),
{
    let mut out = String::new();
    let mut i = a;
    while i < b
        invariant
            a <= i <= b <= v@.len(),
            out@ == v@.subrange(a as int, i as int),
        decreases b - i,
    {
        push_char(&mut out, v[i]);
        assert(v@.subrange(a as int, i + 1) =~= v@.subrange(a as int, i as int).push(v@[i as int]));
        i = i + 1;
    }
    out
}

pub(crate) proof fn lemma_line_end_props(s: Seq<char>, i: int)
    requires
        0 <= i <= s.len(),
    ensures
        i <= line_end(s, i) <= s.len(),
        line_end(s, i) < s.len() ==> s[line_end(s, i)] == '\n',
        forall|k: int| i <= k < line_end(s, i) ==> s[k] != '\n',
    decreases s.len() - i,
{
    if i < s.len() && s[i] != '\n' {
        lemma_line_end_props(s, i + 1);
    }
}

pub(crate) proof fn lemma_line_end_found(s: Seq<char>, i: int, e: int)
    requires
        0 <= i <= e <= s.len(),
        e == s.len() || s[e] == '\n',
        forall|k: int| i <= k < e ==> s[k] != '\n',
    ensures
        line_end(s, i) == e,
    decreases e - i,
{
    if i < e {
        lemma_line_end_found(s, i + 1, e);
    }
}

pub(crate) proof fn lemma_first_eq_found(t: Seq<char>, i: int, e: int)
    requires
        0 <= i <= e <= t.len(),
        e == t.len() || t[e] == '=',
        forall|k: int| i <= k < e ==> t[k] != '=',
    ensures
        first_eq(t, i) == e,
    decreases e - i,
{
    if i < e {
        lemma_first_eq_found(t, i + 1, e);
    }
}

/// The line list restarted after one more line.
pub(crate) proof fn lemma_lines_cons(s: Seq<char>, i: int)
    requires
        0 <= i <= s.len(),
    ensures
        lines_from(s, i) == seq![s.subrange(i, line_end(s, i))] + lines_from(s, line_end(s, i) + 1),
{
    lemma_line_end_props(s, i);
}

/// Parses INI text (see [`parse_ini_spec`]).
pub fn parse_ini(text: &str) -> (r: Ini)
    ensures
        ini_view(r) == parse_ini_spec(text@),
{
    let v = char_vec(text);
    let n = v.len();
    let mut entries: Vec<IniEntry> = Vec::new();
    let mut section = String::new();
    let mut start: usize = 0;
    let ghost all = lines_from(v@, 0);
    let ghost mut k: int = 0;
    proof {
        assert(ini_fold(all, 0) == (Seq::<char>::empty(), Seq::<(Seq<char>, Seq<char>, Seq<char>)>::empty()));
        assert(entries@.map_values(|e: IniEntry| entry_view(e)) =~= Seq::<(Seq<char>, Seq<char>, Seq<char>)>::empty());
        assert(all.subrange(0, 0) + lines_from(v@, 0) =~= all);
    }
    let mut done = false;
    while !done
        invariant
            v@ == text@,
            n == v@.len(),
            all == lines_from(v@, 0),
            0 <= k <= all.len(),
            start <= n,
            !done ==> all == all.subrange(0, k) + lines_from(v@, start as int),
            done ==> k == all.len(),
            ini_fold(all, k) == (section@, entries@.map_values(|e: IniEntry| entry_view(e))),
        decreases (n - start) as int + (if done { 0int } else { 1int }),
    {
        // Find the end of this line.
        let mut e = start;
        while e < n && v[e] != '\n'
            invariant
                start <= e <= n,
                n == v@.len(),
                forall|q: int| start <= q < e ==> v@[q] != '\n',
            decreases n - e,
        {
            e = e + 1;
        }
        proof {
            lemma_line_end_found(v@, start as int, e as int);
            lemma_lines_cons(v@, start as int);
            assert(all.subrange(0, k) + lines_from(v@, start as int) == all);
            assert(all[k] == v@.subrange(start as int, e as int)) by {
                assert((all.subrange(0, k) + lines_from(v@, start as int))[k] == lines_from(v@, start as int)[0]);
            }
            assert(k < all.len());
        }
        let ghost line = v@.subrange(start as int, e as int);
        let ghost before_sec = section@;
        let ghost before_acc = entries@.map_values(|e: IniEntry| entry_view(e));
        let (lo, hi) = trim_bounds(&v, start, e);
        let ghost t = v@.subrange(lo as int, hi as int);
        proof {
            assert(t == trim_spec(line));
        }
        if lo == hi || v[lo] == ';' || v[lo] == '#' {
            proof {
                if lo < hi {
                    assert(t[0] == v@[lo as int]);
                }
            }
        } else if v[lo] == '[' && v[hi - 1] == ']' {
            proof {
                assert(t[0] == v@[lo as int]);
                assert(t.last() == v@[hi - 1]);
            }
            let (a, b) = trim_bounds(&v, lo + 1, hi - 1);
            section = slice_string(&v, a, b);
            proof {
                assert(t.subrange(1, t.len() - 1) =~= v@.subrange(lo + 1, hi - 1));
            }
        } else {
            proof {
                assert(t[0] == v@[lo as int]);
                assert(t.last() == v@[hi - 1]);
            }
            let mut q = lo;
            while q < hi && v[q] != '='
                invariant
                    lo <= q <= hi <= v@.len(),
                    forall|p: int| lo <= p < q ==> v@[p] != '=',
                decreases hi - q,
            {
                q = q + 1;
            }
            proof {
                assert forall|p: int| 0 <= p < q - lo implies t[p] != '=' by {
                    assert(t[p] == v@[lo + p]);
                }
                if q < hi {
                    assert(t[q - lo] == v@[q as int]);
                }
                lemma_first_eq_found(t, 0, q - lo);
            }
            if q < hi {
                let (ka, kb) = trim_bounds(&v, lo, q);
                let (va, vb) = trim_bounds(&v, q + 1, hi);
                proof {
                    assert(t.subrange(0, q - lo) =~= v@.subrange(lo as int, q as int));
                    assert(t.subrange(q - lo + 1, t.len() as int) =~= v@.subrange(q + 1, hi as int));
                }
                if ka < kb {
                    let key = slice_string(&v, ka, kb);
                    let value = slice_string(&v, va, vb);
                    let sc = section.clone();
                    let ghost old_entries = entries@;
                    entries.push(IniEntry { section: sc, key, value });
                    proof {
                        assert(entries@.map_values(|e: IniEntry| entry_view(e)) =~= old_entries.map_values(
                            |e: IniEntry| entry_view(e),
                        ).push((section@, v@.subrange(ka as int, kb as int), v@.subrange(va as int, vb as int))));
                    }
                }
            }
        }
        proof {
            assert(ini_fold(all, k + 1) == ini_step(before_sec, before_acc, all[k]));
            let kk = k;
            let rest = lines_from(v@, e + 1);
            assert(lines_from(v@, start as int) == seq![line] + rest);
            assert(all == all.subrange(0, kk) + (seq![line] + rest));
            if e < n {
                assert(all.subrange(0, kk + 1) =~= all.subrange(0, kk).push(line));
                assert(all =~= all.subrange(0, kk + 1) + rest);
            } else {
                lemma_lines_end(v@, e as int);
                assert(rest =~= Seq::<Seq<char>>::empty());
                assert(all.len() == kk + 1);
            }
            k = k + 1;
        }
        if e < n {
            start = e + 1;
        } else {
            done = true;
        }
    }
    Ini { entries }
}

pub(crate) proof fn lemma_lines_end(s: Seq<char>, e: int)
    requires
        e == s.len(),
    ensures
        lines_from(s, e + 1) == Seq::<Seq<char>>::empty(),
{
}

proof fn lemma_lookup_found(es: Seq<(Seq<char>, Seq<char>, Seq<char>)>, i: int, sec: Seq<char>, key: Seq<char>)
    requires
        0 <= i < es.len(),
        es[i].0 == sec,
        es[i].1 == key,
        forall|j: int| i < j < es.len() ==> !(es[j].0 == sec && es[j].1 == key),
    ensures
        lookup(es, sec, key) == Some(es[i].2),
    decreases es.len(),
{
    if i < es.len() - 1 {
        assert(es.last() == es[es.len() - 1]);
        lemma_lookup_found(es.drop_last(), i, sec, key);
    }
}

proof fn lemma_lookup_none(es: Seq<(Seq<char>, Seq<char>, Seq<char>)>, sec: Seq<char>, key: Seq<char>)
    requires
        forall|j: int| 0 <= j < es.len() ==> !(es[j].0 == sec && es[j].1 == key),
    ensures
        lookup(es, sec, key) is None,
    decreases es.len(),
{
    if es.len() > 0 {
        assert(es.last() == es[es.len() - 1]);
        lemma_lookup_none(es.drop_last(), sec, key);
    }
}

/// The value of the last `key` in section `sec`.
pub fn get<'a>(ini: &'a Ini, sec: &str, key: &str) -> (r: Option<&'a str>)
    ensures
        match (r, lookup(ini_view(*ini), sec@, key@)) {
            (None, None) => true,
            (Some(v), Some(w)) => v@ == w,
            _ => false,
        },
{
    let s = String::from_str(sec);
    let k = String::from_str(key);
    let n = ini.entries.len();
    let mut i = n;
    let ghost es = ini_view(*ini);
    while i > 0
        invariant
            i <= n,
            n == ini.entries@.len(),
            es == ini_view(*ini),
            s@ == sec@,
            k@ == key@,
            forall|j: int| i <= j < n ==> !(es[j].0 == sec@ && es[j].1 == key@),
        decreases i,
    {
        i = i - 1;
        let e = &ini.entries[i];
        if e.section == s && e.key == k {
            proof {
                assert(es[i as int] == entry_view(*e));
                lemma_lookup_found(es, i as int, sec@, key@);
            }
            return Some(e.value.as_str());
        }
        proof {
            assert(es[i as int] == entry_view(*e));
        }
    }
    proof {
        lemma_lookup_none(es, sec@, key@);
    }
    None
}

// ---------------------------------------------------------------------------
// Numbers
// ---------------------------------------------------------------------------

/// Every character is an ASCII digit.
pub open spec fn all_digits(s: Seq<char>) -> bool {
    forall|i: int| 0 <= i < s.len() ==> '0' <= #[trigger] s[i] <= '9'
}

/// The value of a digit string.
pub open spec fn digits_val(s: Seq<char>) -> int
    decreases s.len(),
{
    if s.len() == 0 {
        0
    } else {
        digits_val(s.drop_last()) * 10 + (s.last() as int - 48)
    }
}

/// std `u32`/`u64` parsing: an optional `+`, then at least one digit, and
/// no more than `max`.
pub open spec fn parse_uint_spec(s: Seq<char>, max: int) -> Option<int> {
    let b = if s.len() > 0 && s[0] == '+' { s.drop_first() } else { s };
    if b.len() > 0 && all_digits(b) && digits_val(b) <= max {
        Some(digits_val(b))
    } else {
        None
    }
}

proof fn lemma_digits_val_nonneg(s: Seq<char>)
    requires
        all_digits(s),
    ensures
        digits_val(s) >= 0,
    decreases s.len(),
{
    if s.len() > 0 {
        assert(all_digits(s.drop_last())) by {
            assert forall|i: int| 0 <= i < s.drop_last().len() implies '0' <= #[trigger] s.drop_last()[i] <= '9' by {
                assert(s.drop_last()[i] == s[i]);
            }
        }
        lemma_digits_val_nonneg(s.drop_last());
        assert(s.last() == s[s.len() - 1]);
    }
}

/// Value of the digit run `v[a..b]`, `None` when it is not all digits or
/// exceeds `max`.
pub(crate) fn digits_in(v: &Vec<char>, a: usize, b: usize, max: u64) -> (r: Option<u64>)
    requires
        a <= b <= v@.len(),
    ensures
        match r {
            Some(x) => all_digits(v@.subrange(a as int, b as int)) && x == digits_val(v@.subrange(a as int, b as int))
                && x <= max,
            None => !all_digits(v@.subrange(a as int, b as int)) || digits_val(v@.subrange(a as int, b as int)) > max,
        },
{
    let mut acc: u64 = 0;
    let mut i = a;
    let mut over = false;
    while i < b
        invariant
            a <= i <= b <= v@.len(),
            all_digits(v@.subrange(a as int, i as int)),
            !over ==> acc == digits_val(v@.subrange(a as int, i as int)) && acc <= max,
            over ==> digits_val(v@.subrange(a as int, i as int)) > max,
        decreases b - i,
    {
        let c = v[i];
        let ghost pre = v@.subrange(a as int, i as int);
        let ghost cur = v@.subrange(a as int, i + 1);
        proof {
            assert(cur.drop_last() =~= pre);
            assert(cur.last() == c);
        }
        if !('0' <= c && c <= '9') {
            proof {
                assert(!all_digits(v@.subrange(a as int, b as int))) by {
                    assert(v@.subrange(a as int, b as int)[i - a] == c);
                }
            }
            return None;
        }
        let d = (c as u32 - 48) as u64;
        proof {
            assert forall|q: int| 0 <= q < cur.len() implies '0' <= #[trigger] cur[q] <= '9' by {
                if q < pre.len() {
                    assert(cur[q] == pre[q]);
                }
            }
            lemma_digits_val_nonneg(pre);
        }
        if !over {
            if d > max || acc > (max - d) / 10 {
                over = true;
                proof {
                    assert(digits_val(cur) == acc * 10 + d);
                    if d <= max {
                        assert(acc * 10 + d > max) by (nonlinear_arith)
                            requires
                                acc > (max - d) / 10,
                                d <= max,
                        ;
                    }
                }
            } else {
                proof {
                    assert(acc * 10 + d <= max) by (nonlinear_arith)
                        requires
                            acc <= (max - d) / 10,
                            d <= max,
                    ;
                }
                acc = acc * 10 + d;
            }
        } else {
            proof {
                assert(digits_val(cur) == digits_val(pre) * 10 + d);
                assert(digits_val(pre) * 10 + d > max) by (nonlinear_arith)
                    requires
                        digits_val(pre) > max,
                        max >= 0,
                        d >= 0,
                ;
            }
        }
        i = i + 1;
    }
    if over {
        None
    } else {
        Some(acc)
    }
}

/// Parses an unsigned integer up to `max` the way std does (see [`parse_uint_spec`]).
pub fn parse_uint(s: &str, max: u64) -> (r: Option<u64>)
    ensures
        match (r, parse_uint_spec(s@, max as int)) {
            (None, None) => true,
            (Some(x), Some(y)) => x == y,
            _ => false,
        },
{
    let v = char_vec(s);
    let a: usize = if v.len() > 0 && v[0] == '+' {
        1
    } else {
        0
    };
    proof {
        if a == 1 {
            assert(v@.subrange(1, v@.len() as int) =~= s@.drop_first());
        } else {
            assert(v@.subrange(0, v@.len() as int) =~= s@);
        }
    }
    if a == v.len() {
        return None;
    }
    digits_in(&v, a, v.len(), max)
}

/// Position of the first `.` in `s`, or its length.
pub open spec fn first_dot(s: Seq<char>, i: int) -> int
    decreases s.len() - i,
{
    if i >= s.len() || i < 0 || s[i] == '.' {
        i
    } else {
        first_dot(s, i + 1)
    }
}

/// Thousandths from the fraction digits: the first three, padded with zeros.
pub open spec fn frac_milli(f: Seq<char>) -> int {
    if f.len() >= 3 {
        digits_val(f.take(3))
    } else if f.len() == 2 {
        digits_val(f) * 10
    } else if f.len() == 1 {
        digits_val(f) * 100
    } else {
        0
    }
}

/// A plain decimal (`[+-]digits[.digits]`, at least one digit, at most 15
/// before the point) in thousandths; digits past the third decimal are cut.
pub open spec fn parse_milli_spec(s: Seq<char>) -> Option<int> {
    let neg = s.len() > 0 && s[0] == '-';
    let b = if s.len() > 0 && (s[0] == '-' || s[0] == '+') { s.drop_first() } else { s };
    let dot = first_dot(b, 0);
    let ip = b.take(dot);
    let fp = if dot < b.len() { b.skip(dot + 1) } else { Seq::empty() };
    if all_digits(ip) && all_digits(fp) && ip.len() + fp.len() > 0 && ip.len() <= 15 {
        let m = digits_val(ip) * 1000 + frac_milli(fp);
        Some(if neg { -m } else { m })
    } else {
        None
    }
}

proof fn lemma_digits_val_bound(s: Seq<char>, k: nat)
    requires
        all_digits(s),
        s.len() <= k,
    ensures
        0 <= digits_val(s) < crate::sensor::digits::pow10(k),
    decreases s.len(),
{
    reveal_with_fuel(crate::sensor::digits::pow10, 2);
    if s.len() > 0 {
        assert(all_digits(s.drop_last())) by {
            assert forall|i: int| 0 <= i < s.drop_last().len() implies '0' <= #[trigger] s.drop_last()[i] <= '9' by {
                assert(s.drop_last()[i] == s[i]);
            }
        }
        lemma_digits_val_bound(s.drop_last(), (k - 1) as nat);
        assert(s.last() == s[s.len() - 1]);
        let p = crate::sensor::digits::pow10((k - 1) as nat);
        assert(digits_val(s.drop_last()) * 10 + 9 < p * 10) by (nonlinear_arith)
            requires
                0 <= digits_val(s.drop_last()) < p,
        ;
    } else {
        crate::sensor::digits::lemma_pow10_mono(k, k);
    }
}

/// Parses a panel coordinate (see [`parse_milli_spec`]).
pub fn parse_milli(s: &str) -> (r: Option<i64>)
    ensures
        match (r, parse_milli_spec(s@)) {
            (None, None) => true,
            (Some(x), Some(y)) => x == y,
            _ => false,
        },
{
    let v = char_vec(s);
    let n = v.len();
    let neg = n > 0 && v[0] == '-';
    let a: usize = if n > 0 && (v[0] == '-' || v[0] == '+') {
        1
    } else {
        0
    };
    let ghost b = if s@.len() > 0 && (s@[0] == '-' || s@[0] == '+') { s@.drop_first() } else { s@ };
    proof {
        assert(b =~= v@.subrange(a as int, n as int));
    }
    let mut dot = a;
    while dot < n && v[dot] != '.'
        invariant
            a <= dot <= n,
            n == v@.len(),
            forall|q: int| a <= q < dot ==> v@[q] != '.',
        decreases n - dot,
    {
        dot = dot + 1;
    }
    let fa = if dot < n {
        dot + 1
    } else {
        n
    };
    proof {
        lemma_milli_split(v@, a as int, dot as int, fa as int, b);
    }
    let ghost ip = v@.subrange(a as int, dot as int);
    let ghost fp = v@.subrange(fa as int, n as int);
    if dot - a > 15 || (dot - a) + (n - fa) == 0 || !all_digit_chars(&v, a, dot) || !all_digit_chars(&v, fa, n) {
        return None;
    }
    proof {
        lemma_digits_val_bound(ip, 15);
        reveal_with_fuel(crate::sensor::digits::pow10, 16);
    }
    let ipv = match digits_in(&v, a, dot, 999_999_999_999_999) {
        Some(x) => x,
        None => return None,
    };
    let take = if n - fa >= 3 {
        3
    } else {
        n - fa
    };
    proof {
        lemma_frac_prefix(v@, fa as int, take as int, n as int);
        lemma_digits_val_bound(v@.subrange(fa as int, (fa + take) as int), 3);
        reveal_with_fuel(crate::sensor::digits::pow10, 4);
    }
    let fv = match digits_in(&v, fa, fa + take, 999) {
        Some(x) => x,
        None => return None,
    };
    let fm: u64 = if take == 3 {
        fv
    } else if take == 2 {
        fv * 10
    } else if take == 1 {
        fv * 100
    } else {
        0
    };
    let m = (ipv as i64) * 1000 + (fm as i64);
    if neg {
        Some(-m)
    } else {
        Some(m)
    }
}

/// The integer and fraction parts of a decimal after its sign.
proof fn lemma_milli_split(v: Seq<char>, a: int, dot: int, fa: int, b: Seq<char>)
    requires
        0 <= a <= dot <= v.len(),
        b == v.subrange(a, v.len() as int),
        forall|q: int| a <= q < dot ==> v[q] != '.',
        dot == v.len() || v[dot] == '.',
        fa == if dot < v.len() { dot + 1 } else { v.len() as int },
    ensures
        first_dot(b, 0) == dot - a,
        b.take(dot - a) == v.subrange(a, dot),
        (if dot - a < b.len() { b.skip(dot - a + 1) } else { Seq::empty() }) == v.subrange(fa, v.len() as int),
{
    assert forall|q: int| 0 <= q < dot - a implies b[q] != '.' by {
        assert(b[q] == v[a + q]);
    }
    if dot < v.len() {
        assert(b[dot - a] == v[dot]);
    }
    lemma_first_dot_found(b, 0, dot - a);
    assert(b.take(dot - a) =~= v.subrange(a, dot));
    if dot < v.len() {
        assert(b.skip(dot - a + 1) =~= v.subrange(fa, v.len() as int));
    } else {
        assert(v.subrange(fa, v.len() as int) =~= Seq::<char>::empty());
    }
}

/// The first (up to) three fraction digits.
proof fn lemma_frac_prefix(v: Seq<char>, fa: int, take: int, n: int)
    requires
        0 <= fa <= n == v.len(),
        take == if n - fa >= 3 { 3 } else { n - fa },
        all_digits(v.subrange(fa, n)),
    ensures
        all_digits(v.subrange(fa, fa + take)),
        frac_milli(v.subrange(fa, n)) == if take == 3 {
            digits_val(v.subrange(fa, fa + take))
        } else if take == 2 {
            digits_val(v.subrange(fa, fa + take)) * 10
        } else if take == 1 {
            digits_val(v.subrange(fa, fa + take)) * 100
        } else {
            0
        },
{
    let fp = v.subrange(fa, n);
    assert(fp.take(take) =~= v.subrange(fa, fa + take));
    assert forall|q: int| 0 <= q < take implies '0' <= #[trigger] v.subrange(fa, fa + take)[q] <= '9' by {
        assert(v.subrange(fa, fa + take)[q] == fp[q]);
    }
    if take < 3 {
        assert(fp =~= v.subrange(fa, fa + take));
    }
}

/// Whether `v[a..b]` is all ASCII digits.
fn all_digit_chars(v: &Vec<char>, a: usize, b: usize) -> (r: bool)
    requires
        a <= b <= v@.len(),
    ensures
        r == all_digits(v@.subrange(a as int, b as int)),
{
    let mut i = a;
    while i < b
        invariant
            a <= i <= b <= v@.len(),
            all_digits(v@.subrange(a as int, i as int)),
        decreases b - i,
    {
        if !('0' <= v[i] && v[i] <= '9') {
            assert(v@.subrange(a as int, b as int)[i - a] == v@[i as int]);
            return false;
        }
        assert forall|q: int| 0 <= q < i + 1 - a implies '0' <= #[trigger] v@.subrange(a as int, i + 1)[q] <= '9' by {
            if q < i - a {
                assert(v@.subrange(a as int, i + 1)[q] == v@.subrange(a as int, i as int)[q]);
            }
        }
        i = i + 1;
    }
    true
}

proof fn lemma_first_dot_found(t: Seq<char>, i: int, e: int)
    requires
        0 <= i <= e <= t.len(),
        e == t.len() || t[e] == '.',
        forall|k: int| i <= k < e ==> t[k] != '.',
    ensures
        first_dot(t, i) == e,
    decreases e - i,
{
    if i < e {
        lemma_first_dot_found(t, i + 1, e);
    }
}

// ---------------------------------------------------------------------------
// Dates and times in the file
// ---------------------------------------------------------------------------

/// Decimal digits of `n` zero-padded to at least four.
pub open spec fn pad4(n: nat) -> Seq<char> {
    if n < 10 {
        seq!['0', '0', '0'] + dec(n)
    } else if n < 100 {
        seq!['0', '0'] + dec(n)
    } else if n < 1000 {
        seq!['0'] + dec(n)
    } else {
        dec(n)
    }
}

/// `%Y`: four digits for years 0..=9999, otherwise a sign and at least four digits.
pub open spec fn year_text(y: int) -> Seq<char> {
    if 0 <= y <= 9999 {
        pad4(y as nat)
    } else if y > 9999 {
        seq!['+'] + pad4(y as nat)
    } else {
        seq!['-'] + pad4((-y) as nat)
    }
}

/// `%Y-%m-%d`.
pub open spec fn ymd_text(d: CalDate) -> Seq<char> {
    year_text(d.y as int) + seq!['-'] + pad2(d.m as nat) + seq!['-'] + pad2(d.d as nat)
}

/// `%H:%M`.
pub open spec fn hm_text(t: ClockTime) -> Seq<char> {
    pad2(t.h as nat) + seq![':'] + pad2(t.m as nat)
}

/// What chrono `NaiveDate::parse_from_str(s, "%Y-%m-%d")` gives.
pub uninterp spec fn parsed_date(s: Seq<char>) -> Option<CalDate>;

/// What chrono `NaiveTime::parse_from_str(s, "%H:%M")` gives.
pub uninterp spec fn parsed_time(s: Seq<char>) -> Option<ClockTime>;

/// chrono `NaiveDate::parse_from_str(s, "%Y-%m-%d")`. Its result is always a
/// real date in chrono's range, empty text reads as nothing, and a date
/// written as `%Y-%m-%d` with a four-digit year reads back as itself.
#[verifier::external_body]
fn parse_date(s: &str) -> (r: Option<CalDate>)
    ensures
        r == parsed_date(s@),
        r matches Some(d) ==> date_ok(d),
        s@.len() == 0 ==> r is None,
        forall|d: CalDate| date_ok(d) && 0 <= d.y <= 9999 && #[trigger] ymd_text(d) == s@ ==> r == Some(d),
{
    match chrono::NaiveDate::parse_from_str(s, "%Y-%m-%d") {
        Ok(n) => Some(CalDate { y: chrono::Datelike::year(&n), m: chrono::Datelike::month(&n), d: chrono::Datelike::day(&n) }),
        Err(_) => None,
    }
}

/// chrono `NaiveTime::parse_from_str(s, "%H:%M")`. Its result is a real
/// time of day with zero seconds, empty text reads as nothing, and `%H:%M`
/// text reads back as itself.
#[verifier::external_body]
fn parse_time(s: &str) -> (r: Option<ClockTime>)
    ensures
        r == parsed_time(s@),
        r matches Some(t) ==> time_ok(t) && t.s == 0,
        s@.len() == 0 ==> r is None,
        forall|t: ClockTime| time_ok(t) && t.s == 0 && #[trigger] hm_text(t) == s@ ==> r == Some(t),
{
    match chrono::NaiveTime::parse_from_str(s, "%H:%M") {
        Ok(n) => Some(ClockTime { h: chrono::Timelike::hour(&n), m: chrono::Timelike::minute(&n), s: chrono::Timelike::second(&n) }),
        Err(_) => None,
    }
}

/// chrono `NaiveDate::format("%Y-%m-%d")`, rendered to a `String`.
#[verifier::external_body]
fn fmt_date(d: CalDate) -> (r: String)
    requires
        date_ok(d),
    ensures
        r@ == ymd_text(d),
{
    chrono::NaiveDate::from_ymd_opt(d.y, d.m, d.d).unwrap().format("%Y-%m-%d").to_string()
}

/// chrono `NaiveTime::format("%H:%M")`, rendered to a `String`.
#[verifier::external_body]
fn fmt_time(t: ClockTime) -> (r: String)
    requires
        time_ok(t),
    ensures
        r@ == hm_text(t),
{
    chrono::NaiveTime::from_hms_opt(t.h, t.m, t.s).unwrap().format("%H:%M").to_string()
}

// ---------------------------------------------------------------------------
// Config <-> INI
// ---------------------------------------------------------------------------

/// A value of the file, or `dflt` when missing.
pub open spec fn value_or(es: Seq<(Seq<char>, Seq<char>, Seq<char>)>, sec: Seq<char>, key: Seq<char>, dflt: Seq<char>) -> Seq<char> {
    match lookup(es, sec, key) {
        Some(v) => v,
        None => dflt,
    }
}

/// An unsigned number of the file, 0 when missing or not a number.
pub open spec fn uint_or_zero(es: Seq<(Seq<char>, Seq<char>, Seq<char>)>, sec: Seq<char>, key: Seq<char>, max: int) -> int {
    match lookup(es, sec, key) {
        Some(v) => match parse_uint_spec(v, max) {
            Some(x) => x,
            None => 0,
        },
        None => 0,
    }
}

/// A timer of the file: both its date and its time must read.
pub open spec fn timer_of(es: Seq<(Seq<char>, Seq<char>, Seq<char>)>, dkey: Seq<char>, tkey: Seq<char>) -> Option<(CalDate, ClockTime)> {
    let timers = "timers"@;
    let d = match lookup(es, timers, dkey) {
        Some(v) => parsed_date(v),
        None => None,
    };
    let t = match lookup(es, timers, tkey) {
        Some(v) => parsed_time(v),
        None => None,
    };
    match (d, t) {
        (Some(dd), Some(tt)) => Some((dd, tt)),
        _ => None,
    }
}

/// A panel coordinate of the file, `PANEL_UNSET` when missing or unreadable.
pub open spec fn panel_of(es: Seq<(Seq<char>, Seq<char>, Seq<char>)>, key: Seq<char>) -> int {
    match lookup(es, "panel"@, key) {
        Some(v) => match parse_milli_spec(v) {
            Some(x) => x,
            None => PANEL_UNSET as int,
        },
        None => PANEL_UNSET as int,
    }
}

/// How a timer reads back from its written text: empty text gives no timer,
/// and a whole-minute date and time written as `%Y-%m-%d` / `%H:%M` with a
/// four-digit year give themselves.
pub open spec fn timer_reads_back(
    es: Seq<(Seq<char>, Seq<char>, Seq<char>)>,
    dkey: Seq<char>,
    tkey: Seq<char>,
    r: Option<(CalDate, ClockTime)>,
) -> bool {
    &&& lookup(es, "timers"@, dkey) == Some(Seq::<char>::empty()) ==> r is None
    &&& forall|d: CalDate, t: ClockTime|
        date_ok(d) && 0 <= d.y <= 9999 && time_ok(t) && t.s == 0 && lookup(es, "timers"@, dkey) == Some(
            #[trigger] ymd_text(d),
        ) && lookup(es, "timers"@, tkey) == Some(#[trigger] hm_text(t)) ==> r == Some((d, t))
}

fn get_uint(ini: &Ini, sec: &str, key: &str, max: u64) -> (r: u64)
    ensures
        r == uint_or_zero(ini_view(*ini), sec@, key@, max as int),
{
    match get(ini, sec, key) {
        Some(v) => match parse_uint(v, max) {
            Some(x) => x,
            None => 0,
        },
        None => 0,
    }
}

fn get_string(ini: &Ini, sec: &str, key: &str, dflt: &str) -> (r: String)
    ensures
        r@ == value_or(ini_view(*ini), sec@, key@, dflt@),
{
    match get(ini, sec, key) {
        Some(v) => String::from_str(v),
        None => String::from_str(dflt),
    }
}

fn get_timer(ini: &Ini, dkey: &str, tkey: &str) -> (r: Option<(CalDate, ClockTime)>)
    ensures
        r == timer_of(ini_view(*ini), dkey@, tkey@),
        r matches Some((d, t)) ==> date_ok(d) && time_ok(t),
        timer_reads_back(ini_view(*ini), dkey@, tkey@, r),
{
    let d = match get(ini, "timers", dkey) {
        Some(v) => parse_date(v),
        None => None,
    };
    let t = match get(ini, "timers", tkey) {
        Some(v) => parse_time(v),
        None => None,
    };
    match (d, t) {
        (Some(dd), Some(tt)) => Some((dd, tt)),
        _ => None,
    }
}

fn get_panel(ini: &Ini, key: &str) -> (r: i64)
    ensures
        r == panel_of(ini_view(*ini), key@),
{
    match get(ini, "panel", key) {
        Some(v) => match parse_milli(v) {
            Some(x) => x,
            None => PANEL_UNSET,
        },
        None => PANEL_UNSET,
    }
}

impl AppConfig {
    /// The configuration a parsed file describes; missing or unreadable
    /// values take their defaults (solo mode, labels `EXP` / `Lv`).
    pub fn from_ini(ini: &Ini) -> (r: Self)
        ensures
            r.level == uint_or_zero(ini_view(*ini), "report"@, "level"@, u32::MAX as int),
            r.job@ == value_or(ini_view(*ini), "report"@, "job"@, Seq::empty()),
            r.map@ == value_or(ini_view(*ini), "report"@, "map"@, Seq::empty()),
            r.mode_solo == (lookup(ini_view(*ini), "report"@, "mode"@) != Some("party"@)),
            r.power == uint_or_zero(ini_view(*ini), "report"@, "power"@, u64::MAX as int),
            r.punch == timer_of(ini_view(*ini), "punch_date"@, "punch_time"@),
            r.boss == timer_of(ini_view(*ini), "boss_date"@, "boss_time"@),
            r.exp_label@ == value_or(ini_view(*ini), "ocr"@, "exp_label"@, "EXP"@),
            r.level_label@ == value_or(ini_view(*ini), "ocr"@, "level_label"@, "Lv"@),
            match (r.uid_cache, lookup(ini_view(*ini), "meta"@, "uid"@)) {
                (None, None) => true,
                (Some(u), Some(w)) => u@ == w,
                _ => false,
            },
            r.net_local == (lookup(ini_view(*ini), "net"@, "base"@) matches Some(b)
                && eq_ignore_ascii_case_spec(b, "local"@)),
            r.panel_x == panel_of(ini_view(*ini), "x"@),
            r.panel_y == panel_of(ini_view(*ini), "y"@),
            r.punch matches Some((d, t)) ==> date_ok(d) && time_ok(t),
            r.boss matches Some((d, t)) ==> date_ok(d) && time_ok(t),
            timer_reads_back(ini_view(*ini), "punch_date"@, "punch_time"@, r.punch),
            timer_reads_back(ini_view(*ini), "boss_date"@, "boss_time"@, r.boss),
    {
        proof {
            reveal_strlit("");
        }
        let level = get_uint(ini, "report", "level", u32::MAX as u64) as u32;
        let job = get_string(ini, "report", "job", "");
        let map = get_string(ini, "report", "map", "");
        let party = String::from_str("party");
        let mode_solo = match get(ini, "report", "mode") {
            Some(m) => !(String::from_str(m) == party),
            None => true,
        };
        let power = get_uint(ini, "report", "power", u64::MAX);
        let punch = get_timer(ini, "punch_date", "punch_time");
        let boss = get_timer(ini, "boss_date", "boss_time");
        let exp_label = get_string(ini, "ocr", "exp_label", "EXP");
        let level_label = get_string(ini, "ocr", "level_label", "Lv");
        let uid_cache = match get(ini, "meta", "uid") {
            Some(u) => Some(String::from_str(u)),
            None => None,
        };
        let net_local = match get(ini, "net", "base") {
            Some(b) => eq_ignore_ascii_case(b, "local"),
            None => false,
        };
        let panel_x = get_panel(ini, "x");
        let panel_y = get_panel(ini, "y");
        AppConfig {
            level,
            job,
            map,
            mode_solo,
            power,
            punch,
            boss,
            exp_label,
            level_label,
            uid_cache,
            net_local,
            panel_x,
            panel_y,
        }
    }
}

/// Thousandths after the point, without trailing zeros (empty for none).
pub open spec fn frac_text(f: int) -> Seq<char> {
    if f == 0 {
        Seq::empty()
    } else if f % 100 == 0 {
        seq!['.', digit_char(f / 100)]
    } else if f % 10 == 0 {
        seq!['.', digit_char(f / 100), digit_char((f / 10) % 10)]
    } else {
        seq!['.', digit_char(f / 100), digit_char((f / 10) % 10), digit_char(f % 10)]
    }
}

/// A panel coordinate as a plain decimal: `240.5`, `300`, `-1`, `-0.25`.
pub open spec fn milli_text(v: int) -> Seq<char> {
    let a = if v < 0 { -v } else { v };
    (if v < 0 { seq!['-'] } else { Seq::empty() }) + dec((a / 1000) as nat) + frac_text(a % 1000)
}

fn push_milli(out: &mut String, v: i64)
    ensures
        final(out)@ == old(out)@ + milli_text(v as int),
{
    let a: u64 = if v < 0 {
        (0i128 - (v as i128)) as u64
    } else {
        v as u64
    };
    if v < 0 {
        push_char(out, '-');
    }
    push_dec(out, a / 1000);
    let f = a % 1000;
    if f != 0 {
        push_char(out, '.');
        push_char(out, digit(f / 100));
        if f % 100 != 0 {
            push_char(out, digit((f / 10) % 10));
            if f % 10 != 0 {
                push_char(out, digit(f % 10));
            }
        }
    }
    assert(out@ =~= old(out)@ + milli_text(v as int));
}

/// A `key=value` line (without its newline).
pub open spec fn kv_line(key: Seq<char>, val: Seq<char>) -> Seq<char> {
    key + seq!['='] + val
}

/// A `[name]` line (without its newline).
pub open spec fn section_line(name: Seq<char>) -> Seq<char> {
    seq!['['] + name + seq![']']
}

/// Lines joined, each followed by a newline.
pub open spec fn join_lines(ls: Seq<Seq<char>>) -> Seq<char>
    decreases ls.len(),
{
    if ls.len() == 0 {
        Seq::empty()
    } else {
        ls[0] + seq!['\n'] + join_lines(ls.drop_first())
    }
}

/// The written date and time of a timer (empty when unset).
pub open spec fn timer_pairs(dkey: Seq<char>, tkey: Seq<char>, t: Option<(CalDate, ClockTime)>) -> Seq<(Seq<char>, Seq<char>)> {
    match t {
        Some((d, tm)) => seq![(dkey, ymd_text(d)), (tkey, hm_text(tm))],
        None => seq![(dkey, Seq::empty()), (tkey, Seq::empty())],
    }
}

/// `key=value` lines of a list of pairs.
pub open spec fn kv_block(pairs: Seq<(Seq<char>, Seq<char>)>) -> Seq<Seq<char>> {
    pairs.map_values(|p: (Seq<char>, Seq<char>)| kv_line(p.0, p.1))
}

/// A `[name]` line followed by the pairs' lines.
pub open spec fn block(name: Seq<char>, pairs: Seq<(Seq<char>, Seq<char>)>) -> Seq<Seq<char>> {
    seq![section_line(name)] + kv_block(pairs)
}

/// The `[report]` pairs.
pub open spec fn report_pairs(c: AppConfig) -> Seq<(Seq<char>, Seq<char>)> {
    seq![
        ("level"@, dec(c.level as nat)),
        ("job"@, c.job@),
        ("map"@, c.map@),
        ("mode"@, if c.mode_solo { "solo"@ } else { "party"@ }),
        ("power"@, dec(c.power as nat)),
    ]
}

/// The `[timers]` pairs.
pub open spec fn timers_pairs(c: AppConfig) -> Seq<(Seq<char>, Seq<char>)> {
    timer_pairs("punch_date"@, "punch_time"@, c.punch) + timer_pairs("boss_date"@, "boss_time"@, c.boss)
}

/// The `[ocr]` pairs.
pub open spec fn ocr_pairs(c: AppConfig) -> Seq<(Seq<char>, Seq<char>)> {
    seq![("exp_label"@, c.exp_label@), ("level_label"@, c.level_label@)]
}

/// The `[meta]` pairs.
pub open spec fn meta_pairs(c: AppConfig) -> Seq<(Seq<char>, Seq<char>)> {
    match c.uid_cache {
        Some(u) => seq![("uid"@, u@)],
        None => Seq::empty(),
    }
}

/// The `[net]` pairs.
pub open spec fn net_pairs(c: AppConfig) -> Seq<(Seq<char>, Seq<char>)> {
    seq![("base"@, if c.net_local { "local"@ } else { "prod"@ })]
}

/// The `[panel]` pairs.
pub open spec fn panel_pairs(c: AppConfig) -> Seq<(Seq<char>, Seq<char>)> {
    seq![("x"@, milli_text(c.panel_x as int)), ("y"@, milli_text(c.panel_y as int))]
}

/// The lines of the file of a configuration.
pub open spec fn render_lines(c: AppConfig) -> Seq<Seq<char>> {
    block("report"@, report_pairs(c)) + block("timers"@, timers_pairs(c)) + block("ocr"@, ocr_pairs(c)) + block(
        "meta"@,
        meta_pairs(c),
    ) + block("net"@, net_pairs(c)) + block("panel"@, panel_pairs(c))
}

/// The file text of a configuration.
pub open spec fn render_spec(c: AppConfig) -> Seq<char> {
    join_lines(render_lines(c))
}

pub(crate) proof fn lemma_join_push(ls: Seq<Seq<char>>, l: Seq<char>)
    ensures
        join_lines(ls.push(l)) == join_lines(ls) + l + seq!['\n'],
    decreases ls.len(),
{
    if ls.len() == 0 {
        assert(ls.push(l).drop_first() =~= Seq::<Seq<char>>::empty());
        assert(join_lines(Seq::<Seq<char>>::empty()) == Seq::<char>::empty());
        assert(ls.push(l)[0] == l);
        assert(join_lines(ls.push(l)) =~= l + seq!['\n']);
    } else {
        lemma_join_push(ls.drop_first(), l);
        assert(ls.push(l).drop_first() =~= ls.drop_first().push(l));
        assert(join_lines(ls.push(l)) =~= join_lines(ls) + l + seq!['\n']);
    }
}

fn push_line(out: &mut String, key: &str, val: &str, Ghost(ls): Ghost<Seq<Seq<char>>>)
    requires
        old(out)@ == join_lines(ls),
    ensures
        final(out)@ == join_lines(ls.push(kv_line(key@, val@))),
{
    out.append(key);
    push_char(out, '=');
    out.append(val);
    push_char(out, '\n');
    proof {
        lemma_join_push(ls, kv_line(key@, val@));
    }
    assert(out@ =~= join_lines(ls.push(kv_line(key@, val@))));
}

fn push_section(out: &mut String, name: &str, Ghost(ls): Ghost<Seq<Seq<char>>>)
    requires
        old(out)@ == join_lines(ls),
    ensures
        final(out)@ == join_lines(ls.push(section_line(name@))),
{
    push_char(out, '[');
    out.append(name);
    push_char(out, ']');
    push_char(out, '\n');
    proof {
        lemma_join_push(ls, section_line(name@));
    }
    assert(out@ =~= join_lines(ls.push(section_line(name@))));
}

impl AppConfig {
    /// The file text of this configuration (see [`render_lines`]).
    pub fn render(&self) -> (r: String)
        requires
            self.punch matches Some((d, t)) ==> date_ok(d) && time_ok(t),
            self.boss matches Some((d, t)) ==> date_ok(d) && time_ok(t),
        ensures
            r@ == render_spec(*self),
    {
        proof {
            reveal_strlit("");
        }
        let mut out = String::new();
        let ghost mut ls: Seq<Seq<char>> = Seq::empty();
        push_section(&mut out, "report", Ghost(ls));
        proof { ls = ls.push(section_line("report"@)); }
        let lv = crate::text::dec_string(self.level as u64);
        push_line(&mut out, "level", lv.as_str(), Ghost(ls));
        proof { ls = ls.push(kv_line("level"@, lv@)); }
        push_line(&mut out, "job", self.job.as_str(), Ghost(ls));
        proof { ls = ls.push(kv_line("job"@, self.job@)); }
        push_line(&mut out, "map", self.map.as_str(), Ghost(ls));
        proof { ls = ls.push(kv_line("map"@, self.map@)); }
        let mode = if self.mode_solo {
            "solo"
        } else {
            "party"
        };
        push_line(&mut out, "mode", mode, Ghost(ls));
        proof { ls = ls.push(kv_line("mode"@, mode@)); }
        let pw = crate::text::dec_string(self.power);
        push_line(&mut out, "power", pw.as_str(), Ghost(ls));
        proof { ls = ls.push(kv_line("power"@, pw@)); }
        push_section(&mut out, "timers", Ghost(ls));
        proof { ls = ls.push(section_line("timers"@)); }
        let (pd, pt) = timer_texts(self.punch);
        push_line(&mut out, "punch_date", pd.as_str(), Ghost(ls));
        proof { ls = ls.push(kv_line("punch_date"@, pd@)); }
        push_line(&mut out, "punch_time", pt.as_str(), Ghost(ls));
        proof { ls = ls.push(kv_line("punch_time"@, pt@)); }
        let (bd, bt) = timer_texts(self.boss);
        push_line(&mut out, "boss_date", bd.as_str(), Ghost(ls));
        proof { ls = ls.push(kv_line("boss_date"@, bd@)); }
        push_line(&mut out, "boss_time", bt.as_str(), Ghost(ls));
        proof { ls = ls.push(kv_line("boss_time"@, bt@)); }
        push_section(&mut out, "ocr", Ghost(ls));
        proof { ls = ls.push(section_line("ocr"@)); }
        push_line(&mut out, "exp_label", self.exp_label.as_str(), Ghost(ls));
        proof { ls = ls.push(kv_line("exp_label"@, self.exp_label@)); }
        push_line(&mut out, "level_label", self.level_label.as_str(), Ghost(ls));
        proof { ls = ls.push(kv_line("level_label"@, self.level_label@)); }
        push_section(&mut out, "meta", Ghost(ls));
        proof { ls = ls.push(section_line("meta"@)); }
        let ghost before_uid = ls;
        match &self.uid_cache {
            Some(u) => {
                push_line(&mut out, "uid", u.as_str(), Ghost(ls));
                proof { ls = ls.push(kv_line("uid"@, u@)); }
            },
            None => {},
        }
        push_section(&mut out, "net", Ghost(ls));
        proof { ls = ls.push(section_line("net"@)); }
        let base = if self.net_local {
            "local"
        } else {
            "prod"
        };
        push_line(&mut out, "base", base, Ghost(ls));
        proof { ls = ls.push(kv_line("base"@, base@)); }
        push_section(&mut out, "panel", Ghost(ls));
        proof { ls = ls.push(section_line("panel"@)); }
        let mut xs = String::new();
        push_milli(&mut xs, self.panel_x);
        let mut ys = String::new();
        push_milli(&mut ys, self.panel_y);
        proof {
            assert(xs@ =~= milli_text(self.panel_x as int));
            assert(ys@ =~= milli_text(self.panel_y as int));
        }
        push_line(&mut out, "x", xs.as_str(), Ghost(ls));
        proof { ls = ls.push(kv_line("x"@, xs@)); }
        push_line(&mut out, "y", ys.as_str(), Ghost(ls));
        proof {
            ls = ls.push(kv_line("y"@, ys@));
            assert(kv_block(report_pairs(*self)) =~= seq![
                kv_line("level"@, dec(self.level as nat)),
                kv_line("job"@, self.job@),
                kv_line("map"@, self.map@),
                kv_line("mode"@, if self.mode_solo { "solo"@ } else { "party"@ }),
                kv_line("power"@, dec(self.power as nat)),
            ]);
            assert(kv_block(timers_pairs(*self)) =~= seq![
                kv_line("punch_date"@, pd@),
                kv_line("punch_time"@, pt@),
                kv_line("boss_date"@, bd@),
                kv_line("boss_time"@, bt@),
            ]);
            assert(kv_block(ocr_pairs(*self)) =~= seq![
                kv_line("exp_label"@, self.exp_label@),
                kv_line("level_label"@, self.level_label@),
            ]);
            assert(kv_block(net_pairs(*self)) =~= seq![kv_line("base"@, base@)]);
            assert(kv_block(panel_pairs(*self)) =~= seq![kv_line("x"@, xs@), kv_line("y"@, ys@)]);
            match &self.uid_cache {
                Some(u) => {
                    assert(kv_block(meta_pairs(*self)) =~= seq![kv_line("uid"@, u@)]);
                },
                None => {
                    assert(kv_block(meta_pairs(*self)) =~= Seq::<Seq<char>>::empty());
                },
            }
            assert(ls =~= render_lines(*self));
        }
        out
    }
}

/// The written date and time of a timer (empty when unset).
fn timer_texts(t: Option<(CalDate, ClockTime)>) -> (r: (String, String))
    requires
        t matches Some((d, tm)) ==> date_ok(d) && time_ok(tm),
    ensures
        match t {
            Some((d, tm)) => r.0@ == ymd_text(d) && r.1@ == hm_text(tm),
            None => r.0@ == Seq::<char>::empty() && r.1@ == Seq::<char>::empty(),
        },
{
    match t {
        Some((d, tm)) => (fmt_date(d), fmt_time(tm)),
        None => (String::new(), String::new()),
    }
}

// ---------------------------------------------------------------------------
// Law: reading back a written file
// ---------------------------------------------------------------------------

/// No line break in `s`.
pub open spec fn no_newline(s: Seq<char>) -> bool {
    forall|i: int| 0 <= i < s.len() ==> s[i] != '\n'
}

/// A value that survives the file unchanged: one line, no surrounding whitespace.
pub open spec fn value_ok(s: Seq<char>) -> bool {
    no_newline(s) && (s.len() == 0 || (!is_ws(s[0]) && !is_ws(s.last())))
}

/// A key the parser reads back as itself.
pub open spec fn key_ok(k: Seq<char>) -> bool {
    &&& value_ok(k)
    &&& k.len() > 0
    &&& forall|i: int| 0 <= i < k.len() ==> k[i] != '='
    &&& k[0] != ';' && k[0] != '#' && k[0] != '['
}

/// The configurations whose file reads back unchanged: every text one line
/// without surrounding whitespace, timers at whole minutes in years
/// 0..=9999, panel coordinates under 10^15 px.
pub open spec fn roundtrips(c: AppConfig) -> bool {
    &&& value_ok(c.job@)
    &&& value_ok(c.map@)
    &&& value_ok(c.exp_label@)
    &&& value_ok(c.level_label@)
    &&& c.uid_cache matches Some(u) ==> value_ok(u@)
    &&& c.punch matches Some((d, t)) ==> date_ok(d) && 0 <= d.y <= 9999 && time_ok(t) && t.s == 0
    &&& c.boss matches Some((d, t)) ==> date_ok(d) && 0 <= d.y <= 9999 && time_ok(t) && t.s == 0
    &&& -1_000_000_000_000_000_000 < c.panel_x < 1_000_000_000_000_000_000
    &&& -1_000_000_000_000_000_000 < c.panel_y < 1_000_000_000_000_000_000
}

/// Folding lines over a parse state.
pub open spec fn ini_run(
    st: (Seq<char>, Seq<(Seq<char>, Seq<char>, Seq<char>)>),
    ls: Seq<Seq<char>>,
) -> (Seq<char>, Seq<(Seq<char>, Seq<char>, Seq<char>)>)
    decreases ls.len(),
{
    if ls.len() == 0 {
        st
    } else {
        ini_run(ini_step(st.0, st.1, ls[0]), ls.drop_first())
    }
}

/// The entries a block of pairs yields in section `name`.
pub open spec fn entries_of(name: Seq<char>, pairs: Seq<(Seq<char>, Seq<char>)>) -> Seq<(Seq<char>, Seq<char>, Seq<char>)> {
    pairs.map_values(|p: (Seq<char>, Seq<char>)| (name, p.0, p.1))
}

proof fn lemma_line_end_shift(s: Seq<char>, i: int, j: int)
    requires
        0 <= i <= j <= s.len(),
    ensures
        line_end(s, j) == line_end(s.skip(i), j - i) + i,
    decreases s.len() - j,
{
    if j < s.len() && s[j] != '\n' {
        assert(s.skip(i)[j - i] == s[j]);
        lemma_line_end_shift(s, i, j + 1);
    } else if j < s.len() {
        assert(s.skip(i)[j - i] == s[j]);
    }
}

pub(crate) proof fn lemma_lines_shift(s: Seq<char>, i: int, j: int)
    requires
        0 <= i <= j,
        i <= s.len(),
    ensures
        lines_from(s, j) == lines_from(s.skip(i), j - i),
    decreases s.len() + 1 - j,
{
    if j <= s.len() {
        lemma_line_end_shift(s, i, j);
        lemma_line_end_props(s, j);
        let e = line_end(s, j);
        assert(s.subrange(j, e) =~= s.skip(i).subrange(j - i, e - i));
        lemma_lines_shift(s, i, e + 1);
    }
}

pub(crate) proof fn lemma_lines_join(ls: Seq<Seq<char>>)
    requires
        forall|k: int| 0 <= k < ls.len() ==> no_newline(#[trigger] ls[k]),
    ensures
        lines_from(join_lines(ls), 0) == ls.push(Seq::<char>::empty()),
    decreases ls.len(),
{
    let s = join_lines(ls);
    if ls.len() == 0 {
        assert(s =~= Seq::<char>::empty());
        assert(line_end(s, 0) == 0);
        assert(lines_from(s, 1) =~= Seq::<Seq<char>>::empty());
        assert(s.subrange(0, 0) =~= Seq::<char>::empty());
        assert(lines_from(s, 0) =~= seq![Seq::<char>::empty()]);
        assert(ls.push(Seq::<char>::empty()) =~= seq![Seq::<char>::empty()]);
    } else {
        let l = ls[0];
        let rest = ls.drop_first();
        assert forall|k: int| 0 <= k < rest.len() implies no_newline(#[trigger] rest[k]) by {
            assert(rest[k] == ls[k + 1]);
        }
        lemma_lines_join(rest);
        let r = join_lines(rest);
        assert(s == l + seq!['\n'] + r);
        assert forall|k: int| 0 <= k < l.len() implies s[k] != '\n' by {
            assert(s[k] == l[k]);
        }
        assert(s[l.len() as int] == '\n');
        lemma_line_end_found(s, 0, l.len() as int);
        assert(s.subrange(0, l.len() as int) =~= l);
        let n1 = l.len() + 1;
        lemma_lines_shift(s, n1 as int, n1 as int);
        assert(s.skip(n1 as int) =~= r);
        assert(lines_from(s, 0) == seq![l] + lines_from(s, n1 as int));
        assert(ls.push(Seq::<char>::empty()) =~= seq![l] + rest.push(Seq::<char>::empty()));
    }
}

proof fn lemma_fold_run(ls: Seq<Seq<char>>, k: int)
    requires
        0 <= k <= ls.len(),
    ensures
        ini_run(ini_fold(ls, k), ls.skip(k)) == ini_fold(ls, ls.len() as int),
    decreases ls.len() - k,
{
    if k < ls.len() {
        assert(ls.skip(k)[0] == ls[k]);
        assert(ls.skip(k).drop_first() =~= ls.skip(k + 1));
        lemma_fold_run(ls, k + 1);
    } else {
        assert(ls.skip(k) =~= Seq::<Seq<char>>::empty());
    }
}

proof fn lemma_run_concat(
    st: (Seq<char>, Seq<(Seq<char>, Seq<char>, Seq<char>)>),
    a: Seq<Seq<char>>,
    b: Seq<Seq<char>>,
)
    ensures
        ini_run(st, a + b) == ini_run(ini_run(st, a), b),
    decreases a.len(),
{
    if a.len() > 0 {
        assert((a + b)[0] == a[0]);
        assert((a + b).drop_first() =~= a.drop_first() + b);
        lemma_run_concat(ini_step(st.0, st.1, a[0]), a.drop_first(), b);
    } else {
        assert(a + b =~= b);
    }
}

pub(crate) proof fn lemma_trim_id(s: Seq<char>)
    requires
        s.len() == 0 || (!is_ws(s[0]) && !is_ws(s.last())),
    ensures
        trim_spec(s) == s,
{
    if s.len() > 0 {
        assert(trim_start_spec(s) == s);
    }
}

proof fn lemma_kv_step(sec: Seq<char>, acc: Seq<(Seq<char>, Seq<char>, Seq<char>)>, k: Seq<char>, v: Seq<char>)
    requires
        key_ok(k),
        value_ok(v),
    ensures
        ini_step(sec, acc, kv_line(k, v)) == (sec, acc.push((sec, k, v))),
{
    let line = kv_line(k, v);
    assert(line[0] == k[0]);
    if v.len() > 0 {
        assert(line.last() == v.last());
    } else {
        assert(line.last() == '=');
    }
    lemma_trim_id(line);
    assert forall|i: int| 0 <= i < k.len() implies line[i] != '=' by {
        assert(line[i] == k[i]);
    }
    assert(line[k.len() as int] == '=');
    lemma_first_eq_found(line, 0, k.len() as int);
    assert(line.subrange(0, k.len() as int) =~= k);
    assert(line.subrange(k.len() as int + 1, line.len() as int) =~= v);
    lemma_trim_id(k);
    lemma_trim_id(v);
}

proof fn lemma_section_step(sec: Seq<char>, acc: Seq<(Seq<char>, Seq<char>, Seq<char>)>, name: Seq<char>)
    requires
        value_ok(name),
    ensures
        ini_step(sec, acc, section_line(name)) == (name, acc),
{
    let line = section_line(name);
    assert(line[0] == '[');
    assert(line.last() == ']');
    lemma_trim_id(line);
    assert(line.subrange(1, line.len() - 1) =~= name);
    lemma_trim_id(name);
}

proof fn lemma_kv_block_run(
    sec: Seq<char>,
    acc: Seq<(Seq<char>, Seq<char>, Seq<char>)>,
    pairs: Seq<(Seq<char>, Seq<char>)>,
)
    requires
        forall|i: int| 0 <= i < pairs.len() ==> key_ok((#[trigger] pairs[i]).0) && value_ok(pairs[i].1),
    ensures
        ini_run((sec, acc), kv_block(pairs)) == (sec, acc + entries_of(sec, pairs)),
    decreases pairs.len(),
{
    if pairs.len() == 0 {
        assert(kv_block(pairs) =~= Seq::<Seq<char>>::empty());
        assert(acc + entries_of(sec, pairs) =~= acc);
    } else {
        let p = pairs[0];
        let rest = pairs.drop_first();
        assert(kv_block(pairs)[0] == kv_line(p.0, p.1));
        assert(kv_block(pairs).drop_first() =~= kv_block(rest));
        lemma_kv_step(sec, acc, p.0, p.1);
        assert forall|i: int| 0 <= i < rest.len() implies key_ok((#[trigger] rest[i]).0) && value_ok(rest[i].1) by {
            assert(rest[i] == pairs[i + 1]);
        }
        lemma_kv_block_run(sec, acc.push((sec, p.0, p.1)), rest);
        assert(acc.push((sec, p.0, p.1)) + entries_of(sec, rest) =~= acc + entries_of(sec, pairs));
    }
}

proof fn lemma_block_run(
    st: (Seq<char>, Seq<(Seq<char>, Seq<char>, Seq<char>)>),
    name: Seq<char>,
    pairs: Seq<(Seq<char>, Seq<char>)>,
)
    requires
        value_ok(name),
        forall|i: int| 0 <= i < pairs.len() ==> key_ok((#[trigger] pairs[i]).0) && value_ok(pairs[i].1),
    ensures
        ini_run(st, block(name, pairs)) == (name, st.1 + entries_of(name, pairs)),
{
    let head = seq![section_line(name)];
    lemma_run_concat(st, head, kv_block(pairs));
    assert(head.drop_first() =~= Seq::<Seq<char>>::empty());
    assert(head[0] == section_line(name));
    lemma_section_step(st.0, st.1, name);
    assert(ini_run(st, head) == ini_run(ini_step(st.0, st.1, section_line(name)), head.drop_first()));
    assert(ini_run(st, head) == (name, st.1));
    lemma_kv_block_run(name, st.1, pairs);
    assert(block(name, pairs) == head + kv_block(pairs));
}

/// The value of the last entry `key` in section `sec`, through a concatenation.
proof fn lemma_lookup_concat(a: Seq<(Seq<char>, Seq<char>, Seq<char>)>, b: Seq<(Seq<char>, Seq<char>, Seq<char>)>, sec: Seq<char>, key: Seq<char>)
    ensures
        lookup(a + b, sec, key) == match lookup(b, sec, key) {
            Some(v) => Some(v),
            None => lookup(a, sec, key),
        },
    decreases b.len(),
{
    if b.len() == 0 {
        assert(a + b =~= a);
    } else {
        assert((a + b).last() == b.last());
        assert((a + b).drop_last() =~= a + b.drop_last());
        lemma_lookup_concat(a, b.drop_last(), sec, key);
    }
}

proof fn lemma_lookup_other_section(name: Seq<char>, pairs: Seq<(Seq<char>, Seq<char>)>, sec: Seq<char>, key: Seq<char>)
    requires
        name != sec,
    ensures
        lookup(entries_of(name, pairs), sec, key) is None,
    decreases pairs.len(),
{
    if pairs.len() > 0 {
        let e = entries_of(name, pairs);
        assert(e.last() == (name, pairs.last().0, pairs.last().1));
        assert(e.drop_last() =~= entries_of(name, pairs.drop_last()));
        lemma_lookup_other_section(name, pairs.drop_last(), sec, key);
    }
}

/// Looking up in a block of pairs: the last pair with the key.
proof fn lemma_lookup_block(name: Seq<char>, pairs: Seq<(Seq<char>, Seq<char>)>, key: Seq<char>)
    ensures
        lookup(entries_of(name, pairs), name, key) == pair_lookup(pairs, key),
    decreases pairs.len(),
{
    if pairs.len() > 0 {
        let e = entries_of(name, pairs);
        assert(e.last() == (name, pairs.last().0, pairs.last().1));
        assert(e.drop_last() =~= entries_of(name, pairs.drop_last()));
        lemma_lookup_block(name, pairs.drop_last(), key);
    }
}

/// The value of the last pair with `key`.
pub open spec fn pair_lookup(pairs: Seq<(Seq<char>, Seq<char>)>, key: Seq<char>) -> Option<Seq<char>>
    decreases pairs.len(),
{
    if pairs.len() == 0 {
        None
    } else if pairs.last().0 == key {
        Some(pairs.last().1)
    } else {
        pair_lookup(pairs.drop_last(), key)
    }
}

/// Only digits and `- . : +`: text the file keeps as it is.
pub open spec fn plain_text(s: Seq<char>) -> bool {
    forall|i: int|
        0 <= i < s.len() ==> ('0' <= #[trigger] s[i] <= '9' || s[i] == '-' || s[i] == '.' || s[i] == ':'
            || s[i] == '+')
}

proof fn lemma_plain_value_ok(s: Seq<char>)
    requires
        plain_text(s),
    ensures
        value_ok(s),
{
    if s.len() > 0 {
        assert('0' <= s[0] <= '9' || s[0] == '-' || s[0] == '.' || s[0] == ':' || s[0] == '+');
        assert(s.last() == s[s.len() - 1]);
    }
}

proof fn lemma_plain_concat(a: Seq<char>, b: Seq<char>)
    requires
        plain_text(a),
        plain_text(b),
    ensures
        plain_text(a + b),
{
    assert forall|i: int| 0 <= i < (a + b).len() implies ('0' <= #[trigger] (a + b)[i] <= '9' || (a + b)[i] == '-'
        || (a + b)[i] == '.' || (a + b)[i] == ':' || (a + b)[i] == '+') by {
        if i < a.len() {
            assert((a + b)[i] == a[i]);
        } else {
            assert((a + b)[i] == b[i - a.len()]);
        }
    }
}

proof fn lemma_dec_plain(n: nat)
    ensures
        plain_text(dec(n)),
        dec(n).len() > 0,
        '0' <= dec(n)[0] <= '9',
{
    crate::text::lemma_dec_digits(n);
}

proof fn lemma_pad_plain(n: nat)
    ensures
        plain_text(pad2(n)),
        plain_text(pad4(n)),
{
    lemma_dec_plain(n);
    lemma_plain_concat(seq!['0'], dec(n));
    lemma_plain_concat(seq!['0', '0'], dec(n));
    lemma_plain_concat(seq!['0', '0', '0'], dec(n));
}

proof fn lemma_ymd_plain(d: CalDate)
    ensures
        plain_text(ymd_text(d)),
{
    let y = d.y as int;
    lemma_pad_plain(d.m as nat);
    lemma_pad_plain(d.d as nat);
    if y >= 0 {
        lemma_pad_plain(y as nat);
        lemma_plain_concat(seq!['+'], pad4(y as nat));
    } else {
        lemma_pad_plain((-y) as nat);
        lemma_plain_concat(seq!['-'], pad4((-y) as nat));
    }
    let yt = year_text(y);
    lemma_plain_concat(yt, seq!['-']);
    lemma_plain_concat(yt + seq!['-'], pad2(d.m as nat));
    lemma_plain_concat(yt + seq!['-'] + pad2(d.m as nat), seq!['-']);
    lemma_plain_concat(yt + seq!['-'] + pad2(d.m as nat) + seq!['-'], pad2(d.d as nat));
}

proof fn lemma_hm_plain(t: ClockTime)
    ensures
        plain_text(hm_text(t)),
{
    lemma_pad_plain(t.h as nat);
    lemma_pad_plain(t.m as nat);
    lemma_plain_concat(pad2(t.h as nat), seq![':']);
    lemma_plain_concat(pad2(t.h as nat) + seq![':'], pad2(t.m as nat));
}

proof fn lemma_milli_plain(v: int)
    ensures
        plain_text(milli_text(v)),
{
    let a = if v < 0 { -v } else { v };
    lemma_dec_plain((a / 1000) as nat);
    let f = a % 1000;
    assert(plain_text(frac_text(f))) by {
        assert(0 <= f / 100 < 10);
        assert(0 <= (f / 10) % 10 < 10);
        assert(0 <= f % 10 < 10);
    }
    let sg: Seq<char> = if v < 0 { seq!['-'] } else { Seq::empty() };
    lemma_plain_concat(sg, dec((a / 1000) as nat));
    lemma_plain_concat(sg + dec((a / 1000) as nat), frac_text(f));
}

pub(crate) proof fn lemma_digits_val_dec(n: nat)
    ensures
        all_digits(dec(n)),
        digits_val(dec(n)) == n,
    decreases n,
{
    crate::text::lemma_dec_digits(n);
    lemma_digit_char((n % 10) as int);
    let d = dec(n);
    if n >= 10 {
        lemma_digits_val_dec(n / 10);
        assert(d == dec(n / 10).push(digit_char((n % 10) as int)));
        assert(d.drop_last() =~= dec(n / 10));
        assert(d.last() == digit_char((n % 10) as int));
        assert(digits_val(d) == digits_val(dec(n / 10)) * 10 + (d.last() as int - 48));
        assert((n / 10) * 10 + n % 10 == n);
    } else {
        assert(d == seq![digit_char(n as int)]);
        assert(d.drop_last() =~= Seq::<char>::empty());
        assert(digits_val(d.drop_last()) == 0);
        assert(d.last() == digit_char(n as int));
    }
}

pub(crate) proof fn lemma_parse_dec(n: nat, max: int)
    requires
        n <= max,
    ensures
        parse_uint_spec(dec(n), max) == Some(n as int),
{
    lemma_digits_val_dec(n);
    lemma_dec_plain(n);
}

proof fn lemma_first_dot_none(s: Seq<char>, i: int)
    requires
        0 <= i <= s.len(),
        forall|k: int| i <= k < s.len() ==> s[k] != '.',
    ensures
        first_dot(s, i) == s.len(),
    decreases s.len() - i,
{
    if i < s.len() {
        lemma_first_dot_none(s, i + 1);
    }
}

/// The fraction digits `frac_text` writes after the point.
pub open spec fn frac_digits(f: int) -> Seq<char> {
    if f == 0 {
        Seq::empty()
    } else if f % 100 == 0 {
        seq![digit_char(f / 100)]
    } else if f % 10 == 0 {
        seq![digit_char(f / 100), digit_char((f / 10) % 10)]
    } else {
        seq![digit_char(f / 100), digit_char((f / 10) % 10), digit_char(f % 10)]
    }
}

proof fn lemma_frac_digits(f: int)
    requires
        0 <= f < 1000,
    ensures
        f == 0 ==> frac_text(f) == Seq::<char>::empty(),
        f != 0 ==> frac_text(f) == seq!['.'] + frac_digits(f),
        all_digits(frac_digits(f)),
        frac_milli(frac_digits(f)) == f,
{
    lemma_digit_char(f / 100);
    lemma_digit_char((f / 10) % 10);
    lemma_digit_char(f % 10);
    let fd = frac_digits(f);
    if f == 0 {
        assert(fd.len() == 0);
    } else if f % 100 == 0 {
        assert(fd.drop_last() =~= Seq::<char>::empty());
        assert(digits_val(fd.drop_last()) == 0);
        assert(digits_val(fd) == f / 100);
        assert(frac_text(f) =~= seq!['.'] + fd);
    } else if f % 10 == 0 {
        let f1 = fd.drop_last();
        assert(f1 =~= seq![digit_char(f / 100)]);
        assert(f1.drop_last() =~= Seq::<char>::empty());
        assert(digits_val(f1.drop_last()) == 0);
        assert(digits_val(f1) == f / 100);
        assert(digits_val(fd) == (f / 100) * 10 + (f / 10) % 10);
        assert(frac_text(f) =~= seq!['.'] + fd);
    } else {
        let f2 = fd.drop_last();
        let f1 = f2.drop_last();
        assert(f1 =~= seq![digit_char(f / 100)]);
        assert(f1.drop_last() =~= Seq::<char>::empty());
        assert(digits_val(f1.drop_last()) == 0);
        assert(digits_val(f1) == f / 100);
        assert(f2 =~= seq![digit_char(f / 100), digit_char((f / 10) % 10)]);
        assert(digits_val(f2) == (f / 100) * 10 + (f / 10) % 10);
        assert(digits_val(fd) == ((f / 100) * 10 + (f / 10) % 10) * 10 + f % 10);
        assert(fd.take(3) =~= fd);
        assert(frac_text(f) =~= seq!['.'] + fd);
    }
}

proof fn lemma_parse_unsigned_milli(w: nat, f: int)
    requires
        w < 1_000_000_000_000_000,
        0 <= f < 1000,
    ensures
        ({
            let b = dec(w) + frac_text(f);
            let dot = first_dot(b, 0);
            let ip = b.take(dot);
            let fp = if dot < b.len() { b.skip(dot + 1) } else { Seq::<char>::empty() };
            &&& ip == dec(w)
            &&& fp == frac_digits(f)
            &&& all_digits(ip) && all_digits(fp)
            &&& ip.len() > 0 && ip.len() <= 15
            &&& digits_val(ip) == w
            &&& frac_milli(fp) == f
            &&& '0' <= b[0] <= '9'
        }),
{
    let dw = dec(w);
    lemma_dec_plain(w);
    lemma_digits_val_dec(w);
    lemma_frac_digits(f);
    let b = dw + frac_text(f);
    assert(b[0] == dw[0]);
    assert forall|k: int| 0 <= k < dw.len() implies b[k] != '.' by {
        assert(b[k] == dw[k]);
    }
    let fd = frac_digits(f);
    if f == 0 {
        assert(b =~= dw);
        lemma_first_dot_none(b, 0);
        assert(b.take(dw.len() as int) =~= dw);
    } else {
        assert(b[dw.len() as int] == '.');
        lemma_first_dot_found(b, 0, dw.len() as int);
        assert(b.take(dw.len() as int) =~= dw);
        assert(b.skip(dw.len() as int + 1) =~= fd);
    }
    assert(dw.len() <= 15) by {
        reveal_with_fuel(crate::sensor::digits::pow10, 16);
        lemma_dec_len(w, 15);
    }
}

proof fn lemma_parse_milli_text(v: int)
    requires
        -1_000_000_000_000_000_000 < v < 1_000_000_000_000_000_000,
    ensures
        parse_milli_spec(milli_text(v)) == Some(v),
{
    let a = if v < 0 { -v } else { v };
    let w = (a / 1000) as nat;
    let f = a % 1000;
    lemma_parse_unsigned_milli(w, f);
    let b = dec(w) + frac_text(f);
    let t = milli_text(v);
    if v < 0 {
        assert(t =~= seq!['-'] + b);
        assert(t[0] == '-');
        assert(t.drop_first() =~= b);
    } else {
        assert(t =~= b);
    }
    assert(w * 1000 + f == a);
}

proof fn lemma_dec_len(n: nat, k: nat)
    requires
        k >= 1,
        n < crate::sensor::digits::pow10(k),
    ensures
        dec(n).len() <= k,
    decreases n,
{
    reveal_with_fuel(crate::sensor::digits::pow10, 2);
    if n >= 10 {
        assert(k >= 2) by {
            if k == 1 {
                assert(crate::sensor::digits::pow10(1) == 10);
            }
        }
        assert(n / 10 < crate::sensor::digits::pow10((k - 1) as nat));
        lemma_dec_len(n / 10, (k - 1) as nat);
    }
}

proof fn lemma_digit_char(x: int)
    requires
        0 <= x < 10,
    ensures
        digit_char(x) as int == 48 + x,
        '0' <= digit_char(x) <= '9',
{
}

/// A lower-case identifier (letters and `_`).
pub open spec fn word(s: Seq<char>) -> bool {
    s.len() > 0 && forall|i: int| 0 <= i < s.len() ==> ('a' <= #[trigger] s[i] <= 'z' || s[i] == '_')
}

proof fn lemma_word_ok(s: Seq<char>)
    requires
        word(s),
    ensures
        key_ok(s),
        value_ok(s),
{
    assert(s.last() == s[s.len() - 1]);
    assert('a' <= s[0] <= 'z' || s[0] == '_');
    assert('a' <= s.last() <= 'z' || s.last() == '_');
}

proof fn lemma_words()
    ensures
        word("report"@) && word("timers"@) && word("ocr"@) && word("meta"@) && word("net"@) && word("panel"@),
        word("level"@) && word("job"@) && word("map"@) && word("mode"@) && word("power"@),
        word("punch_date"@) && word("punch_time"@) && word("boss_date"@) && word("boss_time"@),
        word("exp_label"@) && word("level_label"@) && word("uid"@) && word("base"@),
        word("x"@) && word("y"@),
        word("solo"@) && word("party"@) && word("local"@) && word("prod"@),
{
    reveal_strlit("report");
    reveal_strlit("timers");
    reveal_strlit("ocr");
    reveal_strlit("meta");
    reveal_strlit("net");
    reveal_strlit("panel");
    reveal_strlit("level");
    reveal_strlit("job");
    reveal_strlit("map");
    reveal_strlit("mode");
    reveal_strlit("power");
    reveal_strlit("punch_date");
    reveal_strlit("punch_time");
    reveal_strlit("boss_date");
    reveal_strlit("boss_time");
    reveal_strlit("exp_label");
    reveal_strlit("level_label");
    reveal_strlit("uid");
    reveal_strlit("base");
    reveal_strlit("x");
    reveal_strlit("y");
    reveal_strlit("solo");
    reveal_strlit("party");
    reveal_strlit("local");
    reveal_strlit("prod");
}

/// Every pair of the list has a readable key and value.
pub open spec fn pairs_ok(pairs: Seq<(Seq<char>, Seq<char>)>) -> bool {
    forall|i: int| 0 <= i < pairs.len() ==> key_ok((#[trigger] pairs[i]).0) && value_ok(pairs[i].1)
}

proof fn lemma_pairs_ok(c: AppConfig)
    requires
        roundtrips(c),
    ensures
        pairs_ok(report_pairs(c)),
        pairs_ok(timers_pairs(c)),
        pairs_ok(ocr_pairs(c)),
        pairs_ok(meta_pairs(c)),
        pairs_ok(net_pairs(c)),
        pairs_ok(panel_pairs(c)),
{
    lemma_words();
    lemma_word_ok("level"@);
    lemma_word_ok("job"@);
    lemma_word_ok("map"@);
    lemma_word_ok("mode"@);
    lemma_word_ok("power"@);
    lemma_word_ok("punch_date"@);
    lemma_word_ok("punch_time"@);
    lemma_word_ok("boss_date"@);
    lemma_word_ok("boss_time"@);
    lemma_word_ok("exp_label"@);
    lemma_word_ok("level_label"@);
    lemma_word_ok("uid"@);
    lemma_word_ok("base"@);
    lemma_word_ok("x"@);
    lemma_word_ok("y"@);
    lemma_word_ok("solo"@);
    lemma_word_ok("party"@);
    lemma_word_ok("local"@);
    lemma_word_ok("prod"@);
    lemma_dec_plain(c.level as nat);
    lemma_plain_value_ok(dec(c.level as nat));
    lemma_dec_plain(c.power as nat);
    lemma_plain_value_ok(dec(c.power as nat));
    lemma_milli_plain(c.panel_x as int);
    lemma_plain_value_ok(milli_text(c.panel_x as int));
    lemma_milli_plain(c.panel_y as int);
    lemma_plain_value_ok(milli_text(c.panel_y as int));
    match c.punch {
        Some((d, t)) => {
            lemma_ymd_plain(d);
            lemma_plain_value_ok(ymd_text(d));
            lemma_hm_plain(t);
            lemma_plain_value_ok(hm_text(t));
        },
        None => {},
    }
    match c.boss {
        Some((d, t)) => {
            lemma_ymd_plain(d);
            lemma_plain_value_ok(ymd_text(d));
            lemma_hm_plain(t);
            lemma_plain_value_ok(hm_text(t));
        },
        None => {},
    }
    let tp = timers_pairs(c);
    assert forall|i: int| 0 <= i < tp.len() implies key_ok((#[trigger] tp[i]).0) && value_ok(tp[i].1) by {
        let a = timer_pairs("punch_date"@, "punch_time"@, c.punch);
        if i < 2 {
            assert(tp[i] == a[i]);
        } else {
            assert(tp[i] == timer_pairs("boss_date"@, "boss_time"@, c.boss)[i - 2]);
        }
    }
    let rp = report_pairs(c);
    assert forall|i: int| 0 <= i < rp.len() implies key_ok((#[trigger] rp[i]).0) && value_ok(rp[i].1) by {}
}

/// The entries of the written file of a configuration.
pub open spec fn render_entries(c: AppConfig) -> Seq<(Seq<char>, Seq<char>, Seq<char>)> {
    entries_of("report"@, report_pairs(c)) + entries_of("timers"@, timers_pairs(c)) + entries_of("ocr"@, ocr_pairs(c))
        + entries_of("meta"@, meta_pairs(c)) + entries_of("net"@, net_pairs(c)) + entries_of(
        "panel"@,
        panel_pairs(c),
    )
}

proof fn lemma_block_lines(name: Seq<char>, pairs: Seq<(Seq<char>, Seq<char>)>)
    requires
        value_ok(name),
        pairs_ok(pairs),
    ensures
        forall|k: int| 0 <= k < block(name, pairs).len() ==> no_newline(#[trigger] block(name, pairs)[k]),
{
    let bl = block(name, pairs);
    assert forall|k: int| 0 <= k < bl.len() implies no_newline(#[trigger] bl[k]) by {
        if k == 0 {
            let l = section_line(name);
            assert forall|i: int| 0 <= i < l.len() implies l[i] != '\n' by {
                if 0 < i < l.len() - 1 {
                    assert(l[i] == name[i - 1]);
                }
            }
        } else {
            let p = pairs[k - 1];
            assert(bl[k] == kv_line(p.0, p.1));
            let l = kv_line(p.0, p.1);
            assert forall|i: int| 0 <= i < l.len() implies l[i] != '\n' by {
                if i < p.0.len() {
                    assert(l[i] == p.0[i]);
                } else if i > p.0.len() {
                    assert(l[i] == p.1[i - p.0.len() - 1]);
                }
            }
        }
    }
}

pub(crate) proof fn lemma_concat_lines(a: Seq<Seq<char>>, b: Seq<Seq<char>>)
    requires
        forall|k: int| 0 <= k < a.len() ==> no_newline(#[trigger] a[k]),
        forall|k: int| 0 <= k < b.len() ==> no_newline(#[trigger] b[k]),
    ensures
        forall|k: int| 0 <= k < (a + b).len() ==> no_newline(#[trigger] (a + b)[k]),
{
    assert forall|k: int| 0 <= k < (a + b).len() implies no_newline(#[trigger] (a + b)[k]) by {
        if k < a.len() {
            assert((a + b)[k] == a[k]);
        } else {
            assert((a + b)[k] == b[k - a.len()]);
        }
    }
}

/// Law: the written file parses into exactly the configuration's entries,
/// section by section, in order.
pub proof fn lemma_render_parses(c: AppConfig)
    requires
        roundtrips(c),
    ensures
        parse_ini_spec(render_spec(c)) == render_entries(c),
{
    lemma_words();
    lemma_pairs_ok(c);
    lemma_word_ok("report"@);
    lemma_word_ok("timers"@);
    lemma_word_ok("ocr"@);
    lemma_word_ok("meta"@);
    lemma_word_ok("net"@);
    lemma_word_ok("panel"@);
    let b1 = block("report"@, report_pairs(c));
    let b2 = block("timers"@, timers_pairs(c));
    let b3 = block("ocr"@, ocr_pairs(c));
    let b4 = block("meta"@, meta_pairs(c));
    let b5 = block("net"@, net_pairs(c));
    let b6 = block("panel"@, panel_pairs(c));
    lemma_block_lines("report"@, report_pairs(c));
    lemma_block_lines("timers"@, timers_pairs(c));
    lemma_block_lines("ocr"@, ocr_pairs(c));
    lemma_block_lines("meta"@, meta_pairs(c));
    lemma_block_lines("net"@, net_pairs(c));
    lemma_block_lines("panel"@, panel_pairs(c));
    lemma_concat_lines(b1, b2);
    lemma_concat_lines(b1 + b2, b3);
    lemma_concat_lines(b1 + b2 + b3, b4);
    lemma_concat_lines(b1 + b2 + b3 + b4, b5);
    lemma_concat_lines(b1 + b2 + b3 + b4 + b5, b6);
    let rl = render_lines(c);
    assert(rl == b1 + b2 + b3 + b4 + b5 + b6);
    lemma_lines_join(rl);
    let ls = rl.push(Seq::<char>::empty());
    lemma_fold_run(ls, 0);
    assert(ls.skip(0) =~= ls);
    let init = (Seq::<char>::empty(), Seq::<(Seq<char>, Seq<char>, Seq<char>)>::empty());
    assert(ini_fold(ls, 0) == init);
    // Block by block.
    let e0 = Seq::<(Seq<char>, Seq<char>, Seq<char>)>::empty();
    lemma_block_run(init, "report"@, report_pairs(c));
    let s1 = ("report"@, e0 + entries_of("report"@, report_pairs(c)));
    lemma_block_run(s1, "timers"@, timers_pairs(c));
    let s2 = ("timers"@, s1.1 + entries_of("timers"@, timers_pairs(c)));
    lemma_block_run(s2, "ocr"@, ocr_pairs(c));
    let s3 = ("ocr"@, s2.1 + entries_of("ocr"@, ocr_pairs(c)));
    lemma_block_run(s3, "meta"@, meta_pairs(c));
    let s4 = ("meta"@, s3.1 + entries_of("meta"@, meta_pairs(c)));
    lemma_block_run(s4, "net"@, net_pairs(c));
    let s5 = ("net"@, s4.1 + entries_of("net"@, net_pairs(c)));
    lemma_block_run(s5, "panel"@, panel_pairs(c));
    let s6 = ("panel"@, s5.1 + entries_of("panel"@, panel_pairs(c)));
    lemma_run_concat(init, b1, b2);
    lemma_run_concat(init, b1 + b2, b3);
    lemma_run_concat(init, b1 + b2 + b3, b4);
    lemma_run_concat(init, b1 + b2 + b3 + b4, b5);
    lemma_run_concat(init, b1 + b2 + b3 + b4 + b5, b6);
    lemma_run_concat(init, rl, seq![Seq::<char>::empty()]);
    assert(ls == rl + seq![Seq::<char>::empty()]);
    let last = seq![Seq::<char>::empty()];
    assert(last[0] == Seq::<char>::empty());
    assert(last.drop_first() =~= Seq::<Seq<char>>::empty());
    assert(trim_spec(Seq::<char>::empty()) == Seq::<char>::empty());
    assert(ini_step(s6.0, s6.1, Seq::<char>::empty()) == s6);
    assert(ini_run(s6, Seq::<Seq<char>>::empty()) == s6);
    assert(ini_run(s6, last) == ini_run(ini_step(s6.0, s6.1, last[0]), last.drop_first()));
    assert(ini_run(s6, last) == s6);
    assert(s6.1 =~= render_entries(c));
}

/// Where a lookup in the written entries lands: the block of its section.
pub open spec fn section_pairs(c: AppConfig, sec: Seq<char>) -> Seq<(Seq<char>, Seq<char>)> {
    if sec == "panel"@ {
        panel_pairs(c)
    } else if sec == "net"@ {
        net_pairs(c)
    } else if sec == "meta"@ {
        meta_pairs(c)
    } else if sec == "ocr"@ {
        ocr_pairs(c)
    } else if sec == "timers"@ {
        timers_pairs(c)
    } else if sec == "report"@ {
        report_pairs(c)
    } else {
        Seq::empty()
    }
}

proof fn lemma_names_distinct()
    ensures
        "report"@ != "timers"@ && "report"@ != "ocr"@ && "report"@ != "meta"@ && "report"@ != "net"@ && "report"@ != "panel"@,
        "timers"@ != "ocr"@ && "timers"@ != "meta"@ && "timers"@ != "net"@ && "timers"@ != "panel"@,
        "ocr"@ != "meta"@ && "ocr"@ != "net"@ && "ocr"@ != "panel"@,
        "meta"@ != "net"@ && "meta"@ != "panel"@,
        "net"@ != "panel"@,
{
    reveal_strlit("report");
    reveal_strlit("timers");
    reveal_strlit("ocr");
    reveal_strlit("meta");
    reveal_strlit("net");
    reveal_strlit("panel");
    assert("report"@.len() == 6 && "timers"@.len() == 6 && "ocr"@.len() == 3);
    assert("meta"@.len() == 4 && "net"@.len() == 3 && "panel"@.len() == 5);
    assert("report"@[0] != "timers"@[0]);
    assert("ocr"@[0] != "net"@[0]);
}

proof fn lemma_lookup_render(c: AppConfig, sec: Seq<char>, key: Seq<char>)
    ensures
        lookup(render_entries(c), sec, key) == pair_lookup(section_pairs(c, sec), key),
{
    lemma_names_distinct();
    let a1 = entries_of("report"@, report_pairs(c));
    let a2 = entries_of("timers"@, timers_pairs(c));
    let a3 = entries_of("ocr"@, ocr_pairs(c));
    let a4 = entries_of("meta"@, meta_pairs(c));
    let a5 = entries_of("net"@, net_pairs(c));
    let a6 = entries_of("panel"@, panel_pairs(c));
    let l1 = if sec == "report"@ { pair_lookup(report_pairs(c), key) } else { None };
    let l2 = if sec == "timers"@ { pair_lookup(timers_pairs(c), key) } else { None };
    let l3 = if sec == "ocr"@ { pair_lookup(ocr_pairs(c), key) } else { None };
    let l4 = if sec == "meta"@ { pair_lookup(meta_pairs(c), key) } else { None };
    let l5 = if sec == "net"@ { pair_lookup(net_pairs(c), key) } else { None };
    let l6 = if sec == "panel"@ { pair_lookup(panel_pairs(c), key) } else { None };
    if sec == "report"@ { lemma_lookup_block("report"@, report_pairs(c), key); } else { lemma_lookup_other_section("report"@, report_pairs(c), sec, key); }
    if sec == "timers"@ { lemma_lookup_block("timers"@, timers_pairs(c), key); } else { lemma_lookup_other_section("timers"@, timers_pairs(c), sec, key); }
    if sec == "ocr"@ { lemma_lookup_block("ocr"@, ocr_pairs(c), key); } else { lemma_lookup_other_section("ocr"@, ocr_pairs(c), sec, key); }
    if sec == "meta"@ { lemma_lookup_block("meta"@, meta_pairs(c), key); } else { lemma_lookup_other_section("meta"@, meta_pairs(c), sec, key); }
    if sec == "net"@ { lemma_lookup_block("net"@, net_pairs(c), key); } else { lemma_lookup_other_section("net"@, net_pairs(c), sec, key); }
    if sec == "panel"@ { lemma_lookup_block("panel"@, panel_pairs(c), key); } else { lemma_lookup_other_section("panel"@, panel_pairs(c), sec, key); }
    assert(lookup(a1, sec, key) == l1);
    assert(lookup(a2, sec, key) == l2);
    assert(lookup(a3, sec, key) == l3);
    assert(lookup(a4, sec, key) == l4);
    assert(lookup(a5, sec, key) == l5);
    assert(lookup(a6, sec, key) == l6);
    lemma_lookup_concat(a1, a2, sec, key);
    lemma_lookup_concat(a1 + a2, a3, sec, key);
    lemma_lookup_concat(a1 + a2 + a3, a4, sec, key);
    lemma_lookup_concat(a1 + a2 + a3 + a4, a5, sec, key);
    lemma_lookup_concat(a1 + a2 + a3 + a4 + a5, a6, sec, key);
}

proof fn lemma_pair_lookup_found(pairs: Seq<(Seq<char>, Seq<char>)>, i: int, key: Seq<char>)
    requires
        0 <= i < pairs.len(),
        pairs[i].0 == key,
        forall|j: int| i < j < pairs.len() ==> pairs[j].0 != key,
    ensures
        pair_lookup(pairs, key) == Some(pairs[i].1),
    decreases pairs.len(),
{
    if i < pairs.len() - 1 {
        assert(pairs.last() == pairs[pairs.len() - 1]);
        lemma_pair_lookup_found(pairs.drop_last(), i, key);
    }
}

proof fn lemma_pair_lookup_none(pairs: Seq<(Seq<char>, Seq<char>)>, key: Seq<char>)
    requires
        forall|j: int| 0 <= j < pairs.len() ==> pairs[j].0 != key,
    ensures
        pair_lookup(pairs, key) is None,
    decreases pairs.len(),
{
    if pairs.len() > 0 {
        assert(pairs.last() == pairs[pairs.len() - 1]);
        lemma_pair_lookup_none(pairs.drop_last(), key);
    }
}

proof fn lemma_keys_distinct()
    ensures
        "level"@ != "job"@ && "level"@ != "map"@ && "level"@ != "mode"@ && "level"@ != "power"@,
        "job"@ != "map"@ && "job"@ != "mode"@ && "job"@ != "power"@,
        "map"@ != "mode"@ && "map"@ != "power"@,
        "mode"@ != "power"@,
        "punch_date"@ != "punch_time"@ && "punch_date"@ != "boss_date"@ && "punch_date"@ != "boss_time"@,
        "punch_time"@ != "boss_date"@ && "punch_time"@ != "boss_time"@,
        "boss_date"@ != "boss_time"@,
        "exp_label"@ != "level_label"@,
        "x"@ != "y"@,
        "solo"@ != "party"@,
{
    reveal_strlit("level");
    reveal_strlit("job");
    reveal_strlit("map");
    reveal_strlit("mode");
    reveal_strlit("power");
    reveal_strlit("punch_date");
    reveal_strlit("punch_time");
    reveal_strlit("boss_date");
    reveal_strlit("boss_time");
    reveal_strlit("exp_label");
    reveal_strlit("level_label");
    reveal_strlit("x");
    reveal_strlit("y");
    reveal_strlit("solo");
    reveal_strlit("party");
    assert("level"@[0] != "power"@[0]);
    assert("job"@[0] != "map"@[0]);
    assert("map"@[0] != "mode"@[1]);
    assert("mode"@[0] == 'm' && "mode"@[1] == 'o' && "map"@[1] == 'a');
    assert("punch_date"@[6] != "punch_time"@[6]);
    assert("boss_date"@[5] != "boss_time"@[5]);
    assert("punch_date"@[0] != "boss_date"@[0]);
    assert("punch_date"@[0] != "boss_time"@[0]);
    assert("punch_time"@[0] != "boss_date"@[0]);
    assert("punch_time"@[0] != "boss_time"@[0]);
    assert("exp_label"@[0] != "level_label"@[0]);
    assert("x"@[0] != "y"@[0]);
    assert("solo"@.len() == 4 && "party"@.len() == 5);
}

/// Law: reading back the written file of a configuration (within
/// [`roundtrips`]) gives each setting back: the numbers, texts, mode,
/// server choice and panel position exactly, and each timer as the text its
/// date and time were written as (empty when unset), which the date library
/// reads back as the same date and time.
pub proof fn lemma_ini_roundtrip(c: AppConfig)
    requires
        roundtrips(c),
    ensures
        uint_or_zero(parse_ini_spec(render_spec(c)), "report"@, "level"@, u32::MAX as int) == c.level,
        value_or(parse_ini_spec(render_spec(c)), "report"@, "job"@, Seq::empty()) == c.job@,
        value_or(parse_ini_spec(render_spec(c)), "report"@, "map"@, Seq::empty()) == c.map@,
        (lookup(parse_ini_spec(render_spec(c)), "report"@, "mode"@) != Some("party"@)) == c.mode_solo,
        uint_or_zero(parse_ini_spec(render_spec(c)), "report"@, "power"@, u64::MAX as int) == c.power,
        lookup(parse_ini_spec(render_spec(c)), "timers"@, "punch_date"@) == Some(
            match c.punch {
                Some((d, _)) => ymd_text(d),
                None => Seq::empty(),
            },
        ),
        lookup(parse_ini_spec(render_spec(c)), "timers"@, "punch_time"@) == Some(
            match c.punch {
                Some((_, t)) => hm_text(t),
                None => Seq::empty(),
            },
        ),
        lookup(parse_ini_spec(render_spec(c)), "timers"@, "boss_date"@) == Some(
            match c.boss {
                Some((d, _)) => ymd_text(d),
                None => Seq::empty(),
            },
        ),
        lookup(parse_ini_spec(render_spec(c)), "timers"@, "boss_time"@) == Some(
            match c.boss {
                Some((_, t)) => hm_text(t),
                None => Seq::empty(),
            },
        ),
        value_or(parse_ini_spec(render_spec(c)), "ocr"@, "exp_label"@, "EXP"@) == c.exp_label@,
        value_or(parse_ini_spec(render_spec(c)), "ocr"@, "level_label"@, "Lv"@) == c.level_label@,
        lookup(parse_ini_spec(render_spec(c)), "meta"@, "uid"@) == match c.uid_cache {
            Some(u) => Some(u@),
            None => None::<Seq<char>>,
        },
        (lookup(parse_ini_spec(render_spec(c)), "net"@, "base"@) matches Some(b) && eq_ignore_ascii_case_spec(
            b,
            "local"@,
        )) == c.net_local,
        panel_of(parse_ini_spec(render_spec(c)), "x"@) == c.panel_x,
        panel_of(parse_ini_spec(render_spec(c)), "y"@) == c.panel_y,
{
    lemma_render_parses(c);
    lemma_words();
    lemma_names_distinct();
    lemma_keys_distinct();
    let es = parse_ini_spec(render_spec(c));
    let rp = report_pairs(c);
    let tp = timers_pairs(c);
    let op = ocr_pairs(c);
    let mp = meta_pairs(c);
    let np = net_pairs(c);
    let pp = panel_pairs(c);
    assert(section_pairs(c, "report"@) == rp);
    assert(section_pairs(c, "timers"@) == tp);
    assert(section_pairs(c, "ocr"@) == op);
    assert(section_pairs(c, "meta"@) == mp);
    assert(section_pairs(c, "net"@) == np);
    assert(section_pairs(c, "panel"@) == pp);
    // [report]
    lemma_lookup_render(c, "report"@, "level"@);
    lemma_pair_lookup_found(rp, 0, "level"@);
    lemma_lookup_render(c, "report"@, "job"@);
    lemma_pair_lookup_found(rp, 1, "job"@);
    lemma_lookup_render(c, "report"@, "map"@);
    lemma_pair_lookup_found(rp, 2, "map"@);
    lemma_lookup_render(c, "report"@, "mode"@);
    lemma_pair_lookup_found(rp, 3, "mode"@);
    lemma_lookup_render(c, "report"@, "power"@);
    lemma_pair_lookup_found(rp, 4, "power"@);
    lemma_parse_dec(c.level as nat, u32::MAX as int);
    lemma_parse_dec(c.power as nat, u64::MAX as int);
    // [timers]
    let a = timer_pairs("punch_date"@, "punch_time"@, c.punch);
    let b = timer_pairs("boss_date"@, "boss_time"@, c.boss);
    assert(tp.len() == 4);
    assert(tp[0] == a[0] && tp[1] == a[1] && tp[2] == b[0] && tp[3] == b[1]);
    lemma_lookup_render(c, "timers"@, "punch_date"@);
    lemma_pair_lookup_found(tp, 0, "punch_date"@);
    lemma_lookup_render(c, "timers"@, "punch_time"@);
    lemma_pair_lookup_found(tp, 1, "punch_time"@);
    lemma_lookup_render(c, "timers"@, "boss_date"@);
    lemma_pair_lookup_found(tp, 2, "boss_date"@);
    lemma_lookup_render(c, "timers"@, "boss_time"@);
    lemma_pair_lookup_found(tp, 3, "boss_time"@);
    // [ocr]
    lemma_lookup_render(c, "ocr"@, "exp_label"@);
    lemma_pair_lookup_found(op, 0, "exp_label"@);
    lemma_lookup_render(c, "ocr"@, "level_label"@);
    lemma_pair_lookup_found(op, 1, "level_label"@);
    // [meta]
    lemma_lookup_render(c, "meta"@, "uid"@);
    match c.uid_cache {
        Some(u) => lemma_pair_lookup_found(mp, 0, "uid"@),
        None => lemma_pair_lookup_none(mp, "uid"@),
    }
    // [net]
    lemma_lookup_render(c, "net"@, "base"@);
    lemma_pair_lookup_found(np, 0, "base"@);
    reveal_strlit("local");
    reveal_strlit("prod");
    assert(eq_ignore_ascii_case_spec("local"@, "local"@));
    assert(!eq_ignore_ascii_case_spec("prod"@, "local"@));
    // [panel]
    lemma_lookup_render(c, "panel"@, "x"@);
    lemma_pair_lookup_found(pp, 0, "x"@);
    lemma_lookup_render(c, "panel"@, "y"@);
    lemma_pair_lookup_found(pp, 1, "y"@);
    lemma_parse_milli_text(c.panel_x as int);
    lemma_parse_milli_text(c.panel_y as int);
}

} // verus!
