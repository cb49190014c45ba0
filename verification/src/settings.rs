//! The desktop shell's settings: a JSON object in memory, an INI file
//! (`settings.ini`) on disk. This module holds the object model, the two
//! conversions between object and INI text, the "blank value" rules and the
//! merge of the legacy `settings.json` into the INI settings.
//!
//! An object is a list of members sorted by key, as serde_json's map keeps
//! them; a member's value is a scalar, an array of items or an object of
//! items, where an item is a scalar or (deeper down) a container carried as
//! its JSON text.
use crate::config::{
    all_digits, digits_in, digits_val, first_eq, join_lines, lemma_digits_val_dec, lemma_first_eq_found,
    lemma_concat_lines, lemma_join_push, lemma_line_end_found, lemma_line_end_props, lemma_lines_cons, lemma_lines_end, lemma_lines_join, lemma_parse_dec,
    lemma_trim_id, line_end, lines_from, no_newline, parse_uint, parse_uint_spec, slice_string, trim_bounds,
};
use crate::net::{json_get_str, json_quote, json_str, json_str_field};
use crate::text::{
    char_vec, dec, int_dec, is_ws, lowercase, push_int, to_lower, trim_end_spec, trim_spec, trim_start_spec,
};
use vstd::prelude::*;

verus! {

// ---------------------------------------------------------------------------
// Key order
// ---------------------------------------------------------------------------

/// Lexicographic order of texts from position `i` on, by code point (the
/// order of Rust's `str`, which compares UTF-8 bytes, and UTF-8 keeps code
/// point order).
pub open spec fn text_lt_at(a: Seq<char>, b: Seq<char>, i: int) -> bool
    decreases a.len() - i,
{
    if i < 0 || i >= a.len() {
        0 <= i < b.len()
    } else if i >= b.len() {
        false
    } else if a[i] != b[i] {
        (a[i] as int) < (b[i] as int)
    } else {
        text_lt_at(a, b, i + 1)
    }
}

/// `a` sorts strictly before `b`.
pub open spec fn text_lt(a: Seq<char>, b: Seq<char>) -> bool {
    text_lt_at(a, b, 0)
}

proof fn lemma_lt_irreflexive(a: Seq<char>, i: int)
    requires
        0 <= i,
    ensures
        !text_lt_at(a, a, i),
    decreases a.len() - i,
{
    if i < a.len() {
        lemma_lt_irreflexive(a, i + 1);
    }
}

proof fn lemma_lt_total(a: Seq<char>, b: Seq<char>, i: int)
    requires
        0 <= i <= a.len(),
        i <= b.len(),
        a.subrange(0, i) == b.subrange(0, i),
        a != b,
    ensures
        text_lt_at(a, b, i) || text_lt_at(b, a, i),
    decreases a.len() - i,
{
    if i < a.len() && i < b.len() && a[i] == b[i] {
        assert(a.subrange(0, i + 1) =~= a.subrange(0, i).push(a[i]));
        assert(b.subrange(0, i + 1) =~= b.subrange(0, i).push(b[i]));
        lemma_lt_total(a, b, i + 1);
    } else if i == a.len() && i == b.len() {
        assert(a =~= a.subrange(0, i));
        assert(b =~= b.subrange(0, i));
        assert(a == b);
    } else if i < a.len() && i < b.len() {
        assert(a[i] as int != b[i] as int);
    }
}

proof fn lemma_lt_trans(a: Seq<char>, b: Seq<char>, c: Seq<char>, i: int)
    requires
        0 <= i,
        text_lt_at(a, b, i),
        text_lt_at(b, c, i),
    ensures
        text_lt_at(a, c, i),
    decreases a.len() - i,
{
    if i < a.len() && i < b.len() && i < c.len() && a[i] == b[i] && b[i] == c[i] {
        lemma_lt_trans(a, b, c, i + 1);
    }
}

proof fn lemma_lt_asym(a: Seq<char>, b: Seq<char>, i: int)
    requires
        0 <= i,
        text_lt_at(a, b, i),
    ensures
        !text_lt_at(b, a, i),
    decreases a.len() - i,
{
    if i < a.len() && i < b.len() && a[i] == b[i] {
        lemma_lt_asym(a, b, i + 1);
    }
}

/// Whether `a` sorts strictly before `b`.
pub fn text_lt_exec(a: &str, b: &str) -> (r: bool)
    ensures
        r == text_lt(a@, b@),
{
    let x = char_vec(a);
    let y = char_vec(b);
    let mut i: usize = 0;
    while i < x.len() && i < y.len() && x[i] == y[i]
        invariant
            x@ == a@,
            y@ == b@,
            i <= x@.len(),
            i <= y@.len(),
            text_lt(a@, b@) == text_lt_at(a@, b@, i as int),
        decreases x@.len() - i,
    {
        i = i + 1;
    }
    if i == x.len() {
        i < y.len()
    } else if i == y.len() {
        false
    } else {
        x[i] < y[i]
    }
}

// ---------------------------------------------------------------------------
// Sorted association lists
// ---------------------------------------------------------------------------

/// Keys strictly increasing (hence unique).
pub open spec fn keys_sorted<V>(s: Seq<(Seq<char>, V)>) -> bool {
    forall|i: int, j: int| 0 <= i < j < s.len() ==> text_lt(#[trigger] s[i].0, #[trigger] s[j].0)
}

/// The value under `k` (the first one).
pub open spec fn assoc_get<V>(s: Seq<(Seq<char>, V)>, k: Seq<char>) -> Option<V>
    decreases s.len(),
{
    if s.len() == 0 {
        None
    } else if s[0].0 == k {
        Some(s[0].1)
    } else {
        assoc_get(s.drop_first(), k)
    }
}

/// Insertion into a sorted list: an existing `k` gets the new value in
/// place, otherwise `(k, x)` goes before the first greater key.
pub open spec fn assoc_put<V>(s: Seq<(Seq<char>, V)>, k: Seq<char>, x: V) -> Seq<(Seq<char>, V)>
    decreases s.len(),
{
    if s.len() == 0 {
        seq![(k, x)]
    } else if s[0].0 == k {
        seq![(k, x)] + s.drop_first()
    } else if text_lt(k, s[0].0) {
        seq![(k, x)] + s
    } else {
        seq![s[0]] + assoc_put(s.drop_first(), k, x)
    }
}

/// The view of a list of keyed values.
pub open spec fn pairs_view<V: View>(s: Seq<(String, V)>) -> Seq<(Seq<char>, V::V)> {
    s.map_values(|p: (String, V)| (p.0@, p.1@))
}

proof fn lemma_put_skip<V>(s: Seq<(Seq<char>, V)>, k: Seq<char>, x: V, i: int)
    requires
        0 <= i <= s.len(),
        forall|j: int| 0 <= j < i ==> s[j].0 != k && !text_lt(k, #[trigger] s[j].0),
    ensures
        assoc_put(s, k, x) == s.subrange(0, i) + assoc_put(s.subrange(i, s.len() as int), k, x),
    decreases i,
{
    if i == 0 {
        assert(s.subrange(0, 0) + s.subrange(0, s.len() as int) =~= s.subrange(0, s.len() as int));
        assert(s.subrange(0, s.len() as int) =~= s);
    } else {
        let t = s.drop_first();
        assert forall|j: int| 0 <= j < i - 1 implies t[j].0 != k && !text_lt(k, #[trigger] t[j].0) by {
            assert(t[j] == s[j + 1]);
        }
        lemma_put_skip(t, k, x, i - 1);
        assert(t.subrange(i - 1, t.len() as int) =~= s.subrange(i, s.len() as int));
        assert(seq![s[0]] + t.subrange(0, i - 1) =~= s.subrange(0, i));
        assert(s[0].0 != k && !text_lt(k, s[0].0));
        assert(assoc_put(s, k, x) == seq![s[0]] + assoc_put(t, k, x));
        assert(seq![s[0]] + (t.subrange(0, i - 1) + assoc_put(s.subrange(i, s.len() as int), k, x))
            =~= s.subrange(0, i) + assoc_put(s.subrange(i, s.len() as int), k, x));
    }
}

proof fn lemma_put_above<V>(s: Seq<(Seq<char>, V)>, k: Seq<char>, x: V, a: Seq<char>)
    requires
        forall|j: int| 0 <= j < s.len() ==> text_lt(a, #[trigger] s[j].0),
        text_lt(a, k),
    ensures
        forall|i: int| 0 <= i < assoc_put(s, k, x).len() ==> text_lt(a, #[trigger] assoc_put(s, k, x)[i].0),
    decreases s.len(),
{
    let p = assoc_put(s, k, x);
    if s.len() > 0 && s[0].0 != k && !text_lt(k, s[0].0) {
        let t = s.drop_first();
        assert forall|j: int| 0 <= j < t.len() implies text_lt(a, #[trigger] t[j].0) by {
            assert(t[j] == s[j + 1]);
        }
        lemma_put_above(t, k, x, a);
        assert forall|i: int| 0 <= i < p.len() implies text_lt(a, #[trigger] p[i].0) by {
            if i > 0 {
                assert(p[i] == assoc_put(t, k, x)[i - 1]);
            }
        }
    } else if s.len() > 0 && s[0].0 == k {
        assert forall|i: int| 0 <= i < p.len() implies text_lt(a, #[trigger] p[i].0) by {
            if i > 0 {
                assert(p[i] == s[i]);
            }
        }
    } else if s.len() > 0 {
        assert forall|i: int| 0 <= i < p.len() implies text_lt(a, #[trigger] p[i].0) by {
            if i > 0 {
                assert(p[i] == s[i - 1]);
            }
        }
    }
}

/// Law: putting into a sorted list keeps it sorted.
pub proof fn lemma_put_sorted<V>(s: Seq<(Seq<char>, V)>, k: Seq<char>, x: V)
    requires
        keys_sorted(s),
    ensures
        keys_sorted(assoc_put(s, k, x)),
    decreases s.len(),
{
    let p = assoc_put(s, k, x);
    if s.len() == 0 {
    } else if s[0].0 == k {
        assert forall|i: int, j: int| 0 <= i < j < p.len() implies text_lt(#[trigger] p[i].0, #[trigger] p[j].0) by {
            assert(p[j] == s[j]);
            if i > 0 {
                assert(p[i] == s[i]);
            }
        }
    } else if text_lt(k, s[0].0) {
        assert forall|i: int, j: int| 0 <= i < j < p.len() implies text_lt(#[trigger] p[i].0, #[trigger] p[j].0) by {
            assert(p[j] == s[j - 1]);
            if i > 0 {
                assert(p[i] == s[i - 1]);
            } else if j > 1 {
                assert(text_lt(s[0].0, s[j - 1].0));
                lemma_lt_trans(k, s[0].0, s[j - 1].0, 0);
            }
        }
    } else {
        let t = s.drop_first();
        assert(keys_sorted(t)) by {
            assert forall|i: int, j: int| 0 <= i < j < t.len() implies text_lt(#[trigger] t[i].0, #[trigger] t[j].0) by {
                assert(t[i] == s[i + 1] && t[j] == s[j + 1]);
            }
        }
        lemma_put_sorted(t, k, x);
        assert(s[0].0.subrange(0, 0) =~= k.subrange(0, 0));
        lemma_lt_total(s[0].0, k, 0);
        assert forall|j: int| 0 <= j < t.len() implies text_lt(s[0].0, #[trigger] t[j].0) by {
            assert(t[j] == s[j + 1]);
        }
        lemma_put_above(t, k, x, s[0].0);
        let q = assoc_put(t, k, x);
        assert forall|i: int, j: int| 0 <= i < j < p.len() implies text_lt(#[trigger] p[i].0, #[trigger] p[j].0) by {
            assert(p[j] == q[j - 1]);
            if i > 0 {
                assert(p[i] == q[i - 1]);
            }
        }
    }
}

/// Law: after putting `(k, x)`, `k` gives `x` and every other key gives
/// what it gave before.
pub proof fn lemma_put_get<V>(s: Seq<(Seq<char>, V)>, k: Seq<char>, x: V, j: Seq<char>)
    ensures
        assoc_get(assoc_put(s, k, x), j) == (if j == k { Some(x) } else { assoc_get(s, j) }),
    decreases s.len(),
{
    let p = assoc_put(s, k, x);
    reveal_with_fuel(assoc_get, 2);
    if s.len() == 0 {
        assert(p[0] == (k, x));
        assert(p.drop_first() =~= Seq::<(Seq<char>, V)>::empty());
    } else if s[0].0 == k {
        assert(p[0] == (k, x));
        assert(p.drop_first() =~= s.drop_first());
    } else if text_lt(k, s[0].0) {
        assert(p[0] == (k, x));
        assert(p.drop_first() =~= s);
    } else {
        lemma_put_get(s.drop_first(), k, x, j);
        assert(p[0] == s[0]);
        assert(p.drop_first() =~= assoc_put(s.drop_first(), k, x));
    }
}

/// Puts `(k, x)` into the sorted list `v` (see [`assoc_put`]).
pub fn put_pair<V: View>(v: &mut Vec<(String, V)>, k: String, x: V)
    ensures
        pairs_view(final(v)@) == assoc_put(pairs_view(old(v)@), k@, x@),
{
    let ghost s = pairs_view(v@);
    let mut i: usize = 0;
    let n = v.len();
    while i < n
        invariant
            n == v@.len(),
            i <= n,
            s == pairs_view(v@),
            forall|j: int| 0 <= j < i ==> s[j].0 != k@ && !text_lt(k@, #[trigger] s[j].0),
        ensures
            i <= n,
            i < n ==> (s[i as int].0 == k@ || text_lt(k@, s[i as int].0)),
            forall|j: int| 0 <= j < i ==> s[j].0 != k@ && !text_lt(k@, #[trigger] s[j].0),
        decreases n - i,
    {
        let same = v[i].0 == k;
        let before = text_lt_exec(k.as_str(), v[i].0.as_str());
        if same || before {
            break;
        }
        i = i + 1;
    }
    proof {
        lemma_put_skip(s, k@, x@, i as int);
    }
    let ghost rest = s.subrange(i as int, s.len() as int);
    if i == n {
        v.push((k, x));
        proof {
            assert(rest =~= Seq::<(Seq<char>, V::V)>::empty());
            assert(pairs_view(v@) =~= s.subrange(0, i as int) + seq![(k@, x@)]);
        }
    } else if v[i].0 == k {
        let ghost kv = k@;
        v.set(i, (k, x));
        proof {
            assert(rest[0] == s[i as int]);
            assert(rest.drop_first() =~= s.subrange(i + 1, s.len() as int));
            assert(pairs_view(v@) =~= s.subrange(0, i as int) + (seq![(kv, x@)] + rest.drop_first()));
        }
    } else {
        let ghost kv = k@;
        v.insert(i, (k, x));
        proof {
            assert(rest[0] == s[i as int]);
            assert(pairs_view(v@) =~= s.subrange(0, i as int) + (seq![(kv, x@)] + rest));
        }
    }
}

// ---------------------------------------------------------------------------
// The object model
// ---------------------------------------------------------------------------

/// A JSON scalar; inside an array or an object member, a deeper container
/// is carried as its compact JSON text.
pub enum Scalar {
    Null,
    Bool(bool),
    Int(i64),
    /// A number that serde_json does not hand out as `i64` (a fraction, an
    /// exponent, or beyond the `i64` range), as its JSON text.
    BigNum(String),
    Text(String),
    /// An array or object below the top level, as its JSON text.
    Composite(String),
}

/// The view of a [`Scalar`].
pub enum ScalarV {
    Null,
    Bool(bool),
    Int(i64),
    BigNum(Seq<char>),
    Text(Seq<char>),
    Composite(Seq<char>),
}

impl View for Scalar {
    type V = ScalarV;

    open spec fn view(&self) -> ScalarV {
        match self {
            Scalar::Null => ScalarV::Null,
            Scalar::Bool(b) => ScalarV::Bool(*b),
            Scalar::Int(n) => ScalarV::Int(*n),
            Scalar::BigNum(t) => ScalarV::BigNum(t@),
            Scalar::Text(t) => ScalarV::Text(t@),
            Scalar::Composite(t) => ScalarV::Composite(t@),
        }
    }
}

/// The value of a top-level member.
pub enum SVal {
    Leaf(Scalar),
    Arr(Vec<Scalar>),
    Obj(Vec<(String, Scalar)>),
}

/// The view of an [`SVal`].
pub enum SValV {
    Leaf(ScalarV),
    Arr(Seq<ScalarV>),
    Obj(Seq<(Seq<char>, ScalarV)>),
}

impl View for SVal {
    type V = SValV;

    open spec fn view(&self) -> SValV {
        match self {
            SVal::Leaf(x) => SValV::Leaf(x@),
            SVal::Arr(xs) => SValV::Arr(xs@.map_values(|x: Scalar| x@)),
            SVal::Obj(es) => SValV::Obj(pairs_view(es@)),
        }
    }
}

/// A settings object: its members, sorted by key.
pub struct Settings {
    pub members: Vec<(String, SVal)>,
}

impl View for Settings {
    type V = Seq<(Seq<char>, SValV)>;

    open spec fn view(&self) -> Seq<(Seq<char>, SValV)> {
        pairs_view(self.members@)
    }
}

impl Settings {
    /// Keys sorted and unique.
    pub open spec fn wf(&self) -> bool {
        keys_sorted(self@)
    }

    /// The empty object.
    pub fn new() -> (r: Self)
        ensures
            r@ == Seq::<(Seq<char>, SValV)>::empty(),
            r.wf(),
    {
        Settings { members: Vec::new() }
    }

    /// Sets member `k` to `v` (replacing any value it had).
    pub fn put(&mut self, k: String, v: SVal)
        requires
            old(self).wf(),
        ensures
            final(self)@ == assoc_put(old(self)@, k@, v@),
            final(self).wf(),
    {
        let ghost kv = k@;
        let ghost vv = v@;
        put_pair(&mut self.members, k, v);
        proof {
            lemma_put_sorted(old(self)@, kv, vv);
        }
    }
}

/// serde_json `as_i64` of a scalar.
pub open spec fn scalar_i64(x: ScalarV) -> Option<i64> {
    match x {
        ScalarV::Int(n) => Some(n),
        _ => None,
    }
}

/// serde_json `as_i64` of a member value.
pub open spec fn val_i64(v: SValV) -> Option<i64> {
    match v {
        SValV::Leaf(x) => scalar_i64(x),
        _ => None,
    }
}

/// Compact JSON text of a scalar (serde_json `to_string`).
pub open spec fn scalar_json(x: ScalarV) -> Seq<char> {
    match x {
        ScalarV::Null => "null"@,
        ScalarV::Bool(b) => if b { "true"@ } else { "false"@ },
        ScalarV::Int(n) => int_dec(n as int),
        ScalarV::BigNum(t) => t,
        ScalarV::Text(t) => json_str(t),
        ScalarV::Composite(t) => t,
    }
}

/// Texts joined by commas.
pub open spec fn comma_join(parts: Seq<Seq<char>>) -> Seq<char>
    decreases parts.len(),
{
    if parts.len() == 0 {
        Seq::empty()
    } else if parts.len() == 1 {
        parts[0]
    } else {
        comma_join(parts.drop_last()) + ","@ + parts.last()
    }
}

/// Compact JSON text of a member value.
pub open spec fn val_json(v: SValV) -> Seq<char> {
    match v {
        SValV::Leaf(x) => scalar_json(x),
        SValV::Arr(xs) => "["@ + comma_join(xs.map_values(|x: ScalarV| scalar_json(x))) + "]"@,
        SValV::Obj(es) => "{"@ + comma_join(
            es.map_values(|e: (Seq<char>, ScalarV)| json_str(e.0) + ":"@ + scalar_json(e.1)),
        ) + "}"@,
    }
}

/// A scalar as INI text: a string as it is, anything else as JSON.
pub open spec fn scalar_text(x: ScalarV) -> Seq<char> {
    match x {
        ScalarV::Text(t) => t,
        _ => scalar_json(x),
    }
}

/// A member value as INI text: a string as it is, anything else as JSON.
pub open spec fn val_text(v: SValV) -> Seq<char> {
    match v {
        SValV::Leaf(x) => scalar_text(x),
        _ => val_json(v),
    }
}

fn scalar_json_exec(x: &Scalar) -> (r: String)
    ensures
        r@ == scalar_json(x@),
{
    match x {
        Scalar::Null => String::from_str("null"),
        Scalar::Bool(b) => if *b {
            String::from_str("true")
        } else {
            String::from_str("false")
        },
        Scalar::Int(n) => {
            let mut s = String::new();
            push_int(&mut s, *n);
            assert(s@ =~= int_dec(*n as int));
            s
        },
        Scalar::BigNum(t) => t.clone(),
        Scalar::Text(t) => json_quote(t.as_str()),
        Scalar::Composite(t) => t.clone(),
    }
}

/// A scalar as INI text (see [`scalar_text`]).
pub fn scalar_text_exec(x: &Scalar) -> (r: String)
    ensures
        r@ == scalar_text(x@),
{
    match x {
        Scalar::Text(t) => t.clone(),
        _ => scalar_json_exec(x),
    }
}

proof fn lemma_comma_push(parts: Seq<Seq<char>>, p: Seq<char>)
    ensures
        comma_join(parts.push(p)) == if parts.len() == 0 { p } else { comma_join(parts) + ","@ + p },
{
    assert(parts.push(p).drop_last() =~= parts);
}

/// A member value as INI text (see [`val_text`]).
pub fn val_text_exec(v: &SVal) -> (r: String)
    ensures
        r@ == val_text(v@),
{
    match v {
        SVal::Leaf(x) => scalar_text_exec(x),
        SVal::Arr(xs) => {
            let ghost parts = xs@.map_values(|x: Scalar| scalar_json(x@));
            let mut s = String::from_str("[");
            let mut i: usize = 0;
            while i < xs.len()
                invariant
                    i <= xs@.len(),
                    parts == xs@.map_values(|x: Scalar| scalar_json(x@)),
                    s@ == "["@ + comma_join(parts.take(i as int)),
                decreases xs@.len() - i,
            {
                if i > 0 {
                    s.append(",");
                }
                let t = scalar_json_exec(&xs[i]);
                s.append(t.as_str());
                proof {
                    lemma_comma_push(parts.take(i as int), parts[i as int]);
                    assert(parts.take(i + 1) =~= parts.take(i as int).push(parts[i as int]));
                }
                i = i + 1;
            }
            s.append("]");
            proof {
                assert(parts.take(xs@.len() as int) =~= parts);
                assert(parts =~= xs@.map_values(|x: Scalar| x@).map_values(|x: ScalarV| scalar_json(x)));
            }
            s
        },
        SVal::Obj(es) => {
            let ghost parts = es@.map_values(|e: (String, Scalar)| json_str(e.0@) + ":"@ + scalar_json(e.1@));
            let mut s = String::from_str("{");
            let mut i: usize = 0;
            while i < es.len()
                invariant
                    i <= es@.len(),
                    parts == es@.map_values(|e: (String, Scalar)| json_str(e.0@) + ":"@ + scalar_json(e.1@)),
                    s@ == "{"@ + comma_join(parts.take(i as int)),
                decreases es@.len() - i,
            {
                if i > 0 {
                    s.append(",");
                }
                let k = json_quote(es[i].0.as_str());
                s.append(k.as_str());
                s.append(":");
                let t = scalar_json_exec(&es[i].1);
                s.append(t.as_str());
                proof {
                    lemma_comma_push(parts.take(i as int), parts[i as int]);
                    assert(parts.take(i + 1) =~= parts.take(i as int).push(parts[i as int]));
                }
                i = i + 1;
            }
            s.append("}");
            proof {
                assert(parts.take(es@.len() as int) =~= parts);
                assert(parts =~= pairs_view(es@).map_values(
                    |e: (Seq<char>, ScalarV)| json_str(e.0) + ":"@ + scalar_json(e.1),
                ));
            }
            s
        },
    }
}

// ---------------------------------------------------------------------------
// Blank values, default settings, merging
// ---------------------------------------------------------------------------

/// An unset value: null, an empty string or object, an empty or all-zero
/// array, or the number 1 (the default level).
pub open spec fn blank(v: SValV) -> bool {
    match v {
        SValV::Leaf(ScalarV::Null) => true,
        SValV::Leaf(ScalarV::Text(t)) => t.len() == 0,
        SValV::Leaf(ScalarV::Int(n)) => n == 1,
        SValV::Leaf(_) => false,
        SValV::Arr(xs) => forall|i: int| 0 <= i < xs.len() ==> scalar_i64(#[trigger] xs[i]) == Some(0i64),
        SValV::Obj(es) => es.len() == 0,
    }
}

/// Whether a value counts as unset (see [`blank`]).
pub fn is_blank(v: &SVal) -> (r: bool)
    ensures
        r == blank(v@),
{
    match v {
        SVal::Leaf(x) => match x {
            Scalar::Null => true,
            Scalar::Text(t) => t.as_str().is_empty(),
            Scalar::Int(n) => *n == 1,
            _ => false,
        },
        SVal::Arr(xs) => {
            let mut i: usize = 0;
            while i < xs.len()
                invariant
                    i <= xs@.len(),
                    v@ == SValV::Arr(xs@.map_values(|x: Scalar| x@)),
                    forall|j: int| 0 <= j < i ==> scalar_i64(#[trigger] xs@[j]@) == Some(0i64),
                decreases xs@.len() - i,
            {
                proof {
                    assert(xs@.map_values(|x: Scalar| x@)[i as int] == xs@[i as int]@);
                }
                match &xs[i] {
                    Scalar::Int(n) => if *n != 0 {
                        return false;
                    },
                    _ => return false,
                }
                i = i + 1;
            }
            proof {
                let w = xs@.map_values(|x: Scalar| x@);
                assert forall|j: int| 0 <= j < w.len() implies scalar_i64(#[trigger] w[j]) == Some(0i64) by {
                    assert(w[j] == xs@[j]@);
                }
            }
            true
        },
        SVal::Obj(es) => es.len() == 0,
    }
}

/// The member `k` of `s`, if any.
pub fn member<'a>(s: &'a Settings, k: &str) -> (r: Option<&'a SVal>)
    ensures
        match (r, assoc_get(s@, k@)) {
            (None, None) => true,
            (Some(v), Some(w)) => v@ == w,
            _ => false,
        },
{
    let n = s.members.len();
    let mut i: usize = 0;
    let key = String::from_str(k);
    assert(s@.skip(0) =~= s@);
    while i < n
        invariant
            n == s@.len(),
            i <= n,
            key@ == k@,
            assoc_get(s@, k@) == assoc_get(s@.skip(i as int), k@),
        decreases n - i,
    {
        if s.members[i].0 == key {
            return Some(&s.members[i].1);
        }
        assert(s@.skip(i as int).drop_first() =~= s@.skip(i + 1));
        i = i + 1;
    }
    None
}

/// The ini holds only what an early version wrote with default values:
/// level and outLevel 1, no job, no timers, no potions, no map (the window
/// position does not count).
pub open spec fn ini_defaults(s: Seq<(Seq<char>, SValV)>) -> bool {
    &&& (match assoc_get(s, "level"@) { Some(v) => val_i64(v) == Some(1i64), None => false })
    &&& (match assoc_get(s, "outLevel"@) { Some(v) => val_i64(v) == Some(1i64), None => false })
    &&& (match assoc_get(s, "job"@) { Some(SValV::Leaf(ScalarV::Text(t))) => t.len() == 0, _ => true })
    &&& (match assoc_get(s, "checkin999"@) { Some(v) => v == SValV::Leaf(ScalarV::Null), None => true })
    &&& (match assoc_get(s, "merchant"@) { Some(v) => v == SValV::Leaf(ScalarV::Null), None => true })
    &&& (match assoc_get(s, "boss"@) { Some(v) => v == SValV::Leaf(ScalarV::Null), None => true })
    &&& (match assoc_get(s, "potions"@) { Some(SValV::Obj(es)) => es.len() == 0, _ => true })
    &&& (match assoc_get(s, "map"@) { Some(SValV::Obj(es)) => es.len() == 0, _ => true })
}

fn is_int(v: Option<&SVal>, n: i64) -> (r: bool)
    ensures
        r == (match v { Some(x) => val_i64(x@) == Some(n), None => false }),
{
    match v {
        Some(SVal::Leaf(Scalar::Int(m))) => *m == n,
        _ => false,
    }
}

fn null_or_absent(v: Option<&SVal>) -> (r: bool)
    ensures
        r == (match v { Some(x) => x@ == SValV::Leaf(ScalarV::Null), None => true }),
{
    match v {
        Some(SVal::Leaf(Scalar::Null)) => true,
        Some(_) => false,
        None => true,
    }
}

fn no_entries(v: Option<&SVal>) -> (r: bool)
    ensures
        r == (match v { Some(x) => (match x@ { SValV::Obj(es) => es.len() == 0, _ => true }), None => true }),
{
    match v {
        Some(SVal::Obj(es)) => es.len() == 0,
        _ => true,
    }
}

/// Whether the settings are the default-valued shell (see [`ini_defaults`]).
pub fn ini_is_defaults(s: &Settings) -> (r: bool)
    ensures
        r == ini_defaults(s@),
{
    let job_empty = match member(s, "job") {
        Some(SVal::Leaf(Scalar::Text(t))) => t.as_str().is_empty(),
        _ => true,
    };
    is_int(member(s, "level"), 1) && is_int(member(s, "outLevel"), 1) && job_empty && null_or_absent(
        member(s, "checkin999"),
    ) && null_or_absent(member(s, "merchant")) && null_or_absent(member(s, "boss")) && no_entries(
        member(s, "potions"),
    ) && no_entries(member(s, "map"))
}

fn copy_scalar(x: &Scalar) -> (r: Scalar)
    ensures
        r@ == x@,
{
    match x {
        Scalar::Null => Scalar::Null,
        Scalar::Bool(b) => Scalar::Bool(*b),
        Scalar::Int(n) => Scalar::Int(*n),
        Scalar::BigNum(t) => Scalar::BigNum(t.clone()),
        Scalar::Text(t) => Scalar::Text(t.clone()),
        Scalar::Composite(t) => Scalar::Composite(t.clone()),
    }
}

/// A copy of a member value.
pub fn copy_val(v: &SVal) -> (r: SVal)
    ensures
        r@ == v@,
{
    match v {
        SVal::Leaf(x) => SVal::Leaf(copy_scalar(x)),
        SVal::Arr(xs) => {
            let mut out: Vec<Scalar> = Vec::new();
            let mut i: usize = 0;
            while i < xs.len()
                invariant
                    i <= xs@.len(),
                    out@.map_values(|x: Scalar| x@) == xs@.take(i as int).map_values(|x: Scalar| x@),
                decreases xs@.len() - i,
            {
                let ghost before = out@;
                let c = copy_scalar(&xs[i]);
                out.push(c);
                proof {
                    assert(xs@.take(i + 1) =~= xs@.take(i as int).push(xs@[i as int]));
                    assert(out@.map_values(|x: Scalar| x@) =~= before.map_values(|x: Scalar| x@).push(c@));
                    assert(xs@.take(i + 1).map_values(|x: Scalar| x@) =~= xs@.take(i as int).map_values(
                        |x: Scalar| x@,
                    ).push(xs@[i as int]@));
                }
                i = i + 1;
            }
            assert(xs@.take(xs@.len() as int) =~= xs@);
            SVal::Arr(out)
        },
        SVal::Obj(es) => {
            let mut out: Vec<(String, Scalar)> = Vec::new();
            let mut i: usize = 0;
            while i < es.len()
                invariant
                    i <= es@.len(),
                    pairs_view(out@) == pairs_view(es@.take(i as int)),
                decreases es@.len() - i,
            {
                let ghost before = out@;
                let c = copy_scalar(&es[i].1);
                let k = es[i].0.clone();
                out.push((k, c));
                proof {
                    assert(es@.take(i + 1) =~= es@.take(i as int).push(es@[i as int]));
                    assert(pairs_view(out@) =~= pairs_view(before).push((k@, c@)));
                    assert(pairs_view(es@.take(i + 1)) =~= pairs_view(es@.take(i as int)).push(
                        (es@[i as int].0@, es@[i as int].1@),
                    ));
                }
                i = i + 1;
            }
            assert(es@.take(es@.len() as int) =~= es@);
            SVal::Obj(out)
        },
    }
}

proof fn lemma_get_push<V>(s: Seq<(Seq<char>, V)>, e: (Seq<char>, V), j: Seq<char>)
    ensures
        assoc_get(s.push(e), j) == (match assoc_get(s, j) {
            Some(v) => Some(v),
            None => if e.0 == j { Some(e.1) } else { None },
        }),
    decreases s.len(),
{
    if s.len() == 0 {
        reveal_with_fuel(assoc_get, 2);
        assert(s.push(e).drop_first() =~= Seq::<(Seq<char>, V)>::empty());
    } else {
        assert(s.push(e).drop_first() =~= s.drop_first().push(e));
        lemma_get_push(s.drop_first(), e, j);
    }
}

proof fn lemma_get_absent<V>(s: Seq<(Seq<char>, V)>, j: Seq<char>)
    requires
        forall|m: int| 0 <= m < s.len() ==> (#[trigger] s[m]).0 != j,
    ensures
        assoc_get(s, j) is None,
    decreases s.len(),
{
    if s.len() > 0 {
        let t = s.drop_first();
        assert forall|m: int| 0 <= m < t.len() implies (#[trigger] t[m]).0 != j by {
            assert(t[m] == s[m + 1]);
        }
        lemma_get_absent(t, j);
    }
}

/// Under sorted keys, the key of entry `i` does not occur before it.
proof fn lemma_key_fresh<V>(s: Seq<(Seq<char>, V)>, i: int)
    requires
        keys_sorted(s),
        0 <= i < s.len(),
    ensures
        assoc_get(s.take(i), s[i].0) is None,
{
    assert forall|m: int| 0 <= m < s.take(i).len() implies (#[trigger] s.take(i)[m]).0 != s[i].0 by {
        assert(s.take(i)[m] == s[m]);
        assert(text_lt(s[m].0, s[i].0));
        lemma_lt_irreflexive(s[i].0, 0);
    }
    lemma_get_absent(s.take(i), s[i].0);
}

/// A member of `dst` after merging the legacy `src` into it: a set legacy
/// value fills a member that is missing or unset; every other member keeps
/// its value.
pub open spec fn merged_get(dst: Seq<(Seq<char>, SValV)>, src: Seq<(Seq<char>, SValV)>, k: Seq<char>) -> Option<SValV> {
    match assoc_get(src, k) {
        Some(v) => if !blank(v) && (match assoc_get(dst, k) {
            None => true,
            Some(d) => blank(d),
        }) {
            Some(v)
        } else {
            assoc_get(dst, k)
        },
        None => assoc_get(dst, k),
    }
}

fn fill_from(dst: &mut Settings, src: &Settings)
    requires
        old(dst).wf(),
        src.wf(),
    ensures
        final(dst).wf(),
        forall|k: Seq<char>| #[trigger] assoc_get(final(dst)@, k) == merged_get(old(dst)@, src@, k),
{
    let ghost d0 = dst@;
    let n = src.members.len();
    let mut i: usize = 0;
    while i < n
        invariant
            n == src@.len(),
            i <= n,
            src.wf(),
            dst.wf(),
            forall|k: Seq<char>| #[trigger] assoc_get(dst@, k) == merged_get(d0, src@.take(i as int), k),
        decreases n - i,
    {
        let k = &src.members[i].0;
        let v = &src.members[i].1;
        let ghost e = src@[i as int];
        proof {
            lemma_key_fresh(src@, i as int);
            assert(src@.take(i + 1) =~= src@.take(i as int).push(e));
            assert forall|j: Seq<char>| #[trigger] merged_get(d0, src@.take(i + 1), j) == (if j == e.0 {
                merged_get(d0, seq![e], j)
            } else {
                merged_get(d0, src@.take(i as int), j)
            }) by {
                lemma_get_push(src@.take(i as int), e, j);
                reveal_with_fuel(assoc_get, 2);
            }
        }
        let take = if is_blank(v) {
            false
        } else {
            match member(dst, k.as_str()) {
                None => true,
                Some(d) => is_blank(d),
            }
        };
        if take {
            let ghost before = dst@;
            let c = copy_val(v);
            dst.put(k.clone(), c);
            proof {
                assert forall|j: Seq<char>| #[trigger] assoc_get(dst@, j) == merged_get(d0, src@.take(i + 1), j) by {
                    lemma_put_get(before, e.0, e.1, j);
                    reveal_with_fuel(assoc_get, 2);
                }
            }
        } else {
            proof {
                assert forall|j: Seq<char>| #[trigger] assoc_get(dst@, j) == merged_get(d0, src@.take(i + 1), j) by {
                    reveal_with_fuel(assoc_get, 2);
                }
            }
        }
        i = i + 1;
    }
    assert(src@.take(n as int) =~= src@);
}

/// Startup merge of the legacy `settings.json` (when one was found) into
/// the INI settings (`None` when the INI file is missing): a missing INI or
/// one that only holds defaults is replaced by the legacy settings as a
/// whole; otherwise the legacy values fill the members that are missing or
/// unset. The flag says whether there was a legacy file, i.e. whether the
/// result is to be written back and the legacy file retired.
pub fn merge_legacy(current: Option<Settings>, legacy: Option<Settings>) -> (r: (Settings, bool))
    requires
        current matches Some(c) ==> c.wf(),
        legacy matches Some(l) ==> l.wf(),
    ensures
        r.0.wf(),
        r.1 == legacy is Some,
        legacy is None ==> r.0@ == (match current { Some(c) => c@, None => Seq::empty() }),
        legacy matches Some(l) ==> match current {
            None => r.0@ == l@,
            Some(c) => if ini_defaults(c@) {
                r.0@ == l@
            } else {
                forall|k: Seq<char>| #[trigger] assoc_get(r.0@, k) == merged_get(c@, l@, k)
            },
        },
{
    match legacy {
        None => match current {
            Some(c) => (c, false),
            None => (Settings::new(), false),
        },
        Some(l) => match current {
            None => (l, true),
            Some(mut c) => {
                if ini_is_defaults(&c) {
                    (l, true)
                } else {
                    fill_from(&mut c, &l);
                    (c, true)
                }
            },
        },
    }
}

/// Applies a settings patch: each member of `patch` replaces or adds the
/// member of the same key.
pub fn apply_patch(s: &mut Settings, patch: &Settings)
    requires
        old(s).wf(),
        patch.wf(),
    ensures
        final(s).wf(),
        forall|k: Seq<char>| #[trigger] assoc_get(final(s)@, k) == (match assoc_get(patch@, k) {
            Some(v) => Some(v),
            None => assoc_get(old(s)@, k),
        }),
{
    let ghost s0 = s@;
    let n = patch.members.len();
    let mut i: usize = 0;
    while i < n
        invariant
            n == patch@.len(),
            i <= n,
            patch.wf(),
            s.wf(),
            forall|k: Seq<char>| #[trigger] assoc_get(s@, k) == (match assoc_get(patch@.take(i as int), k) {
                Some(v) => Some(v),
                None => assoc_get(s0, k),
            }),
        decreases n - i,
    {
        let ghost e = patch@[i as int];
        let ghost before = s@;
        let c = copy_val(&patch.members[i].1);
        s.put(patch.members[i].0.clone(), c);
        proof {
            lemma_key_fresh(patch@, i as int);
            assert(patch@.take(i + 1) =~= patch@.take(i as int).push(e));
            assert forall|k: Seq<char>| #[trigger] assoc_get(s@, k) == (match assoc_get(patch@.take(i + 1), k) {
                Some(v) => Some(v),
                None => assoc_get(s0, k),
            }) by {
                lemma_get_push(patch@.take(i as int), e, k);
                lemma_put_get(before, e.0, e.1, k);
            }
        }
        i = i + 1;
    }
    assert(patch@.take(n as int) =~= patch@);
}

// ---------------------------------------------------------------------------
// INI text to settings
// ---------------------------------------------------------------------------

/// std `i64` parsing: an optional sign, then at least one digit, within range.
pub open spec fn parse_i64_spec(s: Seq<char>) -> Option<i64> {
    if s.len() > 0 && s[0] == '-' {
        let b = s.drop_first();
        if b.len() > 0 && all_digits(b) && digits_val(b) <= 0x8000_0000_0000_0000 {
            Some((-digits_val(b)) as i64)
        } else {
            None
        }
    } else {
        match parse_uint_spec(s, i64::MAX as int) {
            Some(n) => Some(n as i64),
            None => None,
        }
    }
}

/// `s.parse::<i64>()`, as an `Option`.
pub fn parse_i64(s: &str) -> (r: Option<i64>)
    ensures
        r == parse_i64_spec(s@),
{
    let v = char_vec(s);
    if v.len() > 0 && v[0] == '-' {
        proof {
            assert(v@.subrange(1, v@.len() as int) =~= s@.drop_first());
        }
        if v.len() == 1 {
            return None;
        }
        match digits_in(&v, 1, v.len(), 0x8000_0000_0000_0000) {
            Some(d) => if d == 0x8000_0000_0000_0000 {
                Some(i64::MIN)
            } else {
                Some(-(d as i64))
            },
            None => None,
        }
    } else {
        match parse_uint(s, 0x7fff_ffff_ffff_ffff) {
            Some(n) => Some(n as i64),
            None => None,
        }
    }
}

/// A parsed number, or `d` when the text is not one.
pub open spec fn i64_or(p: Option<i64>, d: i64) -> i64 {
    match p {
        Some(n) => n,
        None => d,
    }
}

/// What one INI line is.
pub enum LineKind {
    Skip,
    Header(Seq<char>),
    Pair(Seq<char>, Seq<char>),
}

/// A line, trimmed: empty lines and `;`/`#` comments are skipped; `[name]`
/// opens section `name` (as written between the brackets); `key=value`
/// splits at the first `=`, both sides trimmed; any other line is skipped.
pub open spec fn line_kind(line: Seq<char>) -> LineKind {
    let t = trim_spec(line);
    if t.len() == 0 || t[0] == ';' || t[0] == '#' {
        LineKind::Skip
    } else if t[0] == '[' && t.last() == ']' {
        LineKind::Header(t.subrange(1, t.len() - 1))
    } else {
        let eq = first_eq(t, 0);
        if eq < t.len() {
            LineKind::Pair(trim_spec(t.subrange(0, eq)), trim_spec(t.subrange(eq + 1, t.len() as int)))
        } else {
            LineKind::Skip
        }
    }
}

/// The scan state: current section, window position, and the members read
/// so far per section.
pub struct ScanV {
    pub sec: Seq<char>,
    pub wx: i64,
    pub wy: i64,
    pub player: Seq<(Seq<char>, ScalarV)>,
    pub potions: Seq<(Seq<char>, ScalarV)>,
    pub checkin: Seq<(Seq<char>, ScalarV)>,
    pub map: Seq<(Seq<char>, ScalarV)>,
}

/// One `key=value` line applied to the scan state.
pub open spec fn scan_pair(a: ScanV, k: Seq<char>, v: Seq<char>) -> ScanV {
    if a.sec == "window"@ {
        if k == "x"@ {
            ScanV { wx: i64_or(parse_i64_spec(v), 0), ..a }
        } else if k == "y"@ {
            ScanV { wy: i64_or(parse_i64_spec(v), 0), ..a }
        } else {
            a
        }
    } else if a.sec == "player"@ {
        let x = if k == "level"@ || k == "outLevel"@ {
            ScalarV::Int(i64_or(parse_i64_spec(v), 1))
        } else {
            ScalarV::Text(v)
        };
        ScanV { player: assoc_put(a.player, k, x), ..a }
    } else if a.sec == "potions"@ {
        ScanV { potions: assoc_put(a.potions, k, ScalarV::Int(i64_or(parse_i64_spec(v), 0))), ..a }
    } else if a.sec == "checkin"@ {
        ScanV { checkin: assoc_put(a.checkin, k, ScalarV::Int(i64_or(parse_i64_spec(v), 0))), ..a }
    } else if a.sec == "map"@ {
        let x = if k == "mapid"@ {
            ScalarV::Int(i64_or(parse_i64_spec(v), 0))
        } else {
            ScalarV::Text(v)
        };
        ScanV { map: assoc_put(a.map, k, x), ..a }
    } else {
        a
    }
}

/// One line applied to the scan state.
pub open spec fn scan_step(a: ScanV, line: Seq<char>) -> ScanV {
    match line_kind(line) {
        LineKind::Skip => a,
        LineKind::Header(h) => ScanV { sec: h, ..a },
        LineKind::Pair(k, v) => scan_pair(a, k, v),
    }
}

/// The scan state after the first `n` lines.
pub open spec fn scan_fold(lines: Seq<Seq<char>>, n: int) -> ScanV
    decreases n,
{
    if n <= 0 {
        ScanV {
            sec: Seq::empty(),
            wx: 0,
            wy: 0,
            player: Seq::empty(),
            potions: Seq::empty(),
            checkin: Seq::empty(),
            map: Seq::empty(),
        }
    } else {
        scan_step(scan_fold(lines, n - 1), lines[n - 1])
    }
}

/// A scalar read from a section, or `d`.
pub open spec fn leaf_or(s: Seq<(Seq<char>, ScalarV)>, k: Seq<char>, d: ScalarV) -> SValV {
    match assoc_get(s, k) {
        Some(x) => SValV::Leaf(x),
        None => SValV::Leaf(d),
    }
}

/// The settings object a scan yields, members in the order they are set.
pub open spec fn settings_of_scan(a: ScanV) -> Seq<(Seq<char>, SValV)> {
    let e = Seq::<(Seq<char>, SValV)>::empty();
    let s1 = assoc_put(e, "window"@, SValV::Arr(seq![ScalarV::Int(a.wx), ScalarV::Int(a.wy)]));
    let s2 = assoc_put(s1, "level"@, leaf_or(a.player, "level"@, ScalarV::Int(1)));
    let s3 = assoc_put(s2, "outLevel"@, leaf_or(a.player, "outLevel"@, ScalarV::Int(1)));
    let s4 = assoc_put(s3, "job"@, leaf_or(a.player, "job"@, ScalarV::Text(""@)));
    let s5 = assoc_put(s4, "expMode"@, leaf_or(a.player, "expMode"@, ScalarV::Text("value"@)));
    let s6 = assoc_put(s5, "partyMode"@, leaf_or(a.player, "partyMode"@, ScalarV::Text("solo"@)));
    let s7 = assoc_put(s6, "potions"@, SValV::Obj(a.potions));
    let s8 = assoc_put(s7, "checkin999"@, leaf_or(a.checkin, "checkin999"@, ScalarV::Null));
    let s9 = assoc_put(s8, "merchant"@, leaf_or(a.checkin, "merchant"@, ScalarV::Null));
    let s10 = assoc_put(s9, "boss"@, leaf_or(a.checkin, "boss"@, ScalarV::Null));
    assoc_put(s10, "map"@, SValV::Obj(a.map))
}

/// The settings an INI text describes.
pub open spec fn ini_settings_spec(text: Seq<char>) -> Seq<(Seq<char>, SValV)> {
    let ls = lines_from(text, 0);
    settings_of_scan(scan_fold(ls, ls.len() as int))
}

struct Scan {
    sec: String,
    wx: i64,
    wy: i64,
    player: Vec<(String, Scalar)>,
    potions: Vec<(String, Scalar)>,
    checkin: Vec<(String, Scalar)>,
    map: Vec<(String, Scalar)>,
}

impl View for Scan {
    type V = ScanV;

    closed spec fn view(&self) -> ScanV {
        ScanV {
            sec: self.sec@,
            wx: self.wx,
            wy: self.wy,
            player: pairs_view(self.player@),
            potions: pairs_view(self.potions@),
            checkin: pairs_view(self.checkin@),
            map: pairs_view(self.map@),
        }
    }
}

fn same_text(a: &str, b: &str) -> (r: bool)
    ensures
        r == (a@ == b@),
{
    let x = char_vec(a);
    let y = char_vec(b);
    if x.len() != y.len() {
        return false;
    }
    let mut i: usize = 0;
    while i < x.len()
        invariant
            x@ == a@,
            y@ == b@,
            x@.len() == y@.len(),
            i <= x@.len(),
            forall|j: int| 0 <= j < i ==> x@[j] == y@[j],
        decreases x@.len() - i,
    {
        if x[i] != y[i] {
            return false;
        }
        i = i + 1;
    }
    assert(x@ =~= y@);
    true
}

fn num_or(v: &str, d: i64) -> (r: i64)
    ensures
        r == i64_or(parse_i64_spec(v@), d),
{
    match parse_i64(v) {
        Some(n) => n,
        None => d,
    }
}

fn scan_pair_exec(a: &mut Scan, k: String, v: String)
    ensures
        final(a)@ == scan_pair(old(a)@, k@, v@),
{
    if same_text(a.sec.as_str(), "window") {
        if same_text(k.as_str(), "x") {
            a.wx = num_or(v.as_str(), 0);
        } else if same_text(k.as_str(), "y") {
            a.wy = num_or(v.as_str(), 0);
        }
    } else if same_text(a.sec.as_str(), "player") {
        let x = if same_text(k.as_str(), "level") || same_text(k.as_str(), "outLevel") {
            Scalar::Int(num_or(v.as_str(), 1))
        } else {
            Scalar::Text(v)
        };
        put_pair(&mut a.player, k, x);
    } else if same_text(a.sec.as_str(), "potions") {
        let x = Scalar::Int(num_or(v.as_str(), 0));
        put_pair(&mut a.potions, k, x);
    } else if same_text(a.sec.as_str(), "checkin") {
        let x = Scalar::Int(num_or(v.as_str(), 0));
        put_pair(&mut a.checkin, k, x);
    } else if same_text(a.sec.as_str(), "map") {
        let x = if same_text(k.as_str(), "mapid") {
            Scalar::Int(num_or(v.as_str(), 0))
        } else {
            Scalar::Text(v)
        };
        put_pair(&mut a.map, k, x);
    }
}

/// The line `v[start..e]` applied to the scan state.
fn scan_line(a: &mut Scan, v: &Vec<char>, start: usize, e: usize)
    requires
        start <= e <= v@.len(),
    ensures
        final(a)@ == scan_step(old(a)@, v@.subrange(start as int, e as int)),
{
    let ghost line = v@.subrange(start as int, e as int);
    let (lo, hi) = trim_bounds(v, start, e);
    let ghost t = v@.subrange(lo as int, hi as int);
    if lo == hi || v[lo] == ';' || v[lo] == '#' {
        proof {
            if lo < hi {
                assert(t[0] == v@[lo as int]);
            }
        }
    } else if v[lo] == '[' && v[hi - 1] == ']' {
        proof {
            assert(t[0] == v@[lo as int]);
            assert(t.last() == v@[hi - 1]);
            assert(t.subrange(1, t.len() - 1) =~= v@.subrange(lo + 1, hi - 1));
        }
        if hi - lo >= 2 {
            a.sec = slice_string(v, lo + 1, hi - 1);
        } else {
            proof {
                assert(t.len() == 1);
                assert(t[0] == t.last());
            }
        }
    } else {
        proof {
            assert(t[0] == v@[lo as int]);
            assert(t.last() == v@[hi - 1]);
        }
        let mut q = lo;
        while q < hi && v[q] != '='
            invariant
                lo <= q <= hi <= v@.len(),
                forall|p: int| lo <= p < q ==> v@[p] != '=',
            decreases hi - q,
        {
            q = q + 1;
        }
        proof {
            assert forall|p: int| 0 <= p < q - lo implies t[p] != '=' by {
                assert(t[p] == v@[lo + p]);
            }
            if q < hi {
                assert(t[q - lo] == v@[q as int]);
            }
            lemma_first_eq_found(t, 0, q - lo);
        }
        if q < hi {
            let (ka, kb) = trim_bounds(v, lo, q);
            let (va, vb) = trim_bounds(v, q + 1, hi);
            proof {
                assert(t.subrange(0, q - lo) =~= v@.subrange(lo as int, q as int));
                assert(t.subrange(q - lo + 1, t.len() as int) =~= v@.subrange(q + 1, hi as int));
            }
            let key = slice_string(v, ka, kb);
            let value = slice_string(v, va, vb);
            scan_pair_exec(a, key, value);
        }
    }
}

fn leaf_from(s: &Vec<(String, Scalar)>, k: &str, d: Scalar) -> (r: SVal)
    ensures
        r@ == leaf_or(pairs_view(s@), k@, d@),
{
    let n = s.len();
    let mut i: usize = 0;
    let ghost w = pairs_view(s@);
    assert(w.skip(0) =~= w);
    while i < n
        invariant
            n == s@.len(),
            i <= n,
            w == pairs_view(s@),
            assoc_get(w, k@) == assoc_get(w.skip(i as int), k@),
        decreases n - i,
    {
        if same_text(s[i].0.as_str(), k) {
            return SVal::Leaf(copy_scalar(&s[i].1));
        }
        assert(w.skip(i as int).drop_first() =~= w.skip(i + 1));
        i = i + 1;
    }
    SVal::Leaf(d)
}

/// Reads INI text into a settings object (see [`ini_settings_spec`]).
pub fn ini_to_settings(text: &str) -> (r: Settings)
    ensures
        r@ == ini_settings_spec(text@),
        r.wf(),
{
    let v = char_vec(text);
    let n = v.len();
    let mut a = Scan {
        sec: String::new(),
        wx: 0,
        wy: 0,
        player: Vec::new(),
        potions: Vec::new(),
        checkin: Vec::new(),
        map: Vec::new(),
    };
    let mut start: usize = 0;
    let ghost all = lines_from(v@, 0);
    let ghost mut k: int = 0;
    proof {
        assert(pairs_view(a.player@) =~= Seq::<(Seq<char>, ScalarV)>::empty());
        assert(pairs_view(a.potions@) =~= Seq::<(Seq<char>, ScalarV)>::empty());
        assert(pairs_view(a.checkin@) =~= Seq::<(Seq<char>, ScalarV)>::empty());
        assert(pairs_view(a.map@) =~= Seq::<(Seq<char>, ScalarV)>::empty());
        assert(a@ == scan_fold(all, 0));
        assert(all.subrange(0, 0) + lines_from(v@, 0) =~= all);
    }
    let mut done = false;
    while !done
        invariant
            v@ == text@,
            n == v@.len(),
            all == lines_from(v@, 0),
            0 <= k <= all.len(),
            start <= n,
            !done ==> all == all.subrange(0, k) + lines_from(v@, start as int),
            done ==> k == all.len(),
            a@ == scan_fold(all, k),
        decreases (n - start) as int + (if done { 0int } else { 1int }),
    {
        let mut e = start;
        while e < n && v[e] != '\n'
            invariant
                start <= e <= n,
                n == v@.len(),
                forall|q: int| start <= q < e ==> v@[q] != '\n',
            decreases n - e,
        {
            e = e + 1;
        }
        proof {
            lemma_line_end_found(v@, start as int, e as int);
            lemma_lines_cons(v@, start as int);
            assert(all.subrange(0, k) + lines_from(v@, start as int) == all);
            assert(all[k] == v@.subrange(start as int, e as int)) by {
                assert((all.subrange(0, k) + lines_from(v@, start as int))[k] == lines_from(v@, start as int)[0]);
            }
            assert(k < all.len());
        }
        let ghost line = v@.subrange(start as int, e as int);
        scan_line(&mut a, &v, start, e);
        proof {
            let kk = k;
            let rest = lines_from(v@, e + 1);
            assert(lines_from(v@, start as int) == seq![line] + rest);
            assert(all == all.subrange(0, kk) + (seq![line] + rest));
            if e < n {
                assert(all.subrange(0, kk + 1) =~= all.subrange(0, kk).push(line));
                assert(all =~= all.subrange(0, kk + 1) + rest);
            } else {
                lemma_lines_end(v@, e as int);
                assert(rest =~= Seq::<Seq<char>>::empty());
                assert(all.len() == kk + 1);
            }
            k = k + 1;
        }
        if e < n {
            start = e + 1;
        } else {
            done = true;
        }
    }
    let ghost sc = a@;
    assert(sc == scan_fold(lines_from(text@, 0), lines_from(text@, 0).len() as int));
    let mut out = Settings::new();
    let w = SVal::Arr(vec![Scalar::Int(a.wx), Scalar::Int(a.wy)]);
    assert(w@ == SValV::Arr(seq![ScalarV::Int(sc.wx), ScalarV::Int(sc.wy)])) by {
        if let SVal::Arr(xs) = w {
            assert(xs@.map_values(|x: Scalar| x@) =~= seq![ScalarV::Int(sc.wx), ScalarV::Int(sc.wy)]);
        }
    }
    out.put(String::from_str("window"), w);
    out.put(String::from_str("level"), leaf_from(&a.player, "level", Scalar::Int(1)));
    out.put(String::from_str("outLevel"), leaf_from(&a.player, "outLevel", Scalar::Int(1)));
    out.put(String::from_str("job"), leaf_from(&a.player, "job", Scalar::Text(String::from_str(""))));
    out.put(String::from_str("expMode"), leaf_from(&a.player, "expMode", Scalar::Text(String::from_str("value"))));
    out.put(String::from_str("partyMode"), leaf_from(&a.player, "partyMode", Scalar::Text(String::from_str("solo"))));
    out.put(String::from_str("potions"), SVal::Obj(a.potions));
    out.put(String::from_str("checkin999"), leaf_from(&a.checkin, "checkin999", Scalar::Null));
    out.put(String::from_str("merchant"), leaf_from(&a.checkin, "merchant", Scalar::Null));
    out.put(String::from_str("boss"), leaf_from(&a.checkin, "boss", Scalar::Null));
    out.put(String::from_str("map"), SVal::Obj(a.map));
    out
}

// ---------------------------------------------------------------------------
// Settings to INI text
// ---------------------------------------------------------------------------

/// `key=value` lines.
pub open spec fn pair_lines(pairs: Seq<(Seq<char>, Seq<char>)>) -> Seq<char>
    decreases pairs.len(),
{
    if pairs.len() == 0 {
        Seq::empty()
    } else {
        pair_lines(pairs.drop_last()) + pairs.last().0 + "="@ + pairs.last().1 + "\n"@
    }
}

/// A section with its lines and a blank line after it; nothing when it has
/// no entries.
pub open spec fn ini_block(name: Seq<char>, pairs: Seq<(Seq<char>, Seq<char>)>) -> Seq<char> {
    if pairs.len() == 0 {
        Seq::empty()
    } else {
        "["@ + name + "]\n"@ + pair_lines(pairs) + "\n"@
    }
}

/// A scalar's `as_i64`, 0 when there is none.
pub open spec fn int_or_zero(x: ScalarV) -> i64 {
    i64_or(scalar_i64(x), 0)
}

/// `[window]`: `x` and `y` from a two-element `window` array.
pub open spec fn window_pairs(s: Seq<(Seq<char>, SValV)>) -> Seq<(Seq<char>, Seq<char>)> {
    match assoc_get(s, "window"@) {
        Some(SValV::Arr(xs)) => if xs.len() == 2 {
            seq![("x"@, int_dec(int_or_zero(xs[0]) as int)), ("y"@, int_dec(int_or_zero(xs[1]) as int))]
        } else {
            Seq::empty()
        },
        _ => Seq::empty(),
    }
}

/// The member `k` as INI text, when present.
pub open spec fn text_pair(s: Seq<(Seq<char>, SValV)>, k: Seq<char>) -> Seq<(Seq<char>, Seq<char>)> {
    match assoc_get(s, k) {
        Some(v) => seq![(k, val_text(v))],
        None => Seq::empty(),
    }
}

/// The member `k` as an integer, when it is one.
pub open spec fn int_pair(s: Seq<(Seq<char>, SValV)>, k: Seq<char>) -> Seq<(Seq<char>, Seq<char>)> {
    match assoc_get(s, k) {
        Some(v) => match val_i64(v) {
            Some(n) => seq![(k, int_dec(n as int))],
            None => Seq::empty(),
        },
        None => Seq::empty(),
    }
}

/// `[player]`.
pub open spec fn player_pairs(s: Seq<(Seq<char>, SValV)>) -> Seq<(Seq<char>, Seq<char>)> {
    text_pair(s, "level"@) + text_pair(s, "outLevel"@) + text_pair(s, "job"@) + text_pair(s, "expMode"@)
        + text_pair(s, "partyMode"@)
}

/// `[potions]`: each member of the `potions` object as an integer.
pub open spec fn potion_pairs(s: Seq<(Seq<char>, SValV)>) -> Seq<(Seq<char>, Seq<char>)> {
    match assoc_get(s, "potions"@) {
        Some(SValV::Obj(es)) => es.map_values(|e: (Seq<char>, ScalarV)| (e.0, int_dec(int_or_zero(e.1) as int))),
        _ => Seq::empty(),
    }
}

/// `[checkin]`: the three timers that are integers.
pub open spec fn checkin_pairs(s: Seq<(Seq<char>, SValV)>) -> Seq<(Seq<char>, Seq<char>)> {
    int_pair(s, "checkin999"@) + int_pair(s, "merchant"@) + int_pair(s, "boss"@)
}

/// `[map]`: each member of the `map` object as text.
pub open spec fn map_pairs(s: Seq<(Seq<char>, SValV)>) -> Seq<(Seq<char>, Seq<char>)> {
    match assoc_get(s, "map"@) {
        Some(SValV::Obj(es)) => es.map_values(|e: (Seq<char>, ScalarV)| (e.0, scalar_text(e.1))),
        _ => Seq::empty(),
    }
}

/// Every `\n` turned into `\r\n`.
pub open spec fn crlf(t: Seq<char>) -> Seq<char>
    decreases t.len(),
{
    if t.len() == 0 {
        Seq::empty()
    } else {
        crlf(t.drop_last()) + (if t.last() == '\n' { seq!['\r', '\n'] } else { seq![t.last()] })
    }
}

/// The INI text of a settings object.
pub open spec fn settings_ini_spec(s: Seq<(Seq<char>, SValV)>) -> Seq<char> {
    crlf(
        ini_block("window"@, window_pairs(s)) + ini_block("player"@, player_pairs(s)) + ini_block(
            "potions"@,
            potion_pairs(s),
        ) + ini_block("checkin"@, checkin_pairs(s)) + ini_block("map"@, map_pairs(s)),
    )
}

/// Appends a section (see [`ini_block`]).
fn push_block(out: &mut String, name: &str, pairs: &Vec<(String, String)>)
    ensures
        final(out)@ == old(out)@ + ini_block(name@, pairs_view(pairs@)),
{
    if pairs.len() == 0 {
        assert(pairs_view(pairs@).len() == 0);
        assert(old(out)@ + Seq::<char>::empty() =~= old(out)@);
        return;
    }
    let ghost o = out@;
    let ghost pv = pairs_view(pairs@);
    out.append("[");
    out.append(name);
    out.append("]\n");
    let ghost head = out@;
    let mut i: usize = 0;
    while i < pairs.len()
        invariant
            i <= pairs@.len(),
            pv == pairs_view(pairs@),
            out@ == head + pair_lines(pv.take(i as int)),
        decreases pairs@.len() - i,
    {
        out.append(pairs[i].0.as_str());
        out.append("=");
        out.append(pairs[i].1.as_str());
        out.append("\n");
        proof {
            assert(pv.take(i + 1).drop_last() =~= pv.take(i as int));
            assert(pv.take(i + 1).last() == pv[i as int]);
        }
        i = i + 1;
    }
    out.append("\n");
    assert(pv.take(pairs@.len() as int) =~= pv);
    assert(out@ =~= o + ("["@ + name@ + "]\n"@ + pair_lines(pv) + "\n"@));
}

fn text_pair_exec(pairs: &mut Vec<(String, String)>, s: &Settings, k: &str)
    ensures
        pairs_view(final(pairs)@) == pairs_view(old(pairs)@) + text_pair(s@, k@),
{
    match member(s, k) {
        Some(v) => {
            let t = val_text_exec(v);
            pairs.push((String::from_str(k), t));
            assert(pairs_view(pairs@) =~= pairs_view(old(pairs)@) + text_pair(s@, k@));
        },
        None => {
            assert(pairs_view(pairs@) =~= pairs_view(old(pairs)@) + text_pair(s@, k@));
        },
    }
}

fn int_pair_exec(pairs: &mut Vec<(String, String)>, s: &Settings, k: &str)
    ensures
        pairs_view(final(pairs)@) == pairs_view(old(pairs)@) + int_pair(s@, k@),
{
    match member(s, k) {
        Some(SVal::Leaf(Scalar::Int(n))) => {
            let mut t = String::new();
            push_int(&mut t, *n);
            pairs.push((String::from_str(k), t));
            assert(pairs_view(pairs@) =~= pairs_view(old(pairs)@) + int_pair(s@, k@));
        },
        _ => {
            assert(pairs_view(pairs@) =~= pairs_view(old(pairs)@) + int_pair(s@, k@));
        },
    }
}

fn int_text(x: &Scalar) -> (r: String)
    ensures
        r@ == int_dec(int_or_zero(x@) as int),
{
    let n = match x {
        Scalar::Int(n) => *n,
        _ => 0,
    };
    let mut t = String::new();
    push_int(&mut t, n);
    assert(t@ =~= int_dec(n as int));
    t
}

/// Writes a settings object as INI text (see [`settings_ini_spec`]), with
/// CRLF line ends.
pub fn settings_to_ini(s: &Settings) -> (r: String)
    ensures
        r@ == settings_ini_spec(s@),
{
    let mut out = String::new();
    // [window]
    let mut wp: Vec<(String, String)> = Vec::new();
    match member(s, "window") {
        Some(SVal::Arr(xs)) => if xs.len() == 2 {
            let x = int_text(&xs[0]);
            let y = int_text(&xs[1]);
            wp.push((String::from_str("x"), x));
            wp.push((String::from_str("y"), y));
            proof {
                let w = xs@.map_values(|q: Scalar| q@);
                assert(w[0] == xs@[0]@ && w[1] == xs@[1]@);
            }
        },
        _ => {},
    }
    assert(pairs_view(wp@) =~= window_pairs(s@));
    push_block(&mut out, "window", &wp);
    // [player]
    let mut pp: Vec<(String, String)> = Vec::new();
    text_pair_exec(&mut pp, s, "level");
    text_pair_exec(&mut pp, s, "outLevel");
    text_pair_exec(&mut pp, s, "job");
    text_pair_exec(&mut pp, s, "expMode");
    text_pair_exec(&mut pp, s, "partyMode");
    assert(pairs_view(pp@) =~= player_pairs(s@));
    push_block(&mut out, "player", &pp);
    // [potions]
    let mut op: Vec<(String, String)> = Vec::new();
    match member(s, "potions") {
        Some(SVal::Obj(es)) => {
            let ghost pv = pairs_view(es@);
            let mut i: usize = 0;
            while i < es.len()
                invariant
                    i <= es@.len(),
                    pv == pairs_view(es@),
                    pairs_view(op@) == pv.take(i as int).map_values(
                        |e: (Seq<char>, ScalarV)| (e.0, int_dec(int_or_zero(e.1) as int)),
                    ),
                decreases es@.len() - i,
            {
                let ghost before = op@;
                let t = int_text(&es[i].1);
                let k = es[i].0.clone();
                op.push((k, t));
                proof {
                    assert(pv[i as int] == (es@[i as int].0@, es@[i as int].1@));
                    assert(pv.take(i + 1) =~= pv.take(i as int).push(pv[i as int]));
                    assert(pairs_view(op@) =~= pairs_view(before).push((k@, t@)));
                    assert(pv.take(i + 1).map_values(
                        |e: (Seq<char>, ScalarV)| (e.0, int_dec(int_or_zero(e.1) as int)),
                    ) =~= pv.take(i as int).map_values(
                        |e: (Seq<char>, ScalarV)| (e.0, int_dec(int_or_zero(e.1) as int)),
                    ).push((k@, t@)));
                }
                i = i + 1;
            }
            assert(pv.take(es@.len() as int) =~= pv);
        },
        _ => {},
    }
    assert(pairs_view(op@) =~= potion_pairs(s@));
    push_block(&mut out, "potions", &op);
    // [checkin]
    let mut cp: Vec<(String, String)> = Vec::new();
    int_pair_exec(&mut cp, s, "checkin999");
    int_pair_exec(&mut cp, s, "merchant");
    int_pair_exec(&mut cp, s, "boss");
    assert(pairs_view(cp@) =~= checkin_pairs(s@));
    push_block(&mut out, "checkin", &cp);
    // [map]
    let mut mp: Vec<(String, String)> = Vec::new();
    match member(s, "map") {
        Some(SVal::Obj(es)) => {
            let ghost pv = pairs_view(es@);
            let mut i: usize = 0;
            while i < es.len()
                invariant
                    i <= es@.len(),
                    pv == pairs_view(es@),
                    pairs_view(mp@) == pv.take(i as int).map_values(
                        |e: (Seq<char>, ScalarV)| (e.0, scalar_text(e.1)),
                    ),
                decreases es@.len() - i,
            {
                let ghost before = mp@;
                let t = scalar_text_exec(&es[i].1);
                let k = es[i].0.clone();
                mp.push((k, t));
                proof {
                    assert(pv[i as int] == (es@[i as int].0@, es@[i as int].1@));
                    assert(pv.take(i + 1) =~= pv.take(i as int).push(pv[i as int]));
                    assert(pairs_view(mp@) =~= pairs_view(before).push((k@, t@)));
                    assert(pv.take(i + 1).map_values(|e: (Seq<char>, ScalarV)| (e.0, scalar_text(e.1)))
                        =~= pv.take(i as int).map_values(|e: (Seq<char>, ScalarV)| (e.0, scalar_text(e.1))).push(
                        (k@, t@),
                    ));
                }
                i = i + 1;
            }
            assert(pv.take(es@.len() as int) =~= pv);
        },
        _ => {},
    }
    assert(pairs_view(mp@) =~= map_pairs(s@));
    push_block(&mut out, "map", &mp);
    // CRLF
    let lf = char_vec(out.as_str());
    let mut r = String::new();
    let mut i: usize = 0;
    while i < lf.len()
        invariant
            i <= lf@.len(),
            r@ == crlf(lf@.take(i as int)),
        decreases lf@.len() - i,
    {
        if lf[i] == '\n' {
            crate::text::push_char(&mut r, '\r');
            crate::text::push_char(&mut r, '\n');
        } else {
            crate::text::push_char(&mut r, lf[i]);
        }
        proof {
            assert(lf@.take(i + 1).drop_last() =~= lf@.take(i as int));
            assert(lf@.take(i + 1).last() == lf@[i as int]);
        }
        i = i + 1;
    }
    assert(lf@.take(lf@.len() as int) =~= lf@);
    r
}

// ---------------------------------------------------------------------------
// Reading back what was written
// ---------------------------------------------------------------------------

proof fn lemma_trim_start_shape(x: Seq<char>)
    ensures
        trim_start_spec(x).len() <= x.len(),
        trim_start_spec(x) == x.skip(x.len() - trim_start_spec(x).len()),
        trim_start_spec(x).len() > 0 ==> !is_ws(trim_start_spec(x)[0]),
        x.len() > 0 && !is_ws(x[0]) ==> trim_start_spec(x) == x,
    decreases x.len(),
{
    if x.len() > 0 && is_ws(x[0]) {
        lemma_trim_start_shape(x.drop_first());
        assert(x.drop_first().skip(x.drop_first().len() - trim_start_spec(x).len()) =~= x.skip(
            x.len() - trim_start_spec(x).len(),
        ));
    } else {
        assert(x.skip(0) =~= x);
    }
}

proof fn lemma_trim_end_shape(x: Seq<char>)
    ensures
        trim_end_spec(x).len() <= x.len(),
        trim_end_spec(x) == x.take(trim_end_spec(x).len() as int),
        trim_end_spec(x).len() > 0 ==> !is_ws(trim_end_spec(x).last()),
        x.len() > 0 && !is_ws(x.last()) ==> trim_end_spec(x) == x,
    decreases x.len(),
{
    if x.len() > 0 && is_ws(x.last()) {
        lemma_trim_end_shape(x.drop_last());
        assert(x.drop_last().take(trim_end_spec(x).len() as int) =~= x.take(trim_end_spec(x).len() as int));
    } else {
        assert(x.take(x.len() as int) =~= x);
    }
}

/// A trimmed text is its own trim.
proof fn lemma_trim_twice(x: Seq<char>)
    ensures
        trim_spec(trim_spec(x)) == trim_spec(x),
{
    let a = trim_start_spec(x);
    let y = trim_end_spec(a);
    lemma_trim_start_shape(x);
    lemma_trim_end_shape(a);
    if y.len() > 0 {
        assert(y[0] == a[0]);
        lemma_trim_id(y);
    } else {
        assert(trim_start_spec(y) =~= y);
    }
}

/// Trimming adds no character.
proof fn lemma_trim_keeps_out(x: Seq<char>, c: char)
    requires
        forall|i: int| 0 <= i < x.len() ==> x[i] != c,
    ensures
        forall|i: int| 0 <= i < trim_spec(x).len() ==> trim_spec(x)[i] != c,
{
    let a = trim_start_spec(x);
    lemma_trim_start_shape(x);
    lemma_trim_end_shape(a);
    assert forall|i: int| 0 <= i < trim_spec(x).len() implies trim_spec(x)[i] != c by {
        assert(trim_spec(x)[i] == a[i]);
        assert(a[i] == x[x.len() - a.len() + i]);
    }
}

/// A text without surrounding whitespace, `=`, line breaks, or a comment
/// mark in front: a key that reads back as itself.
pub open spec fn ini_key_ok(k: Seq<char>) -> bool {
    &&& trim_spec(k) == k
    &&& forall|i: int| 0 <= i < k.len() ==> k[i] != '=' && k[i] != '\n'
    &&& k.len() > 0 ==> k[0] != ';' && k[0] != '#'
}

/// A value that reads back as itself: no surrounding whitespace, one line.
pub open spec fn ini_val_ok(v: Seq<char>) -> bool {
    trim_spec(v) == v && no_newline(v)
}

/// `key=value` does not look like a section header.
pub open spec fn ini_pair_ok(k: Seq<char>, v: Seq<char>) -> bool {
    !(k.len() > 0 && v.len() > 0 && k[0] == '[' && v.last() == ']')
}

/// A written line: the text and the carriage return before its newline.
pub open spec fn cr(l: Seq<char>) -> Seq<char> {
    l.push('\r')
}

proof fn lemma_trim_cr(b: Seq<char>)
    requires
        b.len() == 0 || (!is_ws(b[0]) && !is_ws(b.last())),
    ensures
        trim_spec(cr(b)) == b,
{
    let t = cr(b);
    assert(is_ws('\r'));
    if b.len() == 0 {
        assert(t.drop_first() =~= Seq::<char>::empty());
        assert(t[0] == '\r');
        assert(trim_start_spec(t.drop_first()) =~= Seq::<char>::empty());
        assert(trim_start_spec(t) =~= Seq::<char>::empty());
    } else {
        assert(t[0] == b[0]);
        lemma_trim_start_shape(t);
        assert(t.drop_last() =~= b);
        lemma_trim_end_shape(b);
    }
}

proof fn lemma_line_pair(k: Seq<char>, v: Seq<char>)
    requires
        ini_key_ok(k),
        ini_val_ok(v),
        ini_pair_ok(k, v),
    ensures
        line_kind(cr(k + "="@ + v)) == LineKind::Pair(k, v),
{
    reveal_strlit("=");
    let r = k + "="@ + v;
    if k.len() > 0 {
        lemma_trim_start_shape(k);
        lemma_trim_end_shape(trim_start_spec(k));
        assert(trim_start_spec(k) == k) by {
            lemma_trim_start_shape(k);
        }
        assert(!is_ws(k[0])) by {
            lemma_trim_start_shape(k);
        }
        assert(r[0] == k[0]);
    } else {
        assert(r[0] == '=');
    }
    if v.len() > 0 {
        lemma_trim_end_shape(v);
        assert(!is_ws(v.last())) by {
            lemma_trim_start_shape(v);
            lemma_trim_end_shape(trim_start_spec(v));
            assert(trim_end_spec(trim_start_spec(v)) == v);
        }
        assert(r.last() == v.last());
    } else {
        assert(r.last() == '=');
    }
    assert(!is_ws('='));
    lemma_trim_cr(r);
    assert(r.len() > 0);
    assert forall|i: int| 0 <= i < k.len() implies r[i] != '=' by {
        assert(r[i] == k[i]);
    }
    assert(r[k.len() as int] == '=');
    lemma_first_eq_found(r, 0, k.len() as int);
    assert(r.subrange(0, k.len() as int) =~= k);
    assert(r.subrange(k.len() as int + 1, r.len() as int) =~= v);
}

proof fn lemma_line_header(name: Seq<char>)
    ensures
        line_kind(cr("["@ + name + "]"@)) == LineKind::Header(name),
{
    reveal_strlit("[");
    reveal_strlit("]");
    let r = "["@ + name + "]"@;
    assert(r[0] == '[' && r.last() == ']');
    assert(!is_ws('[') && !is_ws(']'));
    lemma_trim_cr(r);
    assert(r.subrange(1, r.len() - 1) =~= name);
}

proof fn lemma_line_blank()
    ensures
        line_kind(cr(Seq::empty())) == LineKind::Skip,
{
    lemma_trim_cr(Seq::empty());
}

proof fn lemma_int_dec_reads(n: i64)
    ensures
        parse_i64_spec(int_dec(n as int)) == Some(n),
        ini_val_ok(int_dec(n as int)),
        int_dec(n as int).len() > 0,
        '0' <= int_dec(n as int).last() <= '9',
        forall|i: int| 0 <= i < int_dec(n as int).len() ==> int_dec(n as int)[i] != '=',
{
    let t = int_dec(n as int);
    if n < 0 {
        let m = (-n) as nat;
        lemma_digits_val_dec(m);
        crate::text::lemma_dec_digits(m);
        assert(t.drop_first() =~= dec(m));
        assert(t[0] == '-');
        assert(t.last() == dec(m).last());
    } else {
        lemma_parse_dec(n as nat, i64::MAX as int);
        crate::text::lemma_dec_digits(n as nat);
        assert(t[0] != '-');
    }
    crate::text::lemma_dec_digits(if n < 0 { (-n) as nat } else { n as nat });
    assert forall|i: int| 0 <= i < t.len() implies t[i] != '=' && t[i] != '\n' && (t[i] == '-' || '0' <= t[i]
        <= '9') by {
        if n < 0 && i > 0 {
            assert(t[i] == dec((-n) as nat)[i - 1]);
        }
    }
    assert(t.last() == t[t.len() - 1]);
    assert(!is_ws(t[0]) && !is_ws(t.last()));
    lemma_trim_id(t);
}

proof fn lemma_crlf_concat(a: Seq<char>, b: Seq<char>)
    ensures
        crlf(a + b) == crlf(a) + crlf(b),
    decreases b.len(),
{
    if b.len() == 0 {
        assert(a + b =~= a);
        assert(crlf(a) + crlf(b) =~= crlf(a));
    } else {
        assert((a + b).drop_last() =~= a + b.drop_last());
        assert((a + b).last() == b.last());
        lemma_crlf_concat(a, b.drop_last());
        assert(crlf(a + b) =~= crlf(a) + crlf(b));
    }
}

proof fn lemma_crlf_plain(l: Seq<char>)
    requires
        no_newline(l),
    ensures
        crlf(l) == l,
    decreases l.len(),
{
    if l.len() > 0 {
        assert(l.last() == l[l.len() - 1]);
        assert(no_newline(l.drop_last())) by {
            assert forall|i: int| 0 <= i < l.drop_last().len() implies l.drop_last()[i] != '\n' by {
                assert(l.drop_last()[i] == l[i]);
            }
        }
        lemma_crlf_plain(l.drop_last());
        assert(l.drop_last().push(l.last()) =~= l);
    }
}

/// `crlf` of one line and its newline.
proof fn lemma_crlf_line(l: Seq<char>)
    requires
        no_newline(l),
    ensures
        crlf(l + seq!['\n']) == cr(l) + seq!['\n'],
{
    lemma_crlf_concat(l, seq!['\n']);
    lemma_crlf_plain(l);
    assert(seq!['\n'].drop_last() =~= Seq::<char>::empty());
    assert(crlf(Seq::<char>::empty()) =~= Seq::<char>::empty());
    assert(seq!['\n'].last() == '\n');
    assert(crlf(seq!['\n']) =~= seq!['\r', '\n']);
    assert(l + seq!['\r', '\n'] =~= cr(l) + seq!['\n']);
}

proof fn lemma_join_concat(a: Seq<Seq<char>>, b: Seq<Seq<char>>)
    ensures
        join_lines(a + b) == join_lines(a) + join_lines(b),
    decreases a.len(),
{
    if a.len() == 0 {
        assert(a + b =~= b);
        assert(join_lines(a) =~= Seq::<char>::empty());
        assert(join_lines(a) + join_lines(b) =~= join_lines(b));
    } else {
        assert((a + b)[0] == a[0]);
        assert((a + b).drop_first() =~= a.drop_first() + b);
        lemma_join_concat(a.drop_first(), b);
        assert(join_lines(a + b) =~= join_lines(a) + join_lines(b));
    }
}

/// A `key=value` line.
pub open spec fn pair_line(p: (Seq<char>, Seq<char>)) -> Seq<char> {
    p.0 + "="@ + p.1
}

/// The written lines of a section (see [`ini_block`]).
pub open spec fn block_lines(name: Seq<char>, pairs: Seq<(Seq<char>, Seq<char>)>) -> Seq<Seq<char>> {
    if pairs.len() == 0 {
        Seq::empty()
    } else {
        seq![cr("["@ + name + "]"@)] + pairs.map_values(|p: (Seq<char>, Seq<char>)| cr(pair_line(p))) + seq![
            cr(Seq::empty()),
        ]
    }
}

/// Pairs whose keys and values hold no line break.
pub open spec fn pairs_plain(pairs: Seq<(Seq<char>, Seq<char>)>) -> bool {
    forall|i: int| 0 <= i < pairs.len() ==> no_newline(#[trigger] pairs[i].0) && no_newline(pairs[i].1)
}

proof fn lemma_pair_line_plain(p: (Seq<char>, Seq<char>))
    requires
        no_newline(p.0),
        no_newline(p.1),
    ensures
        no_newline(pair_line(p)),
        no_newline(cr(pair_line(p))),
{
    reveal_strlit("=");
    let l = pair_line(p);
    assert forall|i: int| 0 <= i < l.len() implies l[i] != '\n' by {
        if i < p.0.len() {
            assert(l[i] == p.0[i]);
        } else if i > p.0.len() {
            assert(l[i] == p.1[i - p.0.len() - 1]);
        }
    }
    assert forall|i: int| 0 <= i < cr(l).len() implies cr(l)[i] != '\n' by {
        if i < l.len() {
            assert(cr(l)[i] == l[i]);
        }
    }
}

proof fn lemma_pair_lines_crlf(pairs: Seq<(Seq<char>, Seq<char>)>)
    requires
        pairs_plain(pairs),
    ensures
        crlf(pair_lines(pairs)) == join_lines(pairs.map_values(|p: (Seq<char>, Seq<char>)| cr(pair_line(p)))),
    decreases pairs.len(),
{
    reveal_strlit("=");
    reveal_strlit("\n");
    let m = pairs.map_values(|p: (Seq<char>, Seq<char>)| cr(pair_line(p)));
    if pairs.len() == 0 {
        assert(m =~= Seq::<Seq<char>>::empty());
        assert(join_lines(m) =~= Seq::<char>::empty());
    } else {
        let d = pairs.drop_last();
        let q = pairs.last();
        assert(pairs_plain(d)) by {
            assert forall|i: int| 0 <= i < d.len() implies no_newline(#[trigger] d[i].0) && no_newline(d[i].1) by {
                assert(d[i] == pairs[i]);
            }
        }
        lemma_pair_lines_crlf(d);
        assert(q == pairs[pairs.len() - 1]);
        lemma_pair_line_plain(q);
        let l = pair_line(q);
        assert(pair_lines(pairs) =~= pair_lines(d) + (l + seq!['\n']));
        lemma_crlf_concat(pair_lines(d), l + seq!['\n']);
        lemma_crlf_line(l);
        assert(m =~= d.map_values(|p: (Seq<char>, Seq<char>)| cr(pair_line(p))).push(cr(l)));
        lemma_join_push(d.map_values(|p: (Seq<char>, Seq<char>)| cr(pair_line(p))), cr(l));
    }
}

proof fn lemma_block_crlf(name: Seq<char>, pairs: Seq<(Seq<char>, Seq<char>)>)
    requires
        no_newline(name),
        pairs_plain(pairs),
    ensures
        crlf(ini_block(name, pairs)) == join_lines(block_lines(name, pairs)),
{
    reveal_strlit("[");
    reveal_strlit("]");
    reveal_strlit("]\n");
    reveal_strlit("\n");
    if pairs.len() == 0 {
        assert(join_lines(Seq::<Seq<char>>::empty()) =~= Seq::<char>::empty());
        assert(crlf(Seq::<char>::empty()) =~= Seq::<char>::empty());
    } else {
        let h = "["@ + name + "]"@;
        assert(no_newline(h)) by {
            assert forall|i: int| 0 <= i < h.len() implies h[i] != '\n' by {
                if 0 < i < h.len() - 1 {
                    assert(h[i] == name[i - 1]);
                }
            }
        }
        let body = pair_lines(pairs);
        assert(ini_block(name, pairs) =~= (h + seq!['\n']) + body + seq!['\n']);
        lemma_crlf_concat((h + seq!['\n']) + body, seq!['\n']);
        lemma_crlf_concat(h + seq!['\n'], body);
        lemma_crlf_line(h);
        lemma_crlf_line(Seq::empty());
        assert(Seq::<char>::empty() + seq!['\n'] =~= seq!['\n']);
        lemma_pair_lines_crlf(pairs);
        let m = pairs.map_values(|p: (Seq<char>, Seq<char>)| cr(pair_line(p)));
        lemma_join_concat(seq![cr(h)] + m, seq![cr(Seq::<char>::empty())]);
        lemma_join_concat(seq![cr(h)], m);
        assert(join_lines(seq![cr(h)]) =~= cr(h) + seq!['\n']) by {
            assert(seq![cr(h)].drop_first() =~= Seq::<Seq<char>>::empty());
            assert(join_lines(Seq::<Seq<char>>::empty()) =~= Seq::<char>::empty());
            assert(seq![cr(h)][0] == cr(h));
        }
        assert(join_lines(seq![cr(Seq::<char>::empty())]) =~= cr(Seq::<char>::empty()) + seq!['\n']) by {
            assert(seq![cr(Seq::<char>::empty())].drop_first() =~= Seq::<Seq<char>>::empty());
        }
    }
}

/// The scan state before any line.
pub open spec fn scan_init() -> ScanV {
    ScanV {
        sec: Seq::empty(),
        wx: 0,
        wy: 0,
        player: Seq::empty(),
        potions: Seq::empty(),
        checkin: Seq::empty(),
        map: Seq::empty(),
    }
}

/// Lines applied in order to a scan state.
pub open spec fn scan_run(a: ScanV, ls: Seq<Seq<char>>) -> ScanV
    decreases ls.len(),
{
    if ls.len() == 0 {
        a
    } else {
        scan_run(scan_step(a, ls[0]), ls.drop_first())
    }
}

proof fn lemma_fold_run(ls: Seq<Seq<char>>, k: int)
    requires
        0 <= k <= ls.len(),
    ensures
        scan_run(scan_fold(ls, k), ls.skip(k)) == scan_fold(ls, ls.len() as int),
    decreases ls.len() - k,
{
    if k < ls.len() {
        assert(ls.skip(k)[0] == ls[k]);
        assert(ls.skip(k).drop_first() =~= ls.skip(k + 1));
        lemma_fold_run(ls, k + 1);
    } else {
        assert(ls.skip(k) =~= Seq::<Seq<char>>::empty());
    }
}

proof fn lemma_run_concat(a: ScanV, x: Seq<Seq<char>>, y: Seq<Seq<char>>)
    ensures
        scan_run(a, x + y) == scan_run(scan_run(a, x), y),
    decreases x.len(),
{
    if x.len() > 0 {
        assert((x + y)[0] == x[0]);
        assert((x + y).drop_first() =~= x.drop_first() + y);
        lemma_run_concat(scan_step(a, x[0]), x.drop_first(), y);
    } else {
        assert(x + y =~= y);
    }
}

/// Pairs applied in order to a scan state.
pub open spec fn pairs_run(a: ScanV, ps: Seq<(Seq<char>, Seq<char>)>) -> ScanV
    decreases ps.len(),
{
    if ps.len() == 0 {
        a
    } else {
        pairs_run(scan_pair(a, ps[0].0, ps[0].1), ps.drop_first())
    }
}

/// Every pair reads back as itself.
pub open spec fn pairs_ok(ps: Seq<(Seq<char>, Seq<char>)>) -> bool {
    forall|i: int|
        #![trigger ps[i]]
        0 <= i < ps.len() ==> ini_key_ok(ps[i].0) && ini_val_ok(ps[i].1) && ini_pair_ok(ps[i].0, ps[i].1)
}

proof fn lemma_pairs_ok_plain(ps: Seq<(Seq<char>, Seq<char>)>)
    requires
        pairs_ok(ps),
    ensures
        pairs_plain(ps),
{
    assert forall|i: int| 0 <= i < ps.len() implies no_newline(#[trigger] ps[i].0) && no_newline(ps[i].1) by {
        let e = ps[i];
        assert(ini_key_ok(e.0) && ini_val_ok(e.1));
        assert forall|j: int| 0 <= j < ps[i].0.len() implies ps[i].0[j] != '\n' by {
            assert(ps[i].0[j] != '=' && ps[i].0[j] != '\n');
        }
    }
}

proof fn lemma_run_pairs(a: ScanV, ps: Seq<(Seq<char>, Seq<char>)>)
    requires
        pairs_ok(ps),
    ensures
        scan_run(a, ps.map_values(|p: (Seq<char>, Seq<char>)| cr(pair_line(p)))) == pairs_run(a, ps),
    decreases ps.len(),
{
    let m = ps.map_values(|p: (Seq<char>, Seq<char>)| cr(pair_line(p)));
    if ps.len() > 0 {
        assert(ini_key_ok(ps[0].0));
        lemma_line_pair(ps[0].0, ps[0].1);
        assert(m[0] == cr(pair_line(ps[0])));
        let rest = ps.drop_first();
        assert(pairs_ok(rest)) by {
            assert forall|i: int| #![trigger rest[i]] 0 <= i < rest.len() implies ini_key_ok(rest[i].0) && ini_val_ok(
                rest[i].1,
            ) && ini_pair_ok(rest[i].0, rest[i].1) by {
                assert(rest[i] == ps[i + 1]);
            }
        }
        assert(m.drop_first() =~= rest.map_values(|p: (Seq<char>, Seq<char>)| cr(pair_line(p))));
        lemma_run_pairs(scan_pair(a, ps[0].0, ps[0].1), rest);
    }
}

proof fn lemma_pairs_keep_sec(a: ScanV, ps: Seq<(Seq<char>, Seq<char>)>)
    ensures
        pairs_run(a, ps).sec == a.sec,
    decreases ps.len(),
{
    if ps.len() > 0 {
        lemma_pairs_keep_sec(scan_pair(a, ps[0].0, ps[0].1), ps.drop_first());
    }
}

proof fn lemma_run_block(a: ScanV, name: Seq<char>, ps: Seq<(Seq<char>, Seq<char>)>)
    requires
        pairs_ok(ps),
    ensures
        scan_run(a, block_lines(name, ps)) == (if ps.len() == 0 { a } else { pairs_run(ScanV { sec: name, ..a }, ps) }),
{
    if ps.len() > 0 {
        let h = seq![cr("["@ + name + "]"@)];
        let m = ps.map_values(|p: (Seq<char>, Seq<char>)| cr(pair_line(p)));
        let z = seq![cr(Seq::<char>::empty())];
        lemma_run_concat(a, h + m, z);
        lemma_run_concat(a, h, m);
        lemma_line_header(name);
        assert(h.drop_first() =~= Seq::<Seq<char>>::empty());
        assert(h[0] == cr("["@ + name + "]"@));
        assert(scan_run(scan_step(a, h[0]), h.drop_first()) == scan_step(a, h[0]));
        assert(scan_run(a, h) == ScanV { sec: name, ..a });
        lemma_run_pairs(ScanV { sec: name, ..a }, ps);
        lemma_line_blank();
        assert(z.drop_first() =~= Seq::<Seq<char>>::empty());
        let w = pairs_run(ScanV { sec: name, ..a }, ps);
        assert(z[0] == cr(Seq::<char>::empty()));
        assert(scan_run(scan_step(w, z[0]), z.drop_first()) == scan_step(w, z[0]));
        assert(scan_run(w, z) == w);
    } else {
        assert(block_lines(name, ps) =~= Seq::<Seq<char>>::empty());
    }
}

/// The value a `key=value` line of section `sec` stores.
pub open spec fn section_value(sec: Seq<char>, k: Seq<char>, v: Seq<char>) -> ScalarV {
    if sec == "player"@ {
        if k == "level"@ || k == "outLevel"@ {
            ScalarV::Int(i64_or(parse_i64_spec(v), 1))
        } else {
            ScalarV::Text(v)
        }
    } else if sec == "map"@ {
        if k == "mapid"@ {
            ScalarV::Int(i64_or(parse_i64_spec(v), 0))
        } else {
            ScalarV::Text(v)
        }
    } else {
        ScalarV::Int(i64_or(parse_i64_spec(v), 0))
    }
}

/// The members of section `sec` in a scan state.
pub open spec fn section_of(a: ScanV, sec: Seq<char>) -> Seq<(Seq<char>, ScalarV)> {
    if sec == "player"@ {
        a.player
    } else if sec == "potions"@ {
        a.potions
    } else if sec == "checkin"@ {
        a.checkin
    } else {
        a.map
    }
}

/// A scan state with the members of section `sec` replaced.
pub open spec fn with_section(a: ScanV, sec: Seq<char>, m: Seq<(Seq<char>, ScalarV)>) -> ScanV {
    if sec == "player"@ {
        ScanV { player: m, ..a }
    } else if sec == "potions"@ {
        ScanV { potions: m, ..a }
    } else if sec == "checkin"@ {
        ScanV { checkin: m, ..a }
    } else {
        ScanV { map: m, ..a }
    }
}

/// Pairs put in order into a section's members.
pub open spec fn puts(m: Seq<(Seq<char>, ScalarV)>, sec: Seq<char>, ps: Seq<(Seq<char>, Seq<char>)>) -> Seq<(Seq<char>, ScalarV)>
    decreases ps.len(),
{
    if ps.len() == 0 {
        m
    } else {
        puts(assoc_put(m, ps[0].0, section_value(sec, ps[0].0, ps[0].1)), sec, ps.drop_first())
    }
}

/// The four sections that hold members.
pub open spec fn member_section(sec: Seq<char>) -> bool {
    sec == "player"@ || sec == "potions"@ || sec == "checkin"@ || sec == "map"@
}

proof fn lemma_names_differ()
    ensures
        "window"@ != "player"@,
        "window"@ != "potions"@,
        "window"@ != "checkin"@,
        "window"@ != "map"@,
        "player"@ != "potions"@,
        "player"@ != "checkin"@,
        "player"@ != "map"@,
        "potions"@ != "checkin"@,
        "potions"@ != "map"@,
        "checkin"@ != "map"@,
        "x"@ != "y"@,
{
    reveal_strlit("window");
    reveal_strlit("player");
    reveal_strlit("potions");
    reveal_strlit("checkin");
    reveal_strlit("map");
    reveal_strlit("x");
    reveal_strlit("y");
    assert("window"@[0] != "player"@[0]);
    assert("window"@[0] != "potions"@[0]);
    assert("window"@[0] != "checkin"@[0]);
    assert("window"@[0] != "map"@[0]);
    assert("player"@[1] != "potions"@[1]);
    assert("player"@[0] != "checkin"@[0]);
    assert("player"@[0] != "map"@[0]);
    assert("potions"@[0] != "checkin"@[0]);
    assert("potions"@[0] != "map"@[0]);
    assert("checkin"@[0] != "map"@[0]);
    assert("x"@[0] != "y"@[0]);
}

proof fn lemma_pairs_section(a: ScanV, ps: Seq<(Seq<char>, Seq<char>)>)
    requires
        member_section(a.sec),
    ensures
        pairs_run(a, ps) == with_section(a, a.sec, puts(section_of(a, a.sec), a.sec, ps)),
    decreases ps.len(),
{
    lemma_names_differ();
    if ps.len() == 0 {
        assert(with_section(a, a.sec, section_of(a, a.sec)) == a);
    } else {
        let k = ps[0].0;
        let v = ps[0].1;
        let b = scan_pair(a, k, v);
        assert(b == with_section(a, a.sec, assoc_put(section_of(a, a.sec), k, section_value(a.sec, k, v))));
        lemma_pairs_section(b, ps.drop_first());
        assert(section_of(b, b.sec) == assoc_put(section_of(a, a.sec), k, section_value(a.sec, k, v)));
    }
}

proof fn lemma_pairs_window(a: ScanV, x: Seq<char>, y: Seq<char>)
    requires
        a.sec == "window"@,
    ensures
        pairs_run(a, seq![("x"@, x), ("y"@, y)]) == (ScanV {
            wx: i64_or(parse_i64_spec(x), 0),
            wy: i64_or(parse_i64_spec(y), 0),
            ..a
        }),
{
    lemma_names_differ();
    let ps = seq![("x"@, x), ("y"@, y)];
    let b = scan_pair(a, "x"@, x);
    assert(ps.drop_first() =~= seq![("y"@, y)]);
    assert(seq![("y"@, y)].drop_first() =~= Seq::<(Seq<char>, Seq<char>)>::empty());
    let q = seq![("y"@, y)];
    assert(q[0] == ("y"@, y));
    assert(pairs_run(scan_pair(b, "y"@, y), q.drop_first()) == scan_pair(b, "y"@, y));
    assert(pairs_run(b, q) == scan_pair(b, "y"@, y));
    assert(ps[0] == ("x"@, x));
}

/// A stored member that is written and read back as itself in section `sec`.
pub open spec fn member_ok(sec: Seq<char>, e: (Seq<char>, ScalarV)) -> bool {
    &&& ini_key_ok(e.0)
    &&& ini_val_ok(scalar_text(e.1))
    &&& ini_pair_ok(e.0, scalar_text(e.1))
    &&& section_value(sec, e.0, scalar_text(e.1)) == e.1
}

/// All members of a section read back as themselves.
pub open spec fn members_ok(sec: Seq<char>, m: Seq<(Seq<char>, ScalarV)>) -> bool {
    forall|i: int| 0 <= i < m.len() ==> member_ok(sec, #[trigger] m[i])
}

/// What any scan of a text keeps: members that read back as themselves,
/// and sorted potions and map.
pub open spec fn scan_ok(a: ScanV) -> bool {
    &&& members_ok("player"@, a.player)
    &&& members_ok("potions"@, a.potions)
    &&& members_ok("checkin"@, a.checkin)
    &&& members_ok("map"@, a.map)
    &&& keys_sorted(a.potions)
    &&& keys_sorted(a.map)
}

proof fn lemma_put_members(sec: Seq<char>, m: Seq<(Seq<char>, ScalarV)>, k: Seq<char>, x: ScalarV)
    requires
        members_ok(sec, m),
        member_ok(sec, (k, x)),
    ensures
        members_ok(sec, assoc_put(m, k, x)),
    decreases m.len(),
{
    let p = assoc_put(m, k, x);
    if m.len() > 0 && m[0].0 != k && !text_lt(k, m[0].0) {
        let t = m.drop_first();
        assert(members_ok(sec, t)) by {
            assert forall|i: int| 0 <= i < t.len() implies member_ok(sec, #[trigger] t[i]) by {
                assert(t[i] == m[i + 1]);
            }
        }
        lemma_put_members(sec, t, k, x);
        assert forall|i: int| 0 <= i < p.len() implies member_ok(sec, #[trigger] p[i]) by {
            if i > 0 {
                assert(p[i] == assoc_put(t, k, x)[i - 1]);
            } else {
                assert(p[0] == m[0]);
            }
        }
    } else if m.len() > 0 && m[0].0 == k {
        assert forall|i: int| 0 <= i < p.len() implies member_ok(sec, #[trigger] p[i]) by {
            if i > 0 {
                assert(p[i] == m[i]);
            }
        }
    } else if m.len() > 0 {
        assert forall|i: int| 0 <= i < p.len() implies member_ok(sec, #[trigger] p[i]) by {
            if i > 0 {
                assert(p[i] == m[i - 1]);
            }
        }
    } else {
        assert(p[0] == (k, x));
    }
}

proof fn lemma_first_eq_props(t: Seq<char>, i: int)
    requires
        0 <= i <= t.len(),
    ensures
        i <= first_eq(t, i) <= t.len(),
        first_eq(t, i) < t.len() ==> t[first_eq(t, i)] == '=',
        forall|j: int| i <= j < first_eq(t, i) ==> t[j] != '=',
    decreases t.len() - i,
{
    if i < t.len() && t[i] != '=' {
        lemma_first_eq_props(t, i + 1);
    }
}

/// A `key=value` line yields a key and value that read back as themselves.
proof fn lemma_pair_from_line(line: Seq<char>)
    requires
        no_newline(line),
        line_kind(line) is Pair,
    ensures
        line_kind(line) matches LineKind::Pair(k, v) && ini_key_ok(k) && ini_val_ok(v) && ini_pair_ok(k, v),
{
    let a = trim_start_spec(line);
    let t = trim_spec(line);
    lemma_trim_start_shape(line);
    lemma_trim_end_shape(a);
    lemma_trim_keeps_out(line, '\n');
    assert(t.len() > 0);
    assert(t[0] == a[0]);
    assert(!is_ws(t[0]) && !is_ws(t.last()));
    lemma_first_eq_props(t, 0);
    let eq = first_eq(t, 0);
    let x = t.subrange(0, eq);
    let y = t.subrange(eq + 1, t.len() as int);
    let k = trim_spec(x);
    let v = trim_spec(y);
    assert(line_kind(line) == LineKind::Pair(k, v));
    // the key
    lemma_trim_twice(x);
    assert forall|j: int| 0 <= j < x.len() implies x[j] != '=' && x[j] != '\n' by {
        assert(x[j] == t[j]);
    }
    lemma_trim_keeps_out(x, '=');
    lemma_trim_keeps_out(x, '\n');
    if k.len() > 0 {
        lemma_trim_start_shape(x);
        assert(x.len() > 0);
        assert(x[0] == t[0]);
        assert(trim_start_spec(x) == x);
        lemma_trim_end_shape(x);
        assert(k[0] == x[0]);
    }
    // the value
    lemma_trim_twice(y);
    assert forall|j: int| 0 <= j < y.len() implies y[j] != '\n' by {
        assert(y[j] == t[eq + 1 + j]);
    }
    lemma_trim_keeps_out(y, '\n');
    if v.len() > 0 {
        let b = trim_start_spec(y);
        lemma_trim_start_shape(y);
        lemma_trim_end_shape(b);
        assert(y.len() > 0);
        assert(y.last() == t.last());
        assert(b.last() == y.last());
        assert(trim_end_spec(b) == b);
        assert(v.last() == t.last());
    }
}

proof fn lemma_scan_step_ok(a: ScanV, line: Seq<char>)
    requires
        scan_ok(a),
        no_newline(line),
    ensures
        scan_ok(scan_step(a, line)),
{
    if line_kind(line) is Pair {
        lemma_pair_from_line(line);
        let k = line_kind(line)->Pair_0;
        let v = line_kind(line)->Pair_1;
        lemma_names_differ();
        if member_section(a.sec) {
            let x = section_value(a.sec, k, v);
            if x is Int {
                lemma_int_dec_reads(x->Int_0);
                assert(scalar_text(x) == int_dec(x->Int_0 as int));
                assert(scalar_text(x).last() == int_dec(x->Int_0 as int).last());
            }
            assert(member_ok(a.sec, (k, x)));
            lemma_put_members(a.sec, section_of(a, a.sec), k, x);
            if a.sec == "potions"@ || a.sec == "map"@ {
                lemma_put_sorted(section_of(a, a.sec), k, x);
            }
        }
    }
}

proof fn lemma_lines_plain(s: Seq<char>, i: int)
    requires
        0 <= i,
    ensures
        forall|j: int| 0 <= j < lines_from(s, i).len() ==> no_newline(#[trigger] lines_from(s, i)[j]),
    decreases s.len() + 1 - i,
{
    if i <= s.len() {
        lemma_line_end_props(s, i);
        let e = line_end(s, i);
        lemma_lines_plain(s, e + 1);
        let ls = lines_from(s, i);
        assert forall|j: int| 0 <= j < ls.len() implies no_newline(#[trigger] ls[j]) by {
            if j == 0 {
                assert(ls[0] == s.subrange(i, e));
                assert forall|q: int| 0 <= q < ls[0].len() implies ls[0][q] != '\n' by {
                    assert(ls[0][q] == s[i + q]);
                }
            } else {
                assert(ls[j] == lines_from(s, e + 1)[j - 1]);
            }
        }
    }
}

proof fn lemma_scan_fold_ok(ls: Seq<Seq<char>>, n: int)
    requires
        0 <= n <= ls.len(),
        forall|j: int| 0 <= j < ls.len() ==> no_newline(#[trigger] ls[j]),
    ensures
        scan_ok(scan_fold(ls, n)),
    decreases n,
{
    if n > 0 {
        lemma_scan_fold_ok(ls, n - 1);
        lemma_scan_step_ok(scan_fold(ls, n - 1), ls[n - 1]);
    }
}

/// Letters and digits only.
pub open spec fn plain_word(k: Seq<char>) -> bool {
    k.len() > 0 && forall|i: int|
        0 <= i < k.len() ==> ('a' <= #[trigger] k[i] <= 'z' || 'A' <= k[i] <= 'Z' || '0' <= k[i] <= '9')
}

proof fn lemma_word_ok(k: Seq<char>)
    requires
        plain_word(k),
    ensures
        ini_key_ok(k),
        ini_val_ok(k),
        k[0] != '[',
        k.last() != ']',
{
    assert(k.last() == k[k.len() - 1]);
    assert(!is_ws(k[0]) && !is_ws(k.last()));
    lemma_trim_id(k);
}

proof fn lemma_words()
    ensures
        plain_word("x"@),
        plain_word("y"@),
        plain_word("level"@),
        plain_word("outLevel"@),
        plain_word("job"@),
        plain_word("expMode"@),
        plain_word("partyMode"@),
        plain_word("checkin999"@),
        plain_word("merchant"@),
        plain_word("boss"@),
        plain_word("value"@),
        plain_word("solo"@),
        plain_word("window"@),
        plain_word("player"@),
        plain_word("potions"@),
        plain_word("checkin"@),
        plain_word("map"@),
{
    reveal_strlit("window");
    reveal_strlit("player");
    reveal_strlit("potions");
    reveal_strlit("checkin");
    reveal_strlit("map");
    reveal_strlit("x");
    reveal_strlit("y");
    reveal_strlit("level");
    reveal_strlit("outLevel");
    reveal_strlit("job");
    reveal_strlit("expMode");
    reveal_strlit("partyMode");
    reveal_strlit("checkin999");
    reveal_strlit("merchant");
    reveal_strlit("boss");
    reveal_strlit("value");
    reveal_strlit("solo");
}

proof fn lemma_keys_differ()
    ensures
        "level"@ != "outLevel"@,
        "level"@ != "job"@,
        "level"@ != "expMode"@,
        "level"@ != "partyMode"@,
        "outLevel"@ != "job"@,
        "outLevel"@ != "expMode"@,
        "outLevel"@ != "partyMode"@,
        "job"@ != "expMode"@,
        "job"@ != "partyMode"@,
        "expMode"@ != "partyMode"@,
        "checkin999"@ != "merchant"@,
        "checkin999"@ != "boss"@,
        "merchant"@ != "boss"@,
        "job"@ != "mapid"@,
        "expMode"@ != "mapid"@,
        "partyMode"@ != "mapid"@,
{
    reveal_strlit("level");
    reveal_strlit("outLevel");
    reveal_strlit("job");
    reveal_strlit("expMode");
    reveal_strlit("partyMode");
    reveal_strlit("checkin999");
    reveal_strlit("merchant");
    reveal_strlit("boss");
    reveal_strlit("mapid");
    assert("level"@[0] != "outLevel"@[0]);
    assert("level"@[0] != "job"@[0]);
    assert("level"@[0] != "expMode"@[0]);
    assert("level"@[0] != "partyMode"@[0]);
    assert("outLevel"@[0] != "job"@[0]);
    assert("outLevel"@[0] != "expMode"@[0]);
    assert("outLevel"@[0] != "partyMode"@[0]);
    assert("job"@[0] != "expMode"@[0]);
    assert("job"@[0] != "partyMode"@[0]);
    assert("expMode"@[0] != "partyMode"@[0]);
    assert("checkin999"@[0] != "merchant"@[0]);
    assert("checkin999"@[0] != "boss"@[0]);
    assert("merchant"@[0] != "boss"@[0]);
    assert("job"@[0] != "mapid"@[0]);
    assert("expMode"@[0] != "mapid"@[0]);
    assert("partyMode"@[0] != "mapid"@[0]);
}

/// The members of the settings a scan yields, key by key.
proof fn lemma_scan_members(a: ScanV, j: Seq<char>)
    ensures
        assoc_get(settings_of_scan(a), j) == (if j == "map"@ {
            Some(SValV::Obj(a.map))
        } else if j == "boss"@ {
            Some(leaf_or(a.checkin, "boss"@, ScalarV::Null))
        } else if j == "merchant"@ {
            Some(leaf_or(a.checkin, "merchant"@, ScalarV::Null))
        } else if j == "checkin999"@ {
            Some(leaf_or(a.checkin, "checkin999"@, ScalarV::Null))
        } else if j == "potions"@ {
            Some(SValV::Obj(a.potions))
        } else if j == "partyMode"@ {
            Some(leaf_or(a.player, "partyMode"@, ScalarV::Text("solo"@)))
        } else if j == "expMode"@ {
            Some(leaf_or(a.player, "expMode"@, ScalarV::Text("value"@)))
        } else if j == "job"@ {
            Some(leaf_or(a.player, "job"@, ScalarV::Text(""@)))
        } else if j == "outLevel"@ {
            Some(leaf_or(a.player, "outLevel"@, ScalarV::Int(1)))
        } else if j == "level"@ {
            Some(leaf_or(a.player, "level"@, ScalarV::Int(1)))
        } else if j == "window"@ {
            Some(SValV::Arr(seq![ScalarV::Int(a.wx), ScalarV::Int(a.wy)]))
        } else {
            None
        }),
{
    let e = Seq::<(Seq<char>, SValV)>::empty();
    let s1 = assoc_put(e, "window"@, SValV::Arr(seq![ScalarV::Int(a.wx), ScalarV::Int(a.wy)]));
    let s2 = assoc_put(s1, "level"@, leaf_or(a.player, "level"@, ScalarV::Int(1)));
    let s3 = assoc_put(s2, "outLevel"@, leaf_or(a.player, "outLevel"@, ScalarV::Int(1)));
    let s4 = assoc_put(s3, "job"@, leaf_or(a.player, "job"@, ScalarV::Text(""@)));
    let s5 = assoc_put(s4, "expMode"@, leaf_or(a.player, "expMode"@, ScalarV::Text("value"@)));
    let s6 = assoc_put(s5, "partyMode"@, leaf_or(a.player, "partyMode"@, ScalarV::Text("solo"@)));
    let s7 = assoc_put(s6, "potions"@, SValV::Obj(a.potions));
    let s8 = assoc_put(s7, "checkin999"@, leaf_or(a.checkin, "checkin999"@, ScalarV::Null));
    let s9 = assoc_put(s8, "merchant"@, leaf_or(a.checkin, "merchant"@, ScalarV::Null));
    let s10 = assoc_put(s9, "boss"@, leaf_or(a.checkin, "boss"@, ScalarV::Null));
    lemma_put_get(e, "window"@, SValV::Arr(seq![ScalarV::Int(a.wx), ScalarV::Int(a.wy)]), j);
    lemma_put_get(s1, "level"@, leaf_or(a.player, "level"@, ScalarV::Int(1)), j);
    lemma_put_get(s2, "outLevel"@, leaf_or(a.player, "outLevel"@, ScalarV::Int(1)), j);
    lemma_put_get(s3, "job"@, leaf_or(a.player, "job"@, ScalarV::Text(""@)), j);
    lemma_put_get(s4, "expMode"@, leaf_or(a.player, "expMode"@, ScalarV::Text("value"@)), j);
    lemma_put_get(s5, "partyMode"@, leaf_or(a.player, "partyMode"@, ScalarV::Text("solo"@)), j);
    lemma_put_get(s6, "potions"@, SValV::Obj(a.potions), j);
    lemma_put_get(s7, "checkin999"@, leaf_or(a.checkin, "checkin999"@, ScalarV::Null), j);
    lemma_put_get(s8, "merchant"@, leaf_or(a.checkin, "merchant"@, ScalarV::Null), j);
    lemma_put_get(s9, "boss"@, leaf_or(a.checkin, "boss"@, ScalarV::Null), j);
    lemma_put_get(s10, "map"@, SValV::Obj(a.map), j);
}

proof fn lemma_get_member(sec: Seq<char>, m: Seq<(Seq<char>, ScalarV)>, k: Seq<char>)
    requires
        members_ok(sec, m),
        assoc_get(m, k) is Some,
    ensures
        member_ok(sec, (k, assoc_get(m, k)->Some_0)),
    decreases m.len(),
{
    assert(member_ok(sec, m[0]));
    if m[0].0 != k {
        let t = m.drop_first();
        assert(members_ok(sec, t)) by {
            assert forall|i: int| 0 <= i < t.len() implies member_ok(sec, #[trigger] t[i]) by {
                assert(t[i] == m[i + 1]);
            }
        }
        lemma_get_member(sec, t, k);
    }
}

proof fn lemma_put_append(t: Seq<(Seq<char>, ScalarV)>, k: Seq<char>, x: ScalarV)
    requires
        forall|j: int| 0 <= j < t.len() ==> text_lt(#[trigger] t[j].0, k),
    ensures
        assoc_put(t, k, x) == t.push((k, x)),
    decreases t.len(),
{
    if t.len() == 0 {
        assert(seq![(k, x)] =~= t.push((k, x)));
    } else {
        let r = t.drop_first();
        assert(text_lt(t[0].0, k));
        lemma_lt_irreflexive(k, 0);
        lemma_lt_asym(t[0].0, k, 0);
        assert forall|j: int| 0 <= j < r.len() implies text_lt(#[trigger] r[j].0, k) by {
            assert(r[j] == t[j + 1]);
        }
        lemma_put_append(r, k, x);
        assert(seq![t[0]] + r.push((k, x)) =~= t.push((k, x)));
    }
}

/// Members written as text.
pub open spec fn render_members(m: Seq<(Seq<char>, ScalarV)>) -> Seq<(Seq<char>, Seq<char>)> {
    m.map_values(|e: (Seq<char>, ScalarV)| (e.0, scalar_text(e.1)))
}

proof fn lemma_puts_sorted(sec: Seq<char>, m: Seq<(Seq<char>, ScalarV)>, i: int)
    requires
        keys_sorted(m),
        members_ok(sec, m),
        0 <= i <= m.len(),
    ensures
        puts(m.take(i), sec, render_members(m).skip(i)) == m,
    decreases m.len() - i,
{
    let r = render_members(m);
    if i == m.len() {
        assert(r.skip(i) =~= Seq::<(Seq<char>, Seq<char>)>::empty());
        assert(m.take(i) =~= m);
    } else {
        assert(member_ok(sec, m[i]));
        assert(r.skip(i)[0] == (m[i].0, scalar_text(m[i].1)));
        assert(r.skip(i).drop_first() =~= r.skip(i + 1));
        assert forall|j: int| 0 <= j < m.take(i).len() implies text_lt(#[trigger] m.take(i)[j].0, m[i].0) by {
            assert(m.take(i)[j] == m[j]);
        }
        lemma_put_append(m.take(i), m[i].0, m[i].1);
        assert(m.take(i).push(m[i]) =~= m.take(i + 1));
        lemma_puts_sorted(sec, m, i + 1);
    }
}

proof fn lemma_puts_concat(m: Seq<(Seq<char>, ScalarV)>, sec: Seq<char>, p: Seq<(Seq<char>, Seq<char>)>, q: Seq<(Seq<char>, Seq<char>)>)
    ensures
        puts(m, sec, p + q) == puts(puts(m, sec, p), sec, q),
    decreases p.len(),
{
    if p.len() > 0 {
        assert((p + q)[0] == p[0]);
        assert((p + q).drop_first() =~= p.drop_first() + q);
        lemma_puts_concat(assoc_put(m, p[0].0, section_value(sec, p[0].0, p[0].1)), sec, p.drop_first(), q);
    } else {
        assert(p + q =~= q);
    }
}

proof fn lemma_puts_one(m: Seq<(Seq<char>, ScalarV)>, sec: Seq<char>, k: Seq<char>, v: Seq<char>, j: Seq<char>)
    ensures
        assoc_get(puts(m, sec, seq![(k, v)]), j) == (if j == k {
            Some(section_value(sec, k, v))
        } else {
            assoc_get(m, j)
        }),
{
    let p = seq![(k, v)];
    assert(p[0] == (k, v));
    assert(p.drop_first() =~= Seq::<(Seq<char>, Seq<char>)>::empty());
    assert(puts(assoc_put(m, k, section_value(sec, k, v)), sec, p.drop_first()) == assoc_put(
        m,
        k,
        section_value(sec, k, v),
    ));
    lemma_put_get(m, k, section_value(sec, k, v), j);
}

/// The scalar of member `k` of a section, or `d`.
pub open spec fn scalar_or(m: Seq<(Seq<char>, ScalarV)>, k: Seq<char>, d: ScalarV) -> ScalarV {
    match assoc_get(m, k) {
        Some(x) => x,
        None => d,
    }
}

proof fn lemma_default_ok(sec: Seq<char>, k: Seq<char>, d: ScalarV)
    requires
        plain_word(k),
        d == ScalarV::Int(1) || d == ScalarV::Text(""@) || d == ScalarV::Text("value"@) || d == ScalarV::Text("solo"@),
        d is Int ==> section_value(sec, k, scalar_text(d)) is Int && (sec == "player"@ && (k == "level"@ || k == "outLevel"@)),
        d is Text ==> sec == "player"@ && k != "level"@ && k != "outLevel"@,
    ensures
        member_ok(sec, (k, d)),
{
    lemma_word_ok(k);
    lemma_words();
    reveal_strlit("");
    if d is Int {
        lemma_int_dec_reads(1);
        assert(scalar_text(d) == int_dec(1));
    } else if d == ScalarV::Text(""@) {
        assert(""@ =~= Seq::<char>::empty());
        assert(trim_start_spec(Seq::<char>::empty()) =~= Seq::<char>::empty());
    } else if d == ScalarV::Text("value"@) {
        lemma_word_ok("value"@);
    } else {
        lemma_word_ok("solo"@);
    }
}

proof fn lemma_player_reread(a: ScanV)
    requires
        scan_ok(a),
    ensures
        pairs_ok(player_pairs(settings_of_scan(a))),
        player_pairs(settings_of_scan(a)) == seq![("level"@, scalar_text(scalar_or(a.player, "level"@, ScalarV::Int(1))))]
            + seq![("outLevel"@, scalar_text(scalar_or(a.player, "outLevel"@, ScalarV::Int(1))))] + seq![
            ("job"@, scalar_text(scalar_or(a.player, "job"@, ScalarV::Text(""@)))),
        ] + seq![("expMode"@, scalar_text(scalar_or(a.player, "expMode"@, ScalarV::Text("value"@))))] + seq![
            ("partyMode"@, scalar_text(scalar_or(a.player, "partyMode"@, ScalarV::Text("solo"@)))),
        ],
        assoc_get(puts(Seq::empty(), "player"@, player_pairs(settings_of_scan(a))), "level"@) == Some(
            scalar_or(a.player, "level"@, ScalarV::Int(1)),
        ),
        assoc_get(puts(Seq::empty(), "player"@, player_pairs(settings_of_scan(a))), "outLevel"@) == Some(
            scalar_or(a.player, "outLevel"@, ScalarV::Int(1)),
        ),
        assoc_get(puts(Seq::empty(), "player"@, player_pairs(settings_of_scan(a))), "job"@) == Some(
            scalar_or(a.player, "job"@, ScalarV::Text(""@)),
        ),
        assoc_get(puts(Seq::empty(), "player"@, player_pairs(settings_of_scan(a))), "expMode"@) == Some(
            scalar_or(a.player, "expMode"@, ScalarV::Text("value"@)),
        ),
        assoc_get(puts(Seq::empty(), "player"@, player_pairs(settings_of_scan(a))), "partyMode"@) == Some(
            scalar_or(a.player, "partyMode"@, ScalarV::Text("solo"@)),
        ),
{
    lemma_words();
    lemma_keys_differ();
    lemma_names_differ();
    reveal_strlit("map");
    reveal_strlit("boss");
    reveal_strlit("merchant");
    reveal_strlit("checkin999");
    reveal_strlit("potions");
    reveal_strlit("partyMode");
    reveal_strlit("expMode");
    reveal_strlit("job");
    reveal_strlit("outLevel");
    reveal_strlit("level");
    reveal_strlit("window");
    let s = settings_of_scan(a);
    let ks = seq!["level"@, "outLevel"@, "job"@, "expMode"@, "partyMode"@];
    let ds = seq![ScalarV::Int(1), ScalarV::Int(1), ScalarV::Text(""@), ScalarV::Text("value"@), ScalarV::Text("solo"@)];
    assert forall|i: int| 0 <= i < 5 implies member_ok("player"@, (#[trigger] ks[i], scalar_or(a.player, ks[i], ds[i]))) by {
        lemma_scan_members(a, ks[i]);
        if assoc_get(a.player, ks[i]) is Some {
            lemma_get_member("player"@, a.player, ks[i]);
        } else {
            lemma_default_ok("player"@, ks[i], ds[i]);
        }
    }
    lemma_scan_members(a, "level"@);
    lemma_scan_members(a, "outLevel"@);
    lemma_scan_members(a, "job"@);
    lemma_scan_members(a, "expMode"@);
    lemma_scan_members(a, "partyMode"@);
    let pp = player_pairs(s);
    assert(pp == seq![(ks[0], scalar_text(scalar_or(a.player, ks[0], ds[0])))] + seq![
        (ks[1], scalar_text(scalar_or(a.player, ks[1], ds[1]))),
    ] + seq![(ks[2], scalar_text(scalar_or(a.player, ks[2], ds[2])))] + seq![
        (ks[3], scalar_text(scalar_or(a.player, ks[3], ds[3]))),
    ] + seq![(ks[4], scalar_text(scalar_or(a.player, ks[4], ds[4])))]);
    assert(pairs_ok(pp)) by {
        assert forall|i: int| #![trigger pp[i]] 0 <= i < pp.len() implies ini_key_ok(pp[i].0) && ini_val_ok(pp[i].1)
            && ini_pair_ok(pp[i].0, pp[i].1) by {
            assert(pp[i] == (ks[i], scalar_text(scalar_or(a.player, ks[i], ds[i]))));
            assert(member_ok("player"@, (ks[i], scalar_or(a.player, ks[i], ds[i]))));
        }
    }
    let e = Seq::<(Seq<char>, ScalarV)>::empty();
    let p0 = seq![(ks[0], scalar_text(scalar_or(a.player, ks[0], ds[0])))];
    let p1 = seq![(ks[1], scalar_text(scalar_or(a.player, ks[1], ds[1])))];
    let p2 = seq![(ks[2], scalar_text(scalar_or(a.player, ks[2], ds[2])))];
    let p3 = seq![(ks[3], scalar_text(scalar_or(a.player, ks[3], ds[3])))];
    let p4 = seq![(ks[4], scalar_text(scalar_or(a.player, ks[4], ds[4])))];
    lemma_puts_concat(e, "player"@, p0 + p1 + p2 + p3, p4);
    lemma_puts_concat(e, "player"@, p0 + p1 + p2, p3);
    lemma_puts_concat(e, "player"@, p0 + p1, p2);
    lemma_puts_concat(e, "player"@, p0, p1);
    let m0 = puts(e, "player"@, p0);
    let m1 = puts(m0, "player"@, p1);
    let m2 = puts(m1, "player"@, p2);
    let m3 = puts(m2, "player"@, p3);
    assert forall|j: Seq<char>| #[trigger] assoc_get(puts(m3, "player"@, p4), j) == (if j == ks[4] {
        Some(scalar_or(a.player, ks[4], ds[4]))
    } else if j == ks[3] {
        Some(scalar_or(a.player, ks[3], ds[3]))
    } else if j == ks[2] {
        Some(scalar_or(a.player, ks[2], ds[2]))
    } else if j == ks[1] {
        Some(scalar_or(a.player, ks[1], ds[1]))
    } else if j == ks[0] {
        Some(scalar_or(a.player, ks[0], ds[0]))
    } else {
        None
    }) by {
        assert(member_ok("player"@, (ks[0], scalar_or(a.player, ks[0], ds[0]))));
        assert(member_ok("player"@, (ks[1], scalar_or(a.player, ks[1], ds[1]))));
        assert(member_ok("player"@, (ks[2], scalar_or(a.player, ks[2], ds[2]))));
        assert(member_ok("player"@, (ks[3], scalar_or(a.player, ks[3], ds[3]))));
        assert(member_ok("player"@, (ks[4], scalar_or(a.player, ks[4], ds[4]))));
        lemma_puts_one(e, "player"@, ks[0], scalar_text(scalar_or(a.player, ks[0], ds[0])), j);
        lemma_puts_one(m0, "player"@, ks[1], scalar_text(scalar_or(a.player, ks[1], ds[1])), j);
        lemma_puts_one(m1, "player"@, ks[2], scalar_text(scalar_or(a.player, ks[2], ds[2])), j);
        lemma_puts_one(m2, "player"@, ks[3], scalar_text(scalar_or(a.player, ks[3], ds[3])), j);
        lemma_puts_one(m3, "player"@, ks[4], scalar_text(scalar_or(a.player, ks[4], ds[4])), j);
    }
    assert(assoc_get(puts(m3, "player"@, p4), ks[0]) == Some(scalar_or(a.player, ks[0], ds[0])));
    assert(assoc_get(puts(m3, "player"@, p4), ks[1]) == Some(scalar_or(a.player, ks[1], ds[1])));
    assert(assoc_get(puts(m3, "player"@, p4), ks[2]) == Some(scalar_or(a.player, ks[2], ds[2])));
    assert(assoc_get(puts(m3, "player"@, p4), ks[3]) == Some(scalar_or(a.player, ks[3], ds[3])));
}

/// The written `[checkin]` pair of timer `k`, if it is set.
pub open spec fn checkin_pair_of(a: ScanV, k: Seq<char>) -> Seq<(Seq<char>, Seq<char>)> {
    match assoc_get(a.checkin, k) {
        Some(x) => seq![(k, scalar_text(x))],
        None => Seq::empty(),
    }
}

proof fn lemma_checkin_one(a: ScanV, k: Seq<char>)
    requires
        scan_ok(a),
        plain_word(k),
        k == "checkin999"@ || k == "merchant"@ || k == "boss"@,
    ensures
        int_pair(settings_of_scan(a), k) == checkin_pair_of(a, k),
        pairs_ok(checkin_pair_of(a, k)),
        forall|m: Seq<(Seq<char>, ScalarV)>, j: Seq<char>| #[trigger] assoc_get(puts(m, "checkin"@, checkin_pair_of(a, k)), j)
            == (if j == k && assoc_get(a.checkin, k) is Some { assoc_get(a.checkin, k) } else { assoc_get(m, j) }),
{
    lemma_words();
    lemma_keys_differ();
    lemma_names_differ();
    reveal_strlit("map");
    reveal_strlit("boss");
    reveal_strlit("merchant");
    reveal_strlit("checkin999");
    reveal_strlit("potions");
    reveal_strlit("partyMode");
    reveal_strlit("expMode");
    reveal_strlit("job");
    reveal_strlit("outLevel");
    reveal_strlit("level");
    reveal_strlit("window");
    lemma_scan_members(a, k);
    lemma_word_ok(k);
    let p = checkin_pair_of(a, k);
    if assoc_get(a.checkin, k) is Some {
        let x = assoc_get(a.checkin, k)->Some_0;
        lemma_get_member("checkin"@, a.checkin, k);
        assert(x is Int);
        lemma_int_dec_reads(x->Int_0);
        assert(scalar_text(x) == int_dec(x->Int_0 as int));
        assert(pairs_ok(p)) by {
            assert forall|i: int| #![trigger p[i]] 0 <= i < p.len() implies ini_key_ok(p[i].0) && ini_val_ok(p[i].1)
                && ini_pair_ok(p[i].0, p[i].1) by {
                assert(p[i] == (k, scalar_text(x)));
            }
        }
        assert forall|m: Seq<(Seq<char>, ScalarV)>, j: Seq<char>| #[trigger] assoc_get(puts(m, "checkin"@, p), j) == (if j
            == k && assoc_get(a.checkin, k) is Some { assoc_get(a.checkin, k) } else { assoc_get(m, j) }) by {
            lemma_puts_one(m, "checkin"@, k, scalar_text(x), j);
        }
    } else {
        assert(p =~= Seq::<(Seq<char>, Seq<char>)>::empty());
    }
}

proof fn lemma_checkin_reread(a: ScanV)
    requires
        scan_ok(a),
    ensures
        checkin_pairs(settings_of_scan(a)) == checkin_pair_of(a, "checkin999"@) + checkin_pair_of(a, "merchant"@)
            + checkin_pair_of(a, "boss"@),
        pairs_ok(checkin_pairs(settings_of_scan(a))),
        leaf_or(puts(Seq::empty(), "checkin"@, checkin_pairs(settings_of_scan(a))), "checkin999"@, ScalarV::Null)
            == leaf_or(a.checkin, "checkin999"@, ScalarV::Null),
        leaf_or(puts(Seq::empty(), "checkin"@, checkin_pairs(settings_of_scan(a))), "merchant"@, ScalarV::Null)
            == leaf_or(a.checkin, "merchant"@, ScalarV::Null),
        leaf_or(puts(Seq::empty(), "checkin"@, checkin_pairs(settings_of_scan(a))), "boss"@, ScalarV::Null)
            == leaf_or(a.checkin, "boss"@, ScalarV::Null),
{
    lemma_words();
    lemma_keys_differ();
    lemma_checkin_one(a, "checkin999"@);
    lemma_checkin_one(a, "merchant"@);
    lemma_checkin_one(a, "boss"@);
    let p0 = checkin_pair_of(a, "checkin999"@);
    let p1 = checkin_pair_of(a, "merchant"@);
    let p2 = checkin_pair_of(a, "boss"@);
    let cp = p0 + p1 + p2;
    assert(pairs_ok(cp)) by {
        assert forall|i: int| #![trigger cp[i]] 0 <= i < cp.len() implies ini_key_ok(cp[i].0) && ini_val_ok(cp[i].1)
            && ini_pair_ok(cp[i].0, cp[i].1) by {
            if i < p0.len() {
                assert(cp[i] == p0[i]);
            } else if i < p0.len() + p1.len() {
                assert(cp[i] == p1[i - p0.len()]);
            } else {
                assert(cp[i] == p2[i - p0.len() - p1.len()]);
            }
        }
    }
    let e = Seq::<(Seq<char>, ScalarV)>::empty();
    lemma_puts_concat(e, "checkin"@, p0 + p1, p2);
    lemma_puts_concat(e, "checkin"@, p0, p1);
    let m0 = puts(e, "checkin"@, p0);
    let m1 = puts(m0, "checkin"@, p1);
    let m2 = puts(m1, "checkin"@, p2);
    assert(assoc_get(m0, "checkin999"@) == assoc_get(a.checkin, "checkin999"@));
    assert(assoc_get(m1, "checkin999"@) == assoc_get(a.checkin, "checkin999"@));
    assert(assoc_get(m2, "checkin999"@) == assoc_get(a.checkin, "checkin999"@));
    assert(assoc_get(m0, "merchant"@) is None);
    assert(assoc_get(m1, "merchant"@) == assoc_get(a.checkin, "merchant"@));
    assert(assoc_get(m2, "merchant"@) == assoc_get(a.checkin, "merchant"@));
    assert(assoc_get(m1, "boss"@) is None);
    assert(assoc_get(m2, "boss"@) == assoc_get(a.checkin, "boss"@));
}

proof fn lemma_members_pairs_ok(sec: Seq<char>, m: Seq<(Seq<char>, ScalarV)>)
    requires
        members_ok(sec, m),
    ensures
        pairs_ok(render_members(m)),
{
    let r = render_members(m);
    assert forall|i: int| #![trigger r[i]] 0 <= i < r.len() implies ini_key_ok(r[i].0) && ini_val_ok(r[i].1)
        && ini_pair_ok(r[i].0, r[i].1) by {
        assert(member_ok(sec, m[i]));
    }
}

proof fn lemma_potions_reread(a: ScanV)
    requires
        scan_ok(a),
    ensures
        potion_pairs(settings_of_scan(a)) == render_members(a.potions),
        map_pairs(settings_of_scan(a)) == render_members(a.map),
        pairs_ok(render_members(a.potions)),
        pairs_ok(render_members(a.map)),
        puts(Seq::empty(), "potions"@, render_members(a.potions)) == a.potions,
        puts(Seq::empty(), "map"@, render_members(a.map)) == a.map,
{
    lemma_names_differ();
    lemma_keys_differ();
    reveal_strlit("map");
    reveal_strlit("boss");
    reveal_strlit("merchant");
    reveal_strlit("checkin999");
    reveal_strlit("potions");
    reveal_strlit("partyMode");
    reveal_strlit("expMode");
    reveal_strlit("job");
    reveal_strlit("outLevel");
    reveal_strlit("level");
    reveal_strlit("window");
    lemma_scan_members(a, "potions"@);
    lemma_scan_members(a, "map"@);
    let m = a.potions;
    assert(potion_pairs(settings_of_scan(a)) =~= render_members(m)) by {
        assert forall|i: int| 0 <= i < m.len() implies (m[i].0, int_dec(int_or_zero(m[i].1) as int)) == (
        #[trigger] render_members(m)[i]) by {
            assert(member_ok("potions"@, m[i]));
            assert(m[i].1 is Int);
        }
    }
    lemma_members_pairs_ok("potions"@, a.potions);
    lemma_members_pairs_ok("map"@, a.map);
    lemma_puts_sorted("potions"@, a.potions, 0);
    lemma_puts_sorted("map"@, a.map, 0);
    assert(a.potions.take(0) =~= Seq::<(Seq<char>, ScalarV)>::empty());
    assert(a.map.take(0) =~= Seq::<(Seq<char>, ScalarV)>::empty());
    assert(render_members(a.potions).skip(0) =~= render_members(a.potions));
    assert(render_members(a.map).skip(0) =~= render_members(a.map));
}

proof fn lemma_window_reread(a: ScanV)
    ensures
        window_pairs(settings_of_scan(a)) == seq![("x"@, int_dec(a.wx as int)), ("y"@, int_dec(a.wy as int))],
        pairs_ok(window_pairs(settings_of_scan(a))),
{
    lemma_words();
    lemma_keys_differ();
    lemma_names_differ();
    reveal_strlit("map");
    reveal_strlit("boss");
    reveal_strlit("merchant");
    reveal_strlit("checkin999");
    reveal_strlit("potions");
    reveal_strlit("partyMode");
    reveal_strlit("expMode");
    reveal_strlit("job");
    reveal_strlit("outLevel");
    reveal_strlit("level");
    reveal_strlit("window");
    lemma_scan_members(a, "window"@);
    lemma_word_ok("x"@);
    lemma_word_ok("y"@);
    lemma_int_dec_reads(a.wx);
    lemma_int_dec_reads(a.wy);
    let w = seq![("x"@, int_dec(a.wx as int)), ("y"@, int_dec(a.wy as int))];
    assert(pairs_ok(w)) by {
        assert forall|i: int| #![trigger w[i]] 0 <= i < w.len() implies ini_key_ok(w[i].0) && ini_val_ok(w[i].1)
            && ini_pair_ok(w[i].0, w[i].1) by {
        }
    }
}

/// The written lines of a settings object, section by section.
pub open spec fn settings_lines(s: Seq<(Seq<char>, SValV)>) -> Seq<Seq<char>> {
    block_lines("window"@, window_pairs(s)) + block_lines("player"@, player_pairs(s)) + block_lines(
        "potions"@,
        potion_pairs(s),
    ) + block_lines("checkin"@, checkin_pairs(s)) + block_lines("map"@, map_pairs(s))
}

proof fn lemma_block_lines_plain(name: Seq<char>, ps: Seq<(Seq<char>, Seq<char>)>)
    requires
        no_newline(name),
        pairs_plain(ps),
    ensures
        forall|k: int| 0 <= k < block_lines(name, ps).len() ==> no_newline(#[trigger] block_lines(name, ps)[k]),
{
    reveal_strlit("[");
    reveal_strlit("]");
    let b = block_lines(name, ps);
    if ps.len() > 0 {
        let h = "["@ + name + "]"@;
        let m = ps.map_values(|p: (Seq<char>, Seq<char>)| cr(pair_line(p)));
        assert forall|k: int| 0 <= k < b.len() implies no_newline(#[trigger] b[k]) by {
            if k == 0 {
                assert(b[0] == cr(h));
                assert forall|i: int| 0 <= i < cr(h).len() implies cr(h)[i] != '\n' by {
                    if 0 < i < h.len() - 1 {
                        assert(cr(h)[i] == name[i - 1]);
                    }
                }
            } else if k <= ps.len() {
                assert(b[k] == m[k - 1]);
                lemma_pair_line_plain(ps[k - 1]);
            } else {
                assert(b[k] == cr(Seq::<char>::empty()));
                assert(cr(Seq::<char>::empty()) =~= seq!['\r']);
            }
        }
    }
}

proof fn lemma_render_lines(s: Seq<(Seq<char>, SValV)>)
    requires
        pairs_ok(window_pairs(s)),
        pairs_ok(player_pairs(s)),
        pairs_ok(potion_pairs(s)),
        pairs_ok(checkin_pairs(s)),
        pairs_ok(map_pairs(s)),
    ensures
        settings_ini_spec(s) == join_lines(settings_lines(s)),
        forall|k: int| 0 <= k < settings_lines(s).len() ==> no_newline(#[trigger] settings_lines(s)[k]),
{
    lemma_words();
    let nw = "window"@;
    let np = "player"@;
    let no = "potions"@;
    let nc = "checkin"@;
    let nm = "map"@;
    lemma_word_ok(nw);
    lemma_word_ok(np);
    lemma_word_ok(no);
    lemma_word_ok(nc);
    lemma_word_ok(nm);
    assert(no_newline(nw) && no_newline(np) && no_newline(no) && no_newline(nc) && no_newline(nm)) by {
        assert forall|i: int| 0 <= i < nw.len() implies nw[i] != '\n' by {
            assert(nw[i] != '=' && nw[i] != '\n');
        }
        assert forall|i: int| 0 <= i < np.len() implies np[i] != '\n' by {
            assert(np[i] != '=' && np[i] != '\n');
        }
        assert forall|i: int| 0 <= i < no.len() implies no[i] != '\n' by {
            assert(no[i] != '=' && no[i] != '\n');
        }
        assert forall|i: int| 0 <= i < nc.len() implies nc[i] != '\n' by {
            assert(nc[i] != '=' && nc[i] != '\n');
        }
        assert forall|i: int| 0 <= i < nm.len() implies nm[i] != '\n' by {
            assert(nm[i] != '=' && nm[i] != '\n');
        }
    }
    let (pw, pp, po, pc, pm) = (window_pairs(s), player_pairs(s), potion_pairs(s), checkin_pairs(s), map_pairs(s));
    lemma_pairs_ok_plain(pw);
    lemma_pairs_ok_plain(pp);
    lemma_pairs_ok_plain(po);
    lemma_pairs_ok_plain(pc);
    lemma_pairs_ok_plain(pm);
    let (bw, bp, bo, bc, bm) = (ini_block(nw, pw), ini_block(np, pp), ini_block(no, po), ini_block(nc, pc), ini_block(nm, pm));
    lemma_crlf_concat(bw + bp + bo + bc, bm);
    lemma_crlf_concat(bw + bp + bo, bc);
    lemma_crlf_concat(bw + bp, bo);
    lemma_crlf_concat(bw, bp);
    lemma_block_crlf(nw, pw);
    lemma_block_crlf(np, pp);
    lemma_block_crlf(no, po);
    lemma_block_crlf(nc, pc);
    lemma_block_crlf(nm, pm);
    let (lw, lp, lo, lc, lm) = (block_lines(nw, pw), block_lines(np, pp), block_lines(no, po), block_lines(nc, pc), block_lines(nm, pm));
    lemma_join_concat(lw + lp + lo + lc, lm);
    lemma_join_concat(lw + lp + lo, lc);
    lemma_join_concat(lw + lp, lo);
    lemma_join_concat(lw, lp);
    lemma_block_lines_plain(nw, pw);
    lemma_block_lines_plain(np, pp);
    lemma_block_lines_plain(no, po);
    lemma_block_lines_plain(nc, pc);
    lemma_block_lines_plain(nm, pm);
    lemma_concat_lines(lw, lp);
    lemma_concat_lines(lw + lp, lo);
    lemma_concat_lines(lw + lp + lo, lc);
    lemma_concat_lines(lw + lp + lo + lc, lm);
}

proof fn lemma_section_block(b: ScanV, name: Seq<char>, ps: Seq<(Seq<char>, Seq<char>)>)
    requires
        member_section(name),
        pairs_ok(ps),
    ensures
        scan_run(b, block_lines(name, ps)).wx == b.wx,
        scan_run(b, block_lines(name, ps)).wy == b.wy,
        section_of(scan_run(b, block_lines(name, ps)), name) == puts(section_of(b, name), name, ps),
        forall|n: Seq<char>|
            member_section(n) && n != name ==> #[trigger] section_of(scan_run(b, block_lines(name, ps)), n)
                == section_of(b, n),
{
    lemma_names_differ();
    lemma_run_block(b, name, ps);
    if ps.len() > 0 {
        let b2 = ScanV { sec: name, ..b };
        lemma_pairs_section(b2, ps);
        assert(section_of(b2, name) == section_of(b, name));
        assert forall|n: Seq<char>| member_section(n) && n != name implies #[trigger] section_of(
            scan_run(b, block_lines(name, ps)),
            n,
        ) == section_of(b, n) by {}
    } else {
        assert(puts(section_of(b, name), name, ps) == section_of(b, name));
    }
}

proof fn lemma_run_sections(a: ScanV)
    requires
        scan_ok(a),
    ensures
        ({
            let s = settings_of_scan(a);
            let r = scan_run(scan_init(), settings_lines(s).push(Seq::<char>::empty()));
            &&& r.wx == a.wx
            &&& r.wy == a.wy
            &&& r.player == puts(Seq::empty(), "player"@, player_pairs(s))
            &&& r.potions == a.potions
            &&& r.checkin == puts(Seq::empty(), "checkin"@, checkin_pairs(s))
            &&& r.map == a.map
        }),
{
    lemma_names_differ();
    lemma_words();
    let s = settings_of_scan(a);
    lemma_window_reread(a);
    lemma_player_reread(a);
    lemma_potions_reread(a);
    lemma_checkin_reread(a);
    let init = scan_init();
    let (pw, pp, po, pc, pm) = (window_pairs(s), player_pairs(s), potion_pairs(s), checkin_pairs(s), map_pairs(s));
    let lw = block_lines("window"@, pw);
    let lp = block_lines("player"@, pp);
    let lo = block_lines("potions"@, po);
    let lc = block_lines("checkin"@, pc);
    let lm = block_lines("map"@, pm);
    let z = seq![Seq::<char>::empty()];
    let all = settings_lines(s).push(Seq::<char>::empty());
    assert(all =~= lw + lp + lo + lc + lm + z);
    lemma_run_concat(init, lw + lp + lo + lc + lm, z);
    lemma_run_concat(init, lw + lp + lo + lc, lm);
    lemma_run_concat(init, lw + lp + lo, lc);
    lemma_run_concat(init, lw + lp, lo);
    lemma_run_concat(init, lw, lp);
    // [window]
    lemma_run_block(init, "window"@, pw);
    let w0 = ScanV { sec: "window"@, ..init };
    lemma_pairs_window(w0, int_dec(a.wx as int), int_dec(a.wy as int));
    lemma_int_dec_reads(a.wx);
    lemma_int_dec_reads(a.wy);
    let a1 = scan_run(init, lw);
    assert(a1.wx == a.wx && a1.wy == a.wy);
    // the member sections
    lemma_section_block(a1, "player"@, pp);
    let a2 = scan_run(a1, lp);
    lemma_section_block(a2, "potions"@, po);
    let a3 = scan_run(a2, lo);
    lemma_section_block(a3, "checkin"@, pc);
    let a4 = scan_run(a3, lc);
    lemma_section_block(a4, "map"@, pm);
    let a5 = scan_run(a4, lm);
    assert(section_of(a1, "player"@) =~= Seq::<(Seq<char>, ScalarV)>::empty());
    assert(section_of(a2, "potions"@) =~= Seq::<(Seq<char>, ScalarV)>::empty());
    assert(section_of(a3, "checkin"@) =~= Seq::<(Seq<char>, ScalarV)>::empty());
    assert(section_of(a4, "map"@) =~= Seq::<(Seq<char>, ScalarV)>::empty());
    assert(a5.wx == a.wx);
    assert(a5.wy == a.wy);
    assert(section_of(a2, "player"@) == puts(Seq::empty(), "player"@, pp));
    assert(section_of(a3, "player"@) == section_of(a2, "player"@));
    assert(section_of(a4, "player"@) == section_of(a3, "player"@));
    assert(section_of(a5, "player"@) == section_of(a4, "player"@));
    assert(section_of(a3, "potions"@) == puts(Seq::empty(), "potions"@, po));
    assert(section_of(a4, "potions"@) == section_of(a3, "potions"@));
    assert(section_of(a5, "potions"@) == section_of(a4, "potions"@));
    assert(section_of(a4, "checkin"@) == puts(Seq::empty(), "checkin"@, pc));
    assert(section_of(a5, "checkin"@) == section_of(a4, "checkin"@));
    assert(section_of(a5, "map"@) == puts(Seq::empty(), "map"@, pm));
    assert(a5.player == puts(Seq::empty(), "player"@, pp));
    assert(a5.potions == puts(Seq::empty(), "potions"@, po));
    assert(a5.potions == a.potions);
    assert(a5.checkin == puts(Seq::empty(), "checkin"@, pc));
    assert(a5.map == a.map);
    // the trailing empty line
    assert(z[0] == Seq::<char>::empty());
    assert(trim_start_spec(Seq::<char>::empty()) =~= Seq::<char>::empty());
    assert(line_kind(Seq::<char>::empty()) == LineKind::Skip);
    assert(z.drop_first() =~= Seq::<Seq<char>>::empty());
    assert(scan_run(scan_step(a5, z[0]), z.drop_first()) == scan_step(a5, z[0]));
    assert(scan_run(a5, z) == a5);
}

/// Law: settings read from an INI text, written back as INI text and read
/// again, are the same settings — the file keeps what the shell stores.
pub proof fn lemma_settings_reread(text: Seq<char>)
    ensures
        ini_settings_spec(settings_ini_spec(ini_settings_spec(text))) == ini_settings_spec(text),
{
    let ls = lines_from(text, 0);
    lemma_lines_plain(text, 0);
    let a = scan_fold(ls, ls.len() as int);
    lemma_scan_fold_ok(ls, ls.len() as int);
    let s = settings_of_scan(a);
    lemma_window_reread(a);
    lemma_player_reread(a);
    lemma_potions_reread(a);
    lemma_checkin_reread(a);
    lemma_render_lines(s);
    let lines = settings_lines(s);
    lemma_lines_join(lines);
    let all = lines.push(Seq::<char>::empty());
    lemma_fold_run(all, 0);
    assert(all.skip(0) =~= all);
    assert(scan_fold(all, 0) == scan_init());
    lemma_run_sections(a);
    let a5 = scan_run(scan_init(), all);
    assert(leaf_or(a5.player, "level"@, ScalarV::Int(1)) == leaf_or(a.player, "level"@, ScalarV::Int(1)));
    assert(leaf_or(a5.player, "outLevel"@, ScalarV::Int(1)) == leaf_or(a.player, "outLevel"@, ScalarV::Int(1)));
    assert(leaf_or(a5.player, "job"@, ScalarV::Text(""@)) == leaf_or(a.player, "job"@, ScalarV::Text(""@)));
    assert(leaf_or(a5.player, "expMode"@, ScalarV::Text("value"@)) == leaf_or(
        a.player,
        "expMode"@,
        ScalarV::Text("value"@),
    ));
    assert(leaf_or(a5.player, "partyMode"@, ScalarV::Text("solo"@)) == leaf_or(
        a.player,
        "partyMode"@,
        ScalarV::Text("solo"@),
    ));
    assert(settings_of_scan(a5) == s);
}

/// The shell's device id: the machine GUID (from the registry), lower-cased;
/// else the `deviceId` string of the saved id file's JSON text; `None` when
/// neither gives one (a fresh id is then made and saved).
pub fn device_id_from(guid: Option<&str>, saved: Option<&str>) -> (r: Option<String>)
    ensures
        match guid {
            Some(g) => r matches Some(x) && x@ == lowercase(g@),
            None => match saved {
                Some(t) => match (r, json_str_field(t@, "deviceId"@)) {
                    (None, None) => true,
                    (Some(a), Some(b)) => a@ == b,
                    _ => false,
                },
                None => r is None,
            },
        },
{
    match guid {
        Some(g) => Some(to_lower(g)),
        None => match saved {
            Some(t) => json_get_str(t, "deviceId"),
            None => None,
        },
    }
}

} // verus!
