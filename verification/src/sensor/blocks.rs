//! 8-connected blocks of a 0/1 mask laid out row-major, `w` cells wide:
//! which cells a cell reaches, and the facts about reaching that the block
//! search relies on.
use vstd::prelude::*;

verus! {

/// Cells `a` and `b` touch: different cells, at most one column and one row
/// apart.
pub open spec fn near(w: int, a: int, b: int) -> bool {
    &&& a != b
    &&& -1 <= a % w - b % w <= 1
    &&& -1 <= a / w - b / w <= 1
}

/// One step inside the mask: both cells set, touching.
pub open spec fn step(m: Seq<u8>, w: int, a: int, b: int) -> bool {
    &&& 0 <= a < m.len()
    &&& 0 <= b < m.len()
    &&& m[a] == 1
    &&& m[b] == 1
    &&& near(w, a, b)
}

/// A path inside the mask: set cells, each touching the next.
pub open spec fn is_path(m: Seq<u8>, w: int, p: Seq<int>) -> bool {
    &&& p.len() >= 1
    &&& forall|i: int| 0 <= i < p.len() ==> 0 <= #[trigger] p[i] < m.len() && m[p[i]] == 1
    &&& forall|i: int| 0 <= i < p.len() - 1 ==> near(w, #[trigger] p[i], p[i + 1])
}

/// `s` reaches `t` inside the mask.
pub open spec fn reach(m: Seq<u8>, w: int, s: int, t: int) -> bool {
    exists|p: Seq<int>| #[trigger] is_path(m, w, p) && p[0] == s && p.last() == t
}

/// The block of `s`: every cell it reaches.
pub open spec fn block(m: Seq<u8>, w: int, s: int) -> Set<int> {
    Set::new(|t: int| reach(m, w, s, t))
}

/// Some cell before `k` with the mask set reaches `j`: `j` lies in a block
/// found before `k`.
pub open spec fn claimed(m: Seq<u8>, w: int, k: int, j: int) -> bool {
    exists|i: int| 0 <= i < k && m[i] == 1 && #[trigger] reach(m, w, i, j)
}

/// A set cell reaches itself.
pub proof fn lemma_reach_self(m: Seq<u8>, w: int, s: int)
    requires
        0 <= s < m.len(),
        m[s] == 1,
    ensures
        reach(m, w, s, s),
{
    let p = seq![s];
    assert(is_path(m, w, p));
}

/// Both ends of a reach are set cells of the mask.
pub proof fn lemma_reach_ends(m: Seq<u8>, w: int, s: int, t: int)
    requires
        reach(m, w, s, t),
    ensures
        0 <= s < m.len() && m[s] == 1,
        0 <= t < m.len() && m[t] == 1,
{
    let p = choose|p: Seq<int>| #[trigger] is_path(m, w, p) && p[0] == s && p.last() == t;
    assert(p[p.len() - 1] == t);
    assert(0 <= p[0] < m.len() && m[p[0]] == 1);
    assert(0 <= p[p.len() - 1] < m.len() && m[p[p.len() - 1]] == 1);
}

/// A reached cell and one more step.
pub proof fn lemma_reach_step(m: Seq<u8>, w: int, s: int, u: int, t: int)
    requires
        reach(m, w, s, u),
        step(m, w, u, t),
    ensures
        reach(m, w, s, t),
{
    let p = choose|p: Seq<int>| #[trigger] is_path(m, w, p) && p[0] == s && p.last() == u;
    let q = p.push(t);
    assert(q[q.len() - 2] == p[p.len() - 1]);
    assert forall|i: int| 0 <= i < q.len() implies 0 <= #[trigger] q[i] < m.len() && m[q[i]] == 1 by {
        if i < p.len() {
            assert(q[i] == p[i]);
        }
    }
    assert forall|i: int| 0 <= i < q.len() - 1 implies near(w, #[trigger] q[i], q[i + 1]) by {
        if i < p.len() - 1 {
            assert(q[i] == p[i] && q[i + 1] == p[i + 1]);
        } else {
            assert(q[i] == u);
        }
    }
    assert(is_path(m, w, q));
}

/// Reaching is symmetric.
pub proof fn lemma_reach_sym(m: Seq<u8>, w: int, s: int, t: int)
    requires
        reach(m, w, s, t),
    ensures
        reach(m, w, t, s),
{
    let p = choose|p: Seq<int>| #[trigger] is_path(m, w, p) && p[0] == s && p.last() == t;
    let n = p.len();
    let q = Seq::new(n, |i: int| p[n - 1 - i]);
    assert forall|i: int| 0 <= i < q.len() implies 0 <= #[trigger] q[i] < m.len() && m[q[i]] == 1 by {
        assert(q[i] == p[n - 1 - i]);
    }
    assert forall|i: int| 0 <= i < q.len() - 1 implies near(w, #[trigger] q[i], q[i + 1]) by {
        let j = n - 2 - i;
        assert(near(w, p[j], p[j + 1]));
        assert(q[i] == p[j + 1] && q[i + 1] == p[j]);
    }
    assert(is_path(m, w, q));
    assert(q[0] == t && q.last() == s);
}

/// Reaching is transitive.
pub proof fn lemma_reach_trans(m: Seq<u8>, w: int, s: int, u: int, t: int)
    requires
        reach(m, w, s, u),
        reach(m, w, u, t),
    ensures
        reach(m, w, s, t),
{
    let p = choose|p: Seq<int>| #[trigger] is_path(m, w, p) && p[0] == s && p.last() == u;
    let r = choose|r: Seq<int>| #[trigger] is_path(m, w, r) && r[0] == u && r.last() == t;
    let q = p + r.drop_first();
    assert forall|i: int| 0 <= i < q.len() implies 0 <= #[trigger] q[i] < m.len() && m[q[i]] == 1 by {
        if i < p.len() {
            assert(q[i] == p[i]);
        } else {
            assert(q[i] == r[i - p.len() + 1]);
        }
    }
    assert forall|i: int| 0 <= i < q.len() - 1 implies near(w, #[trigger] q[i], q[i + 1]) by {
        if i < p.len() - 1 {
            assert(q[i] == p[i] && q[i + 1] == p[i + 1]);
        } else if i == p.len() - 1 {
            assert(q[i] == p[p.len() - 1]);
            assert(q[i + 1] == r[1]);
            assert(near(w, r[0], r[1]));
        } else {
            assert(q[i] == r[i - p.len() + 1] && q[i + 1] == r[i - p.len() + 2]);
        }
    }
    assert(is_path(m, w, q));
    if r.len() == 1 {
        assert(q =~= p);
    } else {
        assert(q.last() == r.last());
    }
}

/// Every cell of a path from `s` lies in a set that holds `s` and is closed
/// under steps.
proof fn lemma_path_closed(m: Seq<u8>, w: int, p: Seq<int>, k: int, c: Set<int>)
    requires
        is_path(m, w, p),
        c.contains(p[0]),
        forall|a: int, b: int| #[trigger] c.contains(a) && step(m, w, a, b) ==> #[trigger] c.contains(b),
        0 <= k < p.len(),
    ensures
        c.contains(p[k]),
    decreases k,
{
    if k > 0 {
        lemma_path_closed(m, w, p, k - 1, c);
        assert(near(w, p[k - 1], p[k]));
        assert(0 <= p[k - 1] < m.len() && m[p[k - 1]] == 1);
        assert(0 <= p[k] < m.len() && m[p[k]] == 1);
        assert(step(m, w, p[k - 1], p[k]));
    }
}

/// A set that holds `s` and is closed under steps holds every cell `s`
/// reaches.
pub proof fn lemma_reach_closed(m: Seq<u8>, w: int, s: int, t: int, c: Set<int>)
    requires
        c.contains(s),
        forall|a: int, b: int| #[trigger] c.contains(a) && step(m, w, a, b) ==> #[trigger] c.contains(b),
        reach(m, w, s, t),
    ensures
        c.contains(t),
{
    let p = choose|p: Seq<int>| #[trigger] is_path(m, w, p) && p[0] == s && p.last() == t;
    lemma_path_closed(m, w, p, p.len() - 1, c);
}

} // verus!
