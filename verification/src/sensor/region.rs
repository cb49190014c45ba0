//! Locating the EXP value bar by colour, for any window size.
//!
//! 1. In the bottom 20 % of the frame, find a red block (hue ≤ 9 or ≥ 170)
//!    with a green block (hue 30..=100) right of it on the same row: the shop
//!    button next to the auction button.
//! 2. Left of the shop, the nearest dark vertical separator is the left edge
//!    of the value bar (without one the bar is taken as three shop widths).
//! 3. In the bar's text rows, the leftmost tall pale-green column run is the
//!    left edge of the `[` that follows the EXP value.
//!
//! Only geometry comes out of here; the value is read by `digits`.
use super::capture::BgraFrame;
use super::blocks::{block, claimed, lemma_reach_closed, lemma_reach_ends, lemma_reach_self, lemma_reach_step, lemma_reach_sym, lemma_reach_trans, near, reach, step};
use super::digits::{luma, luma_at, lemma_px_off, px_off};
use vstd::prelude::*;

verus! {

/// Smallest connected block kept.
pub const MIN_AREA: i32 = 80;
/// Smallest side of a shop/auction button.
pub const BTN_MIN: i32 = 12;

/// Where the value bar is: its rectangle in frame coordinates (right edge =
/// the shop's left edge), the bar's luma, and the `[` column inside the bar.
pub struct ExpRegion {
    pub x0: i32,
    pub y0: i32,
    pub x1: i32,
    pub y1: i32,
    /// Left edge column of `[`, relative to `x0`.
    pub bracket_col: i32,
    /// Bar luma, row-major, `(x1 - x0) × (y1 - y0)` bytes.
    pub g: Vec<u8>,
}

/// A connected block: bounding box and pixel count.
#[derive(Debug, Clone, Copy, PartialEq, Eq)]
pub struct Comp {
    pub x: i32,
    pub y: i32,
    pub w: i32,
    pub h: i32,
    pub area: i32,
}

/// Which colour a block is made of.
#[derive(Debug, Clone, Copy, PartialEq, Eq)]
pub enum Hue {
    Red,
    Green,
}

/// Luma of one pixel.
pub fn lum(b: u8, g: u8, r: u8) -> (y: u8)
    ensures
        y == luma(b, g, r),
{
    ((299 * r as i32 + 587 * g as i32 + 114 * b as i32) / 1000) as u8
}

pub open spec fn max3(a: int, b: int, c: int) -> int {
    if a >= b && a >= c { a } else if b >= c { b } else { c }
}

pub open spec fn min3(a: int, b: int, c: int) -> int {
    if a <= b && a <= c { a } else if b <= c { b } else { c }
}

/// Twice the hue angle scaled by the chroma `d`: the hue in OpenCV's 0..180
/// scale is this over `d`.
pub open spec fn half_hue_num(b: int, g: int, r: int, mx: int, d: int) -> int {
    if mx == r {
        if g >= b { 30 * (g - b) } else { 180 * d + 30 * (g - b) }
    } else if mx == g {
        60 * d + 30 * (b - r)
    } else {
        120 * d + 30 * (r - g)
    }
}

/// HSV as OpenCV's BGR→HSV gives it: hue 0..180 (rounded, 180 wraps to 0),
/// saturation 0..255 (rounded), value = the largest channel.
pub open spec fn hsv_spec(b: u8, g: u8, r: u8) -> (int, int, int) {
    let mx = max3(r as int, g as int, b as int);
    let mn = min3(r as int, g as int, b as int);
    let d = mx - mn;
    let s = if mx > 0 { (510 * d + mx) / (2 * mx) } else { 0 };
    let h = if d > 0 {
        ((2 * half_hue_num(b as int, g as int, r as int, mx, d) + d) / (2 * d)) % 180
    } else {
        0
    };
    (h, s, mx)
}

/// BGR → HSV (OpenCV scale).
pub fn hsv(b: u8, g: u8, r: u8) -> (res: (i32, i32, i32))
    ensures
        (res.0 as int, res.1 as int, res.2 as int) == hsv_spec(b, g, r),
{
    let bi = b as i32;
    let gi = g as i32;
    let ri = r as i32;
    let mx = if ri >= gi && ri >= bi {
        ri
    } else if gi >= bi {
        gi
    } else {
        bi
    };
    let mn = if ri <= gi && ri <= bi {
        ri
    } else if gi <= bi {
        gi
    } else {
        bi
    };
    let d = mx - mn;
    assert(0 <= mn <= mx <= 255);
    assert(0 <= d <= 255);
    let s = if mx > 0 {
        (510 * d + mx) / (2 * mx)
    } else {
        0
    };
    let h = if d > 0 {
        let num = if mx == ri {
            if gi >= bi {
                30 * (gi - bi)
            } else {
                180 * d + 30 * (gi - bi)
            }
        } else if mx == gi {
            60 * d + 30 * (bi - ri)
        } else {
            120 * d + 30 * (ri - gi)
        };
        ((2 * num + d) / (2 * d)) % 180
    } else {
        0
    };
    (h, s, mx)
}

/// The colour test of a block's pixels.
pub open spec fn hue_match(hue: Hue, b: u8, g: u8, r: u8) -> bool {
    let (h, s, v) = hsv_spec(b, g, r);
    match hue {
        Hue::Red => (h <= 9 || h >= 170) && s > 110 && v > 70,
        Hue::Green => 30 <= h <= 100 && s > 90 && v > 70,
    }
}

fn hue_test(hue: Hue, b: u8, g: u8, r: u8) -> (t: bool)
    ensures
        t == hue_match(hue, b, g, r),
{
    let (h, s, v) = hsv(b, g, r);
    match hue {
        Hue::Red => (h <= 9 || h >= 170) && s > 110 && v > 70,
        Hue::Green => 30 <= h && h <= 100 && s > 90 && v > 70,
    }
}

/// A block lies inside the frame, below row `b0`, and is big enough.
pub open spec fn comp_ok(c: Comp, w: int, h: int, b0: int) -> bool {
    &&& 0 <= c.x
    &&& c.w >= 1
    &&& c.x + c.w <= w
    &&& b0 <= c.y
    &&& c.h >= 1
    &&& c.y + c.h <= h
    &&& MIN_AREA <= c.area
}

/// Entries equal to 1.
pub open spec fn ones(s: Seq<u8>) -> nat
    decreases s.len(),
{
    if s.len() == 0 {
        0
    } else {
        ones(s.drop_last()) + if s.last() == 1 { 1nat } else { 0nat }
    }
}

proof fn lemma_ones_update(s: Seq<u8>, i: int)
    requires
        0 <= i < s.len(),
        s[i] == 1,
    ensures
        ones(s.update(i, 0)) + 1 == ones(s),
    decreases s.len(),
{
    let t = s.update(i, 0);
    if i == s.len() - 1 {
        assert(t.drop_last() =~= s.drop_last());
    } else {
        assert(t.drop_last() =~= s.drop_last().update(i, 0));
        lemma_ones_update(s.drop_last(), i);
    }
}

proof fn lemma_ones_bound(s: Seq<u8>)
    ensures
        ones(s) <= s.len(),
    decreases s.len(),
{
    if s.len() > 0 {
        lemma_ones_bound(s.drop_last());
    }
}

/// 8-connected blocks of pixels of one colour in the rows from `b0` down,
/// found in raster order of their first pixel; blocks under `MIN_AREA`
/// pixels are dropped.
#[verifier::spinoff_prover]
#[verifier::rlimit(40)]
pub fn band_comps(frame: &BgraFrame, b0: i32, hue: Hue) -> (out: Vec<Comp>)
    requires
        frame.wf(),
        0 <= b0,
        frame.w * frame.h < 0x8000_0000,
    ensures
        out@ == band_blocks(frame.pixels@, frame.w as int, frame.h as int, b0 as int, hue),
        forall|k: int| 0 <= k < out@.len() ==> comp_ok(#[trigger] out@[k], frame.w as int, frame.h as int, b0 as int),
{
    let mut out: Vec<Comp> = Vec::new();
    let w = frame.w;
    if b0 >= frame.h || w <= 0 {
        return out;
    }
    let rows = frame.h - b0;
    let ghost px = frame.pixels@;
    let plen = frame.pixels.len();
    let wu = w as usize;
    proof {
        assert(w * rows <= frame.w * frame.h) by (nonlinear_arith)
            requires
                w == frame.w,
                rows <= frame.h,
                frame.w >= 0,
        ;
    }
    let total = wu * (rows as usize);
    // Pass 1: the colour mask of the band.
    let mut mask: Vec<u8> = Vec::new();
    let mut yy: i32 = 0;
    while yy < rows
        invariant
            px == frame.pixels@,
            plen == px.len(),
            frame.wf(),
            w == frame.w,
            wu == w,
            w > 0,
            rows == frame.h - b0,
            0 <= b0,
            0 <= yy <= rows,
            mask@.len() == yy * w,
            forall|k: int| 0 <= k < mask@.len() ==> mask@[k] <= 1,
            forall|k: int| 0 <= k < mask@.len() ==> mask@[k] == band_mask(px, w as int, b0 as int, rows as int, hue)[k],
        decreases rows - yy,
    {
        let mut xx: i32 = 0;
        while xx < w
            invariant
                px == frame.pixels@,
                plen == px.len(),
                frame.wf(),
                w == frame.w,
                wu == w,
                w > 0,
                rows == frame.h - b0,
                0 <= b0,
                0 <= yy < rows,
                0 <= xx <= w,
                mask@.len() == yy * w + xx,
                forall|k: int| 0 <= k < mask@.len() ==> mask@[k] <= 1,
                forall|k: int|
                    0 <= k < mask@.len() ==> mask@[k] == band_mask(px, w as int, b0 as int, rows as int, hue)[k],
            decreases w - xx,
        {
            let y = b0 + yy;
            proof {
                lemma_px_off(w as int, frame.h as int, xx as int, y as int);
                assert(0 <= y * w) by (nonlinear_arith)
                    requires
                        y >= 0,
                        w >= 0,
                ;
                assert(px_off(w as int, xx as int, y as int) + 3 < plen);
                assert(yy * w + xx < w * rows) by (nonlinear_arith)
                    requires
                        0 <= yy < rows,
                        0 <= xx < w,
                ;
                lemma_cell_coords(yy as int, xx as int, w as int);
            }
            let ghost pre = mask@;
            let o = ((y as usize) * wu + (xx as usize)) * 4;
            let hit = hue_test(hue, frame.pixels[o], frame.pixels[o + 1], frame.pixels[o + 2]);
            mask.push(if hit {
                1
            } else {
                0
            });
            proof {
                assert forall|k: int| 0 <= k < mask@.len() implies mask@[k] == band_mask(
                    px,
                    w as int,
                    b0 as int,
                    rows as int,
                    hue,
                )[k] by {
                    if k < pre.len() {
                        assert(mask@[k] == pre[k]);
                    }
                }
            }
            xx = xx + 1;
        }
        proof {
            assert((yy + 1) * w == yy * w + w) by (nonlinear_arith);
        }
        yy = yy + 1;
    }
    proof {
        assert(yy * w == w * rows) by (nonlinear_arith)
            requires
                yy == rows,
        ;
    }
    // Pass 2: flood fill from each remaining pixel in raster order.
    let ghost m0 = mask@;
    proof {
        assert(m0 =~= band_mask(px, w as int, b0 as int, rows as int, hue));
    }
    proof {
        assert forall|j: int| 0 <= j < total implies (mask@[j] == 1 <==> (m0[j] == 1 && !claimed(m0, w as int, 0, j))) by {}
    }
    let mut stack: Vec<(i32, i32)> = Vec::new();
    let mut y: i32 = 0;
    while y < rows
        invariant
            frame.wf(),
            w == frame.w,
            wu == w,
            w > 0,
            rows == frame.h - b0,
            0 <= b0,
            total == w * rows,
            total < 0x8000_0000,
            mask@.len() == total,
            m0.len() == total,
            forall|k: int| 0 <= k < mask@.len() ==> mask@[k] <= 1,
            forall|k: int| 0 <= k < m0.len() ==> m0[k] <= 1,
            0 <= y <= rows,
            forall|j: int| 0 <= j < total ==> (mask@[j] == 1 <==> (m0[j] == 1 && !claimed(m0, w as int, y * w, j))),
            out@ == blocks_upto(m0, w as int, b0 as int, y * w),
            forall|k: int| 0 <= k < out@.len() ==> comp_ok(#[trigger] out@[k], frame.w as int, frame.h as int, b0 as int),
        decreases rows - y,
    {
        let mut x: i32 = 0;
        while x < w
            invariant
                frame.wf(),
                w == frame.w,
                wu == w,
                w > 0,
                rows == frame.h - b0,
                0 <= b0,
                total == w * rows,
                total < 0x8000_0000,
                mask@.len() == total,
                m0.len() == total,
                forall|k: int| 0 <= k < mask@.len() ==> mask@[k] <= 1,
                forall|k: int| 0 <= k < m0.len() ==> m0[k] <= 1,
                0 <= y < rows,
                0 <= x <= w,
                forall|j: int| 0 <= j < total ==> (mask@[j] == 1 <==> (m0[j] == 1 && !claimed(m0, w as int, y * w + x, j))),
                out@ == blocks_upto(m0, w as int, b0 as int, y * w + x),
                forall|k: int| 0 <= k < out@.len() ==> comp_ok(#[trigger] out@[k], frame.w as int, frame.h as int, b0 as int),
            decreases w - x,
        {
            proof {
                assert(0 <= y * w + x < w * rows) by (nonlinear_arith)
                    requires
                        0 <= y < rows,
                        0 <= x < w,
                ;
                lemma_cell_coords(y as int, x as int, w as int);
            }
            let idx = (y as usize) * wu + (x as usize);
            let ghost k = idx as int;
            let ghost before = mask@;
            proof {
                lemma_blocks_next(m0, w as int, b0 as int, k);
            }
            if mask[idx] != 0 {
                let (area, minx, maxx, miny, maxy) = flood(&mut mask, &mut stack, w, rows, x, y, Ghost(m0));
                proof {
                    lemma_found_block(m0, before, mask@, w as int, total as int, k);
                }
                if area >= MIN_AREA {
                    let c = Comp { x: minx, y: b0 + miny, w: maxx - minx + 1, h: maxy - miny + 1, area };
                    proof {
                        assert(c == block_comp(m0, w as int, b0 as int, k));
                    }
                    out.push(c);
                }
            } else {
                proof {
                    lemma_claimed_same(m0, w as int, k, total as int);
                }
            }
            x = x + 1;
        }
        proof {
            assert((y + 1) * w == y * w + w) by (nonlinear_arith);
        }
        y = y + 1;
    }
    proof {
        assert(y * w == w * rows) by (nonlinear_arith)
            requires
                y == rows,
        ;
    }
    out
}

proof fn lemma_blocks_next(m: Seq<u8>, w: int, b0: int, k: int)
    requires
        0 <= k,
    ensures
        blocks_upto(m, w, b0, k + 1) == (if block_seed(m, w, k) && block(m, w, k).len() >= MIN_AREA {
            blocks_upto(m, w, b0, k).push(block_comp(m, w, b0, k))
        } else {
            blocks_upto(m, w, b0, k)
        }),
{
}

/// After the block of seed `k` is cleared, the mask holds the cells of no
/// block found up to and including `k`.
proof fn lemma_found_block(m0: Seq<u8>, before: Seq<u8>, after: Seq<u8>, w: int, n: int, k: int)
    requires
        0 <= k < n,
        m0.len() == n,
        m0[k] == 1,
        forall|j: int| 0 <= j < n ==> (before[j] == 1 <==> (m0[j] == 1 && !claimed(m0, w, k, j))),
        forall|j: int| 0 <= j < n ==> (after[j] == 1 <==> (before[j] == 1 && !reach(m0, w, k, j))),
    ensures
        forall|j: int| 0 <= j < n ==> (after[j] == 1 <==> (m0[j] == 1 && !claimed(m0, w, k + 1, j))),
{
    lemma_claimed_next(m0, w, k, n);
}

proof fn lemma_claimed_next(m: Seq<u8>, w: int, k: int, n: int)
    requires
        0 <= k < n,
        m.len() == n,
        m[k] == 1,
    ensures
        forall|j: int| claimed(m, w, k + 1, j) <==> (claimed(m, w, k, j) || reach(m, w, k, j)),
{
    assert forall|j: int| claimed(m, w, k + 1, j) implies (claimed(m, w, k, j) || reach(m, w, k, j)) by {
        let i = choose|i: int| 0 <= i < k + 1 && m[i] == 1 && #[trigger] reach(m, w, i, j);
        if i < k {
            assert(claimed(m, w, k, j));
        }
    }
    assert forall|j: int| (claimed(m, w, k, j) || reach(m, w, k, j)) implies claimed(m, w, k + 1, j) by {
        if claimed(m, w, k, j) {
            let i = choose|i: int| 0 <= i < k && m[i] == 1 && #[trigger] reach(m, w, i, j);
            assert(0 <= i < k + 1 && m[i] == 1 && reach(m, w, i, j));
        } else {
            assert(0 <= k < k + 1 && m[k] == 1 && reach(m, w, k, j));
        }
    }
}

proof fn lemma_claimed_same(m: Seq<u8>, w: int, k: int, n: int)
    requires
        0 <= k < n,
        m.len() == n,
        !(m[k] == 1 && !claimed(m, w, k, k)),
    ensures
        forall|j: int| claimed(m, w, k + 1, j) <==> claimed(m, w, k, j),
{
    assert forall|j: int| claimed(m, w, k + 1, j) implies claimed(m, w, k, j) by {
        let i = choose|i: int| 0 <= i < k + 1 && m[i] == 1 && #[trigger] reach(m, w, i, j);
        if i == k {
            let i2 = choose|i2: int| 0 <= i2 < k && m[i2] == 1 && #[trigger] reach(m, w, i2, k);
            lemma_reach_trans(m, w, i2, k, j);
            assert(0 <= i2 < k && m[i2] == 1 && reach(m, w, i2, j));
        }
    }
    assert forall|j: int| claimed(m, w, k, j) implies claimed(m, w, k + 1, j) by {
        let i = choose|i: int| 0 <= i < k && m[i] == 1 && #[trigger] reach(m, w, i, j);
        assert(0 <= i < k + 1 && m[i] == 1 && reach(m, w, i, j));
    }
}

proof fn lemma_col_min(c: Set<int>, w: int, v: int)
    requires
        exists|p: int| c.contains(p) && p % w == v,
        forall|p: int| c.contains(p) ==> v <= p % w,
    ensures
        col_min(c, w) == v,
{
    assert(is_col_min(c, w, v));
    let u = col_min(c, w);
    let pu = choose|p: int| c.contains(p) && p % w == u;
    let pv = choose|p: int| c.contains(p) && p % w == v;
    assert(u <= pv % w);
    assert(v <= pu % w);
}

proof fn lemma_col_max(c: Set<int>, w: int, v: int)
    requires
        exists|p: int| c.contains(p) && p % w == v,
        forall|p: int| c.contains(p) ==> p % w <= v,
    ensures
        col_max(c, w) == v,
{
    assert(is_col_max(c, w, v));
    let u = col_max(c, w);
    let pu = choose|p: int| c.contains(p) && p % w == u;
    let pv = choose|p: int| c.contains(p) && p % w == v;
    assert(pv % w <= u);
    assert(pu % w <= v);
}

proof fn lemma_row_min(c: Set<int>, w: int, v: int)
    requires
        exists|p: int| c.contains(p) && p / w == v,
        forall|p: int| c.contains(p) ==> v <= p / w,
    ensures
        row_min(c, w) == v,
{
    assert(is_row_min(c, w, v));
    let u = row_min(c, w);
    let pu = choose|p: int| c.contains(p) && p / w == u;
    let pv = choose|p: int| c.contains(p) && p / w == v;
    assert(u <= pv / w);
    assert(v <= pu / w);
}

proof fn lemma_row_max(c: Set<int>, w: int, v: int)
    requires
        exists|p: int| c.contains(p) && p / w == v,
        forall|p: int| c.contains(p) ==> p / w <= v,
    ensures
        row_max(c, w) == v,
{
    assert(is_row_max(c, w, v));
    let u = row_max(c, w);
    let pu = choose|p: int| c.contains(p) && p / w == u;
    let pv = choose|p: int| c.contains(p) && p / w == v;
    assert(pv / w <= u);
    assert(pu / w <= v);
}

/// The cell a stack entry stands for.
pub open spec fn entry_cell(w: int, e: (i32, i32)) -> int {
    e.1 * w + e.0
}

/// The state of a block search from seed `s`: `c` the cells found (cleared
/// in the mask), `d` those already expanded, the stack the rest of `c`.
pub open spec fn flood_inv(
    mask: Seq<u8>,
    stack: Seq<(i32, i32)>,
    m0: Seq<u8>,
    w: int,
    rows: int,
    s: int,
    c: Set<int>,
    d: Set<int>,
) -> bool {
    &&& mask.len() == w * rows
    &&& m0.len() == w * rows
    &&& forall|k: int| 0 <= k < mask.len() ==> mask[k] <= 1
    &&& forall|j: int|
        0 <= j < w * rows ==> (mask[j] == 1 <==> (m0[j] == 1 && !claimed(m0, w, s, j) && !c.contains(j)))
    &&& forall|t: int| c.contains(t) ==> reach(m0, w, s, t)
    &&& forall|t: int| d.contains(t) ==> c.contains(t)
    &&& forall|k: int| 0 <= k < stack.len() ==> 0 <= (#[trigger] stack[k]).0 < w && 0 <= stack[k].1 < rows
    &&& forall|k: int|
        0 <= k < stack.len() ==> c.contains(#[trigger] entry_cell(w, stack[k])) && !d.contains(entry_cell(w, stack[k]))
    &&& forall|k1: int, k2: int|
        0 <= k1 < k2 < stack.len() ==> entry_cell(w, #[trigger] stack[k1]) != entry_cell(w, #[trigger] stack[k2])
    &&& forall|t: int|
        c.contains(t) ==> (d.contains(t) || exists|k: int| 0 <= k < stack.len() && #[trigger] entry_cell(w, stack[k]) == t)
}

/// One neighbour (`nx`, `ny`) of an expanded cell `p`: when it is still set
/// it is cleared and pushed.
fn visit(
    mask: &mut Vec<u8>,
    stack: &mut Vec<(i32, i32)>,
    w: i32,
    rows: i32,
    nx: i32,
    ny: i32,
    Ghost(m0): Ghost<Seq<u8>>,
    Ghost(s): Ghost<int>,
    Ghost(c): Ghost<Set<int>>,
    Ghost(d): Ghost<Set<int>>,
    Ghost(p): Ghost<int>,
) -> (rc: Ghost<Set<int>>)
    requires
        w > 0,
        w * rows < 0x8000_0000,
        0 <= nx < w,
        0 <= ny < rows,
        flood_inv(old(mask)@, old(stack)@, m0, w as int, rows as int, s, c, d),
        c.contains(p),
        0 <= p < w * rows,
        m0[p] == 1,
        near(w as int, p, ny * w + nx),
    ensures
        flood_inv(final(mask)@, final(stack)@, m0, w as int, rows as int, s, rc@, d),
        final(mask)@[ny * w + nx] == 0,
        forall|j: int| 0 <= j < w * rows && j != ny * w + nx ==> final(mask)@[j] == old(mask)@[j],
        forall|t: int| c.contains(t) ==> rc@.contains(t),
        old(mask)@[ny * w + nx] == 1 ==> ones(final(mask)@) + 1 == ones(old(mask)@) && final(stack)@.len()
            == old(stack)@.len() + 1,
        old(mask)@[ny * w + nx] != 1 ==> final(mask)@ == old(mask)@ && final(stack)@ == old(stack)@ && rc@ == c,
{
    let ghost wi = w as int;
    let ghost q = ny * w + nx;
    proof {
        assert(0 <= ny * w + nx < w * rows) by (nonlinear_arith)
            requires
                0 <= ny < rows,
                0 <= nx < w,
        ;
    }
    let ni = (ny as usize) * (w as usize) + (nx as usize);
    if mask[ni] == 1 {
        let ghost mask_pre = mask@;
        let ghost st_pre = stack@;
        proof {
            lemma_ones_update(mask@, ni as int);
            assert(m0[q] == 1 && !claimed(m0, wi, s, q) && !c.contains(q));
            assert(step(m0, wi, p, q));
            lemma_reach_step(m0, wi, s, p, q);
        }
        mask.set(ni, 0);
        stack.push((nx, ny));
        let ghost c2 = c.insert(q);
        proof {
            assert(entry_cell(wi, stack@[stack@.len() - 1]) == q);
            assert forall|j: int| 0 <= j < w * rows implies (mask@[j] == 1 <==> (m0[j] == 1 && !claimed(m0, wi, s, j)
                && !c2.contains(j))) by {
                if j != q {
                    assert(mask@[j] == mask_pre[j]);
                }
            }
            assert forall|k: int| 0 <= k < stack@.len() implies 0 <= (#[trigger] stack@[k]).0 < w && 0 <= stack@[k].1
                < rows by {
                if k < st_pre.len() {
                    assert(stack@[k] == st_pre[k]);
                }
            }
            assert forall|k: int| 0 <= k < stack@.len() implies c2.contains(#[trigger] entry_cell(wi, stack@[k]))
                && !d.contains(entry_cell(wi, stack@[k])) by {
                if k < st_pre.len() {
                    assert(stack@[k] == st_pre[k]);
                }
            }
            assert forall|k1: int, k2: int| 0 <= k1 < k2 < stack@.len() implies entry_cell(wi, #[trigger] stack@[k1])
                != entry_cell(wi, #[trigger] stack@[k2]) by {
                assert(stack@[k1] == st_pre[k1]);
                if k2 < st_pre.len() {
                    assert(stack@[k2] == st_pre[k2]);
                }
            }
            assert forall|t: int| c2.contains(t) implies (d.contains(t) || exists|k: int|
                0 <= k < stack@.len() && #[trigger] entry_cell(wi, stack@[k]) == t) by {
                if t == q {
                    assert(entry_cell(wi, stack@[stack@.len() - 1]) == t);
                } else if !d.contains(t) {
                    let k = choose|k: int| 0 <= k < st_pre.len() && #[trigger] entry_cell(wi, st_pre[k]) == t;
                    assert(stack@[k] == st_pre[k]);
                }
            }
            assert forall|t: int| c2.contains(t) implies reach(m0, wi, s, t) by {}
        }
        Ghost(c2)
    } else {
        proof {
            assert(mask@[q] <= 1);
        }
        Ghost(c)
    }
}

/// Clears the block of the cell (`x`, `y`) from `mask` (8-connected, depth
/// first): its size and bounding box (columns, then rows).
fn flood(
    mask: &mut Vec<u8>,
    stack: &mut Vec<(i32, i32)>,
    w: i32,
    rows: i32,
    x: i32,
    y: i32,
    Ghost(m0): Ghost<Seq<u8>>,
) -> (r: (i32, i32, i32, i32, i32))
    requires
        w > 0,
        0 <= x < w,
        0 <= y < rows,
        w * rows < 0x8000_0000,
        old(mask)@.len() == w * rows,
        m0.len() == w * rows,
        forall|k: int| 0 <= k < old(mask)@.len() ==> old(mask)@[k] <= 1,
        forall|k: int| 0 <= k < m0.len() ==> m0[k] <= 1,
        forall|j: int|
            0 <= j < w * rows ==> (old(mask)@[j] == 1 <==> (m0[j] == 1 && !claimed(m0, w as int, y * w + x, j))),
        old(mask)@[y * w + x] == 1,
    ensures
        final(mask)@.len() == w * rows,
        forall|k: int| 0 <= k < final(mask)@.len() ==> final(mask)@[k] <= 1,
        forall|j: int|
            0 <= j < w * rows ==> (final(mask)@[j] == 1 <==> (old(mask)@[j] == 1 && !reach(m0, w as int, y * w + x, j))),
        block_seed(m0, w as int, y * w + x),
        r.0 as int == block(m0, w as int, y * w + x).len(),
        r.1 as int == col_min(block(m0, w as int, y * w + x), w as int),
        r.2 as int == col_max(block(m0, w as int, y * w + x), w as int),
        r.3 as int == row_min(block(m0, w as int, y * w + x), w as int),
        r.4 as int == row_max(block(m0, w as int, y * w + x), w as int),
        1 <= r.0,
        0 <= r.1 <= r.2 < w,
        0 <= r.3 <= r.4 < rows,
{
    let ghost wi = w as int;
    let ghost ri = rows as int;
    let ghost total = w * rows;
    let ghost s = y * w + x;
    let ghost mask0 = mask@;
    proof {
        assert(0 <= y * w + x < w * rows) by (nonlinear_arith)
            requires
                0 <= y < rows,
                0 <= x < w,
        ;
        lemma_cell_coords(y as int, x as int, w as int);
        assert(m0[s] == 1 && !claimed(m0, wi, s, s));
        lemma_reach_self(m0, wi, s);
    }
    let idx = (y as usize) * (w as usize) + (x as usize);
    let ghost start_ones = ones(mask@);
    proof {
        lemma_ones_bound(mask@);
        lemma_ones_update(mask@, idx as int);
    }
    let mut area: i32 = 0;
    let mut minx = x;
    let mut maxx = x;
    let mut miny = y;
    let mut maxy = y;
    stack.clear();
    stack.push((x, y));
    mask.set(idx, 0);
    let ghost mut c: Set<int> = set![s];
    let ghost mut d: Set<int> = Set::empty();
    proof {
        assert forall|j: int| 0 <= j < total implies (mask@[j] == 1 <==> (m0[j] == 1 && !claimed(m0, wi, s, j)
            && !c.contains(j))) by {
            if j != s {
                assert(mask@[j] == mask0[j]);
            }
        }
        assert(entry_cell(wi, stack@[0]) == s);
        assert forall|t: int| c.contains(t) implies (d.contains(t) || exists|k: int|
            0 <= k < stack@.len() && #[trigger] entry_cell(wi, stack@[k]) == t) by {
            assert(entry_cell(wi, stack@[0]) == t);
        }
        assert(flood_inv(mask@, stack@, m0, wi, ri, s, c, d));
    }
    while stack.len() > 0
        invariant
            w > 0,
            wi == w,
            ri == rows,
            total == w * rows,
            total < 0x8000_0000,
            0 <= s < total,
            m0[s] == 1,
            !claimed(m0, wi, s, s),
            mask0.len() == total,
            forall|j: int| 0 <= j < total ==> (mask0[j] == 1 <==> (m0[j] == 1 && !claimed(m0, wi, s, j))),
            flood_inv(mask@, stack@, m0, wi, ri, s, c, d),
            c.contains(s),
            d.finite(),
            area as int == d.len(),
            forall|pp: int, q: int| d.contains(pp) && #[trigger] step(m0, wi, pp, q) ==> mask@[q] == 0,
            forall|pp: int| d.contains(pp) ==> minx <= pp % wi <= maxx && miny <= pp / wi <= maxy,
            exists|pp: int| c.contains(pp) && pp % wi == minx,
            exists|pp: int| c.contains(pp) && pp % wi == maxx,
            exists|pp: int| c.contains(pp) && pp / wi == miny,
            exists|pp: int| c.contains(pp) && pp / wi == maxy,
            0 <= minx <= maxx < w,
            0 <= miny <= maxy < rows,
            start_ones <= total,
            area + stack@.len() + ones(mask@) == start_ones,
            0 <= area,
        decreases 2 * ones(mask@) + stack@.len(),
    {
        let ghost m_before = 2 * ones(mask@) + stack@.len();
        let ghost st_before = stack@;
        let (cx, cy) = stack.pop().unwrap();
        let ghost p = cy * w + cx;
        proof {
            assert(st_before[st_before.len() - 1] == (cx, cy));
            assert(stack@ =~= st_before.drop_last());
            assert(entry_cell(wi, st_before[st_before.len() - 1]) == p);
            assert(c.contains(p) && !d.contains(p));
            assert(0 <= cy * w + cx < w * rows) by (nonlinear_arith)
                requires
                    0 <= cy < rows,
                    0 <= cx < w,
            ;
            lemma_cell_coords(cy as int, cx as int, w as int);
            lemma_reach_ends(m0, wi, s, p);
            let d2 = d.insert(p);
            assert forall|k: int| 0 <= k < stack@.len() implies c.contains(#[trigger] entry_cell(wi, stack@[k]))
                && !d2.contains(entry_cell(wi, stack@[k])) by {
                assert(stack@[k] == st_before[k]);
                assert(entry_cell(wi, st_before[k]) != entry_cell(wi, st_before[st_before.len() - 1]));
            }
            assert forall|t: int| c.contains(t) implies (d2.contains(t) || exists|k: int|
                0 <= k < stack@.len() && #[trigger] entry_cell(wi, stack@[k]) == t) by {
                if !d2.contains(t) {
                    let k = choose|k: int| 0 <= k < st_before.len() && #[trigger] entry_cell(wi, st_before[k]) == t;
                    if k < st_before.len() - 1 {
                        assert(stack@[k] == st_before[k]);
                    }
                }
            }
            assert forall|k: int| 0 <= k < stack@.len() implies 0 <= (#[trigger] stack@[k]).0 < w && 0 <= stack@[k].1
                < rows by {
                assert(stack@[k] == st_before[k]);
            }
            assert forall|k1: int, k2: int| 0 <= k1 < k2 < stack@.len() implies entry_cell(wi, #[trigger] stack@[k1])
                != entry_cell(wi, #[trigger] stack@[k2]) by {
                assert(stack@[k1] == st_before[k1]);
                assert(stack@[k2] == st_before[k2]);
            }
            d = d2;
            assert(flood_inv(mask@, stack@, m0, wi, ri, s, c, d));
        }
        area = area + 1;
        if cx < minx {
            minx = cx;
        }
        if cx > maxx {
            maxx = cx;
        }
        if cy < miny {
            miny = cy;
        }
        if cy > maxy {
            maxy = cy;
        }
        let mut dy: i32 = -1;
        while dy <= 1
            invariant
                w > 0,
                wi == w,
                ri == rows,
                total == w * rows,
                total < 0x8000_0000,
                0 <= s < total,
                flood_inv(mask@, stack@, m0, wi, ri, s, c, d),
                c.contains(s),
                c.contains(p),
                d.finite(),
                d.contains(p),
                area as int == d.len(),
                0 <= cx < w,
                0 <= cy < rows,
                p == cy * w + cx,
                p % wi == cx,
                p / wi == cy,
                0 <= p < total,
                m0[p] == 1,
                -1 <= dy <= 2,
                forall|pp: int, q: int| d.contains(pp) && pp != p && #[trigger] step(m0, wi, pp, q) ==> mask@[q] == 0,
                forall|q: int| #[trigger] step(m0, wi, p, q) && q / wi - cy < dy ==> mask@[q] == 0,
                forall|pp: int| d.contains(pp) ==> minx <= pp % wi <= maxx && miny <= pp / wi <= maxy,
                exists|pp: int| c.contains(pp) && pp % wi == minx,
                exists|pp: int| c.contains(pp) && pp % wi == maxx,
                exists|pp: int| c.contains(pp) && pp / wi == miny,
                exists|pp: int| c.contains(pp) && pp / wi == maxy,
                0 <= minx <= maxx < w,
                0 <= miny <= maxy < rows,
                area + stack@.len() + ones(mask@) == start_ones,
                2 * ones(mask@) + stack@.len() < m_before,
            decreases 2 - dy,
        {
            let mut dx: i32 = -1;
            while dx <= 1
                invariant
                    w > 0,
                    wi == w,
                    ri == rows,
                    total == w * rows,
                    total < 0x8000_0000,
                    0 <= s < total,
                    flood_inv(mask@, stack@, m0, wi, ri, s, c, d),
                    c.contains(s),
                    c.contains(p),
                    d.finite(),
                    d.contains(p),
                    area as int == d.len(),
                    0 <= cx < w,
                    0 <= cy < rows,
                    p == cy * w + cx,
                    p % wi == cx,
                    p / wi == cy,
                    0 <= p < total,
                    m0[p] == 1,
                    -1 <= dy <= 1,
                    -1 <= dx <= 2,
                    forall|pp: int, q: int| d.contains(pp) && pp != p && #[trigger] step(m0, wi, pp, q) ==> mask@[q] == 0,
                    forall|q: int|
                        #[trigger] step(m0, wi, p, q) && (q / wi - cy < dy || (q / wi - cy == dy && q % wi - cx < dx))
                            ==> mask@[q] == 0,
                    forall|pp: int| d.contains(pp) ==> minx <= pp % wi <= maxx && miny <= pp / wi <= maxy,
                    exists|pp: int| c.contains(pp) && pp % wi == minx,
                    exists|pp: int| c.contains(pp) && pp % wi == maxx,
                    exists|pp: int| c.contains(pp) && pp / wi == miny,
                    exists|pp: int| c.contains(pp) && pp / wi == maxy,
                    0 <= minx <= maxx < w,
                    0 <= miny <= maxy < rows,
                    area + stack@.len() + ones(mask@) == start_ones,
                    2 * ones(mask@) + stack@.len() < m_before,
                decreases 2 - dx,
            {
                let nx = cx + dx;
                let ny = cy + dy;
                let inside = nx >= 0 && nx < w && ny >= 0 && ny < rows;
                let ghost mask_pre = mask@;
                if !(dx == 0 && dy == 0) && inside {
                    let ghost q = ny * w + nx;
                    proof {
                        assert(0 <= ny * w + nx < w * rows) by (nonlinear_arith)
                            requires
                                0 <= ny < rows,
                                0 <= nx < w,
                        ;
                        lemma_cell_coords(ny as int, nx as int, w as int);
                        assert(q != p);
                        assert(near(wi, p, q));
                    }
                    let Ghost(c2) = visit(mask, stack, w, rows, nx, ny, Ghost(m0), Ghost(s), Ghost(c), Ghost(d), Ghost(p));
                    proof {
                        let c_old = c;
                        c = c2;
                        assert forall|pp: int, qq: int| d.contains(pp) && pp != p && #[trigger] step(m0, wi, pp, qq)
                            implies mask@[qq] == 0 by {
                            if qq != q {
                                assert(mask@[qq] == mask_pre[qq]);
                            }
                        }
                        assert forall|qq: int|
                            #[trigger] step(m0, wi, p, qq) && (qq / wi - cy < dy || (qq / wi - cy == dy && qq % wi - cx
                                < dx + 1)) implies mask@[qq] == 0 by {
                            if qq != q {
                                assert(mask@[qq] == mask_pre[qq]);
                                if qq / wi - cy == dy && qq % wi - cx == dx {
                                    lemma_cell_range(qq, wi, ri);
                                    lemma_cell_range(q, wi, ri);
                                }
                            }
                        }
                        assert(exists|pp: int| c.contains(pp) && pp % wi == minx) by {
                            let w1 = choose|pp: int| c_old.contains(pp) && pp % wi == minx;
                            assert(c.contains(w1));
                        }
                        assert(exists|pp: int| c.contains(pp) && pp % wi == maxx) by {
                            let w1 = choose|pp: int| c_old.contains(pp) && pp % wi == maxx;
                            assert(c.contains(w1));
                        }
                        assert(exists|pp: int| c.contains(pp) && pp / wi == miny) by {
                            let w1 = choose|pp: int| c_old.contains(pp) && pp / wi == miny;
                            assert(c.contains(w1));
                        }
                        assert(exists|pp: int| c.contains(pp) && pp / wi == maxy) by {
                            let w1 = choose|pp: int| c_old.contains(pp) && pp / wi == maxy;
                            assert(c.contains(w1));
                        }
                    }
                } else {
                    proof {
                        assert forall|qq: int|
                            #[trigger] step(m0, wi, p, qq) && (qq / wi - cy < dy || (qq / wi - cy == dy && qq % wi - cx
                                < dx + 1)) implies mask@[qq] == 0 by {
                            if qq / wi - cy == dy && qq % wi - cx == dx {
                                lemma_cell_range(qq, wi, ri);
                                lemma_cell_range(p, wi, ri);
                            }
                        }
                    }
                }
                dx = dx + 1;
            }
            dy = dy + 1;
        }
        proof {
            assert forall|pp: int, q: int| d.contains(pp) && #[trigger] step(m0, wi, pp, q) implies mask@[q] == 0 by {
                if pp == p {
                    assert(q / wi - cy < 2);
                }
            }
        }
    }
    // The set found is the block of the seed.
    proof {
        assert forall|t: int| c.contains(t) implies d.contains(t) by {
            if !d.contains(t) {
                let k = choose|k: int| 0 <= k < stack@.len() && #[trigger] entry_cell(wi, stack@[k]) == t;
            }
        }
        assert forall|a: int, b: int| #[trigger] c.contains(a) && step(m0, wi, a, b) implies #[trigger] c.contains(b) by {
            assert(d.contains(a));
            assert(mask@[b] == 0);
            if !c.contains(b) {
                assert(claimed(m0, wi, s, b));
                let i = choose|i: int| 0 <= i < s && m0[i] == 1 && #[trigger] reach(m0, wi, i, b);
                lemma_reach_step(m0, wi, s, a, b);
                lemma_reach_sym(m0, wi, s, b);
                lemma_reach_trans(m0, wi, i, b, s);
                assert(0 <= i < s && m0[i] == 1 && reach(m0, wi, i, s));
            }
        }
        let blk = block(m0, wi, s);
        assert forall|t: int| blk.contains(t) implies c.contains(t) by {
            lemma_reach_closed(m0, wi, s, t, c);
        }
        assert(blk =~= c);
        assert(c =~= d);
        lemma_col_min(blk, wi, minx as int);
        lemma_col_max(blk, wi, maxx as int);
        lemma_row_min(blk, wi, miny as int);
        lemma_row_max(blk, wi, maxy as int);
        assert(d.contains(s));
        assert(area >= 1);
        assert forall|j: int| 0 <= j < total implies (mask@[j] == 1 <==> (mask0[j] == 1 && !reach(m0, wi, s, j))) by {}
    }
    (area, minx, maxx, miny, maxy)
}

pub(crate) proof fn lemma_cell_range(q: int, w: int, rows: int)
    requires
        0 <= q < w * rows,
        w > 0,
    ensures
        0 <= q % w < w,
        0 <= q / w < rows,
        q == (q / w) * w + q % w,
{
    vstd::arithmetic::div_mod::lemma_fundamental_div_mod(q, w);
    vstd::arithmetic::div_mod::lemma_mod_pos_bound(q, w);
    vstd::arithmetic::div_mod::lemma_div_pos_is_pos(q, w);
    let a = q / w;
    let b = q % w;
    assert(w * a == a * w) by (nonlinear_arith);
    assert(a < rows) by (nonlinear_arith)
        requires
            q == a * w + b,
            0 <= b,
            q < w * rows,
            w > 0,
    ;
}

proof fn lemma_cell_coords(y: int, x: int, w: int)
    requires
        0 <= x < w,
    ensures
        (y * w + x) % w == x,
        (y * w + x) / w == y,
{
    vstd::arithmetic::div_mod::lemma_fundamental_div_mod_converse(y * w + x, w, y, x);
}

/// The colour mask of the `rows` rows from `b0` down: 1 where the pixel has
/// the colour.
pub open spec fn band_mask(px: Seq<u8>, w: int, b0: int, rows: int, hue: Hue) -> Seq<u8> {
    Seq::new(
        (w * rows) as nat,
        |k: int|
            {
                let o = px_off(w, k % w, b0 + k / w);
                if hue_match(hue, px[o], px[o + 1], px[o + 2]) {
                    1u8
                } else {
                    0u8
                }
            },
    )
}

/// The blocks `band_comps` reports for the rows from `b0` down.
pub open spec fn band_blocks(px: Seq<u8>, w: int, h: int, b0: int, hue: Hue) -> Seq<Comp> {
    if b0 >= h || w <= 0 {
        Seq::empty()
    } else {
        blocks_upto(band_mask(px, w, b0, h - b0, hue), w, b0, w * (h - b0))
    }
}

/// `v` is the leftmost column of the cells `c`.
pub open spec fn is_col_min(c: Set<int>, w: int, v: int) -> bool {
    (exists|p: int| c.contains(p) && p % w == v) && (forall|p: int| c.contains(p) ==> v <= p % w)
}

/// `v` is the rightmost column of the cells `c`.
pub open spec fn is_col_max(c: Set<int>, w: int, v: int) -> bool {
    (exists|p: int| c.contains(p) && p % w == v) && (forall|p: int| c.contains(p) ==> p % w <= v)
}

/// `v` is the top row of the cells `c`.
pub open spec fn is_row_min(c: Set<int>, w: int, v: int) -> bool {
    (exists|p: int| c.contains(p) && p / w == v) && (forall|p: int| c.contains(p) ==> v <= p / w)
}

/// `v` is the bottom row of the cells `c`.
pub open spec fn is_row_max(c: Set<int>, w: int, v: int) -> bool {
    (exists|p: int| c.contains(p) && p / w == v) && (forall|p: int| c.contains(p) ==> p / w <= v)
}

/// Leftmost column of a set of cells.
pub open spec fn col_min(c: Set<int>, w: int) -> int {
    choose|v: int| is_col_min(c, w, v)
}

/// Rightmost column of a set of cells.
pub open spec fn col_max(c: Set<int>, w: int) -> int {
    choose|v: int| is_col_max(c, w, v)
}

/// Top row of a set of cells.
pub open spec fn row_min(c: Set<int>, w: int) -> int {
    choose|v: int| is_row_min(c, w, v)
}

/// Bottom row of a set of cells.
pub open spec fn row_max(c: Set<int>, w: int) -> int {
    choose|v: int| is_row_max(c, w, v)
}

/// The first cell of its block: set, and no earlier set cell reaches it.
pub open spec fn block_seed(m: Seq<u8>, w: int, k: int) -> bool {
    m[k] == 1 && !claimed(m, w, k, k)
}

/// The bounding box and size of the block of `s`, rows counted from `b0`.
pub open spec fn block_comp(m: Seq<u8>, w: int, b0: int, s: int) -> Comp {
    let b = block(m, w, s);
    Comp {
        x: col_min(b, w) as i32,
        y: (b0 + row_min(b, w)) as i32,
        w: (col_max(b, w) - col_min(b, w) + 1) as i32,
        h: (row_max(b, w) - row_min(b, w) + 1) as i32,
        area: b.len() as i32,
    }
}

/// The blocks of at least `MIN_AREA` cells whose first cell is before `k`,
/// in the order of their first cells.
pub open spec fn blocks_upto(m: Seq<u8>, w: int, b0: int, k: int) -> Seq<Comp>
    decreases k,
{
    if k <= 0 {
        Seq::empty()
    } else {
        let prev = blocks_upto(m, w, b0, k - 1);
        if block_seed(m, w, k - 1) && block(m, w, k - 1).len() >= MIN_AREA {
            prev.push(block_comp(m, w, b0, k - 1))
        } else {
            prev
        }
    }
}

// ---------------------------------------------------------------------------
// Shop button
// ---------------------------------------------------------------------------

/// A red block shaped like the shop button: both sides ≥ 12, width/height in 1..=3.5.
pub open spec fn red_ok(c: Comp) -> bool {
    c.w >= BTN_MIN && c.h >= BTN_MIN && c.h <= c.w && 2 * c.w <= 7 * c.h
}

/// A green block shaped like the auction button: both sides ≥ 12, width/height ≤ 4.
pub open spec fn green_ok(c: Comp) -> bool {
    c.w >= BTN_MIN && c.h >= BTN_MIN && c.w <= 4 * c.h
}

pub open spec fn iabs(x: int) -> int {
    if x < 0 { -x } else { x }
}

/// The green block sits on the red block's row, just right of it.
pub open spec fn pair_ok(red: Comp, green: Comp) -> bool {
    &&& iabs(green.y - red.y) <= 10
    &&& iabs((green.y + green.h) - (red.y + red.h)) <= 12
    &&& green.x >= red.x + red.w - 6
    &&& green.x <= red.x + red.w + 26
}

/// Some acceptable green block pairs with `red`.
pub open spec fn has_partner(red: Comp, greens: Seq<Comp>) -> bool {
    exists|j: int| 0 <= j < greens.len() && green_ok(greens[j]) && pair_ok(red, greens[j])
}

/// Scan of the red blocks: keep the first one of largest area that has a partner.
pub open spec fn shop_scan(reds: Seq<Comp>, greens: Seq<Comp>, i: int, best: Option<Comp>) -> Option<
    Comp,
>
    decreases reds.len() - i,
{
    if i >= reds.len() || i < 0 {
        best
    } else {
        let r = reds[i];
        let take = red_ok(r) && has_partner(r, greens) && (best is None || r.area
            > best.unwrap().area);
        shop_scan(reds, greens, i + 1, if take { Some(r) } else { best })
    }
}

/// The shop button among the red and green blocks: the largest red block
/// (first on ties) of button shape with an auction-shaped green block right
/// of it on the same row.
pub open spec fn pick_shop_spec(reds: Seq<Comp>, greens: Seq<Comp>) -> Option<Comp> {
    shop_scan(reds, greens, 0, None)
}

/// Chooses the shop button from the candidate blocks (see [`pick_shop_spec`]).
pub fn pick_shop(reds: &Vec<Comp>, greens: &Vec<Comp>) -> (r: Option<Comp>)
    ensures
        r == pick_shop_spec(reds@, greens@),
{
    let mut best: Option<Comp> = None;
    let mut i: usize = 0;
    while i < reds.len()
        invariant
            i <= reds@.len(),
            pick_shop_spec(reds@, greens@) == shop_scan(reds@, greens@, i as int, best),
        decreases reds@.len() - i,
    {
        let red = reds[i];
        if red.w >= BTN_MIN && red.h >= BTN_MIN && red.h <= red.w && 2 * (red.w as i64) <= 7 * (
            red.h as i64) {
            let mut j: usize = 0;
            let mut found = false;
            while j < greens.len()
                invariant
                    i < reds@.len(),
                    red == reds@[i as int],
                    j <= greens@.len(),
                    found <==> exists|k: int|
                        0 <= k < j && green_ok(greens@[k]) && pair_ok(red, greens@[k]),
                decreases greens@.len() - j,
            {
                let g = greens[j];
                let gy = g.y as i64;
                let ry = red.y as i64;
                let dy = gy - ry;
                let dy2 = (gy + g.h as i64) - (ry + red.h as i64);
                let ok_shape = g.w >= BTN_MIN && g.h >= BTN_MIN && g.w as i64 <= 4 * (g.h as i64);
                let ok_pair = (if dy < 0 {
                    -dy
                } else {
                    dy
                }) <= 10 && (if dy2 < 0 {
                    -dy2
                } else {
                    dy2
                }) <= 12 && g.x as i64 >= red.x as i64 + red.w as i64 - 6 && g.x as i64
                    <= red.x as i64 + red.w as i64 + 26;
                if ok_shape && ok_pair {
                    found = true;
                }
                j = j + 1;
            }
            let better = match best {
                None => true,
                Some(b) => red.area > b.area,
            };
            if found && better {
                best = Some(red);
            }
        }
        i = i + 1;
    }
    best
}

/// Row where the bottom band (the lowest 20 %) starts.
pub open spec fn band_start(h: int) -> int {
    (4 * h) / 5
}

/// The shop button in the bottom band, as (x, y, w, h).
pub fn find_shop(frame: &BgraFrame) -> (r: Option<Comp>)
    requires
        frame.wf(),
        frame.w * frame.h < 0x8000_0000,
    ensures
        r == shop_spec(frame.pixels@, frame.w as int, frame.h as int),
        r matches Some(c) ==> comp_ok(c, frame.w as int, frame.h as int, band_start(
            frame.h as int,
        )) && red_ok(c),
{
    let b0 = (4 * (frame.h as i64) / 5) as i32;
    let reds = band_comps(frame, b0, Hue::Red);
    let greens = band_comps(frame, b0, Hue::Green);
    let r = pick_shop(&reds, &greens);
    proof {
        lemma_shop_scan_member(reds@, greens@, 0, None);
    }
    r
}

proof fn lemma_shop_scan_member(reds: Seq<Comp>, greens: Seq<Comp>, i: int, best: Option<Comp>)
    requires
        0 <= i,
    ensures
        shop_scan(reds, greens, i, best) matches Some(c) ==> (best == Some(c) || (exists|k: int|
            0 <= k < reds.len() && reds[k] == c && red_ok(c))),
    decreases reds.len() - i,
{
    if i < reds.len() {
        let r = reds[i];
        let take = red_ok(r) && has_partner(r, greens) && (best is None || r.area
            > best.unwrap().area);
        lemma_shop_scan_member(reds, greens, i + 1, if take { Some(r) } else { best });
    }
}

// ---------------------------------------------------------------------------
// Value bar
// ---------------------------------------------------------------------------

/// Rows `y0 ≤ y < y` of column `x` whose luma is under 90.
pub open spec fn dark_count(px: Seq<u8>, w: int, x: int, y0: int, y: int) -> nat
    decreases y - y0,
{
    if y <= y0 {
        0
    } else {
        dark_count(px, w, x, y0, y - 1) + if luma_at(px, w, x, y - 1) < 90 { 1nat } else { 0nat }
    }
}

proof fn lemma_dark_count_bound(px: Seq<u8>, w: int, x: int, y0: int, y: int)
    requires
        y0 <= y,
    ensures
        dark_count(px, w, x, y0, y) <= y - y0,
    decreases y - y0,
{
    if y > y0 {
        lemma_dark_count_bound(px, w, x, y0, y - 1);
    }
}

/// Rightmost column below `k` that is a dark separator left of `cutoff`, or -1.
pub open spec fn last_sep(px: Seq<u8>, w: int, y0: int, y1: int, thr: int, cutoff: int, k: int) -> int
    decreases k,
{
    if k <= 0 {
        -1
    } else if dark_count(px, w, k - 1, y0, y1) >= thr && k - 1 < cutoff {
        k - 1
    } else {
        last_sep(px, w, y0, y1, thr, cutoff, k - 1)
    }
}

/// The value bar left of the shop `(sx, sy, sw, sh)`: its right edge is the
/// shop's left edge, its rows the shop's rows; its left edge is just right of
/// the rightmost column (left of the shop minus 60 % of its width) that is at
/// least 70 % dark, or three shop widths left when there is none. `None` when
/// the bar would be empty or under 8 pixels wide.
pub open spec fn value_bar_spec(px: Seq<u8>, w: int, h: int, sx: int, sy: int, sw: int, sh: int) -> Option<
    (int, int, int, int),
> {
    let x1 = if w < sx { w } else { sx };
    let y0 = if sy > 0 { sy } else { 0 };
    let y1 = if h < sy + sh { h } else { sy + sh };
    if y1 <= y0 {
        None
    } else {
        let thr = (7 * (y1 - y0)) / 10;
        let cutoff = x1 - (6 * sw) / 10;
        let m = last_sep(px, w, y0, y1, thr, cutoff, w);
        let x0 = if m >= 0 { m + 1 } else { if x1 - 3 * sw > 0 { x1 - 3 * sw } else { 0 } };
        if x1 - x0 < 8 {
            None
        } else {
            Some((x0, y0, x1, y1))
        }
    }
}

/// The value bar left of the shop button (see [`value_bar_spec`]).
pub fn value_bar(frame: &BgraFrame, shop: Comp) -> (r: Option<(i32, i32, i32, i32)>)
    requires
        frame.wf(),
        0 <= shop.x <= frame.w,
        1 <= shop.w <= frame.w,
        0 <= shop.y,
        1 <= shop.h,
        shop.y + shop.h <= frame.h,
    ensures
        match (r, value_bar_spec(
            frame.pixels@,
            frame.w as int,
            frame.h as int,
            shop.x as int,
            shop.y as int,
            shop.w as int,
            shop.h as int,
        )) {
            (None, None) => true,
            (Some((a, b, c, d)), Some((a2, b2, c2, d2))) => a == a2 && b == b2 && c == c2 && d == d2,
            _ => false,
        },
        r matches Some((a, b, c, d)) ==> 0 <= a && a + 8 <= c && c <= frame.w && 0 <= b && b < d
            && d <= frame.h,
{
    let ghost px = frame.pixels@;
    let plen = frame.pixels.len();
    let w = frame.w;
    let h = frame.h;
    let (sx, sy, sw, sh) = (shop.x, shop.y, shop.w, shop.h);
    let x1 = if w < sx {
        w
    } else {
        sx
    };
    let y0 = if sy > 0 {
        sy
    } else {
        0
    };
    let y1 = if h < sy + sh {
        h
    } else {
        sy + sh
    };
    if y1 <= y0 {
        return None;
    }
    let wu = w as usize;
    // Dark pixels per column over the bar's rows.
    let mut cov: Vec<i32> = Vec::new();
    let mut x: i32 = 0;
    while x < w
        invariant
            0 <= x <= w,
            cov@.len() == x,
            forall|k: int| 0 <= k < x ==> cov@[k] == 0,
        decreases w - x,
    {
        cov.push(0);
        x = x + 1;
    }
    let mut y = y0;
    while y < y1
        invariant
            px == frame.pixels@,
            plen == px.len(),
            frame.wf(),
            w == frame.w,
            wu == w,
            0 <= y0 <= y <= y1,
            y1 <= frame.h,
            cov@.len() == w,
            forall|k: int| 0 <= k < w ==> cov@[k] == dark_count(px, w as int, k, y0 as int, y as int),
            forall|k: int| 0 <= k < w ==> cov@[k] <= y - y0,
        decreases y1 - y,
    {
        let mut xx: i32 = 0;
        while xx < w
            invariant
                px == frame.pixels@,
                plen == px.len(),
                frame.wf(),
                w == frame.w,
                wu == w,
                0 <= y0 <= y < y1,
                y1 <= frame.h,
                0 <= xx <= w,
                cov@.len() == w,
                forall|k: int|
                    0 <= k < xx ==> cov@[k] == dark_count(px, w as int, k, y0 as int, y + 1),
                forall|k: int|
                    xx <= k < w ==> cov@[k] == dark_count(px, w as int, k, y0 as int, y as int),
                forall|k: int| 0 <= k < w ==> cov@[k] <= y + 1 - y0,
            decreases w - xx,
        {
            proof {
                lemma_px_off(w as int, frame.h as int, xx as int, y as int);
                assert(0 <= y * w) by (nonlinear_arith)
                    requires
                        y >= 0,
                        w >= 0,
                ;
                assert(px_off(w as int, xx as int, y as int) + 3 < plen);
                lemma_dark_count_bound(px, w as int, xx as int, y0 as int, y as int);
            }
            let o = ((y as usize) * wu + (xx as usize)) * 4;
            let l = lum(frame.pixels[o], frame.pixels[o + 1], frame.pixels[o + 2]);
            if l < 90 {
                let c = cov[xx as usize];
                cov.set(xx as usize, c + 1);
            }
            xx = xx + 1;
        }
        y = y + 1;
    }
    let thr: i64 = (7 * ((y1 - y0) as i64)) / 10;
    let cutoff: i64 = x1 as i64 - ((6 * (sw as i64)) / 10);
    let mut m: i32 = -1;
    let mut k: i32 = w;
    while k > 0
        invariant_except_break
            m == -1,
        invariant
            0 <= k <= w,
            cov@.len() == w,
            forall|q: int| 0 <= q < w ==> cov@[q] == dark_count(px, w as int, q, y0 as int, y1 as int),
            last_sep(px, w as int, y0 as int, y1 as int, thr as int, cutoff as int, w as int)
                == last_sep(px, w as int, y0 as int, y1 as int, thr as int, cutoff as int, k as int),
        ensures
            m == last_sep(px, w as int, y0 as int, y1 as int, thr as int, cutoff as int, w as int),
            -1 <= m < w,
        decreases k,
    {
        let c = cov[(k - 1) as usize];
        if c as i64 >= thr && ((k - 1) as i64) < cutoff {
            m = k - 1;
            break;
        }
        k = k - 1;
    }
    let x0: i64 = if m >= 0 {
        m as i64 + 1
    } else {
        if x1 as i64 - 3 * (sw as i64) > 0 {
            x1 as i64 - 3 * (sw as i64)
        } else {
            0
        }
    };
    if x1 as i64 - x0 < 8 {
        return None;
    }
    Some((x0 as i32, y0, x1, y1))
}

// ---------------------------------------------------------------------------
// Bracket column and bar luma
// ---------------------------------------------------------------------------

/// Entry (x, y) of a row-major block `bw` wide.
pub open spec fn cell(g: Seq<u8>, bw: int, x: int, y: int) -> u8 {
    g[y * bw + x]
}

/// `g` is the luma of the `bw × bh` block at (x0, y0), row-major.
pub open spec fn is_bar_luma(g: Seq<u8>, px: Seq<u8>, w: int, x0: int, y0: int, bw: int, bh: int) -> bool {
    &&& g.len() == bw * bh
    &&& forall|y: int, x: int|
        0 <= y < bh && 0 <= x < bw ==> #[trigger] cell(g, bw, x, y) as int == luma_at(
            px,
            w,
            x0 + x,
            y0 + y,
        )
}

/// Pixels of bar row `y` (first `k` columns) with luma ≥ 150.
pub open spec fn bright_count(g: Seq<u8>, bw: int, y: int, k: int) -> nat
    decreases k,
{
    if k <= 0 {
        0
    } else {
        bright_count(g, bw, y, k - 1) + if g[y * bw + k - 1] >= 150 { 1nat } else { 0nat }
    }
}

/// A text row: between 3 and half the bar width bright pixels.
pub open spec fn text_row(g: Seq<u8>, bw: int, y: int) -> bool {
    let c = bright_count(g, bw, y, bw);
    3 <= c && c <= bw / 2
}

/// Text rows among the first `k`.
pub open spec fn text_rows(g: Seq<u8>, bw: int, k: int) -> nat
    decreases k,
{
    if k <= 0 {
        0
    } else {
        text_rows(g, bw, k - 1) + if text_row(g, bw, k - 1) { 1nat } else { 0nat }
    }
}

/// Height a green column run needs: 35 % of the text rows, at least 4.
pub open spec fn tall_spec(nt: int) -> int {
    if nt > 0 {
        if (35 * nt) / 100 > 4 { (35 * nt) / 100 } else { 4 }
    } else {
        4
    }
}

/// The bracket's pale green.
pub open spec fn pale_green(px: Seq<u8>, w: int, x: int, y: int) -> bool {
    let o = px_off(w, x, y);
    let b = px[o] as int;
    let gx = px[o + 1] as int;
    let r = px[o + 2] as int;
    gx >= 140 && gx > r + 12 && gx > b + 22 && b >= 45
}

/// Pale green pixels of bar column `x` in the text rows among the first `k` rows.
pub open spec fn col_green(px: Seq<u8>, w: int, g: Seq<u8>, bw: int, x0: int, y0: int, x: int, k: int) -> nat
    decreases k,
{
    if k <= 0 {
        0
    } else {
        col_green(px, w, g, bw, x0, y0, x, k - 1) + if text_row(g, bw, k - 1) && pale_green(
            px,
            w,
            x0 + x,
            y0 + k - 1,
        ) {
            1nat
        } else {
            0nat
        }
    }
}

/// Largest count in columns `a..b` (0 when empty).
pub open spec fn seg_max(c: Seq<int>, a: int, b: int) -> int
    decreases b - a,
{
    if b <= a {
        0
    } else {
        let m = seg_max(c, a, b - 1);
        if c[b - 1] > m { c[b - 1] } else { m }
    }
}

/// Scan the green column runs left to right; the first run at most 14 wide
/// whose tallest column reaches `tall` starts the bracket.
pub open spec fn bracket_scan(c: Seq<int>, tall: int, cx: int, on: bool, st: int) -> Option<int>
    decreases c.len() - cx,
{
    if cx >= c.len() {
        if on && seg_max(c, st, c.len() as int) >= tall && c.len() - st <= 14 {
            Some(st)
        } else {
            None
        }
    } else if c[cx] >= 1 && !on {
        bracket_scan(c, tall, cx + 1, true, cx)
    } else if c[cx] < 1 && on {
        if seg_max(c, st, cx) >= tall && cx - st <= 14 {
            Some(st)
        } else {
            bracket_scan(c, tall, cx + 1, false, st)
        }
    } else {
        bracket_scan(c, tall, cx + 1, on, st)
    }
}

/// Left edge column of `[` in the bar at (x0, y0) of size bw × bh with luma `g`.
pub open spec fn bracket_spec(px: Seq<u8>, w: int, g: Seq<u8>, x0: int, y0: int, bw: int, bh: int) -> Option<int> {
    if bw <= 0 || bh <= 0 {
        None
    } else {
        let tall = tall_spec(text_rows(g, bw, bh) as int);
        let c = Seq::new(bw as nat, |x: int| col_green(px, w, g, bw, x0, y0, x, bh) as int);
        bracket_scan(c, tall, 0, false, 0)
    }
}

proof fn lemma_row_index(y: int, x: int, bw: int, bh: int)
    requires
        0 <= y < bh,
        0 <= x < bw,
    ensures
        0 <= y * bw + x < bw * bh,
{
    assert(0 <= y * bw + x < bw * bh) by (nonlinear_arith)
        requires
            0 <= y < bh,
            0 <= x < bw,
    ;
}

proof fn lemma_bright_bound(g: Seq<u8>, bw: int, y: int, k: int)
    ensures
        bright_count(g, bw, y, k) <= if k < 0 { 0 } else { k },
    decreases k,
{
    if k > 0 {
        lemma_bright_bound(g, bw, y, k - 1);
    }
}

proof fn lemma_text_rows_bound(g: Seq<u8>, bw: int, k: int)
    ensures
        text_rows(g, bw, k) <= if k < 0 { 0 } else { k },
    decreases k,
{
    if k > 0 {
        lemma_text_rows_bound(g, bw, k - 1);
    }
}

proof fn lemma_col_green_bound(px: Seq<u8>, w: int, g: Seq<u8>, bw: int, x0: int, y0: int, x: int, k: int)
    ensures
        col_green(px, w, g, bw, x0, y0, x, k) <= if k < 0 { 0 } else { k },
    decreases k,
{
    if k > 0 {
        lemma_col_green_bound(px, w, g, bw, x0, y0, x, k - 1);
    }
}

/// Left edge of the `[` inside the bar (see [`bracket_spec`]).
pub fn bracket_left(frame: &BgraFrame, g: &Vec<u8>, x0: i32, y0: i32, bw: i32, bh: i32) -> (r:
    Option<i32>)
    requires
        frame.wf(),
        g@.len() == bw * bh,
        0 <= x0,
        0 <= y0,
        bw > 0 ==> x0 + bw <= frame.w,
        bh > 0 ==> y0 + bh <= frame.h,
    ensures
        match (r, bracket_spec(
            frame.pixels@,
            frame.w as int,
            g@,
            x0 as int,
            y0 as int,
            bw as int,
            bh as int,
        )) {
            (None, None) => true,
            (Some(a), Some(b)) => a == b,
            _ => false,
        },
        r matches Some(c) ==> 0 <= c < bw,
{
    if bw <= 0 || bh <= 0 {
        return None;
    }
    let ghost px = frame.pixels@;
    let ghost gs = g@;
    let plen = frame.pixels.len();
    let w = frame.w;
    let bwu = bw as usize;
    let glen = g.len();
    // Text rows.
    let mut text: Vec<bool> = Vec::new();
    let mut nt: i32 = 0;
    let mut y: i32 = 0;
    while y < bh
        invariant
            gs == g@,
            glen == gs.len(),
            gs.len() == bw * bh,
            bwu == bw,
            bw > 0,
            0 <= y <= bh,
            text@.len() == y,
            forall|k: int| 0 <= k < y ==> text@[k] == text_row(gs, bw as int, k),
            nt == text_rows(gs, bw as int, y as int),
            nt <= y,
        decreases bh - y,
    {
        let mut cnt: i32 = 0;
        let mut x: i32 = 0;
        while x < bw
            invariant
                gs == g@,
                glen == gs.len(),
                gs.len() == bw * bh,
                bwu == bw,
                bw > 0,
                0 <= y < bh,
                0 <= x <= bw,
                cnt == bright_count(gs, bw as int, y as int, x as int),
                cnt <= x,
            decreases bw - x,
        {
            proof {
                lemma_row_index(y as int, x as int, bw as int, bh as int);
                assert(0 <= y * bw) by (nonlinear_arith)
                    requires
                        y >= 0,
                        bw >= 0,
                ;
            }
            if g[(y as usize) * bwu + (x as usize)] >= 150 {
                cnt = cnt + 1;
            }
            x = x + 1;
        }
        let is_text = 3 <= cnt && cnt <= bw / 2;
        text.push(is_text);
        if is_text {
            nt = nt + 1;
        }
        y = y + 1;
    }
    let tall: i32 = if nt > 0 {
        let t = ((35 * (nt as i64)) / 100) as i32;
        if t > 4 {
            t
        } else {
            4
        }
    } else {
        4
    };
    // Pale green pixels per column within the text rows.
    let ghost cs = Seq::new(bw as nat, |x: int| col_green(px, w as int, gs, bw as int, x0 as int, y0 as int, x, bh as int) as int);
    let mut coln: Vec<i32> = Vec::new();
    let mut x: i32 = 0;
    while x < bw
        invariant
            px == frame.pixels@,
            plen == px.len(),
            frame.wf(),
            w == frame.w,
            gs == g@,
            gs.len() == bw * bh,
            text@.len() == bh,
            forall|k: int| 0 <= k < bh ==> text@[k] == text_row(gs, bw as int, k),
            0 <= x0,
            0 <= y0,
            x0 + bw <= frame.w,
            y0 + bh <= frame.h,
            bw > 0,
            bh > 0,
            0 <= x <= bw,
            cs.len() == bw,
            forall|k: int|
                0 <= k < bw ==> cs[k] == col_green(
                    px,
                    w as int,
                    gs,
                    bw as int,
                    x0 as int,
                    y0 as int,
                    k,
                    bh as int,
                ) as int,
            coln@.len() == x,
            forall|k: int| 0 <= k < x ==> coln@[k] == cs[k],
            forall|k: int| 0 <= k < x ==> 0 <= #[trigger] coln@[k] <= bh,
        decreases bw - x,
    {
        let mut c: i32 = 0;
        let mut yy: i32 = 0;
        while yy < bh
            invariant
                px == frame.pixels@,
                plen == px.len(),
                frame.wf(),
                w == frame.w,
                gs == g@,
                text@.len() == bh,
                forall|k: int| 0 <= k < bh ==> text@[k] == text_row(gs, bw as int, k),
                0 <= x0,
                0 <= y0,
                x0 + bw <= frame.w,
                y0 + bh <= frame.h,
                0 <= x < bw,
                0 <= yy <= bh,
                c == col_green(px, w as int, gs, bw as int, x0 as int, y0 as int, x as int, yy as int),
                c <= yy,
            decreases bh - yy,
        {
            if text[yy as usize] {
                let py = y0 + yy;
                let pxx = x0 + x;
                proof {
                    lemma_px_off(w as int, frame.h as int, pxx as int, py as int);
                    assert(0 <= py * w) by (nonlinear_arith)
                        requires
                            py >= 0,
                            w >= 0,
                    ;
                    assert(px_off(w as int, pxx as int, py as int) + 3 < plen);
                }
                let o = ((py as usize) * (w as usize) + (pxx as usize)) * 4;
                let b = frame.pixels[o] as i32;
                let gx = frame.pixels[o + 1] as i32;
                let r = frame.pixels[o + 2] as i32;
                if gx >= 140 && gx > r + 12 && gx > b + 22 && b >= 45 {
                    c = c + 1;
                }
            }
            yy = yy + 1;
        }
        coln.push(c);
        x = x + 1;
    }
    proof {
        assert(coln@.map_values(|v: i32| v as int) =~= cs);
    }
    // First qualifying run of green columns.
    let mut on = false;
    let mut st: i32 = 0;
    let mut cx: i32 = 0;
    while cx < bw
        invariant
            px == frame.pixels@,
            w == frame.w,
            gs == g@,
            coln@.len() == bw,
            forall|k: int| 0 <= k < bw ==> coln@[k] == cs[k],
            forall|k: int| 0 <= k < bw ==> #[trigger] coln@[k] >= 0,
            cs.len() == bw,
            0 <= cx <= bw,
            0 <= st <= cx,
            st < bw,
            bracket_spec(px, w as int, gs, x0 as int, y0 as int, bw as int, bh as int)
                == bracket_scan(cs, tall as int, cx as int, on, st as int),
            tall == tall_spec(text_rows(gs, bw as int, bh as int) as int),
        decreases bw - cx,
    {
        let v = coln[cx as usize];
        if v >= 1 && !on {
            st = cx;
            on = true;
        } else if v < 1 && on {
            let m = seg_max_exec(&coln, st, cx);
            proof {
                lemma_seg_max_eq(coln@, cs, st as int, cx as int);
            }
            if m >= tall && cx - st <= 14 {
                return Some(st);
            }
            on = false;
        }
        cx = cx + 1;
    }
    if on {
        let m = seg_max_exec(&coln, st, bw);
        proof {
            lemma_seg_max_eq(coln@, cs, st as int, bw as int);
            assert(cx == bw);
            assert(seg_max(cs, st as int, cs.len() as int) == m);
        }
        if m >= tall && bw - st <= 14 {
            return Some(st);
        }
    }
    None
}

proof fn lemma_seg_max_eq(v: Seq<i32>, c: Seq<int>, a: int, b: int)
    requires
        0 <= a,
        b <= v.len(),
        v.len() == c.len(),
        forall|k: int| 0 <= k < v.len() ==> v[k] == c[k],
    ensures
        seg_max(c, a, b) == seg_max(v.map_values(|x: i32| x as int), a, b),
    decreases b - a,
{
    if b > a {
        lemma_seg_max_eq(v, c, a, b - 1);
    }
}

/// Largest value in `v[a..b]` (0 when empty).
fn seg_max_exec(v: &Vec<i32>, a: i32, b: i32) -> (m: i32)
    requires
        0 <= a,
        b <= v@.len(),
        forall|k: int| 0 <= k < v@.len() ==> v@[k] >= 0,
    ensures
        m == seg_max(v@.map_values(|x: i32| x as int), a as int, b as int),
{
    let ghost c = v@.map_values(|x: i32| x as int);
    let mut m: i32 = 0;
    let mut k: i32 = a;
    if b <= a {
        return 0;
    }
    while k < b
        invariant
            0 <= a <= k <= b,
            b <= v@.len(),
            c == v@.map_values(|x: i32| x as int),
            m == seg_max(c, a as int, k as int),
        decreases b - k,
    {
        if v[k as usize] > m {
            m = v[k as usize];
        }
        k = k + 1;
    }
    m
}

/// The bar's luma block.
fn bar_luma(frame: &BgraFrame, x0: i32, y0: i32, bw: i32, bh: i32) -> (g: Vec<u8>)
    requires
        frame.wf(),
        0 <= x0,
        0 <= y0,
        0 < bw,
        0 < bh,
        x0 + bw <= frame.w,
        y0 + bh <= frame.h,
    ensures
        is_bar_luma(g@, frame.pixels@, frame.w as int, x0 as int, y0 as int, bw as int, bh as int),
{
    let ghost px = frame.pixels@;
    let plen = frame.pixels.len();
    let w = frame.w;
    let mut g: Vec<u8> = Vec::new();
    let mut y: i32 = 0;
    while y < bh
        invariant
            px == frame.pixels@,
            plen == px.len(),
            frame.wf(),
            w == frame.w,
            0 <= x0,
            0 <= y0,
            0 < bw,
            x0 + bw <= frame.w,
            y0 + bh <= frame.h,
            0 <= y <= bh,
            g@.len() == y * bw,
            forall|yy: int, xx: int|
                0 <= yy < y && 0 <= xx < bw ==> #[trigger] cell(g@, bw as int, xx, yy) as int
                    == luma_at(px, w as int, x0 + xx, y0 + yy),
        decreases bh - y,
    {
        let mut x: i32 = 0;
        while x < bw
            invariant
                px == frame.pixels@,
                plen == px.len(),
                frame.wf(),
                w == frame.w,
                0 <= x0,
                0 <= y0,
                0 < bw,
                x0 + bw <= frame.w,
                y0 + bh <= frame.h,
                0 <= y < bh,
                0 <= x <= bw,
                g@.len() == y * bw + x,
                forall|yy: int, xx: int|
                    0 <= yy < y && 0 <= xx < bw ==> #[trigger] cell(g@, bw as int, xx, yy) as int
                        == luma_at(px, w as int, x0 + xx, y0 + yy),
                forall|xx: int|
                    0 <= xx < x ==> #[trigger] cell(g@, bw as int, xx, y as int) as int == luma_at(
                        px,
                        w as int,
                        x0 + xx,
                        y0 + y,
                    ),
            decreases bw - x,
        {
            let py = y0 + y;
            let pxx = x0 + x;
            proof {
                lemma_px_off(w as int, frame.h as int, pxx as int, py as int);
                assert(0 <= py * w) by (nonlinear_arith)
                    requires
                        py >= 0,
                        w >= 0,
                ;
                assert(px_off(w as int, pxx as int, py as int) + 3 < plen);
            }
            let o = ((py as usize) * (w as usize) + (pxx as usize)) * 4;
            let l = lum(frame.pixels[o], frame.pixels[o + 1], frame.pixels[o + 2]);
            let ghost before = g@;
            g.push(l);
            proof {
                assert forall|yy: int, xx: int| 0 <= yy < y && 0 <= xx < bw implies #[trigger] cell(
                    g@,
                    bw as int,
                    xx,
                    yy,
                ) as int == luma_at(px, w as int, x0 + xx, y0 + yy) by {
                    assert(0 <= yy * bw + xx < y * bw) by (nonlinear_arith)
                        requires
                            0 <= yy < y,
                            0 <= xx < bw,
                    ;
                    assert(cell(before, bw as int, xx, yy) == cell(g@, bw as int, xx, yy));
                }
                assert forall|xx: int| 0 <= xx < x + 1 implies #[trigger] cell(g@, bw as int, xx, y as int)
                    as int == luma_at(px, w as int, x0 + xx, y0 + y) by {
                    if xx < x {
                        assert(cell(before, bw as int, xx, y as int) == cell(g@, bw as int, xx, y as int));
                    }
                }
            }
            x = x + 1;
        }
        proof {
            assert((y + 1) * bw == y * bw + bw) by (nonlinear_arith);
        }
        y = y + 1;
    }
    proof {
        assert(y * bw == bw * bh) by (nonlinear_arith)
            requires
                y == bh,
        ;
    }
    g
}

/// What locating the EXP value bar in a `w × h` capture `px` yields: the
/// value bar of a red shop-button anchor in the bottom band, its luma and
/// the left column of its `[`.
pub open spec fn region_ok(px: Seq<u8>, w: int, h: int, reg: ExpRegion) -> bool {
    &&& exists|c: Comp|
        comp_ok(c, w, h, band_start(h)) && red_ok(c)
            && value_bar_spec(
            px,
            w,
            h,
            c.x as int,
            c.y as int,
            c.w as int,
            c.h as int,
        ) == Some((reg.x0 as int, reg.y0 as int, reg.x1 as int, reg.y1 as int))
    &&& 0 <= reg.x0 && reg.x0 + 8 <= reg.x1 && reg.x1 <= w
    &&& 0 <= reg.y0 && reg.y0 < reg.y1 && reg.y1 <= h
    &&& is_bar_luma(
        reg.g@,
        px,
        w,
        reg.x0 as int,
        reg.y0 as int,
        (reg.x1 - reg.x0) as int,
        (reg.y1 - reg.y0) as int,
    )
    &&& bracket_spec(
        px,
        w,
        reg.g@,
        reg.x0 as int,
        reg.y0 as int,
        (reg.x1 - reg.x0) as int,
        (reg.y1 - reg.y0) as int,
    ) == Some(reg.bracket_col as int)
    &&& 0 <= reg.bracket_col < reg.x1 - reg.x0
}

/// Luma of the `bw` × `bh` rectangle at (`x0`, `y0`), row-major.
pub open spec fn bar_luma_seq(px: Seq<u8>, w: int, x0: int, y0: int, bw: int, bh: int) -> Seq<u8> {
    Seq::new((bw * bh) as nat, |i: int| luma_at(px, w, x0 + i % bw, y0 + i / bw) as u8)
}

proof fn lemma_bar_luma_seq(g: Seq<u8>, px: Seq<u8>, w: int, x0: int, y0: int, bw: int, bh: int)
    requires
        bw > 0,
        bh > 0,
        is_bar_luma(g, px, w, x0, y0, bw, bh),
    ensures
        g == bar_luma_seq(px, w, x0, y0, bw, bh),
{
    assert forall|i: int| 0 <= i < g.len() implies g[i] == bar_luma_seq(px, w, x0, y0, bw, bh)[i] by {
        lemma_cell_range(i, bw, bh);
        let y = i / bw;
        let x = i % bw;
        assert(cell(g, bw, x, y) as int == luma_at(px, w, x0 + x, y0 + y));
    }
    assert(g =~= bar_luma_seq(px, w, x0, y0, bw, bh));
}

/// The shop button `find_shop` picks.
pub open spec fn shop_spec(px: Seq<u8>, w: int, h: int) -> Option<Comp> {
    pick_shop_spec(
        band_blocks(px, w, h, band_start(h), Hue::Red),
        band_blocks(px, w, h, band_start(h), Hue::Green),
    )
}

/// What `locate` finds: the value bar (x0, y0, x1, y1) and the `[` column.
pub open spec fn locate_spec(px: Seq<u8>, w: int, h: int) -> Option<(int, int, int, int, int)> {
    if w < 400 || h < 300 {
        None
    } else {
        match shop_spec(px, w, h) {
            None => None,
            Some(c) => match value_bar_spec(px, w, h, c.x as int, c.y as int, c.w as int, c.h as int) {
                None => None,
                Some((x0, y0, x1, y1)) => match bracket_spec(
                    px,
                    w,
                    bar_luma_seq(px, w, x0, y0, x1 - x0, y1 - y0),
                    x0,
                    y0,
                    x1 - x0,
                    y1 - y0,
                ) {
                    None => None,
                    Some(b) => Some((x0, y0, x1, y1, b)),
                },
            },
        }
    }
}

/// `reg` holds the bar and `[` column of `t`, and the bar's luma.
pub open spec fn region_is(px: Seq<u8>, w: int, reg: ExpRegion, t: (int, int, int, int, int)) -> bool {
    &&& reg.x0 == t.0
    &&& reg.y0 == t.1
    &&& reg.x1 == t.2
    &&& reg.y1 == t.3
    &&& reg.bracket_col == t.4
    &&& reg.g@ == bar_luma_seq(px, w, t.0, t.1, t.2 - t.0, t.3 - t.1)
}

/// Window capture → value bar rectangle, its luma and the `[` column.
/// `None` for frames under 400 × 300 or when no anchor is found.
pub fn locate(frame: &BgraFrame) -> (r: Option<ExpRegion>)
    requires
        frame.wf(),
        frame.w * frame.h < 0x8000_0000,
    ensures
        match (r, locate_spec(frame.pixels@, frame.w as int, frame.h as int)) {
            (None, None) => true,
            (Some(reg), Some(t)) => region_is(frame.pixels@, frame.w as int, reg, t),
            _ => false,
        },
        r matches Some(reg) ==> region_ok(frame.pixels@, frame.w as int, frame.h as int, reg),
{
    if frame.w < 400 || frame.h < 300 {
        return None;
    }
    let shop = match find_shop(frame) {
        Some(c) => c,
        None => return None,
    };
    let (x0, y0, x1, y1) = match value_bar(frame, shop) {
        Some(t) => t,
        None => return None,
    };
    let bw = x1 - x0;
    let bh = y1 - y0;
    let g = bar_luma(frame, x0, y0, bw, bh);
    proof {
        lemma_bar_luma_seq(g@, frame.pixels@, frame.w as int, x0 as int, y0 as int, bw as int, bh as int);
    }
    let bracket_col = match bracket_left(frame, &g, x0, y0, bw, bh) {
        Some(c) => c,
        None => return None,
    };
    Some(ExpRegion { x0, y0, x1, y1, bracket_col, g })
}

} // verus!
