//! Size-normalised digit reading inside a located value bar: the glyphs left
//! of the `[` are cut out by ink rows and blank columns, each cut-out is
//! area-resampled to every template's ink box and scored by the share of
//! mismatching cells; the value field is the longest run of same-height,
//! well-matching glyphs closest to the bracket.
//!
//! All the arithmetic is exact integer arithmetic: coverages are compared
//! as fractions, mismatch rates by cross-multiplication.
use super::digits::{pow10, TPL};
use vstd::prelude::*;

verus! {

/// A glyph cell is a digit when at most this share (1/5) of its cells mismatch.
pub const MIS_MAX_NUM: i64 = 1;
pub const MIS_MAX_DEN: i64 = 5;
/// Mismatch rates are summed in units of 1/70 (the template box areas divide 70).
pub const RATE_UNIT: i64 = 70;

// ---------------------------------------------------------------------------
// Template ink boxes
// ---------------------------------------------------------------------------

/// Running ink box of template `d` over its first `i` cells (row-major):
/// (top, bottom, left, right), starting from the empty box (14, -1, 6, -1).
pub open spec fn box_scan(d: int, i: int, top: int, bot: int, left: int, right: int) -> (int, int, int, int)
    decreases 84 - i,
{
    if i >= 84 || i < 0 {
        (top, bot, left, right)
    } else {
        let r = i / 6;
        let c = i % 6;
        if TPL[d][r][c] == 1 {
            box_scan(
                d,
                i + 1,
                if r < top { r } else { top },
                if r > bot { r } else { bot },
                if c < left { c } else { left },
                if c > right { c } else { right },
            )
        } else {
            box_scan(d, i + 1, top, bot, left, right)
        }
    }
}

/// Ink box of template `d`: (top row, left column, rows, columns).
pub open spec fn tpl_box(d: int) -> (int, int, int, int) {
    let (t, b, l, r) = box_scan(d, 0, 14, -1, 6, -1);
    (t, l, b - t + 1, r - l + 1)
}

pub open spec fn box_shape(top: int, bot: int, left: int, right: int) -> bool {
    (top == 14 && bot == -1 && left == 6 && right == -1) || (0 <= top <= bot <= 13 && 0 <= left
        <= right <= 5)
}

proof fn lemma_box_scan_shape(d: int, i: int, top: int, bot: int, left: int, right: int)
    requires
        0 <= i <= 84,
        box_shape(top, bot, left, right),
    ensures
        ({
            let (t, b, l, r) = box_scan(d, i, top, bot, left, right);
            box_shape(t, b, l, r)
        }),
    decreases 84 - i,
{
    if i < 84 {
        let r = i / 6;
        let c = i % 6;
        if TPL[d][r][c] == 1 {
            lemma_box_scan_shape(
                d,
                i + 1,
                if r < top { r } else { top },
                if r > bot { r } else { bot },
                if c < left { c } else { left },
                if c > right { c } else { right },
            );
        } else {
            lemma_box_scan_shape(d, i + 1, top, bot, left, right);
        }
    }
}

/// A template box either is empty (rows or columns ≤ 0) or lies inside the 14 × 6 grid.
pub proof fn lemma_tpl_box_in_grid(d: int)
    ensures
        ({
            let (t, l, th, tw) = tpl_box(d);
            (th <= 0 || tw <= 0) || (0 <= t && t + th <= 14 && 0 <= l && l + tw <= 6 && th >= 1
                && tw >= 1)
        }),
{
    lemma_box_scan_shape(d, 0, 14, -1, 6, -1);
}

/// Ink box of template `d` (see [`tpl_box`]).
pub fn tpl_ink(d: usize) -> (r: (i32, i32, i32, i32))
    requires
        d < 10,
    ensures
        (r.0 as int, r.1 as int, r.2 as int, r.3 as int) == tpl_box(d as int),
{
    let mut top: i32 = 14;
    let mut bot: i32 = -1;
    let mut left: i32 = 6;
    let mut right: i32 = -1;
    let mut i: usize = 0;
    proof {
        lemma_box_scan_shape(d as int, 0, 14, -1, 6, -1);
    }
    while i < 84
        invariant
            d < 10,
            i <= 84,
            box_shape(top as int, bot as int, left as int, right as int),
            box_scan(d as int, 0, 14, -1, 6, -1) == box_scan(
                d as int,
                i as int,
                top as int,
                bot as int,
                left as int,
                right as int,
            ),
        decreases 84 - i,
    {
        let r = i / 6;
        let c = i % 6;
        if TPL[d][r][c] == 1 {
            let ri = r as i32;
            let ci = c as i32;
            if ri < top {
                top = ri;
            }
            if ri > bot {
                bot = ri;
            }
            if ci < left {
                left = ci;
            }
            if ci > right {
                right = ci;
            }
        }
        i = i + 1;
    }
    (top, left, bot - top + 1, right - left + 1)
}

// ---------------------------------------------------------------------------
// Area resampling
// ---------------------------------------------------------------------------

/// Overlap of source pixel `i` with target cell `t` along one axis, in units
/// of 1/n (source length s, target length n).
pub open spec fn overlap_scaled(i: int, t: int, s: int, n: int) -> int {
    let lo = if t * s > i * n { t * s } else { i * n };
    let hi = if (t + 1) * s < (i + 1) * n { (t + 1) * s } else { (i + 1) * n };
    if hi > lo { hi - lo } else { 0 }
}

/// Ink of source rows `< i` (all columns `< sw`) falling in target cell (tr, tc),
/// in units of 1/(th·tw) pixels.
pub open spec fn cover_rows(src: Seq<u8>, sh: int, sw: int, th: int, tw: int, tr: int, tc: int, i: int) -> int
    decreases i,
{
    if i <= 0 {
        0
    } else {
        cover_rows(src, sh, sw, th, tw, tr, tc, i - 1) + cover_cols(
            src,
            sh,
            sw,
            th,
            tw,
            tr,
            tc,
            i - 1,
            sw,
        )
    }
}

/// Ink of source row `i`, columns `< j`, falling in target cell (tr, tc).
pub open spec fn cover_cols(src: Seq<u8>, sh: int, sw: int, th: int, tw: int, tr: int, tc: int, i: int, j: int) -> int
    decreases j,
{
    if j <= 0 {
        0
    } else {
        cover_cols(src, sh, sw, th, tw, tr, tc, i, j - 1) + src[i * sw + j - 1] * overlap_scaled(
            i,
            tr,
            sh,
            th,
        ) * overlap_scaled(j - 1, tc, sw, tw)
    }
}

/// Target cell (tr, tc) of an `sh × sw` glyph resampled to `th × tw` is ink
/// when more than half of its area is covered.
pub open spec fn resampled_ink(src: Seq<u8>, sh: int, sw: int, th: int, tw: int, tr: int, tc: int) -> bool {
    2 * cover_rows(src, sh, sw, th, tw, tr, tc, sh) > sh * sw
}

proof fn lemma_overlap_bound(i: int, t: int, s: int, n: int)
    requires
        s >= 1,
        n >= 1,
    ensures
        0 <= overlap_scaled(i, t, s, n) <= n,
{
    let lo = if t * s > i * n { t * s } else { i * n };
    let hi = if (t + 1) * s < (i + 1) * n { (t + 1) * s } else { (i + 1) * n };
    assert((i + 1) * n == i * n + n) by (nonlinear_arith);
}

proof fn lemma_cover_cols_bound(src: Seq<u8>, sh: int, sw: int, th: int, tw: int, tr: int, tc: int, i: int, j: int)
    requires
        sh >= 1,
        sw >= 1,
        th >= 1,
        tw >= 1,
        0 <= i < sh,
        0 <= j <= sw,
        src.len() == sh * sw,
        forall|k: int| 0 <= k < src.len() ==> src[k] <= 1,
    ensures
        0 <= cover_cols(src, sh, sw, th, tw, tr, tc, i, j) <= j * th * tw,
    decreases j,
{
    if j > 0 {
        lemma_cover_cols_bound(src, sh, sw, th, tw, tr, tc, i, j - 1);
        lemma_overlap_bound(i, tr, sh, th);
        lemma_overlap_bound(j - 1, tc, sw, tw);
        assert(0 <= i * sw + j - 1 < sh * sw) by (nonlinear_arith)
            requires
                0 <= i < sh,
                1 <= j <= sw,
        ;
        let v = src[i * sw + j - 1] as int;
        let oy = overlap_scaled(i, tr, sh, th);
        let ox = overlap_scaled(j - 1, tc, sw, tw);
        assert(0 <= v * oy * ox <= th * tw) by (nonlinear_arith)
            requires
                0 <= v <= 1,
                0 <= oy <= th,
                0 <= ox <= tw,
        ;
        assert(j * th * tw == (j - 1) * th * tw + th * tw) by (nonlinear_arith);
    }
}

proof fn lemma_cover_rows_bound(src: Seq<u8>, sh: int, sw: int, th: int, tw: int, tr: int, tc: int, i: int)
    requires
        sh >= 1,
        sw >= 1,
        th >= 1,
        tw >= 1,
        0 <= i <= sh,
        src.len() == sh * sw,
        forall|k: int| 0 <= k < src.len() ==> src[k] <= 1,
    ensures
        0 <= cover_rows(src, sh, sw, th, tw, tr, tc, i) <= i * sw * th * tw,
    decreases i,
{
    if i > 0 {
        lemma_cover_rows_bound(src, sh, sw, th, tw, tr, tc, i - 1);
        lemma_cover_cols_bound(src, sh, sw, th, tw, tr, tc, i - 1, sw);
        assert(i * sw * th * tw == (i - 1) * sw * th * tw + sw * th * tw) by (nonlinear_arith);
    }
}

/// Whether target cell (tr, tc) of the resampled glyph is ink (see [`resampled_ink`]).
fn resample_cell(src: &Vec<u8>, sh: i32, sw: i32, th: i32, tw: i32, tr: i32, tc: i32) -> (b: bool)
    requires
        1 <= sh,
        1 <= sw,
        sh * sw <= 0x8000_0000,
        1 <= th <= 14,
        1 <= tw <= 6,
        0 <= tr < th,
        0 <= tc < tw,
        src@.len() == sh * sw,
        forall|k: int| 0 <= k < src@.len() ==> src@[k] <= 1,
    ensures
        b == resampled_ink(src@, sh as int, sw as int, th as int, tw as int, tr as int, tc as int),
{
    let ghost s = src@;
    let slen = src.len();
    let mut sum: i64 = 0;
    let mut i: i32 = 0;
    while i < sh
        invariant
            s == src@,
            1 <= sh,
            1 <= sw,
            sh * sw <= 0x8000_0000,
            1 <= th <= 14,
            1 <= tw <= 6,
            0 <= tr < th,
            0 <= tc < tw,
            s.len() == sh * sw,
            forall|k: int| 0 <= k < s.len() ==> s[k] <= 1,
            0 <= i <= sh,
            slen == s.len(),
            sh * sw <= 0x8000_0000,
            0 <= sum <= i * sw * th * tw,
            sum == cover_rows(s, sh as int, sw as int, th as int, tw as int, tr as int, tc as int, i as int),
        decreases sh - i,
    {
        let oy = ovl(i as i64, tr as i64, sh as i64, th as i64);
        let mut row: i64 = 0;
        let mut j: i32 = 0;
        while j < sw
            invariant
                s == src@,
                1 <= sh,
                1 <= sw,
                sh * sw <= 0x8000_0000,
                1 <= th <= 14,
                1 <= tw <= 6,
                0 <= tr < th,
                0 <= tc < tw,
                s.len() == sh * sw,
                forall|k: int| 0 <= k < s.len() ==> s[k] <= 1,
                0 <= i < sh,
                0 <= j <= sw,
                slen == s.len(),
                sh * sw <= 0x8000_0000,
                0 <= row <= j * th * tw,
                oy == overlap_scaled(i as int, tr as int, sh as int, th as int),
                row == cover_cols(s, sh as int, sw as int, th as int, tw as int, tr as int, tc as int, i as int, j as int),
            decreases sw - j,
        {
            proof {
                lemma_cover_cols_bound(s, sh as int, sw as int, th as int, tw as int, tr as int, tc as int, i as int, (j + 1) as int);
                assert(sw <= sh * sw) by (nonlinear_arith)
                    requires
                        sh >= 1,
                        sw >= 1,
                ;
                assert((j + 1) * th * tw <= 0x8000_0000 * 84) by (nonlinear_arith)
                    requires
                        j + 1 <= sw,
                        sw <= sh * sw,
                        sh * sw <= 0x8000_0000,
                        th <= 14,
                        tw <= 6,
                        th >= 1,
                        tw >= 1,
                ;

                assert(0 <= i * sw + j < sh * sw) by (nonlinear_arith)
                    requires
                        0 <= i < sh,
                        0 <= j < sw,
                ;
                lemma_overlap_bound(i as int, tr as int, sh as int, th as int);
                lemma_overlap_bound(j as int, tc as int, sw as int, tw as int);
            }
            let ox = ovl(j as i64, tc as i64, sw as i64, tw as i64);
            proof {
                assert(0 <= i * sw) by (nonlinear_arith)
                    requires
                        i >= 0,
                        sw >= 0,
                ;
            }
            let v = src[(i as usize) * (sw as usize) + (j as usize)] as i64;
            proof {
                assert(0 <= v * oy <= 14) by (nonlinear_arith)
                    requires
                        0 <= v <= 1,
                        0 <= oy <= th,
                        th <= 14,
                ;
                assert(0 <= v * oy * ox <= 84) by (nonlinear_arith)
                    requires
                        0 <= v <= 1,
                        0 <= oy <= th,
                        0 <= ox <= tw,
                        th <= 14,
                        tw <= 6,
                ;
            }
            row = row + v * oy * ox;
            j = j + 1;
        }
        proof {
            lemma_cover_rows_bound(s, sh as int, sw as int, th as int, tw as int, tr as int, tc as int, (i + 1) as int);
            assert((i + 1) * sw <= sh * sw) by (nonlinear_arith)
                requires
                    i + 1 <= sh,
                    sw >= 1,
            ;
            assert((i + 1) * sw * th * tw <= 0x8000_0000 * 84) by (nonlinear_arith)
                requires
                    (i + 1) * sw <= sh * sw,
                    sh * sw <= 0x8000_0000,
                    th <= 14,
                    tw <= 6,
                    th >= 1,
                    tw >= 1,
            ;
            assert(i * sw * th * tw + sw * th * tw == (i + 1) * sw * th * tw) by (nonlinear_arith);
        }
        sum = sum + row;
        i = i + 1;
    }
    proof {
        assert(sh * sw * th * tw <= 0x8000_0000 * 84) by (nonlinear_arith)
            requires
                sh * sw <= 0x8000_0000,
                th <= 14,
                tw <= 6,
                th >= 1,
                tw >= 1,
        ;
    }
    2 * sum > (sh as i64) * (sw as i64)
}

/// Overlap along one axis in units of 1/n (see [`overlap_scaled`]).
fn ovl(i: i64, t: i64, s: i64, n: i64) -> (r: i64)
    requires
        0 <= i <= 0x8000_0000,
        0 <= t <= 0x8000_0000,
        1 <= s <= 0x8000_0000,
        1 <= n <= 0x8000_0000,
    ensures
        r == overlap_scaled(i as int, t as int, s as int, n as int),
{
    proof {
        assert((t + 1) * s <= 0x8000_0001 * 0x8000_0000) by (nonlinear_arith)
            requires
                0 <= t <= 0x8000_0000,
                1 <= s <= 0x8000_0000,
        ;
        assert((i + 1) * n <= 0x8000_0001 * 0x8000_0000) by (nonlinear_arith)
            requires
                0 <= i <= 0x8000_0000,
                1 <= n <= 0x8000_0000,
        ;
        assert(0 <= t * s <= 0x8000_0000 * 0x8000_0000) by (nonlinear_arith)
            requires
                0 <= t <= 0x8000_0000,
                0 <= s <= 0x8000_0000,
        ;
        assert(0 <= i * n <= 0x8000_0000 * 0x8000_0000) by (nonlinear_arith)
            requires
                0 <= i <= 0x8000_0000,
                0 <= n <= 0x8000_0000,
        ;
    }
    let lo = if t * s > i * n {
        t * s
    } else {
        i * n
    };
    let hi = if (t + 1) * s < (i + 1) * n {
        (t + 1) * s
    } else {
        (i + 1) * n
    };
    if hi > lo {
        hi - lo
    } else {
        0
    }
}

// ---------------------------------------------------------------------------
// Scoring a glyph against the templates
// ---------------------------------------------------------------------------

/// Template `d` inside its ink box, cell `k` row-major.
pub open spec fn boxed_tpl(d: int, k: int) -> u8 {
    let (t, l, th, tw) = tpl_box(d);
    TPL[d][t + k / tw][l + k % tw]
}

/// Mismatching cells among the first `k` of the glyph resampled to template `d`'s box.
pub open spec fn glyph_mismatch(src: Seq<u8>, sh: int, sw: int, d: int, k: int) -> nat
    decreases k,
{
    if k <= 0 {
        0
    } else {
        let (t, l, th, tw) = tpl_box(d);
        let ink = resampled_ink(src, sh, sw, th, tw, (k - 1) / tw, (k - 1) % tw);
        glyph_mismatch(src, sh, sw, d, k - 1) + if ink != (boxed_tpl(d, k - 1) == 1) {
            1nat
        } else {
            0nat
        }
    }
}

/// (mismatching cells, cells) of the glyph against template `d`; `None`
/// when the template has no ink.
pub open spec fn glyph_rate(src: Seq<u8>, sh: int, sw: int, d: int) -> Option<(int, int)> {
    let (t, l, th, tw) = tpl_box(d);
    if th <= 0 || tw <= 0 {
        None
    } else {
        Some((glyph_mismatch(src, sh, sw, d, th * tw) as int, th * tw))
    }
}

/// Scan the templates for the lowest mismatch rate (first digit on ties).
pub open spec fn ocr_scan(src: Seq<u8>, sh: int, sw: int, d: int, best: Option<(int, int, int)>) -> Option<
    (int, int, int),
>
    decreases 10 - d,
{
    if d >= 10 || d < 0 {
        best
    } else {
        match glyph_rate(src, sh, sw, d) {
            None => ocr_scan(src, sh, sw, d + 1, best),
            Some((m, t)) => {
                let take = match best {
                    None => true,
                    Some((_, bm, bt)) => m * bt < bm * t,
                };
                ocr_scan(src, sh, sw, d + 1, if take { Some((d, m, t)) } else { best })
            },
        }
    }
}

/// (digit, mismatching cells, cells) of the best-matching template.
pub open spec fn ocr_spec(src: Seq<u8>, sh: int, sw: int) -> Option<(int, int, int)> {
    ocr_scan(src, sh, sw, 0, None)
}

proof fn lemma_glyph_mismatch_bound(src: Seq<u8>, sh: int, sw: int, d: int, k: int)
    ensures
        glyph_mismatch(src, sh, sw, d, k) <= if k < 0 { 0 } else { k },
    decreases k,
{
    if k > 0 {
        lemma_glyph_mismatch_bound(src, sh, sw, d, k - 1);
    }
}

/// Scores an ink-box glyph against every template (see [`ocr_spec`]).
pub fn ocr_cell(src: &Vec<u8>, sh: i32, sw: i32) -> (r: Option<(u8, i64, i64)>)
    requires
        1 <= sh,
        1 <= sw,
        sh * sw <= 0x8000_0000,
        src@.len() == sh * sw,
        forall|k: int| 0 <= k < src@.len() ==> src@[k] <= 1,
    ensures
        match (r, ocr_spec(src@, sh as int, sw as int)) {
            (None, None) => true,
            (Some((d, m, t)), Some((d2, m2, t2))) => d == d2 && m == m2 && t == t2,
            _ => false,
        },
        r matches Some((d, m, t)) ==> d < 10 && 0 <= m <= t && 1 <= t <= 84,
{
    let mut best: Option<(u8, i64, i64)> = None;
    let mut d: usize = 0;
    while d < 10
        invariant
            1 <= sh,
            1 <= sw,
            sh * sw <= 0x8000_0000,
            src@.len() == sh * sw,
            forall|k: int| 0 <= k < src@.len() ==> src@[k] <= 1,
            d <= 10,
            ocr_spec(src@, sh as int, sw as int) == ocr_scan(
                src@,
                sh as int,
                sw as int,
                d as int,
                match best {
                    None => None,
                    Some((a, b, c)) => Some((a as int, b as int, c as int)),
                },
            ),
            best matches Some((bd, bm, bt)) ==> bd < 10 && 0 <= bm <= bt && 1 <= bt <= 84,
        decreases 10 - d,
    {
        let (trow, tcol, th, tw) = tpl_ink(d);
        proof {
            lemma_tpl_box_in_grid(d as int);
        }
        if th > 0 && tw > 0 {
            proof {
                assert(1 <= th * tw <= 84) by (nonlinear_arith)
                    requires
                        1 <= th <= 14,
                        1 <= tw <= 6,
                ;
            }
            let total = th * tw;
            let mut mis: i64 = 0;
            let mut k: i32 = 0;
            while k < total
                invariant
                    1 <= sh,
                    1 <= sw,
                    sh * sw <= 0x8000_0000,
                    src@.len() == sh * sw,
                    forall|q: int| 0 <= q < src@.len() ==> src@[q] <= 1,
                    d < 10,
                    (trow as int, tcol as int, th as int, tw as int) == tpl_box(d as int),
                    0 <= trow && trow + th <= 14 && 0 <= tcol && tcol + tw <= 6 && th >= 1 && tw
                        >= 1,
                    total == th * tw,
                    0 <= k <= total,
                    mis == glyph_mismatch(src@, sh as int, sw as int, d as int, k as int),
                    mis <= k,
                decreases total - k,
            {
                let tr = k / tw;
                let tc = k % tw;
                proof {
                    assert(0 <= tr < th) by (nonlinear_arith)
                        requires
                            tr == k / tw,
                            0 <= k < th * tw,
                            tw >= 1,
                    ;
                }
                let ink = resample_cell(src, sh, sw, th, tw, tr, tc);
                let tv = TPL[d][(trow + tr) as usize][(tcol + tc) as usize];
                if ink != (tv == 1) {
                    mis = mis + 1;
                }
                k = k + 1;
            }
            proof {
                assert(th * tw <= 84) by (nonlinear_arith)
                    requires
                        1 <= th <= 14,
                        1 <= tw <= 6,
                ;
            }
            let t = total as i64;
            proof {
                if best is Some {
                    let (_, bm, bt) = best.unwrap();
                    assert(mis * bt <= 84 * 84) by (nonlinear_arith)
                        requires
                            0 <= mis <= 84,
                            1 <= bt <= 84,
                    ;
                    assert(bm * t <= 84 * 84) by (nonlinear_arith)
                        requires
                            0 <= bm <= 84,
                            1 <= t <= 84,
                    ;
                }
            }
            let take = match best {
                None => true,
                Some((_, bm, bt)) => mis * bt < bm * t,
            };
            if take {
                best = Some((d as u8, mis, t));
            }
        }
        d = d + 1;
    }
    best
}


// ---------------------------------------------------------------------------
// Most common glyph height
// ---------------------------------------------------------------------------

/// Occurrences of `v` among the first `k` entries.
pub open spec fn occurrences(xs: Seq<i32>, v: i32, k: int) -> nat
    decreases k,
{
    if k <= 0 {
        0
    } else {
        occurrences(xs, v, k - 1) + if xs[k - 1] == v { 1nat } else { 0nat }
    }
}

/// Scan for the most frequent value: the first position whose value occurs
/// strictly more often than every earlier position's value.
pub open spec fn mode_scan(xs: Seq<i32>, i: int, best_c: nat, best_v: i32) -> i32
    decreases xs.len() - i,
{
    if i >= xs.len() || i < 0 {
        best_v
    } else {
        let c = occurrences(xs, xs[i], xs.len() as int);
        if c > best_c {
            mode_scan(xs, i + 1, c, xs[i])
        } else {
            mode_scan(xs, i + 1, best_c, best_v)
        }
    }
}

/// The most frequent value; among equally frequent values the one that
/// appears first.
pub open spec fn mode_spec(xs: Seq<i32>) -> i32 {
    mode_scan(xs, 0, 0, xs[0])
}

proof fn lemma_occurrences_bound(xs: Seq<i32>, v: i32, k: int)
    ensures
        occurrences(xs, v, k) <= if k < 0 { 0 } else { k },
    decreases k,
{
    if k > 0 {
        lemma_occurrences_bound(xs, v, k - 1);
    }
}

/// Most frequent value, earliest on ties (see [`mode_spec`]).
pub fn mode(xs: &Vec<i32>) -> (r: i32)
    requires
        xs@.len() > 0,
    ensures
        r == mode_spec(xs@),
{
    let n = xs.len();
    let mut best_c: usize = 0;
    let mut best_v: i32 = xs[0];
    let mut i: usize = 0;
    while i < n
        invariant
            n == xs@.len(),
            n > 0,
            i <= n,
            mode_spec(xs@) == mode_scan(xs@, i as int, best_c as nat, best_v),
        decreases n - i,
    {
        let v = xs[i];
        let mut c: usize = 0;
        let mut j: usize = 0;
        while j < n
            invariant
                n == xs@.len(),
                i < n,
                v == xs@[i as int],
                j <= n,
                c == occurrences(xs@, v, j as int),
                c <= j,
            decreases n - j,
        {
            if xs[j] == v {
                c = c + 1;
            }
            j = j + 1;
        }
        if c > best_c {
            best_c = c;
            best_v = v;
        }
        i = i + 1;
    }
    best_v
}

// ---------------------------------------------------------------------------
// Reading the value field
// ---------------------------------------------------------------------------

/// One cut-out glyph: its best digit (if any), mismatch rate `mis / total`,
/// right edge column and height.
pub struct Cell {
    pub d: Option<u8>,
    pub mis: i64,
    pub total: i64,
    pub xb: i32,
    pub hgt: i32,
}

impl Cell {
    pub open spec fn ok(&self) -> bool {
        &&& 0 <= self.mis <= self.total
        &&& 1 <= self.total <= 84
        &&& 0 <= self.xb
        &&& 0 <= self.hgt <= 0x8000_0000
    }
}

/// Row-major index of cell (`y`, `x`) in a grid `w` wide and `h` high.
fn grid_index(y: i32, x: i32, w: usize, h: i32) -> (r: usize)
    requires
        0 <= y < h,
        0 <= x < w,
        w * h <= 0x8000_0000,
    ensures
        r == y * w + x,
        r < w * h,
{
    let yu = y as usize;
    let xu = x as usize;
    proof {
        assert(yu * w + xu < w * h) by (nonlinear_arith)
            requires
                yu == y,
                xu == x,
                0 <= y < h,
                0 <= x < w,
        ;
        assert(0 <= yu * w) by (nonlinear_arith)
            requires
                yu >= 0,
                w >= 0,
        ;
    }
    yu * w + xu
}

/// Candidate order: lower threshold, then longer field, then further right,
/// then lower summed mismatch.
fn key_better(a: (i32, i64, i64, i64), b: (i32, i64, i64, i64)) -> (r: bool)
    ensures
        r == (a.0 < b.0 || (a.0 == b.0 && (a.1 < b.1 || (a.1 == b.1 && (a.2 < b.2 || (a.2 == b.2
            && a.3 < b.3)))))),
{
    if a.0 != b.0 {
        return a.0 < b.0;
    }
    if a.1 != b.1 {
        return a.1 < b.1;
    }
    if a.2 != b.2 {
        return a.2 < b.2;
    }
    a.3 < b.3
}

/// The mask of the strip left of the bracket (`bl` columns of the `bw`-wide
/// luma block): lit where the luma is at least `thr` (polarity 0) or at
/// most `255 − thr` (polarity 1).
pub open spec fn strip_mask(g: Seq<u8>, bw: int, bh: int, bl: int, pol: int, thr: int) -> Seq<bool> {
    Seq::new(
        (bh * bl) as nat,
        |k: int|
            {
                let v = g[(k / bl) * bw + k % bl] as int;
                if pol == 0 {
                    v >= thr
                } else {
                    v <= 255 - thr
                }
            },
    )
}

/// Lit cells among the first `x` of row `y`.
pub open spec fn row_count(white: Seq<bool>, bl: int, y: int, x: int) -> int
    decreases x,
{
    if x <= 0 {
        0
    } else {
        row_count(white, bl, y, x - 1) + (if white[y * bl + x - 1] { 1int } else { 0int })
    }
}

/// Text rows among the first `y`: between 3 and 60 % of the strip lit.
pub open spec fn text_rows_scan(white: Seq<bool>, bl: int, y: int) -> Seq<i32>
    decreases y,
{
    if y <= 0 {
        Seq::empty()
    } else {
        let c = row_count(white, bl, y - 1, bl);
        if 3 <= c <= (6 * bl) / 10 {
            text_rows_scan(white, bl, y - 1).push((y - 1) as i32)
        } else {
            text_rows_scan(white, bl, y - 1)
        }
    }
}

/// Group scan over the first `gi` text rows (gaps of at most two rows join
/// a group): (start of the open group, best candidate so far).
pub open spec fn group_fold(
    white: Seq<bool>,
    bl: int,
    rows: Seq<i32>,
    thr: i32,
    gi: int,
    best0: Option<((i32, i64, i64, i64), i64)>,
) -> (int, Option<((i32, i64, i64, i64), i64)>)
    decreases gi,
{
    if gi <= 0 {
        (0, best0)
    } else {
        let (gs, best) = group_fold(white, bl, rows, thr, gi - 1, best0);
        let i = gi - 1;
        if i + 1 == rows.len() || rows[i + 1] - rows[i] > 2 {
            (i + 1, better_of(best, group_spec(white, bl, rows[gs] as int, rows[i] as int, thr)))
        } else {
            (gs, best)
        }
    }
}

/// Threshold of pass `ti`: 120, 150, 190.
pub open spec fn thr_of(ti: int) -> i32 {
    if ti == 0 {
        120
    } else if ti == 1 {
        150
    } else {
        190
    }
}

/// One pass (polarity, threshold) over the strip.
pub open spec fn pass_spec(
    g: Seq<u8>,
    bw: int,
    bh: int,
    bl: int,
    pol: int,
    ti: int,
    best: Option<((i32, i64, i64, i64), i64)>,
) -> Option<((i32, i64, i64, i64), i64)> {
    let thr = thr_of(ti);
    let white = strip_mask(g, bw, bh, bl, pol, thr as int);
    let rows = text_rows_scan(white, bl, bh);
    if rows.len() > 0 {
        group_fold(white, bl, rows, thr, rows.len() as int, best).1
    } else {
        best
    }
}

/// The best candidate after the first `n` passes (polarity-major).
pub open spec fn passes(g: Seq<u8>, bw: int, bh: int, bl: int, n: int) -> Option<((i32, i64, i64, i64), i64)>
    decreases n,
{
    if n <= 0 {
        None
    } else {
        pass_spec(g, bw, bh, bl, (n - 1) / 3, (n - 1) % 3, passes(g, bw, bh, bl, n - 1))
    }
}

/// The EXP value read left of the bracket.
pub open spec fn band_spec(g: Seq<u8>, bw: int, bh: int, bl: int) -> Option<i64> {
    if bl < 3 {
        None
    } else {
        match passes(g, bw, bh, bl, 6) {
            Some((_, v)) => Some(v),
            None => None,
        }
    }
}

/// Reads the EXP digits left of the `[` (column `bl`) in a bar luma block
/// `g` of `bw × bh`: both polarities, thresholds 120 / 150 / 190; text rows
/// are grouped, glyphs are cut at blank columns, scored against the
/// templates, and the longest run of well-matching glyphs of the common
/// height, nearest the bracket, is taken as the value.
pub fn read_band_left_of_bracket(g: &Vec<u8>, bw: i32, bh: i32, bl: i32) -> (r: Option<i64>)
    requires
        0 <= bl <= bw,
        0 <= bh,
        g@.len() == bw * bh,
        bw * bh <= 0x8000_0000,
    ensures
        bl < 3 ==> r is None,
        r matches Some(v) ==> v >= 0,
        r == band_spec(g@, bw as int, bh as int, bl as int),
{
    if bl < 3 {
        return None;
    }
    let bwu = bw as usize;
    let bhu = bh as usize;
    let blu = bl as usize;
    let glen = g.len();
    proof {
        assert(bl * bh <= bw * bh) by (nonlinear_arith)
            requires
                bl <= bw,
                bh >= 0,
        ;
    }
    let mut best: Option<((i32, i64, i64, i64), i64)> = None;
    let mut pol: u8 = 0;
    while pol < 2
        invariant
            3 <= bl <= bw,
            0 <= bh,
            g@.len() == bw * bh,
            glen == g@.len(),
            bw * bh <= 0x8000_0000,
            bl * bh <= bw * bh,
            bwu == bw,
            bhu == bh,
            blu == bl,
            best matches Some((_, v)) ==> v >= 0,
            pol <= 2,
            best == passes(g@, bw as int, bh as int, bl as int, pol * 3),
        decreases 2 - pol,
    {
        let mut ti: usize = 0;
        while ti < 3
            invariant
                3 <= bl <= bw,
                0 <= bh,
                g@.len() == bw * bh,
                glen == g@.len(),
                bw * bh <= 0x8000_0000,
                bl * bh <= bw * bh,
                bwu == bw,
                bhu == bh,
                blu == bl,
                pol < 2,
                best matches Some((_, v)) ==> v >= 0,
                ti <= 3,
                best == passes(g@, bw as int, bh as int, bl as int, pol * 3 + ti),
            decreases 3 - ti,
        {
            let ghost best0 = best;
            proof {
                lemma_rowmajor(pol as int, ti as int, 3);
            }
            let thr: i32 = if ti == 0 {
                120
            } else if ti == 1 {
                150
            } else {
                190
            };
            // Mask of the strip left of the bracket.
            let mut white: Vec<bool> = Vec::new();
            let mut y: i32 = 0;
            assert(white@ =~= strip_mask(g@, bw as int, bh as int, bl as int, pol as int, thr as int).take(0));
            while y < bh
                invariant
                    3 <= bl <= bw,
                    0 <= bh,
                    g@.len() == bw * bh,
                    bw * bh <= 0x8000_0000,
                    glen == g@.len(),
                    0 <= y <= bh,
                    white@.len() == y * bl,
                    120 <= thr <= 190,
                    pol < 2,
                    white@ == strip_mask(g@, bw as int, bh as int, bl as int, pol as int, thr as int).take(y * bl),
                decreases bh - y,
            {
                let mut x: i32 = 0;
                proof {
                    assert(y * bl + bl <= bh * bl) by (nonlinear_arith)
                        requires
                            0 <= y < bh,
                            bl >= 0,
                    ;
                }
                while x < bl
                    invariant
                        3 <= bl <= bw,
                        0 <= y < bh,
                        g@.len() == bw * bh,
                        bw * bh <= 0x8000_0000,
                        glen == g@.len(),
                        0 <= x <= bl,
                        white@.len() == y * bl + x,
                        120 <= thr <= 190,
                        pol < 2,
                        y * bl + bl <= bh * bl,
                        white@ == strip_mask(g@, bw as int, bh as int, bl as int, pol as int, thr as int).take(
                            y * bl + x,
                        ),
                    decreases bl - x,
                {
                    proof {
                        assert(0 <= y * bw + x < bw * bh) by (nonlinear_arith)
                            requires
                                0 <= y < bh,
                                0 <= x < bl,
                                bl <= bw,
                        ;
                        assert(0 <= y * bw) by (nonlinear_arith)
                            requires
                                y >= 0,
                                bw >= 0,
                        ;
                    }
                    let v = g[grid_index(y, x, bw as usize, bh)] as i32;
                    let ghost before = white@;
                    white.push(if pol == 0 {
                        v >= thr
                    } else {
                        v <= 255 - thr
                    });
                    proof {
                        let m = strip_mask(g@, bw as int, bh as int, bl as int, pol as int, thr as int);
                        lemma_rowmajor(y as int, x as int, bl as int);
                        assert(m.take(y * bl + x + 1) =~= m.take(y * bl + x).push(m[y * bl + x]));
                    }
                    x = x + 1;
                }
                proof {
                    assert((y + 1) * bl == y * bl + bl) by (nonlinear_arith);
                }
                y = y + 1;
            }
            proof {
                assert(y * bl == bl * bh) by (nonlinear_arith)
                    requires
                        y == bh,
                ;
                let m = strip_mask(g@, bw as int, bh as int, bl as int, pol as int, thr as int);
                assert(bh * bl == bl * bh) by (nonlinear_arith);
                assert(m.take(y * bl) =~= m);
            }
            // Text rows: between 3 and 60 % of the strip width lit.
            let hi = (6 * (bl as i64)) / 10;
            let mut rows: Vec<i32> = Vec::new();
            let mut y2: i32 = 0;
            while y2 < bh
                invariant
                    3 <= bl,
                    0 <= bh,
                    white@.len() == bl * bh,
                    bl * bh <= 0x8000_0000,
                    0 <= y2 <= bh,
                    forall|k: int| 0 <= k < rows@.len() ==> 0 <= #[trigger] rows@[k] < y2,
                    forall|a: int, b: int| 0 <= a < b < rows@.len() ==> rows@[a] < rows@[b],
                    rows@ == text_rows_scan(white@, bl as int, y2 as int),
                    hi == (6 * bl) / 10,
                decreases bh - y2,
            {
                let mut c: i64 = 0;
                let mut x: i32 = 0;
                while x < bl
                    invariant
                        3 <= bl,
                        0 <= y2 < bh,
                        white@.len() == bl * bh,
                        bl * bh <= 0x8000_0000,
                        0 <= x <= bl,
                        0 <= c <= x,
                        c == row_count(white@, bl as int, y2 as int, x as int),
                    decreases bl - x,
                {
                    proof {
                        assert(0 <= y2 * bl + x < bl * bh) by (nonlinear_arith)
                            requires
                                0 <= y2 < bh,
                                0 <= x < bl,
                        ;
                        assert(0 <= y2 * bl) by (nonlinear_arith)
                            requires
                                y2 >= 0,
                                bl >= 0,
                        ;
                    }
                    if white[grid_index(y2, x, bl as usize, bh)] {
                        c = c + 1;
                    }
                    x = x + 1;
                }
                if c >= 3 && c <= hi {
                    rows.push(y2);
                }
                y2 = y2 + 1;
            }
            if rows.len() > 0 {
                // Groups of text rows with gaps of at most two.
                let nr = rows.len();
                let mut gs: usize = 0;
                let mut gi: usize = 0;
                while gi < nr
                    invariant
                        3 <= bl <= bw,
                        0 <= bh,
                        white@.len() == bl * bh,
                        bl * bh <= 0x8000_0000,
                        nr == rows@.len(),
                        forall|k: int| 0 <= k < rows@.len() ==> 0 <= #[trigger] rows@[k] < bh,
                        forall|a: int, b: int| 0 <= a < b < rows@.len() ==> rows@[a] < rows@[b],
                        gs <= gi <= nr,
                        best matches Some((_, v)) ==> v >= 0,
                        (gs as int, best) == group_fold(white@, bl as int, rows@, thr, gi as int, best0),
                    decreases nr - gi,
                {
                    let is_end = gi + 1 == nr || rows[gi + 1] - rows[gi] > 2;
                    if is_end {
                        let r0 = rows[gs];
                        let r1 = rows[gi];
                        let cand = read_group(&white, bl, bh, r0, r1, thr);
                        match cand {
                            Some((key, val)) => {
                                let better = match best {
                                    None => true,
                                    Some((bk, _)) => key_better(key, bk),
                                };
                                if better {
                                    best = Some((key, val));
                                }
                            },
                            None => {},
                        }
                        gs = gi + 1;
                    }
                    gi = gi + 1;
                }
            }
            ti = ti + 1;
        }
        pol = pol + 1;
    }
    match best {
        Some((_, v)) => Some(v),
        None => None,
    }
}

/// Some cell of column `x` in rows `r0..y` is lit.
pub open spec fn col_ink(white: Seq<bool>, bl: int, r0: int, y: int, x: int) -> bool
    decreases y - r0,
{
    if y <= r0 {
        false
    } else {
        col_ink(white, bl, r0, y - 1, x) || white[(y - 1) * bl + x]
    }
}

/// Span scan over the first `x` columns: (inside a span, its start, spans closed).
pub open spec fn span_scan(white: Seq<bool>, bl: int, r0: int, r1: int, x: int) -> (bool, int, Seq<(i32, i32)>)
    decreases x,
{
    if x <= 0 {
        (false, 0, Seq::empty())
    } else {
        let (on, st, sp) = span_scan(white, bl, r0, r1, x - 1);
        let c = x - 1;
        if col_ink(white, bl, r0, r1 + 1, c) {
            if on {
                (on, st, sp)
            } else {
                (true, c, sp)
            }
        } else if on {
            (false, st, sp.push((st as i32, (c - 1) as i32)))
        } else {
            (on, st, sp)
        }
    }
}

/// The glyph spans of rows `r0..=r1`: maximal runs of columns with ink.
pub open spec fn spans_spec(white: Seq<bool>, bl: int, r0: int, r1: int) -> Seq<(i32, i32)> {
    let (on, st, sp) = span_scan(white, bl, r0, r1, bl);
    if on {
        sp.push((st as i32, (bl - 1) as i32))
    } else {
        sp
    }
}

/// The glyphs of the first `si` spans that are at least two columns wide
/// and have a glyph.
pub open spec fn cells_scan(white: Seq<bool>, bl: int, r0: int, r1: int, spans: Seq<(i32, i32)>, si: int) -> Seq<Cell>
    decreases si,
{
    if si <= 0 {
        Seq::empty()
    } else {
        let prev = cells_scan(white, bl, r0, r1, spans, si - 1);
        let (xa, xb) = spans[si - 1];
        if xb - xa >= 1 {
            match glyph_spec(white, bl, r0, r1, xa as int, xb) {
                Some(c) => prev.push(c),
                None => prev,
            }
        } else {
            prev
        }
    }
}

/// A glyph that reads as a digit with at most 20 % mismatch.
pub open spec fn cell_good(c: Cell) -> bool {
    c.d is Some && MIS_MAX_DEN * c.mis <= MIS_MAX_NUM * c.total
}

/// Heights of the good glyphs among the first `k`.
pub open spec fn low_scan(cells: Seq<Cell>, k: int) -> Seq<i32>
    decreases k,
{
    if k <= 0 {
        Seq::empty()
    } else if cell_good(cells[k - 1]) {
        low_scan(cells, k - 1).push(cells[k - 1].hgt)
    } else {
        low_scan(cells, k - 1)
    }
}

/// A good glyph within 20 % of the common height.
pub open spec fn cell_fits(c: Cell, hmed: i32) -> bool {
    cell_good(c) && 5 * (if c.hgt >= hmed { c.hgt - hmed } else { hmed - c.hgt }) <= hmed
}

/// The candidate order of [`key_better`].
pub open spec fn key_lt(a: (i32, i64, i64, i64), b: (i32, i64, i64, i64)) -> bool {
    a.0 < b.0 || (a.0 == b.0 && (a.1 < b.1 || (a.1 == b.1 && (a.2 < b.2 || (a.2 == b.2 && a.3 < b.3)))))
}

/// The better of the best so far and a new candidate (the earlier one on ties).
pub open spec fn better_of(best: Option<((i32, i64, i64, i64), i64)>, cand: Option<((i32, i64, i64, i64), i64)>) -> Option<
    ((i32, i64, i64, i64), i64),
> {
    match cand {
        Some((k, v)) => match best {
            None => Some((k, v)),
            Some((bk, bv)) => if key_lt(k, bk) { Some((k, v)) } else { best },
        },
        None => best,
    }
}

/// Run scan over glyph positions `0..q` (position `cells.len()` closes the
/// last run): (best candidate, current run).
pub open spec fn run_scan(cells: Seq<Cell>, hmed: i32, thr: i32, q: int) -> (Option<((i32, i64, i64, i64), i64)>, Seq<usize>)
    decreases q,
{
    if q <= 0 {
        (None, Seq::empty())
    } else {
        let (best, seg) = run_scan(cells, hmed, thr, q - 1);
        let i = q - 1;
        if i < cells.len() && cell_fits(cells[i], hmed) {
            (best, seg.push(i as usize))
        } else if seg.len() > 0 {
            (better_of(best, field_spec(cells, seg, thr)), Seq::empty())
        } else {
            (best, seg)
        }
    }
}

/// The best value field of row group `r0..=r1` at threshold `thr`.
pub open spec fn group_spec(white: Seq<bool>, bl: int, r0: int, r1: int, thr: i32) -> Option<((i32, i64, i64, i64), i64)> {
    let spans = spans_spec(white, bl, r0, r1);
    let cells = cells_scan(white, bl, r0, r1, spans, spans.len() as int);
    let low = low_scan(cells, cells.len() as int);
    if low.len() == 0 {
        None
    } else {
        run_scan(cells, mode_spec(low), thr, cells.len() as int + 1).0
    }
}

proof fn lemma_col_ink_mono(white: Seq<bool>, bl: int, r0: int, y: int, z: int, x: int)
    requires
        r0 <= y <= z,
        col_ink(white, bl, r0, y, x),
    ensures
        col_ink(white, bl, r0, z, x),
    decreases z - y,
{
    if y < z {
        lemma_col_ink_mono(white, bl, r0, y, z - 1, x);
    }
}

/// One row group `r0..=r1` of the strip mask: cut glyphs, score them, and
/// return the group's best value field as (key, value).
fn read_group(white: &Vec<bool>, bl: i32, bh: i32, r0: i32, r1: i32, thr: i32) -> (r: Option<
    ((i32, i64, i64, i64), i64),
>)
    requires
        3 <= bl,
        0 <= r0 <= r1 < bh,
        white@.len() == bl * bh,
        bl * bh <= 0x8000_0000,
    ensures
        r matches Some((k, v)) ==> v >= 0 && k.0 == thr,
        r == group_spec(white@, bl as int, r0 as int, r1 as int, thr),
{
    let blu = bl as usize;
    // Blank columns across the whole group split the glyphs.
    let mut spans: Vec<(i32, i32)> = Vec::new();
    let mut on = false;
    let mut st: i32 = 0;
    let mut x: i32 = 0;
    while x < bl
        invariant
            3 <= bl,
            0 <= r0 <= r1 < bh,
            white@.len() == bl * bh,
            bl * bh <= 0x8000_0000,
            0 <= x <= bl,
            on ==> 0 <= st < x,
            spans@.len() <= x,
            on ==> spans@.len() < x,
            forall|k: int| 0 <= k < spans@.len() ==> 0 <= (#[trigger] spans@[k]).0 <= spans@[k].1 < bl,
            (on, st as int, spans@) == span_scan(white@, bl as int, r0 as int, r1 as int, x as int),
        decreases bl - x,
    {
        let mut any = false;
        let mut y = r0;
        while y <= r1 && !any
            invariant
                3 <= bl,
                0 <= r0 <= r1 < bh,
                white@.len() == bl * bh,
                bl * bh <= 0x8000_0000,
                0 <= x < bl,
                r0 <= y <= r1 + 1,
                any == col_ink(white@, bl as int, r0 as int, y as int, x as int),
            decreases r1 + 1 - y,
        {
            proof {
                assert(0 <= y * bl + x < bl * bh) by (nonlinear_arith)
                    requires
                        0 <= y < bh,
                        0 <= x < bl,
                ;
                assert(0 <= y * bl) by (nonlinear_arith)
                    requires
                        y >= 0,
                        bl >= 0,
                ;
            }
            if white[grid_index(y, x, bl as usize, bh)] {
                any = true;
            }
            y = y + 1;
        }
        proof {
            if any {
                lemma_col_ink_mono(white@, bl as int, r0 as int, y as int, r1 + 1, x as int);
            }
        }
        if any {
            if !on {
                st = x;
                on = true;
            }
        } else if on {
            spans.push((st, x - 1));
            on = false;
        }
        x = x + 1;
    }
    if on {
        spans.push((st, bl - 1));
    }
    assert(spans@ == spans_spec(white@, bl as int, r0 as int, r1 as int));
    // Cut and score each glyph.
    let mut cells: Vec<Cell> = Vec::new();
    let mut si: usize = 0;
    while si < spans.len()
        invariant
            3 <= bl,
            0 <= r0 <= r1 < bh,
            white@.len() == bl * bh,
            bl * bh <= 0x8000_0000,
            si <= spans@.len(),
            forall|k: int| 0 <= k < spans@.len() ==> 0 <= (#[trigger] spans@[k]).0 <= spans@[k].1 < bl,
            forall|k: int| 0 <= k < cells@.len() ==> (#[trigger] cells@[k]).ok(),
            spans@.len() <= bl,
            cells@.len() <= si,
            cells@ == cells_scan(white@, bl as int, r0 as int, r1 as int, spans@, si as int),
        decreases spans@.len() - si,
    {
        let (xa, xb) = spans[si];
        if xb - xa >= 1 {
            match cut_glyph(white, bl, bh, r0, r1, xa, xb) {
                Some(c) => cells.push(c),
                None => {},
            }
        }
        si = si + 1;
    }
    // Common height of the well-matching glyphs.
    let mut low_h: Vec<i32> = Vec::new();
    let mut k: usize = 0;
    while k < cells.len()
        invariant
            k <= cells@.len(),
            forall|q: int| 0 <= q < cells@.len() ==> (#[trigger] cells@[q]).ok(),
            forall|q: int| 0 <= q < low_h@.len() ==> 0 <= #[trigger] low_h@[q] <= 0x8000_0000,
            low_h@ == low_scan(cells@, k as int),
        decreases cells@.len() - k,
    {
        let c = &cells[k];
        if c.d.is_some() && MIS_MAX_DEN * c.mis <= MIS_MAX_NUM * c.total {
            low_h.push(c.hgt);
        }
        k = k + 1;
    }
    if low_h.len() == 0 {
        return None;
    }
    let hmed = mode(&low_h);
    proof {
        lemma_mode_member(low_h@);
    }
    // Runs of consecutive acceptable glyphs are candidate value fields.
    let mut best: Option<((i32, i64, i64, i64), i64)> = None;
    let mut seg: Vec<usize> = Vec::new();
    let mut q: usize = 0;
    let nc = cells.len();
    while q <= nc
        invariant
            q <= nc + 1,
            nc == cells@.len(),
            nc <= bl,
            bl * bh <= 0x8000_0000,
            3 <= bl,
            0 <= r0 <= r1 < bh,
            seg@.len() <= q,
            forall|p: int| 0 <= p < cells@.len() ==> (#[trigger] cells@[p]).ok(),
            forall|p: int| 0 <= p < seg@.len() ==> #[trigger] seg@[p] < nc,
            forall|p: int| 0 <= p < seg@.len() ==> cells@[seg@[p] as int].d is Some,
            0 <= hmed <= 0x8000_0000,
            best matches Some((kk, v)) ==> v >= 0 && kk.0 == thr,
            hmed == mode_spec(low_h@),
            (best, seg@) == run_scan(cells@, hmed, thr, q as int),
        decreases nc + 1 - q,
    {
        let ok = if q < nc {
            let c = &cells[q];
            let dh = (c.hgt as i64) - (hmed as i64);
            let adh = if dh < 0 {
                -dh
            } else {
                dh
            };
            c.d.is_some() && MIS_MAX_DEN * c.mis <= MIS_MAX_NUM * c.total && 5 * adh <= hmed as i64
        } else {
            false
        };
        if ok {
            seg.push(q);
        } else if seg.len() > 0 {
            match field_candidate(&cells, &seg, thr) {
                Some((key, val)) => {
                    let better = match best {
                        None => true,
                        Some((bk, _)) => key_better(key, bk),
                    };
                    if better {
                        best = Some((key, val));
                    }
                },
                None => {},
            }
            seg = Vec::new();
        }
        q = q + 1;
    }
    best
}

proof fn lemma_mode_scan_member(xs: Seq<i32>, i: int, best_c: nat, best_v: i32)
    requires
        0 <= i,
        exists|k: int| 0 <= k < xs.len() && xs[k] == best_v,
    ensures
        exists|k: int| 0 <= k < xs.len() && xs[k] == mode_scan(xs, i, best_c, best_v),
    decreases xs.len() - i,
{
    if i < xs.len() {
        let c = occurrences(xs, xs[i], xs.len() as int);
        if c > best_c {
            lemma_mode_scan_member(xs, i + 1, c, xs[i]);
        } else {
            lemma_mode_scan_member(xs, i + 1, best_c, best_v);
        }
    }
}

/// The mode is one of the values.
pub proof fn lemma_mode_member(xs: Seq<i32>)
    requires
        xs.len() > 0,
    ensures
        exists|k: int| 0 <= k < xs.len() && xs[k] == mode_spec(xs),
{
    lemma_mode_scan_member(xs, 0, 0, xs[0]);
}

/// Ink box of the first `k` cells (row-major) of the `wc`-wide window at
/// row `r0`, column `xa` of the strip mask: (top, bottom, left, right),
/// each −1 while no cell is lit.
pub open spec fn glyph_box(white: Seq<bool>, bl: int, r0: int, xa: int, wc: int, k: int) -> (int, int, int, int)
    decreases k,
{
    if k <= 0 || wc <= 0 {
        (-1, -1, -1, -1)
    } else {
        let (t, b, l, r) = glyph_box(white, bl, r0, xa, wc, k - 1);
        let ii = (k - 1) / wc;
        let jj = (k - 1) % wc;
        if white[(r0 + ii) * bl + xa + jj] {
            (if t == -1 { ii } else { t }, ii, if l == -1 || jj < l { jj } else { l }, if jj > r { jj } else { r })
        } else {
            (t, b, l, r)
        }
    }
}

/// The glyph cropped to its ink box, one byte per cell (1 = lit).
pub open spec fn glyph_crop(white: Seq<bool>, bl: int, y0: int, x0: int, sh: int, sw: int) -> Seq<u8> {
    Seq::new((sh * sw) as nat, |k: int| if white[(y0 + k / sw) * bl + x0 + k % sw] { 1u8 } else { 0u8 })
}

/// The glyph in columns `xa..=xb` of rows `r0..=r1`, as cut and scored.
pub open spec fn glyph_spec(white: Seq<bool>, bl: int, r0: int, r1: int, xa: int, xb: i32) -> Option<Cell> {
    let gh = r1 - r0 + 1;
    let wc = xb - xa + 1;
    let (top, bot, left, right) = glyph_box(white, bl, r0, xa, wc, gh * wc);
    if top == -1 || bot - top + 1 < 3 {
        None
    } else {
        let sh = bot - top + 1;
        let sw = right - left + 1;
        let crop = glyph_crop(white, bl, r0 + top, xa + left, sh, sw);
        Some(
            match ocr_spec(crop, sh, sw) {
                Some((d, m, t)) => Cell { d: Some(d as u8), mis: m as i64, total: t as i64, xb, hgt: sh as i32 },
                None => Cell { d: None, mis: 1, total: 1, xb, hgt: sh as i32 },
            },
        )
    }
}

proof fn lemma_rowmajor(a: int, b: int, w: int)
    requires
        0 <= b < w,
    ensures
        (a * w + b) / w == a,
        (a * w + b) % w == b,
{
    vstd::arithmetic::div_mod::lemma_fundamental_div_mod_converse(a * w + b, w, a, b);
}

/// The glyph in columns `xa..=xb` of rows `r0..=r1`: cropped to its ink box,
/// scored against the templates. `None` when it has no ink or is under 3 rows.
fn cut_glyph(white: &Vec<bool>, bl: i32, bh: i32, r0: i32, r1: i32, xa: i32, xb: i32) -> (r:
    Option<Cell>)
    requires
        3 <= bl,
        0 <= r0 <= r1 < bh,
        0 <= xa < xb < bl,
        white@.len() == bl * bh,
        bl * bh <= 0x8000_0000,
    ensures
        r matches Some(c) ==> c.ok() && c.xb == xb,
        r == glyph_spec(white@, bl as int, r0 as int, r1 as int, xa as int, xb),
{
    let blu = bl as usize;
    let gh = (r1 - r0 + 1) as usize;
    let wc = (xb - xa + 1) as usize;
    // Ink rows and columns inside the span.
    let mut top: i64 = -1;
    let mut bot: i64 = -1;
    let mut left: i64 = -1;
    let mut right: i64 = -1;
    let mut ii: usize = 0;
    while ii < gh
        invariant
            3 <= bl,
            0 <= r0 <= r1 < bh,
            0 <= xa < xb < bl,
            white@.len() == bl * bh,
            bl * bh <= 0x8000_0000,
            gh == r1 - r0 + 1,
            wc == xb - xa + 1,
            ii <= gh,
            top == -1 <==> bot == -1,
            top == -1 <==> left == -1,
            left == -1 <==> right == -1,
            top != -1 ==> 0 <= top <= bot < ii,
            left != -1 ==> 0 <= left <= right < wc,
            (top as int, bot as int, left as int, right as int) == glyph_box(
                white@,
                bl as int,
                r0 as int,
                xa as int,
                wc as int,
                ii * wc,
            ),
        decreases gh - ii,
    {
        let y = r0 + ii as i32;
        let mut jj: usize = 0;
        while jj < wc
            invariant
                3 <= bl,
                0 <= r0 <= r1 < bh,
                0 <= xa < xb < bl,
                white@.len() == bl * bh,
                bl * bh <= 0x8000_0000,
                gh == r1 - r0 + 1,
                wc == xb - xa + 1,
                ii < gh,
                y == r0 + ii,
                jj <= wc,
                top == -1 <==> bot == -1,
                top == -1 <==> left == -1,
                left == -1 <==> right == -1,
                top != -1 ==> 0 <= top <= bot <= ii,
                left != -1 ==> 0 <= left <= right < wc,
                (top as int, bot as int, left as int, right as int) == glyph_box(
                    white@,
                    bl as int,
                    r0 as int,
                    xa as int,
                    wc as int,
                    ii * wc + jj,
                ),
            decreases wc - jj,
        {
            proof {
                lemma_rowmajor(ii as int, jj as int, wc as int);
            }
            proof {
                assert(0 <= y * bl + xa + jj < bl * bh) by (nonlinear_arith)
                    requires
                        0 <= y < bh,
                        0 <= xa + jj < bl,
                ;
                assert(0 <= y * bl) by (nonlinear_arith)
                    requires
                        y >= 0,
                        bl >= 0,
                ;
            }
            if white[grid_index(y, xa + jj as i32, bl as usize, bh)] {
                if top == -1 {
                    top = ii as i64;
                }
                bot = ii as i64;
                if left == -1 || (jj as i64) < left {
                    left = jj as i64;
                }
                if (jj as i64) > right {
                    right = jj as i64;
                }
            }
            jj = jj + 1;
        }
        proof {
            assert((ii + 1) * wc == ii * wc + wc) by (nonlinear_arith);
        }
        ii = ii + 1;
    }
    if top == -1 {
        return None;
    }
    let hgt = bot - top + 1;
    if hgt < 3 {
        return None;
    }
    let sh = (bot - top + 1) as i32;
    let sw = (right - left + 1) as i32;
    proof {
        assert(sh <= bh && sw <= bl);
        assert(sh * sw <= bl * bh) by (nonlinear_arith)
            requires
                1 <= sh <= bh,
                1 <= sw <= bl,
        ;
    }
    // The glyph cropped to its ink box.
    let mut src: Vec<u8> = Vec::new();
    let mut a: i32 = 0;
    while a < sh
        invariant
            3 <= bl,
            0 <= r0 <= r1 < bh,
            0 <= xa < xb < bl,
            white@.len() == bl * bh,
            bl * bh <= 0x8000_0000,
            0 <= top <= bot < gh,
            gh == r1 - r0 + 1,
            wc == xb - xa + 1,
            0 <= left <= right < wc,
            sh == bot - top + 1,
            sw == right - left + 1,
            1 <= sh,
            1 <= sw,
            0 <= a <= sh,
            src@.len() == a * sw,
            forall|k: int| 0 <= k < src@.len() ==> src@[k] <= 1,
            src@ == glyph_crop(white@, bl as int, r0 + top, xa + left, sh as int, sw as int).take(a * sw),
        decreases sh - a,
    {
        let y = r0 + (top as i32) + a;
        proof {
            assert(a * sw + sw <= sh * sw) by (nonlinear_arith)
                requires
                    0 <= a < sh,
                    sw >= 1,
            ;
        }
        let mut b: i32 = 0;
        while b < sw
            invariant
                3 <= bl,
                0 <= r0 <= r1 < bh,
                0 <= xa < xb < bl,
                white@.len() == bl * bh,
                bl * bh <= 0x8000_0000,
                0 <= top <= bot < gh,
                gh == r1 - r0 + 1,
                wc == xb - xa + 1,
                0 <= left <= right < wc,
                sh == bot - top + 1,
                sw == right - left + 1,
                0 <= a < sh,
                y == r0 + top + a,
                0 <= b <= sw,
                src@.len() == a * sw + b,
                forall|k: int| 0 <= k < src@.len() ==> src@[k] <= 1,
                a * sw + sw <= sh * sw,
                src@ == glyph_crop(white@, bl as int, r0 + top, xa + left, sh as int, sw as int).take(a * sw + b),
            decreases sw - b,
        {
            let xx = xa + (left as i32) + b;
            proof {
                assert(0 <= y * bl + xx < bl * bh) by (nonlinear_arith)
                    requires
                        0 <= y < bh,
                        0 <= xx < bl,
                ;
                assert(0 <= y * bl) by (nonlinear_arith)
                    requires
                        y >= 0,
                        bl >= 0,
                ;
            }
            let v: u8 = if white[grid_index(y, xx, bl as usize, bh)] {
                1
            } else {
                0
            };
            let ghost before = src@;
            src.push(v);
            proof {
                let crop = glyph_crop(white@, bl as int, r0 + top, xa + left, sh as int, sw as int);
                lemma_rowmajor(a as int, b as int, sw as int);
                assert(crop.take(a * sw + b + 1) =~= crop.take(a * sw + b).push(crop[a * sw + b]));
            }
            b = b + 1;
        }
        proof {
            assert((a + 1) * sw == a * sw + sw) by (nonlinear_arith);
        }
        a = a + 1;
    }
    proof {
        assert(a * sw == sh * sw) by (nonlinear_arith)
            requires
                a == sh,
        ;
        let crop = glyph_crop(white@, bl as int, r0 + top, xa + left, sh as int, sw as int);
        assert(crop.take(sh * sw) =~= crop);
    }
    let scored = ocr_cell(&src, sh, sw);
    let (d, mis, total) = match scored {
        Some((dd, m, t)) => (Some(dd), m, t),
        None => (None, 1, 1),
    };
    Some(Cell { d, mis, total, xb, hgt: hgt as i32 })
}

/// The digit of a glyph (0 when it has none).
pub open spec fn cell_digit(c: Cell) -> int {
    match c.d {
        Some(x) => x as int,
        None => 0,
    }
}

/// Value and summed mismatch (in 1/70 units) of the first `i` glyphs of a
/// run, or `None` when the value leaves the `i64` range on the way.
pub open spec fn field_fold(cells: Seq<Cell>, seg: Seq<usize>, i: int) -> Option<(int, int)>
    decreases i,
{
    if i <= 0 {
        Some((0, 0))
    } else {
        match field_fold(cells, seg, i - 1) {
            None => None,
            Some((val, sum)) => {
                let c = cells[seg[i - 1] as int];
                let d = cell_digit(c);
                if val > (i64::MAX - d) / 10 {
                    None
                } else {
                    Some((val * 10 + d, sum + (c.mis * RATE_UNIT) / (c.total as int)))
                }
            },
        }
    }
}

proof fn lemma_fold_none(cells: Seq<Cell>, seg: Seq<usize>, i: int, j: int)
    requires
        0 <= i <= j,
        field_fold(cells, seg, i) is None,
    ensures
        field_fold(cells, seg, j) is None,
    decreases j - i,
{
    if i < j {
        lemma_fold_none(cells, seg, i, j - 1);
    }
}

/// A run's candidate: key (threshold, −length, −right edge, summed
/// mismatch) and value.
pub open spec fn field_spec(cells: Seq<Cell>, seg: Seq<usize>, thr: i32) -> Option<((i32, i64, i64, i64), i64)> {
    match field_fold(cells, seg, seg.len() as int) {
        None => None,
        Some((val, sum)) => Some(
            ((thr, (-(seg.len() as int)) as i64, (-(cells[seg.last() as int].xb as int)) as i64, sum as i64), val as i64),
        ),
    }
}

/// A run of glyphs as a candidate field: key (threshold, −length, −right
/// edge, summed mismatch in 1/70 units) and value; `None` when the digits
/// overflow an `i64`.
fn field_candidate(cells: &Vec<Cell>, seg: &Vec<usize>, thr: i32) -> (r: Option<
    ((i32, i64, i64, i64), i64),
>)
    requires
        0 < seg@.len() <= 0x8000_0000,
        forall|p: int| 0 <= p < cells@.len() ==> (#[trigger] cells@[p]).ok(),
        forall|p: int| 0 <= p < seg@.len() ==> #[trigger] seg@[p] < cells@.len(),
        forall|p: int| 0 <= p < seg@.len() ==> cells@[seg@[p] as int].d is Some,
    ensures
        r matches Some((k, v)) ==> v >= 0 && k.0 == thr,
        r == field_spec(cells@, seg@, thr),
{
    let n = seg.len();
    let mut val: i64 = 0;
    let mut sum: i64 = 0;
    let mut i: usize = 0;
    while i < n
        invariant
            n == seg@.len(),
            i <= n,
            forall|p: int| 0 <= p < cells@.len() ==> (#[trigger] cells@[p]).ok(),
            forall|p: int| 0 <= p < seg@.len() ==> #[trigger] seg@[p] < cells@.len(),
            forall|p: int| 0 <= p < seg@.len() ==> cells@[seg@[p] as int].d is Some,
            0 <= val,
            0 <= sum <= i * RATE_UNIT,
            n <= 0x8000_0000,
            field_fold(cells@, seg@, i as int) == Some((val as int, sum as int)),
        decreases n - i,
    {
        let c = &cells[seg[i]];
        let d = match c.d {
            Some(dd) => dd as i64,
            None => 0,
        };
        if val > (i64::MAX - d) / 10 {
            proof {
                lemma_fold_none(cells@, seg@, i + 1, n as int);
            }
            return None;
        }
        val = val * 10 + d;
        proof {
            let m = c.mis as int;
            let t = c.total as int;
            assert(0 <= m * 70 <= t * 70) by (nonlinear_arith)
                requires
                    0 <= m <= t,
            ;
            assert(0 <= (m * 70) / t <= 70) by (nonlinear_arith)
                requires
                    0 <= m * 70 <= t * 70,
                    t >= 1,
            ;
        }
        sum = sum + (c.mis * RATE_UNIT) / c.total;
        i = i + 1;
    }
    let right = cells[seg[n - 1]].xb as i64;
    Some(((thr, -(n as i64), -right, sum), val))
}

/// The digits of the glyphs of a run, in the run's order.
pub open spec fn run_digits(cells: Seq<Cell>, seg: Seq<usize>) -> Seq<int> {
    Seq::new(seg.len(), |i: int| cell_digit(cells[seg[i] as int]))
}

/// The number the first `n` digits spell, the first digit most
/// significant: the sum of `ds[i] * 10^(n - 1 - i)` for `i` from `k` on.
pub open spec fn place_sum(ds: Seq<int>, n: int, k: int) -> int
    decreases n - k,
{
    if k >= n {
        0
    } else {
        ds[k] * pow10((n - 1 - k) as nat) + place_sum(ds, n, k + 1)
    }
}

/// One more digit on the right: ten times the number, plus the digit.
proof fn lemma_place_sum_push(ds: Seq<int>, n: int, k: int)
    requires
        0 <= k <= n,
    ensures
        place_sum(ds, n + 1, k) == 10 * place_sum(ds, n, k) + ds[n],
    decreases n - k,
{
    assert(place_sum(ds, n + 1, n + 1) == 0);
    if k == n {
        assert(pow10(0) == 1);
        assert(place_sum(ds, n + 1, n) == ds[n] * pow10(0) + place_sum(ds, n + 1, n + 1));
    } else {
        lemma_place_sum_push(ds, n, k + 1);
        assert(place_sum(ds, n + 1, k) == ds[k] * pow10((n + 1 - 1 - k) as nat) + place_sum(ds, n + 1, k + 1));
        assert(place_sum(ds, n, k) == ds[k] * pow10((n - 1 - k) as nat) + place_sum(ds, n, k + 1));
        assert(pow10((n - k) as nat) == 10 * pow10((n - 1 - k) as nat));
        assert(ds[k] * pow10((n - k) as nat) == 10 * (ds[k] * pow10((n - 1 - k) as nat))) by (nonlinear_arith)
            requires
                pow10((n - k) as nat) == 10 * pow10((n - 1 - k) as nat),
        ;
    }
}

proof fn lemma_fold_place_value(cells: Seq<Cell>, seg: Seq<usize>, i: int)
    requires
        0 <= i <= seg.len(),
    ensures
        field_fold(cells, seg, i) is Some <==> place_sum(run_digits(cells, seg), i, 0) <= i64::MAX,
        field_fold(cells, seg, i) matches Some((v, _)) ==> v == place_sum(run_digits(cells, seg), i, 0),
        place_sum(run_digits(cells, seg), i, 0) >= 0,
    decreases i,
{
    let ds = run_digits(cells, seg);
    if i == 0 {
        assert(place_sum(ds, 0, 0) == 0);
    } else {
        lemma_fold_place_value(cells, seg, i - 1);
        lemma_place_sum_push(ds, i - 1, 0);
        let p = place_sum(ds, i - 1, 0);
        let d = cell_digit(cells[seg[i - 1] as int]);
        assert(0 <= d <= 255);
        assert(ds[i - 1] == d);
        match field_fold(cells, seg, i - 1) {
            Some((val, _)) => {
                assert(val > (i64::MAX - d) / 10 <==> 10 * p + d > i64::MAX) by (nonlinear_arith)
                    requires
                        val == p,
                        0 <= d <= 255,
                ;
            },
            None => {
                assert(10 * p + d > i64::MAX) by (nonlinear_arith)
                    requires
                        p > i64::MAX,
                        0 <= d,
                ;
            },
        }
    }
}

/// Law: the value of a run of glyphs is the decimal number its digits
/// spell read left to right in the run's order: the sum of each digit
/// times ten to the number of digits after it (glyphs 5, 2, 7 give 527).
/// The run is a candidate exactly when that number fits in an `i64`; its
/// key holds the threshold, the run's length (negated) and its last glyph's
/// right edge (negated), so longer and then further-right runs rank first.
pub proof fn lemma_field_value(cells: Seq<Cell>, seg: Seq<usize>, thr: i32)
    requires
        0 < seg.len() <= 0x8000_0000,
    ensures
        field_spec(cells, seg, thr) is Some <==> place_sum(run_digits(cells, seg), seg.len() as int, 0)
            <= i64::MAX,
        field_spec(cells, seg, thr) matches Some((k, v)) ==> {
            &&& v == place_sum(run_digits(cells, seg), seg.len() as int, 0)
            &&& k.0 == thr
            &&& k.1 == -(seg.len() as int)
            &&& k.2 == -(cells[seg[seg.len() - 1] as int].xb as int)
        },
{
    lemma_fold_place_value(cells, seg, seg.len() as int);
    assert(seg.last() == seg[seg.len() - 1]);
}

/// `m / t < m2 / t2` and `m2 / t2 <= m3 / t3` give `m / t < m3 / t3`
/// (positive denominators); likewise with `<=` throughout.
proof fn lemma_rate_trans(m: int, t: int, m2: int, t2: int, m3: int, t3: int)
    requires
        t > 0,
        t2 > 0,
        t3 > 0,
        m * t2 <= m2 * t,
        m2 * t3 <= m3 * t2,
    ensures
        m * t3 <= m3 * t,
        m * t2 < m2 * t ==> m * t3 < m3 * t,
{
    assert(m * t2 * t3 <= m2 * t * t3) by (nonlinear_arith)
        requires
            m * t2 <= m2 * t,
            t3 > 0,
    ;
    assert(m2 * t3 * t <= m3 * t2 * t) by (nonlinear_arith)
        requires
            m2 * t3 <= m3 * t2,
            t > 0,
    ;
    assert(m * t3 <= m3 * t) by (nonlinear_arith)
        requires
            m * t2 * t3 <= m2 * t * t3,
            m2 * t3 * t <= m3 * t2 * t,
            t2 > 0,
    ;
    if m * t2 < m2 * t {
        assert(m * t2 * t3 < m2 * t * t3) by (nonlinear_arith)
            requires
                m * t2 < m2 * t,
                t3 > 0,
        ;
        assert(m * t3 < m3 * t) by (nonlinear_arith)
            requires
                m * t2 * t3 < m2 * t * t3,
                m2 * t3 * t <= m3 * t2 * t,
                t2 > 0,
        ;
    }
}

/// A template's rate has a positive number of cells.
proof fn lemma_glyph_rate_pos(src: Seq<u8>, sh: int, sw: int, d: int)
    ensures
        glyph_rate(src, sh, sw, d) matches Some((m, t)) ==> t >= 1 && m >= 0,
{
    let (tt, l, th, tw) = tpl_box(d);
    if th > 0 && tw > 0 {
        assert(th * tw >= 1) by (nonlinear_arith)
            requires
                th >= 1,
                tw >= 1,
        ;
    }
}

/// The template scan from `d` on, with the best so far being the first
/// lowest rate among the templates before `d`.
proof fn lemma_ocr_scan_best(src: Seq<u8>, sh: int, sw: int, d: int, best: Option<(int, int, int)>)
    requires
        0 <= d <= 10,
        best is None ==> forall|e: int| 0 <= e < d ==> glyph_rate(src, sh, sw, e) is None,
        best matches Some((bd, bm, bt)) ==> {
            &&& 0 <= bd < d
            &&& glyph_rate(src, sh, sw, bd) == Some((bm, bt))
            &&& bt >= 1
            &&& forall|e: int| 0 <= e < bd ==> ((#[trigger] glyph_rate(src, sh, sw, e)) matches Some((m2, t2)) ==> bm * t2 < m2 * bt)
            &&& forall|e: int| bd < e < d ==> ((#[trigger] glyph_rate(src, sh, sw, e)) matches Some((m2, t2)) ==> bm * t2 <= m2 * bt)
        },
    ensures
        ocr_scan(src, sh, sw, d, best) is None ==> forall|e: int| 0 <= e < 10 ==> glyph_rate(src, sh, sw, e) is None,
        ocr_scan(src, sh, sw, d, best) matches Some((rd, rm, rt)) ==> {
            &&& 0 <= rd < 10
            &&& glyph_rate(src, sh, sw, rd) == Some((rm, rt))
            &&& forall|e: int| 0 <= e < rd ==> ((#[trigger] glyph_rate(src, sh, sw, e)) matches Some((m2, t2)) ==> rm * t2 < m2 * rt)
            &&& forall|e: int| rd < e < 10 ==> ((#[trigger] glyph_rate(src, sh, sw, e)) matches Some((m2, t2)) ==> rm * t2 <= m2 * rt)
        },
    decreases 10 - d,
{
    if d < 10 {
        lemma_glyph_rate_pos(src, sh, sw, d);
        match glyph_rate(src, sh, sw, d) {
            None => {
                lemma_ocr_scan_best(src, sh, sw, d + 1, best);
            },
            Some((m, t)) => {
                let take = match best {
                    None => true,
                    Some((_, bm, bt)) => m * bt < bm * t,
                };
                if take {
                    match best {
                        None => {},
                        Some((bd, bm, bt)) => {
                            assert forall|e: int| 0 <= e < d implies ((#[trigger] glyph_rate(src, sh, sw, e)) matches Some((m2, t2))
                                ==> m * t2 < m2 * t) by {
                                lemma_glyph_rate_pos(src, sh, sw, e);
                                if glyph_rate(src, sh, sw, e) is Some {
                                    let (m2, t2) = glyph_rate(src, sh, sw, e)->0;
                                    if e == bd {
                                    } else if e < bd {
                                        lemma_rate_trans(m, t, bm, bt, m2, t2);
                                        assert(bm * t2 <= m2 * bt);
                                    } else {
                                        lemma_rate_trans(m, t, bm, bt, m2, t2);
                                    }
                                }
                            }
                        },
                    }
                    lemma_ocr_scan_best(src, sh, sw, d + 1, Some((d, m, t)));
                } else {
                    let (bd, bm, bt) = best->0;
                    assert(bm * t <= m * bt);
                    lemma_ocr_scan_best(src, sh, sw, d + 1, best);
                }
            },
        }
    }
}

/// Law: a glyph reads as the template whose mismatch rate with it is lowest:
/// the reported (mismatching cells, cells) are that template's own, no
/// template has a lower rate, and every earlier digit has a higher one (the
/// first digit wins ties). `None` only when no template has ink.
pub proof fn lemma_ocr_best_template(src: Seq<u8>, sh: int, sw: int)
    ensures
        ocr_spec(src, sh, sw) is None ==> forall|e: int| 0 <= e < 10 ==> glyph_rate(src, sh, sw, e) is None,
        ocr_spec(src, sh, sw) matches Some((d, m, t)) ==> {
            &&& 0 <= d < 10
            &&& glyph_rate(src, sh, sw, d) == Some((m, t))
            &&& forall|e: int| 0 <= e < d ==> ((#[trigger] glyph_rate(src, sh, sw, e)) matches Some((m2, t2)) ==> m * t2 < m2 * t)
            &&& forall|e: int| d < e < 10 ==> ((#[trigger] glyph_rate(src, sh, sw, e)) matches Some((m2, t2)) ==> m * t2 <= m2 * t)
        },
{
    lemma_ocr_scan_best(src, sh, sw, 0, None);
}

/// The digits of the `n` glyphs from `j` on, left to right.
pub open spec fn digits_from(cells: Seq<Cell>, j: int, n: int) -> Seq<int> {
    Seq::new(n as nat, |i: int| cell_digit(cells[j + i]))
}

/// `v` is the number spelled by some run of adjacent glyphs, all of the
/// run's height, read left to right.
pub open spec fn spelled_by_run(cells: Seq<Cell>, hmed: i32, v: int) -> bool {
    exists|j: int, n: int|
        #![trigger digits_from(cells, j, n)]
        0 <= j && 1 <= n && j + n <= cells.len() && (forall|i: int| j <= i < j + n ==> cell_fits(
            #[trigger] cells[i],
            hmed,
        )) && v == place_sum(digits_from(cells, j, n), n, 0)
}

proof fn lemma_run_scan_runs(cells: Seq<Cell>, hmed: i32, thr: i32, q: int)
    requires
        0 <= q <= cells.len() + 1,
        cells.len() < 0x8000_0000,
    ensures
        ({
            let (best, seg) = run_scan(cells, hmed, thr, q);
            &&& seg.len() <= q
            &&& forall|i: int| 0 <= i < seg.len() ==> #[trigger] seg[i] == q - seg.len() + i
            &&& forall|i: int| 0 <= i < seg.len() ==> seg[i] < cells.len() && cell_fits(cells[seg[i] as int], hmed)
            &&& best matches Some((_, v)) ==> spelled_by_run(cells, hmed, v as int)
        }),
    decreases q,
{
    if q > 0 {
        lemma_run_scan_runs(cells, hmed, thr, q - 1);
        let (best, seg) = run_scan(cells, hmed, thr, q - 1);
        let i = q - 1;
        if i < cells.len() && cell_fits(cells[i], hmed) {
            let seg2 = seg.push(i as usize);
            assert forall|k: int| 0 <= k < seg2.len() implies #[trigger] seg2[k] == q - seg2.len() + k by {
                if k < seg.len() {
                    assert(seg2[k] == seg[k]);
                }
            }
        } else if seg.len() > 0 {
            let n = seg.len() as int;
            let j = q - 1 - n;
            lemma_field_value(cells, seg, thr);
            assert(run_digits(cells, seg) =~= digits_from(cells, j, n)) by {
                assert forall|k: int| 0 <= k < n implies run_digits(cells, seg)[k] == digits_from(cells, j, n)[k] by {
                    assert(seg[k] == q - 1 - n + k);
                }
            }
            match field_spec(cells, seg, thr) {
                Some((k, v)) => {
                    assert forall|x: int| j <= x < j + n implies cell_fits(#[trigger] cells[x], hmed) by {
                        assert(seg[x - j] == x);
                    }
                    assert(spelled_by_run(cells, hmed, v as int)) by {
                        assert(v as int == place_sum(digits_from(cells, j, n), n, 0));
                    }
                },
                None => {},
            }
        }
    }
}

proof fn lemma_span_scan_len(white: Seq<bool>, bl: int, r0: int, r1: int, x: int)
    ensures
        span_scan(white, bl, r0, r1, x).2.len() <= if x < 0 { 0 } else { x },
    decreases x,
{
    if x > 0 {
        lemma_span_scan_len(white, bl, r0, r1, x - 1);
    }
}

proof fn lemma_cells_scan_len(white: Seq<bool>, bl: int, r0: int, r1: int, spans: Seq<(i32, i32)>, si: int)
    ensures
        cells_scan(white, bl, r0, r1, spans, si).len() <= if si < 0 { 0 } else { si },
    decreases si,
{
    if si > 0 {
        lemma_cells_scan_len(white, bl, r0, r1, spans, si - 1);
    }
}

/// Law: a band group's value is the number spelled by a run of adjacent
/// glyphs of the group's usual height, read left to right (the glyphs are
/// cut from the band's columns from left to right).
pub proof fn lemma_group_value_is_a_run(white: Seq<bool>, bl: int, r0: int, r1: int, thr: i32)
    requires
        0 <= bl < 0x4000_0000,
    ensures
        group_spec(white, bl, r0, r1, thr) matches Some((_, v)) ==> {
            let spans = spans_spec(white, bl, r0, r1);
            let cells = cells_scan(white, bl, r0, r1, spans, spans.len() as int);
            let low = low_scan(cells, cells.len() as int);
            spelled_by_run(cells, mode_spec(low), v as int)
        },
{
    let spans = spans_spec(white, bl, r0, r1);
    let cells = cells_scan(white, bl, r0, r1, spans, spans.len() as int);
    let low = low_scan(cells, cells.len() as int);
    lemma_span_scan_len(white, bl, r0, r1, bl);
    lemma_cells_scan_len(white, bl, r0, r1, spans, spans.len() as int);
    if low.len() > 0 {
        lemma_run_scan_runs(cells, mode_spec(low), thr, cells.len() as int + 1);
    }
}

proof fn lemma_span_scan_order(white: Seq<bool>, bl: int, r0: int, r1: int, x: int)
    requires
        0 <= x <= bl < 0x4000_0000,
    ensures
        ({
            let (on, st, sp) = span_scan(white, bl, r0, r1, x);
            &&& forall|k: int| 0 <= k < sp.len() ==> 0 <= #[trigger] sp[k].1 <= x - 2
            &&& forall|a: int, b: int| 0 <= a < b < sp.len() ==> #[trigger] sp[a].1 < #[trigger] sp[b].1
            &&& on ==> 0 <= st < x && forall|k: int| 0 <= k < sp.len() ==> #[trigger] sp[k].1 < st
        }),
    decreases x,
{
    if x > 0 {
        lemma_span_scan_order(white, bl, r0, r1, x - 1);
        let (on, st, sp) = span_scan(white, bl, r0, r1, x - 1);
        let c = x - 1;
        if !col_ink(white, bl, r0, r1 + 1, c) && on {
            let sp2 = sp.push((st as i32, (c - 1) as i32));
            assert(sp2[sp.len() as int].1 == c - 1);
            assert forall|a: int, b: int| 0 <= a < b < sp2.len() implies #[trigger] sp2[a].1 < #[trigger] sp2[b].1 by {
                if b < sp.len() {
                    assert(sp2[a] == sp[a] && sp2[b] == sp[b]);
                } else {
                    assert(sp2[a] == sp[a]);
                }
            }
            assert forall|k: int| 0 <= k < sp2.len() implies 0 <= #[trigger] sp2[k].1 <= x - 2 by {
                if k < sp.len() {
                    assert(sp2[k] == sp[k]);
                }
            }
        }
    }
}

/// The band's ink columns are cut into spans from left to right.
proof fn lemma_spans_order(white: Seq<bool>, bl: int, r0: int, r1: int)
    requires
        0 <= bl < 0x4000_0000,
    ensures
        ({
            let sp = spans_spec(white, bl, r0, r1);
            forall|a: int, b: int| 0 <= a < b < sp.len() ==> #[trigger] sp[a].1 < #[trigger] sp[b].1
        }),
{
    lemma_span_scan_order(white, bl, r0, r1, bl);
    let (on, st, sp) = span_scan(white, bl, r0, r1, bl);
    if on {
        let sp2 = sp.push((st as i32, (bl - 1) as i32));
        assert forall|a: int, b: int| 0 <= a < b < sp2.len() implies #[trigger] sp2[a].1 < #[trigger] sp2[b].1 by {
            if b < sp.len() {
                assert(sp2[a] == sp[a] && sp2[b] == sp[b]);
            } else {
                assert(sp2[a] == sp[a]);
                assert(sp2[b].1 == bl - 1);
            }
        }
    }
}

proof fn lemma_cells_scan_order(white: Seq<bool>, bl: int, r0: int, r1: int, spans: Seq<(i32, i32)>, si: int)
    requires
        0 <= si <= spans.len(),
        forall|a: int, b: int| 0 <= a < b < spans.len() ==> #[trigger] spans[a].1 < #[trigger] spans[b].1,
    ensures
        ({
            let cs = cells_scan(white, bl, r0, r1, spans, si);
            &&& forall|a: int, b: int| 0 <= a < b < cs.len() ==> #[trigger] cs[a].xb < #[trigger] cs[b].xb
            &&& si > 0 ==> forall|k: int| 0 <= k < cs.len() ==> #[trigger] cs[k].xb <= spans[si - 1].1
        }),
    decreases si,
{
    if si > 0 {
        lemma_cells_scan_order(white, bl, r0, r1, spans, si - 1);
        let prev = cells_scan(white, bl, r0, r1, spans, si - 1);
        let (xa, xb) = spans[si - 1];
        if si > 1 {
            assert(spans[si - 2].1 < spans[si - 1].1);
        }
        if xb - xa >= 1 {
            match glyph_spec(white, bl, r0, r1, xa as int, xb) {
                Some(c) => {
                    let cs = prev.push(c);
                    assert(c.xb == xb);
                    assert forall|a: int, b: int| 0 <= a < b < cs.len() implies #[trigger] cs[a].xb < #[trigger] cs[b].xb by {
                        assert(cs[a] == prev[a]);
                        if b < prev.len() {
                            assert(cs[b] == prev[b]);
                        }
                    }
                    assert forall|k: int| 0 <= k < cs.len() implies #[trigger] cs[k].xb <= spans[si - 1].1 by {
                        if k < prev.len() {
                            assert(cs[k] == prev[k]);
                        }
                    }
                },
                None => {},
            }
        }
    }
}

/// Law: the glyphs of a band group come out in column order, left to
/// right: each one's right edge is further right than the one before.
pub proof fn lemma_cells_left_to_right(white: Seq<bool>, bl: int, r0: int, r1: int)
    requires
        0 <= bl < 0x4000_0000,
    ensures
        ({
            let spans = spans_spec(white, bl, r0, r1);
            let cells = cells_scan(white, bl, r0, r1, spans, spans.len() as int);
            forall|a: int, b: int| 0 <= a < b < cells.len() ==> #[trigger] cells[a].xb < #[trigger] cells[b].xb
        }),
{
    lemma_spans_order(white, bl, r0, r1);
    let spans = spans_spec(white, bl, r0, r1);
    lemma_cells_scan_order(white, bl, r0, r1, spans, spans.len() as int);
}

} // verus!
