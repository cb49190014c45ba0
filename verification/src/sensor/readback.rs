//! Reading back a value drawn with `synth_value_frame`: the native reader
//! finds exactly the drawn digits, whichever column of its search window the
//! first digit starts at.
use super::digits::{
    best_match, best_scan, cell_mask, decode_from, decode_spec, digits_value, dist_spec, exp_spec, lemma_pixel_coords,
    lemma_px_off, luma, mismatch, native_scan, native_spec, no_ink, px_off, synth_byte, synth_ink, tpl_bit,
    LUM_THR, ROWS, SOLID_MAX_MIS, STOP_MIS, TPL, X0_HI, X0_LO, Y_TOP,
};
use super::region::{
    band_blocks, band_mask, band_start, blocks_upto, hsv_spec, hue_match, lemma_cell_range, max3, min3, shop_spec,
    Comp, Hue,
};
use vstd::prelude::*;

verus! {

/// Ink of glyph `d` at row `r`, column `c`: 1 or 0. Glyph 10 is the blank
/// cell, and there is no ink outside the 14 × 6 grid.
pub open spec fn glyph_bit(d: int, r: int, c: int) -> u8 {
    if 0 <= d < 10 && 0 <= r < 14 && 0 <= c < 6 && TPL[d][r][c] == 1 {
        1
    } else {
        0
    }
}

/// The glyph drawn in cell `t` of `value` (10 outside the value).
pub open spec fn glyph_at(value: Seq<u8>, t: int) -> int {
    if 0 <= t < value.len() {
        value[t] - 48
    } else {
        10
    }
}

/// The mask of a cell that holds columns `k..6` of glyph `a` followed by
/// columns `0..k` of glyph `b`.
pub open spec fn mix(a: int, b: int, k: int) -> Seq<u8> {
    Seq::new(
        84,
        |i: int|
            if k + i % 6 < 6 {
                glyph_bit(a, i / 6, k + i % 6)
            } else {
                glyph_bit(b, i / 6, k + i % 6 - 6)
            },
    )
}

/// The digit values of the ASCII digits `value`.
pub open spec fn drawn_digits(value: Seq<u8>) -> Seq<u8> {
    Seq::new(value.len(), |i: int| (value[i] - 48) as u8)
}

/// `px` is a `w × h` capture of the ASCII digits `value` drawn from column
/// `gx0` (as `synth_value_frame` makes it).
pub open spec fn is_synth(px: Seq<u8>, value: Seq<u8>, gx0: int, w: int, h: int) -> bool {
    &&& 0 < w
    &&& Y_TOP + ROWS <= h
    &&& px.len() == w * h * 4
    &&& forall|k: int| 0 <= k < px.len() ==> #[trigger] px[k] == synth_byte(value, gx0, w, k)
    &&& forall|i: int| 0 <= i < value.len() ==> 48 <= #[trigger] value[i] <= 57
}

/// Template entries are 0 or 1, and the last column is blank.
proof fn lemma_tpl_shape()
    ensures
        forall|d: int, r: int, c: int| 0 <= d < 10 && 0 <= r < 14 && 0 <= c < 6 ==> #[trigger] TPL[d][r][c] <= 1,
        forall|d: int, r: int| 0 <= d < 10 && 0 <= r < 14 ==> #[trigger] TPL[d][r][5] == 0,
{
}

/// A position where templates `a` and `d` differ (`d < a`).
spec fn split_pos(a: int, d: int) -> int {
    if a == 1 && d == 0 {
        25
    } else if a == 2 && d == 0 {
        36
    } else if a == 2 && d == 1 {
        25
    } else if a == 3 && d == 0 {
        36
    } else if a == 3 && d == 1 {
        25
    } else if a == 3 && d == 2 {
        44
    } else if a == 4 && d == 0 {
        25
    } else if a == 4 && d == 1 {
        26
    } else if a == 4 && d == 2 {
        25
    } else if a == 4 && d == 3 {
        25
    } else if a == 5 && d == 0 {
        24
    } else if a == 5 && d == 1 {
        24
    } else if a == 5 && d == 2 {
        24
    } else if a == 5 && d == 3 {
        24
    } else if a == 5 && d == 4 {
        24
    } else if a == 6 && d == 0 {
        40
    } else if a == 6 && d == 1 {
        25
    } else if a == 6 && d == 2 {
        36
    } else if a == 6 && d == 3 {
        36
    } else if a == 6 && d == 4 {
        25
    } else if a == 6 && d == 5 {
        24
    } else if a == 7 && d == 0 {
        24
    } else if a == 7 && d == 1 {
        24
    } else if a == 7 && d == 2 {
        24
    } else if a == 7 && d == 3 {
        24
    } else if a == 7 && d == 4 {
        24
    } else if a == 7 && d == 5 {
        30
    } else if a == 7 && d == 6 {
        24
    } else if a == 8 && d == 0 {
        42
    } else if a == 8 && d == 1 {
        25
    } else if a == 8 && d == 2 {
        36
    } else if a == 8 && d == 3 {
        36
    } else if a == 8 && d == 4 {
        25
    } else if a == 8 && d == 5 {
        24
    } else if a == 8 && d == 6 {
        40
    } else if a == 8 && d == 7 {
        24
    } else if a == 9 && d == 0 {
        42
    } else if a == 9 && d == 1 {
        25
    } else if a == 9 && d == 2 {
        36
    } else if a == 9 && d == 3 {
        36
    } else if a == 9 && d == 4 {
        25
    } else if a == 9 && d == 5 {
        24
    } else if a == 9 && d == 6 {
        40
    } else if a == 9 && d == 7 {
        24
    } else if a == 9 && d == 8 {
        46
    } else {
        0
    }
}

/// A position where template `a` has ink.
spec fn ink_pos(a: int) -> int {
    if a == 4 {
        27
    } else if a == 1 {
        26
    } else {
        25
    }
}

proof fn lemma_tpl_distinct()
    ensures
        forall|a: int, d: int|
            0 <= d < a < 10 ==> 0 <= #[trigger] split_pos(a, d) < 84 && tpl_bit(a, split_pos(a, d)) != tpl_bit(
                d,
                split_pos(a, d),
            ),
        forall|a: int| 0 <= a < 10 ==> 0 <= #[trigger] ink_pos(a) < 84 && tpl_bit(a, ink_pos(a)) == 1,
{
}

/// The luma test of one pixel of a synthetic capture is its ink.
proof fn lemma_synth_luma(px: Seq<u8>, value: Seq<u8>, gx0: int, w: int, h: int, x: int, y: int)
    requires
        is_synth(px, value, gx0, w, h),
        0 <= x < w,
        0 <= y < h,
    ensures
        ({
            let o = px_off(w, x, y);
            &&& 0 <= o
            &&& o + 3 < px.len()
            &&& (luma(px[o], px[o + 1], px[o + 2]) >= LUM_THR) == synth_ink(value, gx0, x, y)
        }),
{
    lemma_px_off(w, h, x, y);
    lemma_pixel_coords(w, x, y);
    let o = px_off(w, x, y);
    assert((o + 0) / 4 == y * w + x && (o + 0) % 4 == 0);
    assert((o + 1) / 4 == y * w + x && (o + 1) % 4 == 1);
    assert((o + 2) / 4 == y * w + x && (o + 2) % 4 == 2);
    assert(px[o] == synth_byte(value, gx0, w, o));
    assert(px[o + 1] == synth_byte(value, gx0, w, o + 1));
    assert(px[o + 2] == synth_byte(value, gx0, w, o + 2));
}

/// Whether a column `q` right of `gx0` is ink at template row `r`: the
/// glyph of cell `q / 6`, column `q % 6`.
proof fn lemma_synth_ink_at(value: Seq<u8>, gx0: int, q: int, r: int, t: int, c: int)
    requires
        forall|i: int| 0 <= i < value.len() ==> 48 <= #[trigger] value[i] <= 57,
        0 <= r < 14,
        q == 6 * t + c,
        0 <= c < 6,
    ensures
        synth_ink(value, gx0, gx0 + q, Y_TOP + r) == (glyph_bit(glyph_at(value, t), r, c) == 1),
{
    vstd::arithmetic::div_mod::lemma_fundamental_div_mod_converse(q, 6, t, c);
    lemma_tpl_shape();
    if 0 <= t < value.len() {
        assert(48 <= value[t] <= 57);
    }
}

/// The cell mask of a synthetic capture at `x0 = gx0 + 6t + k` holds the
/// right part of glyph `t` and the left part of glyph `t + 1`.
proof fn lemma_cell_is_mix(px: Seq<u8>, value: Seq<u8>, gx0: int, w: int, h: int, x0: int, t: int, k: int)
    requires
        is_synth(px, value, gx0, w, h),
        0 <= x0,
        x0 + 6 <= w,
        x0 - gx0 == 6 * t + k,
        0 <= k < 6,
    ensures
        cell_mask(px, w, x0) == mix(glyph_at(value, t), glyph_at(value, t + 1), k),
{
    let m = mix(glyph_at(value, t), glyph_at(value, t + 1), k);
    assert forall|i: int| 0 <= i < 84 implies #[trigger] cell_mask(px, w, x0)[i] == m[i] by {
        let r = i / 6;
        let c = i % 6;
        lemma_synth_luma(px, value, gx0, w, h, x0 + c, Y_TOP + r);
        if k + c < 6 {
            lemma_synth_ink_at(value, gx0, x0 + c - gx0, r, t, k + c);
        } else {
            lemma_synth_ink_at(value, gx0, x0 + c - gx0, r, t + 1, k + c - 6);
        }
    }
    assert(cell_mask(px, w, x0) =~= m);
}

proof fn lemma_mismatch_zero(m: Seq<u8>, d: int, k: int)
    requires
        0 <= k <= m.len(),
        forall|i: int| 0 <= i < k ==> m[i] == tpl_bit(d, i),
    ensures
        mismatch(m, d, k) == 0,
    decreases k,
{
    if k > 0 {
        lemma_mismatch_zero(m, d, k - 1);
    }
}

proof fn lemma_mismatch_pos(m: Seq<u8>, d: int, k: int, j: int)
    requires
        0 <= j < k,
        m[j] != tpl_bit(d, j),
    ensures
        mismatch(m, d, k) >= 1,
    decreases k,
{
    if j < k - 1 {
        lemma_mismatch_pos(m, d, k - 1, j);
    }
}

/// The best template scan over a mask that is exactly template `a`.
proof fn lemma_scan_exact(m: Seq<u8>, a: int, d: int, bm: nat, bd: int)
    requires
        0 <= a < 10,
        1 <= d <= 10,
        dist_spec(m, a) == 0,
        forall|e: int| 0 <= e < a ==> dist_spec(m, e) > 0,
        d <= a ==> bm > 0,
        d > a ==> bm == 0 && bd == a,
    ensures
        best_scan(m, d, bm, bd) == (0nat, a),
    decreases 10 - d,
{
    if d < 10 {
        if d == a {
            lemma_scan_exact(m, a, d + 1, dist_spec(m, d), d);
        } else if dist_spec(m, d) < bm {
            lemma_scan_exact(m, a, d + 1, dist_spec(m, d), d);
        } else {
            lemma_scan_exact(m, a, d + 1, bm, bd);
        }
    }
}

/// A cell drawn exactly as digit `a` reads as `a` with no mismatch.
proof fn lemma_exact_cell(a: int, b: int)
    requires
        0 <= a < 10,
    ensures
        !no_ink(mix(a, b, 0)),
        best_match(mix(a, b, 0)) == (0nat, a),
{
    let m = mix(a, b, 0);
    lemma_tpl_shape();
    lemma_tpl_distinct();
    assert forall|i: int| 0 <= i < 84 implies m[i] == tpl_bit(a, i) by {
        assert(TPL[a][i / 6][i % 6] <= 1);
    }
    lemma_mismatch_zero(m, a, 84);
    assert(m[ink_pos(a)] == 1);
    assert forall|e: int| 0 <= e < a implies dist_spec(m, e) > 0 by {
        let p = split_pos(a, e);
        assert(m[p] == tpl_bit(a, p));
        lemma_mismatch_pos(m, e, 84, p);
    }
    if a > 0 {
        lemma_mismatch_pos(m, 0, 84, split_pos(a, 0));
    }
    lemma_scan_exact(m, a, 1, dist_spec(m, 0), 0);
}

/// A blank cell has no ink.
proof fn lemma_blank_cell(k: int)
    ensures
        no_ink(mix(10, 10, k)),
{
}

/// Reading from the first digit's own column: the cells `i..` are the drawn
/// digits from `i` on, each exact.
proof fn lemma_decode_aligned(px: Seq<u8>, value: Seq<u8>, gx0: int, w: int, h: int, i: int)
    requires
        is_synth(px, value, gx0, w, h),
        1 <= value.len() <= 12,
        0 <= gx0,
        gx0 + 72 <= w,
        0 <= i <= value.len(),
    ensures
        decode_from(px, w, gx0, i, drawn_digits(value).take(i), 0, i as nat) == (
            drawn_digits(value),
            0nat,
            value.len() as nat,
        ),
    decreases value.len() - i,
{
    let n = value.len() as int;
    let ds = drawn_digits(value);
    if i >= 12 {
        assert(ds.take(i) =~= ds);
    } else if i == n {
        lemma_cell_is_mix(px, value, gx0, w, h, gx0 + 6 * i, i, 0);
        lemma_blank_cell(0);
        assert(ds.take(i) =~= ds);
    } else {
        lemma_cell_is_mix(px, value, gx0, w, h, gx0 + 6 * i, i, 0);
        let a = glyph_at(value, i);
        assert(48 <= value[i] <= 57);
        lemma_exact_cell(a, glyph_at(value, i + 1));
        assert(ds.take(i).push(a as u8) =~= ds.take(i + 1));
        lemma_decode_aligned(px, value, gx0, w, h, i + 1);
    }
}

/// Nine positions where the cell `mix(10, b, k)` (the blank, then the first
/// `k` columns of digit `b`) differs from template `d`, for `k` in `1..=4`.
spec fn gap9(k: int, b: int, d: int) -> Seq<int> {
    if k == 1 && b == 0 && d == 0 {
        seq![25, 26, 27, 30, 34, 35, 36, 40, 41]
    } else if k == 1 && b == 0 && d == 1 {
        seq![26, 31, 32, 35, 38, 41, 44, 47, 50]
    } else if k == 1 && b == 0 && d == 2 {
        seq![25, 26, 27, 30, 34, 35, 40, 41, 45]
    } else if k == 1 && b == 0 && d == 3 {
        seq![25, 26, 27, 30, 34, 35, 40, 41, 44]
    } else if k == 1 && b == 0 && d == 4 {
        seq![27, 32, 33, 35, 37, 39, 41, 42, 45]
    } else if k == 1 && b == 0 && d == 5 {
        seq![24, 25, 26, 27, 28, 30, 35, 36, 41]
    } else if k == 1 && b == 0 && d == 6 {
        seq![25, 26, 27, 30, 34, 35, 36, 41, 42]
    } else if k == 1 && b == 0 && d == 7 {
        seq![24, 25, 26, 27, 28, 34, 35, 40, 41]
    } else if k == 1 && b == 0 && d == 8 {
        seq![25, 26, 27, 30, 34, 35, 36, 40, 41]
    } else if k == 1 && b == 0 && d == 9 {
        seq![25, 26, 27, 30, 34, 35, 36, 40, 41]
    } else if k == 1 && b == 2 && d == 0 {
        seq![25, 26, 27, 30, 34, 35, 36, 40, 42]
    } else if k == 1 && b == 2 && d == 1 {
        seq![26, 31, 32, 35, 38, 44, 50, 56, 62]
    } else if k == 1 && b == 2 && d == 2 {
        seq![25, 26, 27, 30, 34, 35, 40, 45, 50]
    } else if k == 1 && b == 2 && d == 3 {
        seq![25, 26, 27, 30, 34, 35, 40, 44, 45]
    } else if k == 1 && b == 2 && d == 4 {
        seq![27, 32, 33, 35, 37, 39, 42, 45, 48]
    } else if k == 1 && b == 2 && d == 5 {
        seq![24, 25, 26, 27, 28, 30, 35, 36, 43]
    } else if k == 1 && b == 2 && d == 6 {
        seq![25, 26, 27, 30, 34, 35, 36, 42, 43]
    } else if k == 1 && b == 2 && d == 7 {
        seq![24, 25, 26, 27, 28, 34, 35, 40, 46]
    } else if k == 1 && b == 2 && d == 8 {
        seq![25, 26, 27, 30, 34, 35, 36, 40, 43]
    } else if k == 1 && b == 2 && d == 9 {
        seq![25, 26, 27, 30, 34, 35, 36, 40, 43]
    } else if k == 1 && b == 3 && d == 0 {
        seq![25, 26, 27, 30, 34, 35, 36, 40, 42]
    } else if k == 1 && b == 3 && d == 1 {
        seq![26, 31, 32, 35, 38, 44, 50, 56, 59]
    } else if k == 1 && b == 3 && d == 2 {
        seq![25, 26, 27, 30, 34, 35, 40, 45, 50]
    } else if k == 1 && b == 3 && d == 3 {
        seq![25, 26, 27, 30, 34, 35, 40, 44, 45]
    } else if k == 1 && b == 3 && d == 4 {
        seq![27, 32, 33, 35, 37, 39, 42, 45, 48]
    } else if k == 1 && b == 3 && d == 5 {
        seq![24, 25, 26, 27, 28, 30, 35, 36, 43]
    } else if k == 1 && b == 3 && d == 6 {
        seq![25, 26, 27, 30, 34, 35, 36, 42, 43]
    } else if k == 1 && b == 3 && d == 7 {
        seq![24, 25, 26, 27, 28, 34, 35, 40, 46]
    } else if k == 1 && b == 3 && d == 8 {
        seq![25, 26, 27, 30, 34, 35, 36, 40, 43]
    } else if k == 1 && b == 3 && d == 9 {
        seq![25, 26, 27, 30, 34, 35, 36, 40, 43]
    } else if k == 1 && b == 4 && d == 0 {
        seq![25, 26, 27, 30, 34, 36, 40, 42, 46]
    } else if k == 1 && b == 4 && d == 1 {
        seq![26, 31, 32, 38, 44, 47, 50, 53, 56]
    } else if k == 1 && b == 4 && d == 2 {
        seq![25, 26, 27, 30, 34, 40, 45, 47, 50]
    } else if k == 1 && b == 4 && d == 3 {
        seq![25, 26, 27, 30, 34, 40, 44, 45, 47]
    } else if k == 1 && b == 4 && d == 4 {
        seq![27, 32, 33, 37, 39, 42, 45, 47, 48]
    } else if k == 1 && b == 4 && d == 5 {
        seq![24, 25, 26, 27, 28, 30, 36, 43, 44]
    } else if k == 1 && b == 4 && d == 6 {
        seq![25, 26, 27, 30, 34, 36, 42, 43, 44]
    } else if k == 1 && b == 4 && d == 7 {
        seq![24, 25, 26, 27, 28, 34, 40, 46, 47]
    } else if k == 1 && b == 4 && d == 8 {
        seq![25, 26, 27, 30, 34, 36, 40, 43, 44]
    } else if k == 1 && b == 4 && d == 9 {
        seq![25, 26, 27, 30, 34, 36, 40, 43, 44]
    } else if k == 1 && b == 5 && d == 0 {
        seq![25, 26, 27, 29, 30, 34, 35, 36, 40]
    } else if k == 1 && b == 5 && d == 1 {
        seq![26, 29, 31, 32, 35, 38, 41, 44, 50]
    } else if k == 1 && b == 5 && d == 2 {
        seq![25, 26, 27, 29, 30, 34, 35, 40, 41]
    } else if k == 1 && b == 5 && d == 3 {
        seq![25, 26, 27, 29, 30, 34, 35, 40, 41]
    } else if k == 1 && b == 5 && d == 4 {
        seq![27, 29, 32, 33, 35, 37, 39, 41, 42]
    } else if k == 1 && b == 5 && d == 5 {
        seq![24, 25, 26, 27, 28, 29, 30, 35, 36]
    } else if k == 1 && b == 5 && d == 6 {
        seq![25, 26, 27, 29, 30, 34, 35, 36, 41]
    } else if k == 1 && b == 5 && d == 7 {
        seq![24, 25, 26, 27, 28, 29, 34, 35, 40]
    } else if k == 1 && b == 5 && d == 8 {
        seq![25, 26, 27, 29, 30, 34, 35, 36, 40]
    } else if k == 1 && b == 5 && d == 9 {
        seq![25, 26, 27, 29, 30, 34, 35, 36, 40]
    } else if k == 1 && b == 6 && d == 0 {
        seq![25, 26, 27, 30, 34, 35, 36, 40, 41]
    } else if k == 1 && b == 6 && d == 1 {
        seq![26, 31, 32, 35, 38, 41, 44, 47, 50]
    } else if k == 1 && b == 6 && d == 2 {
        seq![25, 26, 27, 30, 34, 35, 40, 41, 45]
    } else if k == 1 && b == 6 && d == 3 {
        seq![25, 26, 27, 30, 34, 35, 40, 41, 44]
    } else if k == 1 && b == 6 && d == 4 {
        seq![27, 32, 33, 35, 37, 39, 41, 42, 45]
    } else if k == 1 && b == 6 && d == 5 {
        seq![24, 25, 26, 27, 28, 30, 35, 36, 41]
    } else if k == 1 && b == 6 && d == 6 {
        seq![25, 26, 27, 30, 34, 35, 36, 41, 42]
    } else if k == 1 && b == 6 && d == 7 {
        seq![24, 25, 26, 27, 28, 34, 35, 40, 41]
    } else if k == 1 && b == 6 && d == 8 {
        seq![25, 26, 27, 30, 34, 35, 36, 40, 41]
    } else if k == 1 && b == 6 && d == 9 {
        seq![25, 26, 27, 30, 34, 35, 36, 40, 41]
    } else if k == 1 && b == 7 && d == 0 {
        seq![25, 26, 27, 29, 30, 34, 36, 40, 42]
    } else if k == 1 && b == 7 && d == 1 {
        seq![26, 29, 31, 32, 38, 44, 50, 56, 62]
    } else if k == 1 && b == 7 && d == 2 {
        seq![25, 26, 27, 29, 30, 34, 40, 45, 50]
    } else if k == 1 && b == 7 && d == 3 {
        seq![25, 26, 27, 29, 30, 34, 40, 44, 45]
    } else if k == 1 && b == 7 && d == 4 {
        seq![27, 29, 32, 33, 37, 39, 42, 45, 48]
    } else if k == 1 && b == 7 && d == 5 {
        seq![24, 25, 26, 27, 28, 29, 30, 36, 43]
    } else if k == 1 && b == 7 && d == 6 {
        seq![25, 26, 27, 29, 30, 34, 36, 42, 43]
    } else if k == 1 && b == 7 && d == 7 {
        seq![24, 25, 26, 27, 28, 29, 34, 40, 46]
    } else if k == 1 && b == 7 && d == 8 {
        seq![25, 26, 27, 29, 30, 34, 36, 40, 43]
    } else if k == 1 && b == 7 && d == 9 {
        seq![25, 26, 27, 29, 30, 34, 36, 40, 43]
    } else if k == 1 && b == 8 && d == 0 {
        seq![25, 26, 27, 30, 34, 35, 36, 40, 41]
    } else if k == 1 && b == 8 && d == 1 {
        seq![26, 31, 32, 35, 38, 41, 44, 50, 53]
    } else if k == 1 && b == 8 && d == 2 {
        seq![25, 26, 27, 30, 34, 35, 40, 41, 45]
    } else if k == 1 && b == 8 && d == 3 {
        seq![25, 26, 27, 30, 34, 35, 40, 41, 44]
    } else if k == 1 && b == 8 && d == 4 {
        seq![27, 32, 33, 35, 37, 39, 41, 42, 45]
    } else if k == 1 && b == 8 && d == 5 {
        seq![24, 25, 26, 27, 28, 30, 35, 36, 41]
    } else if k == 1 && b == 8 && d == 6 {
        seq![25, 26, 27, 30, 34, 35, 36, 41, 42]
    } else if k == 1 && b == 8 && d == 7 {
        seq![24, 25, 26, 27, 28, 34, 35, 40, 41]
    } else if k == 1 && b == 8 && d == 8 {
        seq![25, 26, 27, 30, 34, 35, 36, 40, 41]
    } else if k == 1 && b == 8 && d == 9 {
        seq![25, 26, 27, 30, 34, 35, 36, 40, 41]
    } else if k == 1 && b == 9 && d == 0 {
        seq![25, 26, 27, 30, 34, 35, 36, 40, 41]
    } else if k == 1 && b == 9 && d == 1 {
        seq![26, 31, 32, 35, 38, 41, 44, 50, 56]
    } else if k == 1 && b == 9 && d == 2 {
        seq![25, 26, 27, 30, 34, 35, 40, 41, 45]
    } else if k == 1 && b == 9 && d == 3 {
        seq![25, 26, 27, 30, 34, 35, 40, 41, 44]
    } else if k == 1 && b == 9 && d == 4 {
        seq![27, 32, 33, 35, 37, 39, 41, 42, 45]
    } else if k == 1 && b == 9 && d == 5 {
        seq![24, 25, 26, 27, 28, 30, 35, 36, 41]
    } else if k == 1 && b == 9 && d == 6 {
        seq![25, 26, 27, 30, 34, 35, 36, 41, 42]
    } else if k == 1 && b == 9 && d == 7 {
        seq![24, 25, 26, 27, 28, 34, 35, 40, 41]
    } else if k == 1 && b == 9 && d == 8 {
        seq![25, 26, 27, 30, 34, 35, 36, 40, 41]
    } else if k == 1 && b == 9 && d == 9 {
        seq![25, 26, 27, 30, 34, 35, 36, 40, 41]
    } else if k == 2 && b == 0 && d == 0 {
        seq![25, 26, 27, 29, 30, 36, 42, 48, 54]
    } else if k == 2 && b == 0 && d == 1 {
        seq![26, 29, 31, 32, 34, 38, 40, 44, 46]
    } else if k == 2 && b == 0 && d == 2 {
        seq![25, 26, 27, 29, 30, 45, 46, 50, 52]
    } else if k == 2 && b == 0 && d == 3 {
        seq![25, 26, 27, 29, 30, 44, 45, 46, 54]
    } else if k == 2 && b == 0 && d == 4 {
        seq![27, 29, 32, 33, 34, 37, 39, 40, 42]
    } else if k == 2 && b == 0 && d == 5 {
        seq![24, 25, 26, 27, 28, 29, 30, 34, 36]
    } else if k == 2 && b == 0 && d == 6 {
        seq![25, 26, 27, 29, 30, 36, 40, 42, 43]
    } else if k == 2 && b == 0 && d == 7 {
        seq![24, 25, 26, 27, 28, 29, 51, 52, 56]
    } else if k == 2 && b == 0 && d == 8 {
        seq![25, 26, 27, 29, 30, 36, 43, 44, 45]
    } else if k == 2 && b == 0 && d == 9 {
        seq![25, 26, 27, 29, 30, 36, 43, 44, 45]
    } else if k == 2 && b == 1 && d == 0 {
        seq![25, 26, 27, 30, 34, 35, 36, 40, 42]
    } else if k == 2 && b == 1 && d == 1 {
        seq![26, 31, 32, 35, 38, 44, 50, 56, 62]
    } else if k == 2 && b == 1 && d == 2 {
        seq![25, 26, 27, 30, 34, 35, 40, 45, 50]
    } else if k == 2 && b == 1 && d == 3 {
        seq![25, 26, 27, 30, 34, 35, 40, 44, 45]
    } else if k == 2 && b == 1 && d == 4 {
        seq![27, 32, 33, 35, 37, 39, 42, 45, 48]
    } else if k == 2 && b == 1 && d == 5 {
        seq![24, 25, 26, 27, 28, 30, 35, 36, 43]
    } else if k == 2 && b == 1 && d == 6 {
        seq![25, 26, 27, 30, 34, 35, 36, 42, 43]
    } else if k == 2 && b == 1 && d == 7 {
        seq![24, 25, 26, 27, 28, 34, 35, 40, 46]
    } else if k == 2 && b == 1 && d == 8 {
        seq![25, 26, 27, 30, 34, 35, 36, 40, 43]
    } else if k == 2 && b == 1 && d == 9 {
        seq![25, 26, 27, 30, 34, 35, 36, 40, 43]
    } else if k == 2 && b == 2 && d == 0 {
        seq![25, 26, 27, 29, 30, 36, 40, 42, 46]
    } else if k == 2 && b == 2 && d == 1 {
        seq![26, 29, 31, 32, 34, 38, 44, 50, 56]
    } else if k == 2 && b == 2 && d == 2 {
        seq![25, 26, 27, 29, 30, 40, 45, 50, 55]
    } else if k == 2 && b == 2 && d == 3 {
        seq![25, 26, 27, 29, 30, 40, 44, 45, 52]
    } else if k == 2 && b == 2 && d == 4 {
        seq![27, 29, 32, 33, 34, 37, 39, 42, 45]
    } else if k == 2 && b == 2 && d == 5 {
        seq![24, 25, 26, 27, 28, 29, 30, 34, 36]
    } else if k == 2 && b == 2 && d == 6 {
        seq![25, 26, 27, 29, 30, 36, 42, 43, 44]
    } else if k == 2 && b == 2 && d == 7 {
        seq![24, 25, 26, 27, 28, 29, 40, 46, 51]
    } else if k == 2 && b == 2 && d == 8 {
        seq![25, 26, 27, 29, 30, 36, 40, 43, 44]
    } else if k == 2 && b == 2 && d == 9 {
        seq![25, 26, 27, 29, 30, 36, 40, 43, 44]
    } else if k == 2 && b == 3 && d == 0 {
        seq![25, 26, 27, 29, 30, 36, 40, 42, 46]
    } else if k == 2 && b == 3 && d == 1 {
        seq![26, 29, 31, 32, 34, 38, 44, 50, 56]
    } else if k == 2 && b == 3 && d == 2 {
        seq![25, 26, 27, 29, 30, 40, 45, 50, 55]
    } else if k == 2 && b == 3 && d == 3 {
        seq![25, 26, 27, 29, 30, 40, 44, 45, 52]
    } else if k == 2 && b == 3 && d == 4 {
        seq![27, 29, 32, 33, 34, 37, 39, 42, 45]
    } else if k == 2 && b == 3 && d == 5 {
        seq![24, 25, 26, 27, 28, 29, 30, 34, 36]
    } else if k == 2 && b == 3 && d == 6 {
        seq![25, 26, 27, 29, 30, 36, 42, 43, 44]
    } else if k == 2 && b == 3 && d == 7 {
        seq![24, 25, 26, 27, 28, 29, 40, 46, 51]
    } else if k == 2 && b == 3 && d == 8 {
        seq![25, 26, 27, 29, 30, 36, 40, 43, 44]
    } else if k == 2 && b == 3 && d == 9 {
        seq![25, 26, 27, 29, 30, 36, 40, 43, 44]
    } else if k == 2 && b == 4 && d == 0 {
        seq![25, 26, 27, 30, 34, 36, 40, 41, 42]
    } else if k == 2 && b == 4 && d == 1 {
        seq![26, 31, 32, 38, 41, 44, 46, 50, 52]
    } else if k == 2 && b == 4 && d == 2 {
        seq![25, 26, 27, 30, 34, 40, 41, 45, 46]
    } else if k == 2 && b == 4 && d == 3 {
        seq![25, 26, 27, 30, 34, 40, 41, 44, 45]
    } else if k == 2 && b == 4 && d == 4 {
        seq![27, 32, 33, 37, 39, 41, 42, 45, 46]
    } else if k == 2 && b == 4 && d == 5 {
        seq![24, 25, 26, 27, 28, 30, 36, 41, 43]
    } else if k == 2 && b == 4 && d == 6 {
        seq![25, 26, 27, 30, 34, 36, 41, 42, 43]
    } else if k == 2 && b == 4 && d == 7 {
        seq![24, 25, 26, 27, 28, 34, 40, 41, 51]
    } else if k == 2 && b == 4 && d == 8 {
        seq![25, 26, 27, 30, 34, 36, 40, 41, 43]
    } else if k == 2 && b == 4 && d == 9 {
        seq![25, 26, 27, 30, 34, 36, 40, 41, 43]
    } else if k == 2 && b == 5 && d == 0 {
        seq![25, 26, 27, 28, 29, 30, 36, 42, 46]
    } else if k == 2 && b == 5 && d == 1 {
        seq![26, 28, 29, 31, 32, 34, 38, 40, 44]
    } else if k == 2 && b == 5 && d == 2 {
        seq![25, 26, 27, 28, 29, 30, 45, 47, 50]
    } else if k == 2 && b == 5 && d == 3 {
        seq![25, 26, 27, 28, 29, 30, 44, 45, 47]
    } else if k == 2 && b == 5 && d == 4 {
        seq![27, 28, 29, 32, 33, 34, 37, 39, 40]
    } else if k == 2 && b == 5 && d == 5 {
        seq![24, 25, 26, 27, 29, 30, 34, 36, 40]
    } else if k == 2 && b == 5 && d == 6 {
        seq![25, 26, 27, 28, 29, 30, 36, 40, 42]
    } else if k == 2 && b == 5 && d == 7 {
        seq![24, 25, 26, 27, 29, 46, 47, 51, 56]
    } else if k == 2 && b == 5 && d == 8 {
        seq![25, 26, 27, 28, 29, 30, 36, 43, 44]
    } else if k == 2 && b == 5 && d == 9 {
        seq![25, 26, 27, 28, 29, 30, 36, 43, 44]
    } else if k == 2 && b == 6 && d == 0 {
        seq![25, 26, 27, 29, 30, 36, 42, 47, 48]
    } else if k == 2 && b == 6 && d == 1 {
        seq![26, 29, 31, 32, 34, 38, 40, 44, 46]
    } else if k == 2 && b == 6 && d == 2 {
        seq![25, 26, 27, 29, 30, 45, 46, 47, 50]
    } else if k == 2 && b == 6 && d == 3 {
        seq![25, 26, 27, 29, 30, 44, 45, 46, 47]
    } else if k == 2 && b == 6 && d == 4 {
        seq![27, 29, 32, 33, 34, 37, 39, 40, 42]
    } else if k == 2 && b == 6 && d == 5 {
        seq![24, 25, 26, 27, 28, 29, 30, 34, 36]
    } else if k == 2 && b == 6 && d == 6 {
        seq![25, 26, 27, 29, 30, 36, 40, 42, 43]
    } else if k == 2 && b == 6 && d == 7 {
        seq![24, 25, 26, 27, 28, 29, 47, 51, 52]
    } else if k == 2 && b == 6 && d == 8 {
        seq![25, 26, 27, 29, 30, 36, 43, 44, 45]
    } else if k == 2 && b == 6 && d == 9 {
        seq![25, 26, 27, 29, 30, 36, 43, 44, 45]
    } else if k == 2 && b == 7 && d == 0 {
        seq![25, 26, 27, 28, 29, 30, 34, 36, 40]
    } else if k == 2 && b == 7 && d == 1 {
        seq![26, 28, 29, 31, 32, 38, 44, 50, 56]
    } else if k == 2 && b == 7 && d == 2 {
        seq![25, 26, 27, 28, 29, 30, 34, 40, 45]
    } else if k == 2 && b == 7 && d == 3 {
        seq![25, 26, 27, 28, 29, 30, 34, 40, 44]
    } else if k == 2 && b == 7 && d == 4 {
        seq![27, 28, 29, 32, 33, 37, 39, 42, 45]
    } else if k == 2 && b == 7 && d == 5 {
        seq![24, 25, 26, 27, 29, 30, 36, 43, 44]
    } else if k == 2 && b == 7 && d == 6 {
        seq![25, 26, 27, 28, 29, 30, 34, 36, 42]
    } else if k == 2 && b == 7 && d == 7 {
        seq![24, 25, 26, 27, 29, 34, 40, 46, 51]
    } else if k == 2 && b == 7 && d == 8 {
        seq![25, 26, 27, 28, 29, 30, 34, 36, 40]
    } else if k == 2 && b == 7 && d == 9 {
        seq![25, 26, 27, 28, 29, 30, 34, 36, 40]
    } else if k == 2 && b == 8 && d == 0 {
        seq![25, 26, 27, 29, 30, 36, 42, 46, 47]
    } else if k == 2 && b == 8 && d == 1 {
        seq![26, 29, 31, 32, 34, 38, 40, 44, 47]
    } else if k == 2 && b == 8 && d == 2 {
        seq![25, 26, 27, 29, 30, 45, 47, 50, 52]
    } else if k == 2 && b == 8 && d == 3 {
        seq![25, 26, 27, 29, 30, 44, 45, 47, 54]
    } else if k == 2 && b == 8 && d == 4 {
        seq![27, 29, 32, 33, 34, 37, 39, 40, 42]
    } else if k == 2 && b == 8 && d == 5 {
        seq![24, 25, 26, 27, 28, 29, 30, 34, 36]
    } else if k == 2 && b == 8 && d == 6 {
        seq![25, 26, 27, 29, 30, 36, 40, 42, 43]
    } else if k == 2 && b == 8 && d == 7 {
        seq![24, 25, 26, 27, 28, 29, 46, 47, 51]
    } else if k == 2 && b == 8 && d == 8 {
        seq![25, 26, 27, 29, 30, 36, 43, 44, 45]
    } else if k == 2 && b == 8 && d == 9 {
        seq![25, 26, 27, 29, 30, 36, 43, 44, 45]
    } else if k == 2 && b == 9 && d == 0 {
        seq![25, 26, 27, 29, 30, 36, 42, 46, 47]
    } else if k == 2 && b == 9 && d == 1 {
        seq![26, 29, 31, 32, 34, 38, 40, 44, 47]
    } else if k == 2 && b == 9 && d == 2 {
        seq![25, 26, 27, 29, 30, 45, 47, 50, 55]
    } else if k == 2 && b == 9 && d == 3 {
        seq![25, 26, 27, 29, 30, 44, 45, 47, 52]
    } else if k == 2 && b == 9 && d == 4 {
        seq![27, 29, 32, 33, 34, 37, 39, 40, 42]
    } else if k == 2 && b == 9 && d == 5 {
        seq![24, 25, 26, 27, 28, 29, 30, 34, 36]
    } else if k == 2 && b == 9 && d == 6 {
        seq![25, 26, 27, 29, 30, 36, 40, 42, 43]
    } else if k == 2 && b == 9 && d == 7 {
        seq![24, 25, 26, 27, 28, 29, 46, 47, 51]
    } else if k == 2 && b == 9 && d == 8 {
        seq![25, 26, 27, 29, 30, 36, 43, 44, 45]
    } else if k == 2 && b == 9 && d == 9 {
        seq![25, 26, 27, 29, 30, 36, 43, 44, 45]
    } else if k == 3 && b == 0 && d == 0 {
        seq![25, 26, 27, 28, 29, 30, 33, 34, 36]
    } else if k == 3 && b == 0 && d == 1 {
        seq![26, 28, 29, 31, 32, 33, 38, 39, 44]
    } else if k == 3 && b == 0 && d == 2 {
        seq![25, 26, 27, 28, 29, 30, 33, 34, 39]
    } else if k == 3 && b == 0 && d == 3 {
        seq![25, 26, 27, 28, 29, 30, 33, 34, 39]
    } else if k == 3 && b == 0 && d == 4 {
        seq![27, 28, 29, 32, 37, 42, 48, 49, 50]
    } else if k == 3 && b == 0 && d == 5 {
        seq![24, 25, 26, 27, 29, 30, 33, 36, 39]
    } else if k == 3 && b == 0 && d == 6 {
        seq![25, 26, 27, 28, 29, 30, 33, 34, 36]
    } else if k == 3 && b == 0 && d == 7 {
        seq![24, 25, 26, 27, 29, 33, 34, 39, 40]
    } else if k == 3 && b == 0 && d == 8 {
        seq![25, 26, 27, 28, 29, 30, 33, 34, 36]
    } else if k == 3 && b == 0 && d == 9 {
        seq![25, 26, 27, 28, 29, 30, 33, 34, 36]
    } else if k == 3 && b == 1 && d == 0 {
        seq![25, 26, 27, 29, 30, 35, 36, 40, 41]
    } else if k == 3 && b == 1 && d == 1 {
        seq![26, 29, 31, 32, 34, 35, 38, 41, 44]
    } else if k == 3 && b == 1 && d == 2 {
        seq![25, 26, 27, 29, 30, 35, 40, 41, 45]
    } else if k == 3 && b == 1 && d == 3 {
        seq![25, 26, 27, 29, 30, 35, 40, 41, 44]
    } else if k == 3 && b == 1 && d == 4 {
        seq![27, 29, 32, 33, 34, 35, 37, 39, 41]
    } else if k == 3 && b == 1 && d == 5 {
        seq![24, 25, 26, 27, 28, 29, 30, 34, 35]
    } else if k == 3 && b == 1 && d == 6 {
        seq![25, 26, 27, 29, 30, 35, 36, 41, 42]
    } else if k == 3 && b == 1 && d == 7 {
        seq![24, 25, 26, 27, 28, 29, 35, 40, 41]
    } else if k == 3 && b == 1 && d == 8 {
        seq![25, 26, 27, 29, 30, 35, 36, 40, 41]
    } else if k == 3 && b == 1 && d == 9 {
        seq![25, 26, 27, 29, 30, 35, 36, 40, 41]
    } else if k == 3 && b == 2 && d == 0 {
        seq![25, 26, 27, 28, 29, 30, 33, 34, 36]
    } else if k == 3 && b == 2 && d == 1 {
        seq![26, 28, 29, 31, 32, 33, 38, 44, 50]
    } else if k == 3 && b == 2 && d == 2 {
        seq![25, 26, 27, 28, 29, 30, 33, 34, 40]
    } else if k == 3 && b == 2 && d == 3 {
        seq![25, 26, 27, 28, 29, 30, 33, 34, 40]
    } else if k == 3 && b == 2 && d == 4 {
        seq![27, 28, 29, 32, 37, 39, 42, 45, 48]
    } else if k == 3 && b == 2 && d == 5 {
        seq![24, 25, 26, 27, 29, 30, 33, 36, 43]
    } else if k == 3 && b == 2 && d == 6 {
        seq![25, 26, 27, 28, 29, 30, 33, 34, 36]
    } else if k == 3 && b == 2 && d == 7 {
        seq![24, 25, 26, 27, 29, 33, 34, 40, 46]
    } else if k == 3 && b == 2 && d == 8 {
        seq![25, 26, 27, 28, 29, 30, 33, 34, 36]
    } else if k == 3 && b == 2 && d == 9 {
        seq![25, 26, 27, 28, 29, 30, 33, 34, 36]
    } else if k == 3 && b == 3 && d == 0 {
        seq![25, 26, 27, 28, 29, 30, 33, 34, 36]
    } else if k == 3 && b == 3 && d == 1 {
        seq![26, 28, 29, 31, 32, 33, 38, 44, 47]
    } else if k == 3 && b == 3 && d == 2 {
        seq![25, 26, 27, 28, 29, 30, 33, 34, 40]
    } else if k == 3 && b == 3 && d == 3 {
        seq![25, 26, 27, 28, 29, 30, 33, 34, 40]
    } else if k == 3 && b == 3 && d == 4 {
        seq![27, 28, 29, 32, 37, 39, 42, 45, 47]
    } else if k == 3 && b == 3 && d == 5 {
        seq![24, 25, 26, 27, 29, 30, 33, 36, 43]
    } else if k == 3 && b == 3 && d == 6 {
        seq![25, 26, 27, 28, 29, 30, 33, 34, 36]
    } else if k == 3 && b == 3 && d == 7 {
        seq![24, 25, 26, 27, 29, 33, 34, 40, 46]
    } else if k == 3 && b == 3 && d == 8 {
        seq![25, 26, 27, 28, 29, 30, 33, 34, 36]
    } else if k == 3 && b == 3 && d == 9 {
        seq![25, 26, 27, 28, 29, 30, 33, 34, 36]
    } else if k == 3 && b == 4 && d == 0 {
        seq![25, 26, 27, 30, 34, 35, 36, 42, 45]
    } else if k == 3 && b == 4 && d == 1 {
        seq![26, 31, 32, 35, 38, 40, 44, 45, 50]
    } else if k == 3 && b == 4 && d == 2 {
        seq![25, 26, 27, 30, 34, 35, 50, 51, 52]
    } else if k == 3 && b == 4 && d == 3 {
        seq![25, 26, 27, 30, 34, 35, 44, 51, 53]
    } else if k == 3 && b == 4 && d == 4 {
        seq![27, 32, 33, 35, 37, 39, 40, 42, 48]
    } else if k == 3 && b == 4 && d == 5 {
        seq![24, 25, 26, 27, 28, 30, 35, 36, 40]
    } else if k == 3 && b == 4 && d == 6 {
        seq![25, 26, 27, 30, 34, 35, 36, 40, 42]
    } else if k == 3 && b == 4 && d == 7 {
        seq![24, 25, 26, 27, 28, 34, 35, 45, 46]
    } else if k == 3 && b == 4 && d == 8 {
        seq![25, 26, 27, 30, 34, 35, 36, 43, 44]
    } else if k == 3 && b == 4 && d == 9 {
        seq![25, 26, 27, 30, 34, 35, 36, 43, 44]
    } else if k == 3 && b == 5 && d == 0 {
        seq![25, 26, 28, 29, 30, 33, 34, 36, 39]
    } else if k == 3 && b == 5 && d == 1 {
        seq![26, 27, 28, 29, 31, 32, 33, 38, 39]
    } else if k == 3 && b == 5 && d == 2 {
        seq![25, 26, 28, 29, 30, 33, 34, 39, 40]
    } else if k == 3 && b == 5 && d == 3 {
        seq![25, 26, 28, 29, 30, 33, 34, 39, 40]
    } else if k == 3 && b == 5 && d == 4 {
        seq![28, 29, 32, 37, 42, 45, 46, 47, 48]
    } else if k == 3 && b == 5 && d == 5 {
        seq![24, 25, 26, 29, 30, 33, 36, 39, 43]
    } else if k == 3 && b == 5 && d == 6 {
        seq![25, 26, 28, 29, 30, 33, 34, 36, 39]
    } else if k == 3 && b == 5 && d == 7 {
        seq![24, 25, 26, 29, 33, 34, 39, 40, 47]
    } else if k == 3 && b == 5 && d == 8 {
        seq![25, 26, 28, 29, 30, 33, 34, 36, 39]
    } else if k == 3 && b == 5 && d == 9 {
        seq![25, 26, 28, 29, 30, 33, 34, 36, 39]
    } else if k == 3 && b == 6 && d == 0 {
        seq![25, 26, 27, 28, 29, 30, 33, 34, 36]
    } else if k == 3 && b == 6 && d == 1 {
        seq![26, 28, 29, 31, 32, 33, 38, 39, 44]
    } else if k == 3 && b == 6 && d == 2 {
        seq![25, 26, 27, 28, 29, 30, 33, 34, 39]
    } else if k == 3 && b == 6 && d == 3 {
        seq![25, 26, 27, 28, 29, 30, 33, 34, 39]
    } else if k == 3 && b == 6 && d == 4 {
        seq![27, 28, 29, 32, 37, 42, 46, 47, 48]
    } else if k == 3 && b == 6 && d == 5 {
        seq![24, 25, 26, 27, 29, 30, 33, 36, 39]
    } else if k == 3 && b == 6 && d == 6 {
        seq![25, 26, 27, 28, 29, 30, 33, 34, 36]
    } else if k == 3 && b == 6 && d == 7 {
        seq![24, 25, 26, 27, 29, 33, 34, 39, 40]
    } else if k == 3 && b == 6 && d == 8 {
        seq![25, 26, 27, 28, 29, 30, 33, 34, 36]
    } else if k == 3 && b == 6 && d == 9 {
        seq![25, 26, 27, 28, 29, 30, 33, 34, 36]
    } else if k == 3 && b == 7 && d == 0 {
        seq![25, 26, 28, 29, 30, 34, 36, 40, 42]
    } else if k == 3 && b == 7 && d == 1 {
        seq![26, 27, 28, 29, 31, 32, 38, 44, 50]
    } else if k == 3 && b == 7 && d == 2 {
        seq![25, 26, 28, 29, 30, 34, 40, 45, 50]
    } else if k == 3 && b == 7 && d == 3 {
        seq![25, 26, 28, 29, 30, 34, 40, 44, 45]
    } else if k == 3 && b == 7 && d == 4 {
        seq![28, 29, 32, 33, 37, 39, 42, 45, 48]
    } else if k == 3 && b == 7 && d == 5 {
        seq![24, 25, 26, 29, 30, 36, 43, 44, 45]
    } else if k == 3 && b == 7 && d == 6 {
        seq![25, 26, 28, 29, 30, 34, 36, 42, 43]
    } else if k == 3 && b == 7 && d == 7 {
        seq![24, 25, 26, 29, 34, 40, 46, 51, 56]
    } else if k == 3 && b == 7 && d == 8 {
        seq![25, 26, 28, 29, 30, 34, 36, 40, 43]
    } else if k == 3 && b == 7 && d == 9 {
        seq![25, 26, 28, 29, 30, 34, 36, 40, 43]
    } else if k == 3 && b == 8 && d == 0 {
        seq![25, 26, 27, 28, 29, 30, 33, 34, 36]
    } else if k == 3 && b == 8 && d == 1 {
        seq![26, 28, 29, 31, 32, 33, 38, 39, 44]
    } else if k == 3 && b == 8 && d == 2 {
        seq![25, 26, 27, 28, 29, 30, 33, 34, 39]
    } else if k == 3 && b == 8 && d == 3 {
        seq![25, 26, 27, 28, 29, 30, 33, 34, 39]
    } else if k == 3 && b == 8 && d == 4 {
        seq![27, 28, 29, 32, 37, 42, 45, 46, 47]
    } else if k == 3 && b == 8 && d == 5 {
        seq![24, 25, 26, 27, 29, 30, 33, 36, 39]
    } else if k == 3 && b == 8 && d == 6 {
        seq![25, 26, 27, 28, 29, 30, 33, 34, 36]
    } else if k == 3 && b == 8 && d == 7 {
        seq![24, 25, 26, 27, 29, 33, 34, 39, 40]
    } else if k == 3 && b == 8 && d == 8 {
        seq![25, 26, 27, 28, 29, 30, 33, 34, 36]
    } else if k == 3 && b == 8 && d == 9 {
        seq![25, 26, 27, 28, 29, 30, 33, 34, 36]
    } else if k == 3 && b == 9 && d == 0 {
        seq![25, 26, 27, 28, 29, 30, 33, 34, 36]
    } else if k == 3 && b == 9 && d == 1 {
        seq![26, 28, 29, 31, 32, 33, 38, 39, 44]
    } else if k == 3 && b == 9 && d == 2 {
        seq![25, 26, 27, 28, 29, 30, 33, 34, 39]
    } else if k == 3 && b == 9 && d == 3 {
        seq![25, 26, 27, 28, 29, 30, 33, 34, 39]
    } else if k == 3 && b == 9 && d == 4 {
        seq![27, 28, 29, 32, 37, 42, 45, 46, 47]
    } else if k == 3 && b == 9 && d == 5 {
        seq![24, 25, 26, 27, 29, 30, 33, 36, 39]
    } else if k == 3 && b == 9 && d == 6 {
        seq![25, 26, 27, 28, 29, 30, 33, 34, 36]
    } else if k == 3 && b == 9 && d == 7 {
        seq![24, 25, 26, 27, 29, 33, 34, 39, 40]
    } else if k == 3 && b == 9 && d == 8 {
        seq![25, 26, 27, 28, 29, 30, 33, 34, 36]
    } else if k == 3 && b == 9 && d == 9 {
        seq![25, 26, 27, 28, 29, 30, 33, 34, 36]
    } else if k == 4 && b == 0 && d == 0 {
        seq![25, 26, 28, 29, 30, 32, 34, 36, 38]
    } else if k == 4 && b == 0 && d == 1 {
        seq![26, 27, 28, 29, 31, 62, 63, 64, 65]
    } else if k == 4 && b == 0 && d == 2 {
        seq![25, 26, 28, 29, 30, 32, 34, 38, 40]
    } else if k == 4 && b == 0 && d == 3 {
        seq![25, 26, 28, 29, 30, 32, 34, 38, 40]
    } else if k == 4 && b == 0 && d == 4 {
        seq![28, 29, 33, 37, 38, 39, 42, 44, 45]
    } else if k == 4 && b == 0 && d == 5 {
        seq![24, 25, 26, 29, 30, 32, 36, 38, 43]
    } else if k == 4 && b == 0 && d == 6 {
        seq![25, 26, 28, 29, 30, 32, 34, 36, 38]
    } else if k == 4 && b == 0 && d == 7 {
        seq![24, 25, 26, 29, 32, 34, 38, 40, 44]
    } else if k == 4 && b == 0 && d == 8 {
        seq![25, 26, 28, 29, 30, 32, 34, 36, 38]
    } else if k == 4 && b == 0 && d == 9 {
        seq![25, 26, 28, 29, 30, 32, 34, 36, 38]
    } else if k == 4 && b == 1 && d == 0 {
        seq![25, 26, 27, 28, 30, 33, 36, 42, 48]
    } else if k == 4 && b == 1 && d == 1 {
        seq![26, 28, 31, 32, 33, 34, 38, 40, 44]
    } else if k == 4 && b == 1 && d == 2 {
        seq![25, 26, 27, 28, 30, 33, 45, 46, 50]
    } else if k == 4 && b == 1 && d == 3 {
        seq![25, 26, 27, 28, 30, 33, 44, 45, 46]
    } else if k == 4 && b == 1 && d == 4 {
        seq![27, 28, 32, 34, 37, 39, 40, 42, 45]
    } else if k == 4 && b == 1 && d == 5 {
        seq![24, 25, 26, 27, 30, 33, 34, 36, 40]
    } else if k == 4 && b == 1 && d == 6 {
        seq![25, 26, 27, 28, 30, 33, 36, 40, 42]
    } else if k == 4 && b == 1 && d == 7 {
        seq![24, 25, 26, 27, 33, 51, 52, 56, 58]
    } else if k == 4 && b == 1 && d == 8 {
        seq![25, 26, 27, 28, 30, 33, 36, 43, 44]
    } else if k == 4 && b == 1 && d == 9 {
        seq![25, 26, 27, 28, 30, 33, 36, 43, 44]
    } else if k == 4 && b == 2 && d == 0 {
        seq![25, 26, 28, 29, 30, 32, 34, 36, 40]
    } else if k == 4 && b == 2 && d == 1 {
        seq![26, 27, 28, 29, 31, 38, 44, 47, 50]
    } else if k == 4 && b == 2 && d == 2 {
        seq![25, 26, 28, 29, 30, 32, 34, 40, 45]
    } else if k == 4 && b == 2 && d == 3 {
        seq![25, 26, 28, 29, 30, 32, 34, 40, 44]
    } else if k == 4 && b == 2 && d == 4 {
        seq![28, 29, 33, 37, 39, 42, 45, 47, 48]
    } else if k == 4 && b == 2 && d == 5 {
        seq![24, 25, 26, 29, 30, 32, 36, 43, 44]
    } else if k == 4 && b == 2 && d == 6 {
        seq![25, 26, 28, 29, 30, 32, 34, 36, 42]
    } else if k == 4 && b == 2 && d == 7 {
        seq![24, 25, 26, 29, 32, 34, 40, 46, 47]
    } else if k == 4 && b == 2 && d == 8 {
        seq![25, 26, 28, 29, 30, 32, 34, 36, 40]
    } else if k == 4 && b == 2 && d == 9 {
        seq![25, 26, 28, 29, 30, 32, 34, 36, 40]
    } else if k == 4 && b == 3 && d == 0 {
        seq![25, 26, 28, 29, 30, 32, 34, 36, 40]
    } else if k == 4 && b == 3 && d == 1 {
        seq![26, 27, 28, 29, 31, 38, 44, 46, 47]
    } else if k == 4 && b == 3 && d == 2 {
        seq![25, 26, 28, 29, 30, 32, 34, 40, 45]
    } else if k == 4 && b == 3 && d == 3 {
        seq![25, 26, 28, 29, 30, 32, 34, 40, 44]
    } else if k == 4 && b == 3 && d == 4 {
        seq![28, 29, 33, 37, 39, 42, 45, 46, 47]
    } else if k == 4 && b == 3 && d == 5 {
        seq![24, 25, 26, 29, 30, 32, 36, 43, 44]
    } else if k == 4 && b == 3 && d == 6 {
        seq![25, 26, 28, 29, 30, 32, 34, 36, 42]
    } else if k == 4 && b == 3 && d == 7 {
        seq![24, 25, 26, 29, 32, 34, 40, 47, 51]
    } else if k == 4 && b == 3 && d == 8 {
        seq![25, 26, 28, 29, 30, 32, 34, 36, 40]
    } else if k == 4 && b == 3 && d == 9 {
        seq![25, 26, 28, 29, 30, 32, 34, 36, 40]
    } else if k == 4 && b == 4 && d == 0 {
        seq![25, 26, 27, 29, 30, 35, 36, 39, 40]
    } else if k == 4 && b == 4 && d == 1 {
        seq![26, 29, 31, 32, 34, 35, 38, 39, 41]
    } else if k == 4 && b == 4 && d == 2 {
        seq![25, 26, 27, 29, 30, 35, 39, 40, 41]
    } else if k == 4 && b == 4 && d == 3 {
        seq![25, 26, 27, 29, 30, 35, 39, 40, 41]
    } else if k == 4 && b == 4 && d == 4 {
        seq![27, 29, 32, 33, 34, 35, 37, 41, 42]
    } else if k == 4 && b == 4 && d == 5 {
        seq![24, 25, 26, 27, 28, 29, 30, 34, 35]
    } else if k == 4 && b == 4 && d == 6 {
        seq![25, 26, 27, 29, 30, 35, 36, 39, 41]
    } else if k == 4 && b == 4 && d == 7 {
        seq![24, 25, 26, 27, 28, 29, 35, 39, 40]
    } else if k == 4 && b == 4 && d == 8 {
        seq![25, 26, 27, 29, 30, 35, 36, 39, 40]
    } else if k == 4 && b == 4 && d == 9 {
        seq![25, 26, 27, 29, 30, 35, 36, 39, 40]
    } else if k == 4 && b == 5 && d == 0 {
        seq![25, 28, 29, 30, 32, 34, 36, 38, 40]
    } else if k == 4 && b == 5 && d == 1 {
        seq![27, 28, 29, 31, 44, 45, 46, 47, 50]
    } else if k == 4 && b == 5 && d == 2 {
        seq![25, 28, 29, 30, 32, 34, 38, 40, 46]
    } else if k == 4 && b == 5 && d == 3 {
        seq![25, 28, 29, 30, 32, 34, 38, 40, 44]
    } else if k == 4 && b == 5 && d == 4 {
        seq![26, 28, 29, 33, 37, 38, 39, 42, 46]
    } else if k == 4 && b == 5 && d == 5 {
        seq![24, 25, 29, 30, 32, 36, 38, 43, 44]
    } else if k == 4 && b == 5 && d == 6 {
        seq![25, 28, 29, 30, 32, 34, 36, 38, 42]
    } else if k == 4 && b == 5 && d == 7 {
        seq![24, 25, 29, 32, 34, 38, 40, 45, 47]
    } else if k == 4 && b == 5 && d == 8 {
        seq![25, 28, 29, 30, 32, 34, 36, 38, 40]
    } else if k == 4 && b == 5 && d == 9 {
        seq![25, 28, 29, 30, 32, 34, 36, 38, 40]
    } else if k == 4 && b == 6 && d == 0 {
        seq![25, 26, 28, 29, 30, 32, 34, 36, 38]
    } else if k == 4 && b == 6 && d == 1 {
        seq![26, 27, 28, 29, 31, 45, 46, 47, 62]
    } else if k == 4 && b == 6 && d == 2 {
        seq![25, 26, 28, 29, 30, 32, 34, 38, 40]
    } else if k == 4 && b == 6 && d == 3 {
        seq![25, 26, 28, 29, 30, 32, 34, 38, 40]
    } else if k == 4 && b == 6 && d == 4 {
        seq![28, 29, 33, 37, 38, 39, 42, 44, 46]
    } else if k == 4 && b == 6 && d == 5 {
        seq![24, 25, 26, 29, 30, 32, 36, 38, 43]
    } else if k == 4 && b == 6 && d == 6 {
        seq![25, 26, 28, 29, 30, 32, 34, 36, 38]
    } else if k == 4 && b == 6 && d == 7 {
        seq![24, 25, 26, 29, 32, 34, 38, 40, 44]
    } else if k == 4 && b == 6 && d == 8 {
        seq![25, 26, 28, 29, 30, 32, 34, 36, 38]
    } else if k == 4 && b == 6 && d == 9 {
        seq![25, 26, 28, 29, 30, 32, 34, 36, 38]
    } else if k == 4 && b == 7 && d == 0 {
        seq![25, 28, 29, 30, 34, 36, 40, 42, 46]
    } else if k == 4 && b == 7 && d == 1 {
        seq![27, 28, 29, 31, 32, 38, 44, 50, 53]
    } else if k == 4 && b == 7 && d == 2 {
        seq![25, 28, 29, 30, 34, 40, 45, 50, 53]
    } else if k == 4 && b == 7 && d == 3 {
        seq![25, 28, 29, 30, 34, 40, 44, 45, 52]
    } else if k == 4 && b == 7 && d == 4 {
        seq![26, 28, 29, 32, 33, 37, 39, 42, 45]
    } else if k == 4 && b == 7 && d == 5 {
        seq![24, 25, 29, 30, 36, 43, 44, 45, 52]
    } else if k == 4 && b == 7 && d == 6 {
        seq![25, 28, 29, 30, 34, 36, 42, 43, 44]
    } else if k == 4 && b == 7 && d == 7 {
        seq![24, 25, 29, 34, 40, 46, 51, 53, 56]
    } else if k == 4 && b == 7 && d == 8 {
        seq![25, 28, 29, 30, 34, 36, 40, 43, 44]
    } else if k == 4 && b == 7 && d == 9 {
        seq![25, 28, 29, 30, 34, 36, 40, 43, 44]
    } else if k == 4 && b == 8 && d == 0 {
        seq![25, 26, 28, 29, 30, 32, 34, 36, 38]
    } else if k == 4 && b == 8 && d == 1 {
        seq![26, 27, 28, 29, 31, 44, 45, 46, 47]
    } else if k == 4 && b == 8 && d == 2 {
        seq![25, 26, 28, 29, 30, 32, 34, 38, 40]
    } else if k == 4 && b == 8 && d == 3 {
        seq![25, 26, 28, 29, 30, 32, 34, 38, 40]
    } else if k == 4 && b == 8 && d == 4 {
        seq![28, 29, 33, 37, 38, 39, 42, 46, 47]
    } else if k == 4 && b == 8 && d == 5 {
        seq![24, 25, 26, 29, 30, 32, 36, 38, 43]
    } else if k == 4 && b == 8 && d == 6 {
        seq![25, 26, 28, 29, 30, 32, 34, 36, 38]
    } else if k == 4 && b == 8 && d == 7 {
        seq![24, 25, 26, 29, 32, 34, 38, 40, 45]
    } else if k == 4 && b == 8 && d == 8 {
        seq![25, 26, 28, 29, 30, 32, 34, 36, 38]
    } else if k == 4 && b == 8 && d == 9 {
        seq![25, 26, 28, 29, 30, 32, 34, 36, 38]
    } else if k == 4 && b == 9 && d == 0 {
        seq![25, 26, 28, 29, 30, 32, 34, 36, 38]
    } else if k == 4 && b == 9 && d == 1 {
        seq![26, 27, 28, 29, 31, 44, 45, 46, 47]
    } else if k == 4 && b == 9 && d == 2 {
        seq![25, 26, 28, 29, 30, 32, 34, 38, 40]
    } else if k == 4 && b == 9 && d == 3 {
        seq![25, 26, 28, 29, 30, 32, 34, 38, 40]
    } else if k == 4 && b == 9 && d == 4 {
        seq![28, 29, 33, 37, 38, 39, 42, 46, 47]
    } else if k == 4 && b == 9 && d == 5 {
        seq![24, 25, 26, 29, 30, 32, 36, 38, 43]
    } else if k == 4 && b == 9 && d == 6 {
        seq![25, 26, 28, 29, 30, 32, 34, 36, 38]
    } else if k == 4 && b == 9 && d == 7 {
        seq![24, 25, 26, 29, 32, 34, 38, 40, 45]
    } else if k == 4 && b == 9 && d == 8 {
        seq![25, 26, 28, 29, 30, 32, 34, 36, 38]
    } else if k == 4 && b == 9 && d == 9 {
        seq![25, 26, 28, 29, 30, 32, 34, 36, 38]
    } else {
        Seq::empty()
    }
}

/// `gap9(k, b, d)` lists nine increasing positions of the cell where it
/// differs from template `d`.
spec fn gap9_ok(k: int, b: int, d: int) -> bool {
    let ws = gap9(k, b, d);
    let m = mix(10, b, k);
    &&& ws.len() == 9
    &&& ws[0] < ws[1]
    &&& ws[1] < ws[2]
    &&& ws[2] < ws[3]
    &&& ws[3] < ws[4]
    &&& ws[4] < ws[5]
    &&& ws[5] < ws[6]
    &&& ws[6] < ws[7]
    &&& ws[7] < ws[8]
    &&& 0 <= ws[0]
    &&& ws[8] < 84
    &&& m[ws[0]] != tpl_bit(d, ws[0])
    &&& m[ws[1]] != tpl_bit(d, ws[1])
    &&& m[ws[2]] != tpl_bit(d, ws[2])
    &&& m[ws[3]] != tpl_bit(d, ws[3])
    &&& m[ws[4]] != tpl_bit(d, ws[4])
    &&& m[ws[5]] != tpl_bit(d, ws[5])
    &&& m[ws[6]] != tpl_bit(d, ws[6])
    &&& m[ws[7]] != tpl_bit(d, ws[7])
    &&& m[ws[8]] != tpl_bit(d, ws[8])
}

/// A position where the cell `mix(10, b, 5)` differs from template `d`.
spec fn gap1(b: int, d: int) -> int {
    if b == 0 && d == 0 {
        25
    } else if b == 0 && d == 1 {
        27
    } else if b == 0 && d == 2 {
        25
    } else if b == 0 && d == 3 {
        25
    } else if b == 0 && d == 4 {
        26
    } else if b == 0 && d == 5 {
        24
    } else if b == 0 && d == 6 {
        25
    } else if b == 0 && d == 7 {
        24
    } else if b == 0 && d == 8 {
        25
    } else if b == 0 && d == 9 {
        25
    } else if b == 1 && d == 0 {
        25
    } else if b == 1 && d == 1 {
        26
    } else if b == 1 && d == 2 {
        25
    } else if b == 1 && d == 3 {
        25
    } else if b == 1 && d == 4 {
        37
    } else if b == 1 && d == 5 {
        24
    } else if b == 1 && d == 6 {
        25
    } else if b == 1 && d == 7 {
        24
    } else if b == 1 && d == 8 {
        25
    } else if b == 1 && d == 9 {
        25
    } else if b == 2 && d == 0 {
        25
    } else if b == 2 && d == 1 {
        27
    } else if b == 2 && d == 2 {
        25
    } else if b == 2 && d == 3 {
        25
    } else if b == 2 && d == 4 {
        26
    } else if b == 2 && d == 5 {
        24
    } else if b == 2 && d == 6 {
        25
    } else if b == 2 && d == 7 {
        24
    } else if b == 2 && d == 8 {
        25
    } else if b == 2 && d == 9 {
        25
    } else if b == 3 && d == 0 {
        25
    } else if b == 3 && d == 1 {
        27
    } else if b == 3 && d == 2 {
        25
    } else if b == 3 && d == 3 {
        25
    } else if b == 3 && d == 4 {
        26
    } else if b == 3 && d == 5 {
        24
    } else if b == 3 && d == 6 {
        25
    } else if b == 3 && d == 7 {
        24
    } else if b == 3 && d == 8 {
        25
    } else if b == 3 && d == 9 {
        25
    } else if b == 4 && d == 0 {
        25
    } else if b == 4 && d == 1 {
        26
    } else if b == 4 && d == 2 {
        25
    } else if b == 4 && d == 3 {
        25
    } else if b == 4 && d == 4 {
        27
    } else if b == 4 && d == 5 {
        24
    } else if b == 4 && d == 6 {
        25
    } else if b == 4 && d == 7 {
        24
    } else if b == 4 && d == 8 {
        25
    } else if b == 4 && d == 9 {
        25
    } else if b == 5 && d == 0 {
        28
    } else if b == 5 && d == 1 {
        25
    } else if b == 5 && d == 2 {
        28
    } else if b == 5 && d == 3 {
        28
    } else if b == 5 && d == 4 {
        25
    } else if b == 5 && d == 5 {
        24
    } else if b == 5 && d == 6 {
        28
    } else if b == 5 && d == 7 {
        24
    } else if b == 5 && d == 8 {
        28
    } else if b == 5 && d == 9 {
        28
    } else if b == 6 && d == 0 {
        25
    } else if b == 6 && d == 1 {
        27
    } else if b == 6 && d == 2 {
        25
    } else if b == 6 && d == 3 {
        25
    } else if b == 6 && d == 4 {
        26
    } else if b == 6 && d == 5 {
        24
    } else if b == 6 && d == 6 {
        25
    } else if b == 6 && d == 7 {
        24
    } else if b == 6 && d == 8 {
        25
    } else if b == 6 && d == 9 {
        25
    } else if b == 7 && d == 0 {
        28
    } else if b == 7 && d == 1 {
        25
    } else if b == 7 && d == 2 {
        28
    } else if b == 7 && d == 3 {
        28
    } else if b == 7 && d == 4 {
        25
    } else if b == 7 && d == 5 {
        24
    } else if b == 7 && d == 6 {
        28
    } else if b == 7 && d == 7 {
        24
    } else if b == 7 && d == 8 {
        28
    } else if b == 7 && d == 9 {
        28
    } else if b == 8 && d == 0 {
        25
    } else if b == 8 && d == 1 {
        27
    } else if b == 8 && d == 2 {
        25
    } else if b == 8 && d == 3 {
        25
    } else if b == 8 && d == 4 {
        26
    } else if b == 8 && d == 5 {
        24
    } else if b == 8 && d == 6 {
        25
    } else if b == 8 && d == 7 {
        24
    } else if b == 8 && d == 8 {
        25
    } else if b == 8 && d == 9 {
        25
    } else if b == 9 && d == 0 {
        25
    } else if b == 9 && d == 1 {
        27
    } else if b == 9 && d == 2 {
        25
    } else if b == 9 && d == 3 {
        25
    } else if b == 9 && d == 4 {
        26
    } else if b == 9 && d == 5 {
        24
    } else if b == 9 && d == 6 {
        25
    } else if b == 9 && d == 7 {
        24
    } else if b == 9 && d == 8 {
        25
    } else if b == 9 && d == 9 {
        25
    } else {
        0
    }
}

#[verifier::rlimit(100)]
#[verifier::spinoff_prover]
proof fn lemma_gap9_k1(b: int, d: int)
    requires
        0 <= b < 10,
        0 <= d < 10,
        b != 1,
    ensures
        gap9_ok(1, b, d),
{
}

#[verifier::rlimit(100)]
#[verifier::spinoff_prover]
proof fn lemma_gap9_k2(b: int, d: int)
    requires
        0 <= b < 10,
        0 <= d < 10,
    ensures
        gap9_ok(2, b, d),
{
}

#[verifier::rlimit(100)]
#[verifier::spinoff_prover]
proof fn lemma_gap9_k3(b: int, d: int)
    requires
        0 <= b < 10,
        0 <= d < 10,
    ensures
        gap9_ok(3, b, d),
{
}

#[verifier::rlimit(100)]
#[verifier::spinoff_prover]
proof fn lemma_gap9_k4(b: int, d: int)
    requires
        0 <= b < 10,
        0 <= d < 10,
    ensures
        gap9_ok(4, b, d),
{
}

#[verifier::rlimit(100)]
#[verifier::spinoff_prover]
proof fn lemma_gap1(b: int, d: int)
    requires
        0 <= b < 10,
        0 <= d < 10,
    ensures
        0 <= gap1(b, d) < 84,
        mix(10, b, 5)[gap1(b, d)] != tpl_bit(d, gap1(b, d)),
{
}

/// A mask differs from template `d` at least at the listed increasing
/// positions below `k`.
proof fn lemma_mismatch_at_least(m: Seq<u8>, d: int, k: int, ws: Seq<int>)
    requires
        0 <= k,
        forall|j: int| 0 <= j < ws.len() ==> 0 <= #[trigger] ws[j] < k && m[ws[j]] != tpl_bit(d, ws[j]),
        forall|j1: int, j2: int| 0 <= j1 < j2 < ws.len() ==> ws[j1] < ws[j2],
    ensures
        mismatch(m, d, k) >= ws.len(),
    decreases k,
{
    if ws.len() > 0 {
        assert(0 <= ws[0] < k);
    }
    if k > 0 && ws.len() > 0 {
        let last = ws.len() - 1;
        if ws[last] == k - 1 {
            assert(0 <= ws[last] < k && m[ws[last]] != tpl_bit(d, ws[last]));
            let ws2 = ws.drop_last();
            assert forall|j: int| 0 <= j < ws2.len() implies 0 <= #[trigger] ws2[j] < k - 1 && m[ws2[j]] != tpl_bit(
                d,
                ws2[j],
            ) by {
                assert(ws[j] < ws[last]);
            }
            lemma_mismatch_at_least(m, d, k - 1, ws2);
        } else {
            assert forall|j: int| 0 <= j < ws.len() implies 0 <= #[trigger] ws[j] < k - 1 && m[ws[j]] != tpl_bit(
                d,
                ws[j],
            ) by {
                if j < last {
                    assert(ws[j] < ws[last]);
                }
            }
            lemma_mismatch_at_least(m, d, k - 1, ws);
        }
    }
}

/// The best template scan never goes under a floor that every remaining
/// template distance and the best so far respect.
proof fn lemma_scan_floor(m: Seq<u8>, d: int, bm: nat, bd: int, lo: nat)
    requires
        bm >= lo,
        forall|e: int| d <= e < 10 ==> dist_spec(m, e) >= lo,
    ensures
        best_scan(m, d, bm, bd).0 >= lo,
    decreases 10 - d,
{
    if d < 10 {
        if dist_spec(m, d) < bm {
            lemma_scan_floor(m, d + 1, dist_spec(m, d), d, lo);
        } else {
            lemma_scan_floor(m, d + 1, bm, bd, lo);
        }
    }
}

/// Left of the value, a cell with the blank and the first `k < 5` columns of
/// digit `b` is empty or far from every template.
proof fn lemma_left_edge_loose(k: int, b: int)
    requires
        1 <= k <= 4,
        0 <= b < 10,
    ensures
        no_ink(mix(10, b, k)) || best_match(mix(10, b, k)).0 > SOLID_MAX_MIS,
{
    let m = mix(10, b, k);
    if k == 1 && b == 1 {
        assert forall|i: int| 0 <= i < m.len() implies m[i] == 0 by {
            assert(TPL[1][i / 6][0] == 0);
        }
    } else {
        assert forall|d: int| 0 <= d < 10 implies dist_spec(m, d) >= 9 by {
            if k == 1 {
                lemma_gap9_k1(b, d);
            } else if k == 2 {
                lemma_gap9_k2(b, d);
            } else if k == 3 {
                lemma_gap9_k3(b, d);
            } else {
                lemma_gap9_k4(b, d);
            }
            let ws = gap9(k, b, d);
            assert forall|j: int| 0 <= j < ws.len() implies 0 <= #[trigger] ws[j] < 84 && m[ws[j]] != tpl_bit(
                d,
                ws[j],
            ) by {
                assert(j == 0 || j == 1 || j == 2 || j == 3 || j == 4 || j == 5 || j == 6 || j == 7 || j == 8);
            }
            assert forall|j1: int, j2: int| 0 <= j1 < j2 < ws.len() implies ws[j1] < ws[j2] by {
                assert(ws[0] < ws[1] < ws[2] < ws[3] < ws[4] < ws[5] < ws[6] < ws[7] < ws[8]);
            }
            lemma_mismatch_at_least(m, d, 84, ws);
        }
        lemma_scan_floor(m, 1, dist_spec(m, 0), 0, 9);
    }
}

/// Left of the value, a cell with the blank and the first five columns of
/// digit `b` never matches a template exactly.
proof fn lemma_left_edge_five(b: int)
    requires
        0 <= b < 10,
    ensures
        best_match(mix(10, b, 5)).0 >= 1,
{
    let m = mix(10, b, 5);
    assert forall|d: int| 0 <= d < 10 implies dist_spec(m, d) >= 1 by {
        lemma_gap1(b, d);
        lemma_mismatch_pos(m, d, 84, gap1(b, d));
    }
    lemma_scan_floor(m, 1, dist_spec(m, 0), 0, 1);
}

/// The last column of every glyph is blank.
proof fn lemma_last_column_blank(a: int)
    ensures
        no_ink(mix(a, 10, 5)),
{
    lemma_tpl_shape();
}

/// Decoding stops at a cell without ink: at most one solid cell per cell
/// before it, and the cost only grows.
proof fn lemma_decode_limit(px: Seq<u8>, w: int, x0: int, i: int, ds: Seq<u8>, cost: nat, sol: nat, lim: int)
    requires
        0 <= i <= lim <= 12,
        lim < 12 ==> no_ink(cell_mask(px, w, x0 + 6 * lim)),
    ensures
        decode_from(px, w, x0, i, ds, cost, sol).2 <= sol + (lim - i),
        decode_from(px, w, x0, i, ds, cost, sol).1 >= cost,
    decreases 12 - i,
{
    if i < 12 && i < lim {
        let m = cell_mask(px, w, x0 + 6 * i);
        if !no_ink(m) {
            let (mis, d) = best_match(m);
            if mis <= STOP_MIS {
                lemma_decode_limit(
                    px,
                    w,
                    x0,
                    i + 1,
                    ds.push(d as u8),
                    cost + mis,
                    sol + if mis <= SOLID_MAX_MIS {
                        1nat
                    } else {
                        0nat
                    },
                    lim,
                );
            }
        }
    }
}

/// A start `x0` of the search window other than the value's own column `gx0`
/// reads nothing, or at most as many solid cells as there are digits, and
/// a start left of `gx0` also pays some mismatch.
proof fn lemma_decode_other(px: Seq<u8>, value: Seq<u8>, gx0: int, w: int, h: int, x0: int)
    requires
        is_synth(px, value, gx0, w, h),
        1 <= value.len() <= 12,
        X0_LO <= gx0 <= X0_HI,
        X0_LO <= x0 <= X0_HI,
        x0 != gx0,
        X0_HI + 72 <= w,
    ensures
        ({
            let r = decode_spec(px, w, x0);
            r.0.len() == 0 || (r.2 <= value.len() && (x0 < gx0 ==> r.1 >= 1))
        }),
{
    let n = value.len() as int;
    let j = x0 - gx0;
    if j > 0 {
        let lim = if n < 12 {
            n
        } else {
            12
        };
        if lim < 12 {
            let q = (j + 6 * n) / 6;
            let rm = (j + 6 * n) % 6;
            lemma_cell_is_mix(px, value, gx0, w, h, x0 + 6 * lim, q, rm);
        }
        lemma_decode_limit(px, w, x0, 0, Seq::empty(), 0, 0, lim);
    } else if j <= -6 {
        let q = j / 6;
        let rm = j % 6;
        lemma_cell_is_mix(px, value, gx0, w, h, x0, q, rm);
    } else {
        let k = j + 6;
        lemma_cell_is_mix(px, value, gx0, w, h, x0, -1, k);
        let m0 = cell_mask(px, w, x0);
        let b = glyph_at(value, 0);
        assert(48 <= value[0] <= 57);
        if !no_ink(m0) {
            let (mis, d) = best_match(m0);
            if mis <= STOP_MIS {
                let ds1 = Seq::<u8>::empty().push(d as u8);
                if k <= 4 {
                    lemma_left_edge_loose(k, b);
                    let lim = if n + 1 < 12 {
                        n + 1
                    } else {
                        12
                    };
                    if lim < 12 {
                        lemma_cell_is_mix(px, value, gx0, w, h, x0 + 6 * lim, n, k);
                    }
                    lemma_decode_limit(px, w, x0, 1, ds1, mis, 0, lim);
                } else {
                    lemma_left_edge_five(b);
                    let lim = n;
                    if lim < 12 {
                        lemma_cell_is_mix(px, value, gx0, w, h, x0 + 6 * lim, n - 1, 5);
                        lemma_last_column_blank(glyph_at(value, n - 1));
                    }
                    lemma_decode_limit(
                        px,
                        w,
                        x0,
                        1,
                        ds1,
                        mis,
                        if mis <= SOLID_MAX_MIS {
                            1nat
                        } else {
                            0nat
                        },
                        lim,
                    );
                }
            }
        }
    }
}

/// From the value's own column the reader takes every drawn digit exactly.
proof fn lemma_decode_own(px: Seq<u8>, value: Seq<u8>, gx0: int, w: int, h: int)
    requires
        is_synth(px, value, gx0, w, h),
        1 <= value.len() <= 12,
        0 <= gx0,
        gx0 + 72 <= w,
    ensures
        decode_spec(px, w, gx0) == (drawn_digits(value), 0nat, value.len() as nat),
{
    assert(drawn_digits(value).take(0) =~= Seq::<u8>::empty());
    lemma_decode_aligned(px, value, gx0, w, h, 0);
}

/// The scan of the search window from `x0` on ends with the drawn value:
/// no start before the value's column does as well as it, and none after
/// does better.
proof fn lemma_scan_reads_back(
    px: Seq<u8>,
    value: Seq<u8>,
    gx0: int,
    w: int,
    h: int,
    x0: int,
    best: Option<(nat, nat, int)>,
)
    requires
        is_synth(px, value, gx0, w, h),
        1 <= value.len() <= 12,
        X0_LO <= gx0 <= X0_HI,
        X0_HI + 72 <= w,
        X0_LO <= x0 <= X0_HI + 1,
        x0 <= gx0 ==> (best matches Some(b) ==> b.0 <= value.len() && (b.0 == value.len() ==> b.1 >= 1)),
        x0 > gx0 ==> best == Some((value.len() as nat, 0nat, digits_value(drawn_digits(value)))),
    ensures
        native_scan(px, w, x0, best) == Some((value.len() as nat, 0nat, digits_value(drawn_digits(value)))),
    decreases X0_HI + 1 - x0,
{
    let n = value.len() as nat;
    let v = digits_value(drawn_digits(value));
    if x0 <= X0_HI {
        let (ds, cost, solids) = decode_spec(px, w, x0);
        if x0 == gx0 {
            lemma_decode_own(px, value, gx0, w, h);
            lemma_scan_reads_back(px, value, gx0, w, h, x0 + 1, Some((n, 0nat, v)));
        } else {
            lemma_decode_other(px, value, gx0, w, h, x0);
            if ds.len() == 0 {
                lemma_scan_reads_back(px, value, gx0, w, h, x0 + 1, best);
            } else {
                let better = match best {
                    None => true,
                    Some((bs, bc, _)) => solids > bs || (solids == bs && cost < bc),
                };
                let next = if better {
                    Some((solids, cost, digits_value(ds)))
                } else {
                    best
                };
                lemma_scan_reads_back(px, value, gx0, w, h, x0 + 1, next);
            }
        }
    }
}

/// Law: a value of one to twelve digits drawn with `synth_value_frame`, its
/// first digit starting at any column of the reader's search window, is
/// read back by the fixed-geometry reader.
pub proof fn lemma_native_reads_back(px: Seq<u8>, value: Seq<u8>, gx0: int, w: int, h: int)
    requires
        is_synth(px, value, gx0, w, h),
        1 <= value.len() <= 12,
        X0_LO <= gx0 <= X0_HI,
        X0_HI + 72 <= w,
    ensures
        native_spec(px, w, h) == Some(digits_value(drawn_digits(value))),
{
    lemma_scan_reads_back(px, value, gx0, w, h, X0_LO as int, None);
}

/// A grey pixel matches neither block colour.
proof fn lemma_grey_no_hue(hue: Hue, c: u8)
    requires
        c == 40 || c == 240,
    ensures
        !hue_match(hue, c, c, c),
{
    if c == 40 {
        assert(hsv_spec(40, 40, 40).1 == 0);
    } else {
        assert(max3(240, 240, 240) == 240 && min3(240, 240, 240) == 240);
        assert((510 * 0 + 240) / (2 * 240) == 0int) by (nonlinear_arith);
        assert(hsv_spec(240, 240, 240).1 == 0);
    }
}

/// No pixel of a synthetic capture has a block colour: the colour mask of
/// any band is all zero.
proof fn lemma_synth_mask_zero(
    px: Seq<u8>,
    value: Seq<u8>,
    gx0: int,
    w: int,
    h: int,
    b0: int,
    hue: Hue,
    k: int,
)
    requires
        is_synth(px, value, gx0, w, h),
        0 <= b0 < h,
        0 <= k < w * (h - b0),
    ensures
        band_mask(px, w, b0, h - b0, hue)[k] == 0,
{
    let x = k % w;
    let y = b0 + k / w;
    lemma_cell_range(k, w, h - b0);
    lemma_synth_luma(px, value, gx0, w, h, x, y);
    lemma_pixel_coords(w, x, y);
    let o = px_off(w, x, y);
    assert((o + 0) / 4 == y * w + x && (o + 0) % 4 == 0);
    assert((o + 1) / 4 == y * w + x && (o + 1) % 4 == 1);
    assert((o + 2) / 4 == y * w + x && (o + 2) % 4 == 2);
    assert(px[o] == synth_byte(value, gx0, w, o));
    assert(px[o + 1] == synth_byte(value, gx0, w, o + 1));
    assert(px[o + 2] == synth_byte(value, gx0, w, o + 2));
    lemma_grey_no_hue(hue, px[o]);
}

/// A mask without set cells has no blocks.
proof fn lemma_no_blocks(m: Seq<u8>, w: int, b0: int, k: int)
    requires
        forall|j: int| 0 <= j < k ==> m[j] == 0,
    ensures
        blocks_upto(m, w, b0, k) == Seq::<Comp>::empty(),
    decreases k,
{
    if k > 0 {
        lemma_no_blocks(m, w, b0, k - 1);
    }
}

/// The colour search finds no shop button on a synthetic capture.
proof fn lemma_synth_no_shop(px: Seq<u8>, value: Seq<u8>, gx0: int, w: int, h: int)
    requires
        is_synth(px, value, gx0, w, h),
    ensures
        shop_spec(px, w, h) is None,
{
    let b0 = band_start(h);
    assert forall|hue: Hue| band_blocks(px, w, h, b0, hue) == Seq::<Comp>::empty() by {
        if !(b0 >= h || w <= 0) {
            let m = band_mask(px, w, b0, h - b0, hue);
            assert forall|j: int| 0 <= j < w * (h - b0) implies m[j] == 0 by {
                lemma_synth_mask_zero(px, value, gx0, w, h, b0, hue, j);
            }
            lemma_no_blocks(m, w, b0, w * (h - b0));
        }
    }
    assert(band_blocks(px, w, h, b0, Hue::Red) == Seq::<Comp>::empty());
}

/// Law: a value of one to twelve digits drawn with `synth_value_frame`, its
/// first digit starting at any column of the search window, is what the
/// reader reads from the capture (the colour search finds no bar there,
/// and the fixed-geometry reader reads the drawn digits).
pub proof fn lemma_drawn_value_reads_back(px: Seq<u8>, value: Seq<u8>, gx0: int, w: int, h: int)
    requires
        is_synth(px, value, gx0, w, h),
        1 <= value.len() <= 12,
        X0_LO <= gx0 <= X0_HI,
        X0_HI + 72 <= w,
    ensures
        exp_spec(px, w, h) == Some(digits_value(drawn_digits(value))),
        native_spec(px, w, h) == Some(digits_value(drawn_digits(value))),
{
    lemma_synth_no_shop(px, value, gx0, w, h);
    lemma_native_reads_back(px, value, gx0, w, h);
}

} // verus!
