//! EXP reading: the value digits of the game's EXP bar are fixed bitmaps,
//! one per digit, so each 6-pixel cell is thresholded into an 84-bit mask and
//! matched against ten embedded templates by Hamming distance.
//!
//! Geometry (native 1382×807 window): digit cells are 6 px wide with pitch 6,
//! template rows cover y = 765..779; the first cell starts somewhere in
//! x = 751..=762, so every start in that range is tried and the alignment with
//! the most solid cells (then the least total mismatch) wins.
//!
//! For other window sizes the bar is first located by colour (see `region`)
//! and the digits left of the bar's `[` are read with a size-normalised
//! version of the same templates.
use super::capture::BgraFrame;
use super::ocr::{band_spec, read_band_left_of_bracket};
use super::region::{bar_luma_seq, locate, locate_spec};
use vstd::prelude::*;

verus! {

/// Top row of the value area.
pub const Y_TOP: i32 = 765;
/// Rows per template.
pub const ROWS: i32 = 14;
/// Width of one digit cell.
pub const CELL_W: i32 = 6;
/// A pixel is ink when its luma is at least this.
pub const LUM_THR: i32 = 150;
/// First cell start searched.
pub const X0_LO: i32 = 751;
/// Last cell start searched.
pub const X0_HI: i32 = 762;
/// Bits in one cell mask (14 × 6).
pub const BITS: usize = 84;
/// A cell matching its best template with at most this many wrong bits is solid.
pub const SOLID_MAX_MIS: u32 = 8;
/// A cell whose best template has more wrong bits than this is not a digit.
pub const STOP_MIS: u32 = 15;
/// At most this many cells are read.
pub const MAX_CELLS: i32 = 12;

/// The ten digit glyphs, `TPL[d][row][col]`, 1 = ink.
pub const TPL: [[[u8; 6]; 14]; 10] = [
    // 0
    [
        [0, 0, 0, 0, 0, 0],
        [0, 0, 0, 0, 0, 0],
        [0, 0, 0, 0, 0, 0],
        [0, 0, 0, 0, 0, 0],
        [0, 1, 1, 1, 0, 0],
        [1, 0, 0, 0, 1, 0],
        [1, 0, 0, 0, 1, 0],
        [1, 0, 0, 0, 1, 0],
        [1, 0, 0, 0, 1, 0],
        [1, 0, 0, 0, 1, 0],
        [0, 1, 1, 1, 0, 0],
        [0, 0, 0, 0, 0, 0],
        [0, 0, 0, 0, 0, 0],
        [0, 0, 0, 0, 0, 0],
    ],
    // 1
    [
        [0, 0, 0, 0, 0, 0],
        [0, 0, 0, 0, 0, 0],
        [0, 0, 0, 0, 0, 0],
        [0, 0, 0, 0, 0, 0],
        [0, 0, 1, 0, 0, 0],
        [0, 1, 1, 0, 0, 0],
        [0, 0, 1, 0, 0, 0],
        [0, 0, 1, 0, 0, 0],
        [0, 0, 1, 0, 0, 0],
        [0, 0, 1, 0, 0, 0],
        [0, 0, 1, 0, 0, 0],
        [0, 0, 0, 0, 0, 0],
        [0, 0, 0, 0, 0, 0],
        [0, 0, 0, 0, 0, 0],
    ],
    // 2
    [
        [0, 0, 0, 0, 0, 0],
        [0, 0, 0, 0, 0, 0],
        [0, 0, 0, 0, 0, 0],
        [0, 0, 0, 0, 0, 0],
        [0, 1, 1, 1, 0, 0],
        [1, 0, 0, 0, 1, 0],
        [0, 0, 0, 0, 1, 0],
        [0, 0, 0, 1, 0, 0],
        [0, 0, 1, 0, 0, 0],
        [0, 1, 0, 0, 0, 0],
        [1, 1, 1, 1, 1, 0],
        [0, 0, 0, 0, 0, 0],
        [0, 0, 0, 0, 0, 0],
        [0, 0, 0, 0, 0, 0],
    ],
    // 3
    [
        [0, 0, 0, 0, 0, 0],
        [0, 0, 0, 0, 0, 0],
        [0, 0, 0, 0, 0, 0],
        [0, 0, 0, 0, 0, 0],
        [0, 1, 1, 1, 0, 0],
        [1, 0, 0, 0, 1, 0],
        [0, 0, 0, 0, 1, 0],
        [0, 0, 1, 1, 0, 0],
        [0, 0, 0, 0, 1, 0],
        [1, 0, 0, 0, 1, 0],
        [0, 1, 1, 1, 0, 0],
        [0, 0, 0, 0, 0, 0],
        [0, 0, 0, 0, 0, 0],
        [0, 0, 0, 0, 0, 0],
    ],
    // 4
    [
        [0, 0, 0, 0, 0, 0],
        [0, 0, 0, 0, 0, 0],
        [0, 0, 0, 0, 0, 0],
        [0, 0, 0, 0, 0, 0],
        [0, 0, 0, 1, 0, 0],
        [0, 0, 1, 1, 0, 0],
        [0, 1, 0, 1, 0, 0],
        [1, 0, 0, 1, 0, 0],
        [1, 1, 1, 1, 1, 0],
        [0, 0, 0, 1, 0, 0],
        [0, 0, 0, 1, 0, 0],
        [0, 0, 0, 0, 0, 0],
        [0, 0, 0, 0, 0, 0],
        [0, 0, 0, 0, 0, 0],
    ],
    // 5
    [
        [0, 0, 0, 0, 0, 0],
        [0, 0, 0, 0, 0, 0],
        [0, 0, 0, 0, 0, 0],
        [0, 0, 0, 0, 0, 0],
        [1, 1, 1, 1, 1, 0],
        [1, 0, 0, 0, 0, 0],
        [1, 0, 0, 0, 0, 0],
        [0, 1, 1, 1, 0, 0],
        [0, 0, 0, 0, 1, 0],
        [1, 0, 0, 0, 1, 0],
        [0, 1, 1, 1, 0, 0],
        [0, 0, 0, 0, 0, 0],
        [0, 0, 0, 0, 0, 0],
        [0, 0, 0, 0, 0, 0],
    ],
    // 6
    [
        [0, 0, 0, 0, 0, 0],
        [0, 0, 0, 0, 0, 0],
        [0, 0, 0, 0, 0, 0],
        [0, 0, 0, 0, 0, 0],
        [0, 1, 1, 1, 0, 0],
        [1, 0, 0, 0, 1, 0],
        [1, 0, 0, 0, 0, 0],
        [1, 1, 1, 1, 0, 0],
        [1, 0, 0, 0, 1, 0],
        [1, 0, 0, 0, 1, 0],
        [0, 1, 1, 1, 0, 0],
        [0, 0, 0, 0, 0, 0],
        [0, 0, 0, 0, 0, 0],
        [0, 0, 0, 0, 0, 0],
    ],
    // 7
    [
        [0, 0, 0, 0, 0, 0],
        [0, 0, 0, 0, 0, 0],
        [0, 0, 0, 0, 0, 0],
        [0, 0, 0, 0, 0, 0],
        [1, 1, 1, 1, 1, 0],
        [0, 0, 0, 0, 1, 0],
        [0, 0, 0, 0, 1, 0],
        [0, 0, 0, 0, 1, 0],
        [0, 0, 0, 1, 0, 0],
        [0, 0, 1, 0, 0, 0],
        [0, 0, 1, 0, 0, 0],
        [0, 0, 0, 0, 0, 0],
        [0, 0, 0, 0, 0, 0],
        [0, 0, 0, 0, 0, 0],
    ],
    // 8
    [
        [0, 0, 0, 0, 0, 0],
        [0, 0, 0, 0, 0, 0],
        [0, 0, 0, 0, 0, 0],
        [0, 0, 0, 0, 0, 0],
        [0, 1, 1, 1, 0, 0],
        [1, 0, 0, 0, 1, 0],
        [1, 0, 0, 0, 1, 0],
        [0, 1, 1, 1, 0, 0],
        [1, 0, 0, 0, 1, 0],
        [1, 0, 0, 0, 1, 0],
        [0, 1, 1, 1, 0, 0],
        [0, 0, 0, 0, 0, 0],
        [0, 0, 0, 0, 0, 0],
        [0, 0, 0, 0, 0, 0],
    ],
    // 9
    [
        [0, 0, 0, 0, 0, 0],
        [0, 0, 0, 0, 0, 0],
        [0, 0, 0, 0, 0, 0],
        [0, 0, 0, 0, 0, 0],
        [0, 1, 1, 1, 0, 0],
        [1, 0, 0, 0, 1, 0],
        [1, 0, 0, 0, 1, 0],
        [0, 1, 1, 1, 1, 0],
        [0, 0, 0, 0, 1, 0],
        [1, 0, 0, 0, 1, 0],
        [0, 1, 1, 1, 0, 0],
        [0, 0, 0, 0, 0, 0],
        [0, 0, 0, 0, 0, 0],
        [0, 0, 0, 0, 0, 0],
    ],
];

/// Template bit for digit `d` at mask position `i` (row `i / 6`, column `i % 6`).
pub open spec fn tpl_bit(d: int, i: int) -> u8 {
    TPL[d][i / 6][i % 6]
}

/// Rec.601 luma of a BGR pixel, rounded down.
pub open spec fn luma(b: u8, g: u8, r: u8) -> int {
    (299 * r + 587 * g + 114 * b) / 1000
}

/// Byte offset of pixel (x, y) in a frame `w` pixels wide.
pub open spec fn px_off(w: int, x: int, y: int) -> int {
    (y * w + x) * 4
}

/// Luma of pixel (x, y).
pub open spec fn luma_at(px: Seq<u8>, w: int, x: int, y: int) -> int {
    let o = px_off(w, x, y);
    luma(px[o], px[o + 1], px[o + 2])
}

/// Bit `i` of the cell mask starting at column `x0`: 1 when that pixel is ink.
pub open spec fn mask_bit(px: Seq<u8>, w: int, x0: int, i: int) -> u8 {
    if luma_at(px, w, x0 + i % 6, Y_TOP + i / 6) >= LUM_THR { 1 } else { 0 }
}

/// The cell mask starting at column `x0`.
pub open spec fn cell_mask(px: Seq<u8>, w: int, x0: int) -> Seq<u8> {
    Seq::new(84, |i: int| mask_bit(px, w, x0, i))
}

/// Mismatching bits between a mask and template `d` over the first `k` positions.
pub open spec fn mismatch(m: Seq<u8>, d: int, k: int) -> nat
    decreases k,
{
    if k <= 0 {
        0
    } else {
        mismatch(m, d, k - 1) + if m[k - 1] != tpl_bit(d, k - 1) { 1nat } else { 0nat }
    }
}

/// Hamming distance between a mask and template `d`.
pub open spec fn dist_spec(m: Seq<u8>, d: int) -> nat {
    mismatch(m, d, 84)
}

/// Scan for the closest template: smallest distance, smallest digit on ties.
pub open spec fn best_scan(m: Seq<u8>, d: int, bm: nat, bd: int) -> (nat, int)
    decreases 10 - d,
{
    if d >= 10 {
        (bm, bd)
    } else if dist_spec(m, d) < bm {
        best_scan(m, d + 1, dist_spec(m, d), d)
    } else {
        best_scan(m, d + 1, bm, bd)
    }
}

/// (distance, digit) of the closest template.
pub open spec fn best_match(m: Seq<u8>) -> (nat, int) {
    best_scan(m, 1, dist_spec(m, 0), 0)
}

/// The mask has no ink at all.
pub open spec fn no_ink(m: Seq<u8>) -> bool {
    forall|i: int| 0 <= i < m.len() ==> m[i] == 0
}

/// Reading cells from `i` on: stop at an empty cell or a non-digit cell;
/// result = (digits, total mismatch, solid cells).
pub open spec fn decode_from(
    px: Seq<u8>,
    w: int,
    x0: int,
    i: int,
    digits: Seq<u8>,
    cost: nat,
    solids: nat,
) -> (Seq<u8>, nat, nat)
    decreases 12 - i,
{
    if i >= 12 {
        (digits, cost, solids)
    } else {
        let m = cell_mask(px, w, x0 + 6 * i);
        if no_ink(m) {
            (digits, cost, solids)
        } else {
            let (mis, d) = best_match(m);
            if mis > STOP_MIS {
                (digits, cost, solids)
            } else {
                decode_from(
                    px,
                    w,
                    x0,
                    i + 1,
                    digits.push(d as u8),
                    cost + mis,
                    solids + if mis <= SOLID_MAX_MIS { 1nat } else { 0nat },
                )
            }
        }
    }
}

/// Digits read left to right from the cell starting at `x0`.
pub open spec fn decode_spec(px: Seq<u8>, w: int, x0: int) -> (Seq<u8>, nat, nat) {
    decode_from(px, w, x0, 0, Seq::empty(), 0, 0)
}

/// The number a digit string spells.
pub open spec fn digits_value(ds: Seq<u8>) -> int
    decreases ds.len(),
{
    if ds.len() == 0 {
        0
    } else {
        digits_value(ds.drop_last()) * 10 + ds.last()
    }
}

/// Powers of ten.
pub open spec fn pow10(k: nat) -> int
    decreases k,
{
    if k == 0 {
        1
    } else {
        10 * pow10((k - 1) as nat)
    }
}

/// Best alignment over the starts `x0..=X0_HI`: (solid cells, mismatch, value).
pub open spec fn native_scan(px: Seq<u8>, w: int, x0: int, best: Option<(nat, nat, int)>) -> Option<
    (nat, nat, int),
>
    decreases X0_HI + 1 - x0,
{
    if x0 > X0_HI {
        best
    } else {
        let (ds, cost, solids) = decode_spec(px, w, x0);
        if ds.len() == 0 {
            native_scan(px, w, x0 + 1, best)
        } else {
            let better = match best {
                None => true,
                Some((bs, bc, _)) => solids > bs || (solids == bs && cost < bc),
            };
            native_scan(
                px,
                w,
                x0 + 1,
                if better { Some((solids, cost, digits_value(ds))) } else { best },
            )
        }
    }
}

/// EXP read with the native 1382×807 geometry, `None` when the frame is too
/// small for it or no start yields a digit.
pub open spec fn native_spec(px: Seq<u8>, w: int, h: int) -> Option<int> {
    if w < X0_HI + 6 * 12 || h < Y_TOP + ROWS {
        None
    } else {
        match native_scan(px, w, X0_LO as int, None) {
            Some((_, _, v)) => Some(v),
            None => None,
        }
    }
}

/// A digit string spells a non-negative number.
proof fn lemma_digits_value_nonneg(ds: Seq<u8>)
    ensures
        digits_value(ds) >= 0,
    decreases ds.len(),
{
    if ds.len() > 0 {
        lemma_digits_value_nonneg(ds.drop_last());
    }
}

/// The value the window scan settles on is non-negative.
proof fn lemma_native_scan_nonneg(px: Seq<u8>, w: int, x0: int, best: Option<(nat, nat, int)>)
    requires
        best matches Some(b) ==> b.2 >= 0,
    ensures
        native_scan(px, w, x0, best) matches Some(b) ==> b.2 >= 0,
    decreases X0_HI + 1 - x0,
{
    if x0 <= X0_HI {
        let (ds, cost, solids) = decode_spec(px, w, x0);
        lemma_digits_value_nonneg(ds);
        if ds.len() == 0 {
            lemma_native_scan_nonneg(px, w, x0 + 1, best);
        } else {
            let better = match best {
                None => true,
                Some((bs, bc, _)) => solids > bs || (solids == bs && cost < bc),
            };
            lemma_native_scan_nonneg(
                px,
                w,
                x0 + 1,
                if better { Some((solids, cost, digits_value(ds))) } else { best },
            );
        }
    }
}

/// The native reading is never negative.
pub proof fn lemma_native_nonneg(px: Seq<u8>, w: int, h: int)
    ensures
        native_spec(px, w, h) matches Some(v) ==> v >= 0,
{
    lemma_native_scan_nonneg(px, w, X0_LO as int, None);
}

/// Offsets inside a well-formed frame are in range.
pub proof fn lemma_px_off(w: int, h: int, x: int, y: int)
    requires
        0 <= x < w,
        0 <= y < h,
    ensures
        0 <= px_off(w, x, y),
        px_off(w, x, y) + 3 < w * h * 4,
{
    assert(0 <= y * w) by (nonlinear_arith)
        requires
            y >= 0,
            w >= 0,
    ;
    assert(y * w + x < w * h) by (nonlinear_arith)
        requires
            0 <= x < w,
            0 <= y < h,
    ;
}

/// The 84-bit ink mask of the cell starting at column `x0`.
fn sample_mask(frame: &BgraFrame, x0: i32) -> (m: [u8; 84])
    requires
        frame.wf(),
        0 <= x0,
        x0 + CELL_W <= frame.w,
        Y_TOP + ROWS <= frame.h,
    ensures
        m@ =~= cell_mask(frame.pixels@, frame.w as int, x0 as int),
{
    let mut m = [0u8; 84];
    let w = frame.w as usize;
    let ghost px = frame.pixels@;
    let plen = frame.pixels.len();
    let mut r: usize = 0;
    while r < 14
        invariant
            plen == px.len(),
            frame.wf(),
            px == frame.pixels@,
            w == frame.w,
            0 <= x0,
            x0 + CELL_W <= frame.w,
            Y_TOP + ROWS <= frame.h,
            r <= 14,
            forall|i: int| 0 <= i < 6 * r ==> m[i] == mask_bit(px, w as int, x0 as int, i),
        decreases 14 - r,
    {
        let y = 765 + r;
        let mut c: usize = 0;
        while c < 6
            invariant
                plen == px.len(),
                frame.wf(),
                px == frame.pixels@,
                w == frame.w,
                0 <= x0,
                x0 + CELL_W <= frame.w,
                Y_TOP + ROWS <= frame.h,
                r < 14,
                y == 765 + r,
                c <= 6,
                forall|i: int| 0 <= i < 6 * r + c ==> m[i] == mask_bit(px, w as int, x0 as int, i),
            decreases 6 - c,
        {
            proof {
                lemma_px_off(w as int, frame.h as int, x0 + c, y as int);
                assert(frame.w * frame.h * 4 == px.len());
                assert(px_off(w as int, x0 + c, y as int) == (y * w + x0 + c) * 4);
                assert(0 <= y * w) by (nonlinear_arith)
                    requires
                        y >= 0,
                        w >= 0,
                ;
                assert((y * w + x0 + c) * 4 + 3 < plen);
            }
            let o = (y * w + x0 as usize + c) * 4;
            let b = frame.pixels[o];
            let g = frame.pixels[o + 1];
            let rr = frame.pixels[o + 2];
            let lum = (299 * rr as i32 + 587 * g as i32 + 114 * b as i32) / 1000;
            let bit: u8 = if lum >= LUM_THR {
                1
            } else {
                0
            };
            proof {
                let i = 6 * r + c;
                assert(i / 6 == r && i % 6 == c) by (nonlinear_arith)
                    requires
                        i == 6 * r + c,
                        0 <= c < 6,
                ;
                assert(o == px_off(w as int, x0 + c, y as int));
            }
            m[6 * r + c] = bit;
            c = c + 1;
        }
        r = r + 1;
    }
    m
}

/// Hamming distance between a mask and template `d`.
fn dist(m: &[u8; 84], d: usize) -> (r: u32)
    requires
        d < 10,
    ensures
        r == dist_spec(m@, d as int),
{
    let mut k: usize = 0;
    let mut acc: u32 = 0;
    while k < 84
        invariant
            d < 10,
            k <= 84,
            acc == mismatch(m@, d as int, k as int),
            acc <= k,
        decreases 84 - k,
    {
        let t = TPL[d][k / 6][k % 6];
        if m[k] != t {
            acc = acc + 1;
        }
        k = k + 1;
    }
    acc
}

/// (distance, digit) of the closest template, smallest digit on ties.
fn best(m: &[u8; 84]) -> (r: (u32, u8))
    ensures
        r.0 == best_match(m@).0,
        r.1 == best_match(m@).1,
        r.1 < 10,
        r.0 <= 84,
{
    let mut bm = dist(m, 0);
    let mut bd: usize = 0;
    let mut d: usize = 1;
    proof {
        lemma_mismatch_bound(m@, 0, 84);
    }
    while d < 10
        invariant
            1 <= d <= 10,
            bd < 10,
            bm <= 84,
            best_match(m@) == best_scan(m@, d as int, bm as nat, bd as int),
        decreases 10 - d,
    {
        let x = dist(m, d);
        proof {
            lemma_mismatch_bound(m@, d as int, 84);
        }
        if x < bm {
            bm = x;
            bd = d;
        }
        d = d + 1;
    }
    (bm, bd as u8)
}

proof fn lemma_mismatch_bound(m: Seq<u8>, d: int, k: int)
    ensures
        mismatch(m, d, k) <= if k < 0 { 0 } else { k },
    decreases k,
{
    if k > 0 {
        lemma_mismatch_bound(m, d, k - 1);
    }
}

proof fn lemma_digits_value_bound(ds: Seq<u8>)
    requires
        forall|i: int| 0 <= i < ds.len() ==> ds[i] < 10,
    ensures
        0 <= digits_value(ds) < pow10(ds.len()),
    decreases ds.len(),
{
    if ds.len() > 0 {
        let t = ds.drop_last();
        assert forall|i: int| 0 <= i < t.len() implies t[i] < 10 by {
            assert(t[i] == ds[i]);
        }
        lemma_digits_value_bound(t);
        assert(ds.last() < 10) by {
            assert(ds.last() == ds[ds.len() - 1]);
        }
        assert(digits_value(t) * 10 + ds.last() < pow10(t.len()) * 10) by (nonlinear_arith)
            requires
                0 <= digits_value(t) < pow10(t.len()),
                0 <= ds.last() < 10,
        ;
    }
}

proof fn lemma_pow10_12()
    ensures
        pow10(12) == 1_000_000_000_000,
{
    reveal_with_fuel(pow10, 13);
}

/// Powers of ten grow with the exponent.
pub proof fn lemma_pow10_mono(a: nat, b: nat)
    requires
        a <= b,
    ensures
        pow10(a) <= pow10(b),
        pow10(a) >= 1,
    decreases b,
{
    if b > a {
        lemma_pow10_mono(a, (b - 1) as nat);
    } else if a > 0 {
        lemma_pow10_mono((a - 1) as nat, (a - 1) as nat);
    }
}

/// Digits, total mismatch and solid-cell count read from the cell at `x0` on.
fn decode_at(frame: &BgraFrame, x0: i32) -> (r: (Vec<u8>, u32, u32))
    requires
        frame.wf(),
        0 <= x0,
        x0 + 72 <= frame.w,
        Y_TOP + ROWS <= frame.h,
    ensures
        r.0@ == decode_spec(frame.pixels@, frame.w as int, x0 as int).0,
        r.1 == decode_spec(frame.pixels@, frame.w as int, x0 as int).1,
        r.2 == decode_spec(frame.pixels@, frame.w as int, x0 as int).2,
        r.0@.len() <= 12,
        forall|i: int| 0 <= i < r.0@.len() ==> r.0@[i] < 10,
{
    let ghost px = frame.pixels@;
    let ghost w = frame.w as int;
    let mut digits: Vec<u8> = Vec::new();
    let mut cost: u32 = 0;
    let mut solids: u32 = 0;
    let mut i: i32 = 0;
    while i < 12
        invariant
            frame.wf(),
            px == frame.pixels@,
            w == frame.w,
            0 <= x0,
            x0 + 72 <= frame.w,
            Y_TOP + ROWS <= frame.h,
            0 <= i <= 12,
            digits@.len() == i,
            cost <= 15 * i,
            solids <= i,
            forall|k: int| 0 <= k < digits@.len() ==> digits@[k] < 10,
            decode_spec(px, w, x0 as int) == decode_from(
                px,
                w,
                x0 as int,
                i as int,
                digits@,
                cost as nat,
                solids as nat,
            ),
        ensures
            decode_spec(px, w, x0 as int) == (digits@, cost as nat, solids as nat),
            digits@.len() <= 12,
            forall|k: int| 0 <= k < digits@.len() ==> digits@[k] < 10,
        decreases 12 - i,
    {
        let x = x0 + i * 6;
        let m = sample_mask(frame, x);
        let mut ink: u32 = 0;
        let mut k: usize = 0;
        while k < 84
            invariant
                k <= 84,
                ink <= k,
                ink == 0 <==> (forall|j: int| 0 <= j < k ==> m[j] == 0),
            decreases 84 - k,
        {
            if m[k] != 0 {
                ink = ink + 1;
            }
            k = k + 1;
        }
        proof {
            assert(m@ == cell_mask(px, w, x0 + 6 * i));
            assert(no_ink(m@) <==> ink == 0);
        }
        if ink == 0 {
            break;
        }
        let (mis, digit) = best(&m);
        if mis > STOP_MIS {
            break;
        }
        if mis <= SOLID_MAX_MIS {
            solids = solids + 1;
        }
        digits.push(digit);
        cost = cost + mis;
        i = i + 1;
    }
    (digits, cost, solids)
}

/// EXP from the native 1382×807 geometry; `None` when the frame is too small
/// for it or nothing readable is there.
pub fn read_exp_value_native(frame: &BgraFrame) -> (r: Option<i64>)
    requires
        frame.wf(),
    ensures
        match (r, native_spec(frame.pixels@, frame.w as int, frame.h as int)) {
            (None, None) => true,
            (Some(v), Some(v2)) => v == v2,
            _ => false,
        },
{
    if frame.w < X0_HI + 6 * 12 || frame.h < Y_TOP + ROWS {
        return None;
    }
    let ghost px = frame.pixels@;
    let ghost w = frame.w as int;
    let mut best: Option<(u32, u32, i64)> = None;
    let mut x0: i32 = X0_LO;
    while x0 <= X0_HI
        invariant
            frame.wf(),
            px == frame.pixels@,
            w == frame.w,
            frame.w >= X0_HI + 72,
            frame.h >= Y_TOP + ROWS,
            X0_LO <= x0 <= X0_HI + 1,
            native_scan(px, w, X0_LO as int, None) == native_scan(
                px,
                w,
                x0 as int,
                match best {
                    None => None,
                    Some((a, b, c)) => Some((a as nat, b as nat, c as int)),
                },
            ),
        decreases X0_HI + 1 - x0,
    {
        let (digits, cost, solids) = decode_at(frame, x0);
        if digits.len() > 0 {
            let mut val: i64 = 0;
            let mut j: usize = 0;
            let n = digits.len();
            proof {
                lemma_pow10_mono(n as nat, 12);
                lemma_pow10_12();
            }
            while j < n
                invariant
                    n == digits@.len(),
                    n <= 12,
                    j <= n,
                    forall|k: int| 0 <= k < digits@.len() ==> digits@[k] < 10,
                    val == digits_value(digits@.subrange(0, j as int)),
                    0 <= val < pow10(j as nat),
                    pow10(n as nat) <= 1_000_000_000_000,
                decreases n - j,
            {
                proof {
                    assert(digits@.subrange(0, j + 1).drop_last() =~= digits@.subrange(0, j as int));
                    lemma_pow10_mono((j + 1) as nat, n as nat);
                    lemma_digits_value_bound(digits@.subrange(0, j + 1));
                }
                val = val * 10 + digits[j] as i64;
                j = j + 1;
            }
            proof {
                assert(digits@.subrange(0, n as int) =~= digits@);
            }
            let better = match best {
                None => true,
                Some((bs, bc, _)) => solids > bs || (solids == bs && cost < bc),
            };
            if better {
                best = Some((solids, cost, val));
            }
        }
        x0 = x0 + 1;
    }
    match best {
        Some((_, _, v)) => Some(v),
        None => None,
    }
}

/// EXP of the current level from a window capture: the bar is located by
/// colour and the digits left of its `[` are read; when that yields nothing
/// the native 1382×807 geometry is read instead.
pub fn read_exp_value(frame: &BgraFrame) -> (r: Option<i64>)
    requires
        frame.wf(),
        frame.w * frame.h < 0x8000_0000,
    ensures
        match (r, exp_spec(frame.pixels@, frame.w as int, frame.h as int)) {
            (None, None) => true,
            (Some(v), Some(v2)) => v == v2,
            _ => false,
        },
        (frame.w < 400 || frame.h < 300) ==> native_matches(r, frame),
        r matches Some(v) ==> v >= 0,
{
    proof {
        lemma_native_nonneg(frame.pixels@, frame.w as int, frame.h as int);
    }
    match locate(frame) {
        Some(reg) => {
            let bw = reg.x1 - reg.x0;
            let bh = reg.y1 - reg.y0;
            proof {
                assert(bw * bh <= frame.w * frame.h) by (nonlinear_arith)
                    requires
                        0 <= bw <= frame.w,
                        0 <= bh <= frame.h,
                ;
            }
            match read_band_left_of_bracket(&reg.g, bw, bh, reg.bracket_col) {
                Some(v) => return Some(v),
                None => {},
            }
        },
        None => {},
    }
    read_exp_value_native(frame)
}

/// What `read_exp_value` reads from a capture: the digits left of the `[`
/// of the bar found by colour, else the native geometry.
pub open spec fn exp_spec(px: Seq<u8>, w: int, h: int) -> Option<int> {
    match locate_spec(px, w, h) {
        Some(t) => match band_spec(bar_luma_seq(px, w, t.0, t.1, t.2 - t.0, t.3 - t.1), t.2 - t.0, t.3 - t.1, t.4) {
            Some(v) => Some(v as int),
            None => native_spec(px, w, h),
        },
        None => native_spec(px, w, h),
    }
}

/// `r` is what the native geometry reads from `frame`.
pub open spec fn native_matches(r: Option<i64>, frame: &BgraFrame) -> bool {
    match (r, native_spec(frame.pixels@, frame.w as int, frame.h as int)) {
        (None, None) => true,
        (Some(v), Some(v2)) => v == v2,
        _ => false,
    }
}

// ---------------------------------------------------------------------------
// Synthetic captures
// ---------------------------------------------------------------------------

/// Whether pixel (x, y) of a synthetic capture is digit ink: the decimal
/// string `value` drawn with the templates from column `gx0`, one 6-px cell
/// per digit, template rows from `Y_TOP`.
pub open spec fn synth_ink(value: Seq<u8>, gx0: int, x: int, y: int) -> bool {
    let i = (x - gx0) / 6;
    &&& Y_TOP <= y < Y_TOP + ROWS
    &&& gx0 <= x < gx0 + 6 * value.len()
    &&& TPL[value[i] - 48][y - Y_TOP][(x - gx0) % 6] == 1
}

/// Byte `k` of a synthetic capture `w` wide: ink pixels are (240, 240, 240),
/// the background (40, 40, 40), alpha always 255.
pub open spec fn synth_byte(value: Seq<u8>, gx0: int, w: int, k: int) -> u8 {
    let p = k / 4;
    if k % 4 == 3 {
        255
    } else if synth_ink(value, gx0, p % w, p / w) {
        240
    } else {
        40
    }
}

/// A `w × h` capture with the ASCII digits `value` drawn at the native value
/// geometry from column `gx0` (see [`synth_byte`]).
pub fn synth_value_frame(value: &[u8], gx0: i32, w: i32, h: i32) -> (f: BgraFrame)
    requires
        forall|i: int| 0 <= i < value@.len() ==> 48 <= #[trigger] value@[i] <= 57,
        0 <= gx0,
        gx0 + 6 * value@.len() <= w,
        Y_TOP + ROWS <= h,
        w * h < 0x2000_0000,
    ensures
        f.wf(),
        f.w == w,
        f.h == h,
        forall|k: int| 0 <= k < f.pixels@.len() ==> #[trigger] f.pixels@[k] == synth_byte(
            value@,
            gx0 as int,
            w as int,
            k,
        ),
{
    let n = value.len();
    let mut px: Vec<u8> = Vec::new();
    let mut y: i32 = 0;
    while y < h
        invariant
            forall|i: int| 0 <= i < value@.len() ==> 48 <= #[trigger] value@[i] <= 57,
            n == value@.len(),
            0 <= gx0,
            gx0 + 6 * n <= w,
            Y_TOP + ROWS <= h,
            w * h < 0x2000_0000,
            0 <= y <= h,
            px@.len() == y * w * 4,
            px@.len() == (y * w) * 4,
            forall|k: int| 0 <= k < px@.len() ==> #[trigger] px@[k] == synth_byte(
                value@,
                gx0 as int,
                w as int,
                k,
            ),
        decreases h - y,
    {
        let mut x: i32 = 0;
        while x < w
            invariant
                forall|i: int| 0 <= i < value@.len() ==> 48 <= #[trigger] value@[i] <= 57,
                n == value@.len(),
                0 <= gx0,
                gx0 + 6 * n <= w,
                Y_TOP + ROWS <= h,
                w * h < 0x2000_0000,
                0 <= y < h,
                0 <= x <= w,
                px@.len() == (y * w + x) * 4,
                forall|k: int| 0 <= k < px@.len() ==> #[trigger] px@[k] == synth_byte(
                    value@,
                    gx0 as int,
                    w as int,
                    k,
                ),
            decreases w - x,
        {
            let ghost p = y * w + x;
            proof {
                assert(0 <= y * w + x < w * h) by (nonlinear_arith)
                    requires
                        0 <= x < w,
                        0 <= y < h,
                ;
                lemma_pixel_coords(w as int, x as int, y as int);
            }
            let ink = synth_ink_exec(value, gx0, x, y);
            let c: u8 = if ink {
                240
            } else {
                40
            };
            let ghost old_px = px@;
            px.push(c);
            px.push(c);
            px.push(c);
            px.push(255);
            proof {
                assert forall|k: int| 0 <= k < px@.len() implies #[trigger] px@[k] == synth_byte(
                    value@,
                    gx0 as int,
                    w as int,
                    k,
                ) by {
                    if k >= old_px.len() {
                        assert(k / 4 == p && k % 4 == k - p * 4);
                    } else {
                        assert(px@[k] == old_px[k]);
                    }
                }
            }
            x = x + 1;
        }
        proof {
            assert((y * w + w) * 4 == (y + 1) * w * 4) by (nonlinear_arith);
        }
        y = y + 1;
    }
    proof {
        assert(y * w * 4 == w * h * 4) by (nonlinear_arith)
            requires
                y == h,
        ;
    }
    BgraFrame { w, h, pixels: px }
}

/// Pixel `y * w + x` of a row-major grid `w` wide sits at (x, y).
pub(crate) proof fn lemma_pixel_coords(w: int, x: int, y: int)
    requires
        0 <= x < w,
        0 <= y,
    ensures
        (y * w + x) % w == x,
        (y * w + x) / w == y,
        forall|c: int| 0 <= c < 4 ==> (#[trigger] ((y * w + x) * 4 + c)) / 4 == y * w + x,
        forall|c: int| 0 <= c < 4 ==> (#[trigger] ((y * w + x) * 4 + c)) % 4 == c,
{
    vstd::arithmetic::div_mod::lemma_fundamental_div_mod_converse(y * w + x, w, y, x);
    assert forall|c: int| 0 <= c < 4 implies (#[trigger] ((y * w + x) * 4 + c)) / 4 == y * w + x
        && ((y * w + x) * 4 + c) % 4 == c by {
        vstd::arithmetic::div_mod::lemma_fundamental_div_mod_converse(
            (y * w + x) * 4 + c,
            4,
            y * w + x,
            c,
        );
    }
}

/// Executable [`synth_ink`].
fn synth_ink_exec(value: &[u8], gx0: i32, x: i32, y: i32) -> (r: bool)
    requires
        forall|i: int| 0 <= i < value@.len() ==> 48 <= #[trigger] value@[i] <= 57,
        0 <= gx0,
        gx0 + 6 * value@.len() <= 0x8000_0000,
        0 <= x,
        0 <= y,
    ensures
        r == synth_ink(value@, gx0 as int, x as int, y as int),
{
    if y < Y_TOP || y >= Y_TOP + ROWS || x < gx0 || (x - gx0) as usize >= 6 * value.len() {
        return false;
    }
    let i = ((x - gx0) / 6) as usize;
    let d = (value[i] - 48) as usize;
    TPL[d][(y - Y_TOP) as usize][((x - gx0) % 6) as usize] == 1
}

proof fn probe_bits01()
    ensures
        forall|d: int, r: int, c: int| 0 <= d < 10 && 0 <= r < 14 && 0 <= c < 6 ==> #[trigger] TPL[d][r][c] <= 1,
{
}

proof fn probe_col5()
    ensures
        forall|d: int, r: int| 0 <= d < 10 && 0 <= r < 14 ==> #[trigger] TPL[d][r][5] == 0,
{
}

} // verus!
