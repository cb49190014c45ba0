//! A captured game window: top-down BGRA pixels, four bytes per pixel, rows
//! packed without padding. Taking the capture is the application's job; this
//! module holds the frame type and the blank-capture test.
use vstd::prelude::*;

verus! {

/// One top-down BGRA frame.
pub struct BgraFrame {
    pub w: i32,
    pub h: i32,
    pub pixels: Vec<u8>,
}

impl BgraFrame {
    /// The pixel buffer holds exactly `w × h` BGRA pixels.
    pub open spec fn wf(&self) -> bool {
        self.w >= 0 && self.h >= 0 && self.pixels@.len() == self.w * self.h * 4
    }
}

/// Window geometry and minimised state, for explaining a blank capture.
pub struct WinGeo {
    pub x: i32,
    pub y: i32,
    pub w: i32,
    pub h: i32,
    /// True when the window is minimised (no capture method gets content then).
    pub minimized: bool,
}

/// Sampling stride of the blank test: one in every `n / 4096` bytes (at least 1).
pub open spec fn blank_step(n: nat) -> nat {
    if n / 4096 >= 1 { n / 4096 } else { 1 }
}

/// Number of sampled bytes: indices `0, step, 2·step, …` below `n`.
pub open spec fn blank_count(n: nat, step: nat) -> nat {
    ((n + step - 1) as nat / step) as nat
}

/// Sum of the first `k` sampled bytes.
pub open spec fn sampled_sum(px: Seq<u8>, step: nat, k: nat) -> int
    decreases k,
{
    if k == 0 {
        0
    } else {
        sampled_sum(px, step, (k - 1) as nat) + px[(k - 1) * step]
    }
}

/// Sum of squared deviations from `mean` of the first `k` sampled bytes.
pub open spec fn sampled_dev(px: Seq<u8>, step: nat, k: nat, mean: int) -> int
    decreases k,
{
    if k == 0 {
        0
    } else {
        let d = px[(k - 1) * step] - mean;
        sampled_dev(px, step, (k - 1) as nat, mean) + d * d
    }
}

/// A capture is blank when it is empty or when the mean squared deviation of
/// evenly spaced sample bytes from their (rounded down) mean is below 25.
pub open spec fn frame_is_blank_spec(px: Seq<u8>) -> bool {
    let n = px.len();
    if n == 0 {
        true
    } else {
        let st = blank_step(n);
        let c = blank_count(n, st);
        let mean = sampled_sum(px, st, c) / (c as int);
        sampled_dev(px, st, c, mean) / (c as int) < 25
    }
}

proof fn lemma_count_exit(n: int, step: int, k: int)
    requires
        step >= 1,
        n >= 1,
        k >= 1,
        (k - 1) * step < n,
        n <= k * step,
    ensures
        k == (n + step - 1) / step,
{
    assert(k * step <= n + step - 1) by (nonlinear_arith)
        requires
            (k - 1) * step < n,
            step >= 1,
    ;
    assert(n + step - 1 < (k + 1) * step) by (nonlinear_arith)
        requires
            n <= k * step,
            step >= 1,
    ;
    assert(k <= (n + step - 1) / step) by (nonlinear_arith)
        requires
            k * step <= n + step - 1,
            step >= 1,
    ;
    assert((n + step - 1) / step < k + 1) by (nonlinear_arith)
        requires
            n + step - 1 < (k + 1) * step,
            step >= 1,
    ;
}

proof fn lemma_sampled_sum_bound(px: Seq<u8>, step: nat, k: nat)
    requires
        k * step < px.len() + step,
    ensures
        0 <= sampled_sum(px, step, k) <= 255 * k,
    decreases k,
{
    if k > 0 {
        assert((k - 1) * step < px.len()) by (nonlinear_arith)
            requires
                k * step < px.len() + step,
                k >= 1,
        ;
        let km1: nat = (k - 1) as nat;
        assert(km1 * step < px.len() + step) by (nonlinear_arith)
            requires
                (k - 1) * step < px.len(),
                km1 == k - 1,
        ;
        lemma_sampled_sum_bound(px, step, km1);
    }
}

proof fn lemma_sampled_dev_bound(px: Seq<u8>, step: nat, k: nat, mean: int)
    requires
        k * step < px.len() + step,
        0 <= mean <= 255,
    ensures
        0 <= sampled_dev(px, step, k, mean) <= 65025 * k,
    decreases k,
{
    if k > 0 {
        assert((k - 1) * step < px.len()) by (nonlinear_arith)
            requires
                k * step < px.len() + step,
                k >= 1,
        ;
        let km1: nat = (k - 1) as nat;
        assert(km1 * step < px.len() + step) by (nonlinear_arith)
            requires
                (k - 1) * step < px.len(),
                km1 == k - 1,
        ;
        lemma_sampled_dev_bound(px, step, km1, mean);
        let d = px[(k - 1) * step] - mean;
        assert(0 <= d * d <= 65025) by (nonlinear_arith)
            requires
                -255 <= d <= 255,
        ;
    }
}

/// Rough content test: a near-uniform capture (black or one colour) is blank.
pub fn frame_is_blank(f: &BgraFrame) -> (r: bool)
    ensures
        r == frame_is_blank_spec(f.pixels@),
{
    let n = f.pixels.len();
    if n == 0 {
        return true;
    }
    let ghost px = f.pixels@;
    let step = if n / 4096 >= 1 {
        n / 4096
    } else {
        1
    };
    let n128 = n as u128;
    let st = step as u128;
    let mut sum: u128 = 0;
    let mut count: u128 = 0;
    let mut i: u128 = 0;
    while i < n128
        invariant
            px == f.pixels@,
            n == px.len(),
            n128 == n,
            st == step,
            step == blank_step(n as nat),
            step >= 1,
            i == count * st,
            i < n + st,
            count <= i,
            count > 0 ==> (count - 1) * st < n,
            sum == sampled_sum(px, step as nat, count as nat),
            sum <= 255 * count,
        decreases n128 + st - i,
    {
        proof {
            assert((count + 1) * st == count * st + st) by (nonlinear_arith);
            lemma_sampled_sum_bound(px, step as nat, (count + 1) as nat);
        }
        sum = sum + f.pixels[i as usize] as u128;
        count = count + 1;
        i = i + st;
    }
    proof {
        lemma_count_exit(n as int, step as int, count as int);
    }
    let mean128: u128 = sum / count;
    proof {
        assert(mean128 <= 255) by (nonlinear_arith)
            requires
                sum <= 255 * count,
                count >= 1,
                mean128 == sum / count,
        ;
    }
    let mean = mean128 as i64;
    let mut dev: u128 = 0;
    let mut k: u128 = 0;
    let mut j: u128 = 0;
    while j < n128
        invariant
            px == f.pixels@,
            n == px.len(),
            n128 == n,
            st == step,
            step >= 1,
            count == blank_count(n as nat, step as nat),
            (count - 1) * st < n,
            n <= count * st,
            count >= 1,
            0 <= mean <= 255,
            mean == sampled_sum(px, step as nat, count as nat) / (count as int),
            j == k * st,
            k <= count,
            dev == sampled_dev(px, step as nat, k as nat, mean as int),
            dev <= 65025 * k,
        decreases count - k,
    {
        proof {
            assert(k < count) by (nonlinear_arith)
                requires
                    j == k * st,
                    j < n,
                    n <= count * st,
                    st >= 1,
            ;
            assert((k + 1) * st == k * st + st) by (nonlinear_arith);
            assert((k + 1) * st < n + st) by (nonlinear_arith)
                requires
                    k + 1 <= count,
                    (count - 1) * st < n,
                    st >= 1,
            ;
            lemma_sampled_dev_bound(px, step as nat, (k + 1) as nat, mean as int);
        }
        let d: i64 = f.pixels[j as usize] as i64 - mean;
        proof {
            assert(0 <= d * d <= 65025) by (nonlinear_arith)
                requires
                    -255 <= d <= 255,
            ;
        }
        dev = dev + (d * d) as u128;
        k = k + 1;
        j = j + st;
    }
    proof {
        assert(k == count) by (nonlinear_arith)
            requires
                j == k * st,
                j >= n,
                k <= count,
                (count - 1) * st < n,
                st >= 1,
        ;
    }
    let avg_dev = dev / count;
    avg_dev < 25
}

} // verus!
