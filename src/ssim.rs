//! Window statistics for the structural similarity index.
//!
//! Luminance is BT.709 scaled by 10 000 so that it stays integral:
//! `2126·R + 7152·G + 722·B`. The image is cut into non-overlapping 8×8
//! windows (a trailing partial row or column of windows is left out), and for
//! each window the raw moments of both images are summed exactly: `Σa`, `Σb`,
//! `Σa²`, `Σb²` and `Σab`. The similarity formula itself is left to the
//! caller.

use vstd::prelude::*;

verus! {

/// Side of an SSIM window, in pixels.
pub const WINDOW_SIZE: usize = 8;

/// Largest scaled luminance of a pixel.
pub const MAX_LUM: u64 = 2_550_000;

/// Raw moments of the scaled luminances `a` and `b` over one window.
#[derive(Clone, Copy, PartialEq, Eq, Structural, Debug)]
pub struct WindowMoments {
    pub sum_a: u64,
    pub sum_b: u64,
    pub sum_aa: u64,
    pub sum_bb: u64,
    pub sum_ab: u64,
}

/// BT.709 luminance of pixel `i` of a packed RGBA buffer, times 10 000.
pub open spec fn lum709(img: Seq<u8>, i: int) -> int {
    2126 * img[4 * i] + 7152 * img[4 * i + 1] + 722 * img[4 * i + 2]
}

/// Pixel `k` (row-major, `0..64`) of window `(bx, by)` of an image `w` wide.
pub open spec fn window_pixel(w: int, bx: int, by: int, k: int) -> int {
    (by * 8 + k / 8) * w + bx * 8 + k % 8
}

/// Moment `kind` of one pixel: 0 `a`, 1 `b`, 2 `a²`, 3 `b²`, otherwise `ab`.
pub open spec fn moment_term(la: int, lb: int, kind: int) -> int {
    if kind == 0 {
        la
    } else if kind == 1 {
        lb
    } else if kind == 2 {
        la * la
    } else if kind == 3 {
        lb * lb
    } else {
        la * lb
    }
}

/// Moment `kind` summed over the first `n` pixels of window `(bx, by)`.
pub open spec fn window_moment(a: Seq<u8>, b: Seq<u8>, w: int, bx: int, by: int, kind: int, n: nat) -> int
    decreases n,
{
    if n == 0 {
        0
    } else {
        let i = window_pixel(w, bx, by, n - 1);
        window_moment(a, b, w, bx, by, kind, (n - 1) as nat) + moment_term(lum709(a, i), lum709(b, i), kind)
    }
}

/// `m` holds the moments of window `(bx, by)`.
pub open spec fn moments_of(m: WindowMoments, a: Seq<u8>, b: Seq<u8>, w: int, bx: int, by: int) -> bool {
    &&& m.sum_a == window_moment(a, b, w, bx, by, 0, 64)
    &&& m.sum_b == window_moment(a, b, w, bx, by, 1, 64)
    &&& m.sum_aa == window_moment(a, b, w, bx, by, 2, 64)
    &&& m.sum_bb == window_moment(a, b, w, bx, by, 3, 64)
    &&& m.sum_ab == window_moment(a, b, w, bx, by, 4, 64)
}

/// Against itself, an image's windows have `Σa = Σb` and
/// `Σa² = Σb² = Σab`: the similarity formula then has equal numerator and
/// denominator, so the similarity of an image with itself is one.
pub proof fn lemma_self_moments(a: Seq<u8>, w: int, bx: int, by: int, n: nat)
    ensures
        window_moment(a, a, w, bx, by, 0, n) == window_moment(a, a, w, bx, by, 1, n),
        window_moment(a, a, w, bx, by, 2, n) == window_moment(a, a, w, bx, by, 3, n),
        window_moment(a, a, w, bx, by, 2, n) == window_moment(a, a, w, bx, by, 4, n),
    decreases n,
{
    if n > 0 {
        lemma_self_moments(a, w, bx, by, (n - 1) as nat);
    }
}

proof fn lemma_window_pixel(w: int, h: int, bx: int, by: int, k: int)
    requires
        0 <= bx,
        bx * 8 + 8 <= w,
        0 <= by,
        by * 8 + 8 <= h,
        0 <= k < 64,
    ensures
        0 <= window_pixel(w, bx, by, k) < w * h,
{
    let y = by * 8 + k / 8;
    let x = bx * 8 + k % 8;
    assert(0 <= k / 8 < 8 && 0 <= k % 8 < 8);
    assert(0 <= y * w + x < w * h) by (nonlinear_arith)
        requires 0 <= y < h, 0 <= x < w;
}

/// Scaled luminance of the pixel whose bytes start at `off = 4·i`.
fn scaled_lum(img: &[u8], i: usize, off: usize) -> (l: u64)
    requires
        off == 4 * i,
        off + 3 < img@.len(),
    ensures
        l == lum709(img@, i as int),
        l <= MAX_LUM,
{
    2126 * img[off] as u64 + 7152 * img[off + 1] as u64 + 722 * img[off + 2] as u64
}

/// Moments of window `(bx, by)` of two `w`×`h` images.
fn window_moments(a: &[u8], b: &[u8], w: usize, h: usize, bx: usize, by: usize) -> (m: WindowMoments)
    requires
        a@.len() == w * h * 4,
        b@.len() == w * h * 4,
        bx * 8 + 8 <= w,
        by * 8 + 8 <= h,
    ensures
        moments_of(m, a@, b@, w as int, bx as int, by as int),
{
    let mut m = WindowMoments { sum_a: 0, sum_b: 0, sum_aa: 0, sum_bb: 0, sum_ab: 0 };
    let len = a.len();
    let mut k: usize = 0;
    while k < 64
        invariant
            a@.len() == w * h * 4,
            b@.len() == w * h * 4,
            len == a@.len(),
            bx * 8 + 8 <= w,
            by * 8 + 8 <= h,
            k <= 64,
            m.sum_a == window_moment(a@, b@, w as int, bx as int, by as int, 0, k as nat),
            m.sum_b == window_moment(a@, b@, w as int, bx as int, by as int, 1, k as nat),
            m.sum_aa == window_moment(a@, b@, w as int, bx as int, by as int, 2, k as nat),
            m.sum_bb == window_moment(a@, b@, w as int, bx as int, by as int, 3, k as nat),
            m.sum_ab == window_moment(a@, b@, w as int, bx as int, by as int, 4, k as nat),
            m.sum_a <= k * MAX_LUM,
            m.sum_b <= k * MAX_LUM,
            m.sum_aa <= k * (MAX_LUM * MAX_LUM),
            m.sum_bb <= k * (MAX_LUM * MAX_LUM),
            m.sum_ab <= k * (MAX_LUM * MAX_LUM),
        decreases 64 - k,
    {
        proof {
            lemma_window_pixel(w as int, h as int, bx as int, by as int, k as int);
            assert(w * h <= w * h * 4) by (nonlinear_arith);
        }
        let y = by * 8 + k / 8;
        let x = bx * 8 + k % 8;
        proof {
            assert(y * w + x == window_pixel(w as int, bx as int, by as int, k as int));
            assert(y * w + x < w * h);
        }
        let i = y * w + x;
        let off = i * 4;
        let la = scaled_lum(a, i, off);
        let lb = scaled_lum(b, i, off);
        proof {
            assert(la * la <= MAX_LUM * MAX_LUM && lb * lb <= MAX_LUM * MAX_LUM && la * lb <= MAX_LUM * MAX_LUM) by (nonlinear_arith)
                requires la <= MAX_LUM, lb <= MAX_LUM;
            assert(k * (MAX_LUM * MAX_LUM) + MAX_LUM * MAX_LUM == (k + 1) * (MAX_LUM * MAX_LUM)) by (nonlinear_arith);
            assert((k + 1) * (MAX_LUM * MAX_LUM) <= 64 * (MAX_LUM * MAX_LUM)) by (nonlinear_arith)
                requires k < 64;
        }
        m = WindowMoments {
            sum_a: m.sum_a + la,
            sum_b: m.sum_b + lb,
            sum_aa: m.sum_aa + la * la,
            sum_bb: m.sum_bb + lb * lb,
            sum_ab: m.sum_ab + la * lb,
        };
        k = k + 1;
    }
    m
}

/// Moments of every whole 8×8 window of two `w`×`h` RGBA images, by
/// window row and column.
pub fn ssim_window_moments(a: &[u8], b: &[u8], w: usize, h: usize) -> (rows: Vec<Vec<WindowMoments>>)
    requires
        a@.len() == w * h * 4,
        b@.len() == w * h * 4,
    ensures
        rows@.len() == h / 8,
        forall|by: int| 0 <= by < h / 8 ==> (#[trigger] rows@[by])@.len() == w / 8,
        forall|by: int, bx: int|
            0 <= by < h / 8 && 0 <= bx < w / 8 ==> moments_of(#[trigger] rows@[by]@[bx], a@, b@, w as int, bx, by),
{
    let bh = h / WINDOW_SIZE;
    let bw = w / WINDOW_SIZE;
    let mut rows: Vec<Vec<WindowMoments>> = Vec::new();
    let mut by: usize = 0;
    while by < bh
        invariant
            a@.len() == w * h * 4,
            b@.len() == w * h * 4,
            bh == h / 8,
            bw == w / 8,
            by <= bh,
            rows@.len() == by,
            forall|r: int| 0 <= r < by ==> (#[trigger] rows@[r])@.len() == bw,
            forall|r: int, c: int| 0 <= r < by && 0 <= c < bw ==> moments_of(#[trigger] rows@[r]@[c], a@, b@, w as int, c, r),
        decreases bh - by,
    {
        let mut row: Vec<WindowMoments> = Vec::new();
        let mut bx: usize = 0;
        while bx < bw
            invariant
                a@.len() == w * h * 4,
                b@.len() == w * h * 4,
                bh == h / 8,
                bw == w / 8,
                by < bh,
                bx <= bw,
                row@.len() == bx,
                forall|c: int| 0 <= c < bx ==> moments_of(#[trigger] row@[c], a@, b@, w as int, c, by as int),
            decreases bw - bx,
        {
            row.push(window_moments(a, b, w, h, bx, by));
            bx = bx + 1;
        }
        rows.push(row);
        by = by + 1;
    }
    rows
}

} // verus!
