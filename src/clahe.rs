//! Contrast-limited adaptive histogram equalization on luminance.
//!
//! Luminance is the fixed-point BT.601 value `(77·R + 150·G + 29·B) >> 8`.
//! The image is cut into `grid × grid` tiles of `ceil(w/grid) × ceil(h/grid)`
//! pixels. Each tile's 256-bin histogram is clipped at
//! `max(clip·count/256, 1)`, the excess spread evenly over the bins (one
//! more to each of the first `excess mod 256`), and turned into a lookup
//! table `min(255, cum·255/count)`. Each pixel's new luminance interpolates
//! bilinearly between the tables of the four nearest tile centres; its RGB is
//! rescaled by `new/old` in 16.16 fixed point, or set to grey when the old
//! luminance is zero. The clip limit is given in 1/256 units; tile centre
//! weights are exact rationals. Alpha is untouched.

use vstd::prelude::*;
use vstd::arithmetic::div_mod::{lemma_fundamental_div_mod, lemma_fundamental_div_mod_converse};

verus! {

/// Fixed-point BT.601 luminance.
pub open spec fn lum_spec(r: u8, g: u8, b: u8) -> u8 {
    ((77 * r + 150 * g + 29 * b) / 256) as u8
}

/// Luminance of pixel `i` of a packed RGBA buffer.
pub open spec fn pixel_lum(img: Seq<u8>, i: int) -> u8 {
    lum_spec(img[4 * i], img[4 * i + 1], img[4 * i + 2])
}

/// Tiles per side, at least two.
pub open spec fn grid_of(grid_size: usize) -> int {
    if grid_size < 2 { 2 } else { grid_size as int }
}

/// `ceil(a / b)`.
pub open spec fn ceil_div(a: int, b: int) -> int {
    (a + b - 1) / b
}

/// Pixels of row `y` in columns `x0..x1` whose luminance is `v`.
pub open spec fn row_count(img: Seq<u8>, w: int, y: int, x0: int, x1: int, v: u8) -> nat
    decreases x1 - x0,
{
    if x1 <= x0 {
        0
    } else {
        row_count(img, w, y, x0, x1 - 1, v) + if pixel_lum(img, y * w + x1 - 1) == v { 1nat } else { 0nat }
    }
}

/// Pixels of the rectangle `x0..x1 × y0..y1` whose luminance is `v`.
pub open spec fn rect_count(img: Seq<u8>, w: int, x0: int, x1: int, y0: int, y1: int, v: u8) -> nat
    decreases y1 - y0,
{
    if y1 <= y0 {
        0
    } else {
        rect_count(img, w, x0, x1, y0, y1 - 1, v) + row_count(img, w, y1 - 1, x0, x1, v)
    }
}

/// Sum of `f(k)` clipped at `clip` over bins `0..n`, and the excess above it.
pub open spec fn clipped_sum(hist: Seq<nat>, clip: nat, n: nat) -> nat
    decreases n,
{
    if n == 0 {
        0
    } else {
        clipped_sum(hist, clip, (n - 1) as nat) + if hist[n - 1] > clip { (hist[n - 1] - clip) as nat } else { 0nat }
    }
}

/// Bin `i` after clipping at `clip` and spreading `excess`.
pub open spec fn redistributed_bin(hist: Seq<nat>, clip: nat, excess: nat, i: int) -> nat {
    let c: nat = if hist[i] > clip { clip } else { hist[i] };
    c + excess / 256 + if i < excess % 256 { 1nat } else { 0nat }
}

/// Cumulative count of redistributed bins `0..=i`.
pub open spec fn cumulative(hist: Seq<nat>, clip: nat, excess: nat, i: int) -> nat
    decreases i + 1,
{
    if i < 0 {
        0
    } else {
        cumulative(hist, clip, excess, i - 1) + redistributed_bin(hist, clip, excess, i)
    }
}

/// Clip threshold of a tile of `count` pixels for a clip limit in 1/256 units.
pub open spec fn clip_threshold(clip_q8: u32, count: nat) -> nat {
    let c = clip_q8 * count / 65536;
    if c < 1 { 1 } else { c as nat }
}

/// Lookup table entry `i` of a tile with histogram `hist` over `count` pixels.
pub open spec fn lut_entry(hist: Seq<nat>, count: nat, clip_q8: u32, i: int) -> u8 {
    if count == 0 {
        i as u8
    } else {
        let clip = clip_threshold(clip_q8, count);
        let excess = clipped_sum(hist, clip, 256);
        let v = cumulative(hist, clip, excess, i) * 255 / count;
        if v > 255 { 255 } else { v as u8 }
    }
}

/// A histogram of machine counts as natural numbers.
pub open spec fn nat_hist(s: Seq<usize>) -> Seq<nat> {
    Seq::new(s.len(), |k: int| s[k] as nat)
}

proof fn lemma_clipped_sum_bound(hist: Seq<nat>, clip: nat, n: nat, bound: nat)
    requires
        n <= hist.len(),
        forall|k: int| 0 <= k < hist.len() ==> #[trigger] hist[k] <= bound,
    ensures
        clipped_sum(hist, clip, n) <= n * bound,
    decreases n,
{
    if n > 0 {
        lemma_clipped_sum_bound(hist, clip, (n - 1) as nat, bound);
        assert((n - 1) * bound + bound == n * bound) by (nonlinear_arith);
    }
}

proof fn lemma_cumulative_bound(hist: Seq<nat>, clip: nat, excess: nat, i: int, bound: nat)
    requires
        -1 <= i < hist.len(),
        forall|k: int| 0 <= k < hist.len() ==> #[trigger] hist[k] <= bound,
    ensures
        cumulative(hist, clip, excess, i) <= (i + 1) * (bound + excess + 1),
    decreases i + 1,
{
    let x = bound + excess + 1;
    if i >= 0 {
        lemma_cumulative_bound(hist, clip, excess, i - 1, bound);
        assert(excess / 256 <= excess);
        assert(redistributed_bin(hist, clip, excess, i) <= x);
        assert(cumulative(hist, clip, excess, i) == cumulative(hist, clip, excess, i - 1) + redistributed_bin(hist, clip, excess, i));
        assert(i * x + x == (i + 1) * x) by (nonlinear_arith);
    } else {
        assert(cumulative(hist, clip, excess, i) == 0);
        assert((i + 1) * x == 0) by (nonlinear_arith)
            requires i == -1;
    }
}

/// The lookup table of one tile from its histogram.
fn tile_lut(hist: &Vec<usize>, count: usize, clip_q8: u32) -> (lut: Vec<u8>)
    requires
        hist@.len() == 256,
        forall|k: int| 0 <= k < 256 ==> #[trigger] hist@[k] <= count,
    ensures
        lut@.len() == 256,
        forall|i: int| 0 <= i < 256 ==> #[trigger] lut@[i] == lut_entry(nat_hist(hist@), count as nat, clip_q8, i),
{
    let ghost hn = nat_hist(hist@);
    let mut lut: Vec<u8> = Vec::new();
    if count == 0 {
        let mut i: usize = 0;
        while i < 256
            invariant
                i <= 256,
                lut@.len() == i,
                forall|k: int| 0 <= k < i ==> #[trigger] lut@[k] == k as u8,
            decreases 256 - i,
        {
            lut.push(i as u8);
            i = i + 1;
        }
        return lut;
    }
    assert(clip_q8 * count <= 0xffff_ffff * 0xffff_ffff_ffff_ffff) by (nonlinear_arith)
        requires clip_q8 <= 0xffff_ffff, count <= 0xffff_ffff_ffff_ffff;
    let c: u128 = clip_q8 as u128 * count as u128 / 65536;
    let clip: u128 = if c < 1 { 1 } else { c };
    assert(clip == clip_threshold(clip_q8, count as nat));
    let mut excess: u128 = 0;
    let mut i: usize = 0;
    while i < 256
        invariant
            i <= 256,
            hn == nat_hist(hist@),
            hist@.len() == 256,
            forall|k: int| 0 <= k < 256 ==> #[trigger] hist@[k] <= count,
            excess == clipped_sum(hn, clip as nat, i as nat),
            excess <= i * count,
        decreases 256 - i,
    {
        let v = hist[i] as u128;
        assert(i * count <= 256 * 0xffff_ffff_ffff_ffff) by (nonlinear_arith)
            requires i <= 256, count <= 0xffff_ffff_ffff_ffff;
        if v > clip {
            excess = excess + (v - clip);
        }
        assert(excess <= (i + 1) * count) by (nonlinear_arith)
            requires excess <= i * count + count;
        i = i + 1;
    }
    let per_bin: u128 = excess / 256;
    let remainder: u128 = excess % 256;
    let mut cum: u128 = 0;
    let mut i: usize = 0;
    while i < 256
        invariant
            i <= 256,
            hn == nat_hist(hist@),
            hist@.len() == 256,
            forall|k: int| 0 <= k < 256 ==> #[trigger] hist@[k] <= count,
            count > 0,
            clip == clip_threshold(clip_q8, count as nat),
            excess == clipped_sum(hn, clip as nat, 256),
            excess <= 256 * count,
            per_bin == excess / 256,
            remainder == excess % 256,
            cum == cumulative(hn, clip as nat, excess as nat, i - 1),
            lut@.len() == i,
            forall|k: int| 0 <= k < i ==> #[trigger] lut@[k] == lut_entry(hn, count as nat, clip_q8, k),
        decreases 256 - i,
    {
        proof {
            assert forall|k: int| 0 <= k < hn.len() implies #[trigger] hn[k] <= count by {}
            lemma_cumulative_bound(hn, clip as nat, excess as nat, i as int, count as nat);
            assert((i + 1) * (count + excess + 1) <= 256 * (257 * count + 1)) by (nonlinear_arith)
                requires i < 256, excess <= 256 * count;
        }
        let v = hist[i] as u128;
        let clipped: u128 = if v > clip { clip } else { v };
        let extra: u128 = if (i as u128) < remainder { 1 } else { 0 };
        cum = cum + clipped + per_bin + extra;
        assert(cum == cumulative(hn, clip as nat, excess as nat, i as int));
        let scaled: u128 = cum * 255 / count as u128;
        let entry: u8 = if scaled > 255 { 255 } else { scaled as u8 };
        lut.push(entry);
        i = i + 1;
    }
    lut
}

/// Luminance histogram of the rectangle `x0..x1 × y0..y1`, and its pixel count.
fn tile_histogram(
    lum: &Vec<u8>,
    w: usize,
    x0: usize,
    x1: usize,
    y0: usize,
    y1: usize,
    Ghost(img): Ghost<Seq<u8>>,
) -> (res: (Vec<usize>, usize))
    requires
        x0 <= x1 <= w,
        y0 <= y1,
        y1 * w <= lum@.len(),
        forall|i: int| 0 <= i < lum@.len() ==> #[trigger] lum@[i] == pixel_lum(img, i),
    ensures
        res.0@.len() == 256,
        res.1 == (x1 - x0) * (y1 - y0),
        forall|v: int| 0 <= v < 256 ==> #[trigger] res.0@[v] == rect_count(img, w as int, x0 as int, x1 as int, y0 as int, y1 as int, v as u8),
        forall|v: int| 0 <= v < 256 ==> #[trigger] res.0@[v] <= res.1,
{
    let mut hist: Vec<usize> = Vec::new();
    let mut k: usize = 0;
    while k < 256
        invariant
            k <= 256,
            hist@.len() == k,
            forall|v: int| 0 <= v < k ==> #[trigger] hist@[v] == 0,
        decreases 256 - k,
    {
        hist.push(0);
        k = k + 1;
    }
    let len = lum.len();
    let mut count: usize = 0;
    let mut y: usize = y0;
    while y < y1
        invariant
            x0 <= x1 <= w,
            y0 <= y <= y1,
            y1 * w <= len,
            len == lum@.len(),
            forall|i: int| 0 <= i < lum@.len() ==> #[trigger] lum@[i] == pixel_lum(img, i),
            hist@.len() == 256,
            count == (y - y0) * (x1 - x0),
            forall|v: int| 0 <= v < 256 ==> #[trigger] hist@[v] == rect_count(img, w as int, x0 as int, x1 as int, y0 as int, y as int, v as u8),
            forall|v: int| 0 <= v < 256 ==> #[trigger] hist@[v] <= count,
        decreases y1 - y,
    {
        proof {
            assert((y + 1) * w <= y1 * w) by (nonlinear_arith)
                requires y + 1 <= y1;
            assert((y + 1) * w == y * w + w) by (nonlinear_arith);
            assert((y + 1 - y0) * (x1 - x0) <= y1 * w) by (nonlinear_arith)
                requires y + 1 <= y1, x1 <= w, x0 <= x1, y0 <= y;
            assert((y + 1 - y0) * (x1 - x0) == (y - y0) * (x1 - x0) + (x1 - x0)) by (nonlinear_arith)
                requires y0 <= y;
        }
        let row = y * w;
        let mut x: usize = x0;
        while x < x1
            invariant
                x0 <= x <= x1 <= w,
                y0 <= y < y1,
                row == y * w,
                row + w <= len,
                len == lum@.len(),
                (y - y0) * (x1 - x0) + (x1 - x0) <= len,
                forall|i: int| 0 <= i < lum@.len() ==> #[trigger] lum@[i] == pixel_lum(img, i),
                hist@.len() == 256,
                count == (y - y0) * (x1 - x0) + (x - x0),
                forall|v: int| 0 <= v < 256 ==> #[trigger] hist@[v] == rect_count(img, w as int, x0 as int, x1 as int, y0 as int, y as int, v as u8)
                    + row_count(img, w as int, y as int, x0 as int, x as int, v as u8),
                forall|v: int| 0 <= v < 256 ==> #[trigger] hist@[v] <= count,
            decreases x1 - x,
        {
            let l = lum[row + x] as usize;
            let ghost h0 = hist@;
            hist.set(l, hist[l] + 1);
            count = count + 1;
            proof {
                assert forall|v: int| 0 <= v < 256 implies #[trigger] hist@[v] == rect_count(img, w as int, x0 as int, x1 as int, y0 as int, y as int, v as u8)
                    + row_count(img, w as int, y as int, x0 as int, x + 1, v as u8) by {
                    assert(row_count(img, w as int, y as int, x0 as int, x + 1, v as u8) == row_count(img, w as int, y as int, x0 as int, x as int, v as u8)
                        + if pixel_lum(img, y * w + x) == v as u8 { 1nat } else { 0nat });
                }
            }
            x = x + 1;
        }
        y = y + 1;
    }
    (hist, count)
}

/// First row or column of tile `t` of size `ts` within an extent `n`.
pub open spec fn tile_start(t: int, ts: int, n: int) -> int {
    if t * ts < n { t * ts } else { n }
}

/// One past the last row or column of tile `t` of size `ts` within `n`.
pub open spec fn tile_end(t: int, ts: int, n: int) -> int {
    if t * ts + ts < n { t * ts + ts } else { n }
}

/// Lookup table entry `i` of tile `(tx, ty)` of the image.
pub open spec fn tile_lut_spec(
    img: Seq<u8>,
    w: int,
    h: int,
    tw: int,
    th: int,
    tx: int,
    ty: int,
    clip_q8: u32,
    i: int,
) -> u8 {
    let xs = tile_start(tx, tw, w);
    let xe = tile_end(tx, tw, w);
    let ys = tile_start(ty, th, h);
    let ye = tile_end(ty, th, h);
    lut_entry(
        Seq::new(256, |v: int| rect_count(img, w, xs, xe, ys, ye, v as u8)),
        ((xe - xs) * (ye - ys)) as nat,
        clip_q8,
        i,
    )
}

/// Lower tile of the two whose centres surround position `p`, tiles of size `t`.
pub open spec fn axis_low(p: int, t: int) -> int {
    if 2 * p + 1 < t { 0 } else { (2 * p + 1 - t) / (2 * t) }
}

/// Weight of the upper tile at position `p`, out of `2t`.
pub open spec fn axis_frac(p: int, t: int) -> int {
    if 2 * p + 1 < t { 0 } else { (2 * p + 1 - t) % (2 * t) }
}

/// Upper tile of the two, clamped to the grid of `g` tiles.
pub open spec fn axis_high(p: int, t: int, g: int) -> int {
    if axis_low(p, t) + 1 < g { axis_low(p, t) + 1 } else { g - 1 }
}

/// New luminance of pixel `i`: bilinear mix of the four surrounding tile
/// tables at its old luminance, rounded down.
pub open spec fn interpolated_lum(img: Seq<u8>, w: int, h: int, clip_q8: u32, grid_size: usize, i: int) -> u8 {
    let g = grid_of(grid_size);
    let tw = ceil_div(w, g);
    let th = ceil_div(h, g);
    let x = i % w;
    let y = i / w;
    let l = pixel_lum(img, i) as int;
    let tx0 = axis_low(x, tw);
    let tx1 = axis_high(x, tw, g);
    let ty0 = axis_low(y, th);
    let ty1 = axis_high(y, th, g);
    let nx = axis_frac(x, tw);
    let ny = axis_frac(y, th);
    let dx = 2 * tw;
    let dy = 2 * th;
    let c00 = tile_lut_spec(img, w, h, tw, th, tx0, ty0, clip_q8, l);
    let c10 = tile_lut_spec(img, w, h, tw, th, tx1, ty0, clip_q8, l);
    let c01 = tile_lut_spec(img, w, h, tw, th, tx0, ty1, clip_q8, l);
    let c11 = tile_lut_spec(img, w, h, tw, th, tx1, ty1, clip_q8, l);
    ((c00 * (dx - nx) * (dy - ny) + c10 * nx * (dy - ny) + c01 * (dx - nx) * ny + c11 * nx * ny) / (dx * dy)) as u8
}

/// A colour channel rescaled from luminance `old` to `new` in 16.16 fixed
/// point; grey `new` where `old` is zero.
pub open spec fn rescaled_channel(ch: u8, old: u8, new: u8) -> u8 {
    if old > 0 {
        let v = ch * ((new * 65536) / old as int) / 65536;
        if v > 255 { 255 } else { v as u8 }
    } else if new > 0 {
        new
    } else {
        ch
    }
}

/// The image after CLAHE.
pub open spec fn clahe_image(img: Seq<u8>, w: int, h: int, clip_q8: u32, grid_size: usize) -> Seq<u8> {
    Seq::new(
        img.len(),
        |j: int|
            if j % 4 == 3 {
                img[j]
            } else {
                rescaled_channel(img[j], pixel_lum(img, j / 4), interpolated_lum(img, w, h, clip_q8, grid_size, j / 4))
            },
    )
}

fn rgb_to_lum(r: u8, g: u8, b: u8) -> (l: u8)
    ensures
        l == lum_spec(r, g, b),
{
    ((r as u32 * 77 + g as u32 * 150 + b as u32 * 29) / 256) as u8
}

fn rescale_channel(ch: u8, old: u8, new: u8) -> (r: u8)
    ensures
        r == rescaled_channel(ch, old, new),
{
    if old > 0 {
        let scale: u64 = (new as u64 * 65536) / old as u64;
        assert(scale <= 255 * 65536) by (nonlinear_arith)
            requires scale == (new * 65536) / old as int, old >= 1, new <= 255;
        assert(ch * scale <= 255 * (255 * 65536)) by (nonlinear_arith)
            requires scale <= 255 * 65536, ch <= 255;
        let v: u64 = ch as u64 * scale / 65536;
        if v > 255 { 255 } else { v as u8 }
    } else if new > 0 {
        new
    } else {
        ch
    }
}

/// The tables of all tiles, by tile row and column.
pub open spec fn luts_match(
    luts: Seq<Vec<Vec<u8>>>,
    rows: int,
    img: Seq<u8>,
    w: int,
    h: int,
    g: int,
    tw: int,
    th: int,
    clip_q8: u32,
) -> bool {
    &&& luts.len() == rows
    &&& forall|a: int| 0 <= a < rows ==> #[trigger] luts[a]@.len() == g
    &&& forall|a: int, b: int| 0 <= a < rows && 0 <= b < g ==> #[trigger] luts[a]@[b]@.len() == 256
    &&& forall|a: int, b: int, i: int|
        0 <= a < rows && 0 <= b < g && 0 <= i < 256 ==> #[trigger] luts[a]@[b]@[i] == tile_lut_spec(
            img,
            w,
            h,
            tw,
            th,
            b,
            a,
            clip_q8,
            i,
        )
}

/// Builds the lookup table of every tile of a `g`×`g` grid of `tw`×`th` tiles.
fn build_luts(
    lum: &Vec<u8>,
    w: usize,
    h: usize,
    g: usize,
    tw: usize,
    th: usize,
    clip_q8: u32,
    Ghost(img): Ghost<Seq<u8>>,
) -> (luts: Vec<Vec<Vec<u8>>>)
    requires
        lum@.len() == w * h,
        forall|i: int| 0 <= i < lum@.len() ==> #[trigger] lum@[i] == pixel_lum(img, i),
    ensures
        luts_match(luts@, g as int, img, w as int, h as int, g as int, tw as int, th as int, clip_q8),
{
    let mut luts: Vec<Vec<Vec<u8>>> = Vec::new();
    let mut ty: usize = 0;
    while ty < g
        invariant
            ty <= g,
            lum@.len() == w * h,
            forall|i: int| 0 <= i < lum@.len() ==> #[trigger] lum@[i] == pixel_lum(img, i),
            luts_match(luts@, ty as int, img, w as int, h as int, g as int, tw as int, th as int, clip_q8),
        decreases g - ty,
    {
        let mut row: Vec<Vec<u8>> = Vec::new();
        let mut tx: usize = 0;
        assert(ty * th <= 0xffff_ffff_ffff_ffff * 0xffff_ffff_ffff_ffff) by (nonlinear_arith)
            requires ty <= 0xffff_ffff_ffff_ffff, th <= 0xffff_ffff_ffff_ffff;
        let ys_w: u128 = ty as u128 * th as u128;
        let ys: usize = if ys_w < h as u128 { ys_w as usize } else { h };
        let ye: usize = if ys_w + (th as u128) < h as u128 { (ys_w + th as u128) as usize } else { h };
        proof {
            assert(ye * w <= h * w) by (nonlinear_arith)
                requires ye <= h;
            assert(h * w == w * h) by (nonlinear_arith);
        }
        while tx < g
            invariant
                tx <= g,
                ty < g,
                lum@.len() == w * h,
                ys == tile_start(ty as int, th as int, h as int),
                ye == tile_end(ty as int, th as int, h as int),
                ys <= ye <= h,
                ye * w <= lum@.len(),
                forall|i: int| 0 <= i < lum@.len() ==> #[trigger] lum@[i] == pixel_lum(img, i),
                row@.len() == tx,
                forall|b: int| 0 <= b < tx ==> #[trigger] row@[b]@.len() == 256,
                forall|b: int, i: int|
                    0 <= b < tx && 0 <= i < 256 ==> #[trigger] row@[b]@[i] == tile_lut_spec(
                        img,
                        w as int,
                        h as int,
                        tw as int,
                        th as int,
                        b,
                        ty as int,
                        clip_q8,
                        i,
                    ),
            decreases g - tx,
        {
            assert(tx * tw <= 0xffff_ffff_ffff_ffff * 0xffff_ffff_ffff_ffff) by (nonlinear_arith)
                requires tx <= 0xffff_ffff_ffff_ffff, tw <= 0xffff_ffff_ffff_ffff;
            let xs_w: u128 = tx as u128 * tw as u128;
            let xs: usize = if xs_w < w as u128 { xs_w as usize } else { w };
            let xe: usize = if xs_w + (tw as u128) < w as u128 { (xs_w + tw as u128) as usize } else { w };
            let (hist, count) = tile_histogram(lum, w, xs, xe, ys, ye, Ghost(img));
            let lut = tile_lut(&hist, count, clip_q8);
            proof {
                let hs = Seq::new(256, |v: int| rect_count(img, w as int, xs as int, xe as int, ys as int, ye as int, v as u8));
                assert(nat_hist(hist@) =~= hs);
            }
            row.push(lut);
            tx = tx + 1;
        }
        luts.push(row);
        ty = ty + 1;
    }
    luts
}

/// `ceil(n / g)` tiles of that size cover `n`, and fit in it when `n > 0`.
proof fn lemma_tile_size(n: int, g: int)
    requires
        g >= 2,
        n >= 0,
    ensures
        ceil_div(n, g) * g >= n,
        ceil_div(n, g) <= n,
        n > 0 ==> ceil_div(n, g) >= 1,
{
    lemma_fundamental_div_mod(n + g - 1, g);
    let q = ceil_div(n, g);
    let r = (n + g - 1) % g;
    assert(q * g == g * q) by (nonlinear_arith);
    assert(0 <= r < g);
    if n > 0 {
        assert(q >= 1) by (nonlinear_arith)
            requires n + g - 1 == g * q + r, r < g, n > 0, g >= 2;
    }
    assert(q <= n) by (nonlinear_arith)
        requires n + g - 1 == g * q + r, 0 <= r < g, n >= 0, g >= 2;
}

/// Tile index and weight along one axis, as `axis_low`, `axis_frac`, `axis_high`.
fn axis_position(p: usize, t: usize, g: usize, Ghost(n): Ghost<int>) -> (res: (usize, usize, u128))
    requires
        p < n,
        t * g >= n,
        t >= 1,
        g >= 2,
    ensures
        res.0 == axis_low(p as int, t as int),
        res.1 == axis_high(p as int, t as int, g as int),
        res.2 == axis_frac(p as int, t as int),
        res.0 < g,
        res.1 < g,
        res.2 < 2 * t,
{
    let num: u128 = 2 * p as u128 + 1;
    let den: u128 = 2 * t as u128;
    if num < t as u128 {
        (0, 1, 0)
    } else {
        let a: u128 = num - t as u128;
        assert(a < den * g) by (nonlinear_arith)
            requires a == 2 * p + 1 - t, p < n, t * g >= n, den == 2 * t, t >= 1;
        assert(a / den < g) by (nonlinear_arith)
            requires a < den * g, den > 0;
        let lo: usize = (a / den) as usize;
        let hi: usize = if lo + 1 < g { lo + 1 } else { g - 1 };
        (lo, hi, a % den)
    }
}

/// Bilinear mix of four table entries with weights `nx/dx` and `ny/dy`.
fn mix4(c00: u8, c10: u8, c01: u8, c11: u8, nx: u128, ny: u128, dx: u128, dy: u128) -> (v: u8)
    requires
        nx < dx,
        ny < dy,
        dx * dy <= 0xffff_ffff_ffff_ffff,
    ensures
        v == (c00 * (dx - nx) * (dy - ny) + c10 * nx * (dy - ny) + c01 * (dx - nx) * ny + c11 * nx * ny) / (dx * dy),
{
    assert((dx - nx) * (dy - ny) <= dx * dy && nx * (dy - ny) <= dx * dy && (dx - nx) * ny <= dx * dy && nx * ny <= dx * dy) by (nonlinear_arith)
        requires nx < dx, ny < dy, nx >= 0, ny >= 0;
    let wa: u128 = (dx - nx) * (dy - ny);
    let wb: u128 = nx * (dy - ny);
    let wc: u128 = (dx - nx) * ny;
    let wd: u128 = nx * ny;
    assert(wa + wb + wc + wd == dx * dy) by (nonlinear_arith)
        requires wa == (dx - nx) * (dy - ny), wb == nx * (dy - ny), wc == (dx - nx) * ny, wd == nx * ny;
    assert(c00 * wa <= 255 * wa && c10 * wb <= 255 * wb && c01 * wc <= 255 * wc && c11 * wd <= 255 * wd) by (nonlinear_arith)
        requires c00 <= 255, c10 <= 255, c01 <= 255, c11 <= 255, wa >= 0, wb >= 0, wc >= 0, wd >= 0;
    let sum: u128 = c00 as u128 * wa + c10 as u128 * wb + c01 as u128 * wc + c11 as u128 * wd;
    let prod: u128 = dx * dy;
    assert(prod > 0) by (nonlinear_arith)
        requires prod == dx * dy, dx > nx, dy > ny, nx >= 0, ny >= 0;
    assert((sum as int) / (prod as int) <= 255) by (nonlinear_arith)
        requires sum <= 255 * prod, prod > 0;
    assert(sum == c00 * (dx - nx) * (dy - ny) + c10 * nx * (dy - ny) + c01 * (dx - nx) * ny + c11 * nx * ny) by (nonlinear_arith)
        requires wa == (dx - nx) * (dy - ny), wb == nx * (dy - ny), wc == (dx - nx) * ny, wd == nx * ny,
            sum == c00 * wa + c10 * wb + c01 * wc + c11 * wd;
    (sum / prod) as u8
}

/// New luminance of pixel `i`, at column `x` of row `y`.
fn pixel_new_lum(
    luts: &Vec<Vec<Vec<u8>>>,
    lum: &Vec<u8>,
    i: usize,
    x: usize,
    y: usize,
    w: usize,
    h: usize,
    g: usize,
    tw: usize,
    th: usize,
    Ghost(img): Ghost<Seq<u8>>,
    Ghost(clip_q8): Ghost<u32>,
    Ghost(grid_size): Ghost<usize>,
) -> (v: u8)
    requires
        i < w * h,
        i == y * w + x,
        x < w,
        g == grid_of(grid_size),
        tw == ceil_div(w as int, g as int),
        th == ceil_div(h as int, g as int),
        tw * g >= w,
        th * g >= h,
        tw >= 1,
        th >= 1,
        4 * tw * th <= usize::MAX,
        lum@.len() == w * h,
        forall|j: int| 0 <= j < w * h ==> #[trigger] lum@[j] == pixel_lum(img, j),
        luts_match(luts@, g as int, img, w as int, h as int, g as int, tw as int, th as int, clip_q8),
    ensures
        v == interpolated_lum(img, w as int, h as int, clip_q8, grid_size, i as int),
{
    proof {
        lemma_fundamental_div_mod_converse(i as int, w as int, y as int, x as int);
        assert(y < h) by (nonlinear_arith)
            requires i == y * w + x, i < w * h, x >= 0, w > 0;
        assert((2 * tw) * (2 * th) == 4 * tw * th) by (nonlinear_arith);
    }
    let (tx0, tx1, nx) = axis_position(x, tw, g, Ghost(w as int));
    let (ty0, ty1, ny) = axis_position(y, th, g, Ghost(h as int));
    let li = lum[i] as usize;
    let c00 = luts[ty0][tx0][li];
    let c10 = luts[ty0][tx1][li];
    let c01 = luts[ty1][tx0][li];
    let c11 = luts[ty1][tx1][li];
    mix4(c00, c10, c01, c11, nx, ny, 2 * tw as u128, 2 * th as u128)
}

/// Contrast-limited adaptive histogram equalization of a `w`×`h` RGBA image
/// in place, on a `grid_size`×`grid_size` grid of tiles (at least 2×2), with
/// the clip limit `clip_q8` given in 1/256 units. Alpha is untouched.
pub fn apply_clahe(rgba: &mut Vec<u8>, w: usize, h: usize, clip_q8: u32, grid_size: usize)
    requires
        old(rgba)@.len() == w * h * 4,
    ensures
        final(rgba)@ == clahe_image(old(rgba)@, w as int, h as int, clip_q8, grid_size),
        final(rgba)@.len() == old(rgba)@.len(),
        forall|k: int| 0 <= k < w * h ==> #[trigger] final(rgba)@[4 * k + 3] == old(rgba)@[4 * k + 3],
{
    let ghost img = rgba@;
    let len = rgba.len();
    proof {
        assert(w * h <= w * h * 4) by (nonlinear_arith);
    }
    let npx = w * h;
    let g: usize = if grid_size < 2 { 2 } else { grid_size };
    proof {
        lemma_tile_size(w as int, g as int);
        lemma_tile_size(h as int, g as int);
    }
    let tw: usize = ((w as u128 + g as u128 - 1) / g as u128) as usize;
    let th: usize = ((h as u128 + g as u128 - 1) / g as u128) as usize;
    let mut lum: Vec<u8> = Vec::new();
    let mut i: usize = 0;
    while i < npx
        invariant
            img == rgba@,
            img.len() == npx * 4,
            len == img.len(),
            i <= npx,
            lum@.len() == i,
            forall|j: int| 0 <= j < i ==> #[trigger] lum@[j] == pixel_lum(img, j),
        decreases npx - i,
    {
        let off = i * 4;
        lum.push(rgb_to_lum(rgba[off], rgba[off + 1], rgba[off + 2]));
        i = i + 1;
    }
    let luts = build_luts(&lum, w, h, g, tw, th, clip_q8, Ghost(img));
    let ghost out = clahe_image(img, w as int, h as int, clip_q8, grid_size);
    proof {
        assert(4 * tw * th <= w * h * 4) by (nonlinear_arith)
            requires tw <= w, th <= h;
    }
    let mut i: usize = 0;
    let mut x: usize = 0;
    let mut y: usize = 0;
    proof {
        assert(npx > 0 ==> w > 0) by (nonlinear_arith)
            requires npx == w * h;
    }
    while i < npx
        invariant
            img.len() == npx * 4,
            npx == w * h,
            len == img.len(),
            rgba@.len() == img.len(),
            g == grid_of(grid_size),
            tw == ceil_div(w as int, g as int),
            th == ceil_div(h as int, g as int),
            tw * g >= w,
            th * g >= h,
            w > 0 ==> tw >= 1,
            h > 0 ==> th >= 1,
            4 * tw * th <= len,
            lum@.len() == npx,
            forall|j: int| 0 <= j < npx ==> #[trigger] lum@[j] == pixel_lum(img, j),
            luts_match(luts@, g as int, img, w as int, h as int, g as int, tw as int, th as int, clip_q8),
            out == clahe_image(img, w as int, h as int, clip_q8, grid_size),
            i <= npx,
            i == y * w + x,
            i < npx ==> x < w,
            forall|j: int| 0 <= j < 4 * i ==> #[trigger] rgba@[j] == out[j],
            forall|j: int| 4 * i <= j < img.len() ==> #[trigger] rgba@[j] == img[j],
        decreases npx - i,
    {
        proof {
            assert(w > 0 && h > 0) by (nonlinear_arith)
                requires i < npx, npx == w * h;
            assert(y <= i) by (nonlinear_arith)
                requires i == y * w + x, w > 0;
        }
        let l = lum[i];
        let new_lum = pixel_new_lum(&luts, &lum, i, x, y, w, h, g, tw, th, Ghost(img), Ghost(clip_q8), Ghost(grid_size));
        let off = i * 4;
        proof {
            assert forall|c: int| 0 <= c < 3 implies #[trigger] out[4 * i + c] == rescaled_channel(img[4 * i + c], l, new_lum) by {
                assert((4 * i + c) / 4 == i && (4 * i + c) % 4 == c);
            }
            assert((4 * i + 3) / 4 == i && (4 * i + 3) % 4 == 3);
        }
        let r0 = rescale_channel(rgba[off], l, new_lum);
        let r1 = rescale_channel(rgba[off + 1], l, new_lum);
        let r2 = rescale_channel(rgba[off + 2], l, new_lum);
        rgba.set(off, r0);
        rgba.set(off + 1, r1);
        rgba.set(off + 2, r2);
        i = i + 1;
        if x + 1 < w {
            x = x + 1;
        } else {
            proof {
                assert(y * w + x + 1 == (y + 1) * w) by (nonlinear_arith)
                    requires x + 1 == w;
            }
            x = 0;
            y = y + 1;
        }
    }
    assert(rgba@ =~= out);
    assert forall|k: int| 0 <= k < w * h implies #[trigger] rgba@[4 * k + 3] == img[4 * k + 3] by {
        assert((4 * k + 3) % 4 == 3);
    }
}

} // verus!
