//! Per-row PNG filter selection.
//!
//! For every scanline the five PNG filters (None, Sub, Up, Average, Paeth)
//! are evaluated with a channel stride of four bytes; the cost of a filter is
//! the sum of the magnitudes of the filtered bytes read as signed 8-bit
//! residuals. The filter of least cost wins, the lowest index on a tie.

use vstd::prelude::*;
use crate::pixels::is_rgba_len;

verus! {

/// Number of PNG filter types.
pub const FILTER_COUNT: u8 = 5;

pub open spec fn abs_int(x: int) -> int {
    if x < 0 { -x } else { x }
}

/// Paeth predictor: of left `a`, up `b` and upper-left `c`, the one closest
/// to `a + b - c`, preferring `a`, then `b`.
pub open spec fn paeth_spec(a: u8, b: u8, c: u8) -> u8 {
    let p = a + b - c;
    let pa = abs_int(p - a);
    let pb = abs_int(p - b);
    let pc = abs_int(p - c);
    if pa <= pb && pa <= pc {
        a
    } else if pb <= pc {
        b
    } else {
        c
    }
}

/// `x - p` modulo 256.
pub open spec fn wrap_sub(x: u8, p: u8) -> u8 {
    if x >= p { (x - p) as u8 } else { (x - p + 256) as u8 }
}

/// Magnitude of a byte read as a two's-complement signed value.
pub open spec fn signed_mag(v: u8) -> int {
    if v < 128 { v as int } else { 256 - v }
}

/// Left neighbour (same channel) of byte `i` of `row`, zero at the start.
pub open spec fn left_of(row: Seq<u8>, i: int) -> u8 {
    if i >= 4 { row[i - 4] } else { 0 }
}

/// Byte `i` of the previous row, zero where there is none.
pub open spec fn up_of(prev: Option<Seq<u8>>, i: int) -> u8 {
    match prev {
        Some(p) => p[i],
        None => 0,
    }
}

/// Upper-left neighbour of byte `i`, zero where there is none.
pub open spec fn up_left_of(prev: Option<Seq<u8>>, i: int) -> u8 {
    if i >= 4 { up_of(prev, i - 4) } else { 0 }
}

/// The byte that filter `ft` writes for byte `i` of `row`.
pub open spec fn filtered_byte(row: Seq<u8>, prev: Option<Seq<u8>>, ft: u8, i: int) -> u8 {
    let x = row[i];
    let a = left_of(row, i);
    let b = up_of(prev, i);
    let c = up_left_of(prev, i);
    if ft == 1 {
        wrap_sub(x, a)
    } else if ft == 2 {
        wrap_sub(x, b)
    } else if ft == 3 {
        wrap_sub(x, ((a + b) / 2) as u8)
    } else if ft == 4 {
        wrap_sub(x, paeth_spec(a, b, c))
    } else {
        x
    }
}

/// Cost of the first `n` bytes of `row` under filter `ft`.
pub open spec fn cost_prefix(row: Seq<u8>, prev: Option<Seq<u8>>, ft: u8, n: nat) -> int
    decreases n,
{
    if n == 0 {
        0
    } else {
        cost_prefix(row, prev, ft, (n - 1) as nat) + signed_mag(
            filtered_byte(row, prev, ft, n - 1),
        )
    }
}

/// Cost of a whole row under filter `ft`.
pub open spec fn row_cost(row: Seq<u8>, prev: Option<Seq<u8>>, ft: u8) -> int {
    cost_prefix(row, prev, ft, row.len())
}

/// Row `y` of an image whose rows are `stride` bytes long.
pub open spec fn image_row(img: Seq<u8>, stride: int, y: int) -> Seq<u8> {
    img.subrange(y * stride, y * stride + stride)
}

/// The row above row `y`, if any.
pub open spec fn image_prev_row(img: Seq<u8>, stride: int, y: int) -> Option<Seq<u8>> {
    if y > 0 { Some(image_row(img, stride, y - 1)) } else { None }
}

/// Cost of filter `ft` on row `y` of an image `w` pixels wide.
pub open spec fn image_row_cost(img: Seq<u8>, w: int, y: int, ft: u8) -> int {
    row_cost(image_row(img, 4 * w, y), image_prev_row(img, 4 * w, y), ft)
}

/// `ft` is the filter that the selection picks for row `y`: a valid filter of
/// least cost, and no filter of lower index is as cheap.
pub open spec fn is_best_filter(img: Seq<u8>, w: int, y: int, ft: u8) -> bool {
    &&& ft < FILTER_COUNT
    &&& forall|g: u8| g < FILTER_COUNT ==> image_row_cost(img, w, y, ft) <= #[trigger] image_row_cost(img, w, y, g)
    &&& forall|g: u8| g < ft ==> image_row_cost(img, w, y, ft) < #[trigger] image_row_cost(img, w, y, g)
}

proof fn lemma_cost_prefix_bounds(row: Seq<u8>, prev: Option<Seq<u8>>, ft: u8, n: nat)
    ensures
        0 <= cost_prefix(row, prev, ft, n) <= 128 * n,
    decreases n,
{
    if n > 0 {
        lemma_cost_prefix_bounds(row, prev, ft, (n - 1) as nat);
    }
}

fn paeth_predictor(a: u8, b: u8, c: u8) -> (r: u8)
    ensures
        r == paeth_spec(a, b, c),
{
    let p: i16 = a as i16 + b as i16 - c as i16;
    let pa: i16 = if p >= a as i16 { p - a as i16 } else { a as i16 - p };
    let pb: i16 = if p >= b as i16 { p - b as i16 } else { b as i16 - p };
    let pc: i16 = if p >= c as i16 { p - c as i16 } else { c as i16 - p };
    if pa <= pb && pa <= pc {
        a
    } else if pb <= pc {
        b
    } else {
        c
    }
}

fn wrapping_byte_sub(x: u8, p: u8) -> (r: u8)
    ensures
        r == wrap_sub(x, p),
{
    if x >= p {
        x - p
    } else {
        (x as u16 + 256 - p as u16) as u8
    }
}

/// Sum of signed magnitudes of `row` filtered with `filter_type` against
/// the previous row.
fn compute_filter_cost(row: &[u8], prev_row: Option<&[u8]>, filter_type: u8) -> (sum: u128)
    requires
        prev_row is Some ==> prev_row->0@.len() == row@.len(),
    ensures
        sum == row_cost(
            row@,
            match prev_row {
                Some(p) => Some(p@),
                None => None,
            },
            filter_type,
        ),
{
    let ghost prev: Option<Seq<u8>> = match prev_row {
        Some(p) => Some(p@),
        None => None,
    };
    let mut sum: u128 = 0;
    let n = row.len();
    let mut i: usize = 0;
    while i < n
        invariant
            n == row@.len(),
            i <= n,
            prev == (match prev_row {
                Some(p) => Some(p@),
                None => None,
            }),
            prev_row is Some ==> prev_row->0@.len() == n,
            sum == cost_prefix(row@, prev, filter_type, i as nat),
        decreases n - i,
    {
        let x = row[i];
        let a: u8 = if i >= 4 { row[i - 4] } else { 0 };
        let b: u8 = match prev_row {
            Some(p) => p[i],
            None => 0,
        };
        let c: u8 = if i >= 4 {
            match prev_row {
                Some(p) => p[i - 4],
                None => 0,
            }
        } else {
            0
        };
        let filtered: u8 = if filter_type == 1 {
            wrapping_byte_sub(x, a)
        } else if filter_type == 2 {
            wrapping_byte_sub(x, b)
        } else if filter_type == 3 {
            wrapping_byte_sub(x, ((a as u16 + b as u16) / 2) as u8)
        } else if filter_type == 4 {
            wrapping_byte_sub(x, paeth_predictor(a, b, c))
        } else {
            x
        };
        assert(filtered == filtered_byte(row@, prev, filter_type, i as int));
        let mag: u128 = if filtered < 128 { filtered as u128 } else { 256 - filtered as u128 };
        proof {
            lemma_cost_prefix_bounds(row@, prev, filter_type, i as nat);
        }
        sum = sum + mag;
        i = i + 1;
    }
    sum
}

/// Chooses a PNG filter for each of the `h` rows of a `w`×`h` RGBA image:
/// the filter of least cost, the lowest index among equally cheap ones.
pub fn select_optimal_filters(rgba: &[u8], w: usize, h: usize) -> (filters: Vec<u8>)
    requires
        rgba@.len() == w * h * 4,
    ensures
        filters@.len() == h,
        forall|y: int| 0 <= y < h ==> is_best_filter(rgba@, w as int, y, #[trigger] filters@[y]),
        forall|y: int| 0 <= y < h ==> #[trigger] filters@[y] < FILTER_COUNT,
{
    let ghost img = rgba@;
    let n = rgba.len();
    let mut filters: Vec<u8> = Vec::new();
    if h == 0 {
        return filters;
    }
    proof {
        assert(w * 4 <= w * h * 4) by (nonlinear_arith)
            requires h >= 1;
    }
    let stride = w * 4;
    let mut y: usize = 0;
    while y < h
        invariant
            img == rgba@,
            img.len() == w * h * 4,
            img.len() == n,
            stride == w * 4,
            h >= 1,
            y <= h,
            filters@.len() == y,
            forall|k: int| 0 <= k < y ==> is_best_filter(img, w as int, k, #[trigger] filters@[k]),
        decreases h - y,
    {
        proof {
            assert((y + 1) * stride <= h * stride) by (nonlinear_arith)
                requires y + 1 <= h;
            assert(h * stride == w * h * 4) by (nonlinear_arith)
                requires stride == w * 4;
            assert((y + 1) * stride == y * stride + stride) by (nonlinear_arith);
        }
        let row_start = y * stride;
        let row = &rgba[row_start..row_start + stride];
        assert(row@ == image_row(img, stride as int, y as int));
        let prev_row: Option<&[u8]> = if y > 0 {
            proof {
                assert((y - 1) * stride == y * stride - stride) by (nonlinear_arith);
            }
            Some(&rgba[row_start - stride..row_start])
        } else {
            None
        };
        let ghost prev = image_prev_row(img, stride as int, y as int);
        assert(prev == (match prev_row {
            Some(p) => Some(p@),
            None => None,
        }));
        let mut best_filter: u8 = 0;
        let mut best_sum: u128 = compute_filter_cost(row, prev_row, 0);
        let mut ft: u8 = 1;
        while ft < FILTER_COUNT
            invariant
                1 <= ft <= FILTER_COUNT,
                best_filter < ft,
                best_sum == row_cost(row@, prev, best_filter),
                row@ == image_row(img, stride as int, y as int),
                prev == image_prev_row(img, stride as int, y as int),
                prev is Some ==> prev->0.len() == row@.len(),
                prev == (match prev_row {
                    Some(p) => Some(p@),
                    None => None,
                }),
                forall|g: u8| g < ft ==> best_sum <= #[trigger] row_cost(row@, prev, g),
                forall|g: u8| g < best_filter ==> best_sum < #[trigger] row_cost(row@, prev, g),
            decreases FILTER_COUNT - ft,
        {
            let sum = compute_filter_cost(row, prev_row, ft);
            if sum < best_sum {
                best_sum = sum;
                best_filter = ft;
            }
            ft = ft + 1;
        }
        filters.push(best_filter);
        proof {
            assert(stride as int == 4 * w);
            assert forall|g: u8| #![auto] g < FILTER_COUNT implies image_row_cost(img, w as int, y as int, g)
                == row_cost(row@, prev, g) by {}
        }
        y = y + 1;
    }
    filters
}

/// Chooses a PNG filter for every row of an RGBA image of `width`×`height`
/// pixels. A buffer whose length is not `width·height·4` gets filter 0
/// (None) for every row.
pub fn select_png_filters(rgba: &[u8], width: u32, height: u32) -> (filters: Vec<u8>)
    ensures
        filters@.len() == height,
        forall|y: int| 0 <= y < height ==> #[trigger] filters@[y] < FILTER_COUNT,
        rgba@.len() != width * height * 4 ==> forall|y: int| 0 <= y < height ==> #[trigger] filters@[y] == 0,
        rgba@.len() == width * height * 4 ==> forall|y: int|
            0 <= y < height ==> is_best_filter(rgba@, width as int, y, #[trigger] filters@[y]),
{
    let w = width as usize;
    let h = height as usize;
    if !is_rgba_len(rgba.len(), width, height) {
        let mut filters: Vec<u8> = Vec::new();
        let mut y: usize = 0;
        while y < h
            invariant
                y <= h,
                h == height,
                filters@.len() == y,
                forall|k: int| 0 <= k < y ==> #[trigger] filters@[k] == 0,
            decreases h - y,
        {
            filters.push(0);
            y = y + 1;
        }
        return filters;
    }
    select_optimal_filters(rgba, w, h)
}

} // verus!
