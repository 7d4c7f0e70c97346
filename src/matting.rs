//! Sample search for shared matting.
//!
//! Around each unknown pixel the nearest definite foreground and background
//! pixels are sought along a spiral: every offset of the square
//! `[-r, r]²` but the centre, in ascending order of squared distance (equal
//! distances in row-major order). Up to `MAX_SAMPLES` of each kind are kept,
//! nearest first; the compositing equation that turns them into an alpha is
//! the caller's.

use vstd::prelude::*;
use crate::trimap::{BACKGROUND, FOREGROUND};

verus! {

/// Samples kept per kind.
pub const MAX_SAMPLES: usize = 3;

/// Largest search radius accepted.
pub const MAX_RADIUS: isize = 1000;

/// A spiral step: horizontal and vertical offset, and squared distance.
pub type SpiralStep = (isize, isize, i32);

/// A sample: pixel index and squared distance from the pixel sampled for.
pub type Sample = (usize, i32);

/// Cell `t` of the square `[-r, r]²` in row-major order, with its squared
/// distance.
pub open spec fn grid_step(r: int, t: int) -> SpiralStep {
    let dx = t % (2 * r + 1) - r;
    let dy = t / (2 * r + 1) - r;
    (dx as isize, dy as isize, (dx * dx + dy * dy) as i32)
}

/// The steps of the first `t` cells of the square in row-major order,
/// the centre left out.
pub open spec fn grid_prefix(r: int, t: nat) -> Seq<SpiralStep>
    decreases t,
{
    if t == 0 {
        Seq::empty()
    } else {
        let s = grid_step(r, t - 1);
        let prev = grid_prefix(r, (t - 1) as nat);
        if s.0 == 0 && s.1 == 0 { prev } else { prev.push(s) }
    }
}

/// Steps at squared distance `v`.
pub open spec fn has_dist(v: int) -> spec_fn(SpiralStep) -> bool {
    |p: SpiralStep| p.2 == v
}

/// The steps of `s` whose squared distance is below `v`, ordered by that
/// distance and, among equals, as in `s`.
pub open spec fn steps_sorted_below(s: Seq<SpiralStep>, v: nat) -> Seq<SpiralStep>
    decreases v,
{
    if v == 0 {
        Seq::empty()
    } else {
        steps_sorted_below(s, (v - 1) as nat) + s.filter(has_dist(v - 1))
    }
}

/// The spiral of radius `r`: the square's steps in row-major order, stably
/// sorted by squared distance (which is at most `2r²`).
pub open spec fn spiral_spec(r: int) -> Seq<SpiralStep> {
    steps_sorted_below(grid_prefix(r, ((2 * r + 1) * (2 * r + 1)) as nat), (2 * r * r + 1) as nat)
}

proof fn lemma_filter_push(s: Seq<SpiralStep>, x: SpiralStep, p: spec_fn(SpiralStep) -> bool)
    ensures
        s.push(x).filter(p) == if p(x) { s.filter(p).push(x) } else { s.filter(p) },
{
    reveal(Seq::filter);
    assert(s.push(x).drop_last() =~= s);
}

proof fn lemma_sorted_below(s: Seq<SpiralStep>, v: nat)
    ensures
        forall|i: int| 0 <= i < steps_sorted_below(s, v).len() ==> (#[trigger] steps_sorted_below(s, v)[i]).2 < v,
        forall|i: int, j: int|
            0 <= i <= j < steps_sorted_below(s, v).len() ==> (#[trigger] steps_sorted_below(s, v)[i]).2
                <= (#[trigger] steps_sorted_below(s, v)[j]).2,
    decreases v,
{
    if v > 0 {
        lemma_sorted_below(s, (v - 1) as nat);
        let a = steps_sorted_below(s, (v - 1) as nat);
        let f = s.filter(has_dist(v - 1));
        assert forall|i: int| 0 <= i < f.len() implies (#[trigger] f[i]).2 == v - 1 by {
            s.lemma_filter_pred(has_dist(v - 1), i);
        }
        assert(steps_sorted_below(s, v) == a + f);
    }
}

/// The spiral comes in ascending order of squared distance.
pub proof fn lemma_spiral_ascending(r: int)
    ensures
        forall|i: int, j: int|
            0 <= i <= j < spiral_spec(r).len() ==> (#[trigger] spiral_spec(r)[i]).2 <= (#[trigger] spiral_spec(r)[j]).2,
{
    lemma_sorted_below(grid_prefix(r, ((2 * r + 1) * (2 * r + 1)) as nat), (2 * r * r + 1) as nat);
}

/// The spiral of search radius `radius`: every offset of the square
/// `[-radius, radius]²` but the centre, by ascending squared distance, equal
/// distances in row-major order.
pub fn spiral_offsets(radius: isize) -> (spiral: Vec<SpiralStep>)
    requires
        0 <= radius <= MAX_RADIUS,
    ensures
        spiral@ == spiral_spec(radius as int),
{
    let r = radius;
    let ghost ri = r as int;
    let ghost side = 2 * ri + 1;
    let ghost g = grid_prefix(ri, (side * side) as nat);
    assert(2 * r * r <= 2_000_000) by (nonlinear_arith)
        requires 0 <= r <= 1000;
    let max_d: i32 = (2 * r * r) as i32;
    let mut steps: Vec<SpiralStep> = Vec::new();
    let mut v: i32 = 0;
    while v <= max_d
        invariant
            0 <= r <= MAX_RADIUS,
            ri == r,
            side == 2 * ri + 1,
            g == grid_prefix(ri, (side * side) as nat),
            max_d == 2 * r * r,
            max_d <= 2_000_000,
            0 <= v <= max_d + 1,
            steps@ == steps_sorted_below(g, v as nat),
        decreases max_d + 1 - v,
    {
        let ghost base = steps@;
        assert((-r + ri) * side == 0) by (nonlinear_arith)
            requires ri == r;
        assert(grid_prefix(ri, 0).filter(has_dist(v as int)) =~= Seq::<SpiralStep>::empty()) by {
            reveal(Seq::filter);
        }
        assert(steps@ =~= base + grid_prefix(ri, 0).filter(has_dist(v as int)));
        let mut dy: isize = -r;
        while dy <= r
            invariant
                0 <= r <= MAX_RADIUS,
                ri == r,
                side == 2 * ri + 1,
                -r <= dy <= r + 1,
                0 <= v <= max_d,
                max_d <= 2_000_000,
                steps@ == base + grid_prefix(ri, ((dy + ri) * side) as nat).filter(has_dist(v as int)),
            decreases r + 1 - dy,
        {
            let mut dx: isize = -r;
            while dx <= r
                invariant
                    0 <= r <= MAX_RADIUS,
                    ri == r,
                    side == 2 * ri + 1,
                    -r <= dy <= r,
                    -r <= dx <= r + 1,
                    0 <= v <= max_d,
                    max_d <= 2_000_000,
                    steps@ == base + grid_prefix(ri, ((dy + ri) * side + dx + ri) as nat).filter(has_dist(v as int)),
                decreases r + 1 - dx,
            {
                let ghost t = (dy + ri) * side + dx + ri;
                let ex: i64 = dx as i64;
                let ey: i64 = dy as i64;
                assert(0 <= ex * ex <= 1_000_000 && 0 <= ey * ey <= 1_000_000) by (nonlinear_arith)
                    requires -1000 <= ex <= 1000, -1000 <= ey <= 1000;
                let d2: i32 = (ex * ex + ey * ey) as i32;
                proof {
                    vstd::arithmetic::div_mod::lemma_fundamental_div_mod_converse(t, side, dy + ri, dx + ri);
                    assert(grid_step(ri, t) == (dx, dy, d2));
                    assert(0 <= t);
                    let gp = grid_prefix(ri, t as nat);
                    lemma_filter_push(gp, (dx, dy, d2), has_dist(v as int));
                    assert(grid_prefix(ri, (t + 1) as nat) == if dx == 0 && dy == 0 { gp } else { gp.push((dx, dy, d2)) });
                }
                if !(dx == 0 && dy == 0) && d2 == v {
                    steps.push((dx, dy, d2));
                }
                proof {
                    assert(steps@ =~= base + grid_prefix(ri, (t + 1) as nat).filter(has_dist(v as int)));
                }
                dx = dx + 1;
            }
            proof {
                assert((dy + ri) * side + side == (dy + 1 + ri) * side) by (nonlinear_arith);
            }
            dy = dy + 1;
        }
        proof {
            assert((r + 1 + ri) * side == side * side) by (nonlinear_arith)
                requires side == 2 * ri + 1, ri == r;
        }
        v = v + 1;
    }
    steps
}

/// Pixel that step `s` reaches from `(x, y)` in a `w`×`h` image, if inside.
pub open spec fn step_target(w: int, h: int, x: int, y: int, s: SpiralStep) -> Option<usize> {
    let sx = x + s.0;
    let sy = y + s.1;
    if 0 <= sx < w && 0 <= sy < h {
        Some((sy * w + sx) as usize)
    } else {
        None
    }
}

/// Pixels labelled `label` that the first `n` steps reach, in spiral order.
pub open spec fn samples_within(
    trimap: Seq<u8>,
    w: int,
    h: int,
    x: int,
    y: int,
    spiral: Seq<SpiralStep>,
    label: u8,
    n: nat,
) -> Seq<Sample>
    decreases n,
{
    if n == 0 {
        Seq::empty()
    } else {
        let prev = samples_within(trimap, w, h, x, y, spiral, label, (n - 1) as nat);
        let s = spiral[n - 1];
        match step_target(w, h, x, y, s) {
            Some(i) => if trimap[i as int] == label {
                prev.push((i, s.2))
            } else {
                prev
            },
            None => prev,
        }
    }
}

/// The first `MAX_SAMPLES` samples, or all when there are fewer.
pub open spec fn first_samples(all: Seq<Sample>) -> Seq<Sample> {
    if all.len() <= MAX_SAMPLES {
        all
    } else {
        all.take(MAX_SAMPLES as int)
    }
}

proof fn lemma_samples_prefix(
    trimap: Seq<u8>,
    w: int,
    h: int,
    x: int,
    y: int,
    spiral: Seq<SpiralStep>,
    label: u8,
    k: nat,
    n: nat,
)
    requires
        k <= n,
    ensures
        samples_within(trimap, w, h, x, y, spiral, label, k).len() <= samples_within(trimap, w, h, x, y, spiral, label, n).len(),
        forall|i: int|
            0 <= i < samples_within(trimap, w, h, x, y, spiral, label, k).len() ==> #[trigger] samples_within(
                trimap,
                w,
                h,
                x,
                y,
                spiral,
                label,
                n,
            )[i] == samples_within(trimap, w, h, x, y, spiral, label, k)[i],
    decreases n,
{
    if k < n {
        lemma_samples_prefix(trimap, w, h, x, y, spiral, label, k, (n - 1) as nat);
    }
}

proof fn lemma_first_samples_settled(
    trimap: Seq<u8>,
    w: int,
    h: int,
    x: int,
    y: int,
    spiral: Seq<SpiralStep>,
    label: u8,
    k: nat,
    n: nat,
)
    requires
        k <= n,
        samples_within(trimap, w, h, x, y, spiral, label, k).len() >= MAX_SAMPLES,
    ensures
        first_samples(samples_within(trimap, w, h, x, y, spiral, label, n)) == first_samples(
            samples_within(trimap, w, h, x, y, spiral, label, k),
        ),
{
    lemma_samples_prefix(trimap, w, h, x, y, spiral, label, k, n);
    let a = samples_within(trimap, w, h, x, y, spiral, label, k);
    let b = samples_within(trimap, w, h, x, y, spiral, label, n);
    if a.len() == MAX_SAMPLES {
        assert(b.len() >= MAX_SAMPLES);
        if b.len() == MAX_SAMPLES {
            assert(a =~= b);
        } else {
            assert(b.take(MAX_SAMPLES as int) =~= a);
        }
    } else {
        assert(b.take(MAX_SAMPLES as int) =~= a.take(MAX_SAMPLES as int));
    }
}

proof fn lemma_first_samples_step(all: Seq<Sample>, e: Sample)
    ensures
        first_samples(all.push(e)) == if all.len() < MAX_SAMPLES {
            first_samples(all).push(e)
        } else {
            first_samples(all)
        },
{
    if all.len() >= MAX_SAMPLES {
        assert(all.push(e).take(MAX_SAMPLES as int) =~= first_samples(all));
    }
}

/// Up to `MAX_SAMPLES` definite foreground and background pixels nearest to
/// `(x, y)` along `spiral`, nearest first, each with its squared distance.
pub fn collect_samples(
    trimap: &[u8],
    w: usize,
    h: usize,
    x: usize,
    y: usize,
    spiral: &[SpiralStep],
) -> (res: (Vec<Sample>, Vec<Sample>))
    requires
        trimap@.len() == w * h,
        x < w,
        y < h,
    ensures
        res.0@ == first_samples(samples_within(trimap@, w as int, h as int, x as int, y as int, spiral@, FOREGROUND, spiral@.len())),
        res.1@ == first_samples(samples_within(trimap@, w as int, h as int, x as int, y as int, spiral@, BACKGROUND, spiral@.len())),
{
    let ghost t = trimap@;
    let ghost sp = spiral@;
    let ghost (wi, hi, xi, yi) = (w as int, h as int, x as int, y as int);
    let mut fg: Vec<Sample> = Vec::new();
    let mut bg: Vec<Sample> = Vec::new();
    let n = spiral.len();
    let len = trimap.len();
    let mut k: usize = 0;
    while k < n && !(fg.len() >= MAX_SAMPLES && bg.len() >= MAX_SAMPLES)
        invariant
            len == t.len(),
            t == trimap@,
            sp == spiral@,
            wi == w && hi == h && xi == x && yi == y,
            t.len() == w * h,
            x < w,
            y < h,
            n == sp.len(),
            k <= n,
            fg@ == first_samples(samples_within(t, wi, hi, xi, yi, sp, FOREGROUND, k as nat)),
            bg@ == first_samples(samples_within(t, wi, hi, xi, yi, sp, BACKGROUND, k as nat)),
        decreases n - k,
    {
        let ghost sf = samples_within(t, wi, hi, xi, yi, sp, FOREGROUND, k as nat);
        let ghost sb = samples_within(t, wi, hi, xi, yi, sp, BACKGROUND, k as nat);
        let (dx, dy, d2) = spiral[k];
        let sx: i128 = x as i128 + dx as i128;
        let sy: i128 = y as i128 + dy as i128;
        if 0 <= sx && sx < w as i128 && 0 <= sy && sy < h as i128 {
            proof {
                assert(sy * w + sx < w * h) by (nonlinear_arith)
                    requires 0 <= sx < w, 0 <= sy < h;
                assert(0 <= sy * w) by (nonlinear_arith)
                    requires 0 <= sy, 0 <= w;
            }
            let si: usize = (sy as usize) * w + sx as usize;
            let label = trimap[si];
            proof {
                lemma_first_samples_step(sf, (si, d2));
                lemma_first_samples_step(sb, (si, d2));
            }
            if fg.len() < MAX_SAMPLES && label == FOREGROUND {
                fg.push((si, d2));
            } else if bg.len() < MAX_SAMPLES && label == BACKGROUND {
                bg.push((si, d2));
            }
        }
        k = k + 1;
    }
    proof {
        if k < n {
            lemma_first_samples_settled(t, wi, hi, xi, yi, sp, FOREGROUND, k as nat, n as nat);
            lemma_first_samples_settled(t, wi, hi, xi, yi, sp, BACKGROUND, k as nat, n as nat);
        }
    }
    (fg, bg)
}

} // verus!
