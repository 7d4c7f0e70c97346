//! Median-cut colour quantization with Floyd–Steinberg error diffusion.
//!
//! The pixels of an image are split into buckets: the bucket holding the most
//! pixels (the last such on a tie) is sorted along its widest channel, equal
//! values keeping their order, and cut at the median, until the
//! wanted number of buckets is reached or every bucket holds a single pixel.
//! The integer centroids of the buckets form the palette. The image is then
//! remapped in row-major order: each pixel, with the error diffused to it by
//! its already-mapped neighbours, takes the nearest palette colour under the
//! weighted distance `2·dR² + 4·dG² + 3·dB²`, and its own error is passed on
//! with the weights 7/16 (right), 3/16 (below left), 5/16 (below) and 1/16
//! (below right). Errors are carried in fixed point with sixteen fractional
//! bits; alpha is copied unchanged.

use vstd::prelude::*;
use vstd::multiset::Multiset;
use crate::pixels::{copy_bytes, is_rgba_len, rgba_len};

verus! {

broadcast use vstd::multiset::group_multiset_axioms, vstd::seq_lib::group_to_multiset_ensures;

/// A pixel as the quantizer sees it: red, green, blue and its index in the image.
pub type Pixel = (u8, u8, u8, usize);

/// An RGB colour.
pub type Color = (u8, u8, u8);

/// Channel `axis` (0 red, 1 green, otherwise blue) of a pixel.
pub open spec fn channel(p: Pixel, axis: u8) -> u8 {
    if axis == 0 {
        p.0
    } else if axis == 1 {
        p.1
    } else {
        p.2
    }
}

/// Least value of channel `axis` over `s`; 255 for an empty sequence.
pub open spec fn min_channel(s: Seq<Pixel>, axis: u8) -> u8
    decreases s.len(),
{
    if s.len() == 0 {
        255
    } else {
        let m = min_channel(s.drop_last(), axis);
        let v = channel(s.last(), axis);
        if v < m { v } else { m }
    }
}

/// Greatest value of channel `axis` over `s`; 0 for an empty sequence.
pub open spec fn max_channel(s: Seq<Pixel>, axis: u8) -> u8
    decreases s.len(),
{
    if s.len() == 0 {
        0
    } else {
        let m = max_channel(s.drop_last(), axis);
        let v = channel(s.last(), axis);
        if v > m { v } else { m }
    }
}

pub open spec fn channel_range(s: Seq<Pixel>, axis: u8) -> int {
    max_channel(s, axis) - min_channel(s, axis)
}

/// The channel of widest range over `s`, red before green before blue on a tie.
pub open spec fn longest_axis_spec(s: Seq<Pixel>) -> u8 {
    let rr = channel_range(s, 0);
    let rg = channel_range(s, 1);
    let rb = channel_range(s, 2);
    if rr >= rg && rr >= rb {
        0
    } else if rg >= rb {
        1
    } else {
        2
    }
}

/// Sum of channel `axis` over `s`.
pub open spec fn channel_sum(s: Seq<Pixel>, axis: u8) -> nat
    decreases s.len(),
{
    if s.len() == 0 {
        0
    } else {
        (channel_sum(s.drop_last(), axis) + channel(s.last(), axis)) as nat
    }
}

/// Integer mean of each channel over `s`, with divisor at least one.
pub open spec fn centroid_spec(s: Seq<Pixel>) -> Color {
    let n: nat = if s.len() == 0 { 1 } else { s.len() };
    (
        (channel_sum(s, 0) / n) as u8,
        (channel_sum(s, 1) / n) as u8,
        (channel_sum(s, 2) / n) as u8,
    )
}

/// `s` is in ascending order of channel `axis`.
pub open spec fn sorted_on(s: Seq<Pixel>, axis: u8) -> bool {
    forall|i: int, j: int| 0 <= i <= j < s.len() ==> channel(#[trigger] s[i], axis) <= channel(
        #[trigger] s[j],
        axis,
    )
}

/// Weighted squared distance between two colours.
pub open spec fn color_dist(r: u8, g: u8, b: u8, c: Color) -> int {
    2 * (r - c.0) * (r - c.0) + 4 * (g - c.1) * (g - c.1) + 3 * (b - c.2) * (b - c.2)
}

/// The first colour of `pal[0..n]` at least distance from `(r, g, b)`.
pub open spec fn nearest_prefix(pal: Seq<Color>, r: u8, g: u8, b: u8, n: nat) -> Color
    decreases n,
{
    if n <= 1 {
        pal[0]
    } else {
        let best = nearest_prefix(pal, r, g, b, (n - 1) as nat);
        if color_dist(r, g, b, pal[n - 1]) < color_dist(r, g, b, best) {
            pal[n - 1]
        } else {
            best
        }
    }
}

/// The palette colour nearest to `(r, g, b)`, the earliest on a tie.
pub open spec fn nearest_spec(pal: Seq<Color>, r: u8, g: u8, b: u8) -> Color {
    nearest_prefix(pal, r, g, b, pal.len())
}

proof fn lemma_channel_bounds(s: Seq<Pixel>, axis: u8)
    requires
        s.len() > 0,
    ensures
        min_channel(s, axis) <= max_channel(s, axis),
    decreases s.len(),
{
    if s.len() > 1 {
        lemma_channel_bounds(s.drop_last(), axis);
    }
}

proof fn lemma_channel_sum_bound(s: Seq<Pixel>, axis: u8)
    ensures
        channel_sum(s, axis) <= 255 * s.len(),
    decreases s.len(),
{
    if s.len() > 0 {
        lemma_channel_sum_bound(s.drop_last(), axis);
    }
}

proof fn lemma_centroid_channel(s: Seq<Pixel>, axis: u8)
    ensures
        channel_sum(s, axis) / (if s.len() == 0 { 1 } else { s.len() }) <= 255,
{
    lemma_channel_sum_bound(s, axis);
    let n: nat = if s.len() == 0 { 1 } else { s.len() };
    assert(channel_sum(s, axis) / n <= 255) by (nonlinear_arith)
        requires channel_sum(s, axis) <= 255 * s.len(), n >= 1, n >= s.len();
}

/// The nearest colour is a palette colour, and no palette colour is nearer.
pub proof fn lemma_nearest_in_palette(pal: Seq<Color>, r: u8, g: u8, b: u8, n: nat)
    requires
        1 <= n <= pal.len(),
    ensures
        exists|k: int| 0 <= k < n && pal[k] == nearest_prefix(pal, r, g, b, n),
        forall|k: int|
            0 <= k < n ==> color_dist(r, g, b, nearest_prefix(pal, r, g, b, n)) <= color_dist(
                r,
                g,
                b,
                #[trigger] pal[k],
            ),
    decreases n,
{
    if n > 1 {
        lemma_nearest_in_palette(pal, r, g, b, (n - 1) as nat);
    } else {
        assert(pal[0] == nearest_prefix(pal, r, g, b, n));
    }
}

/// The pixels of `s` whose channel `axis` is below `v`, ordered by that
/// channel and, among equals, as in `s`.
pub open spec fn sorted_below(s: Seq<Pixel>, axis: u8, v: nat) -> Seq<Pixel>
    decreases v,
{
    if v == 0 {
        Seq::empty()
    } else {
        sorted_below(s, axis, (v - 1) as nat) + s.filter(|p: Pixel| channel(p, axis) == (v - 1) as u8)
    }
}

/// `s` in ascending order of channel `axis`, equal values keeping their
/// order.
pub open spec fn stable_sorted(s: Seq<Pixel>, axis: u8) -> Seq<Pixel> {
    sorted_below(s, axis, 256)
}

/// The two halves of a bucket cut at its median along its longest axis.
pub open spec fn split_spec(b: Seq<Pixel>) -> (Seq<Pixel>, Seq<Pixel>) {
    let s = stable_sorted(b, longest_axis_spec(b));
    (s.take((b.len() / 2) as int), s.skip((b.len() / 2) as int))
}

/// Among the first `n` buckets, the last of those with the most pixels,
/// counting only buckets of at least two.
pub open spec fn largest_below(bs: Seq<Seq<Pixel>>, n: nat) -> Option<int>
    decreases n,
{
    if n == 0 {
        None
    } else {
        let prev = largest_below(bs, (n - 1) as nat);
        let l = bs[n - 1].len();
        if l > 1 && (prev is None || l >= bs[prev->0].len()) {
            Some(n - 1)
        } else {
            prev
        }
    }
}

/// The bucket that the median cut splits next, if any.
pub open spec fn largest_spec(bs: Seq<Seq<Pixel>>) -> Option<int> {
    largest_below(bs, bs.len())
}

/// One median-cut step: the largest bucket is replaced by the last one, and
/// its two halves are appended.
pub open spec fn cut_step(bs: Seq<Seq<Pixel>>) -> Seq<Seq<Pixel>> {
    match largest_spec(bs) {
        Some(i) => {
            let halves = split_spec(bs[i]);
            bs.update(i, bs.last()).drop_last().push(halves.0).push(halves.1)
        },
        None => bs,
    }
}

/// Median-cut steps from `bs` until there are `max` buckets, no bucket can
/// be split, or `fuel` steps are spent.
pub open spec fn median_cut_spec(bs: Seq<Seq<Pixel>>, max: int, fuel: nat) -> Seq<Seq<Pixel>>
    decreases fuel,
{
    if fuel == 0 || bs.len() >= max || largest_spec(bs) is None {
        bs
    } else {
        median_cut_spec(cut_step(bs), max, (fuel - 1) as nat)
    }
}

/// The buckets of the median cut of an image of `n` pixels.
pub open spec fn median_cut_buckets_spec(img: Seq<u8>, n: nat, max_colors: usize) -> Seq<Seq<Pixel>> {
    let m = clamp_colors(max_colors);
    median_cut_spec(seq![image_pixels(img, n)], m, m as nat)
}

/// The median-cut palette of an image of `n` pixels: one centroid per bucket.
pub open spec fn median_cut_palette(img: Seq<u8>, n: nat, max_colors: usize) -> Seq<Color> {
    let bs = median_cut_buckets_spec(img, n, max_colors);
    Seq::new(bs.len(), |k: int| centroid_spec(bs[k]))
}

/// A set of pixels that the median cut treats as one palette entry.
pub struct ColorBucket {
    pixels: Vec<Pixel>,
}

impl ColorBucket {
    pub closed spec fn view(&self) -> Seq<Pixel> {
        self.pixels@
    }

    /// The channel (0 red, 1 green, 2 blue) over which the bucket's values
    /// spread widest.
    fn longest_axis(&self) -> (axis: u8)
        requires
            self@.len() > 0,
        ensures
            axis == longest_axis_spec(self@),
            axis < 3,
    {
        let ghost s = self.pixels@;
        let mut min_r: u8 = 255;
        let mut min_g: u8 = 255;
        let mut min_b: u8 = 255;
        let mut max_r: u8 = 0;
        let mut max_g: u8 = 0;
        let mut max_b: u8 = 0;
        let n = self.pixels.len();
        let mut i: usize = 0;
        while i < n
            invariant
                s == self.pixels@,
                n == s.len(),
                i <= n,
                min_r == min_channel(s.subrange(0, i as int), 0),
                min_g == min_channel(s.subrange(0, i as int), 1),
                min_b == min_channel(s.subrange(0, i as int), 2),
                max_r == max_channel(s.subrange(0, i as int), 0),
                max_g == max_channel(s.subrange(0, i as int), 1),
                max_b == max_channel(s.subrange(0, i as int), 2),
            decreases n - i,
        {
            let (r, g, b, _) = self.pixels[i];
            assert(s.subrange(0, i + 1).drop_last() =~= s.subrange(0, i as int));
            if r < min_r {
                min_r = r;
            }
            if r > max_r {
                max_r = r;
            }
            if g < min_g {
                min_g = g;
            }
            if g > max_g {
                max_g = g;
            }
            if b < min_b {
                min_b = b;
            }
            if b > max_b {
                max_b = b;
            }
            i = i + 1;
        }
        assert(s.subrange(0, n as int) =~= s);
        proof {
            lemma_channel_bounds(s, 0);
            lemma_channel_bounds(s, 1);
            lemma_channel_bounds(s, 2);
        }
        let range_r = max_r - min_r;
        let range_g = max_g - min_g;
        let range_b = max_b - min_b;
        if range_r >= range_g && range_r >= range_b {
            0
        } else if range_g >= range_b {
            1
        } else {
            2
        }
    }

    /// Sorts the bucket along its longest axis and cuts it at the median:
    /// the first half gets `len / 2` pixels, the second the rest.
    fn split(self) -> (halves: (ColorBucket, ColorBucket))
        requires
            self@.len() >= 2,
        ensures
            halves.0@.len() == self@.len() / 2,
            halves.1@.len() == self@.len() - self@.len() / 2,
            (halves.0@ + halves.1@).to_multiset() == self@.to_multiset(),
            sorted_on(halves.0@ + halves.1@, longest_axis_spec(self@)),
            (halves.0@, halves.1@) == split_spec(self@),
    {
        let axis = self.longest_axis();
        let mut pixels = self.pixels;
        sort_by_channel(&mut pixels, axis);
        let ghost sorted = pixels@;
        let mid = pixels.len() / 2;
        let right = pixels.split_off(mid);
        assert(pixels@ + right@ =~= sorted);
        assert(pixels@ =~= sorted.take(mid as int));
        assert(right@ =~= sorted.skip(mid as int));
        (ColorBucket { pixels }, ColorBucket { pixels: right })
    }

    /// Integer mean of each channel, with divisor at least one.
    fn centroid(&self) -> (c: Color)
        ensures
            c == centroid_spec(self@),
    {
        let ghost s = self.pixels@;
        let mut sr: u128 = 0;
        let mut sg: u128 = 0;
        let mut sb: u128 = 0;
        let n = self.pixels.len();
        let mut i: usize = 0;
        while i < n
            invariant
                s == self.pixels@,
                n == s.len(),
                i <= n,
                sr == channel_sum(s.subrange(0, i as int), 0),
                sg == channel_sum(s.subrange(0, i as int), 1),
                sb == channel_sum(s.subrange(0, i as int), 2),
            decreases n - i,
        {
            let (r, g, b, _) = self.pixels[i];
            assert(s.subrange(0, i + 1).drop_last() =~= s.subrange(0, i as int));
            proof {
                lemma_channel_sum_bound(s.subrange(0, i as int), 0);
                lemma_channel_sum_bound(s.subrange(0, i as int), 1);
                lemma_channel_sum_bound(s.subrange(0, i as int), 2);
            }
            sr = sr + r as u128;
            sg = sg + g as u128;
            sb = sb + b as u128;
            i = i + 1;
        }
        assert(s.subrange(0, n as int) =~= s);
        proof {
            lemma_centroid_channel(s, 0);
            lemma_centroid_channel(s, 1);
            lemma_centroid_channel(s, 2);
        }
        let d: u128 = if n == 0 { 1 } else { n as u128 };
        ((sr / d) as u8, (sg / d) as u8, (sb / d) as u8)
    }
}

/// The pixels of a packed RGBA image of `n` pixels, each with its index.
pub open spec fn image_pixels(img: Seq<u8>, n: nat) -> Seq<Pixel> {
    Seq::new(n, |i: int| (img[4 * i], img[4 * i + 1], img[4 * i + 2], i as usize))
}

/// All pixels held by a sequence of buckets.
pub open spec fn buckets_multiset(bs: Seq<Seq<Pixel>>) -> Multiset<Pixel>
    decreases bs.len(),
{
    if bs.len() == 0 {
        Multiset::empty()
    } else {
        buckets_multiset(bs.drop_last()).add(bs.last().to_multiset())
    }
}

/// `bs` cuts the pixels `px` into non-empty buckets.
pub open spec fn is_partition(bs: Seq<Seq<Pixel>>, px: Seq<Pixel>) -> bool {
    &&& buckets_multiset(bs) == px.to_multiset()
    &&& forall|k: int| 0 <= k < bs.len() ==> #[trigger] bs[k].len() > 0
}

/// The number of palette colours asked for, brought into `2..=256`.
pub open spec fn clamp_colors(max_colors: usize) -> int {
    if max_colors < 2 {
        2
    } else if max_colors > 256 {
        256
    } else {
        max_colors as int
    }
}

/// Size of the palette that the median cut yields for `npx` pixels: one
/// colour per bucket, as many buckets as asked for and pixels allow.
pub open spec fn palette_size(max_colors: usize, npx: nat) -> int {
    if npx == 0 {
        1
    } else if npx < clamp_colors(max_colors) {
        npx as int
    } else {
        clamp_colors(max_colors)
    }
}

/// `pal` is the palette of a median cut of `px` into buckets: one centroid
/// per bucket, the buckets cutting the pixels, `max_colors` of them or one
/// per pixel if there are fewer pixels.
pub open spec fn is_median_cut_palette(pal: Seq<Color>, px: Seq<Pixel>, max_colors: usize) -> bool {
    &&& pal.len() == palette_size(max_colors, px.len())
    &&& (px.len() == 0 ==> pal == seq![(0u8, 0u8, 0u8)])
    &&& (px.len() > 0 ==> exists|bs: Seq<Seq<Pixel>>|
        is_partition(bs, px) && bs.len() == pal.len() && forall|k: int|
            0 <= k < bs.len() ==> pal[k] == #[trigger] centroid_spec(bs[k]))
}

pub open spec fn bucket_views(bs: Seq<ColorBucket>) -> Seq<Seq<Pixel>> {
    Seq::new(bs.len(), |k: int| bs[k]@)
}

proof fn lemma_buckets_multiset_update(bs: Seq<Seq<Pixel>>, i: int, x: Seq<Pixel>)
    requires
        0 <= i < bs.len(),
    ensures
        buckets_multiset(bs.update(i, x)).add(bs[i].to_multiset()) =~= buckets_multiset(bs).add(
            x.to_multiset(),
        ),
    decreases bs.len(),
{
    let u = bs.update(i, x);
    let d = bs.drop_last();
    if i == bs.len() - 1 {
        assert(u.drop_last() =~= d);
        assert(buckets_multiset(u) == buckets_multiset(d).add(x.to_multiset()));
        assert(buckets_multiset(bs) == buckets_multiset(d).add(bs[i].to_multiset()));
        let a = buckets_multiset(d);
        assert forall|v: Pixel| #[trigger] a.add(x.to_multiset()).add(bs[i].to_multiset()).count(v)
            == a.add(bs[i].to_multiset()).add(x.to_multiset()).count(v) by {}
    } else {
        lemma_buckets_multiset_update(d, i, x);
        assert(u.drop_last() =~= d.update(i, x));
        assert(u.last() == bs.last());
        assert(buckets_multiset(u) == buckets_multiset(d.update(i, x)).add(bs.last().to_multiset()));
        assert(buckets_multiset(bs) == buckets_multiset(d).add(bs.last().to_multiset()));
        assert(d[i] == bs[i]);
        let a = buckets_multiset(d.update(i, x));
        let b = buckets_multiset(d);
        let l = bs.last().to_multiset();
        let mi = bs[i].to_multiset();
        let mx = x.to_multiset();
        assert forall|v: Pixel| #[trigger] a.add(l).add(mi).count(v) == b.add(l).add(mx).count(v) by {
            assert(a.add(mi).count(v) == b.add(mx).count(v));
        }
    }
}

proof fn lemma_buckets_multiset_swap_remove(bs: Seq<Seq<Pixel>>, i: int)
    requires
        0 <= i < bs.len(),
    ensures
        buckets_multiset(bs.update(i, bs.last()).drop_last()).add(bs[i].to_multiset())
            =~= buckets_multiset(bs),
{
    let u = bs.update(i, bs.last());
    lemma_buckets_multiset_update(bs, i, bs.last());
    assert(u.last() == bs.last());
    assert(buckets_multiset(u) == buckets_multiset(u.drop_last()).add(bs.last().to_multiset()));
    let a = buckets_multiset(u.drop_last());
    let l = bs.last().to_multiset();
    let m = bs[i].to_multiset();
    assert(a.add(l).add(m) =~= buckets_multiset(bs).add(l));
    assert forall|v: Pixel| #[trigger] a.add(m).count(v) == buckets_multiset(bs).count(v) by {
        assert(a.add(l).add(m).count(v) == buckets_multiset(bs).add(l).count(v));
    }
}

proof fn lemma_buckets_multiset_len(bs: Seq<Seq<Pixel>>)
    requires
        forall|k: int| 0 <= k < bs.len() ==> #[trigger] bs[k].len() > 0,
    ensures
        buckets_multiset(bs).len() >= bs.len(),
        (forall|k: int| 0 <= k < bs.len() ==> #[trigger] bs[k].len() == 1) ==> buckets_multiset(
            bs,
        ).len() == bs.len(),
    decreases bs.len(),
{
    if bs.len() > 0 {
        let d = bs.drop_last();
        assert forall|k: int| 0 <= k < d.len() implies #[trigger] d[k].len() > 0 by {
            assert(d[k] == bs[k]);
        }
        lemma_buckets_multiset_len(d);
        if forall|k: int| 0 <= k < bs.len() ==> #[trigger] bs[k].len() == 1 {
            assert forall|k: int| 0 <= k < d.len() implies #[trigger] d[k].len() == 1 by {
                assert(d[k] == bs[k]);
            }
        }
    }
}

/// Index of the bucket with the most pixels among those with at least two,
/// the last such bucket on a tie; `None` when every bucket holds at most one.
fn largest_bucket(buckets: &Vec<ColorBucket>) -> (idx: Option<usize>)
    ensures
        match idx {
            Some(i) => {
                &&& i < buckets@.len()
                &&& buckets@[i as int]@.len() > 1
                &&& forall|j: int| 0 <= j < buckets@.len() ==> #[trigger] buckets@[j]@.len() <= buckets@[i as int]@.len()
                &&& forall|j: int| i < j < buckets@.len() ==> #[trigger] buckets@[j]@.len() < buckets@[i as int]@.len()
            },
            None => forall|j: int| 0 <= j < buckets@.len() ==> #[trigger] buckets@[j]@.len() <= 1,
        },
        match idx {
            Some(i) => largest_spec(bucket_views(buckets@)) == Some(i as int),
            None => largest_spec(bucket_views(buckets@)) is None,
        },
{
    let ghost bv = bucket_views(buckets@);
    let mut best: Option<usize> = None;
    let mut best_len: usize = 1;
    let n = buckets.len();
    let mut k: usize = 0;
    while k < n
        invariant
            n == buckets@.len(),
            k <= n,
            best_len >= 1,
            forall|j: int| 0 <= j < k ==> #[trigger] buckets@[j]@.len() <= best_len,
            match best {
                Some(i) => {
                    &&& i < k
                    &&& buckets@[i as int]@.len() == best_len
                    &&& best_len > 1
                    &&& forall|j: int| i < j < k ==> #[trigger] buckets@[j]@.len() < best_len
                },
                None => best_len == 1,
            },
            bv == bucket_views(buckets@),
            match best {
                Some(i) => largest_below(bv, k as nat) == Some(i as int),
                None => largest_below(bv, k as nat) is None,
            },
        decreases n - k,
    {
        let l = buckets[k].pixels.len();
        if l > 1 && l >= best_len {
            best = Some(k);
            best_len = l;
        }
        k = k + 1;
    }
    best
}

/// Cuts the pixels of a `w`×`h` RGBA image into buckets by median cut.
fn median_cut_buckets(rgba: &[u8], w: usize, h: usize, max_colors: usize) -> (buckets: Vec<ColorBucket>)
    requires
        rgba@.len() == w * h * 4,
    ensures
        w * h > 0 ==> is_partition(bucket_views(buckets@), image_pixels(rgba@, (w * h) as nat)),
        w * h > 0 ==> buckets@.len() == palette_size(max_colors, (w * h) as nat),
        w * h == 0 ==> buckets@.len() == 1 && buckets@[0]@.len() == 0,
        bucket_views(buckets@) == median_cut_buckets_spec(rgba@, (w * h) as nat, max_colors),
{
    let ghost img = rgba@;
    let len = rgba.len();
    proof {
        assert(w * h <= w * h * 4) by (nonlinear_arith);
    }
    let npx = w * h;
    let maxc: usize = if max_colors < 2 {
        2
    } else if max_colors > 256 {
        256
    } else {
        max_colors
    };
    let ghost px = image_pixels(img, npx as nat);
    let mut pixels: Vec<Pixel> = Vec::new();
    let mut i: usize = 0;
    while i < npx
        invariant
            img == rgba@,
            img.len() == npx * 4,
            len == img.len(),
            i <= npx,
            px == image_pixels(img, npx as nat),
            pixels@ =~= px.subrange(0, i as int),
        decreases npx - i,
    {
        let off = i * 4;
        pixels.push((rgba[off], rgba[off + 1], rgba[off + 2], i));
        i = i + 1;
    }
    assert(pixels@ =~= px);
    let mut buckets: Vec<ColorBucket> = Vec::new();
    buckets.push(ColorBucket { pixels });
    proof {
        let bv = bucket_views(buckets@);
        assert(bv.len() == 1);
        assert(bv.drop_last() =~= Seq::<Seq<Pixel>>::empty());
        assert(buckets_multiset(Seq::<Seq<Pixel>>::empty()) == Multiset::<Pixel>::empty());
        assert(bv.last() == px);
        assert(buckets_multiset(bv) == Multiset::<Pixel>::empty().add(px.to_multiset()));
        assert(buckets_multiset(bv) =~= px.to_multiset());
        assert(bv =~= seq![px]);
    }
    let ghost target = median_cut_buckets_spec(img, npx as nat, max_colors);
    while buckets.len() < maxc
        invariant
            maxc == clamp_colors(max_colors),
            1 <= buckets@.len() <= maxc,
            target == median_cut_spec(seq![px], maxc as int, maxc as nat),
            median_cut_spec(bucket_views(buckets@), maxc as int, (maxc - buckets@.len() + 1) as nat) == target,
            px.len() == npx,
            npx > 0 ==> is_partition(bucket_views(buckets@), px),
            npx == 0 ==> buckets@.len() == 1 && buckets@[0]@.len() == 0,
        ensures
            1 <= buckets@.len() <= maxc,
            bucket_views(buckets@) == target,
            npx > 0 ==> is_partition(bucket_views(buckets@), px),
            npx == 0 ==> buckets@.len() == 1 && buckets@[0]@.len() == 0,
            buckets@.len() == maxc || forall|j: int|
                0 <= j < buckets@.len() ==> #[trigger] buckets@[j]@.len() <= 1,
        decreases maxc - buckets@.len(),
    {
        match largest_bucket(&buckets) {
            Some(idx) => {
                let ghost bv0 = bucket_views(buckets@);
                let bucket = buckets.swap_remove(idx);
                let ghost bv1 = bucket_views(buckets@);
                proof {
                    assert(bv1 =~= bv0.update(idx as int, bv0.last()).drop_last());
                    lemma_buckets_multiset_swap_remove(bv0, idx as int);
                }
                let (left, right) = bucket.split();
                proof {
                    vstd::seq_lib::lemma_multiset_commutative(left@, right@);
                }
                buckets.push(left);
                buckets.push(right);
                proof {
                    let bv2 = bucket_views(buckets@);
                    assert(bv2 =~= cut_step(bv0));
                    assert(median_cut_spec(bv0, maxc as int, (maxc - bv0.len() + 1) as nat) == median_cut_spec(cut_step(bv0), maxc as int, (maxc - bv2.len() + 1) as nat));
                    assert(bv2.drop_last().drop_last() =~= bv1);
                    assert(bv2.drop_last().last() == left@);
                    assert(bv2.last() == right@);
                    let m1 = buckets_multiset(bv1);
                    let ml = left@.to_multiset();
                    let mr = right@.to_multiset();
                    assert(buckets_multiset(bv2.drop_last()) == m1.add(ml));
                    assert(buckets_multiset(bv2) == m1.add(ml).add(mr));
                    assert(ml.add(mr) =~= bucket@.to_multiset());
                    assert(m1.add(bucket@.to_multiset()) =~= buckets_multiset(bv0));
                    assert(buckets_multiset(bv2) =~= buckets_multiset(bv0));
                    assert forall|k: int| 0 <= k < bv2.len() implies #[trigger] bv2[k].len() > 0 by {
                        if k < bv1.len() {
                            assert(bv2[k] == bv1[k]);
                            if k == idx {
                                assert(bv1[k] == bv0.last());
                            } else {
                                assert(bv1[k] == bv0[k]);
                            }
                        }
                    }
                }
            },
            None => {
                break;
            },
        }
    }
    proof {
        if npx > 0 {
            let bv = bucket_views(buckets@);
            lemma_buckets_multiset_len(bv);
            assert(px.to_multiset().len() == npx);
            if buckets@.len() < maxc {
                assert forall|k: int| 0 <= k < bv.len() implies #[trigger] bv[k].len() == 1 by {
                    assert(buckets@[k]@.len() <= 1);
                }
            }
        }
    }
    buckets
}

/// Builds the median-cut palette of a `w`×`h` RGBA image with at most
/// `max_colors` colours (brought into `2..=256`).
pub fn build_palette(rgba: &[u8], w: usize, h: usize, max_colors: usize) -> (palette: Vec<Color>)
    requires
        rgba@.len() == w * h * 4,
    ensures
        palette@ == median_cut_palette(rgba@, (w * h) as nat, max_colors),
        is_median_cut_palette(palette@, image_pixels(rgba@, (w * h) as nat), max_colors),
{
    let buckets = median_cut_buckets(rgba, w, h, max_colors);
    let ghost bv = bucket_views(buckets@);
    let mut palette: Vec<Color> = Vec::new();
    let n = buckets.len();
    let mut k: usize = 0;
    while k < n
        invariant
            n == buckets@.len(),
            bv == bucket_views(buckets@),
            k <= n,
            palette@.len() == k,
            forall|j: int| 0 <= j < k ==> palette@[j] == #[trigger] centroid_spec(bv[j]),
        decreases n - k,
    {
        palette.push(buckets[k].centroid());
        k = k + 1;
    }
    proof {
        if w * h > 0 {
            assert(is_partition(bv, image_pixels(rgba@, (w * h) as nat)));
        } else {
            assert(centroid_spec(bv[0]) == (0u8, 0u8, 0u8));
            assert(palette@ =~= seq![(0u8, 0u8, 0u8)]);
        }
        assert(palette@ =~= median_cut_palette(rgba@, (w * h) as nat, max_colors));
    }
    palette
}

/// One in the fixed point that carries diffused errors: sixteen fractional bits.
pub const FIXED_ONE: i64 = 65536;

/// Largest magnitude of an error left by one pixel.
pub const MAX_PIXEL_ERROR: i64 = 255 * 65536;

/// What mapping one pixel leaves behind: its palette colour and the error of
/// each channel, in fixed point.
pub type DitherRecord = (Color, int, int, int);

/// Error of channel `c` (0 red, 1 green, 2 blue) in a record.
pub open spec fn record_error(rec: DitherRecord, c: int) -> int {
    if c == 0 {
        rec.1
    } else if c == 1 {
        rec.2
    } else {
        rec.3
    }
}

/// `wt`/16 of the error `e`, rounded toward zero.
pub open spec fn error_share(e: int, wt: int) -> int {
    if e >= 0 {
        (e * wt) / 16
    } else {
        -((-e * wt) / 16)
    }
}

/// Error diffused into pixel `k` of an image `w` pixels wide on channel `c`:
/// 7/16 from the left, 3/16 from above right, 5/16 from above and 1/16 from
/// above left.
pub open spec fn incoming_error(tr: Seq<DitherRecord>, w: int, k: int, c: int) -> int {
    let x = k % w;
    (if x > 0 {
        error_share(record_error(tr[k - 1], c), 7)
    } else {
        0
    }) + (if k >= w && x + 1 < w {
        error_share(record_error(tr[k - w + 1], c), 3)
    } else {
        0
    }) + (if k >= w {
        error_share(record_error(tr[k - w], c), 5)
    } else {
        0
    }) + (if k >= w && x > 0 {
        error_share(record_error(tr[k - w - 1], c), 1)
    } else {
        0
    })
}

/// A channel value plus its diffused error, in fixed point, clamped to the
/// byte range.
pub open spec fn diffused_value(v: u8, inc: int) -> int {
    let t = v * FIXED_ONE + inc;
    if t < 0 {
        0
    } else if t > MAX_PIXEL_ERROR {
        MAX_PIXEL_ERROR as int
    } else {
        t
    }
}

/// Maps pixel `k`, given the records of the pixels before it.
pub open spec fn dither_step(
    img: Seq<u8>,
    w: int,
    pal: Seq<Color>,
    tr: Seq<DitherRecord>,
    k: int,
) -> DitherRecord {
    let vr = diffused_value(img[4 * k], incoming_error(tr, w, k, 0));
    let vg = diffused_value(img[4 * k + 1], incoming_error(tr, w, k, 1));
    let vb = diffused_value(img[4 * k + 2], incoming_error(tr, w, k, 2));
    let col = nearest_spec(
        pal,
        (vr / FIXED_ONE as int) as u8,
        (vg / FIXED_ONE as int) as u8,
        (vb / FIXED_ONE as int) as u8,
    );
    (col, vr - col.0 * FIXED_ONE, vg - col.1 * FIXED_ONE, vb - col.2 * FIXED_ONE)
}

/// Records of the first `n` pixels, mapped in row-major order.
pub open spec fn dither_trace(img: Seq<u8>, w: int, pal: Seq<Color>, n: nat) -> Seq<DitherRecord>
    decreases n,
{
    if n == 0 {
        Seq::empty()
    } else {
        let tr = dither_trace(img, w, pal, (n - 1) as nat);
        tr.push(dither_step(img, w, pal, tr, n - 1))
    }
}

/// Byte `j` of the remapped image, given the records of its pixels.
pub open spec fn remapped_byte(img: Seq<u8>, tr: Seq<DitherRecord>, j: int) -> u8 {
    let c = tr[j / 4].0;
    if j % 4 == 0 {
        c.0
    } else if j % 4 == 1 {
        c.1
    } else if j % 4 == 2 {
        c.2
    } else {
        img[j]
    }
}

/// The image `img`, `w` pixels wide, remapped to `pal` with error diffusion.
pub open spec fn dithered_image(img: Seq<u8>, w: int, pal: Seq<Color>) -> Seq<u8> {
    let tr = dither_trace(img, w, pal, img.len() / 4);
    Seq::new(img.len(), |j: int| remapped_byte(img, tr, j))
}

proof fn lemma_dither_trace_prefix(img: Seq<u8>, w: int, pal: Seq<Color>, m: nat, n: nat)
    requires
        m <= n,
    ensures
        dither_trace(img, w, pal, n).len() == n,
        forall|j: int| 0 <= j < m ==> dither_trace(img, w, pal, n)[j] == #[trigger] dither_trace(img, w, pal, m)[j],
    decreases n,
{
    if n > 0 {
        if m < n {
            lemma_dither_trace_prefix(img, w, pal, m, (n - 1) as nat);
        }
        lemma_dither_trace_prefix(img, w, pal, (n - 1) as nat, (n - 1) as nat);
    }
}

fn error_share_exec(e: i64, wt: i64) -> (r: i64)
    requires
        -MAX_PIXEL_ERROR <= e <= MAX_PIXEL_ERROR,
        0 <= wt <= 16,
    ensures
        r == error_share(e as int, wt as int),
        -(MAX_PIXEL_ERROR * wt / 16) <= r <= MAX_PIXEL_ERROR * wt / 16,
{
    if e >= 0 {
        assert(0 <= e * wt <= MAX_PIXEL_ERROR * wt) by (nonlinear_arith)
            requires 0 <= e <= MAX_PIXEL_ERROR, 0 <= wt;
        assert((e * wt) / 16 <= (MAX_PIXEL_ERROR * wt) / 16) by (nonlinear_arith)
            requires 0 <= e * wt <= MAX_PIXEL_ERROR * wt;
        (e * wt) / 16
    } else {
        assert(0 <= (-e) * wt <= MAX_PIXEL_ERROR * wt) by (nonlinear_arith)
            requires 0 <= -e <= MAX_PIXEL_ERROR, 0 <= wt;
        assert(((-e) * wt) / 16 <= (MAX_PIXEL_ERROR * wt) / 16) by (nonlinear_arith)
            requires 0 <= (-e) * wt <= MAX_PIXEL_ERROR * wt;
        -(((-e) * wt) / 16)
    }
}

/// A channel value plus diffused error, clamped to the byte range.
fn diffuse_channel(v: u8, inc: i64) -> (t: i64)
    requires
        -MAX_PIXEL_ERROR <= inc <= MAX_PIXEL_ERROR,
    ensures
        t == diffused_value(v, inc as int),
        0 <= t <= MAX_PIXEL_ERROR,
{
    let t = v as i64 * FIXED_ONE + inc;
    if t < 0 {
        0
    } else if t > MAX_PIXEL_ERROR {
        MAX_PIXEL_ERROR
    } else {
        t
    }
}

/// Error diffused into pixel `k` (column `x`) from the errors `e` of the pixels before it.
fn incoming_exec(e: &Vec<i64>, w: usize, k: usize, x: usize, Ghost(tr): Ghost<Seq<DitherRecord>>, Ghost(c): Ghost<int>) -> (r: i64)
    requires
        w > 0,
        x == (k as int) % (w as int),
        x < w,
        x <= k,
        k >= w ==> k >= w + x,
        e@.len() == k,
        tr.len() >= k,
        forall|j: int| 0 <= j < k ==> e@[j] == #[trigger] record_error(tr[j], c),
        forall|j: int| 0 <= j < k ==> -MAX_PIXEL_ERROR <= #[trigger] e@[j] <= MAX_PIXEL_ERROR,
    ensures
        r == incoming_error(tr, w as int, k as int, c),
        -MAX_PIXEL_ERROR <= r <= MAX_PIXEL_ERROR,
{
    let mut r: i64 = 0;
    if x > 0 {
        r = r + error_share_exec(e[k - 1], 7);
    }
    if k >= w && x + 1 < w {
        r = r + error_share_exec(e[k - w + 1], 3);
    }
    if k >= w {
        r = r + error_share_exec(e[k - w], 5);
    }
    if k >= w && x > 0 {
        r = r + error_share_exec(e[k - w - 1], 1);
    }
    r
}

/// Maps pixel `k` (column `x`), given the errors of the pixels before it.
fn dither_pixel(
    rgba: &[u8],
    w: usize,
    k: usize,
    off: usize,
    x: usize,
    er: &Vec<i64>,
    eg: &Vec<i64>,
    eb: &Vec<i64>,
    palette: &[Color],
    Ghost(tr): Ghost<Seq<DitherRecord>>,
) -> (res: (Color, i64, i64, i64))
    requires
        w > 0,
        4 * k + 3 < rgba@.len(),
        off == 4 * k,
        palette@.len() > 0,
        x == (k as int) % (w as int),
        x < w,
        x <= k,
        k >= w ==> k >= w + x,
        er@.len() == k,
        eg@.len() == k,
        eb@.len() == k,
        tr.len() == k,
        forall|j: int| 0 <= j < k ==> er@[j] == #[trigger] record_error(tr[j], 0),
        forall|j: int| 0 <= j < k ==> eg@[j] == #[trigger] record_error(tr[j], 1),
        forall|j: int| 0 <= j < k ==> eb@[j] == #[trigger] record_error(tr[j], 2),
        forall|j: int| 0 <= j < k ==> -MAX_PIXEL_ERROR <= #[trigger] er@[j] <= MAX_PIXEL_ERROR,
        forall|j: int| 0 <= j < k ==> -MAX_PIXEL_ERROR <= #[trigger] eg@[j] <= MAX_PIXEL_ERROR,
        forall|j: int| 0 <= j < k ==> -MAX_PIXEL_ERROR <= #[trigger] eb@[j] <= MAX_PIXEL_ERROR,
    ensures
        (res.0, res.1 as int, res.2 as int, res.3 as int) == dither_step(rgba@, w as int, palette@, tr, k as int),
        -MAX_PIXEL_ERROR <= res.1 <= MAX_PIXEL_ERROR,
        -MAX_PIXEL_ERROR <= res.2 <= MAX_PIXEL_ERROR,
        -MAX_PIXEL_ERROR <= res.3 <= MAX_PIXEL_ERROR,
{
    let ir = incoming_exec(er, w, k, x, Ghost(tr), Ghost(0));
    let ig = incoming_exec(eg, w, k, x, Ghost(tr), Ghost(1));
    let ib = incoming_exec(eb, w, k, x, Ghost(tr), Ghost(2));
    let vr = diffuse_channel(rgba[off], ir);
    let vg = diffuse_channel(rgba[off + 1], ig);
    let vb = diffuse_channel(rgba[off + 2], ib);
    let col = nearest_color(palette, (vr / FIXED_ONE) as u8, (vg / FIXED_ONE) as u8, (vb / FIXED_ONE) as u8);
    (col, vr - col.0 as i64 * FIXED_ONE, vg - col.1 as i64 * FIXED_ONE, vb - col.2 as i64 * FIXED_ONE)
}

/// Remaps a `w`×`h` RGBA image to `palette` in row-major order with
/// Floyd–Steinberg error diffusion; alpha is copied unchanged.
pub fn dither_to_palette(rgba: &[u8], w: usize, h: usize, palette: &[Color]) -> (out: Vec<u8>)
    requires
        rgba@.len() == w * h * 4,
        palette@.len() > 0,
    ensures
        out@ == dithered_image(rgba@, w as int, palette@),
{
    let ghost img = rgba@;
    let ghost pal = palette@;
    let len = rgba.len();
    proof {
        assert(w * h <= w * h * 4) by (nonlinear_arith);
        assert((w * h * 4) / 4 == w * h) by (nonlinear_arith);
    }
    let npx = w * h;
    let ghost full = dither_trace(img, w as int, pal, npx as nat);
    let mut er: Vec<i64> = Vec::new();
    let mut eg: Vec<i64> = Vec::new();
    let mut eb: Vec<i64> = Vec::new();
    let mut out: Vec<u8> = Vec::new();
    let mut i: usize = 0;
    let mut x: usize = 0;
    let mut y: usize = 0;
    proof {
        lemma_dither_trace_prefix(img, w as int, pal, npx as nat, npx as nat);
        assert(npx > 0 ==> w > 0) by (nonlinear_arith)
            requires npx == w * h;
    }
    while i < npx
        invariant
            img == rgba@,
            pal == palette@,
            pal.len() > 0,
            len == img.len(),
            img.len() == npx * 4,
            npx == w * h,
            i <= npx,
            i == y * w + x,
            i < npx ==> x < w,
            full == dither_trace(img, w as int, pal, npx as nat),
            full.len() == npx,
            er@.len() == i,
            eg@.len() == i,
            eb@.len() == i,
            out@.len() == 4 * i,
            forall|j: int| 0 <= j < i ==> er@[j] == #[trigger] record_error(full[j], 0),
            forall|j: int| 0 <= j < i ==> eg@[j] == #[trigger] record_error(full[j], 1),
            forall|j: int| 0 <= j < i ==> eb@[j] == #[trigger] record_error(full[j], 2),
            forall|j: int| 0 <= j < i ==> -MAX_PIXEL_ERROR <= #[trigger] er@[j] <= MAX_PIXEL_ERROR,
            forall|j: int| 0 <= j < i ==> -MAX_PIXEL_ERROR <= #[trigger] eg@[j] <= MAX_PIXEL_ERROR,
            forall|j: int| 0 <= j < i ==> -MAX_PIXEL_ERROR <= #[trigger] eb@[j] <= MAX_PIXEL_ERROR,
            forall|j: int| 0 <= j < 4 * i ==> out@[j] == #[trigger] remapped_byte(img, full, j),
        decreases npx - i,
    {
        proof {
            assert(w > 0) by (nonlinear_arith)
                requires i < npx, npx == w * h;
            vstd::arithmetic::div_mod::lemma_fundamental_div_mod_converse_mod(i as int, w as int, y as int, x as int);
            assert(i >= w <==> y >= 1) by (nonlinear_arith)
                requires i == y * w + x, x < w, w > 0;
            assert(i >= w ==> i >= w + x) by (nonlinear_arith)
                requires i == y * w + x, x < w, w > 0;
            assert(x <= i) by (nonlinear_arith)
                requires i == y * w + x;
            assert(y <= i) by (nonlinear_arith)
                requires i == y * w + x, w > 0;
            lemma_dither_trace_prefix(img, w as int, pal, i as nat, i as nat);
            lemma_dither_trace_prefix(img, w as int, pal, i as nat, npx as nat);
            lemma_dither_trace_prefix(img, w as int, pal, (i + 1) as nat, npx as nat);
        }
        let ghost tr = dither_trace(img, w as int, pal, i as nat);
        assert(dither_trace(img, w as int, pal, (i + 1) as nat) == tr.push(dither_step(img, w as int, pal, tr, i as int)));
        let off = i * 4;
        let (col, dr, dg, db) = dither_pixel(rgba, w, i, off, x, &er, &eg, &eb, palette, Ghost(tr));
        let ghost rec = dither_step(img, w as int, pal, tr, i as int);
        assert(dither_trace(img, w as int, pal, (i + 1) as nat)[i as int] == rec);
        assert(full[i as int] == rec);
        er.push(dr);
        eg.push(dg);
        eb.push(db);
        out.push(col.0);
        out.push(col.1);
        out.push(col.2);
        out.push(rgba[off + 3]);
        proof {
            assert forall|j: int| 4 * i <= j < 4 * i + 4 implies out@[j] == #[trigger] remapped_byte(img, full, j) by {
                assert(j / 4 == i);
            }
        }
        i = i + 1;
        if x + 1 < w {
            x = x + 1;
        } else {
            proof {
                assert(y * w + x + 1 == (y + 1) * w) by (nonlinear_arith)
                    requires x + 1 == w;
            }
            x = 0;
            y = y + 1;
        }
    }
    assert(out@ =~= dithered_image(img, w as int, pal));
    out
}

/// Every pixel of a remapped image takes a colour of the palette.
pub proof fn lemma_dithered_colors_in_palette(img: Seq<u8>, w: int, pal: Seq<Color>)
    requires
        pal.len() > 0,
    ensures
        forall|k: int|
            0 <= k < img.len() / 4 ==> pal.contains(
                #[trigger] dither_trace(img, w, pal, img.len() / 4)[k].0,
            ),
{
    let n = img.len() / 4;
    assert forall|k: int| 0 <= k < n implies pal.contains(
        #[trigger] dither_trace(img, w, pal, n)[k].0,
    ) by {
        lemma_dither_trace_prefix(img, w, pal, (k + 1) as nat, n);
        lemma_dither_trace_prefix(img, w, pal, k as nat, k as nat);
        let tr = dither_trace(img, w, pal, k as nat);
        assert(dither_trace(img, w, pal, (k + 1) as nat)[k] == dither_step(img, w, pal, tr, k));
        let s = dither_step(img, w, pal, tr, k);
        let vr = diffused_value(img[4 * k], incoming_error(tr, w, k, 0));
        let vg = diffused_value(img[4 * k + 1], incoming_error(tr, w, k, 1));
        let vb = diffused_value(img[4 * k + 2], incoming_error(tr, w, k, 2));
        lemma_nearest_in_palette(
            pal,
            (vr / FIXED_ONE as int) as u8,
            (vg / FIXED_ONE as int) as u8,
            (vb / FIXED_ONE as int) as u8,
            pal.len(),
        );
    }
}

/// RGB of pixel `k` of a packed RGBA buffer.
pub open spec fn rgb_at(img: Seq<u8>, k: int) -> Color {
    (img[4 * k], img[4 * k + 1], img[4 * k + 2])
}

/// Quantizes a `w`×`h` RGBA image to a median-cut palette of at most
/// `max_colors` colours (brought into `2..=256`), remapping with
/// Floyd–Steinberg error diffusion. Alpha is kept.
pub fn median_cut_quantize(rgba: &[u8], w: usize, h: usize, max_colors: usize) -> (out: Vec<u8>)
    requires
        rgba@.len() == w * h * 4,
    ensures
        out@ == dithered_image(rgba@, w as int, median_cut_palette(rgba@, (w * h) as nat, max_colors)),
        is_median_cut_palette(
            median_cut_palette(rgba@, (w * h) as nat, max_colors),
            image_pixels(rgba@, (w * h) as nat),
            max_colors,
        ),
        out@.len() == rgba@.len(),
        forall|k: int| 0 <= k < w * h ==> #[trigger] out@[4 * k + 3] == rgba@[4 * k + 3],
        exists|pal: Seq<Color>|
            pal.len() <= clamp_colors(max_colors) && forall|k: int|
                0 <= k < w * h ==> pal.contains(#[trigger] rgb_at(out@, k)),
{
    let palette = build_palette(rgba, w, h, max_colors);
    let out = dither_to_palette(rgba, w, h, palette.as_slice());
    proof {
        let img = rgba@;
        let pal = palette@;
        let n = img.len() / 4;
        assert(n == w * h) by (nonlinear_arith)
            requires img.len() == w * h * 4, n == img.len() / 4;
        lemma_dithered_colors_in_palette(img, w as int, pal);
        let tr = dither_trace(img, w as int, pal, n as nat);
        assert forall|k: int| 0 <= k < w * h implies #[trigger] out@[4 * k + 3] == rgba@[4 * k + 3] by {
            assert((4 * k + 3) / 4 == k && (4 * k + 3) % 4 == 3);
        }
        assert forall|k: int| 0 <= k < w * h implies pal.contains(#[trigger] rgb_at(out@, k)) by {
            assert((4 * k) / 4 == k && (4 * k) % 4 == 0);
            assert((4 * k + 1) / 4 == k && (4 * k + 1) % 4 == 1);
            assert((4 * k + 2) / 4 == k && (4 * k + 2) % 4 == 2);
            assert(rgb_at(out@, k) == tr[k].0);
        }
    }
    out
}

/// Quantizes an RGBA image of `width`×`height` pixels to at most
/// `max_colors` colours (at most 256). A buffer of the wrong length, or
/// `max_colors < 2`, gives a copy of the input.
pub fn quantize_colors(rgba: &[u8], width: u32, height: u32, max_colors: u32) -> (out: Vec<u8>)
    ensures
        out@.len() == rgba@.len(),
        (rgba@.len() != rgba_len(width as int, height as int) || max_colors < 2) ==> out@ == rgba@,
        (rgba@.len() == rgba_len(width as int, height as int) && max_colors >= 2) ==> out@ == dithered_image(
            rgba@,
            width as int,
            median_cut_palette(rgba@, (width * height) as nat, max_colors as usize),
        ),
        forall|k: int| 0 <= k < rgba@.len() / 4 ==> #[trigger] out@[4 * k + 3] == rgba@[4 * k + 3],
        (rgba@.len() == rgba_len(width as int, height as int) && max_colors >= 2) ==> exists|pal: Seq<Color>|
            pal.len() <= max_colors && pal.len() <= 256 && forall|k: int|
                0 <= k < rgba@.len() / 4 ==> pal.contains(#[trigger] rgb_at(out@, k)),
{
    if !is_rgba_len(rgba.len(), width, height) || max_colors < 2 {
        return copy_bytes(rgba);
    }
    let w = width as usize;
    let h = height as usize;
    proof {
        assert(rgba@.len() / 4 == w * h) by (nonlinear_arith)
            requires rgba@.len() == w * h * 4;
    }
    median_cut_quantize(rgba, w, h, max_colors as usize)
}

/// Relies on `slice::sort_by_key`, a stable sort: the pixels end up in
/// ascending order of the chosen channel, equal values in their former order.
#[verifier::external_body]
fn sort_by_channel(pixels: &mut Vec<Pixel>, axis: u8)
    ensures
        final(pixels)@ == stable_sorted(old(pixels)@, axis),
        final(pixels)@.len() == old(pixels)@.len(),
        final(pixels)@.to_multiset() == old(pixels)@.to_multiset(),
        sorted_on(final(pixels)@, axis),
{
    pixels.sort_by_key(|p| match axis {
        0 => p.0,
        1 => p.1,
        _ => p.2,
    });
}

/// The palette colour nearest to `(r, g, b)` under the weighted distance
/// `2·dR² + 4·dG² + 3·dB²`, the earliest one on a tie.
pub fn nearest_color(palette: &[Color], r: u8, g: u8, b: u8) -> (c: Color)
    requires
        palette@.len() > 0,
    ensures
        c == nearest_spec(palette@, r, g, b),
{
    let mut best: Color = palette[0];
    let mut best_dist: u32 = color_distance(r, g, b, best);
    let n = palette.len();
    let mut k: usize = 1;
    while k < n
        invariant
            n == palette@.len(),
            1 <= k <= n,
            best == nearest_prefix(palette@, r, g, b, k as nat),
            best_dist == color_dist(r, g, b, best),
        decreases n - k,
    {
        let c = palette[k];
        let d = color_distance(r, g, b, c);
        if d < best_dist {
            best_dist = d;
            best = c;
        }
        k = k + 1;
    }
    best
}

fn color_distance(r: u8, g: u8, b: u8, c: Color) -> (d: u32)
    ensures
        d == color_dist(r, g, b, c),
{
    let dr: i32 = r as i32 - c.0 as i32;
    let dg: i32 = g as i32 - c.1 as i32;
    let db: i32 = b as i32 - c.2 as i32;
    assert(0 <= dr * dr <= 65025) by (nonlinear_arith)
        requires -255 <= dr <= 255;
    assert(0 <= dg * dg <= 65025) by (nonlinear_arith)
        requires -255 <= dg <= 255;
    assert(0 <= db * db <= 65025) by (nonlinear_arith)
        requires -255 <= db <= 255;
    let sr: i32 = dr * dr;
    let sg: i32 = dg * dg;
    let sb: i32 = db * db;
    assert(color_dist(r, g, b, c) == 2 * sr + 4 * sg + 3 * sb) by (nonlinear_arith)
        requires sr == dr * dr, sg == dg * dg, sb == db * db, dr == r - c.0, dg == g - c.1, db == b - c.2;
    (2 * sr + 4 * sg + 3 * sb) as u32
}

} // verus!
