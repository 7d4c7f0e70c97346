//! Trimap labelling by multi-source breadth-first distance.
//!
//! Seeds are the pixels on or next to an alpha transition. Distances spread
//! from all seeds at once through a FIFO queue over the four-neighbourhood, up
//! to the radius. Pixels within the radius of a seed are unknown (128); the
//! others are labelled by their own alpha: definite foreground (255),
//! definite background (0), or unknown.

use vstd::prelude::*;
use std::collections::VecDeque;
use vstd::arithmetic::div_mod::{lemma_fundamental_div_mod, lemma_fundamental_div_mod_converse};

verus! {

/// Label of a pixel whose alpha is unknown or in transition.
pub const UNKNOWN: u8 = 128;

/// Label of a definite foreground pixel.
pub const FOREGROUND: u8 = 255;

/// Label of a definite background pixel.
pub const BACKGROUND: u8 = 0;

/// Where a pixel's own alpha puts it.
#[derive(Clone, Copy, PartialEq, Eq, Structural, Debug)]
pub enum AlphaClass {
    /// Alpha at most the background threshold.
    Background,
    /// Alpha strictly between the thresholds.
    Transition,
    /// Alpha at least the foreground threshold.
    Foreground,
}

pub open spec fn abs_diff(a: int, b: int) -> int {
    if a >= b { a - b } else { b - a }
}

/// Manhattan distance between pixels `a` and `b` of an image `w` pixels wide.
#[verifier::opaque]
pub open spec fn manhattan(w: int, a: int, b: int) -> int {
    abs_diff(a % w, b % w) + abs_diff(a / w, b / w)
}

/// Pixel `i` lies within `radius` steps of some seed.
pub open spec fn near_seed(seed: Seq<bool>, w: int, radius: int, i: int) -> bool {
    exists|s: int| 0 <= s < seed.len() && seed[s] && #[trigger] manhattan(w, s, i) <= radius
}

/// The label of pixel `i`.
pub open spec fn trimap_label(seed: Seq<bool>, class: Seq<AlphaClass>, w: int, radius: int, i: int) -> u8 {
    if near_seed(seed, w, radius, i) {
        UNKNOWN
    } else if class[i] == AlphaClass::Foreground {
        FOREGROUND
    } else if class[i] == AlphaClass::Background {
        BACKGROUND
    } else {
        UNKNOWN
    }
}

/// A distance capped just above the radius.
pub open spec fn capped(v: usize, r: int) -> nat {
    if v > r { (r + 1) as nat } else { v as nat }
}

/// Sum of the capped distances: it falls with every improvement.
pub open spec fn potential(s: Seq<usize>, r: int) -> nat
    decreases s.len(),
{
    if s.len() == 0 {
        0
    } else {
        potential(s.drop_last(), r) + capped(s.last(), r)
    }
}

proof fn lemma_potential_update(s: Seq<usize>, r: int, i: int, v: usize)
    requires
        0 <= i < s.len(),
    ensures
        potential(s.update(i, v), r) + capped(s[i], r) == potential(s, r) + capped(v, r),
    decreases s.len(),
{
    let u = s.update(i, v);
    if i == s.len() - 1 {
        assert(u.drop_last() =~= s.drop_last());
    } else {
        lemma_potential_update(s.drop_last(), r, i, v);
        assert(u.drop_last() =~= s.drop_last().update(i, v));
    }
}

proof fn lemma_manhattan_nonneg(w: int, a: int, b: int)
    ensures
        manhattan(w, a, b) >= 0,
{
    reveal(manhattan);
}

proof fn lemma_manhattan_triangle(w: int, a: int, b: int, c: int)
    ensures
        manhattan(w, a, c) <= manhattan(w, a, b) + manhattan(w, b, c),
{
    reveal(manhattan);
}

/// Coordinates of pixel `i` of a `w`×`h` image.
proof fn lemma_coords(w: int, h: int, i: int)
    requires
        w > 0,
        0 <= i < w * h,
    ensures
        i == (i / w) * w + i % w,
        0 <= i % w < w,
        0 <= i / w < h,
{
    lemma_fundamental_div_mod(i, w);
    assert(w * (i / w) == (i / w) * w) by (nonlinear_arith);
    assert(0 <= i % w < w);
    assert(0 <= i / w < h) by (nonlinear_arith)
        requires i == (i / w) * w + i % w, 0 <= i % w < w, 0 <= i < w * h, w > 0;
}

/// The pixel at column `x` of row `y`.
proof fn lemma_index(w: int, h: int, x: int, y: int)
    requires
        0 <= x < w,
        0 <= y < h,
    ensures
        0 <= y * w + x < w * h,
        (y * w + x) % w == x,
        (y * w + x) / w == y,
{
    assert(0 <= y * w + x < w * h) by (nonlinear_arith)
        requires 0 <= x < w, 0 <= y < h;
    lemma_fundamental_div_mod_converse(y * w + x, w, y, x);
}

/// A pixel at distance one from `i` is one of its four neighbours.
proof fn lemma_unit_step(w: int, h: int, i: int, j: int)
    requires
        w > 0,
        0 <= i < w * h,
        0 <= j < w * h,
        manhattan(w, i, j) == 1,
    ensures
        (i % w > 0 && j == i - 1) || (i % w + 1 < w && j == i + 1) || (i >= w && j == i - w) || (i + w < w * h && j == i + w),
{
    reveal(manhattan);
    lemma_coords(w, h, i);
    lemma_coords(w, h, j);
    let xi = i % w;
    let yi = i / w;
    let xj = j % w;
    let yj = j / w;
    if yj == yi {
    } else if yj == yi + 1 {
        assert(yj * w == yi * w + w) by (nonlinear_arith)
            requires yj == yi + 1;
        assert(i + w < w * h);
    } else {
        assert(yi == yj + 1);
        assert(yi * w == yj * w + w) by (nonlinear_arith)
            requires yi == yj + 1;
    }
}

/// Every pixel within `k` steps of a seed ends within distance `k`, once each
/// pixel whose distance can grow by one has passed it on to its neighbours.
proof fn lemma_reached(
    seed: Seq<bool>,
    dist: Seq<usize>,
    w: int,
    h: int,
    r: int,
    s: int,
    i: int,
    k: nat,
)
    requires
        w > 0,
        seed.len() == w * h,
        dist.len() == w * h,
        forall|t: int| 0 <= t < w * h && #[trigger] seed[t] ==> dist[t] == 0,
        forall|a: int, b: int|
            0 <= a < w * h && 0 <= b < w * h && dist[a] != usize::MAX && dist[a] + 1 <= r
                && #[trigger] manhattan(w, a, b) == 1 ==> dist[b] <= dist[a] + 1,
        0 <= s < w * h,
        seed[s],
        0 <= i < w * h,
        manhattan(w, s, i) == k,
        k <= r,
        r < usize::MAX,
    ensures
        dist[i] <= k,
    decreases k,
{
    reveal(manhattan);
    lemma_coords(w, h, i);
    lemma_coords(w, h, s);
    let xi = i % w;
    let yi = i / w;
    let xs = s % w;
    let ys = s / w;
    if k == 0 {
        assert(i == s);
    } else {
        let (jx, jy) = if xi > xs {
            (xi - 1, yi)
        } else if xi < xs {
            (xi + 1, yi)
        } else if yi > ys {
            (xi, yi - 1)
        } else {
            (xi, yi + 1)
        };
        lemma_index(w, h, jx, jy);
        let j = jy * w + jx;
        assert(manhattan(w, s, j) == k - 1);
        assert(manhattan(w, j, i) == 1);
        lemma_reached(seed, dist, w, h, r, s, j, (k - 1) as nat);
    }
}

/// Lowers the distance of pixel `j` to `d` if that is shorter, and queues it.
fn relax(dist: &mut Vec<usize>, queue: &mut VecDeque<usize>, j: usize, d: usize, Ghost(r): Ghost<int>)
    requires
        j < old(dist)@.len(),
        d <= r,
    ensures
        final(dist)@ == if d < old(dist)@[j as int] {
            old(dist)@.update(j as int, d)
        } else {
            old(dist)@
        },
        final(queue)@ == if d < old(dist)@[j as int] {
            old(queue)@.push(j)
        } else {
            old(queue)@
        },
        d < old(dist)@[j as int] ==> final(queue)@.contains(j),
        forall|v: usize| #[trigger] old(queue)@.contains(v) ==> final(queue)@.contains(v),
        2 * potential(final(dist)@, r) + final(queue)@.len() <= 2 * potential(old(dist)@, r) + old(queue)@.len(),
{
    if d < dist[j] {
        proof {
            lemma_potential_update(dist@, r, j as int, d);
        }
        let ghost q = queue@;
        dist.set(j, d);
        queue.push_back(j);
        proof {
            assert(queue@[q.len() as int] == j);
            assert forall|v: usize| #[trigger] q.contains(v) implies queue@.contains(v) by {
                let k = choose|k: int| 0 <= k < q.len() && q[k] == v;
                assert(queue@[k] == v);
            }
        }
    }
}

/// Every pixel whose distance changed between `d0` and `d1` is in `q`.
pub open spec fn changes_queued(d0: Seq<usize>, d1: Seq<usize>, q: Seq<usize>) -> bool {
    forall|j: int| 0 <= j < d0.len() && #[trigger] d1[j] != d0[j] ==> q.contains(j as usize)
}

/// Passes distance `d` on from pixel `idx` to its four neighbours.
#[verifier::rlimit(40)]
fn relax_neighbours(
    dist: &mut Vec<usize>,
    queue: &mut VecDeque<usize>,
    idx: usize,
    w: usize,
    n: usize,
    d: usize,
    Ghost(h): Ghost<int>,
    Ghost(r): Ghost<int>,
)
    requires
        w > 0,
        n == w * h,
        idx < n,
        old(dist)@.len() == n,
        d <= r,
    ensures
        final(dist)@.len() == n,
        forall|j: int|
            0 <= j < n ==> #[trigger] final(dist)@[j] == if manhattan(w as int, idx as int, j) == 1
                && d < old(dist)@[j] {
                d
            } else {
                old(dist)@[j]
            },
        changes_queued(old(dist)@, final(dist)@, final(queue)@),
        forall|v: usize| #[trigger] old(queue)@.contains(v) ==> final(queue)@.contains(v),
        final(queue)@.len() >= old(queue)@.len(),
        final(queue)@.subrange(0, old(queue)@.len() as int) == old(queue)@,
        forall|k: int|
            old(queue)@.len() <= k < final(queue)@.len() ==> #[trigger] final(queue)@[k] < n && final(dist)@[final(queue)@[k] as int] == d,
        2 * potential(final(dist)@, r) + final(queue)@.len() <= 2 * potential(old(dist)@, r) + old(queue)@.len(),
{
    let ghost d0 = dist@;
    let ghost q0 = queue@;
    proof {
        lemma_coords(w as int, h, idx as int);
        assert(w <= n) by (nonlinear_arith)
            requires n == w * h, idx < n, w > 0;
    }
    let x = idx % w;
    let y = idx / w;
    if x > 0 {
        proof {
            lemma_index(w as int, h, x - 1, y as int);
            assert(idx - 1 == y * w + (x - 1));
        }
        relax(dist, queue, idx - 1, d, Ghost(r));
        assert(changes_queued(d0, dist@, queue@));
    }
    if x + 1 < w {
        proof {
            lemma_index(w as int, h, x + 1, y as int);
            assert(idx + 1 == y * w + (x + 1));
        }
        let ghost db = dist@;
        relax(dist, queue, idx + 1, d, Ghost(r));
        assert(changes_queued(d0, dist@, queue@)) by {
            assert(changes_queued(d0, db, queue@));
        }
    }
    if idx >= w {
        proof {
            assert(y >= 1) by (nonlinear_arith)
                requires idx == y * w + x, x < w, idx >= w;
            lemma_index(w as int, h, x as int, y - 1);
            assert((y - 1) * w + x == idx - w) by (nonlinear_arith)
                requires idx == y * w + x;
        }
        let ghost db = dist@;
        relax(dist, queue, idx - w, d, Ghost(r));
        assert(changes_queued(d0, dist@, queue@)) by {
            assert(changes_queued(d0, db, queue@));
        }
    }
    if idx < n - w {
        proof {
            assert(y + 1 < h) by (nonlinear_arith)
                requires idx == y * w + x, 0 <= x < w, idx + w < n, n == w * h;
            lemma_index(w as int, h, x as int, y + 1);
            assert((y + 1) * w + x == idx + w) by (nonlinear_arith)
                requires idx == y * w + x;
        }
        let ghost db = dist@;
        relax(dist, queue, idx + w, d, Ghost(r));
        assert(changes_queued(d0, dist@, queue@)) by {
            assert(changes_queued(d0, db, queue@));
        }
    }
    proof {
        reveal(manhattan);
        assert forall|j: int| 0 <= j < n implies #[trigger] dist@[j] == if manhattan(w as int, idx as int, j) == 1
            && d < d0[j] {
            d
        } else {
            d0[j]
        } by {
            if manhattan(w as int, idx as int, j) == 1 {
                lemma_unit_step(w as int, h, idx as int, j);
            }
        }
    }
}

/// What the breadth-first search keeps true: queued pixels have a
/// distance; seeds are at distance zero; every distance is at most `r` and is
/// backed by a seed `wit[j]` at most that far; and each pixel whose distance
/// may still grow by one has passed it to its neighbours or waits in the queue.
#[verifier::opaque]
pub open spec fn bfs_invariant(
    sd: Seq<bool>,
    w: int,
    r: int,
    dist: Seq<usize>,
    queue: Seq<usize>,
    wit: Seq<int>,
) -> bool {
    let n = sd.len();
    &&& dist.len() == n
    &&& wit.len() == n
    &&& forall|k: int| 0 <= k < queue.len() ==> #[trigger] queue[k] < n && dist[queue[k] as int] != usize::MAX
    &&& forall|t: int| 0 <= t < n && #[trigger] sd[t] ==> dist[t] == 0
    &&& forall|j: int|
        0 <= j < n && #[trigger] dist[j] != usize::MAX ==> {
            &&& dist[j] <= r
            &&& 0 <= wit[j] < n
            &&& sd[wit[j]]
            &&& manhattan(w, wit[j], j) <= dist[j]
        }
    &&& forall|a: int, b: int|
        0 <= a < n && 0 <= b < n && dist[a] != usize::MAX && dist[a] + 1 <= r && #[trigger] manhattan(
            w,
            a,
            b,
        ) == 1 ==> dist[b] <= dist[a] + 1 || queue.contains(a as usize)
}

/// The invariant survives taking `idx` off the queue when its distance
/// cannot grow without passing the radius.
proof fn lemma_bfs_pop_only(
    sd: Seq<bool>,
    w: int,
    r: int,
    dist: Seq<usize>,
    q0: Seq<usize>,
    qp: Seq<usize>,
    wit: Seq<int>,
)
    requires
        q0.len() > 0,
        qp == q0.subrange(1, q0.len() as int),
        dist[q0[0] as int] + 1 > r,
        sd.len() <= usize::MAX,
        bfs_invariant(sd, w, r, dist, q0, wit),
    ensures
        bfs_invariant(sd, w, r, dist, qp, wit),
{
    reveal(bfs_invariant);
    let n = sd.len();
    let idx = q0[0];
    assert forall|k: int| 0 <= k < qp.len() implies #[trigger] qp[k] < n && dist[qp[k] as int] != usize::MAX by {
        assert(qp[k] == q0[k + 1]);
    }
    assert forall|a: int, b: int|
        0 <= a < n && 0 <= b < n && dist[a] != usize::MAX && dist[a] + 1 <= r && #[trigger] manhattan(w, a, b)
            == 1 implies dist[b] <= dist[a] + 1 || qp.contains(a as usize) by {
        if !(dist[b] <= dist[a] + 1) {
            assert(q0.contains(a as usize));
            let k = choose|k: int| 0 <= k < q0.len() && q0[k] == a as usize;
            assert(k != 0);
            assert(qp[k - 1] == a as usize);
        }
    }
}

/// The invariant survives taking `idx` off the queue and passing distance
/// `dist[idx] + 1` to its neighbours.
proof fn lemma_bfs_relaxed(
    sd: Seq<bool>,
    w: int,
    r: int,
    d0: Seq<usize>,
    q0: Seq<usize>,
    qp: Seq<usize>,
    d1: Seq<usize>,
    q1: Seq<usize>,
    wit: Seq<int>,
) -> (wit1: Seq<int>)
    requires
        w > 0,
        q0.len() > 0,
        qp == q0.subrange(1, q0.len() as int),
        d0[q0[0] as int] + 1 <= r,
        r < usize::MAX,
        sd.len() <= usize::MAX,
        bfs_invariant(sd, w, r, d0, q0, wit),
        d1.len() == sd.len(),
        forall|j: int|
            0 <= j < sd.len() ==> #[trigger] d1[j] == if manhattan(w, q0[0] as int, j) == 1 && d0[q0[0] as int] + 1 < d0[j] {
                (d0[q0[0] as int] + 1) as usize
            } else {
                d0[j]
            },
        changes_queued(d0, d1, q1),
        forall|v: usize| #[trigger] qp.contains(v) ==> q1.contains(v),
        q1.len() >= qp.len(),
        q1.subrange(0, qp.len() as int) == qp,
        forall|k: int| qp.len() <= k < q1.len() ==> #[trigger] q1[k] < sd.len() && d1[q1[k] as int] == d0[q0[0] as int] + 1,
    ensures
        bfs_invariant(sd, w, r, d1, q1, wit1),
{
    reveal(bfs_invariant);
    let n = sd.len();
    let idx = q0[0] as int;
    let wit1 = Seq::new(n, |j: int| if d1[j] != d0[j] { wit[idx] } else { wit[j] });
    assert forall|k: int| 0 <= k < q1.len() implies #[trigger] q1[k] < n && d1[q1[k] as int] != usize::MAX by {
        if k < qp.len() {
            assert(q1.subrange(0, qp.len() as int)[k] == qp[k]);
            assert(qp[k] == q0[k + 1]);
            assert(d1[q1[k] as int] <= d0[q1[k] as int]);
        }
    }
    assert forall|j: int| 0 <= j < n && #[trigger] d1[j] != usize::MAX implies {
        &&& d1[j] <= r
        &&& 0 <= wit1[j] < n
        &&& sd[wit1[j]]
        &&& manhattan(w, wit1[j], j) <= d1[j]
    } by {
        if d1[j] != d0[j] {
            assert(manhattan(w, idx, j) == 1);
            assert(d0[idx] != usize::MAX);
            lemma_manhattan_triangle(w, wit[idx], idx, j);
        }
    }
    assert forall|a: int, b: int|
        0 <= a < n && 0 <= b < n && d1[a] != usize::MAX && d1[a] + 1 <= r && #[trigger] manhattan(w, a, b)
            == 1 implies d1[b] <= d1[a] + 1 || q1.contains(a as usize) by {
        if d1[a] == d0[a] && a != idx && !(d0[b] <= d0[a] + 1) {
            assert(q0.contains(a as usize));
            let k = choose|k: int| 0 <= k < q0.len() && q0[k] == a as usize;
            assert(k != 0);
            assert(qp[k - 1] == a as usize);
            assert(qp.contains(a as usize));
        }
    }
    wit1
}

/// The pixel at the head of the queue has a distance.
proof fn lemma_bfs_head(sd: Seq<bool>, w: int, r: int, dist: Seq<usize>, q: Seq<usize>, wit: Seq<int>)
    requires
        q.len() > 0,
        bfs_invariant(sd, w, r, dist, q, wit),
    ensures
        q[0] < sd.len(),
        dist.len() == sd.len(),
        dist[q[0] as int] != usize::MAX,
        dist[q[0] as int] <= r,
{
    reveal(bfs_invariant);
}

/// Seeds at distance zero, all queued, other pixels unreached: the search
/// can start.
proof fn lemma_bfs_init(sd: Seq<bool>, w: int, r: int, dist: Seq<usize>, q: Seq<usize>)
    requires
        r >= 0,
        dist.len() == sd.len(),
        forall|j: int| 0 <= j < sd.len() ==> #[trigger] dist[j] == if sd[j] { 0 } else { usize::MAX },
        forall|j: int| 0 <= j < sd.len() && sd[j] ==> #[trigger] q.contains(j as usize),
        forall|k: int| 0 <= k < q.len() ==> #[trigger] q[k] < sd.len() && sd[q[k] as int],
    ensures
        bfs_invariant(sd, w, r, dist, q, Seq::new(sd.len(), |j: int| j)),
{
    reveal(bfs_invariant);
    reveal(manhattan);
    let n = sd.len();
    assert forall|k: int| 0 <= k < q.len() implies #[trigger] q[k] < n && dist[q[k] as int] != usize::MAX by {
        assert(sd[q[k] as int]);
    }
    assert forall|a: int, b: int|
        0 <= a < n && 0 <= b < n && dist[a] != usize::MAX && dist[a] + 1 <= r && #[trigger] manhattan(w, a, b)
            == 1 implies dist[b] <= dist[a] + 1 || q.contains(a as usize) by {
        assert(sd[a]);
    }
}

/// Once the queue is empty, a pixel's distance is within `r` exactly when a
/// seed lies within `r` of it.
proof fn lemma_bfs_done(sd: Seq<bool>, w: int, h: int, r: int, dist: Seq<usize>, q: Seq<usize>, wit: Seq<int>)
    requires
        w > 0,
        sd.len() == w * h,
        r < usize::MAX,
        q.len() == 0,
        bfs_invariant(sd, w, r, dist, q, wit),
    ensures
        dist.len() == w * h,
        forall|i: int| 0 <= i < w * h ==> (#[trigger] dist[i] <= r <==> near_seed(sd, w, r, i)),
{
    reveal(bfs_invariant);
    let n = sd.len();
    assert forall|a: int, b: int|
        0 <= a < n && 0 <= b < n && dist[a] != usize::MAX && dist[a] + 1 <= r && #[trigger] manhattan(w, a, b)
            == 1 implies dist[b] <= dist[a] + 1 by {
        assert(!q.contains(a as usize));
    }
    assert forall|i: int| 0 <= i < w * h implies (#[trigger] dist[i] <= r <==> near_seed(sd, w, r, i)) by {
        if dist[i] <= r {
            assert(dist[i] != usize::MAX);
            assert(manhattan(w, wit[i], i) <= r);
            assert(0 <= wit[i] < sd.len() && sd[wit[i]]);
            assert(near_seed(sd, w, r, i));
        }
        if near_seed(sd, w, r, i) {
            let s = choose|s: int| 0 <= s < sd.len() && sd[s] && #[trigger] manhattan(w, s, i) <= r;
            lemma_manhattan_nonneg(w, s, i);
            lemma_reached(sd, dist, w, h, r, s, i, manhattan(w, s, i) as nat);
        }
    }
}

/// Takes the next pixel off the queue and passes its distance on.
fn bfs_step(
    dist: &mut Vec<usize>,
    queue: &mut VecDeque<usize>,
    w: usize,
    n: usize,
    r: usize,
    Ghost(h): Ghost<int>,
    Ghost(sd): Ghost<Seq<bool>>,
    Ghost(wit): Ghost<Seq<int>>,
) -> (new_wit: Ghost<Seq<int>>)
    requires
        w > 0,
        n == w * h,
        n == sd.len(),
        r < n,
        old(queue)@.len() > 0,
        bfs_invariant(sd, w as int, r as int, old(dist)@, old(queue)@, wit),
    ensures
        bfs_invariant(sd, w as int, r as int, final(dist)@, final(queue)@, new_wit@),
        2 * potential(final(dist)@, r as int) + final(queue)@.len() < 2 * potential(old(dist)@, r as int)
            + old(queue)@.len(),
{
    let ghost d0 = dist@;
    let ghost q0 = queue@;
    let idx = match queue.pop_front() {
        Some(v) => v,
        None => {
            return Ghost(wit);
        },
    };
    let ghost qp = queue@;
    proof {
        lemma_bfs_head(sd, w as int, r as int, d0, q0, wit);
    }
    assert(q0[0] == idx);
    let d = dist[idx] + 1;
    if d <= r {
        relax_neighbours(dist, queue, idx, w, n, d, Ghost(h), Ghost(r as int));
        let ghost wit1 = lemma_bfs_relaxed(sd, w as int, r as int, d0, q0, qp, dist@, queue@, wit);
        Ghost(wit1)
    } else {
        proof {
            lemma_bfs_pop_only(sd, w as int, r as int, d0, q0, qp, wit);
        }
        Ghost(wit)
    }
}

/// Distance of each pixel from its nearest seed where that is at most `r`,
/// `usize::MAX` elsewhere, by breadth-first search from all seeds at once.
fn seed_distances(seed: &[bool], w: usize, h: usize, r: usize) -> (dist: Vec<usize>)
    requires
        seed@.len() == w * h,
        w > 0,
        r < w * h,
    ensures
        dist@.len() == w * h,
        forall|i: int| 0 <= i < w * h ==> (#[trigger] dist@[i] <= r <==> near_seed(seed@, w as int, r as int, i)),
{
    let n = seed.len();
    let ghost sd = seed@;
    let mut dist: Vec<usize> = Vec::new();
    let mut queue: VecDeque<usize> = VecDeque::new();
    let mut i: usize = 0;
    while i < n
        invariant
            n == sd.len(),
            sd == seed@,
            i <= n,
            dist@.len() == i,
            forall|j: int| 0 <= j < i ==> #[trigger] dist@[j] == if sd[j] { 0 } else { usize::MAX },
            forall|j: int| 0 <= j < i && sd[j] ==> #[trigger] queue@.contains(j as usize),
            forall|k: int| 0 <= k < queue@.len() ==> #[trigger] queue@[k] < i && sd[queue@[k] as int],
        decreases n - i,
    {
        if seed[i] {
            dist.push(0);
            let ghost q = queue@;
            queue.push_back(i);
            proof {
                assert(queue@[q.len() as int] == i);
                assert forall|j: int| 0 <= j < i && sd[j] implies #[trigger] queue@.contains(j as usize) by {
                    assert(q.contains(j as usize));
                    let k = choose|k: int| 0 <= k < q.len() && q[k] == j as usize;
                    assert(queue@[k] == j as usize);
                }
            }
        } else {
            dist.push(usize::MAX);
        }
        i = i + 1;
    }
    let ghost mut wit: Seq<int> = Seq::new(n as nat, |j: int| j);
    proof {
        lemma_bfs_init(sd, w as int, r as int, dist@, queue@);
    }
    while queue.len() > 0
        invariant
            n == sd.len(),
            sd == seed@,
            n == w * h,
            w > 0,
            r < n,
            bfs_invariant(sd, w as int, r as int, dist@, queue@, wit),
        decreases 2 * potential(dist@, r as int) + queue@.len(),
    {
        let Ghost(next) = bfs_step(&mut dist, &mut queue, w, n, r, Ghost(h as int), Ghost(sd), Ghost(wit));
        proof {
            wit = next;
        }
    }
    proof {
        lemma_bfs_done(sd, w as int, h as int, r as int, dist@, queue@, wit);
    }
    dist
}

/// No two pixels of a `w`×`h` image are more than `w·h - 1` steps apart.
proof fn lemma_manhattan_bound(w: int, h: int, a: int, b: int)
    requires
        w > 0,
        0 <= a < w * h,
        0 <= b < w * h,
    ensures
        manhattan(w, a, b) <= w * h - 1,
{
    reveal(manhattan);
    lemma_coords(w, h, a);
    lemma_coords(w, h, b);
    assert(w + h - 2 <= w * h - 1) by (nonlinear_arith)
        requires w >= 1, h >= 1;
}

/// Labels each pixel of a `w`×`h` image: unknown (128) within `radius`
/// steps of a seed, otherwise foreground (255), background (0) or unknown
/// by the pixel's own alpha class.
pub fn trimap_from_seeds(seed: &[bool], class: &[AlphaClass], w: usize, h: usize, radius: usize) -> (trimap: Vec<u8>)
    requires
        seed@.len() == w * h,
        class@.len() == w * h,
    ensures
        trimap@.len() == w * h,
        forall|i: int| 0 <= i < w * h ==> #[trigger] trimap@[i] == trimap_label(seed@, class@, w as int, radius as int, i),
        forall|i: int|
            0 <= i < w * h ==> #[trigger] trimap@[i] == BACKGROUND || trimap@[i] == UNKNOWN || trimap@[i] == FOREGROUND,
{
    let n = seed.len();
    let mut trimap: Vec<u8> = Vec::new();
    if n == 0 {
        return trimap;
    }
    proof {
        assert(w > 0 && h > 0) by (nonlinear_arith)
            requires n == w * h, n > 0;
    }
    let r: usize = if radius < n { radius } else { n - 1 };
    proof {
        if radius >= n {
            assert forall|i: int| 0 <= i < n implies near_seed(seed@, w as int, r as int, i) == near_seed(seed@, w as int, radius as int, i) by {
                if near_seed(seed@, w as int, radius as int, i) {
                    let s = choose|s: int| 0 <= s < seed@.len() && seed@[s] && #[trigger] manhattan(w as int, s, i) <= radius;
                    lemma_manhattan_bound(w as int, h as int, s, i);
                }
            }
        }
    }
    let dist = seed_distances(seed, w, h, r);
    let mut i: usize = 0;
    while i < n
        invariant
            n == w * h,
            n == seed@.len(),
            n == class@.len(),
            dist@.len() == n,
            r < n,
            i <= n,
            trimap@.len() == i,
            forall|j: int| 0 <= j < n ==> (#[trigger] dist@[j] <= r <==> near_seed(seed@, w as int, r as int, j)),
            forall|j: int| 0 <= j < n ==> near_seed(seed@, w as int, r as int, j) == near_seed(seed@, w as int, radius as int, j),
            forall|j: int| 0 <= j < i ==> #[trigger] trimap@[j] == trimap_label(seed@, class@, w as int, radius as int, j),
        decreases n - i,
    {
        let label: u8 = if dist[i] <= r {
            UNKNOWN
        } else {
            match class[i] {
                AlphaClass::Foreground => FOREGROUND,
                AlphaClass::Background => BACKGROUND,
                AlphaClass::Transition => UNKNOWN,
            }
        };
        trimap.push(label);
        i = i + 1;
    }
    trimap
}

/// An alpha byte `a` stands for `a / 255`: in transition when strictly
/// between 0.05 and 0.95.
pub open spec fn alpha_in_transition(a: u8) -> bool {
    13 <= a <= 242
}

/// Two alpha bytes differ by more than 0.3.
pub open spec fn alpha_step(a: u8, b: u8) -> bool {
    abs_diff(a as int, b as int) > 76
}

/// Class of an alpha byte: at most 0.05 background, at least 0.95 foreground.
pub open spec fn alpha_class(a: u8) -> AlphaClass {
    if a >= 243 {
        AlphaClass::Foreground
    } else if a <= 12 {
        AlphaClass::Background
    } else {
        AlphaClass::Transition
    }
}

/// Pixel `i` seeds the search: it is in transition, or a four-neighbour's
/// alpha differs from its own by more than 0.3.
pub open spec fn alpha_seed(alpha: Seq<u8>, w: int, i: int) -> bool {
    let a = alpha[i];
    let x = i % w;
    ||| alpha_in_transition(a)
    ||| (x > 0 && alpha_step(alpha[i - 1], a))
    ||| (x + 1 < w && alpha_step(alpha[i + 1], a))
    ||| (i >= w && alpha_step(alpha[i - w], a))
    ||| (i + w < alpha.len() && alpha_step(alpha[i + w], a))
}

/// Seeds of a whole alpha plane.
pub open spec fn alpha_seeds(alpha: Seq<u8>, w: int) -> Seq<bool> {
    Seq::new(alpha.len(), |i: int| alpha_seed(alpha, w, i))
}

/// Classes of a whole alpha plane.
pub open spec fn alpha_classes(alpha: Seq<u8>) -> Seq<AlphaClass> {
    Seq::new(alpha.len(), |i: int| alpha_class(alpha[i]))
}

fn byte_step(a: u8, b: u8) -> (r: bool)
    ensures
        r == alpha_step(a, b),
{
    if a >= b { a - b > 76 } else { b - a > 76 }
}

/// Trimap of a `w`×`h` alpha plane given as bytes (`a` stands for `a/255`):
/// unknown (128) within `radius` steps of a seed, otherwise foreground (255)
/// at alpha ≥ 0.95, background (0) at alpha ≤ 0.05, unknown between.
pub fn generate_trimap_bfs(alpha: &[u8], w: usize, h: usize, radius: usize) -> (trimap: Vec<u8>)
    requires
        alpha@.len() == w * h,
    ensures
        trimap@.len() == w * h,
        forall|i: int|
            0 <= i < w * h ==> #[trigger] trimap@[i] == trimap_label(
                alpha_seeds(alpha@, w as int),
                alpha_classes(alpha@),
                w as int,
                radius as int,
                i,
            ),
        forall|i: int|
            0 <= i < w * h ==> #[trigger] trimap@[i] == BACKGROUND || trimap@[i] == UNKNOWN || trimap@[i] == FOREGROUND,
{
    let n = alpha.len();
    let mut seed: Vec<bool> = Vec::new();
    let mut class: Vec<AlphaClass> = Vec::new();
    let mut i: usize = 0;
    while i < n
        invariant
            n == alpha@.len(),
            n == w * h,
            i <= n,
            seed@.len() == i,
            class@.len() == i,
            forall|j: int| 0 <= j < i ==> #[trigger] seed@[j] == alpha_seed(alpha@, w as int, j),
            forall|j: int| 0 <= j < i ==> #[trigger] class@[j] == alpha_class(alpha@[j]),
        decreases n - i,
    {
        proof {
            assert(w > 0) by (nonlinear_arith)
                requires i < n, n == w * h;
            lemma_coords(w as int, h as int, i as int);
            assert(i % w <= i) by (nonlinear_arith)
                requires i == (i / w) * w + i % w, i / w >= 0, w > 0;
            assert(w <= n) by (nonlinear_arith)
                requires n == w * h, i < n, w > 0;
            assert(i % w + 1 < w ==> i + 1 < n) by (nonlinear_arith)
                requires i == (i / w) * w + i % w, i / w < h, n == w * h;
        }
        let a = alpha[i];
        let x = i % w;
        let mut is_seed = 13 <= a && a <= 242;
        if x > 0 && byte_step(alpha[i - 1], a) {
            is_seed = true;
        }
        if x + 1 < w && byte_step(alpha[i + 1], a) {
            is_seed = true;
        }
        if i >= w && byte_step(alpha[i - w], a) {
            is_seed = true;
        }
        if i < n - w && byte_step(alpha[i + w], a) {
            is_seed = true;
        }
        seed.push(is_seed);
        let c = if a >= 243 {
            AlphaClass::Foreground
        } else if a <= 12 {
            AlphaClass::Background
        } else {
            AlphaClass::Transition
        };
        class.push(c);
        i = i + 1;
    }
    assert(seed@ =~= alpha_seeds(alpha@, w as int));
    assert(class@ =~= alpha_classes(alpha@));
    trimap_from_seeds(seed.as_slice(), class.as_slice(), w, h, radius)
}

} // verus!
