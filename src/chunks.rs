//! How a downloaded resource is cut into stored chunks.

use vstd::prelude::*;

verus! {

/// Byte range of chunk `k` of a resource of `total` bytes cut into chunks of
/// `size` bytes: the last chunk may be shorter.
pub open spec fn chunk_range(total: int, size: int, k: int) -> (int, int) {
    (k * size, if (k + 1) * size < total { (k + 1) * size } else { total })
}

/// Number of chunks: `ceil(total / size)`.
pub open spec fn chunk_count(total: int, size: int) -> int {
    (total + size - 1) / size
}

/// The `[start, end)` byte ranges of the chunks of a resource of `total`
/// bytes, in order, each `chunk_size` long but the last.
pub fn chunk_bounds(total: u32, chunk_size: u32) -> (bounds: Vec<(u32, u32)>)
    requires
        chunk_size > 0,
    ensures
        bounds@.len() == chunk_count(total as int, chunk_size as int),
        forall|k: int|
            0 <= k < bounds@.len() ==> (#[trigger] bounds@[k]).0 == chunk_range(total as int, chunk_size as int, k).0
                && bounds@[k].1 == chunk_range(total as int, chunk_size as int, k).1,
{
    let mut bounds: Vec<(u32, u32)> = Vec::new();
    let mut offset: u32 = 0;
    let ghost size = chunk_size as int;
    assert(bounds@.len() * size == 0) by (nonlinear_arith)
        requires bounds@.len() == 0;
    while offset < total
        invariant
            chunk_size > 0,
            size == chunk_size,
            offset <= total,
            offset == bounds@.len() * size || (offset == total && bounds@.len() * size >= total),
            offset < total ==> offset == bounds@.len() * size,
            (bounds@.len() - 1) * size < total || bounds@.len() == 0,
            forall|k: int|
                0 <= k < bounds@.len() ==> (#[trigger] bounds@[k]).0 == chunk_range(total as int, size, k).0
                    && bounds@[k].1 == chunk_range(total as int, size, k).1,
        decreases total - offset,
    {
        let ghost k = bounds@.len() as int;
        let end: u32 = if total - offset > chunk_size { offset + chunk_size } else { total };
        proof {
            assert((k + 1) * size == k * size + size) by (nonlinear_arith);
        }
        bounds.push((offset, end));
        offset = end;
    }
    proof {
        let n = bounds@.len() as int;
        let t = total as int;
        assert(chunk_count(t, size) == n) by (nonlinear_arith)
            requires
                n * size >= t,
                (n - 1) * size < t || n == 0,
                size > 0,
                t >= 0,
                n == 0 ==> t == 0,
                chunk_count(t, size) == (t + size - 1) / size;
    }
    bounds
}

/// Total size to report with progress: the announced length when there is
/// one, else the bytes actually received.
pub fn reported_total(announced: u32, received: u32) -> (total: u32)
    ensures
        total == if announced > 0 { announced } else { received },
{
    if announced > 0 { announced } else { received }
}

} // verus!
