//! Helpers shared by the kernels on packed RGBA8 buffers.

use vstd::prelude::*;

verus! {

/// Length of a packed RGBA8 buffer of `w`×`h` pixels.
pub open spec fn rgba_len(w: int, h: int) -> int {
    w * h * 4
}

/// Whether `len` is the length of a packed RGBA8 buffer of `width`×`height`
/// pixels, computed without overflow.
pub fn is_rgba_len(len: usize, width: u32, height: u32) -> (ok: bool)
    ensures
        ok == (len == rgba_len(width as int, height as int)),
{
    proof {
        assert(width * height <= 0xffff_ffff_ffff_ffff) by (nonlinear_arith)
            requires width <= 0xffff_ffff, height <= 0xffff_ffff;
    }
    len as u128 == width as u128 * height as u128 * 4
}

/// A fresh copy of a byte buffer.
pub fn copy_bytes(src: &[u8]) -> (dst: Vec<u8>)
    ensures
        dst@ == src@,
{
    let mut dst: Vec<u8> = Vec::new();
    let n = src.len();
    let mut i: usize = 0;
    while i < n
        invariant
            n == src@.len(),
            i <= n,
            dst@ =~= src@.subrange(0, i as int),
        decreases n - i,
    {
        dst.push(src[i]);
        i = i + 1;
    }
    assert(dst@ =~= src@);
    dst
}

} // verus!
