//! The 16-bit Hilbert curve encoder that orders rectangles for packing.
use vstd::prelude::*;

verus! {

/// One step of the bit recurrence: from the quadruple `(a, b, c, d)` of
/// partial masks to the next one, combining bits `k` apart.
pub open spec fn hilbert_round(a: u32, b: u32, c: u32, d: u32, k: u32) -> (u32, u32, u32, u32) {
    (
        (a & (a >> k)) ^ (b & (b >> k)),
        (a & (b >> k)) ^ (b & ((a ^ b) >> k)),
        c ^ ((a & (c >> k)) ^ (b & (d >> k))),
        d ^ ((b & (c >> k)) ^ ((a ^ b) & (d >> k))),
    )
}

/// Spreads the low 16 bits of `v` to the even bit positions.
pub open spec fn interleave(v: u32) -> u32 {
    let v = (v | (v << 8u32)) & 0x00FF00FFu32;
    let v = (v | (v << 4u32)) & 0x0F0F0F0Fu32;
    let v = (v | (v << 2u32)) & 0x33333333u32;
    (v | (v << 1u32)) & 0x55555555u32
}

/// The index of cell `(x, y)` along the Hilbert curve through the
/// 65536 x 65536 grid, as the branchless recurrence of the public-domain
/// "fast Hilbert curve" construction computes it: the two coordinates' bits
/// are folded into orientation masks by prefix rounds of 1, 2, 4 and 8 bits,
/// and the index interleaves the resulting bit pair of each level.
pub open spec fn hilbert_index(x: u32, y: u32) -> u32 {
    let a = x ^ y;
    let b = 0xFFFFu32 ^ a;
    let c = 0xFFFFu32 ^ (x | y);
    let d = x & (y ^ 0xFFFFu32);
    let a1 = a | (b >> 1u32);
    let b1 = (a >> 1u32) ^ a;
    let c1 = ((c >> 1u32) ^ (b & (d >> 1u32))) ^ c;
    let d1 = ((a & (c >> 1u32)) ^ (d >> 1u32)) ^ d;
    let r2 = hilbert_round(a1, b1, c1, d1, 2);
    let r4 = hilbert_round(r2.0, r2.1, r2.2, r2.3, 4);
    let r8 = hilbert_round(r4.0, r4.1, r4.2, r4.3, 8);
    let a8 = r8.2 ^ (r8.2 >> 1u32);
    let b8 = r8.3 ^ (r8.3 >> 1u32);
    let i0 = x ^ y;
    let i1 = b8 | (0xFFFFu32 ^ (i0 | a8));
    (interleave(i1) << 1u32) | interleave(i0)
}

/// The Hilbert index of `(x, y)`.
pub fn hilbert(x: u32, y: u32) -> (r: u32)
    ensures
        r == hilbert_index(x, y),
{
    let mut a = x ^ y;
    let mut b = 0xFFFF ^ a;
    let mut c = 0xFFFF ^ (x | y);
    let mut d = x & (y ^ 0xFFFF);

    let mut aa = a | (b >> 1);
    let mut bb = (a >> 1) ^ a;
    let mut cc = ((c >> 1) ^ (b & (d >> 1))) ^ c;
    let mut dd = ((a & (c >> 1)) ^ (d >> 1)) ^ d;

    a = aa;
    b = bb;
    c = cc;
    d = dd;
    aa = (a & (a >> 2)) ^ (b & (b >> 2));
    bb = (a & (b >> 2)) ^ (b & ((a ^ b) >> 2));
    cc = cc ^ ((a & (c >> 2)) ^ (b & (d >> 2)));
    dd = dd ^ ((b & (c >> 2)) ^ ((a ^ b) & (d >> 2)));

    a = aa;
    b = bb;
    c = cc;
    d = dd;
    aa = (a & (a >> 4)) ^ (b & (b >> 4));
    bb = (a & (b >> 4)) ^ (b & ((a ^ b) >> 4));
    cc = cc ^ ((a & (c >> 4)) ^ (b & (d >> 4)));
    dd = dd ^ ((b & (c >> 4)) ^ ((a ^ b) & (d >> 4)));

    a = aa;
    b = bb;
    c = cc;
    d = dd;
    cc = cc ^ ((a & (c >> 8)) ^ (b & (d >> 8)));
    dd = dd ^ ((b & (c >> 8)) ^ ((a ^ b) & (d >> 8)));

    a = cc ^ (cc >> 1);
    b = dd ^ (dd >> 1);

    let mut i0 = x ^ y;
    let mut i1 = b | (0xFFFF ^ (i0 | a));

    i0 = (i0 | (i0 << 8)) & 0x00FF00FF;
    i0 = (i0 | (i0 << 4)) & 0x0F0F0F0F;
    i0 = (i0 | (i0 << 2)) & 0x33333333;
    i0 = (i0 | (i0 << 1)) & 0x55555555;

    i1 = (i1 | (i1 << 8)) & 0x00FF00FF;
    i1 = (i1 | (i1 << 4)) & 0x0F0F0F0F;
    i1 = (i1 | (i1 << 2)) & 0x33333333;
    i1 = (i1 | (i1 << 1)) & 0x55555555;

    (i1 << 1) | i0
}

} // verus!
