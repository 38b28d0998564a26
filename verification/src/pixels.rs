//! Interleaved pixel buffers: a buffer holds pixels of `spp` samples of `b`
//! bytes each, one after the other; channel `c` of the buffer is the sequence
//! of the `c`-th sample of every whole pixel.

use vstd::prelude::*;
use vstd::arithmetic::div_mod::{lemma_fundamental_div_mod, lemma_fundamental_div_mod_converse};
use crate::sample::splice;

verus! {

/// Number of whole pixels of `spp` samples of `b` bytes in `len` bytes.
pub open spec fn pixel_count(len: nat, spp: nat, b: nat) -> nat {
    if spp * b == 0 {
        0
    } else {
        len / (spp * b)
    }
}

/// Index in the buffer of byte `t` of sample `c` of pixel `p`.
pub open spec fn sample_pos(p: int, c: int, t: int, spp: nat, b: nat) -> int {
    p * (spp * b) + c * b + t
}

/// Pixel of the byte at index `i`.
pub open spec fn pixel_of(i: int, spp: nat, b: nat) -> int {
    i / ((spp * b) as int)
}

/// Channel of the byte at index `i`.
pub open spec fn channel_at(i: int, spp: nat, b: nat) -> int {
    (i % ((spp * b) as int)) / (b as int)
}

/// Offset of the byte at index `i` within its sample.
pub open spec fn offset_at(i: int, spp: nat, b: nat) -> int {
    (i % ((spp * b) as int)) % (b as int)
}

/// Channel `c` of a buffer: the `c`-th sample of each whole pixel, in order.
pub open spec fn channel_of(buf: Seq<u8>, spp: nat, b: nat, c: nat) -> Seq<u8> {
    Seq::new(
        pixel_count(buf.len(), spp, b) * b,
        |k: int| buf[sample_pos(k / (b as int), c as int, k % (b as int), spp, b)],
    )
}

/// Decomposes a sample position into its pixel, channel and offset.
pub proof fn lemma_position(p: int, c: int, t: int, spp: nat, b: nat)
    requires
        0 <= p,
        0 <= c < spp,
        0 <= t < b,
    ensures
        spp * b > 0,
        0 <= c * b + t < spp * b,
        sample_pos(p, c, t, spp, b) >= 0,
        pixel_of(sample_pos(p, c, t, spp, b), spp, b) == p,
        channel_at(sample_pos(p, c, t, spp, b), spp, b) == c,
        offset_at(sample_pos(p, c, t, spp, b), spp, b) == t,
        sample_pos(p, c, t, spp, b) < (p + 1) * (spp * b),
{
    let stride = spp * b;
    assert(0 <= c * b + t < spp * b && spp * b > 0 && p * stride >= 0) by (nonlinear_arith)
        requires
            0 <= c < spp,
            0 <= t < b,
            stride == spp * b,
            p >= 0,
    ;
    let i = sample_pos(p, c, t, spp, b);
    lemma_fundamental_div_mod_converse(i, stride as int, p, c * b + t);
    lemma_fundamental_div_mod_converse(c * b + t, b as int, c, t);
    assert(i < (p + 1) * stride) by (nonlinear_arith)
        requires
            i == p * stride + c * b + t,
            c * b + t < stride,
    ;
}

/// Every index is the position of its own pixel, channel and offset.
pub proof fn lemma_decompose(i: int, spp: nat, b: nat)
    requires
        0 <= i,
        spp > 0,
        b > 0,
    ensures
        spp * b > 0,
        0 <= pixel_of(i, spp, b),
        0 <= channel_at(i, spp, b) < spp,
        0 <= offset_at(i, spp, b) < b,
        i == sample_pos(pixel_of(i, spp, b), channel_at(i, spp, b), offset_at(i, spp, b), spp, b),
{
    let stride = spp * b;
    assert(stride > 0) by (nonlinear_arith)
        requires
            spp > 0,
            b > 0,
            stride == spp * b,
    ;
    lemma_fundamental_div_mod(i, stride as int);
    let r = i % (stride as int);
    lemma_fundamental_div_mod(r, b as int);
    assert(0 <= i / (stride as int)) by (nonlinear_arith)
        requires
            i >= 0,
            stride > 0,
    ;
    assert(0 <= r / (b as int) < spp) by (nonlinear_arith)
        requires
            0 <= r < stride,
            stride == spp * b,
            b > 0,
            r == b * (r / (b as int)) + r % (b as int),
            0 <= r % (b as int) < b,
    ;
    assert(i == (i / (stride as int)) * stride + (r / (b as int)) * b + r % (b as int)) by (
    nonlinear_arith)
        requires
            i == stride * (i / (stride as int)) + r,
            r == b * (r / (b as int)) + r % (b as int),
    ;
}

/// Index `k` of a channel comes from the sample position of its pixel and
/// offset.
pub proof fn lemma_channel_index(k: int, b: nat)
    requires
        0 <= k,
        b > 0,
    ensures
        k == (k / (b as int)) * b + k % (b as int),
        0 <= k % (b as int) < b,
        0 <= k / (b as int),
{
    lemma_fundamental_div_mod(k, b as int);
    assert(k == (k / (b as int)) * b + k % (b as int)) by (nonlinear_arith)
        requires
            k == b * (k / (b as int)) + k % (b as int),
    ;
    assert(0 <= k / (b as int)) by (nonlinear_arith)
        requires
            k >= 0,
            b > 0,
    ;
}

/// The whole pixels lie in the buffer.
pub proof fn lemma_pixels_fit(len: nat, spp: nat, b: nat)
    requires
        spp > 0,
        b > 0,
    ensures
        pixel_count(len, spp, b) * (spp * b) <= len,
        forall|p: int, c: int, t: int|
            0 <= p < pixel_count(len, spp, b) && 0 <= c < spp && 0 <= t < b ==> sample_pos(
                p,
                c,
                t,
                spp,
                b,
            ) < pixel_count(len, spp, b) * (spp * b),
{
    let stride = spp * b;
    assert(stride > 0) by (nonlinear_arith)
        requires
            spp > 0,
            b > 0,
            stride == spp * b,
    ;
    let np = pixel_count(len, spp, b);
    assert(np * stride <= len) by (nonlinear_arith)
        requires
            stride > 0,
            np == len / stride,
    ;
    assert forall|p: int, c: int, t: int|
        0 <= p < np && 0 <= c < spp && 0 <= t < b implies sample_pos(p, c, t, spp, b) < np
        * stride by {
        lemma_position(p, c, t, spp, b);
        assert((p + 1) * stride <= np * stride) by (nonlinear_arith)
            requires
                p + 1 <= np,
                stride > 0,
        ;
    }
}

/// Copies `n` bytes of `src` from `src_start` into `dst` at `dst_start`.
pub fn copy_bytes(dst: &mut [u8], dst_start: usize, src: &[u8], src_start: usize, n: usize)
    requires
        dst_start + n <= old(dst)@.len(),
        src_start + n <= src@.len(),
    ensures
        final(dst)@ == splice(
            old(dst)@,
            dst_start as int,
            src@.subrange(src_start as int, src_start + n),
        ),
{
    let ghost orig = dst@;
    let dlen = dst.len();
    let slen = src.len();
    let mut i: usize = 0;
    proof {
        assert(dst@ =~= splice(orig, dst_start as int, src@.subrange(src_start as int, src_start as int)));
    }
    while i < n
        invariant
            i <= n,
            dlen == orig.len(),
            slen == src@.len(),
            dst@.len() == orig.len(),
            dst_start + n <= orig.len(),
            src_start + n <= src@.len(),
            dst@ == splice(orig, dst_start as int, src@.subrange(src_start as int, src_start + i)),
        decreases n - i,
    {
        dst[dst_start + i] = src[src_start + i];
        i = i + 1;
        proof {
            assert(dst@ =~= splice(orig, dst_start as int, src@.subrange(src_start as int, src_start + i)));
        }
    }
}

/// Sample `p` of channel `c` is the sample of pixel `p` at channel `c`.
pub proof fn lemma_channel_sample(buf: Seq<u8>, spp: nat, b: nat, c: nat, p: int)
    requires
        spp > 0,
        b > 0,
        c < spp,
        0 <= p < pixel_count(buf.len(), spp, b),
    ensures
        p * b + b <= channel_of(buf, spp, b, c).len(),
        sample_pos(p, c as int, 0, spp, b) + b <= buf.len(),
        channel_of(buf, spp, b, c).subrange(p * b, p * b + b) == buf.subrange(
            sample_pos(p, c as int, 0, spp, b),
            sample_pos(p, c as int, 0, spp, b) + b,
        ),
{
    let np = pixel_count(buf.len(), spp, b);
    let ch = channel_of(buf, spp, b, c);
    let s = sample_pos(p, c as int, 0, spp, b);
    lemma_pixels_fit(buf.len(), spp, b);
    lemma_position(p, c as int, (b - 1) as int, spp, b);
    assert(p * b + b <= np * b) by (nonlinear_arith)
        requires
            p < np,
    ;
    assert(sample_pos(p, c as int, (b - 1) as int, spp, b) == s + b - 1);
    assert(ch.subrange(p * b, p * b + b) =~= buf.subrange(s, s + b)) by {
        assert forall|j: int| 0 <= j < b implies #[trigger] ch.subrange(p * b, p * b + b)[j]
            == buf.subrange(s, s + b)[j] by {
            lemma_fundamental_div_mod_converse(p * b + j, b as int, p, j);
        }
    }
}

} // verus!
