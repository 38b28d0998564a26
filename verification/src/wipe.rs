//! Wiping: replacing pixel data by synthetic, highly compressible data that
//! keeps the per-channel histogram.
//!
//! The synthetic data is the image's own sample values sorted per channel. A sort
//! is a permutation of the samples, so every position-independent statistic of
//! each channel (min, max, mean, the whole histogram) is kept exactly, while the
//! image content is destroyed and the monotonic result compresses very well.
//!
//! Two strategies produce the same bytes:
//! - sorting (`sort_samples`, `wipe_buffer`), for every sample type;
//! - histogram streaming (`Histogram`, `Synthesizer`) for 8- and 16-bit
//!   integers: only per-channel value counts are kept, and the sorted samples
//!   are emitted back from the counts row by row.

use vstd::prelude::*;
use crate::sample::{
    ByteOrder, chunk_bytes, chunk_value, key_value, lemma_chunk_bytes_len, lemma_chunk_roundtrip,
    lemma_chunk_value_bound, lemma_key_rank, lemma_key_roundtrip, lemma_pow256_values,
    lemma_value_roundtrip, pow256, SampleKind, float_rank, signed_value, sort_key,
};
use crate::sorting::{
    ascending, lemma_sort_ascending, sample_at, encode_keys, lemma_encode_keys_len, lemma_layout_valid, lemma_permutation_bounded,
    native_byte_order, native_order, sample_bytes, sample_keys, sample_layout, sort_samples_in_order,
    sorted_samples,
};
use crate::histogram::lemma_sample_keys_concat;
pub use crate::histogram::{Histogram, Synthesizer};
use crate::pixels::{
    channel_at, channel_of, copy_bytes, lemma_decompose, lemma_pixels_fit, lemma_position,
    offset_at, pixel_count, pixel_of, sample_pos,
};
use crate::sample::splice;
use crate::tiff::{SAMPLEFORMAT_IEEEFP, SAMPLEFORMAT_INT, SAMPLEFORMAT_UINT};

verus! {

/// Bytes taken by one sample of `bps` bits.
pub open spec fn bytes_per_sample(bps: u16) -> nat {
    (bps as nat + 7) / 8
}

/// A buffer of `spp` interleaved channels after wiping: with a single channel
/// (or sub-byte samples, which are not byte addressable) all samples are
/// sorted together; otherwise each channel of the whole pixels is sorted on
/// its own, and bytes after the last whole pixel are left as they were.
pub open spec fn wiped(buf: Seq<u8>, spp: nat, bps: u16, fmt: u16, order: ByteOrder) -> Seq<u8> {
    if spp <= 1 || bps < 8 {
        sorted_samples(buf, bps, fmt, order)
    } else {
        let b = bytes_per_sample(bps);
        let np = pixel_count(buf.len(), spp, b);
        Seq::new(
            buf.len(),
            |i: int|
                if i < np * (spp * b) {
                    sorted_samples(
                        channel_of(buf, spp, b, channel_at(i, spp, b) as nat),
                        bps,
                        fmt,
                        order,
                    )[pixel_of(i, spp, b) * b + offset_at(i, spp, b)]
                } else {
                    buf[i]
                },
        )
    }
}

/// Sorting keeps the length of a buffer.
pub proof fn lemma_sorted_samples_len(buf: Seq<u8>, bps: u16, fmt: u16, order: ByteOrder)
    ensures
        sorted_samples(buf, bps, fmt, order).len() == buf.len(),
{
    broadcast use vstd::seq_lib::group_to_multiset_ensures;

    let (w, kind) = sample_layout(bps, fmt);
    lemma_layout_valid(bps, fmt);
    let keys = sample_keys(buf, w, kind, order);
    keys.lemma_sort_ensures();
    assert(keys.len() == keys.to_multiset().len());
    assert(keys.sort().len() == keys.sort().to_multiset().len());
    lemma_encode_keys_len(keys.sort(), w, kind, order);
    let n = buf.len() / w;
    assert(n * w <= buf.len()) by (nonlinear_arith)
        requires
            n == buf.len() / w,
            w >= 1,
    ;
}

/// Sorts the samples of one channel in place, in the machine's byte order.
///
/// `buf` holds contiguous samples of one channel. Samples of 16, 24, 32 and
/// 64 bits are sorted by numeric value of their type (floats by IEEE total
/// order, 16- and 24-bit floats by bit pattern); 8-bit and sub-byte data are
/// sorted byte by byte. Bytes after the last whole sample are left in place.
pub fn sort_samples(buf: &mut [u8], bps: u16, fmt: u16)
    ensures
        final(buf)@ == sorted_samples(old(buf)@, bps, fmt, native_order()),
{
    let order = native_byte_order();
    sort_samples_in_order(buf, bps, fmt, order);
}

/// Wipes a buffer of samples stored in byte order `order` (see `wiped`).
pub fn wipe_buffer_in_order(buf: &mut [u8], spp: usize, bps: u16, fmt: u16, order: ByteOrder)
    requires
        spp * bytes_per_sample(bps) <= usize::MAX,
    ensures
        final(buf)@ == wiped(old(buf)@, spp as nat, bps, fmt, order),
{
    if spp <= 1 || bps < 8 {
        sort_samples_in_order(buf, bps, fmt, order);
        return;
    }
    let ghost orig = buf@;
    let len = buf.len();
    let b: usize = (bps as usize + 7) / 8;
    assert(b * spp <= usize::MAX && b * spp >= 2) by (nonlinear_arith)
        requires
            spp * b <= usize::MAX,
            b >= 1,
            spp >= 2,
    ;
    let stride = b * spp;
    let np = len / stride;
    let ghost target = wiped(orig, spp as nat, bps, fmt, order);
    proof {
        assert(b as nat == bytes_per_sample(bps));
        assert(stride == spp * b) by (nonlinear_arith)
            requires
                stride == b * spp,
        ;
        lemma_pixels_fit(len as nat, spp as nat, b as nat);
        assert(np as nat == pixel_count(len as nat, spp as nat, b as nat));
        assert(np * b <= np * stride) by (nonlinear_arith)
            requires
                stride == spp * b,
                spp >= 1,
        ;
        assert(target.len() == len);
    }
    let mut channel: Vec<u8> = vec![0u8; np * b];
    let mut c: usize = 0;
    while c < spp
        invariant
            2 <= spp,
            bps >= 8,
            b >= 1,
            b as nat == bytes_per_sample(bps),
            stride == spp * b,
            len == orig.len(),
            np as nat == pixel_count(len as nat, spp as nat, b as nat),
            np * stride <= len,
            np * b <= np * stride,
            buf@.len() == len,
            channel@.len() == np * b,
            c <= spp,
            target == wiped(orig, spp as nat, bps, fmt, order),
            target.len() == len,
            forall|i: int|
                0 <= i < len ==> #[trigger] buf@[i] == if i < np * stride && channel_at(
                    i,
                    spp as nat,
                    b as nat,
                ) < c {
                    target[i]
                } else {
                    orig[i]
                },
        decreases spp - c,
    {
        let ghost chan = channel_of(orig, spp as nat, b as nat, c as nat);
        let mut p: usize = 0;
        while p < np
            invariant
                2 <= spp,
                bps >= 8,
                b >= 1,
                stride == spp * b,
                len == orig.len(),
                np as nat == pixel_count(len as nat, spp as nat, b as nat),
                np * stride <= len,
                np * b <= np * stride,
                buf@.len() == len,
                channel@.len() == np * b,
                c < spp,
                p <= np,
                chan == channel_of(orig, spp as nat, b as nat, c as nat),
                target.len() == len,
                forall|i: int|
                    0 <= i < len ==> #[trigger] buf@[i] == if i < np * stride && channel_at(
                        i,
                        spp as nat,
                        b as nat,
                    ) < c {
                        target[i]
                    } else {
                        orig[i]
                    },
                forall|k: int| 0 <= k < p * b ==> #[trigger] channel@[k] == chan[k],
            decreases np - p,
        {
            proof {
                lemma_position(p as int, c as int, 0, spp as nat, b as nat);
                assert(p * stride + c * b + b <= (p + 1) * stride) by (nonlinear_arith)
                    requires
                        c < spp,
                        stride == spp * b,
                ;
                assert((p + 1) * stride <= np * stride) by (nonlinear_arith)
                    requires
                        p < np,
                        stride >= 0,
                ;
                assert(p * b + b <= np * b) by (nonlinear_arith)
                    requires
                        p < np,
                ;
            }
            let src = p * stride + c * b;
            let ghost before = channel@;
            copy_bytes(channel.as_mut_slice(), p * b, buf, src, b);
            proof {
                assert forall|k: int| 0 <= k < (p + 1) * b implies #[trigger] channel@[k]
                    == chan[k] by {
                    if k >= p * b {
                        let t = k - p * b;
                        assert(0 <= t < b) by (nonlinear_arith)
                            requires
                                p * b <= k < (p + 1) * b,
                                t == k - p * b,
                        ;
                        vstd::arithmetic::div_mod::lemma_fundamental_div_mod_converse(
                            k,
                            b as int,
                            p as int,
                            t,
                        );
                        lemma_position(p as int, c as int, t, spp as nat, b as nat);
                        assert(channel@[k] == buf@[src + t]);
                        assert(sample_pos(p as int, c as int, t, spp as nat, b as nat) == src + t)
                            by (nonlinear_arith)
                            requires
                                src == p * stride + c * b,
                                stride == spp * b,
                        ;
                        assert(chan[k] == orig[src + t]);
                        assert(src + t < np * stride);
                    } else {
                        assert(channel@[k] == before[k]);
                    }
                }
            }
            assert((p + 1) * b == p * b + b) by (nonlinear_arith);
            p = p + 1;
        }
        proof {
            assert(channel@ =~= chan);
        }
        sort_samples_in_order(channel.as_mut_slice(), bps, fmt, order);
        let ghost sorted = channel@;
        proof {
            lemma_sorted_samples_len(chan, bps, fmt, order);
        }
        p = 0;
        while p < np
            invariant
                2 <= spp,
                bps >= 8,
                b >= 1,
                b as nat == bytes_per_sample(bps),
                stride == spp * b,
                len == orig.len(),
                np as nat == pixel_count(len as nat, spp as nat, b as nat),
                np * stride <= len,
                np * b <= np * stride,
                buf@.len() == len,
                channel@ == sorted,
                sorted == sorted_samples(chan, bps, fmt, order),
                sorted.len() == np * b,
                chan == channel_of(orig, spp as nat, b as nat, c as nat),
                c < spp,
                p <= np,
                target == wiped(orig, spp as nat, bps, fmt, order),
                target.len() == len,
                forall|i: int|
                    0 <= i < len ==> #[trigger] buf@[i] == if i < np * stride && (channel_at(
                        i,
                        spp as nat,
                        b as nat,
                    ) < c || (channel_at(i, spp as nat, b as nat) == c && pixel_of(
                        i,
                        spp as nat,
                        b as nat,
                    ) < p)) {
                        target[i]
                    } else {
                        orig[i]
                    },
            decreases np - p,
        {
            proof {
                assert(p * stride + c * b + b <= (p + 1) * stride) by (nonlinear_arith)
                    requires
                        c < spp,
                        stride == spp * b,
                ;
                assert((p + 1) * stride <= np * stride) by (nonlinear_arith)
                    requires
                        p < np,
                        stride >= 0,
                ;
                assert(p * b + b <= np * b) by (nonlinear_arith)
                    requires
                        p < np,
                ;
            }
            let dst = p * stride + c * b;
            let ghost before = buf@;
            copy_bytes(buf, dst, channel.as_slice(), p * b, b);
            proof {
                assert forall|i: int| 0 <= i < len implies #[trigger] buf@[i] == if i < np
                    * stride && (channel_at(i, spp as nat, b as nat) < c || (channel_at(
                    i,
                    spp as nat,
                    b as nat,
                ) == c && pixel_of(i, spp as nat, b as nat) < p + 1)) {
                    target[i]
                } else {
                    orig[i]
                } by {
                    lemma_decompose(i, spp as nat, b as nat);
                    let pi = pixel_of(i, spp as nat, b as nat);
                    let ci = channel_at(i, spp as nat, b as nat);
                    let ti = offset_at(i, spp as nat, b as nat);
                    if dst <= i < dst + b {
                        let t = i - dst;
                        lemma_position(p as int, c as int, t, spp as nat, b as nat);
                        assert(sample_pos(p as int, c as int, t, spp as nat, b as nat) == i) by (
                        nonlinear_arith)
                            requires
                                dst == p * stride + c * b,
                                stride == spp * b,
                                t == i - dst,
                        ;
                        assert(buf@[i] == sorted[p * b + t]);
                        assert(i < np * stride);
                        assert(!(spp <= 1 || bps < 8));
                        assert(channel_at(i, spp as nat, b as nat) as nat == c as nat);
                        assert(pixel_of(i, spp as nat, b as nat) * b + offset_at(i, spp as nat, b as nat) == p * b + t);
                        assert(target[i] == sorted_samples(
                            channel_of(orig, spp as nat, b as nat, c as nat),
                            bps,
                            fmt,
                            order,
                        )[p * b + t]);
                        assert(target[i] == sorted[p * b + t]);
                    } else {
                        assert(buf@[i] == before[i]);
                        if ci == c && pi == p {
                            assert(i == dst + ti) by (nonlinear_arith)
                                requires
                                    i == pi * (spp * b) + ci * b + ti,
                                    dst == p * stride + c * b,
                                    stride == spp * b,
                                    ci == c,
                                    pi == p,
                            ;
                        }
                    }
                }
            }
            p = p + 1;
        }
        proof {
            assert forall|i: int| 0 <= i < np * stride implies pixel_of(i, spp as nat, b as nat)
                < np by {
                assert(i / (stride as int) < np) by (nonlinear_arith)
                    requires
                        0 <= i < np * stride,
                        stride > 0,
                ;
            }
        }
        c = c + 1;
    }
    proof {
        assert forall|i: int| 0 <= i < len implies buf@[i] == target[i] by {
            if i < np * stride {
                lemma_decompose(i, spp as nat, b as nat);
            }
        }
        assert(buf@ =~= target);
    }
}

/// Wipes an image buffer in place, keeping the histogram of each channel.
///
/// `spp` is the number of interleaved channels in `buf` (1 for grayscale or
/// for one plane of planar data). Channels are taken apart, sorted on their
/// own and put back, so each channel keeps its own histogram. Samples are in
/// the machine's byte order.
pub fn wipe_buffer(buf: &mut [u8], spp: usize, bps: u16, fmt: u16)
    requires
        spp * bytes_per_sample(bps) <= usize::MAX,
    ensures
        final(buf)@ == wiped(old(buf)@, spp as nat, bps, fmt, native_order()),
{
    let order = native_byte_order();
    wipe_buffer_in_order(buf, spp, bps, fmt, order);
}

/// A whole sample of a buffer is below the number of values of its width.
proof fn lemma_sample_at_bound(buf: Seq<u8>, w: nat, i: int, order: ByteOrder)
    requires
        w >= 1,
        0 <= i < buf.len() / w,
    ensures
        sample_at(buf, w, i, order) < pow256(w),
{
    let n = buf.len() / w;
    assert(i * w + w <= n * w) by (nonlinear_arith)
        requires
            i < n,
    ;
    assert(n * w <= buf.len()) by (nonlinear_arith)
        requires
            n == buf.len() / w,
            w >= 1,
    ;
    lemma_chunk_value_bound(sample_bytes(buf, w, i), order);
}

/// Sorting puts the samples in the numeric order of their type: read as
/// `bps / 8`-byte samples, signed integers come out in ascending two's
/// complement order, unsigned integers (and 16- and 24-bit floats, by bit
/// pattern) in ascending unsigned order, 32- and 64-bit floats in the IEEE
/// total order; samples of other depths are sorted byte by byte.
pub proof fn law_sort_orders_by_type(buf: Seq<u8>, bps: u16, fmt: u16, order: ByteOrder)
    ensures
        ({
            let out = sorted_samples(buf, bps, fmt, order);
            let w = (bps / 8) as nat;
            let n = buf.len() / w;
            let whole = bps == 8 || bps == 16 || bps == 24 || bps == 32 || bps == 64;
            &&& whole && fmt == SAMPLEFORMAT_INT ==> forall|i: int, j: int|
                0 <= i <= j < n ==> signed_value(#[trigger] sample_at(out, w, i, order), w)
                    <= signed_value(#[trigger] sample_at(out, w, j, order), w)
            &&& whole && (fmt == SAMPLEFORMAT_UINT || (fmt == SAMPLEFORMAT_IEEEFP && (bps == 16
                || bps == 24))) ==> forall|i: int, j: int|
                0 <= i <= j < n ==> #[trigger] sample_at(out, w, i, order) <= #[trigger] sample_at(
                    out,
                    w,
                    j,
                    order,
                )
            &&& (bps == 32 || bps == 64) && fmt == SAMPLEFORMAT_IEEEFP ==> forall|i: int, j: int|
                0 <= i <= j < n ==> float_rank(#[trigger] sample_at(out, w, i, order), w)
                    <= float_rank(#[trigger] sample_at(out, w, j, order), w)
            &&& !whole ==> forall|i: int, j: int|
                0 <= i <= j < out.len() ==> #[trigger] out[i] <= #[trigger] out[j]
        }),
{
    let (lw, kind) = sample_layout(bps, fmt);
    lemma_layout_valid(bps, fmt);
    lemma_pow256_values();
    law_sort_keeps_samples(buf, bps, fmt, order);
    let out = sorted_samples(buf, bps, fmt, order);
    let keys = sample_keys(buf, lw, kind, order);
    lemma_sort_ascending(keys);
    let ko = sample_keys(out, lw, kind, order);
    assert(ascending(ko));
    let whole = bps == 8 || bps == 16 || bps == 24 || bps == 32 || bps == 64;
    if whole {
        assert(lw == (bps / 8) as nat);
    } else {
        assert(lw == 1 && kind == SampleKind::Unsigned);
    }
    let n = out.len() / lw;
    assert(ko.len() == n);
    assert forall|i: int, j: int|
        #![trigger sample_at(out, lw, i, order), sample_at(out, lw, j, order)]
        0 <= i <= j < n implies {
        let a = sample_at(out, lw, i, order);
        let b = sample_at(out, lw, j, order);
        &&& kind == SampleKind::Unsigned ==> a <= b
        &&& kind == SampleKind::Signed ==> signed_value(a, lw) <= signed_value(b, lw)
        &&& kind == SampleKind::Float ==> float_rank(a, lw) <= float_rank(b, lw)
    } by {
        lemma_sample_at_bound(out, lw, i, order);
        lemma_sample_at_bound(out, lw, j, order);
        assert(ko[i] <= ko[j]);
        lemma_key_rank(sample_at(out, lw, i, order), lw, kind);
        lemma_key_rank(sample_at(out, lw, j, order), lw, kind);
    }
    if !whole {
        assert forall|i: int, j: int| 0 <= i <= j < out.len() implies #[trigger] out[i]
            <= #[trigger] out[j] by {
            assert(n == out.len());
            assert(sample_bytes(out, 1, i) =~= seq![out[i]]);
            assert(sample_bytes(out, 1, j) =~= seq![out[j]]);
            reveal_with_fuel(crate::sample::be_value, 2);
            reveal_with_fuel(crate::sample::le_value, 2);
            assert(seq![out[i]].drop_last() =~= Seq::<u8>::empty());
            assert(seq![out[i]].drop_first() =~= Seq::<u8>::empty());
            assert(seq![out[j]].drop_last() =~= Seq::<u8>::empty());
            assert(seq![out[j]].drop_first() =~= Seq::<u8>::empty());
            assert(sample_at(out, 1, i, order) == out[i] as nat);
            assert(sample_at(out, 1, j, order) == out[j] as nat);
        }
    }
}

/// Sorting keeps the samples: the whole samples of a sorted buffer are the
/// samples of the unsorted buffer in ascending order (so the histogram, and
/// with it min, max and mean, is kept exactly), and the tail is unchanged.
pub proof fn law_sort_keeps_samples(buf: Seq<u8>, bps: u16, fmt: u16, order: ByteOrder)
    ensures
        ({
            let (w, kind) = sample_layout(bps, fmt);
            let out = sorted_samples(buf, bps, fmt, order);
            let n = buf.len() / w;
            &&& out.len() == buf.len()
            &&& sample_keys(out, w, kind, order) == sample_keys(buf, w, kind, order).sort()
            &&& out.subrange((n * w) as int, out.len() as int) == buf.subrange(
                (n * w) as int,
                buf.len() as int,
            )
        }),
{
    broadcast use vstd::seq_lib::group_to_multiset_ensures;

    let (w, kind) = sample_layout(bps, fmt);
    lemma_layout_valid(bps, fmt);
    lemma_pow256_values();
    lemma_sorted_samples_len(buf, bps, fmt, order);
    let keys = sample_keys(buf, w, kind, order);
    let ks = keys.sort();
    keys.lemma_sort_ensures();
    assert(ks.len() == ks.to_multiset().len());
    assert(keys.len() == keys.to_multiset().len());
    let n = buf.len() / w;
    assert(n * w <= buf.len()) by (nonlinear_arith)
        requires
            n == buf.len() / w,
            w >= 1,
    ;
    let enc = encode_keys(ks, w, kind, order);
    let tail = buf.subrange((n * w) as int, buf.len() as int);
    let out = sorted_samples(buf, bps, fmt, order);
    assert(out == enc + tail);
    lemma_encode_keys_len(ks, w, kind, order);
    assert forall|i: int| 0 <= i < keys.len() implies 0 <= #[trigger] keys[i] < pow256(w) by {
        let s = sample_bytes(buf, w, i);
        assert(i * w + w <= n * w) by (nonlinear_arith)
            requires
                i < n,
        ;
        lemma_chunk_value_bound(s, order);
        lemma_key_roundtrip(chunk_value(s, order) as int, w, kind);
    }
    lemma_permutation_bounded(ks, keys, pow256(w) as int);
    // The samples of the encoded keys are the keys.
    assert(enc.len() % w == 0) by {
        vstd::arithmetic::div_mod::lemma_fundamental_div_mod_converse(
            enc.len() as int,
            w as int,
            ks.len() as int,
            0,
        );
    }
    lemma_sample_keys_concat(enc, tail, w, kind, order);
    assert(tail.len() < w) by (nonlinear_arith)
        requires
            tail.len() == buf.len() - n * w,
            n == buf.len() / w,
            w >= 1,
    ;
    assert(sample_keys(tail, w, kind, order) =~= Seq::<int>::empty()) by {
        assert(tail.len() / w == 0) by (nonlinear_arith)
            requires
                tail.len() < w,
                w >= 1,
        ;
    }
    let ek = sample_keys(enc, w, kind, order);
    assert((ks.len() * w) / w == ks.len()) by (nonlinear_arith)
        requires
            w >= 1,
    ;
    assert forall|j: int| 0 <= j < ks.len() implies #[trigger] ek[j] == ks[j] by {
        let v = key_value(ks[j], w, kind) as nat;
        lemma_value_roundtrip(ks[j], w, kind);
        lemma_chunk_bytes_len(v, w, order);
        assert(j * w + w <= ks.len() * w) by (nonlinear_arith)
            requires
                j < ks.len(),
        ;
        assert(sample_bytes(enc, w, j) =~= chunk_bytes(v, w, order)) by {
            assert forall|t: int| 0 <= t < w implies #[trigger] sample_bytes(enc, w, j)[t]
                == chunk_bytes(v, w, order)[t] by {
                crate::histogram::lemma_encode_keys_index(ks, w, kind, order, j * w + t);
                vstd::arithmetic::div_mod::lemma_fundamental_div_mod_converse(
                    j * w + t,
                    w as int,
                    j,
                    t,
                );
            }
        }
        lemma_chunk_roundtrip(v, w, order);
    }
    assert(ek =~= ks);
    assert(sample_keys(out, w, kind, order) =~= ks);
    assert(out.subrange((n * w) as int, out.len() as int) =~= tail);
}

/// Wiping keeps each channel's samples: channel `c` of a wiped buffer of
/// several channels is channel `c` of the unwiped buffer, sorted.
pub proof fn law_wipe_sorts_each_channel(
    buf: Seq<u8>,
    spp: nat,
    bps: u16,
    fmt: u16,
    order: ByteOrder,
    c: nat,
)
    requires
        spp >= 2,
        bps >= 8,
        c < spp,
    ensures
        channel_of(wiped(buf, spp, bps, fmt, order), spp, bytes_per_sample(bps), c) == sorted_samples(
            channel_of(buf, spp, bytes_per_sample(bps), c),
            bps,
            fmt,
            order,
        ),
{
    let b = bytes_per_sample(bps);
    let out = wiped(buf, spp, bps, fmt, order);
    let np = pixel_count(buf.len(), spp, b);
    let ch = channel_of(buf, spp, b, c);
    let sorted = sorted_samples(ch, bps, fmt, order);
    lemma_sorted_samples_len(ch, bps, fmt, order);
    lemma_pixels_fit(buf.len(), spp, b);
    let lhs = channel_of(out, spp, b, c);
    assert(lhs.len() == sorted.len());
    assert forall|k: int| 0 <= k < lhs.len() implies lhs[k] == sorted[k] by {
        crate::pixels::lemma_channel_index(k, b);
        let p = k / (b as int);
        let t = k % (b as int);
        lemma_position(p, c as int, t, spp, b);
        assert(p < np) by (nonlinear_arith)
            requires
                k == p * b + t,
                0 <= t,
                k < np * b,
                b > 0,
        ;
    }
    assert(lhs =~= sorted);
}

/// Sorting is idempotent: the samples of a sorted buffer are already in
/// order, so sorting it again changes nothing.
pub proof fn law_sort_idempotent(buf: Seq<u8>, bps: u16, fmt: u16, order: ByteOrder)
    ensures
        sorted_samples(sorted_samples(buf, bps, fmt, order), bps, fmt, order) == sorted_samples(
            buf,
            bps,
            fmt,
            order,
        ),
{
    let (w, kind) = sample_layout(bps, fmt);
    lemma_layout_valid(bps, fmt);
    let out = sorted_samples(buf, bps, fmt, order);
    law_sort_keeps_samples(buf, bps, fmt, order);
    let ks = sample_keys(buf, w, kind, order).sort();
    lemma_sort_ascending(sample_keys(buf, w, kind, order));
    crate::sorting::lemma_is_sort(ks, ks);
    assert(sample_keys(out, w, kind, order).sort() == ks);
    let n = buf.len() / w;
    assert(out.len() / w == n);
    assert(sorted_samples(out, bps, fmt, order) =~= encode_keys(ks, w, kind, order)
        + buf.subrange((n * w) as int, buf.len() as int));
}

/// Wiping is idempotent: wiping a wiped buffer gives it back unchanged.
pub proof fn law_wipe_idempotent(buf: Seq<u8>, spp: nat, bps: u16, fmt: u16, order: ByteOrder)
    ensures
        wiped(wiped(buf, spp, bps, fmt, order), spp, bps, fmt, order) == wiped(
            buf,
            spp,
            bps,
            fmt,
            order,
        ),
{
    let w1 = wiped(buf, spp, bps, fmt, order);
    if spp <= 1 || bps < 8 {
        law_sort_idempotent(buf, bps, fmt, order);
    } else {
        let b = bytes_per_sample(bps);
        let np = pixel_count(buf.len(), spp, b);
        let w2 = wiped(w1, spp, bps, fmt, order);
        assert(w1.len() == buf.len());
        assert forall|i: int| 0 <= i < w1.len() implies #[trigger] w2[i] == w1[i] by {
            if i < np * (spp * b) {
                lemma_decompose(i, spp, b);
                let c = channel_at(i, spp, b) as nat;
                law_wipe_sorts_each_channel(buf, spp, bps, fmt, order, c);
                law_sort_idempotent(channel_of(buf, spp, b, c), bps, fmt, order);
            }
        }
        assert(w2 =~= w1);
    }
}

} // verus!
