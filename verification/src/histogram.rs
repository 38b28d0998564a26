//! Histogram streaming for 8- and 16-bit integer samples: per-channel counts
//! of every sample value, from which the sorted samples of each channel are
//! emitted back without the image plane ever being held in memory.

use vstd::prelude::*;
use vstd::multiset::Multiset;
use vstd::math::min;
use crate::sample::{
    ByteOrder, SampleKind, chunk_bytes, chunk_value, key_value, lemma_chunk_bytes_len,
    lemma_chunk_value_bound, lemma_key_rank, lemma_key_roundtrip, lemma_pow256_values,
    lemma_value_roundtrip, pow256, read_sample, signed_value, sort_key, valid_width, write_sample,
};
use crate::sorting::{
    ascending, encode_keys, layout_of, lemma_encode_keys_len, lemma_is_sort, lemma_layout_valid,
    native_byte_order, native_order, sample_bytes, sample_keys, sample_layout, sorted_samples,
};
use crate::pixels::{
    channel_at, channel_of, lemma_channel_sample, lemma_decompose, lemma_pixels_fit, offset_at,
    pixel_count, pixel_of, sample_pos,
};
use crate::tiff::{SAMPLEFORMAT_INT, SAMPLEFORMAT_UINT};

verus! {

/// Sample types whose values are counted in a histogram: 8- and 16-bit
/// unsigned or signed integers.
pub open spec fn histogram_supports(bps: u16, fmt: u16) -> bool {
    (bps == 8 || bps == 16) && (fmt == SAMPLEFORMAT_UINT || fmt == SAMPLEFORMAT_INT)
}

/// Keys of the samples of channel `c` of an interleaved buffer of `spp`
/// channels of the sample type (`bps`, `fmt`), in buffer order.
pub open spec fn channel_keys(
    buf: Seq<u8>,
    spp: nat,
    bps: u16,
    fmt: u16,
    order: ByteOrder,
    c: nat,
) -> Seq<int> {
    let (w, kind) = sample_layout(bps, fmt);
    sample_keys(channel_of(buf, spp, w, c), w, kind, order)
}

pub open spec fn seq_sum(s: Seq<u64>) -> nat
    decreases s.len(),
{
    if s.len() == 0 {
        0
    } else {
        seq_sum(s.drop_last()) + s.last() as nat
    }
}

pub open spec fn rows_sum(rows: Seq<Vec<u64>>) -> nat
    decreases rows.len(),
{
    if rows.len() == 0 {
        0
    } else {
        rows_sum(rows.drop_last()) + seq_sum(rows.last()@)
    }
}

pub proof fn lemma_seq_sum_update(s: Seq<u64>, i: int, v: u64)
    requires
        0 <= i < s.len(),
    ensures
        seq_sum(s.update(i, v)) == seq_sum(s) - s[i] + v,
        s[i] <= seq_sum(s),
    decreases s.len(),
{
    let t = s.update(i, v);
    if i == s.len() - 1 {
        assert(t.drop_last() =~= s.drop_last());
    } else {
        assert(t.drop_last() =~= s.drop_last().update(i, v));
        lemma_seq_sum_update(s.drop_last(), i, v);
    }
}

pub proof fn lemma_seq_sum_take(s: Seq<u64>, i: int)
    requires
        0 <= i < s.len(),
    ensures
        seq_sum(s.take(i + 1)) == seq_sum(s.take(i)) + s[i],
        seq_sum(s.take(i + 1)) <= seq_sum(s),
    decreases s.len(),
{
    assert(s.take(i + 1).drop_last() =~= s.take(i));
    if i + 1 < s.len() {
        assert(s.drop_last().take(i + 1) =~= s.take(i + 1));
        lemma_seq_sum_take(s.drop_last(), i);
        if i + 1 < s.drop_last().len() {
        } else {
            assert(s.drop_last().take(i + 1) =~= s.drop_last());
        }
    } else {
        assert(s.take(i + 1) =~= s);
    }
}

pub proof fn lemma_seq_sum_zero(n: nat)
    ensures
        seq_sum(Seq::new(n, |i: int| 0u64)) == 0,
    decreases n,
{
    if n > 0 {
        assert(Seq::new(n, |i: int| 0u64).drop_last() =~= Seq::new((n - 1) as nat, |i: int| 0u64));
        lemma_seq_sum_zero((n - 1) as nat);
    }
}

/// Changing one row changes the sum of all rows by that row's change.
pub proof fn lemma_rows_sum_update(rows: Seq<Vec<u64>>, rows2: Seq<Vec<u64>>, c: int)
    requires
        rows.len() == rows2.len(),
        0 <= c < rows.len(),
        forall|j: int| 0 <= j < rows.len() && j != c ==> #[trigger] rows2[j]@ == rows[j]@,
    ensures
        rows_sum(rows2) == rows_sum(rows) - seq_sum(rows[c]@) + seq_sum(rows2[c]@),
        seq_sum(rows[c]@) <= rows_sum(rows),
    decreases rows.len(),
{
    if c < rows.len() - 1 {
        lemma_rows_sum_update(rows.drop_last(), rows2.drop_last(), c);
    } else {
        lemma_rows_sum_same(rows.drop_last(), rows2.drop_last());
    }
}

pub proof fn lemma_rows_sum_same(rows: Seq<Vec<u64>>, rows2: Seq<Vec<u64>>)
    requires
        rows.len() == rows2.len(),
        forall|j: int| 0 <= j < rows.len() ==> #[trigger] rows2[j]@ == rows[j]@,
    ensures
        rows_sum(rows2) == rows_sum(rows),
    decreases rows.len(),
{
    if rows.len() > 0 {
        lemma_rows_sum_same(rows.drop_last(), rows2.drop_last());
    }
}

pub proof fn lemma_rows_sum_take(rows: Seq<Vec<u64>>, i: int)
    requires
        0 <= i < rows.len(),
    ensures
        rows_sum(rows.take(i + 1)) == rows_sum(rows.take(i)) + seq_sum(rows[i]@),
        rows_sum(rows.take(i + 1)) <= rows_sum(rows),
    decreases rows.len(),
{
    assert(rows.take(i + 1).drop_last() =~= rows.take(i));
    if i + 1 < rows.len() {
        assert(rows.drop_last().take(i + 1) =~= rows.take(i + 1));
        lemma_rows_sum_take(rows.drop_last(), i);
        if i + 1 < rows.drop_last().len() {
        } else {
            assert(rows.drop_last().take(i + 1) =~= rows.drop_last());
        }
    } else {
        assert(rows.take(i + 1) =~= rows);
    }
}

/// Per-channel value histogram of 8- or 16-bit integer samples.
///
/// The bucket of a sample is its raw bit pattern; for signed data the sorted
/// samples are emitted in ascending signed order.
pub struct Histogram {
    bps: u16,
    fmt: u16,
    counts: Vec<Vec<u64>>,
    order: ByteOrder,
}

impl Histogram {
    /// The counts are consistent: one row of one count per sample value for
    /// each channel, and the number of samples counted fits in a `u64`.
    pub closed spec fn wf(&self) -> bool {
        &&& histogram_supports(self.bps, self.fmt)
        &&& self.counts@.len() >= 1
        &&& self.counts@.len() * 2 <= usize::MAX
        &&& forall|c: int|
            0 <= c < self.counts@.len() ==> #[trigger] self.counts@[c]@.len() == pow256(
                sample_layout(self.bps, self.fmt).0,
            )
        &&& rows_sum(self.counts@) <= u64::MAX
    }

    /// Number of interleaved channels.
    pub closed spec fn channels(&self) -> nat {
        self.counts@.len()
    }

    /// Bits per sample.
    pub closed spec fn bits(&self) -> u16 {
        self.bps
    }

    /// Sample format.
    pub closed spec fn format(&self) -> u16 {
        self.fmt
    }

    /// Byte order of the 16-bit samples read and written.
    pub closed spec fn byte_order(&self) -> ByteOrder {
        self.order
    }

    /// Number of samples counted, over all channels.
    pub closed spec fn total_count(&self) -> nat {
        rows_sum(self.counts@)
    }

    /// Number of counted samples of channel `c` whose key is `k`.
    pub closed spec fn count(&self, c: int, k: int) -> nat {
        let (w, kind) = sample_layout(self.bps, self.fmt);
        if 0 <= c < self.counts@.len() && 0 <= k < pow256(w) {
            self.counts@[c]@[key_value(k, w, kind)] as nat
        } else {
            0
        }
    }

    /// A well-formed histogram has at least one channel, of a supported
    /// sample type.
    pub proof fn lemma_wf(&self)
        requires
            self.wf(),
        ensures
            self.channels() >= 1,
            histogram_supports(self.bits(), self.format()),
    {
    }

    /// Whether the histogram strategy applies to this sample type.
    pub fn supports(bps: u16, fmt: u16) -> (r: bool)
        ensures
            r == histogram_supports(bps, fmt),
    {
        (bps == 8 || bps == 16) && (fmt == SAMPLEFORMAT_UINT || fmt == SAMPLEFORMAT_INT)
    }

    /// An empty histogram of `max(spp, 1)` channels whose 16-bit samples are
    /// stored in byte order `order`.
    pub fn new_in_order(spp: usize, bps: u16, fmt: u16, order: ByteOrder) -> (h: Self)
        requires
            histogram_supports(bps, fmt),
            spp * 2 <= usize::MAX,
        ensures
            h.wf(),
            h.channels() == if spp == 0 {
                1
            } else {
                spp as nat
            },
            h.bits() == bps,
            h.format() == fmt,
            h.byte_order() == order,
            h.total_count() == 0,
            forall|c: int, k: int| #[trigger] h.count(c, k) == 0,
    {
        let buckets: usize = if bps == 8 {
            256
        } else {
            65536
        };
        let n = if spp == 0 {
            1
        } else {
            spp
        };
        proof {
            lemma_pow256_values();
            lemma_seq_sum_zero(buckets as nat);
        }
        let mut counts: Vec<Vec<u64>> = Vec::new();
        let mut i: usize = 0;
        while i < n
            invariant
                i <= n,
                counts@.len() == i,
                buckets as nat == pow256(sample_layout(bps, fmt).0),
                seq_sum(Seq::new(buckets as nat, |i: int| 0u64)) == 0,
                forall|c: int| 0 <= c < i ==> #[trigger] counts@[c]@ == Seq::new(buckets as nat, |i: int| 0u64),
                rows_sum(counts@) == 0,
            decreases n - i,
        {
            let row: Vec<u64> = vec![0u64; buckets];
            proof {
                assert(row@ =~= Seq::new(buckets as nat, |i: int| 0u64));
            }
            let ghost prev = counts@;
            counts.push(row);
            proof {
                assert(counts@.drop_last() =~= prev);
            }
            i = i + 1;
        }
        Histogram { bps, fmt, counts, order }
    }

    /// An empty histogram of `max(spp, 1)` channels, for samples in the
    /// machine's byte order.
    pub fn new(spp: usize, bps: u16, fmt: u16) -> (h: Self)
        requires
            histogram_supports(bps, fmt),
            spp * 2 <= usize::MAX,
        ensures
            h.wf(),
            h.channels() == if spp == 0 {
                1
            } else {
                spp as nat
            },
            h.bits() == bps,
            h.format() == fmt,
            h.byte_order() == native_order(),
            h.total_count() == 0,
            forall|c: int, k: int| #[trigger] h.count(c, k) == 0,
    {
        Self::new_in_order(spp, bps, fmt, native_byte_order())
    }

    /// Counts all samples of the whole pixels of an interleaved slice (whole
    /// rows or the valid part of a tile row); bytes after the last whole pixel
    /// are not counted.
    pub fn accumulate(&mut self, buf: &[u8])
        requires
            old(self).wf(),
            old(self).total_count() + buf@.len() <= u64::MAX,
        ensures
            final(self).wf(),
            final(self).channels() == old(self).channels(),
            final(self).bits() == old(self).bits(),
            final(self).format() == old(self).format(),
            final(self).byte_order() == old(self).byte_order(),
            forall|c: int, k: int|
                0 <= c < old(self).channels() ==> #[trigger] final(self).count(c, k) == old(
                    self,
                ).count(c, k) + channel_keys(
                    buf@,
                    old(self).channels(),
                    old(self).bits(),
                    old(self).format(),
                    old(self).byte_order(),
                    c as nat,
                ).to_multiset().count(k),
            forall|c: int, k: int| !(0 <= c < old(self).channels()) ==> #[trigger] final(self).count(c, k) == 0,
            final(self).total_count() == old(self).total_count() + old(self).channels()
                * pixel_count(
                buf@.len(),
                old(self).channels(),
                sample_layout(old(self).bits(), old(self).format()).0,
            ),
    {
        broadcast use vstd::seq_lib::group_to_multiset_ensures;

        let ghost old_self = *self;
        let spp = self.counts.len();
        let len = buf.len();
        let (w, kind) = layout_of(self.bps, self.fmt);
        proof {
            lemma_layout_valid(self.bps, self.fmt);
            lemma_pow256_values();
            assert(w == 1 || w == 2);
        }
        let stride = w * spp;
        let np = len / stride;
        let ghost wn = w as nat;
        proof {
            assert(stride == spp * w && stride > 0) by (nonlinear_arith)
                requires
                    stride == w * spp,
                    spp >= 1,
                    w >= 1,
            ;
            lemma_pixels_fit(len as nat, spp as nat, wn);
            assert(np as nat == pixel_count(len as nat, spp as nat, wn));
        }
        let mut p: usize = 0;
        while p < np
            invariant
                self.wf(),
                self.bps == old_self.bps,
                self.fmt == old_self.fmt,
                self.order == old_self.order,
                self.counts@.len() == spp,
                spp >= 1,
                len == buf@.len(),
                w == wn,
                (wn, kind) == sample_layout(self.bps, self.fmt),
                w == 1 || w == 2,
                stride == spp * w,
                np as nat == pixel_count(len as nat, spp as nat, wn),
                np * stride <= len,
                p <= np,
                rows_sum(old_self.counts@) + len <= u64::MAX,
                rows_sum(self.counts@) == rows_sum(old_self.counts@) + p * spp,
                forall|c: int, k: int|
                    0 <= c < spp ==> #[trigger] self.count(c, k) == old_self.count(c, k)
                        + channel_keys(buf@, spp as nat, self.bps, self.fmt, self.order, c as nat).take(
                        p as int,
                    ).to_multiset().count(k),
            decreases np - p,
        {
            let mut c: usize = 0;
            while c < spp
                invariant
                    self.wf(),
                    self.bps == old_self.bps,
                    self.fmt == old_self.fmt,
                    self.order == old_self.order,
                    self.counts@.len() == spp,
                    spp >= 1,
                    len == buf@.len(),
                    w == wn,
                    (wn, kind) == sample_layout(self.bps, self.fmt),
                    w == 1 || w == 2,
                    stride == spp * w,
                    np as nat == pixel_count(len as nat, spp as nat, wn),
                    np * stride <= len,
                    p < np,
                    c <= spp,
                    rows_sum(old_self.counts@) + len <= u64::MAX,
                    rows_sum(self.counts@) == rows_sum(old_self.counts@) + p * spp + c,
                    forall|d: int, k: int|
                        0 <= d < spp ==> #[trigger] self.count(d, k) == old_self.count(d, k)
                            + channel_keys(buf@, spp as nat, self.bps, self.fmt, self.order, d as nat).take(
                            if d < c {
                                p + 1
                            } else {
                                p as int
                            },
                        ).to_multiset().count(k),
                decreases spp - c,
            {
                let ghost ck = channel_keys(buf@, spp as nat, self.bps, self.fmt, self.order, c as nat);
                let ghost ch = channel_of(buf@, spp as nat, wn, c as nat);
                proof {
                    lemma_channel_sample(buf@, spp as nat, wn, c as nat, p as int);
                    assert(p * stride + c * w + w <= np * stride) by (nonlinear_arith)
                        requires
                            p < np,
                            c < spp,
                            stride == spp * w,
                    ;
                    assert(p * spp + c < len) by (nonlinear_arith)
                        requires
                            p < np,
                            c < spp,
                            stride == spp * w,
                            w >= 1,
                            np * stride <= len,
                    ;
                    assert(ch.len() == np * wn);
                    assert(((np as nat) * wn) / wn == np as nat) by (nonlinear_arith)
                        requires
                            wn >= 1,
                    ;
                    assert(ck.len() == np);
                    assert(p * stride == p * (spp * wn)) by (nonlinear_arith)
                        requires
                            stride == spp * w,
                            wn == w,
                    ;
                    assert(sample_pos(p as int, c as int, 0, spp as nat, wn) == p * stride + c * w);
                    lemma_pow256_values();
                }
                let pos = p * stride + c * w;
                let v = read_sample(buf, pos, w, self.order);
                proof {
                    lemma_chunk_value_bound(buf@.subrange(pos as int, pos + w), self.order);
                    assert(sample_bytes(ch, wn, p as int) == buf@.subrange(pos as int, pos + w));
                    assert(ck[p as int] == sort_key(v as int, wn, kind));
                    lemma_key_roundtrip(v as int, wn, kind);
                    assert(self.counts@[c as int]@.len() == pow256(wn));
                    lemma_rows_sum_update(self.counts@, self.counts@, c as int);
                    lemma_seq_sum_update(self.counts@[c as int]@, v as int, 0);
                }
                let vi = v as usize;
                let ghost before = *self;
                let cur = self.counts[c][vi];
                self.counts[c][vi] = cur + 1;
                proof {
                    let row = before.counts@[c as int]@;
                    assert(self.counts@[c as int]@ =~= row.update(vi as int, (cur + 1) as u64));
                    lemma_seq_sum_update(row, vi as int, (cur + 1) as u64);
                    lemma_rows_sum_update(before.counts@, self.counts@, c as int);
                    let kk = sort_key(v as int, wn, kind);
                    assert(ck.take(p + 1) =~= ck.take(p as int).push(kk));
                    assert forall|d: int, k: int| 0 <= d < spp implies #[trigger] self.count(d, k)
                        == old_self.count(d, k) + channel_keys(
                        buf@,
                        spp as nat,
                        self.bps,
                        self.fmt,
                        self.order,
                        d as nat,
                    ).take(
                        if d < c + 1 {
                            p + 1
                        } else {
                            p as int
                        },
                    ).to_multiset().count(k) by {
                        broadcast use vstd::multiset::group_multiset_axioms;

                        let ckd = channel_keys(buf@, spp as nat, self.bps, self.fmt, self.order, d as nat);
                        assert(before.count(d, k) == old_self.count(d, k) + ckd.take(
                            if d < c {
                                p + 1
                            } else {
                                p as int
                            },
                        ).to_multiset().count(k));
                        if d == c {
                            assert(ckd == ck);
                            vstd::seq_lib::to_multiset_build(ck.take(p as int), kk);
                            assert(ck.take(p as int).push(kk).to_multiset() =~= ck.take(
                                p as int,
                            ).to_multiset().insert(kk));
                            assert(ck.take(p + 1) == ck.take(p as int).push(kk));
                            assert(ck.take(p + 1).to_multiset() == ck.take(p as int).to_multiset().insert(kk));
                        }
                        if d == c && 0 <= k < pow256(wn) {
                            lemma_value_roundtrip(k, wn, kind);
                            if k != kk {
                                assert(key_value(k, wn, kind) != v);
                            }
                            assert(self.count(d, k) == before.count(d, k) + if k == kk {
                                1nat
                            } else {
                                0nat
                            });
                        } else if d == c {
                            assert(self.count(d, k) == 0);
                            assert(!ck.take(p + 1).contains(k)) by {
                                if ck.take(p + 1).contains(k) {
                                    let j = choose|j: int| 0 <= j < p + 1 && #[trigger] ck.take(p + 1)[j] == k;
                                    lemma_chunk_value_bound(sample_bytes(ch, wn, j), self.order);
                                    assert(sample_bytes(ch, wn, j).len() == wn) by {
                                        assert(j * wn + wn <= np * wn) by (nonlinear_arith)
                                            requires
                                                j < np,
                                        ;
                                    }
                                    lemma_key_roundtrip(
                                        chunk_value(sample_bytes(ch, wn, j), self.order) as int,
                                        wn,
                                        kind,
                                    );
                                }
                            }
                        } else {
                            assert(self.counts@[d]@ == before.counts@[d]@);
                        }
                    }
                }
                c = c + 1;
            }
            assert((p + 1) * spp == p * spp + spp) by (nonlinear_arith);
            p = p + 1;
        }
        proof {
            assert forall|c: int, k: int| 0 <= c < spp implies #[trigger] self.count(c, k)
                == old_self.count(c, k) + channel_keys(
                buf@,
                spp as nat,
                self.bps,
                self.fmt,
                self.order,
                c as nat,
            ).to_multiset().count(k) by {
                let ck = channel_keys(buf@, spp as nat, self.bps, self.fmt, self.order, c as nat);
                let ch = channel_of(buf@, spp as nat, wn, c as nat);
                assert(ch.len() == np * wn);
                assert(((np as nat) * wn) / wn == np as nat) by (nonlinear_arith)
                    requires
                        wn >= 1,
                ;
                assert(ck.take(np as int) =~= ck);
            }
            assert(np * spp == spp * np) by (nonlinear_arith);
        }
    }

    /// Merges another histogram of the same sample type into this one (for
    /// parallel accumulation); the counts of channels that only `other` has
    /// are dropped.
    pub fn merge(self, other: Histogram) -> (r: Histogram)
        requires
            self.wf(),
            other.wf(),
            self.bits() == other.bits(),
            self.format() == other.format(),
            self.total_count() + other.total_count() <= u64::MAX,
        ensures
            r.wf(),
            r.channels() == self.channels(),
            r.bits() == self.bits(),
            r.format() == self.format(),
            r.byte_order() == self.byte_order(),
            forall|c: int, k: int|
                0 <= c < self.channels() ==> #[trigger] r.count(c, k) == self.count(c, k) + if c
                    < other.channels() {
                    other.count(c, k)
                } else {
                    0
                },
            self.channels() == other.channels() ==> r.total_count() == self.total_count()
                + other.total_count(),
    {
        let mut h = self;
        let n = if h.counts.len() < other.counts.len() {
            h.counts.len()
        } else {
            other.counts.len()
        };
        let ghost a = self;
        let ghost buckets = pow256(sample_layout(a.bps, a.fmt).0);
        let mut c: usize = 0;
        while c < n
            invariant
                h.wf(),
                other.wf(),
                h.bps == a.bps,
                h.fmt == a.fmt,
                h.order == a.order,
                other.bps == a.bps,
                other.fmt == a.fmt,
                h.counts@.len() == a.counts@.len(),
                n <= a.counts@.len(),
                n <= other.counts@.len(),
                c <= n,
                buckets == pow256(sample_layout(a.bps, a.fmt).0),
                rows_sum(a.counts@) + rows_sum(other.counts@) <= u64::MAX,
                rows_sum(h.counts@) == rows_sum(a.counts@) + rows_sum(other.counts@.take(c as int)),
                rows_sum(other.counts@.take(c as int)) <= rows_sum(other.counts@),
                forall|d: int, v: int|
                    0 <= d < a.counts@.len() && 0 <= v < buckets ==> #[trigger] h.counts@[d]@[v]
                        == a.counts@[d]@[v] + if d < c {
                        other.counts@[d]@[v] as int
                    } else {
                        0
                    },
            decreases n - c,
        {
            let ghost row_start = h.counts@[c as int]@;
            let m = h.counts[c].len();
            proof {
                lemma_rows_sum_take(other.counts@, c as int);
            }
            let mut b: usize = 0;
            while b < m
                invariant
                    h.wf(),
                    other.wf(),
                    h.bps == a.bps,
                    h.fmt == a.fmt,
                    h.order == a.order,
                    other.bps == a.bps,
                    other.fmt == a.fmt,
                    h.counts@.len() == a.counts@.len(),
                    n <= a.counts@.len(),
                    n <= other.counts@.len(),
                    c < n,
                    m == buckets,
                    buckets == pow256(sample_layout(a.bps, a.fmt).0),
                    b <= m,
                    rows_sum(a.counts@) + rows_sum(other.counts@) <= u64::MAX,
                    rows_sum(other.counts@.take(c as int + 1)) <= rows_sum(other.counts@),
                    rows_sum(other.counts@.take(c as int + 1)) == rows_sum(other.counts@.take(c as int))
                        + seq_sum(other.counts@[c as int]@),
                    rows_sum(h.counts@) == rows_sum(a.counts@) + rows_sum(other.counts@.take(c as int))
                        + seq_sum(other.counts@[c as int]@.take(b as int)),
                    forall|d: int, v: int|
                        0 <= d < a.counts@.len() && 0 <= v < buckets ==> #[trigger] h.counts@[d]@[v]
                            == a.counts@[d]@[v] + if d < c || (d == c && v < b) {
                            other.counts@[d]@[v] as int
                        } else {
                            0
                        },
                decreases m - b,
            {
                let x = h.counts[c][b];
                let y = other.counts[c][b];
                let ghost before = h;
                proof {
                    let orow = other.counts@[c as int]@;
                    lemma_seq_sum_take(orow, b as int);
                    assert(orow.take(orow.len() as int) =~= orow);
                    if b + 1 < orow.len() {
                        lemma_seq_sum_take(orow, orow.len() - 1);
                        lemma_seq_sum_prefix_le(orow, b as int + 1);
                    }
                    lemma_seq_sum_update(h.counts@[c as int]@, b as int, 0);
                    lemma_rows_sum_update(h.counts@, h.counts@, c as int);
                }
                h.counts[c][b] = x + y;
                proof {
                    let row = before.counts@[c as int]@;
                    assert(h.counts@[c as int]@ =~= row.update(b as int, (x + y) as u64));
                    lemma_seq_sum_update(row, b as int, (x + y) as u64);
                    lemma_rows_sum_update(before.counts@, h.counts@, c as int);
                    lemma_seq_sum_take(other.counts@[c as int]@, b as int);
                }
                b = b + 1;
            }
            proof {
                let orow = other.counts@[c as int]@;
                assert(orow.take(m as int) =~= orow);
            }
            c = c + 1;
        }
        proof {
            assert forall|cc: int, k: int|
                0 <= cc < a.channels() implies #[trigger] h.count(cc, k) == a.count(cc, k) + if cc
                < other.channels() {
                other.count(cc, k)
            } else {
                0
            } by {
                let (w, kind) = sample_layout(a.bps, a.fmt);
                if 0 <= cc < a.counts@.len() && 0 <= k < pow256(w) {
                    lemma_layout_valid(a.bps, a.fmt);
                    lemma_value_roundtrip(k, w, kind);
                }
            }
            if a.counts@.len() == other.counts@.len() {
                assert(other.counts@.take(n as int) =~= other.counts@);
            }
        }
        h
    }

    /// Total number of samples counted, over all channels.
    pub fn total(&self) -> (r: u64)
        requires
            self.wf(),
        ensures
            r == self.total_count(),
    {
        let n = self.counts.len();
        let mut sum: u64 = 0;
        let mut c: usize = 0;
        while c < n
            invariant
                self.wf(),
                n == self.counts@.len(),
                c <= n,
                sum == rows_sum(self.counts@.take(c as int)),
                rows_sum(self.counts@.take(c as int)) <= rows_sum(self.counts@),
            decreases n - c,
        {
            let m = self.counts[c].len();
            let ghost row = self.counts@[c as int]@;
            proof {
                lemma_rows_sum_take(self.counts@, c as int);
            }
            let mut b: usize = 0;
            while b < m
                invariant
                    self.wf(),
                    n == self.counts@.len(),
                    c < n,
                    row == self.counts@[c as int]@,
                    m == row.len(),
                    b <= m,
                    sum == rows_sum(self.counts@.take(c as int)) + seq_sum(row.take(b as int)),
                    rows_sum(self.counts@.take(c as int)) + seq_sum(row) <= rows_sum(self.counts@),
                decreases m - b,
            {
                proof {
                    lemma_seq_sum_take(row, b as int);
                    lemma_seq_sum_prefix_le(row, b as int + 1);
                }
                sum = sum + self.counts[c][b];
                b = b + 1;
            }
            proof {
                assert(row.take(m as int) =~= row);
            }
            c = c + 1;
        }
        proof {
            assert(self.counts@.take(n as int) =~= self.counts@);
        }
        sum
    }
}

/// A prefix sums to no more than the whole.
pub proof fn lemma_seq_sum_prefix_le(s: Seq<u64>, i: int)
    requires
        0 <= i <= s.len(),
    ensures
        seq_sum(s.take(i)) <= seq_sum(s),
    decreases s.len() - i,
{
    if i < s.len() {
        lemma_seq_sum_take(s, i);
        lemma_seq_sum_prefix_le(s, i + 1);
    } else {
        assert(s.take(i) =~= s);
    }
}

/// Keys emitted from the counts `row` of one channel for the first `k`
/// emission positions: key `j` repeated as many times as values of key `j`
/// were counted, for `j` from 0 up to `k`.
pub open spec fn emitted_keys(row: Seq<u64>, w: nat, kind: SampleKind, k: nat) -> Seq<int>
    decreases k,
{
    if k == 0 {
        Seq::empty()
    } else {
        emitted_keys(row, w, kind, (k - 1) as nat) + repeated(
            k - 1,
            row[key_value(k - 1, w, kind)] as nat,
        )
    }
}

/// `n` copies of `x`.
pub open spec fn repeated(x: int, n: nat) -> Seq<int> {
    Seq::new(n, |i: int| x)
}

/// The multiset of a run of one repeated value.
pub proof fn lemma_run_multiset(n: nat, x: int)
    ensures
        forall|y: int| #[trigger] repeated(x, n).to_multiset().count(y) == if y == x {
            n
        } else {
            0
        },
    decreases n,
{
    broadcast use vstd::seq_lib::group_to_multiset_ensures;
    broadcast use vstd::multiset::group_multiset_axioms;

    if n == 0 {
        assert(repeated(x, n) =~= Seq::<int>::empty());
        assert(Seq::<int>::empty().to_multiset() =~= Multiset::empty()) by {
            assert(Seq::<int>::empty().to_multiset().len() == 0);
        }
    } else {
        lemma_run_multiset((n - 1) as nat, x);
        let s = repeated(x, (n - 1) as nat);
        assert(repeated(x, n) =~= s.push(x));
        vstd::seq_lib::to_multiset_build(s, x);
    }
}

/// Facts about the emitted keys: they are ascending keys below `k`, a prefix
/// stays a prefix, and each key occurs as often as it was counted.
pub proof fn lemma_emitted_keys(row: Seq<u64>, w: nat, kind: SampleKind, k: nat)
    requires
        valid_width(w),
        k <= pow256(w),
        row.len() == pow256(w),
    ensures
        forall|i: int| 0 <= i < emitted_keys(row, w, kind, k).len() ==> 0 <= #[trigger] emitted_keys(
            row,
            w,
            kind,
            k,
        )[i] < k,
        forall|i: int, j: int|
            0 <= i <= j < emitted_keys(row, w, kind, k).len() ==> #[trigger] emitted_keys(
                row,
                w,
                kind,
                k,
            )[i] <= #[trigger] emitted_keys(row, w, kind, k)[j],
        forall|x: int| #[trigger] emitted_keys(row, w, kind, k).to_multiset().count(x) == if 0 <= x
            < k {
            row[key_value(x, w, kind)] as nat
        } else {
            0
        },
    decreases k,
{
    broadcast use vstd::multiset::group_multiset_axioms;

    if k == 0 {
        assert(emitted_keys(row, w, kind, k).to_multiset() =~= Multiset::empty()) by {
            broadcast use vstd::seq_lib::group_to_multiset_ensures;

            assert(emitted_keys(row, w, kind, k).to_multiset().len() == 0);
        }
    } else {
        let km = (k - 1) as nat;
        lemma_emitted_keys(row, w, kind, km);
        let prev = emitted_keys(row, w, kind, km);
        let run = repeated(km as int, row[key_value(km as int, w, kind)] as nat);
        lemma_run_multiset(row[key_value(km as int, w, kind)] as nat, km as int);
        vstd::seq_lib::lemma_multiset_commutative(prev, run);
        let all = emitted_keys(row, w, kind, k);
        assert(all == prev + run);
        assert forall|i: int, j: int| 0 <= i <= j < all.len() implies #[trigger] all[i]
            <= #[trigger] all[j] by {
            if j >= prev.len() {
                assert(all[j] == km);
                if i < prev.len() {
                    assert(all[i] == prev[i]);
                }
            } else {
                assert(all[i] == prev[i] && all[j] == prev[j]);
            }
        }
        assert forall|i: int| 0 <= i < all.len() implies 0 <= #[trigger] all[i] < k by {
            if i < prev.len() {
                assert(all[i] == prev[i]);
            }
        }
    }
}

/// Emitting more buckets extends the emitted keys.
pub proof fn lemma_emitted_prefix(row: Seq<u64>, w: nat, kind: SampleKind, k: nat, k2: nat)
    requires
        k <= k2,
    ensures
        emitted_keys(row, w, kind, k).len() <= emitted_keys(row, w, kind, k2).len(),
        forall|i: int|
            0 <= i < emitted_keys(row, w, kind, k).len() ==> #[trigger] emitted_keys(
                row,
                w,
                kind,
                k2,
            )[i] == emitted_keys(row, w, kind, k)[i],
    decreases k2,
{
    if k < k2 {
        lemma_emitted_prefix(row, w, kind, k, (k2 - 1) as nat);
        let prev = emitted_keys(row, w, kind, (k2 - 1) as nat);
        assert forall|i: int|
            0 <= i < emitted_keys(row, w, kind, k).len() implies #[trigger] emitted_keys(
            row,
            w,
            kind,
            k2,
        )[i] == emitted_keys(row, w, kind, k)[i] by {
            assert(emitted_keys(row, w, kind, k2)[i] == prev[i]);
        }
    }
}

/// The bytes of the `w`-byte samples of values `vals`, one after the other.
pub open spec fn encode_values(vals: Seq<int>, w: nat, order: ByteOrder) -> Seq<u8>
    decreases vals.len(),
{
    if vals.len() == 0 {
        Seq::empty()
    } else {
        encode_values(vals.drop_last(), w, order) + chunk_bytes(vals.last() as nat, w, order)
    }
}

pub proof fn lemma_encode_values_len(vals: Seq<int>, w: nat, order: ByteOrder)
    ensures
        encode_values(vals, w, order).len() == vals.len() * w,
    decreases vals.len(),
{
    if vals.len() > 0 {
        lemma_encode_values_len(vals.drop_last(), w, order);
        lemma_chunk_bytes_len(vals.last() as nat, w, order);
        assert((vals.len() - 1) * w + w == vals.len() * w) by (nonlinear_arith);
    }
}

/// How many of the first `n` samples of a row of `spp` interleaved channels
/// belong to channel `c`.
pub open spec fn share(n: int, spp: int, c: int) -> int {
    (n + spp - 1 - c) / spp
}

pub proof fn lemma_share(i: int, spp: int, c: int)
    requires
        0 <= i,
        0 <= c < spp,
    ensures
        share(i, spp, c) == i / spp + if i % spp > c {
            1int
        } else {
            0
        },
        share(i + 1, spp, c) == share(i, spp, c) + if i % spp == c {
            1int
        } else {
            0
        },
        share(i, spp, i % spp) == i / spp,
        0 <= share(i, spp, c),
        share(0, spp, c) == 0,
{
    let q = i / spp;
    let r = i % spp;
    vstd::arithmetic::div_mod::lemma_fundamental_div_mod(i, spp);
    assert(i == q * spp + r) by (nonlinear_arith)
        requires
            i == spp * q + r,
    ;
    assert(q >= 0) by (nonlinear_arith)
        requires
            i >= 0,
            spp > 0,
            q == i / spp,
    ;
    if r > c {
        assert(i + spp - 1 - c == (q + 1) * spp + (r - 1 - c)) by (nonlinear_arith)
            requires
                i == q * spp + r,
        ;
        vstd::arithmetic::div_mod::lemma_fundamental_div_mod_converse(
            i + spp - 1 - c,
            spp,
            q + 1,
            r - 1 - c,
        );
    } else {
        assert(i + spp - 1 - c == q * spp + (r + spp - 1 - c)) by (nonlinear_arith)
            requires
                i == q * spp + r,
        ;
        vstd::arithmetic::div_mod::lemma_fundamental_div_mod_converse(
            i + spp - 1 - c,
            spp,
            q,
            r + spp - 1 - c,
        );
    }
    if r + 1 < spp {
        assert(i + 1 == q * spp + (r + 1));
        vstd::arithmetic::div_mod::lemma_fundamental_div_mod_converse(i + 1, spp, q, r + 1);
        if r + 1 > c {
            assert(i + 1 + spp - 1 - c == (q + 1) * spp + (r - c)) by (nonlinear_arith)
                requires
                    i == q * spp + r,
            ;
            vstd::arithmetic::div_mod::lemma_fundamental_div_mod_converse(
                i + 1 + spp - 1 - c,
                spp,
                q + 1,
                r - c,
            );
        } else {
            assert(i + 1 + spp - 1 - c == q * spp + (r + spp - c)) by (nonlinear_arith)
                requires
                    i == q * spp + r,
            ;
            vstd::arithmetic::div_mod::lemma_fundamental_div_mod_converse(
                i + 1 + spp - 1 - c,
                spp,
                q,
                r + spp - c,
            );
        }
    } else {
        assert(i + 1 + spp - 1 - c == (q + 1) * spp + (spp - 1 - c)) by (nonlinear_arith)
            requires
                i == q * spp + r,
                r + 1 == spp,
        ;
        vstd::arithmetic::div_mod::lemma_fundamental_div_mod_converse(
            i + 1 + spp - 1 - c,
            spp,
            q + 1,
            spp - 1 - c,
        );
    }
    vstd::arithmetic::div_mod::lemma_fundamental_div_mod_converse(spp - 1 - c, spp, 0, spp - 1 - c);
    assert(share(0, spp, c) == (spp - 1 - c) / spp);
    assert(i + spp - 1 - r == q * spp + (spp - 1)) by (nonlinear_arith)
        requires
            i == q * spp + r,
    ;
    vstd::arithmetic::div_mod::lemma_fundamental_div_mod_converse(i + spp - 1 - r, spp, q, spp - 1);
}

impl Histogram {
    /// Keys emitted for channel `c`, in emission order.
    pub closed spec fn emission(&self, c: int) -> Seq<int> {
        let (w, kind) = sample_layout(self.bps, self.fmt);
        emitted_keys(self.counts@[c]@, w, kind, pow256(w))
    }

    /// Value of the sample emitted at position `p` of channel `c`; 0 past the
    /// end of the counted samples.
    pub closed spec fn emitted_value(&self, c: int, p: int) -> int {
        let (w, kind) = sample_layout(self.bps, self.fmt);
        if 0 <= p < self.emission(c).len() {
            key_value(self.emission(c)[p], w, kind)
        } else {
            0
        }
    }

    /// The emitted keys of a channel are its counted keys in ascending order.
    pub proof fn lemma_emission(&self, c: int)
        requires
            self.wf(),
            0 <= c < self.channels(),
        ensures
            ascending(self.emission(c)),
            forall|k: int| #[trigger] self.emission(c).to_multiset().count(k) == self.count(c, k),
            forall|i: int|
                0 <= i < self.emission(c).len() ==> 0 <= #[trigger] self.emission(c)[i] < pow256(
                    sample_layout(self.bits(), self.format()).0,
                ),
    {
        let (w, kind) = sample_layout(self.bps, self.fmt);
        lemma_layout_valid(self.bps, self.fmt);
        lemma_emitted_keys(self.counts@[c]@, w, kind, pow256(w));
    }

    /// A streaming emitter of this histogram's sorted samples, at the start.
    pub fn synthesizer(&self) -> (s: Synthesizer<'_>)
        requires
            self.wf(),
        ensures
            s.wf(),
            s.source() == *self,
            forall|c: int| 0 <= c < self.channels() ==> #[trigger] s.position(c) == 0,
            s.positions() == Seq::new(self.channels(), |c: int| 0int),
    {
        let n = self.counts.len();
        let mut state: Vec<(usize, u64)> = Vec::new();
        let mut i: usize = 0;
        while i < n
            invariant
                i <= n,
                n == self.counts@.len(),
                state@.len() == i,
                forall|c: int| 0 <= c < i ==> #[trigger] state@[c] == (0usize, 0u64),
            decreases n - i,
        {
            state.push((0, 0));
            i = i + 1;
        }
        let s = Synthesizer { hist: self, state };
        proof {
            lemma_pow256_values();
            assert forall|c: int| 0 <= c < self.channels() implies #[trigger] s.position(c) == 0 by {
                let (w, kind) = sample_layout(self.bps, self.fmt);
                assert(emitted_keys(self.counts@[c]@, w, kind, 0).len() == 0);
            }
            assert(s.positions() =~= Seq::new(self.channels(), |c: int| 0int));
        }
        s
    }

    /// Number of buckets, one per sample value.
    fn num_buckets(&self) -> (r: usize)
        requires
            self.wf(),
        ensures
            r == pow256(sample_layout(self.bits(), self.format()).0),
    {
        proof {
            lemma_pow256_values();
        }
        if self.bps == 8 {
            256
        } else {
            65536
        }
    }

    /// Bucket emitted at emission position `k`: ascending value order, signed
    /// data starting at the most negative value.
    fn bucket_at(&self, k: usize) -> (r: usize)
        requires
            self.wf(),
            k < pow256(sample_layout(self.bits(), self.format()).0),
        ensures
            r == key_value(k as int, sample_layout(self.bits(), self.format()).0, sample_layout(self.bits(), self.format()).1),
            r < pow256(sample_layout(self.bits(), self.format()).0),
    {
        proof {
            lemma_pow256_values();
            lemma_layout_valid(self.bps, self.fmt);
            lemma_value_roundtrip(k as int, sample_layout(self.bps, self.fmt).0, sample_layout(self.bps, self.fmt).1);
        }
        let buckets = self.num_buckets();
        if self.fmt == SAMPLEFORMAT_INT {
            let half = buckets / 2;
            if k >= half {
                k - half
            } else {
                k + half
            }
        } else {
            k
        }
    }
}

/// Streams the sorted samples of a [`Histogram`] back out, row by row.
pub struct Synthesizer<'a> {
    hist: &'a Histogram,
    /// Per channel: (emission position of the current bucket, samples already
    /// emitted from it).
    state: Vec<(usize, u64)>,
}

impl<'a> Synthesizer<'a> {
    /// The histogram whose samples are emitted.
    pub closed spec fn source(&self) -> Histogram {
        *self.hist
    }

    /// The per-channel cursors are consistent with the counts.
    pub closed spec fn wf(&self) -> bool {
        let (w, kind) = sample_layout(self.hist.bps, self.hist.fmt);
        &&& self.hist.wf()
        &&& self.state@.len() == self.hist.counts@.len()
        &&& forall|c: int|
            0 <= c < self.state@.len() ==> {
                let (k, used) = #[trigger] self.state@[c];
                &&& k <= pow256(w)
                &&& k < pow256(w) ==> used <= self.hist.counts@[c]@[key_value(k as int, w, kind)]
                &&& k == pow256(w) ==> used == 0
            }
    }

    /// Number of samples emitted so far, per channel.
    pub closed spec fn positions(&self) -> Seq<int> {
        Seq::new(self.hist.counts@.len(), |c: int| self.position(c) as int)
    }

    /// The per-channel positions are the numbers of samples emitted so far.
    pub proof fn lemma_positions(&self)
        ensures
            self.positions() == Seq::new(
                self.source().channels(),
                |c: int| self.position(c) as int,
            ),
    {
        assert(self.positions() =~= Seq::new(
            self.source().channels(),
            |c: int| self.position(c) as int,
        ));
    }

    /// Number of samples emitted so far for channel `c`.
    pub closed spec fn position(&self, c: int) -> nat {
        let (w, kind) = sample_layout(self.hist.bps, self.hist.fmt);
        emitted_keys(self.hist.counts@[c]@, w, kind, self.state@[c].0 as nat).len()
            + self.state@[c].1 as nat
    }

    /// The next sample value of channel `ch`; 0 once the counted samples of
    /// the channel are exhausted.
    fn next_value(&mut self, ch: usize) -> (r: u16)
        requires
            old(self).wf(),
            ch < old(self).source().channels(),
        ensures
            final(self).wf(),
            final(self).source() == old(self).source(),
            r as int == old(self).source().emitted_value(ch as int, old(self).position(ch as int) as int),
            final(self).position(ch as int) == if old(self).position(ch as int) < old(self).source().emission(ch as int).len() {
                old(self).position(ch as int) + 1
            } else {
                old(self).position(ch as int)
            },
            forall|c: int| 0 <= c < old(self).source().channels() && c != ch ==> #[trigger] final(self).position(c) == old(self).position(c),
    {
        let ghost hist = *self.hist;
        let ghost (w, kind) = sample_layout(hist.bps, hist.fmt);
        let ghost row = hist.counts@[ch as int]@;
        let ghost p0 = self.position(ch as int);
        proof {
            lemma_pow256_values();
            lemma_layout_valid(hist.bps, hist.fmt);
            lemma_emitted_prefix(row, w, kind, 0, pow256(w));
        }
        let buckets = self.hist.num_buckets();
        let (mut k, mut used) = self.state[ch];
        while k < buckets
            invariant
                self.wf(),
                *self.hist == hist,
                (w, kind) == sample_layout(hist.bps, hist.fmt),
                row == hist.counts@[ch as int]@,
                row.len() == pow256(w),
                ch < hist.counts@.len(),
                buckets == pow256(w),
                valid_width(w),
                k <= buckets,
                k < buckets ==> used <= row[key_value(k as int, w, kind)],
                k == buckets ==> used == 0,
                emitted_keys(row, w, kind, k as nat).len() + used == p0,
                self.state@ == old(self).state@,
                self.hist == old(self).hist,
                pow256(w) <= 65536,
                p0 == old(self).position(ch as int),
            decreases buckets - k,
        {
            let bucket = self.hist.bucket_at(k);
            let cnt = self.hist.counts[ch][bucket];
            if used < cnt {
                let ghost before = self.state@;
                self.state.set(ch, (k, used + 1));
                proof {
                    lemma_emitted_prefix(row, w, kind, (k + 1) as nat, pow256(w));
                    let e1 = emitted_keys(row, w, kind, (k + 1) as nat);
                    assert(e1 == emitted_keys(row, w, kind, k as nat) + repeated(k as int, cnt as nat));
                    assert(e1[p0 as int] == k);
                    assert(hist.emission(ch as int)[p0 as int] == k);
                    assert forall|c: int| 0 <= c < hist.counts@.len() && c != ch implies #[trigger] self.position(c) == old(self).position(c) by {
                        assert(self.state@[c] == before[c]);
                    }
                }
                return bucket as u16;
            }
            proof {
                let e1 = emitted_keys(row, w, kind, (k + 1) as nat);
                assert(e1 == emitted_keys(row, w, kind, k as nat) + repeated(k as int, cnt as nat));
            }
            k = k + 1;
            used = 0;
        }
        let ghost before = self.state@;
        self.state.set(ch, (k, used));
        proof {
            assert(k == buckets);
            assert(hist.emission(ch as int) == emitted_keys(row, w, kind, k as nat));
            assert forall|c: int| 0 <= c < hist.counts@.len() && c != ch implies #[trigger] self.position(c) == old(self).position(c) by {
                assert(self.state@[c] == before[c]);
            }
        }
        0
    }

    /// Fills an interleaved output row with the next sorted samples: sample
    /// `i` of the row goes to channel `i % spp`. Bytes after the last whole
    /// sample are left as they were.
    pub fn synthesize_row(&mut self, out: &mut [u8])
        requires
            old(self).wf(),
        ensures
            final(self).wf(),
            final(self).source() == old(self).source(),
            ({
                let h = old(self).source();
                let spp = h.channels() as int;
                let w = sample_layout(h.bits(), h.format()).0;
                let n = old(out)@.len() / w;
                &&& final(out)@ == encode_values(
                    emitted_row(h, old(self).positions(), n),
                    w,
                    h.byte_order(),
                ) + old(out)@.subrange((n * w) as int, old(out)@.len() as int)
                &&& forall|c: int|
                    0 <= c < spp ==> #[trigger] final(self).position(c) == min(
                        old(self).position(c) + share(n as int, spp, c),
                        h.emission(c).len() as int,
                    )
                &&& final(self).positions() == advanced(h, old(self).positions(), n)
            }),
    {
        let ghost h = *self.hist;
        let ghost orig = out@;
        let ghost pos0 = Seq::new(h.counts@.len(), |c: int| self.position(c));
        let spp = self.hist.counts.len();
        let len = out.len();
        let (w, kind) = layout_of(self.hist.bps, self.hist.fmt);
        let order = self.hist.order;
        proof {
            lemma_layout_valid(h.bps, h.fmt);
            lemma_pow256_values();
        }
        let n = len / w;
        assert(n * w <= len) by (nonlinear_arith)
            requires
                n == len / w,
                w >= 1,
        ;
        let ghost vals = Seq::new(
            n as nat,
            |i: int| h.emitted_value(i % (spp as int), pos0[i % (spp as int)] + i / (spp as int)),
        );
        proof {
            assert(orig.subrange(0, len as int) =~= orig);
            assert(vals.take(0) =~= Seq::<int>::empty());
            assert(out@ =~= encode_values(vals.take(0), w as nat, order) + orig.subrange(0, len as int));
            assert forall|c: int| 0 <= c < spp implies #[trigger] self.position(c) == min(
                pos0[c] + share(0, spp as int, c),
                h.emission(c).len() as int,
            ) by {
                lemma_share(0, spp as int, c);
                let (ww, kk) = sample_layout(h.bps, h.fmt);
                lemma_emitted_prefix(h.counts@[c]@, ww, kk, self.state@[c].0 as nat, pow256(ww));
                if self.state@[c].0 < pow256(ww) {
                    lemma_emitted_prefix(h.counts@[c]@, ww, kk, (self.state@[c].0 + 1) as nat, pow256(ww));
                }
            }
        }
        let mut i: usize = 0;
        while i < n
            invariant
                self.wf(),
                *self.hist == h,
                spp == h.counts@.len(),
                spp >= 1,
                len == orig.len(),
                out@.len() == len,
                w as nat == sample_layout(h.bps, h.fmt).0,
                w == 1 || w == 2,
                order == h.order,
                n == len / w,
                n * w <= len,
                i <= n,
                vals == Seq::new(
                    n as nat,
                    |i: int| h.emitted_value(i % (spp as int), pos0[i % (spp as int)] + i / (spp as int)),
                ),
                out@ == encode_values(vals.take(i as int), w as nat, order) + orig.subrange(i * w, len as int),
                forall|c: int| 0 <= c < spp ==> #[trigger] self.position(c) == min(
                    pos0[c] + share(i as int, spp as int, c),
                    h.emission(c).len() as int,
                ),
            decreases n - i,
        {
            let c = i % spp;
            proof {
                lemma_share(i as int, spp as int, c as int);
                lemma_pow256_values();
            }
            let v = self.next_value(c);
            proof {
                assert(v as int == vals[i as int]) by {
                    let p = pos0[c as int] + (i as int) / (spp as int);
                    if p >= h.emission(c as int).len() {
                        assert(h.emitted_value(c as int, p) == 0);
                    }
                }
                let (ww, kk) = sample_layout(h.bps, h.fmt);
                if v != 0 {
                    h.lemma_emission(c as int);
                    lemma_key_roundtrip(0, ww, kk);
                }
                assert(v < pow256(w as nat)) by {
                    h.lemma_emission(c as int);
                    let p = self.position(c as int);
                    let q = pos0[c as int] + (i as int) / (spp as int);
                    if 0 <= q < h.emission(c as int).len() {
                        lemma_value_roundtrip(h.emission(c as int)[q], ww, kk);
                    }
                }
                assert(i * w + w <= len) by (nonlinear_arith)
                    requires
                        i < n,
                        n * w <= len,
                ;
            }
            let ghost prev = out@;
            write_sample(out, i * w, w, v as u64, order);
            proof {
                lemma_encode_values_len(vals.take(i as int), w as nat, order);
                lemma_chunk_bytes_len(v as nat, w as nat, order);
                assert(vals.take(i + 1).drop_last() =~= vals.take(i as int));
                assert(out@ =~= encode_values(vals.take(i + 1), w as nat, order) + orig.subrange((i + 1) * w, len as int)) by {
                    assert((i + 1) * w == i * w + w) by (nonlinear_arith);
                }
                assert forall|d: int| 0 <= d < spp implies #[trigger] self.position(d) == min(
                    pos0[d] + share(i + 1, spp as int, d),
                    h.emission(d).len() as int,
                ) by {
                    lemma_share(i as int, spp as int, d);
                }
            }
            i = i + 1;
        }
        proof {
            assert(vals.take(n as int) =~= vals);
            let target = emitted_row(h, old(self).positions(), n as nat);
            assert forall|j: int| 0 <= j < n implies #[trigger] vals[j] == target[j] by {
                vstd::arithmetic::div_mod::lemma_fundamental_div_mod(j, spp as int);
                assert(0 <= j % (spp as int) < spp) by {
                    vstd::arithmetic::div_mod::lemma_mod_pos_bound(j, spp as int);
                }
            }
            assert(vals =~= target);
            assert(self.positions() =~= advanced(h, old(self).positions(), n as nat));
        }
    }
}

/// Byte `j` of the encoding of samples is byte `j % w` of sample `j / w`.
pub proof fn lemma_encode_values_index(vals: Seq<int>, w: nat, order: ByteOrder, j: int)
    requires
        w > 0,
        0 <= j < vals.len() * w,
    ensures
        encode_values(vals, w, order).len() == vals.len() * w,
        0 <= j / (w as int) < vals.len(),
        encode_values(vals, w, order)[j] == chunk_bytes(vals[j / (w as int)] as nat, w, order)[j
            % (w as int)],
    decreases vals.len(),
{
    lemma_encode_values_len(vals, w, order);
    let n = vals.len();
    let prev = vals.drop_last();
    lemma_encode_values_len(prev, w, order);
    lemma_chunk_bytes_len(vals.last() as nat, w, order);
    if j < (n - 1) * w {
        lemma_encode_values_index(prev, w, order, j);
    } else {
        let t = j - (n - 1) * w;
        assert(0 <= t < w) by (nonlinear_arith)
            requires
                (n - 1) * w <= j < n * w,
                t == j - (n - 1) * w,
        ;
        vstd::arithmetic::div_mod::lemma_fundamental_div_mod_converse(j, w as int, n - 1, t);
    }
}

/// Byte `j` of the encoding of keys is byte `j % w` of the sample of key
/// `j / w`.
pub proof fn lemma_encode_keys_index(
    keys: Seq<int>,
    w: nat,
    kind: SampleKind,
    order: ByteOrder,
    j: int,
)
    requires
        w > 0,
        0 <= j < keys.len() * w,
    ensures
        encode_keys(keys, w, kind, order).len() == keys.len() * w,
        0 <= j / (w as int) < keys.len(),
        encode_keys(keys, w, kind, order)[j] == chunk_bytes(
            key_value(keys[j / (w as int)], w, kind) as nat,
            w,
            order,
        )[j % (w as int)],
    decreases keys.len(),
{
    lemma_encode_keys_len(keys, w, kind, order);
    let n = keys.len();
    let prev = keys.drop_last();
    lemma_encode_keys_len(prev, w, kind, order);
    lemma_chunk_bytes_len(key_value(keys.last(), w, kind) as nat, w, order);
    if j < (n - 1) * w {
        lemma_encode_keys_index(prev, w, kind, order, j);
    } else {
        let t = j - (n - 1) * w;
        assert(0 <= t < w) by (nonlinear_arith)
            requires
                (n - 1) * w <= j < n * w,
                t == j - (n - 1) * w,
        ;
        vstd::arithmetic::div_mod::lemma_fundamental_div_mod_converse(j, w as int, n - 1, t);
    }
}

impl Histogram {
    /// The value emitted at a position is the value of the key there.
    pub proof fn lemma_emitted_value(&self, c: int, p: int)
        ensures
            self.emitted_value(c, p) == if 0 <= p < self.emission(c).len() {
                key_value(
                    self.emission(c)[p],
                    sample_layout(self.bits(), self.format()).0,
                    sample_layout(self.bits(), self.format()).1,
                )
            } else {
                0
            },
    {
    }
}

/// Streaming a histogram gives back the wiped buffer: when a buffer of whole
/// pixels has been counted into a histogram (whatever pieces it was counted
/// in), emitting from the start as many samples as the buffer holds gives
/// exactly the bytes that wiping the buffer in place gives.
pub proof fn law_histogram_matches_wipe(data: Seq<u8>, h: Histogram)
    requires
        h.wf(),
        data.len() % (h.channels() * sample_layout(h.bits(), h.format()).0) == 0,
        forall|c: int, k: int|
            0 <= c < h.channels() ==> #[trigger] h.count(c, k) == channel_keys(
                data,
                h.channels(),
                h.bits(),
                h.format(),
                h.byte_order(),
                c as nat,
            ).to_multiset().count(k),
    ensures
        ({
            let spp = h.channels() as int;
            let w = sample_layout(h.bits(), h.format()).0;
            encode_values(
                Seq::new(data.len() / w, |i: int| h.emitted_value(i % spp, i / spp)),
                w,
                h.byte_order(),
            ) == crate::wipe::wiped(data, h.channels(), h.bits(), h.format(), h.byte_order())
        }),
{
    broadcast use vstd::seq_lib::group_to_multiset_ensures;

    let spp = h.channels();
    let bps = h.bits();
    let fmt = h.format();
    let order = h.byte_order();
    let (w, kind) = sample_layout(bps, fmt);
    lemma_layout_valid(bps, fmt);
    lemma_pow256_values();
    assert(w == 1 || w == 2);
    let stride = spp * w;
    assert(stride >= 1) by (nonlinear_arith)
        requires
            spp >= 1,
            w >= 1,
            stride == spp * w,
    ;
    let n = data.len() / w;
    let np = pixel_count(data.len(), spp, w);
    vstd::arithmetic::div_mod::lemma_fundamental_div_mod(data.len() as int, stride as int);
    assert(np == data.len() / stride);
    assert(data.len() == np * stride) by (nonlinear_arith)
        requires
            data.len() == stride * (data.len() / stride) + data.len() % stride,
            data.len() % stride == 0,
            np == data.len() / stride,
    ;
    assert(n == np * spp) by {
        assert(data.len() == (np * spp) * w) by (nonlinear_arith)
            requires
                data.len() == np * stride,
                stride == spp * w,
        ;
        vstd::arithmetic::div_mod::lemma_fundamental_div_mod_converse(
            data.len() as int,
            w as int,
            (np * spp) as int,
            0,
        );
    }
    let vals = Seq::new(n, |i: int| h.emitted_value(i % (spp as int), i / (spp as int)));
    let lhs = encode_values(vals, w, order);
    let rhs = crate::wipe::wiped(data, spp, bps, fmt, order);
    lemma_encode_values_len(vals, w, order);
    assert(lhs.len() == data.len()) by {
        assert(n * w == data.len()) by (nonlinear_arith)
            requires
                n == np * spp,
                data.len() == np * stride,
                stride == spp * w,
        ;
    }
    // The emission of each channel is the sorted keys of that channel.
    assert forall|c: int| 0 <= c < spp implies #[trigger] h.emission(c) == channel_keys(
        data,
        spp,
        bps,
        fmt,
        order,
        c as nat,
    ).sort() && h.emission(c).len() == np by {
        let ck = channel_keys(data, spp, bps, fmt, order, c as nat);
        h.lemma_emission(c);
        assert(h.emission(c).to_multiset() =~= ck.to_multiset());
        lemma_is_sort(ck, h.emission(c));
        assert(h.emission(c).len() == h.emission(c).to_multiset().len());
        assert(ck.len() == ck.to_multiset().len());
        assert(channel_of(data, spp, w, c as nat).len() == np * w);
        assert(((np * w) as nat) / w == np) by (nonlinear_arith)
            requires
                w >= 1,
        ;
    }
    assert forall|i: int| 0 <= i < data.len() implies lhs[i] == rhs[i] by {
        lemma_encode_values_index(vals, w, order, i);
        let s = i / (w as int);
        let t = i % (w as int);
        lemma_decompose(i, spp, w);
        let p = pixel_of(i, spp, w);
        let c = channel_at(i, spp, w);
        assert(t == offset_at(i, spp, w) && s == p * spp + c) by {
            assert(i == (p * spp + c) * w + offset_at(i, spp, w)) by (nonlinear_arith)
                requires
                    i == p * (spp * w) + c * w + offset_at(i, spp, w),
            ;
            vstd::arithmetic::div_mod::lemma_fundamental_div_mod_converse(
                i,
                w as int,
                p * spp + c,
                offset_at(i, spp, w),
            );
        }
        vstd::arithmetic::div_mod::lemma_fundamental_div_mod_converse(s, spp as int, p, c);
        assert(p < np) by (nonlinear_arith)
            requires
                i == p * (spp * w) + c * w + t,
                0 <= c,
                0 <= t,
                i < np * stride,
                stride == spp * w,
        ;
        let ck = channel_keys(data, spp, bps, fmt, order, c as nat);
        let sorted = ck.sort();
        h.lemma_emitted_value(c, p);
        assert(vals[s] == key_value(sorted[p], w, kind));
        let ch = channel_of(data, spp, w, c as nat);
        assert(ch.len() == np * w);
        assert(((np * w) as nat) / w == np) by (nonlinear_arith)
            requires
                w >= 1,
        ;
        assert(sorted.len() == np) by {
            ck.lemma_sort_ensures();
            assert(sorted.len() == sorted.to_multiset().len());
            assert(ck.len() == ck.to_multiset().len());
        }
        assert(np * w - np * w == 0);
        assert(ch.subrange((np * w) as int, ch.len() as int) =~= Seq::<u8>::empty());
        assert(sorted_samples(ch, bps, fmt, order) =~= encode_keys(sorted, w, kind, order));
        assert(p * w + t < np * w) by (nonlinear_arith)
            requires
                p < np,
                0 <= t < w,
        ;
        lemma_encode_keys_index(sorted, w, kind, order, p * w + t);
        vstd::arithmetic::div_mod::lemma_fundamental_div_mod_converse(p * w + t, w as int, p, t);
        if spp <= 1 {
            // One channel: the channel is the whole buffer.
            assert(c == 0);
            assert(ch =~= data) by {
                assert forall|k: int| 0 <= k < data.len() implies #[trigger] ch[k] == data[k] by {
                    crate::pixels::lemma_channel_index(k, w);
                }
            }
            assert(data.subrange((n * w) as int, data.len() as int) =~= Seq::<u8>::empty()) by {
                assert(n * w == data.len()) by (nonlinear_arith)
                    requires
                        n == np * spp,
                        data.len() == np * stride,
                        stride == spp * w,
                ;
            }
            assert(rhs == sorted_samples(data, bps, fmt, order));
            assert(i == p * w + t) by (nonlinear_arith)
                requires
                    i == p * (spp * w) + c * w + t,
                    spp == 1,
                    c == 0,
            ;
        } else {
            assert(crate::wipe::bytes_per_sample(bps) == w);
            assert(i < np * (spp * w));
        }
    }
    crate::wipe::lemma_sorted_samples_len(data, bps, fmt, order);
    assert(rhs.len() == data.len());
    assert(lhs =~= rhs);
}

/// `(q * d + r) / d == q + r / d` for a whole multiple `q * d`.
proof fn lemma_div_shift(q: int, d: int, r: int)
    requires
        d > 0,
        q >= 0,
        r >= 0,
    ensures
        (q * d + r) / d == q + r / d,
        (q * d + r) % d == r % d,
{
    vstd::arithmetic::div_mod::lemma_fundamental_div_mod(r, d);
    assert(q * d + r == (q + r / d) * d + r % d) by (nonlinear_arith)
        requires
            r == d * (r / d) + r % d,
    ;
    vstd::arithmetic::div_mod::lemma_fundamental_div_mod_converse(q * d + r, d, q + r / d, r % d);
}

/// The samples of a buffer that starts with whole samples are those of its
/// two parts.
pub proof fn lemma_sample_keys_concat(
    x: Seq<u8>,
    y: Seq<u8>,
    w: nat,
    kind: SampleKind,
    order: ByteOrder,
)
    requires
        w > 0,
        x.len() % w == 0,
    ensures
        sample_keys(x + y, w, kind, order) == sample_keys(x, w, kind, order) + sample_keys(
            y,
            w,
            kind,
            order,
        ),
{
    let nx = x.len() / w;
    vstd::arithmetic::div_mod::lemma_fundamental_div_mod(x.len() as int, w as int);
    assert(x.len() == nx * w) by (nonlinear_arith)
        requires
            x.len() == w * nx + x.len() % w,
            x.len() % w == 0,
    ;
    lemma_div_shift(nx as int, w as int, y.len() as int);
    let l = sample_keys(x + y, w, kind, order);
    let r = sample_keys(x, w, kind, order) + sample_keys(y, w, kind, order);
    assert(l.len() == r.len());
    assert forall|j: int| 0 <= j < l.len() implies l[j] == r[j] by {
        if j < nx {
            assert(j * w + w <= nx * w) by (nonlinear_arith)
                requires
                    j < nx,
            ;
            assert(sample_bytes(x + y, w, j) =~= sample_bytes(x, w, j));
        } else {
            let jj = j - nx;
            vstd::arithmetic::div_mod::lemma_fundamental_div_mod(y.len() as int, w as int);
            assert(y.len() >= (y.len() / w) * w) by (nonlinear_arith)
                requires
                    y.len() == w * (y.len() / w) + y.len() % w,
                    y.len() % w >= 0,
            ;
            assert(j * w == jj * w + nx * w) by (nonlinear_arith)
                requires
                    jj == j - nx,
            ;
            assert(jj * w + w <= y.len()) by (nonlinear_arith)
                requires
                    j < nx + y.len() / w,
                    jj == j - nx,
                    w > 0,
                    y.len() >= (y.len() / w) * w,
            ;
            assert(sample_bytes(x + y, w, j) =~= sample_bytes(y, w, jj));
        }
    }
    assert(l =~= r);
}

/// Counting a buffer in two pieces, the first made of whole pixels, counts
/// the same samples of each channel as counting it in one piece: the samples
/// of channel `c` of `a + b` are those of `a` followed by those of `b`.
pub proof fn law_channel_keys_split(
    a: Seq<u8>,
    b: Seq<u8>,
    spp: nat,
    bps: u16,
    fmt: u16,
    order: ByteOrder,
    c: nat,
)
    requires
        spp >= 1,
        c < spp,
        a.len() % (spp * sample_layout(bps, fmt).0) == 0,
    ensures
        channel_keys(a + b, spp, bps, fmt, order, c) == channel_keys(a, spp, bps, fmt, order, c)
            + channel_keys(b, spp, bps, fmt, order, c),
{
    let (w, kind) = sample_layout(bps, fmt);
    lemma_layout_valid(bps, fmt);
    let stride = spp * w;
    assert(stride > 0) by (nonlinear_arith)
        requires
            spp >= 1,
            w >= 1,
            stride == spp * w,
    ;
    let na = a.len() / stride;
    vstd::arithmetic::div_mod::lemma_fundamental_div_mod(a.len() as int, stride as int);
    assert(a.len() == na * stride) by (nonlinear_arith)
        requires
            a.len() == stride * na + a.len() % stride,
            a.len() % stride == 0,
    ;
    lemma_div_shift(na as int, stride as int, b.len() as int);
    let ab = a + b;
    let cab = channel_of(ab, spp, w, c);
    let ca = channel_of(a, spp, w, c);
    let cb = channel_of(b, spp, w, c);
    assert(pixel_count(ab.len(), spp, w) == na + pixel_count(b.len(), spp, w));
    assert(cab.len() == ca.len() + cb.len()) by (nonlinear_arith)
        requires
            cab.len() == pixel_count(ab.len(), spp, w) * w,
            ca.len() == na * w,
            cb.len() == pixel_count(b.len(), spp, w) * w,
            pixel_count(ab.len(), spp, w) == na + pixel_count(b.len(), spp, w),
    ;
    lemma_pixels_fit(ab.len(), spp, w);
    assert forall|k: int| 0 <= k < cab.len() implies cab[k] == (ca + cb)[k] by {
        crate::pixels::lemma_channel_index(k, w);
        let p = k / (w as int);
        let t = k % (w as int);
        crate::pixels::lemma_position(p, c as int, t, spp, w);
        let pos = sample_pos(p, c as int, t, spp, w);
        assert(p < pixel_count(ab.len(), spp, w)) by (nonlinear_arith)
            requires
                k == p * w + t,
                0 <= t,
                k < pixel_count(ab.len(), spp, w) * w,
                w > 0,
        ;
        assert(pos < ab.len());
        assert(cab[k] == ab[pos]);
        if k < ca.len() {
            assert(p < na) by (nonlinear_arith)
                requires
                    k == p * w + t,
                    0 <= t,
                    k < na * w,
                    w > 0,
            ;
            assert((p + 1) * stride <= na * stride) by (nonlinear_arith)
                requires
                    p + 1 <= na,
                    stride > 0,
            ;
            assert(pos < a.len());
            assert(ab[pos] == a[pos]);
            assert(ca[k] == a[pos]);
        } else {
            let kk = k - ca.len();
            crate::pixels::lemma_channel_index(kk, w);
            lemma_div_shift(na as int, w as int, kk);
            assert(k == na * w + kk);
            let pp = kk / (w as int);
            assert(p == na + pp && t == kk % (w as int));
            let pos2 = sample_pos(pp, c as int, t, spp, w);
            assert(pos == na * stride + pos2) by (nonlinear_arith)
                requires
                    p == na + pp,
                    stride == spp * w,
                    pos == p * (spp * w) + c * w + t,
                    pos2 == pp * (spp * w) + c * w + t,
            ;
            assert(ab[pos] == b[pos2]);
            assert(cb[kk] == b[pos2]);
        }
    }
    assert(cab =~= ca + cb);
    assert(ca.len() % w == 0) by {
        vstd::arithmetic::div_mod::lemma_fundamental_div_mod_converse(
            ca.len() as int,
            w as int,
            na as int,
            0,
        );
    }
    lemma_sample_keys_concat(ca, cb, w, kind, order);
}

/// Histograms counted in parallel give back the wiped buffer: when two
/// histograms made for the machine's byte order have counted the two parts
/// `x` and `y` of a buffer of whole pixels, their merge streams exactly the
/// bytes that `wipe_buffer` leaves in `x + y`.
pub proof fn law_merged_histograms_match_wipe(x: Seq<u8>, y: Seq<u8>, h1: Histogram, h2: Histogram, h: Histogram)
    requires
        h1.wf(),
        h2.wf(),
        h.wf(),
        h1.channels() == h2.channels(),
        h.channels() == h1.channels(),
        h1.bits() == h2.bits(),
        h1.format() == h2.format(),
        h.bits() == h1.bits(),
        h.format() == h1.format(),
        h1.byte_order() == native_order(),
        h2.byte_order() == native_order(),
        h.byte_order() == native_order(),
        x.len() % (h.channels() * sample_layout(h.bits(), h.format()).0) == 0,
        y.len() % (h.channels() * sample_layout(h.bits(), h.format()).0) == 0,
        forall|c: int, k: int|
            0 <= c < h.channels() ==> #[trigger] h1.count(c, k) == channel_keys(
                x,
                h.channels(),
                h.bits(),
                h.format(),
                native_order(),
                c as nat,
            ).to_multiset().count(k),
        forall|c: int, k: int|
            0 <= c < h.channels() ==> #[trigger] h2.count(c, k) == channel_keys(
                y,
                h.channels(),
                h.bits(),
                h.format(),
                native_order(),
                c as nat,
            ).to_multiset().count(k),
        forall|c: int, k: int|
            0 <= c < h.channels() ==> #[trigger] h.count(c, k) == h1.count(c, k) + h2.count(c, k),
    ensures
        ({
            let spp = h.channels() as int;
            let w = sample_layout(h.bits(), h.format()).0;
            encode_values(
                Seq::new((x + y).len() / w, |i: int| h.emitted_value(i % spp, i / spp)),
                w,
                native_order(),
            ) == crate::wipe::wiped(x + y, h.channels(), h.bits(), h.format(), native_order())
        }),
{
    broadcast use vstd::seq_lib::group_to_multiset_ensures;

    let spp = h.channels();
    let bps = h.bits();
    let fmt = h.format();
    let order = native_order();
    let w = sample_layout(bps, fmt).0;
    lemma_layout_valid(bps, fmt);
    let stride = spp * w;
    assert(stride >= 1) by (nonlinear_arith)
        requires
            spp >= 1,
            w >= 1,
            stride == spp * w,
    ;
    let data = x + y;
    vstd::arithmetic::div_mod::lemma_fundamental_div_mod(x.len() as int, stride as int);
    vstd::arithmetic::div_mod::lemma_fundamental_div_mod(y.len() as int, stride as int);
    let qx = x.len() as int / stride as int;
    let qy = y.len() as int / stride as int;
    assert(data.len() == stride * (qx + qy)) by (nonlinear_arith)
        requires
            x.len() == stride * qx + x.len() % stride,
            y.len() == stride * qy + y.len() % stride,
            x.len() % stride == 0,
            y.len() % stride == 0,
            data.len() == x.len() + y.len(),
    ;
    vstd::arithmetic::div_mod::lemma_mod_multiples_basic(qx + qy, stride as int);
    assert((qx + qy) * stride == stride * (qx + qy)) by (nonlinear_arith);
    assert forall|c: int, k: int| 0 <= c < h.channels() implies #[trigger] h.count(c, k)
        == channel_keys(data, spp, bps, fmt, order, c as nat).to_multiset().count(k) by {
        law_channel_keys_split(x, y, spp, bps, fmt, order, c as nat);
        let kx = channel_keys(x, spp, bps, fmt, order, c as nat);
        let ky = channel_keys(y, spp, bps, fmt, order, c as nat);
        vstd::seq_lib::lemma_multiset_commutative(kx, ky);
        assert(h1.count(c, k) == kx.to_multiset().count(k));
        assert(h2.count(c, k) == ky.to_multiset().count(k));
    }
    law_histogram_matches_wipe(data, h);
}

/// The values emitted for the first `n` samples of a row, starting from the
/// per-channel positions `pos`: sample `i` belongs to channel `i % spp`.
pub open spec fn emitted_row(h: Histogram, pos: Seq<int>, n: nat) -> Seq<int> {
    Seq::new(
        n,
        |i: int|
            h.emitted_value(i % (h.channels() as int), pos[i % (h.channels() as int)] + i / (
            h.channels() as int)),
    )
}

/// Per-channel positions after emitting `n` samples from positions `pos`.
pub open spec fn advanced(h: Histogram, pos: Seq<int>, n: nat) -> Seq<int> {
    Seq::new(
        h.channels(),
        |c: int| min(pos[c] + share(n as int, h.channels() as int, c), h.emission(c).len() as int),
    )
}

/// Emitting a row in two parts, the first of whole pixels, emits the same
/// samples as emitting it at once: synthesis continues where the previous row
/// stopped.
pub proof fn law_rows_continue(h: Histogram, pos: Seq<int>, n1: nat, n2: nat)
    requires
        h.wf(),
        pos.len() == h.channels(),
        forall|c: int| 0 <= c < h.channels() ==> 0 <= #[trigger] pos[c] <= h.emission(c).len(),
        n1 % h.channels() == 0,
    ensures
        emitted_row(h, pos, n1 + n2) == emitted_row(h, pos, n1) + emitted_row(
            h,
            advanced(h, pos, n1),
            n2,
        ),
{
    let spp = h.channels() as int;
    let q = (n1 as int) / spp;
    vstd::arithmetic::div_mod::lemma_fundamental_div_mod(n1 as int, spp);
    assert(q >= 0) by (nonlinear_arith)
        requires
            q == (n1 as int) / spp,
            spp > 0,
    ;
    assert(n1 == q * spp) by (nonlinear_arith)
        requires
            n1 as int == spp * q + (n1 as int) % spp,
            (n1 as int) % spp == 0,
    ;
    let l = emitted_row(h, pos, n1 + n2);
    let r = emitted_row(h, pos, n1) + emitted_row(h, advanced(h, pos, n1), n2);
    assert forall|i: int| 0 <= i < l.len() implies l[i] == r[i] by {
        if i >= n1 {
            let j = i - n1;
            lemma_div_shift(q, spp, j);
            let c = j % spp;
            vstd::arithmetic::div_mod::lemma_mod_pos_bound(j, spp);
            lemma_share(n1 as int, spp, c);
            vstd::arithmetic::div_mod::lemma_fundamental_div_mod_converse(n1 as int, spp, q, 0);
            assert(share(n1 as int, spp, c) == q);
            h.lemma_emitted_value(c, pos[c] + q + j / spp);
            vstd::arithmetic::div_mod::lemma_fundamental_div_mod(j, spp);
            assert(j / spp >= 0) by (nonlinear_arith)
                requires
                    j >= 0,
                    spp > 0,
            ;
            h.lemma_emitted_value(c, advanced(h, pos, n1)[c] + j / spp);
        }
    }
    assert(l =~= r);
}

/// Encoding two runs of samples one after the other gives the encoding of
/// the joined run.
pub proof fn lemma_encode_values_concat(a: Seq<int>, b: Seq<int>, w: nat, order: ByteOrder)
    ensures
        encode_values(a + b, w, order) == encode_values(a, w, order) + encode_values(b, w, order),
    decreases b.len(),
{
    if b.len() == 0 {
        assert(a + b =~= a);
        assert(encode_values(a, w, order) + encode_values(b, w, order) =~= encode_values(a, w, order));
    } else {
        lemma_encode_values_concat(a, b.drop_last(), w, order);
        assert((a + b).drop_last() =~= a + b.drop_last());
        assert((a + b).last() == b.last());
        assert(encode_values(a + b, w, order) =~= encode_values(a, w, order) + encode_values(b, w, order));
    }
}

/// Histograms that hold the same counts emit the same samples: in particular
/// a merge of histograms counted in parts emits what one histogram counted
/// over the whole emits.
pub proof fn law_equal_counts_emit_alike(h1: Histogram, h2: Histogram)
    requires
        h1.wf(),
        h2.wf(),
        h1.channels() == h2.channels(),
        h1.bits() == h2.bits(),
        h1.format() == h2.format(),
        forall|c: int, k: int| 0 <= c < h1.channels() ==> #[trigger] h1.count(c, k) == h2.count(c, k),
    ensures
        forall|c: int| 0 <= c < h1.channels() ==> #[trigger] h1.emission(c) == h2.emission(c),
        forall|c: int, p: int| 0 <= c < h1.channels() ==> #[trigger] h1.emitted_value(c, p)
            == h2.emitted_value(c, p),
        forall|pos: Seq<int>, n: nat| #[trigger] emitted_row(h1, pos, n) == emitted_row(h2, pos, n),
{
    assert forall|c: int| 0 <= c < h1.channels() implies #[trigger] h1.emission(c) == h2.emission(c) by {
        h1.lemma_emission(c);
        h2.lemma_emission(c);
        assert(h1.emission(c).to_multiset() =~= h2.emission(c).to_multiset()) by {
            assert forall|k: int| #[trigger] h1.emission(c).to_multiset().count(k)
                == h2.emission(c).to_multiset().count(k) by {
                assert(h1.count(c, k) == h2.count(c, k));
            }
        }
        crate::sorting::lemma_sorted_unique(h1.emission(c), h2.emission(c));
    }
    assert forall|pos: Seq<int>, n: nat| #[trigger] emitted_row(h1, pos, n) == emitted_row(h2, pos, n) by {
        let spp = h1.channels() as int;
        assert forall|i: int| 0 <= i < n implies emitted_row(h1, pos, n)[i] == emitted_row(h2, pos, n)[i] by {
            vstd::arithmetic::div_mod::lemma_mod_pos_bound(i, spp);
            let c = i % spp;
            assert(h1.emission(c) == h2.emission(c));
        }
        assert(emitted_row(h1, pos, n) =~= emitted_row(h2, pos, n));
    }
}

/// Sum of a sequence of lengths.
pub open spec fn lens_sum(lens: Seq<nat>) -> nat
    decreases lens.len(),
{
    if lens.len() == 0 {
        0
    } else {
        lens[0] + lens_sum(lens.drop_first())
    }
}

/// The bytes of consecutive rows of `lens[0]`, `lens[1]`, ... samples
/// synthesized from the positions `pos` on: each row starts where the
/// previous one stopped.
pub open spec fn streamed_rows(h: Histogram, pos: Seq<int>, lens: Seq<nat>) -> Seq<u8>
    decreases lens.len(),
{
    if lens.len() == 0 {
        Seq::empty()
    } else {
        encode_values(
            emitted_row(h, pos, lens[0]),
            sample_layout(h.bits(), h.format()).0,
            h.byte_order(),
        ) + streamed_rows(h, advanced(h, pos, lens[0]), lens.drop_first())
    }
}

/// Synthesizing in several rows, each but the last of whole pixels, gives
/// the same bytes as synthesizing one row of all their samples: the cursor
/// carries over from row to row.
pub proof fn law_rows_concatenate(h: Histogram, pos: Seq<int>, lens: Seq<nat>)
    requires
        h.wf(),
        pos.len() == h.channels(),
        forall|c: int| 0 <= c < h.channels() ==> 0 <= #[trigger] pos[c] <= h.emission(c).len(),
        forall|i: int| 0 <= i < lens.len() - 1 ==> #[trigger] lens[i] % h.channels() == 0,
    ensures
        streamed_rows(h, pos, lens) == encode_values(
            emitted_row(h, pos, lens_sum(lens)),
            sample_layout(h.bits(), h.format()).0,
            h.byte_order(),
        ),
    decreases lens.len(),
{
    let w = sample_layout(h.bits(), h.format()).0;
    let order = h.byte_order();
    if lens.len() == 0 {
        assert(emitted_row(h, pos, 0) =~= Seq::<int>::empty());
        assert(encode_values(Seq::<int>::empty(), w, order) =~= Seq::<u8>::empty());
    } else if lens.len() == 1 {
        let rest = lens.drop_first();
        assert(rest.len() == 0);
        assert(lens_sum(rest) == 0);
        assert(lens_sum(lens) == lens[0]);
        assert(streamed_rows(h, advanced(h, pos, lens[0]), rest) =~= Seq::<u8>::empty());
        assert(streamed_rows(h, pos, lens) =~= encode_values(emitted_row(h, pos, lens[0]), w, order));
    } else {
        let rest = lens.drop_first();
        let p2 = advanced(h, pos, lens[0]);
        assert forall|c: int| 0 <= c < h.channels() implies 0 <= #[trigger] p2[c] <= h.emission(c).len() by {
            lemma_share(lens[0] as int, h.channels() as int, c);
        }
        assert forall|i: int| 0 <= i < rest.len() - 1 implies #[trigger] rest[i] % h.channels() == 0 by {
            assert(rest[i] == lens[i + 1]);
        }
        law_rows_concatenate(h, p2, rest);
        assert(lens[0] % h.channels() == 0);
        law_rows_continue(h, pos, lens[0], lens_sum(rest));
        lemma_encode_values_concat(
            emitted_row(h, pos, lens[0]),
            emitted_row(h, p2, lens_sum(rest)),
            w,
            order,
        );
    }
}

/// Streaming a histogram row by row gives back the wiped buffer: when a
/// buffer of whole pixels has been counted, rows of whole pixels synthesized
/// one after the other from a fresh synthesizer, as many samples in all as
/// the buffer holds, are exactly the bytes that wiping the buffer gives.
pub proof fn law_streamed_rows_match_wipe(data: Seq<u8>, h: Histogram, lens: Seq<nat>)
    requires
        h.wf(),
        data.len() % (h.channels() * sample_layout(h.bits(), h.format()).0) == 0,
        forall|c: int, k: int|
            0 <= c < h.channels() ==> #[trigger] h.count(c, k) == channel_keys(
                data,
                h.channels(),
                h.bits(),
                h.format(),
                h.byte_order(),
                c as nat,
            ).to_multiset().count(k),
        forall|i: int| 0 <= i < lens.len() - 1 ==> #[trigger] lens[i] % h.channels() == 0,
        lens_sum(lens) == data.len() / sample_layout(h.bits(), h.format()).0,
    ensures
        streamed_rows(h, Seq::new(h.channels(), |c: int| 0int), lens) == crate::wipe::wiped(
            data,
            h.channels(),
            h.bits(),
            h.format(),
            h.byte_order(),
        ),
{
    let spp = h.channels() as int;
    let w = sample_layout(h.bits(), h.format()).0;
    let zeros = Seq::new(h.channels(), |c: int| 0int);
    assert forall|c: int| 0 <= c < h.channels() implies 0 <= #[trigger] zeros[c] <= h.emission(c).len() by {}
    law_rows_concatenate(h, zeros, lens);
    law_histogram_matches_wipe(data, h);
    let n = lens_sum(lens);
    assert forall|i: int| 0 <= i < n implies #[trigger] emitted_row(h, zeros, n)[i] == h.emitted_value(
        i % spp,
        i / spp,
    ) by {
        vstd::arithmetic::div_mod::lemma_mod_pos_bound(i, spp);
    }
    assert(emitted_row(h, zeros, n) =~= Seq::new(n, |i: int| h.emitted_value(i % spp, i / spp)));
}

/// A histogram emits each channel's samples in the numeric order of their
/// type: signed 8- and 16-bit samples in ascending two's complement order,
/// starting at the most negative value, unsigned ones in ascending order.
pub proof fn law_emission_ordered(h: Histogram, c: int, p1: int, p2: int)
    requires
        h.wf(),
        0 <= c < h.channels(),
        0 <= p1 <= p2 < h.emission(c).len(),
    ensures
        ({
            let w = (h.bits() / 8) as nat;
            let a = h.emitted_value(c, p1);
            let b = h.emitted_value(c, p2);
            &&& 0 <= a < pow256(w)
            &&& 0 <= b < pow256(w)
            &&& h.format() == SAMPLEFORMAT_INT ==> signed_value(a as nat, w) <= signed_value(
                b as nat,
                w,
            )
            &&& h.format() == SAMPLEFORMAT_UINT ==> a <= b
        }),
{
    let (w, kind) = sample_layout(h.bits(), h.format());
    lemma_layout_valid(h.bits(), h.format());
    h.lemma_emission(c);
    let e = h.emission(c);
    let k1 = e[p1];
    let k2 = e[p2];
    assert(k1 <= k2);
    lemma_value_roundtrip(k1, w, kind);
    lemma_value_roundtrip(k2, w, kind);
    let a = key_value(k1, w, kind);
    let b = key_value(k2, w, kind);
    assert(w == (h.bits() / 8) as nat);
    lemma_key_rank(a as nat, w, kind);
    lemma_key_rank(b as nat, w, kind);
}

} // verus!
