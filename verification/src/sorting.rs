//! Sorting the samples of a byte buffer in place by their numeric order.
//!
//! A buffer of samples of width `w` is read as `len / w` whole samples followed
//! by a tail of fewer than `w` bytes; the samples are sorted by key and written
//! back, the tail is left as it was.

use vstd::prelude::*;
use rayon::slice::ParallelSliceMut;
use crate::sample::{
    ByteOrder, SampleKind, chunk_bytes, chunk_value, key_of, key_value, lemma_chunk_bytes_len,
    lemma_chunk_value_bound, lemma_pow256_values, pow256, read_sample, sort_key, valid_width,
    value_of, write_sample,
};
use crate::tiff::{SAMPLEFORMAT_INT, SAMPLEFORMAT_IEEEFP};

verus! {

/// Ascending order of a sequence of integers.
pub open spec fn ascending(s: Seq<int>) -> bool {
    forall|i: int, j: int| 0 <= i <= j < s.len() ==> s[i] <= s[j]
}

/// A sequence of `u64` taken as integers.
pub open spec fn as_ints(s: Seq<u64>) -> Seq<int> {
    s.map_values(|x: u64| x as int)
}

/// The width in bytes and the ordering of the samples of a TIFF sample type
/// (bits per sample, sample format), as the sort treats them. Depths other
/// than 16, 24, 32 and 64 bits, and 8-bit data other than signed, are sorted
/// byte by byte as unsigned values; 16- and 24-bit floats are sorted by bit
/// pattern.
pub open spec fn sample_layout(bps: u16, fmt: u16) -> (nat, SampleKind) {
    if bps == 8 && fmt == SAMPLEFORMAT_INT {
        (1, SampleKind::Signed)
    } else if bps == 16 {
        if fmt == SAMPLEFORMAT_INT {
            (2, SampleKind::Signed)
        } else {
            (2, SampleKind::Unsigned)
        }
    } else if bps == 24 {
        if fmt == SAMPLEFORMAT_INT {
            (3, SampleKind::Signed)
        } else {
            (3, SampleKind::Unsigned)
        }
    } else if bps == 32 || bps == 64 {
        let w: nat = if bps == 32 {
            4
        } else {
            8
        };
        if fmt == SAMPLEFORMAT_IEEEFP {
            (w, SampleKind::Float)
        } else if fmt == SAMPLEFORMAT_INT {
            (w, SampleKind::Signed)
        } else {
            (w, SampleKind::Unsigned)
        }
    } else {
        (1, SampleKind::Unsigned)
    }
}

/// The bytes of the `i`-th `w`-byte sample of a buffer.
pub open spec fn sample_bytes(buf: Seq<u8>, w: nat, i: int) -> Seq<u8> {
    buf.subrange(i * w, i * w + w)
}

/// Value of the `i`-th `w`-byte sample of a buffer stored in byte order
/// `order`.
pub open spec fn sample_at(buf: Seq<u8>, w: nat, i: int, order: ByteOrder) -> nat {
    chunk_value(sample_bytes(buf, w, i), order)
}

/// The sorted form of a sequence of integers is in ascending order.
pub proof fn lemma_sort_ascending(a: Seq<int>)
    ensures
        ascending(a.sort()),
        a.sort().len() == a.len(),
{
    broadcast use vstd::seq_lib::group_to_multiset_ensures;

    a.lemma_sort_ensures();
    let t = a.sort();
    assert(t.len() == t.to_multiset().len());
    assert(a.len() == a.to_multiset().len());
    assert forall|i: int, j: int| 0 <= i <= j < t.len() implies t[i] <= t[j] by {
        if i < j {
            assert(vstd::relations::sorted_by(t, |x: int, y: int| x <= y));
            let leq = |x: int, y: int| x <= y;
            assert(leq(t[i], t[j]));
        }
    }
}

/// Keys of the whole `w`-byte samples of a buffer, in buffer order.
pub open spec fn sample_keys(buf: Seq<u8>, w: nat, kind: SampleKind, order: ByteOrder) -> Seq<int>
    recommends
        w > 0,
{
    Seq::new(
        buf.len() / w,
        |i: int| sort_key(chunk_value(sample_bytes(buf, w, i), order) as int, w, kind),
    )
}

/// The bytes of the samples whose keys are `keys`, one after the other.
pub open spec fn encode_keys(keys: Seq<int>, w: nat, kind: SampleKind, order: ByteOrder) -> Seq<u8>
    decreases keys.len(),
{
    if keys.len() == 0 {
        Seq::empty()
    } else {
        encode_keys(keys.drop_last(), w, kind, order) + chunk_bytes(
            key_value(keys.last(), w, kind) as nat,
            w,
            order,
        )
    }
}

/// A buffer of samples after an in-place sort: the whole samples in ascending
/// order of their keys, then the unchanged tail.
pub open spec fn sorted_samples(buf: Seq<u8>, bps: u16, fmt: u16, order: ByteOrder) -> Seq<u8> {
    let (w, kind) = sample_layout(bps, fmt);
    let n = buf.len() / w;
    encode_keys(sample_keys(buf, w, kind, order).sort(), w, kind, order) + buf.subrange(
        (n * w) as int,
        buf.len() as int,
    )
}

pub proof fn lemma_layout_valid(bps: u16, fmt: u16)
    ensures
        valid_width(sample_layout(bps, fmt).0),
        sample_layout(bps, fmt).0 <= 8,
        sample_layout(bps, fmt).0 >= 1,
{
}

/// A sorted permutation of a sequence of integers is unique.
pub proof fn lemma_sorted_unique(a: Seq<int>, b: Seq<int>)
    requires
        ascending(a),
        ascending(b),
        a.to_multiset() == b.to_multiset(),
    ensures
        a == b,
    decreases a.len(),
{
    broadcast use vstd::seq_lib::group_to_multiset_ensures;

    assert(a.len() == a.to_multiset().len());
    assert(b.len() == b.to_multiset().len());
    if a.len() > 0 {
        assert(a.contains(a[0]));
        assert(b.to_multiset().count(a[0]) > 0);
        assert(b.contains(a[0]));
        let j = choose|j: int| 0 <= j < b.len() && b[j] == a[0];
        assert(b[0] <= a[0]);
        assert(b.contains(b[0]));
        assert(a.to_multiset().count(b[0]) > 0);
        assert(a.contains(b[0]));
        let k = choose|k: int| 0 <= k < a.len() && a[k] == b[0];
        assert(a[0] <= b[0]);
        assert(a.remove(0) =~= a.drop_first());
        assert(b.remove(0) =~= b.drop_first());
        assert(a.drop_first().to_multiset() =~= b.drop_first().to_multiset());
        lemma_sorted_unique(a.drop_first(), b.drop_first());
        assert(a =~= b) by {
            assert forall|i: int| 0 <= i < a.len() implies a[i] == b[i] by {
                if i > 0 {
                    assert(a[i] == a.drop_first()[i - 1]);
                    assert(b[i] == b.drop_first()[i - 1]);
                }
            }
        }
    }
}

/// The sorted permutation of `a` is `a.sort()`.
pub proof fn lemma_is_sort(a: Seq<int>, s: Seq<int>)
    requires
        ascending(s),
        s.to_multiset() == a.to_multiset(),
    ensures
        s == a.sort(),
{
    a.lemma_sort_ensures();
    let t = a.sort();
    assert(ascending(t)) by {
        assert forall|i: int, j: int| 0 <= i <= j < t.len() implies t[i] <= t[j] by {
            if i < j {
                assert(vstd::relations::sorted_by(t, |x: int, y: int| x <= y));
                let leq = |x: int, y: int| x <= y;
                assert(leq(t[i], t[j]));
            }
        }
    }
    lemma_sorted_unique(s, t);
}

/// Every element of a permutation of a bounded sequence is bounded.
pub proof fn lemma_permutation_bounded(a: Seq<int>, b: Seq<int>, bound: int)
    requires
        a.to_multiset() == b.to_multiset(),
        forall|i: int| 0 <= i < b.len() ==> 0 <= #[trigger] b[i] < bound,
    ensures
        forall|i: int| 0 <= i < a.len() ==> 0 <= #[trigger] a[i] < bound,
{
    broadcast use vstd::seq_lib::group_to_multiset_ensures;

    assert forall|i: int| 0 <= i < a.len() implies 0 <= #[trigger] a[i] < bound by {
        assert(a.contains(a[i]));
        assert(b.to_multiset().count(a[i]) > 0);
        assert(b.contains(a[i]));
    }
}

pub proof fn lemma_encode_keys_len(keys: Seq<int>, w: nat, kind: SampleKind, order: ByteOrder)
    ensures
        encode_keys(keys, w, kind, order).len() == keys.len() * w,
    decreases keys.len(),
{
    if keys.len() > 0 {
        lemma_encode_keys_len(keys.drop_last(), w, kind, order);
        lemma_chunk_bytes_len(key_value(keys.last(), w, kind) as nat, w, order);
        assert((keys.len() - 1) * w + w == keys.len() * w) by (nonlinear_arith);
    }
}

/// Sorts a vector of `u64` in parallel (rayon's `par_sort_unstable`).
#[verifier::external_body]
fn par_sort_unstable_u64(v: &mut Vec<u64>)
    ensures
        ascending(as_ints(final(v)@)),
        as_ints(final(v)@).to_multiset() == as_ints(old(v)@).to_multiset(),
{
    v.par_sort_unstable();
}

/// The byte order of the machine that runs the code, after vstd's
/// `endianness()`.
pub open spec fn native_order() -> ByteOrder {
    match vstd::endian::endianness() {
        vstd::endian::Endian::Little => ByteOrder::Little,
        vstd::endian::Endian::Big => ByteOrder::Big,
    }
}

/// `u16::from_ne_bytes([1, 0])`, which reads the two bytes in the machine's
/// own byte order: 1 on a little-endian machine, 256 on a big-endian one.
#[verifier::external_body]
fn native_probe() -> (r: u16)
    ensures
        r == (if native_order() == ByteOrder::Little {
            1u16
        } else {
            256u16
        }),
{
    u16::from_ne_bytes([1, 0])
}

/// The byte order of the machine, in which samples handed over by the TIFF
/// codec are stored.
pub fn native_byte_order() -> (r: ByteOrder)
    ensures
        r == native_order(),
{
    if native_probe() == 1 {
        ByteOrder::Little
    } else {
        ByteOrder::Big
    }
}

/// Width and ordering of a sample type (see `sample_layout`).
pub fn layout_of(bps: u16, fmt: u16) -> (r: (usize, SampleKind))
    ensures
        r.0 as nat == sample_layout(bps, fmt).0,
        r.1 == sample_layout(bps, fmt).1,
{
    if bps == 8 && fmt == SAMPLEFORMAT_INT {
        (1, SampleKind::Signed)
    } else if bps == 16 {
        if fmt == SAMPLEFORMAT_INT {
            (2, SampleKind::Signed)
        } else {
            (2, SampleKind::Unsigned)
        }
    } else if bps == 24 {
        if fmt == SAMPLEFORMAT_INT {
            (3, SampleKind::Signed)
        } else {
            (3, SampleKind::Unsigned)
        }
    } else if bps == 32 || bps == 64 {
        let w: usize = if bps == 32 {
            4
        } else {
            8
        };
        if fmt == SAMPLEFORMAT_IEEEFP {
            (w, SampleKind::Float)
        } else if fmt == SAMPLEFORMAT_INT {
            (w, SampleKind::Signed)
        } else {
            (w, SampleKind::Unsigned)
        }
    } else {
        (1, SampleKind::Unsigned)
    }
}

/// Sorts the samples of `buf`, stored in byte order `order`, by their numeric
/// order for the sample type (`bps`, `fmt`); a tail shorter than one sample is
/// left in place.
pub fn sort_samples_in_order(buf: &mut [u8], bps: u16, fmt: u16, order: ByteOrder)
    ensures
        final(buf)@ == sorted_samples(old(buf)@, bps, fmt, order),
{
    let ghost orig = buf@;
    let len = buf.len();
    let (w, kind) = layout_of(bps, fmt);
    proof {
        lemma_layout_valid(bps, fmt);
        lemma_pow256_values();
    }
    let n = len / w;
    let ghost keys_spec = sample_keys(orig, w as nat, kind, order);
    assert(n * w <= len) by (nonlinear_arith)
        requires
            n == len / w,
            w >= 1,
    ;
    let mut keys: Vec<u64> = Vec::with_capacity(n);
    let mut i: usize = 0;
    let mut pos: usize = 0;
    while i < n
        invariant
            buf@ == orig,
            len == orig.len(),
            valid_width(w as nat),
            w <= 8,
            n == len / w,
            n * w <= len,
            i <= n,
            pos == i * w,
            keys_spec == sample_keys(orig, w as nat, kind, order),
            as_ints(keys@) == keys_spec.take(i as int),
            forall|j: int| 0 <= j < keys@.len() ==> (#[trigger] keys@[j]) < pow256(w as nat),
        decreases n - i,
    {
        assert(pos + w <= len) by (nonlinear_arith)
            requires
                pos == i * w,
                i < n,
                n * w <= len,
        ;
        let v = read_sample(buf, pos, w, order);
        proof {
            lemma_chunk_value_bound(orig.subrange(pos as int, pos + w), order);
        }
        let k = key_of(v, w, kind);
        let ghost old_keys = keys@;
        keys.push(k);
        proof {
            assert(sample_bytes(orig, w as nat, i as int) == orig.subrange(pos as int, pos + w));
            assert(keys_spec.len() == n);
            assert(keys_spec[i as int] == k as int);
            assert(as_ints(keys@) =~= as_ints(old_keys).push(k as int));
            assert(as_ints(keys@) =~= keys_spec.take(i + 1));
        }
        assert(pos + w == (i + 1) * w) by (nonlinear_arith)
            requires
                pos == i * w,
        ;
        pos = pos + w;
        i = i + 1;
    }
    proof {
        assert(keys_spec.take(n as int) =~= keys_spec);
        assert(forall|j: int| 0 <= j < as_ints(keys@).len() ==> 0 <= #[trigger] as_ints(keys@)[j] < pow256(w as nat));
    }
    let ghost before = as_ints(keys@);
    par_sort_unstable_u64(&mut keys);
    let ghost ks = as_ints(keys@);
    proof {
        broadcast use vstd::seq_lib::group_to_multiset_ensures;
        assert(ks.len() == ks.to_multiset().len());
        assert(before.len() == before.to_multiset().len());
        assert(keys@.len() == n);
        lemma_permutation_bounded(ks, before, pow256(w as nat) as int);
        lemma_is_sort(keys_spec, ks);
        assert(orig.subrange(0, orig.len() as int) =~= orig);
        assert(encode_keys(ks.take(0), w as nat, kind, order) =~= Seq::<u8>::empty());
        assert(buf@ =~= encode_keys(ks.take(0), w as nat, kind, order) + orig.subrange(0, len as int));
    }
    i = 0;
    pos = 0;
    while i < n
        invariant
            len == orig.len(),
            buf@.len() == len,
            valid_width(w as nat),
            w <= 8,
            n == len / w,
            n * w <= len,
            i <= n,
            pos == i * w,
            keys@.len() == n,
            ks == as_ints(keys@),
            forall|j: int| 0 <= j < ks.len() ==> 0 <= #[trigger] ks[j] < pow256(w as nat),
            buf@ == encode_keys(ks.take(i as int), w as nat, kind, order) + orig.subrange(
                pos as int,
                len as int,
            ),
        decreases n - i,
    {
        assert(pos + w <= len) by (nonlinear_arith)
            requires
                pos == i * w,
                i < n,
                n * w <= len,
        ;
        assert(ks[i as int] == keys@[i as int] as int);
        let v = value_of(keys[i], w, kind);
        let ghost prev = buf@;
        write_sample(buf, pos, w, v, order);
        proof {
            let chunk = chunk_bytes(v as nat, w as nat, order);
            lemma_chunk_bytes_len(v as nat, w as nat, order);
            lemma_encode_keys_len(ks.take(i as int), w as nat, kind, order);
            assert(ks.take(i + 1).drop_last() =~= ks.take(i as int));
            assert(ks.take(i + 1).last() == ks[i as int]);
            assert(encode_keys(ks.take(i + 1), w as nat, kind, order) == encode_keys(
                ks.take(i as int),
                w as nat,
                kind,
                order,
            ) + chunk);
            assert(i * w == pos);
            assert(buf@ =~= encode_keys(ks.take(i + 1), w as nat, kind, order) + orig.subrange(
                pos + w,
                len as int,
            ));
        }
        assert(pos + w == (i + 1) * w) by (nonlinear_arith)
            requires
                pos == i * w,
        ;
        pos = pos + w;
        i = i + 1;
    }
    proof {
        assert(ks.take(n as int) =~= ks);
    }
}

} // verus!
