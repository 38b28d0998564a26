//! Samples stored in byte buffers: reading and writing a multi-byte sample in a
//! given byte order, and the integer key by which samples of each TIFF sample
//! type are put in ascending order.

use vstd::prelude::*;
use vstd::arithmetic::div_mod::{lemma_breakdown, lemma_div_denominator};

verus! {

/// Order of the bytes of a multi-byte sample in memory.
#[derive(Clone, Copy, PartialEq, Eq, Debug, Structural)]
pub enum ByteOrder {
    Little,
    Big,
}

/// How the bits of a sample are ordered when samples are sorted.
#[derive(Clone, Copy, PartialEq, Eq, Debug, Structural)]
pub enum SampleKind {
    /// Unsigned integer: ordered by value.
    Unsigned,
    /// Two's complement integer: ordered by signed value.
    Signed,
    /// IEEE 754 binary float: ordered by the IEEE total order.
    Float,
}

/// 256 to the power `n`: the number of values of an `n`-byte sample.
pub open spec fn pow256(n: nat) -> nat
    decreases n,
{
    if n == 0 {
        1
    } else {
        256 * pow256((n - 1) as nat)
    }
}

/// Value of a byte sequence read most significant byte first.
pub open spec fn be_value(s: Seq<u8>) -> nat
    decreases s.len(),
{
    if s.len() == 0 {
        0
    } else {
        be_value(s.drop_last()) * 256 + s.last() as nat
    }
}

/// Value of a byte sequence read least significant byte first.
pub open spec fn le_value(s: Seq<u8>) -> nat
    decreases s.len(),
{
    if s.len() == 0 {
        0
    } else {
        s.first() as nat + 256 * le_value(s.drop_first())
    }
}

/// Value of the bytes of one sample in the given byte order.
pub open spec fn chunk_value(s: Seq<u8>, order: ByteOrder) -> nat {
    match order {
        ByteOrder::Big => be_value(s),
        ByteOrder::Little => le_value(s),
    }
}

/// The byte of weight `256^j` in `v`.
pub open spec fn byte_of(v: nat, j: nat) -> u8 {
    ((v / pow256(j)) % 256) as u8
}

/// The `w` lowest-order bytes of `v`, most significant first.
pub open spec fn be_bytes(v: nat, w: nat) -> Seq<u8>
    decreases w,
{
    if w == 0 {
        Seq::empty()
    } else {
        be_bytes(v / 256, (w - 1) as nat).push((v % 256) as u8)
    }
}

/// The `w` lowest-order bytes of `v`, least significant first.
pub open spec fn le_bytes(v: nat, w: nat) -> Seq<u8>
    decreases w,
{
    if w == 0 {
        Seq::empty()
    } else {
        seq![(v % 256) as u8] + le_bytes(v / 256, (w - 1) as nat)
    }
}

/// The `w` bytes that store `v` in the given byte order.
pub open spec fn chunk_bytes(v: nat, w: nat, order: ByteOrder) -> Seq<u8> {
    match order {
        ByteOrder::Big => be_bytes(v, w),
        ByteOrder::Little => le_bytes(v, w),
    }
}

/// `s` with the bytes from `at` on replaced by `t`.
pub open spec fn splice(s: Seq<u8>, at: int, t: Seq<u8>) -> Seq<u8> {
    s.subrange(0, at) + t + s.subrange(at + t.len(), s.len() as int)
}

/// The bytes of `splice(s, at, t)`: those of `t` inside it, those of `s` elsewhere.
pub proof fn lemma_splice_index(s: Seq<u8>, at: int, t: Seq<u8>, k: int)
    requires
        0 <= at,
        at + t.len() <= s.len(),
        0 <= k < s.len(),
    ensures
        splice(s, at, t).len() == s.len(),
        splice(s, at, t)[k] == if at <= k < at + t.len() {
            t[k - at]
        } else {
            s[k]
        },
{
}

/// Half of the value range of a `w`-byte sample: the weight of its top bit.
pub open spec fn half_range(w: nat) -> nat {
    pow256(w) / 2
}

/// Key of a `w`-byte sample of value `v`: the samples' order is the keys' order.
/// Signed samples flip the sign bit; floats follow the IEEE total order, in
/// which negative values (sign bit set) come in reverse order of their bits.
pub open spec fn sort_key(v: int, w: nat, kind: SampleKind) -> int {
    match kind {
        SampleKind::Unsigned => v,
        SampleKind::Signed => if v >= half_range(w) {
            v - half_range(w)
        } else {
            v + half_range(w)
        },
        SampleKind::Float => if v >= half_range(w) {
            pow256(w) - 1 - v
        } else {
            v + half_range(w)
        },
    }
}

/// Value of the `w`-byte sample whose key is `k`.
pub open spec fn key_value(k: int, w: nat, kind: SampleKind) -> int {
    match kind {
        SampleKind::Unsigned => k,
        SampleKind::Signed => if k >= half_range(w) {
            k - half_range(w)
        } else {
            k + half_range(w)
        },
        SampleKind::Float => if k >= half_range(w) {
            k - half_range(w)
        } else {
            pow256(w) - 1 - k
        },
    }
}

/// Value of a `w`-byte two's complement integer whose bits read as `v`.
pub open spec fn signed_value(v: nat, w: nat) -> int {
    if v < pow256(w) / 2 {
        v as int
    } else {
        v - pow256(w)
    }
}

/// Rank of a `w`-byte IEEE float with bits `v` in the IEEE total order: a
/// float with the sign bit clear ranks by its bits, one with the sign bit
/// set by minus its magnitude bits, less one, so that -0 comes just before
/// +0 and larger magnitudes come first.
pub open spec fn float_rank(v: nat, w: nat) -> int {
    if v < pow256(w) / 2 {
        v as int
    } else {
        -((v - pow256(w) / 2) as int) - 1
    }
}

/// The key of a sample is its unsigned value, its two's complement value or
/// its IEEE total-order rank, shifted by the same amount for every sample of
/// the width: keys compare as those do.
pub proof fn lemma_key_rank(v: nat, w: nat, kind: SampleKind)
    requires
        valid_width(w),
        v < pow256(w),
    ensures
        kind == SampleKind::Unsigned ==> sort_key(v as int, w, kind) == v,
        kind == SampleKind::Signed ==> sort_key(v as int, w, kind) == signed_value(v, w)
            + half_range(w),
        kind == SampleKind::Float ==> sort_key(v as int, w, kind) == float_rank(v, w) + half_range(
            w,
        ),
{
    lemma_pow256_values();
}

/// Sample widths in bytes that a sort works on.
pub open spec fn valid_width(w: nat) -> bool {
    w == 1 || w == 2 || w == 3 || w == 4 || w == 8
}

pub proof fn lemma_pow256_values()
    ensures
        pow256(0) == 1,
        pow256(1) == 256,
        pow256(2) == 65536,
        pow256(3) == 0x100_0000,
        pow256(4) == 0x1_0000_0000,
        pow256(8) == 0x1_0000_0000_0000_0000,
{
    reveal_with_fuel(pow256, 9);
}

pub proof fn lemma_pow256_monotonic(a: nat, b: nat)
    requires
        a <= b,
    ensures
        pow256(a) <= pow256(b),
        pow256(a) >= 1,
    decreases b,
{
    if b > a {
        lemma_pow256_monotonic(a, (b - 1) as nat);
    } else if a > 0 {
        lemma_pow256_monotonic((a - 1) as nat, (a - 1) as nat);
    }
}

pub proof fn lemma_be_value_bound(s: Seq<u8>)
    ensures
        be_value(s) < pow256(s.len()),
    decreases s.len(),
{
    if s.len() > 0 {
        lemma_be_value_bound(s.drop_last());
    }
}

pub proof fn lemma_le_value_bound(s: Seq<u8>)
    ensures
        le_value(s) < pow256(s.len()),
    decreases s.len(),
{
    if s.len() > 0 {
        lemma_le_value_bound(s.drop_first());
    }
}

pub proof fn lemma_chunk_value_bound(s: Seq<u8>, order: ByteOrder)
    ensures
        chunk_value(s, order) < pow256(s.len()),
{
    lemma_be_value_bound(s);
    lemma_le_value_bound(s);
}

pub proof fn lemma_be_bytes_len(v: nat, w: nat)
    ensures
        be_bytes(v, w).len() == w,
        le_bytes(v, w).len() == w,
    decreases w,
{
    if w > 0 {
        lemma_be_bytes_len(v / 256, (w - 1) as nat);
    }
}

pub proof fn lemma_chunk_bytes_len(v: nat, w: nat, order: ByteOrder)
    ensures
        chunk_bytes(v, w, order).len() == w,
{
    lemma_be_bytes_len(v, w);
}

/// Reading back the bytes written for `v` gives `v` modulo the width's range.
pub proof fn lemma_be_roundtrip(v: nat, w: nat)
    ensures
        be_value(be_bytes(v, w)) == v % pow256(w),
        le_value(le_bytes(v, w)) == v % pow256(w),
    decreases w,
{
    if w == 0 {
        assert(v % 1 == 0);
    } else {
        let b = be_bytes(v / 256, (w - 1) as nat);
        let l = le_bytes(v / 256, (w - 1) as nat);
        lemma_be_roundtrip(v / 256, (w - 1) as nat);
        assert(b.push((v % 256) as u8).drop_last() =~= b);
        assert((seq![(v % 256) as u8] + l).drop_first() =~= l);
        lemma_pow256_monotonic(0, (w - 1) as nat);
        lemma_breakdown(v as int, 256, pow256((w - 1) as nat) as int);
    }
}

pub proof fn lemma_chunk_roundtrip(v: nat, w: nat, order: ByteOrder)
    requires
        v < pow256(w),
    ensures
        chunk_value(chunk_bytes(v, w, order), order) == v,
{
    lemma_be_roundtrip(v, w);
    lemma_pow256_monotonic(0, w);
    assert(v % pow256(w) == v) by {
        vstd::arithmetic::div_mod::lemma_small_mod(v, pow256(w));
    }
}

/// Writing one more high-order byte in front of the bytes already written.
pub proof fn lemma_be_bytes_prepend(v: nat, j: nat)
    ensures
        be_bytes(v, j + 1) =~= seq![byte_of(v, j)] + be_bytes(v, j),
        le_bytes(v, j + 1) =~= le_bytes(v, j).push(byte_of(v, j)),
    decreases j,
{
    if j == 0 {
        assert(pow256(0) == 1);
        assert(v / 1 == v);
        assert(be_bytes(v / 256, 0) =~= Seq::<u8>::empty());
        assert(le_bytes(v / 256, 0) =~= Seq::<u8>::empty());
        assert(be_bytes(v, 0) =~= Seq::<u8>::empty());
        assert(le_bytes(v, 0) =~= Seq::<u8>::empty());
        assert(be_bytes(v, 1) == be_bytes(v / 256, 0).push((v % 256) as u8));
        assert(le_bytes(v, 1) == seq![(v % 256) as u8] + le_bytes(v / 256, 0));
    } else {
        let jm = (j - 1) as nat;
        let x = (v % 256) as u8;
        lemma_be_bytes_prepend(v / 256, jm);
        lemma_pow256_monotonic(0, jm);
        lemma_div_denominator(v as int, 256, pow256(jm) as int);
        let b = byte_of(v / 256, jm);
        assert(b == byte_of(v, j));
        assert(be_bytes(v, j + 1) == be_bytes(v / 256, j).push(x));
        assert(be_bytes(v, j) == be_bytes(v / 256, jm).push(x));
        assert(be_bytes(v / 256, j) =~= seq![b] + be_bytes(v / 256, jm));
        assert((seq![b] + be_bytes(v / 256, jm)).push(x) =~= seq![b] + be_bytes(v / 256, jm).push(x));
        assert(le_bytes(v, j + 1) == seq![x] + le_bytes(v / 256, j));
        assert(le_bytes(v, j) == seq![x] + le_bytes(v / 256, jm));
        assert(le_bytes(v / 256, j) =~= le_bytes(v / 256, jm).push(b));
        assert(seq![x] + le_bytes(v / 256, jm).push(b) =~= (seq![x] + le_bytes(v / 256, jm)).push(b));
    }
}

pub proof fn lemma_key_roundtrip(v: int, w: nat, kind: SampleKind)
    requires
        valid_width(w),
        0 <= v < pow256(w),
    ensures
        0 <= sort_key(v, w, kind) < pow256(w),
        key_value(sort_key(v, w, kind), w, kind) == v,
{
    lemma_pow256_values();
}

pub proof fn lemma_value_roundtrip(k: int, w: nat, kind: SampleKind)
    requires
        valid_width(w),
        0 <= k < pow256(w),
    ensures
        0 <= key_value(k, w, kind) < pow256(w),
        sort_key(key_value(k, w, kind), w, kind) == k,
{
    lemma_pow256_values();
}

/// The value range of a sample of the given width, as (largest value, top bit).
pub fn width_range(w: usize) -> (r: (u64, u64))
    requires
        valid_width(w as nat),
    ensures
        r.0 == pow256(w as nat) - 1,
        r.1 == half_range(w as nat),
{
    proof {
        lemma_pow256_values();
    }
    if w == 1 {
        (0xff, 0x80)
    } else if w == 2 {
        (0xffff, 0x8000)
    } else if w == 3 {
        (0xff_ffff, 0x80_0000)
    } else if w == 4 {
        (0xffff_ffff, 0x8000_0000)
    } else {
        (0xffff_ffff_ffff_ffff, 0x8000_0000_0000_0000)
    }
}

/// Key of a sample value (see `sort_key`).
pub fn key_of(v: u64, w: usize, kind: SampleKind) -> (k: u64)
    requires
        valid_width(w as nat),
        v < pow256(w as nat),
    ensures
        k == sort_key(v as int, w as nat, kind),
        k < pow256(w as nat),
{
    proof {
        lemma_key_roundtrip(v as int, w as nat, kind);
    }
    let (max, half) = width_range(w);
    match kind {
        SampleKind::Unsigned => v,
        SampleKind::Signed => if v >= half {
            v - half
        } else {
            v + half
        },
        SampleKind::Float => if v >= half {
            max - v
        } else {
            v + half
        },
    }
}

/// Sample value of a key (see `key_value`).
pub fn value_of(k: u64, w: usize, kind: SampleKind) -> (v: u64)
    requires
        valid_width(w as nat),
        k < pow256(w as nat),
    ensures
        v == key_value(k as int, w as nat, kind),
        v < pow256(w as nat),
{
    proof {
        lemma_value_roundtrip(k as int, w as nat, kind);
    }
    let (max, half) = width_range(w);
    match kind {
        SampleKind::Unsigned => k,
        SampleKind::Signed => if k >= half {
            k - half
        } else {
            k + half
        },
        SampleKind::Float => if k >= half {
            k - half
        } else {
            max - k
        },
    }
}

/// Reads the `w`-byte sample that starts at `start`.
pub fn read_sample(buf: &[u8], start: usize, w: usize, order: ByteOrder) -> (v: u64)
    requires
        start + w <= buf@.len(),
        w <= 8,
    ensures
        v == chunk_value(buf@.subrange(start as int, start + w), order),
{
    let len = buf.len();
    let ghost s = buf@.subrange(start as int, start + w);
    proof {
        lemma_pow256_values();
        lemma_pow256_monotonic(w as nat, 8);
    }
    let mut v: u64 = 0;
    match order {
        ByteOrder::Big => {
            let mut i: usize = 0;
            while i < w
                invariant
                    i <= w <= 8,
                    len == buf@.len(),
                    start + w <= buf@.len(),
                    s == buf@.subrange(start as int, start + w),
                    pow256(w as nat) <= 0x1_0000_0000_0000_0000,
                    v == be_value(s.subrange(0, i as int)),
                    v < pow256(i as nat),
                decreases w - i,
            {
                proof {
                    lemma_pow256_monotonic((i + 1) as nat, w as nat);
                    assert(s.subrange(0, i + 1).drop_last() =~= s.subrange(0, i as int));
                }
                v = v * 256 + buf[start + i] as u64;
                i = i + 1;
            }
            proof {
                assert(s.subrange(0, w as int) =~= s);
            }
        },
        ByteOrder::Little => {
            let mut i: usize = w;
            while i > 0
                invariant
                    i <= w <= 8,
                    len == buf@.len(),
                    start + w <= buf@.len(),
                    s == buf@.subrange(start as int, start + w),
                    pow256(w as nat) <= 0x1_0000_0000_0000_0000,
                    v == le_value(s.subrange(i as int, w as int)),
                    v < pow256((w - i) as nat),
                decreases i,
            {
                proof {
                    lemma_pow256_monotonic((w - i + 1) as nat, w as nat);
                    assert(s.subrange(i - 1, w as int).drop_first() =~= s.subrange(
                        i as int,
                        w as int,
                    ));
                }
                v = buf[start + i - 1] as u64 + 256 * v;
                i = i - 1;
            }
            proof {
                assert(s.subrange(0, w as int) =~= s);
            }
        },
    }
    v
}

/// Writes `v` as the `w`-byte sample that starts at `start`.
pub fn write_sample(buf: &mut [u8], start: usize, w: usize, v: u64, order: ByteOrder)
    requires
        start + w <= old(buf)@.len(),
        w <= 8,
        v < pow256(w as nat),
    ensures
        final(buf)@ == splice(old(buf)@, start as int, chunk_bytes(v as nat, w as nat, order)),
        final(buf)@.len() == old(buf)@.len(),
{
    let len = buf.len();
    let ghost orig = buf@;
    let mut x: u64 = v;
    let mut j: usize = 0;
    proof {
        lemma_pow256_values();
        assert(v as nat / pow256(0) == v);
    }
    match order {
        ByteOrder::Big => {
            proof {
                assert(buf@ =~= splice(orig, (start + w) as int, be_bytes(v as nat, 0)));
            }
            while j < w
                invariant
                    j <= w <= 8,
                    start + w <= orig.len(),
                    len == orig.len(),
                    buf@.len() == orig.len(),
                    x as nat == v as nat / pow256(j as nat),
                    buf@ == splice(orig, (start + w - j) as int, be_bytes(v as nat, j as nat)),
                decreases w - j,
            {
                proof {
                    lemma_be_bytes_prepend(v as nat, j as nat);
                    lemma_be_bytes_len(v as nat, j as nat);
                    lemma_be_bytes_len(v as nat, (j + 1) as nat);
                    lemma_pow256_monotonic(0, j as nat);
                    lemma_div_denominator(v as int, pow256(j as nat) as int, 256);
                }
                let pos = start + w - j - 1;
                buf[pos] = (x % 256) as u8;
                proof {
                    assert(buf@ =~= splice(orig, pos as int, be_bytes(v as nat, (j + 1) as nat)));
                }
                x = x / 256;
                j = j + 1;
            }
        },
        ByteOrder::Little => {
            proof {
                assert(buf@ =~= splice(orig, start as int, le_bytes(v as nat, 0)));
            }
            while j < w
                invariant
                    j <= w <= 8,
                    start + w <= orig.len(),
                    len == orig.len(),
                    buf@.len() == orig.len(),
                    x as nat == v as nat / pow256(j as nat),
                    buf@ == splice(orig, start as int, le_bytes(v as nat, j as nat)),
                decreases w - j,
            {
                proof {
                    lemma_be_bytes_prepend(v as nat, j as nat);
                    lemma_be_bytes_len(v as nat, j as nat);
                    lemma_be_bytes_len(v as nat, (j + 1) as nat);
                    lemma_pow256_monotonic(0, j as nat);
                    lemma_div_denominator(v as int, pow256(j as nat) as int, 256);
                }
                let pos = start + j;
                buf[pos] = (x % 256) as u8;
                proof {
                    assert(buf@ =~= splice(orig, start as int, le_bytes(v as nat, (j + 1) as nat)));
                }
                x = x / 256;
                j = j + 1;
            }
        },
    }
}

} // verus!
