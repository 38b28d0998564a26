//! Bit-depth reduction: mapping 16-bit samples to 8 bits by min-max
//! normalization, `(value - min) * 255 / (max - min)`, rounded down.

use vstd::prelude::*;

verus! {

/// Smallest value of a non-empty sequence.
pub open spec fn seq_min(s: Seq<int>) -> int
    decreases s.len(),
{
    if s.len() <= 1 {
        if s.len() == 0 {
            0
        } else {
            s[0]
        }
    } else if s.last() < seq_min(s.drop_last()) {
        s.last()
    } else {
        seq_min(s.drop_last())
    }
}

/// Largest value of a non-empty sequence.
pub open spec fn seq_max(s: Seq<int>) -> int
    decreases s.len(),
{
    if s.len() <= 1 {
        if s.len() == 0 {
            0
        } else {
            s[0]
        }
    } else if s.last() > seq_max(s.drop_last()) {
        s.last()
    } else {
        seq_max(s.drop_last())
    }
}

/// Signed 16-bit samples as integers.
pub open spec fn widen_i16(s: Seq<i16>) -> Seq<int> {
    Seq::new(s.len(), |i: int| s[i] as int)
}

/// Unsigned 16-bit samples as integers.
pub open spec fn widen_u16(s: Seq<u16>) -> Seq<int> {
    Seq::new(s.len(), |i: int| s[i] as int)
}

/// What a quantizer leaves in `out` (previously `old_out`) for the samples
/// `vals`: untouched for no samples, all zero when the samples are all
/// equal, else the 8-bit value of each sample at the indices both have.
pub open spec fn quantized_row(vals: Seq<int>, old_out: Seq<u8>, out: Seq<u8>) -> bool {
    &&& out.len() == old_out.len()
    &&& vals.len() == 0 ==> out == old_out
    &&& vals.len() > 0 && seq_min(vals) == seq_max(vals) ==> forall|i: int|
        0 <= i < out.len() ==> #[trigger] out[i] == 0
    &&& vals.len() > 0 && seq_min(vals) != seq_max(vals) ==> forall|i: int|
        0 <= i < out.len() ==> #[trigger] out[i] == if i < vals.len() {
            quantized((vals[i] - seq_min(vals)) as nat, (seq_max(vals) - seq_min(vals)) as nat)
                as int
        } else {
            old_out[i] as int
        }
}

/// The 8-bit value of a sample `d` above the minimum when the samples span
/// `range`: `d * 255 / range`, rounded down.
pub open spec fn quantized(d: nat, range: nat) -> nat {
    d * 255 / range
}

/// The 8-bit value of a sample `d` above the minimum when the samples span
/// `range`.
fn quantize_sample(d: u32, range: u32) -> (r: u8)
    requires
        d <= range,
        1 <= range <= 65535,
    ensures
        r == quantized(d as nat, range as nat),
{
    assert(d * 255 <= range * 255) by (nonlinear_arith)
        requires
            d <= range,
    ;
    assert((d * 255) as nat / (range as nat) <= 255) by (nonlinear_arith)
        requires
            d * 255 <= range * 255,
            range >= 1,
    ;
    ((d * 255) / range) as u8
}

/// Min-max normalization reaches both ends of the byte range: the minimum
/// maps to 0 and the maximum to 255.
pub proof fn law_quantize_extremes(range: nat)
    requires
        range >= 1,
    ensures
        quantized(0, range) == 0,
        quantized(range, range) == 255,
{
    vstd::arithmetic::div_mod::lemma_div_multiples_vanish(255, range as int);
    assert(range * 255 == 255 * range) by (nonlinear_arith);
}

/// Quantization keeps the order of the samples: a larger sample never gets
/// a smaller 8-bit value.
pub proof fn law_quantize_monotone(d1: nat, d2: nat, range: nat)
    requires
        d1 <= d2,
        range >= 1,
    ensures
        quantized(d1, range) <= quantized(d2, range),
{
    assert(d1 * 255 <= d2 * 255) by (nonlinear_arith)
        requires
            d1 <= d2,
    ;
    vstd::arithmetic::div_mod::lemma_div_is_ordered(
        (d1 * 255) as int,
        (d2 * 255) as int,
        range as int,
    );
}

/// The minimum and maximum bound every element and are elements.
pub proof fn lemma_min_max(s: Seq<int>)
    requires
        s.len() > 0,
    ensures
        forall|i: int| 0 <= i < s.len() ==> seq_min(s) <= #[trigger] s[i] <= seq_max(s),
        exists|i: int| 0 <= i < s.len() && #[trigger] s[i] == seq_min(s),
        exists|i: int| 0 <= i < s.len() && #[trigger] s[i] == seq_max(s),
    decreases s.len(),
{
    if s.len() > 1 {
        let t = s.drop_last();
        lemma_min_max(t);
        assert forall|i: int| 0 <= i < s.len() implies seq_min(s) <= #[trigger] s[i]
            <= seq_max(s) by {
            if i < t.len() {
                assert(s[i] == t[i]);
            }
        }
        let j = choose|j: int| 0 <= j < t.len() && #[trigger] t[j] == seq_min(t);
        let k = choose|k: int| 0 <= k < t.len() && #[trigger] t[k] == seq_max(t);
        assert(s[j] == t[j]);
        assert(s[k] == t[k]);
        assert(s[s.len() - 1] == s.last());
    } else {
        assert(s[0] == seq_min(s));
    }
}

/// Sets every byte of `output` to zero.
fn fill_zero(output: &mut [u8])
    ensures
        final(output)@.len() == old(output)@.len(),
        forall|i: int| 0 <= i < final(output)@.len() ==> #[trigger] final(output)@[i] == 0,
{
    let m = output.len();
    let mut j: usize = 0;
    while j < m
        invariant
            j <= m,
            m == output@.len(),
            forall|k: int| 0 <= k < j ==> #[trigger] output@[k] == 0,
        decreases m - j,
    {
        output[j] = 0;
        j = j + 1;
    }
}

/// Quantizes signed 16-bit samples to 8 bits by min-max normalization.
///
/// `output[i]` receives the normalized value of `input[i]` for every index
/// both slices have. When all samples are equal the whole output is zeroed;
/// an empty input leaves the output untouched.
pub fn quantize_i16_to_u8(input: &[i16], output: &mut [u8])
    ensures
        quantized_row(widen_i16(input@), old(output)@, final(output)@),
{
    let ghost vals = widen_i16(input@);
    let n = input.len();
    if n == 0 {
        return;
    }
    let mut min: i16 = input[0];
    let mut max: i16 = input[0];
    let mut i: usize = 1;
    proof {
        assert(vals.take(1).len() == 1);
        assert(seq_min(vals.take(1)) == vals[0]);
        assert(seq_max(vals.take(1)) == vals[0]);
    }
    while i < n
        invariant
            1 <= i <= n,
            n == input@.len(),
            vals == widen_i16(input@),
            min as int == seq_min(vals.take(i as int)),
            max as int == seq_max(vals.take(i as int)),
        decreases n - i,
    {
        let v = input[i];
        proof {
            assert(vals.take(i + 1).drop_last() =~= vals.take(i as int));
            assert(vals.take(i + 1).last() == v as int);
        }
        if v < min {
            min = v;
        }
        if v > max {
            max = v;
        }
        i = i + 1;
    }
    proof {
        assert(vals.take(n as int) =~= vals);
        lemma_min_max(vals);
    }
    let m = output.len();
    let ghost orig = output@;
    if min == max {
        fill_zero(output);
        return;
    }
    let lo = min as i32;
    let range = (max as i32 - lo) as u32;
    let limit = if n < m {
        n
    } else {
        m
    };
    let mut j: usize = 0;
    while j < limit
        invariant
            j <= limit,
            limit <= n,
            limit <= m,
            n == input@.len(),
            vals == widen_i16(input@),
            m == output@.len(),
            output@.len() == orig.len(),
            lo == seq_min(vals),
            range as int == seq_max(vals) - seq_min(vals),
            1 <= range <= 65535,
            forall|k: int| 0 <= k < vals.len() ==> lo <= #[trigger] vals[k] <= lo + range,
            forall|k: int| 0 <= k < j ==> #[trigger] output@[k] as int == quantized(
                (vals[k] - seq_min(vals)) as nat,
                (seq_max(vals) - seq_min(vals)) as nat,
            ),
            forall|k: int| j <= k < m ==> #[trigger] output@[k] == orig[k],
        decreases limit - j,
    {
        let d = (input[j] as i32 - lo) as u32;
        assert(vals[j as int] == input@[j as int] as int);
        assert(d <= range);
        output[j] = quantize_sample(d, range);
        j = j + 1;
    }
    proof {
        assert forall|k: int| 0 <= k < output@.len() implies #[trigger] output@[k] as int == if k
            < vals.len() {
            quantized((vals[k] - seq_min(vals)) as nat, (seq_max(vals) - seq_min(vals)) as nat)
                as int
        } else {
            orig[k] as int
        } by {
            if k < vals.len() && k >= limit {
                assert(false);
            }
        }
    }
}

/// Quantizes unsigned 16-bit samples to 8 bits by min-max normalization,
/// as `quantize_i16_to_u8` does for signed ones.
pub fn quantize_u16_to_u8(input: &[u16], output: &mut [u8])
    ensures
        quantized_row(widen_u16(input@), old(output)@, final(output)@),
{
    let ghost vals = widen_u16(input@);
    let n = input.len();
    if n == 0 {
        return;
    }
    let mut min: u16 = input[0];
    let mut max: u16 = input[0];
    let mut i: usize = 1;
    proof {
        assert(vals.take(1).len() == 1);
        assert(seq_min(vals.take(1)) == vals[0]);
        assert(seq_max(vals.take(1)) == vals[0]);
    }
    while i < n
        invariant
            1 <= i <= n,
            n == input@.len(),
            vals == widen_u16(input@),
            min as int == seq_min(vals.take(i as int)),
            max as int == seq_max(vals.take(i as int)),
        decreases n - i,
    {
        let v = input[i];
        proof {
            assert(vals.take(i + 1).drop_last() =~= vals.take(i as int));
            assert(vals.take(i + 1).last() == v as int);
        }
        if v < min {
            min = v;
        }
        if v > max {
            max = v;
        }
        i = i + 1;
    }
    proof {
        assert(vals.take(n as int) =~= vals);
        lemma_min_max(vals);
    }
    let m = output.len();
    let ghost orig = output@;
    if min == max {
        fill_zero(output);
        return;
    }
    let lo = min as i32;
    let range = (max as i32 - lo) as u32;
    let limit = if n < m {
        n
    } else {
        m
    };
    let mut j: usize = 0;
    while j < limit
        invariant
            j <= limit,
            limit <= n,
            limit <= m,
            n == input@.len(),
            vals == widen_u16(input@),
            m == output@.len(),
            output@.len() == orig.len(),
            lo == seq_min(vals),
            range as int == seq_max(vals) - seq_min(vals),
            1 <= range <= 65535,
            forall|k: int| 0 <= k < vals.len() ==> lo <= #[trigger] vals[k] <= lo + range,
            forall|k: int| 0 <= k < j ==> #[trigger] output@[k] as int == quantized(
                (vals[k] - seq_min(vals)) as nat,
                (seq_max(vals) - seq_min(vals)) as nat,
            ),
            forall|k: int| j <= k < m ==> #[trigger] output@[k] == orig[k],
        decreases limit - j,
    {
        let d = (input[j] as i32 - lo) as u32;
        assert(vals[j as int] == input@[j as int] as int);
        assert(d <= range);
        output[j] = quantize_sample(d, range);
        j = j + 1;
    }
    proof {
        assert forall|k: int| 0 <= k < output@.len() implies #[trigger] output@[k] as int == if k
            < vals.len() {
            quantized((vals[k] - seq_min(vals)) as nat, (seq_max(vals) - seq_min(vals)) as nat)
                as int
        } else {
            orig[k] as int
        } by {
            if k < vals.len() && k >= limit {
                assert(false);
            }
        }
    }
}

} // verus!
