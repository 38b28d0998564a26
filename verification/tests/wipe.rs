use tiff_reducer::tiff::{SAMPLEFORMAT_IEEEFP, SAMPLEFORMAT_INT, SAMPLEFORMAT_UINT};
use tiff_reducer::wipe::{sort_samples, wipe_buffer, Histogram};

/// Simple deterministic pseudo-random byte generator (LCG)
fn pseudo_random_bytes(n: usize, seed: u64) -> Vec<u8> {
    let mut state = seed;
    (0..n)
        .map(|_| {
            state = state
                .wrapping_mul(6364136223846793005)
                .wrapping_add(1442695040888963407);
            (state >> 33) as u8
        })
        .collect()
}

/// Histogram streaming must produce exactly the same bytes as the
/// reference sort path, for any (spp, bps, fmt) it supports.
fn assert_histogram_matches_sort(data: &[u8], spp: usize, bps: u16, fmt: u16) {
    // Reference: sort path
    let mut expected = data.to_vec();
    wipe_buffer(&mut expected, spp, bps, fmt);

    // Histogram path, accumulated in two unequal chunks to exercise merge
    let stride = spp * (bps as usize / 8);
    let split = (data.len() / stride / 3) * stride;
    let mut h1 = Histogram::new(spp, bps, fmt);
    h1.accumulate(&data[..split]);
    let mut h2 = Histogram::new(spp, bps, fmt);
    h2.accumulate(&data[split..]);
    let hist = h1.merge(h2);

    // Synthesize in several rows to exercise cursor continuation
    let mut synth = hist.synthesizer();
    let mut produced = vec![0u8; data.len()];
    let row_size = (data.len() / 4 / stride).max(1) * stride;
    for chunk in produced.chunks_mut(row_size) {
        synth.synthesize_row(chunk);
    }

    assert_eq!(produced, expected, "spp={} bps={} fmt={}", spp, bps, fmt);
}

#[test]
fn histogram_matches_sort_u8() {
    let data = pseudo_random_bytes(4096, 1);
    assert_histogram_matches_sort(&data, 1, 8, SAMPLEFORMAT_UINT);
    assert_histogram_matches_sort(&data, 1, 8, SAMPLEFORMAT_INT);
}

#[test]
fn histogram_matches_sort_u8_interleaved() {
    let data = pseudo_random_bytes(3 * 1024, 2);
    assert_histogram_matches_sort(&data, 3, 8, SAMPLEFORMAT_UINT);
}

#[test]
fn histogram_matches_sort_u16() {
    let data = pseudo_random_bytes(8192, 3);
    assert_histogram_matches_sort(&data, 1, 16, SAMPLEFORMAT_UINT);
}

#[test]
fn histogram_matches_sort_i16_signed_order() {
    // Include extreme signed values explicitly
    let mut data: Vec<u8> = [0i16, -1, 1, i16::MIN, i16::MAX, -32767, 32766, 100, -100, 0]
        .iter()
        .flat_map(|v| v.to_ne_bytes())
        .collect();
    data.extend(pseudo_random_bytes(4096, 4));
    assert_histogram_matches_sort(&data, 1, 16, SAMPLEFORMAT_INT);
}

#[test]
fn histogram_matches_sort_u16_interleaved() {
    let data = pseudo_random_bytes(2 * 3 * 512, 5);
    assert_histogram_matches_sort(&data, 3, 16, SAMPLEFORMAT_UINT);
}

#[test]
fn sort_u8_preserves_histogram() {
    let original: Vec<u8> = vec![42, 0, 255, 7, 7, 128, 0, 200];
    let mut wiped = original.clone();
    sort_samples(&mut wiped, 8, SAMPLEFORMAT_UINT);

    let mut expected = original;
    expected.sort_unstable();
    assert_eq!(wiped, expected);
}

#[test]
fn sort_u16_preserves_histogram() {
    let original: Vec<u16> = vec![1000, 0, 65535, 42, 42, 30000];
    let mut bytes: Vec<u8> = original.iter().flat_map(|v| v.to_ne_bytes()).collect();
    sort_samples(&mut bytes, 16, SAMPLEFORMAT_UINT);

    let wiped: Vec<u16> = bytes
        .chunks_exact(2)
        .map(|c| u16::from_ne_bytes([c[0], c[1]]))
        .collect();
    let mut expected = original;
    expected.sort_unstable();
    assert_eq!(wiped, expected);
}

#[test]
fn sort_f32_preserves_histogram_and_stats() {
    let original: Vec<f32> = vec![3.5, -1.0, 0.0, 100.25, -1.0, 7.125];
    let mut bytes: Vec<u8> = original.iter().flat_map(|v| v.to_ne_bytes()).collect();
    sort_samples(&mut bytes, 32, SAMPLEFORMAT_IEEEFP);

    let wiped: Vec<f32> = bytes
        .chunks_exact(4)
        .map(|c| f32::from_ne_bytes(c.try_into().unwrap()))
        .collect();

    let mut expected = original.clone();
    expected.sort_unstable_by(|a, b| a.total_cmp(b));
    assert_eq!(wiped, expected);

    // min/max/sum (and thus mean) are exactly preserved
    let sum_orig: f32 = original.iter().sum();
    let sum_wiped: f32 = wiped.iter().sum();
    assert_eq!(wiped.first(), original.iter().min_by(|a, b| a.total_cmp(b)));
    assert_eq!(wiped.last(), original.iter().max_by(|a, b| a.total_cmp(b)));
    assert!((sum_orig - sum_wiped).abs() < 1e-3);
}

#[test]
fn wipe_interleaved_preserves_per_channel_histogram() {
    // RGB pixels: R={10,30,20}, G={100,90,110}, B={5,5,200}
    let original: Vec<u8> = vec![10, 100, 5, 30, 90, 5, 20, 110, 200];
    let mut wiped = original.clone();
    wipe_buffer(&mut wiped, 3, 8, SAMPLEFORMAT_UINT);

    for c in 0..3 {
        let mut orig_ch: Vec<u8> = original.iter().skip(c).step_by(3).copied().collect();
        let mut wiped_ch: Vec<u8> = wiped.iter().skip(c).step_by(3).copied().collect();
        orig_ch.sort_unstable();
        // Wiped channel is already sorted; verify same multiset
        assert_eq!(wiped_ch, orig_ch);
        wiped_ch.sort_unstable();
        assert_eq!(wiped_ch, orig_ch);
    }
}
