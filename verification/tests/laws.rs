use tiff_reducer::plan::{
    benchmark_combinations, candidate_formats, candidate_predictors, final_predictor,
    CompressionFormat, Predictor,
};
use tiff_reducer::quantize::{quantize_i16_to_u8, quantize_u16_to_u8};
use tiff_reducer::tiff::{
    COMPRESSION_ZSTD, SAMPLEFORMAT_IEEEFP, SAMPLEFORMAT_INT, SAMPLEFORMAT_UINT,
};
use tiff_reducer::tiles::{accumulate_tile, tile_jobs};
use tiff_reducer::wipe::{sort_samples, wipe_buffer, Histogram};
use tiff_reducer::wipe_page::{plane_sample_count, wipe_predictor};

fn lcg_bytes(n: usize, seed: u64) -> Vec<u8> {
    let mut state = seed;
    (0..n)
        .map(|_| {
            state = state
                .wrapping_mul(6364136223846793005)
                .wrapping_add(1442695040888963407);
            (state >> 40) as u8
        })
        .collect()
}

#[test]
fn wiping_twice_is_wiping_once() {
    for (spp, bps, fmt) in [
        (1usize, 8u16, SAMPLEFORMAT_UINT),
        (3, 8, SAMPLEFORMAT_UINT),
        (2, 16, SAMPLEFORMAT_INT),
        (3, 32, SAMPLEFORMAT_IEEEFP),
        (1, 64, SAMPLEFORMAT_INT),
        (2, 4, SAMPLEFORMAT_UINT),
    ] {
        let data = lcg_bytes(1000, bps as u64 + spp as u64);
        let mut once = data.clone();
        wipe_buffer(&mut once, spp, bps, fmt);
        let mut twice = once.clone();
        wipe_buffer(&mut twice, spp, bps, fmt);
        assert_eq!(once, twice, "spp={} bps={}", spp, bps);
        let mut sorted = data.clone();
        sort_samples(&mut sorted, bps, fmt);
        let mut sorted_again = sorted.clone();
        sort_samples(&mut sorted_again, bps, fmt);
        assert_eq!(sorted, sorted_again);
    }
}

#[test]
fn sort_leaves_partial_tail() {
    let mut buf = vec![9u8, 0, 1, 0, 7];
    sort_samples(&mut buf, 16, SAMPLEFORMAT_UINT);
    let first = u16::from_ne_bytes([buf[0], buf[1]]);
    let second = u16::from_ne_bytes([buf[2], buf[3]]);
    assert!(first <= second);
    assert_eq!(buf[4], 7);
}

#[test]
fn quantized_rows_reach_both_ends() {
    for span in [1u16, 2, 3, 7, 255, 256, 1000, 32767, 40000, 65535] {
        let input: Vec<u16> = vec![span, 0, span / 2];
        let mut out = vec![0u8; 3];
        quantize_u16_to_u8(&input, &mut out);
        assert_eq!(out[1], 0);
        assert_eq!(out[0], 255, "span {}", span);
    }
    let input: Vec<i16> = vec![-32768, -1];
    let mut out = vec![0u8; 2];
    quantize_i16_to_u8(&input, &mut out);
    assert_eq!(out, vec![0, 255]);
    let input: Vec<i16> = vec![32767, -32768];
    let mut out = vec![0u8; 2];
    quantize_i16_to_u8(&input, &mut out);
    assert_eq!(out, vec![255, 0]);
}

#[test]
fn wipe_predictor_is_kept_for_zstd() {
    for bps in [1u16, 4, 8, 12, 16, 24, 32, 64] {
        for fmt in [0u16, SAMPLEFORMAT_UINT, SAMPLEFORMAT_INT, SAMPLEFORMAT_IEEEFP, 4] {
            let p = wipe_predictor(bps, fmt);
            assert_eq!(final_predictor(COMPRESSION_ZSTD, p, bps, fmt), p);
        }
    }
}

#[test]
fn lossy_formats_are_compared_without_predictor() {
    let formats = candidate_formats(false, true, CompressionFormat::Zstd);
    let predictors = candidate_predictors(true, false, true);
    let combos = benchmark_combinations(&formats, &predictors);
    assert_eq!(
        combos,
        vec![
            (CompressionFormat::Webp, Predictor::NoPredictor),
            (CompressionFormat::Jpeg, Predictor::NoPredictor)
        ]
    );
    let extreme = candidate_formats(true, false, CompressionFormat::Zstd);
    let all = benchmark_combinations(&extreme, &predictors);
    assert_eq!(all.len(), 15);
}

#[test]
fn tile_padding_is_not_counted() {
    // A 5x3 image of 8-bit gray in 4x2 tiles: edge tiles are padded with 0xEE
    let (w, h, tw, tl) = (5u32, 3u32, 4u32, 2u32);
    let image: Vec<u8> = (0..15u8).map(|v| v * 3).collect();
    let jobs = tile_jobs(w, h, tw, tl, 0, 1).unwrap();
    let mut from_tiles = Histogram::new(1, 8, SAMPLEFORMAT_UINT);
    for (j, job) in jobs.iter().enumerate() {
        let tx = j % 2;
        let ty = j / 2;
        let mut tile = vec![0xEEu8; (tw * tl) as usize];
        for r in 0..job.actual_height {
            for c in 0..job.actual_width {
                let x = tx * tw as usize + c;
                let y = ty * tl as usize + r;
                tile[r * tw as usize + c] = image[y * w as usize + x];
            }
        }
        accumulate_tile(&mut from_tiles, &tile, job.actual_height, job.actual_width, tw as usize);
    }
    let mut from_rows = Histogram::new(1, 8, SAMPLEFORMAT_UINT);
    from_rows.accumulate(&image);
    assert_eq!(from_tiles.total(), 15);
    assert_eq!(plane_sample_count(5, 1, 3), Some(from_tiles.total()));

    let mut a = vec![0u8; 15];
    from_tiles.synthesizer().synthesize_row(&mut a);
    let mut b = vec![0u8; 15];
    from_rows.synthesizer().synthesize_row(&mut b);
    assert_eq!(a, b);
    let mut sorted = image.clone();
    sorted.sort_unstable();
    assert_eq!(a, sorted);
}

#[test]
fn plane_sample_counts() {
    assert_eq!(plane_sample_count(60, 2, 10), Some(300));
    assert_eq!(plane_sample_count(0, 1, 10), Some(0));
    assert_eq!(plane_sample_count(usize::MAX, 1, u32::MAX), None);
}

#[test]
fn quantization_keeps_sample_order() {
    for span in [1u16, 3, 7, 100, 4095, 32767, 65535] {
        let input: Vec<u16> = (0..=span).step_by(((span as usize) / 97).max(1)).collect();
        let mut out = vec![0u8; input.len()];
        quantize_u16_to_u8(&input, &mut out);
        for pair in out.windows(2) {
            assert!(pair[0] <= pair[1], "span {}", span);
        }
    }
}

/// The three bytes of a 24-bit sample in the machine's byte order.
fn ne24(v: u32) -> [u8; 3] {
    let b = v.to_ne_bytes();
    if u16::from_ne_bytes([1, 0]) == 1 {
        [b[0], b[1], b[2]]
    } else {
        [b[1], b[2], b[3]]
    }
}

fn from_ne24(c: &[u8]) -> u32 {
    if u16::from_ne_bytes([1, 0]) == 1 {
        u32::from_ne_bytes([c[0], c[1], c[2], 0])
    } else {
        u32::from_ne_bytes([0, c[0], c[1], c[2]])
    }
}

#[test]
fn sort_24_bit_keeps_sample_values() {
    let values = [70000u32, 5, 0xff_ffff, 300, 5];
    let mut buf: Vec<u8> = values.iter().flat_map(|&v| ne24(v)).collect();
    buf.push(42);
    sort_samples(&mut buf, 24, SAMPLEFORMAT_UINT);
    let out: Vec<u32> = buf[..15].chunks(3).map(from_ne24).collect();
    assert_eq!(out, vec![5, 5, 300, 70000, 0xff_ffff]);
    assert_eq!(buf[15], 42);
}

#[test]
fn sort_24_bit_signed_order() {
    // -5, 7, -8388608, 8388607 as 24-bit two's complement
    let values = [0xff_fffbu32, 7, 0x80_0000, 0x7f_ffff];
    let mut buf: Vec<u8> = values.iter().flat_map(|&v| ne24(v)).collect();
    sort_samples(&mut buf, 24, SAMPLEFORMAT_INT);
    let out: Vec<u32> = buf.chunks(3).map(from_ne24).collect();
    assert_eq!(out, vec![0x80_0000, 0xff_fffb, 7, 0x7f_ffff]);
}

#[test]
fn wipe_24_bit_channels_keep_their_values() {
    // two interleaved channels of 24-bit samples
    let pixels = [(9u32, 100u32), (1, 300), (5, 200)];
    let mut buf: Vec<u8> = pixels
        .iter()
        .flat_map(|&(a, b)| ne24(a).into_iter().chain(ne24(b)))
        .collect();
    wipe_buffer(&mut buf, 2, 24, SAMPLEFORMAT_UINT);
    let out: Vec<u32> = buf.chunks(3).map(from_ne24).collect();
    assert_eq!(out, vec![1, 100, 5, 200, 9, 300]);
}

#[test]
fn synthesized_signed_row_is_in_signed_order() {
    let mut h = Histogram::new(1, 8, SAMPLEFORMAT_INT);
    h.accumulate(&[0x01, 0xFF, 0x80, 0x7F]);
    let mut s = h.synthesizer();
    let mut out = [0u8; 4];
    s.synthesize_row(&mut out);
    assert_eq!(out, [0x80, 0xFF, 0x01, 0x7F]);
}

#[test]
fn synthesized_row_past_the_counts_is_zero() {
    let mut h = Histogram::new(1, 8, SAMPLEFORMAT_UINT);
    h.accumulate(&[5]);
    let mut s = h.synthesizer();
    let mut out = [9u8, 9, 9];
    s.synthesize_row(&mut out);
    assert_eq!(out, [5, 0, 0]);
}

#[test]
fn rows_continue_where_the_previous_stopped() {
    let data = lcg_bytes(2 * 2 * 60, 17);
    let mut h = Histogram::new(2, 16, SAMPLEFORMAT_UINT);
    h.accumulate(&data);
    let mut s1 = h.synthesizer();
    let mut x = vec![0u8; 2 * 2 * 25];
    let mut y = vec![0u8; 2 * 2 * 35];
    s1.synthesize_row(&mut x);
    s1.synthesize_row(&mut y);
    let mut s2 = h.synthesizer();
    let mut z = vec![0u8; data.len()];
    s2.synthesize_row(&mut z);
    assert_eq!([x, y].concat(), z);
}

#[test]
fn merged_histogram_streams_like_one_counted_whole() {
    let x = lcg_bytes(3 * 40, 3);
    let y = lcg_bytes(3 * 20, 4);
    let mut a = Histogram::new(3, 8, SAMPLEFORMAT_UINT);
    a.accumulate(&x);
    let mut b = Histogram::new(3, 8, SAMPLEFORMAT_UINT);
    b.accumulate(&y);
    let mut c = Histogram::new(3, 8, SAMPLEFORMAT_UINT);
    c.accumulate(&[x.clone(), y.clone()].concat());
    let (ta, tb) = (a.total(), b.total());
    let m = a.merge(b);
    assert_eq!(m.total(), ta + tb);
    assert_eq!(m.total(), c.total());
    let mut rm = vec![0u8; m.total() as usize];
    let mut rc = vec![0u8; c.total() as usize];
    m.synthesizer().synthesize_row(&mut rm);
    c.synthesizer().synthesize_row(&mut rc);
    assert_eq!(rm, rc);
    let mut wiped = [x, y].concat();
    wipe_buffer(&mut wiped, 3, 8, SAMPLEFORMAT_UINT);
    assert_eq!(rm, wiped);
}
