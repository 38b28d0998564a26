use tiff_reducer::quantize::{quantize_i16_to_u8, quantize_u16_to_u8};

/// Min-max quantization in exact integer arithmetic:
/// `(v - min) * 255 / (max - min)`, rounded down.
fn reference_quantize(input: &[i64], output: &mut [u8]) {
    if input.is_empty() {
        return;
    }
    let min = *input.iter().min().unwrap();
    let max = *input.iter().max().unwrap();
    if min == max {
        for v in output.iter_mut() {
            *v = 0;
        }
        return;
    }
    for (i, &val) in input.iter().enumerate() {
        if i >= output.len() {
            break;
        }
        output[i] = ((val - min) * 255 / (max - min)) as u8;
    }
}

#[test]
fn quantize_i16_spans_the_byte_range() {
    let input: Vec<i16> = vec![-100, 0, 100, 155];
    let mut out = vec![9u8; 4];
    quantize_i16_to_u8(&input, &mut out);
    assert_eq!(out, vec![0, 100, 200, 255]);
}

#[test]
fn quantize_i16_top_of_a_span_of_seven() {
    let input: Vec<i16> = vec![0, 7];
    let mut out = vec![0u8; 2];
    quantize_i16_to_u8(&input, &mut out);
    assert_eq!(out, vec![0, 255]);
}

#[test]
fn quantize_i16_full_range() {
    let input: Vec<i16> = vec![i16::MIN, i16::MAX, 0];
    let mut out = vec![0u8; 3];
    quantize_i16_to_u8(&input, &mut out);
    // 32768 * 255 / 65535 = 127.5..., rounded down
    assert_eq!(out, vec![0, 255, 127]);
}

#[test]
fn quantize_i16_constant_row_is_zeroed() {
    let input: Vec<i16> = vec![5, 5, 5];
    let mut out = vec![7u8; 5];
    quantize_i16_to_u8(&input, &mut out);
    assert_eq!(out, vec![0u8; 5]);
}

#[test]
fn quantize_i16_empty_row_leaves_output() {
    let mut out = vec![7u8, 8, 9];
    quantize_i16_to_u8(&[], &mut out);
    assert_eq!(out, vec![7, 8, 9]);
}

#[test]
fn quantize_i16_short_output_and_long_output() {
    let input: Vec<i16> = vec![0, 10, 20, 30];
    let mut short = vec![1u8; 2];
    quantize_i16_to_u8(&input, &mut short);
    assert_eq!(short, vec![0, 85]);
    let mut long = vec![1u8; 6];
    quantize_i16_to_u8(&input, &mut long);
    assert_eq!(long, vec![0, 85, 170, 255, 1, 1]);
}

#[test]
fn quantize_u16_rounds_down() {
    let input: Vec<u16> = vec![1000, 1003, 1001, 1002];
    let mut out = vec![0u8; 4];
    quantize_u16_to_u8(&input, &mut out);
    assert_eq!(out, vec![0, 255, 85, 170]);
    let input: Vec<u16> = vec![0, 1, 2, 3, 4, 5, 6, 7];
    let mut out = vec![0u8; 8];
    quantize_u16_to_u8(&input, &mut out);
    assert_eq!(out, vec![0, 36, 72, 109, 145, 182, 218, 255]);
}

#[test]
fn quantize_i16_matches_integer_formula() {
    let mut state: u64 = 11;
    for round in 0..3000u32 {
        let span: i32 = 1 + (round as i32 * 23) % 65535;
        let base: i32 = -32768 + (round as i32 * 7) % (65536 - span);
        let len = 1 + (round as usize % 40);
        let mut input = Vec::with_capacity(len);
        for _ in 0..len {
            state = state
                .wrapping_mul(6364136223846793005)
                .wrapping_add(1442695040888963407);
            input.push((base + ((state >> 33) as i32).rem_euclid(span + 1)) as i16);
        }
        input.push(base as i16);
        input.push((base + span) as i16);
        let mut out = vec![0u8; input.len()];
        let mut expected = vec![0u8; input.len()];
        quantize_i16_to_u8(&input, &mut out);
        let wide: Vec<i64> = input.iter().map(|&v| v as i64).collect();
        reference_quantize(&wide, &mut expected);
        assert_eq!(out, expected, "span {}", span);
    }
}

#[test]
fn quantize_every_span_matches_integer_formula() {
    for span in 1..=65535u32 {
        let input: Vec<u16> = vec![0, (span / 3) as u16, (span / 2) as u16, (span - 1) as u16, span as u16];
        let mut out = vec![0u8; 5];
        let mut expected = vec![0u8; 5];
        quantize_u16_to_u8(&input, &mut out);
        let wide: Vec<i64> = input.iter().map(|&v| v as i64).collect();
        reference_quantize(&wide, &mut expected);
        assert_eq!(out, expected, "span {}", span);
        assert_eq!(out[4], 255);
        let signed: Vec<i16> = input.iter().map(|&v| (v as i32 - 32768) as i16).collect();
        let mut out_i = vec![0u8; 5];
        quantize_i16_to_u8(&signed, &mut out_i);
        assert_eq!(out_i, expected, "signed span {}", span);
    }
}

#[test]
fn quantize_u16_matches_integer_formula() {
    let mut state: u64 = 5;
    for round in 0..2000u32 {
        let len = 1 + (round as usize % 50);
        let mut input = Vec::with_capacity(len);
        for _ in 0..len {
            state = state
                .wrapping_mul(6364136223846793005)
                .wrapping_add(1442695040888963407);
            input.push((state >> 48) as u16);
        }
        let mut out = vec![3u8; len + 2];
        let mut expected = vec![3u8; len + 2];
        quantize_u16_to_u8(&input, &mut out);
        let wide: Vec<i64> = input.iter().map(|&v| v as i64).collect();
        reference_quantize(&wide, &mut expected);
        assert_eq!(out, expected);
    }
}
