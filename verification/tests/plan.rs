use tiff_reducer::plan::{
    benchmark_combinations, candidate_formats, candidate_predictors, clamp_u32,
    compression_name, effective_level, effective_quantize, final_predictor, level_setting,
    sample_format_name, should_benchmark, CompressionFormat, Predictor, Tournament,
};
use tiff_reducer::tiff::{
    COMPRESSION_ADOBE_DEFLATE, COMPRESSION_DEFLATE, COMPRESSION_JPEG, COMPRESSION_JPEGXL,
    COMPRESSION_LZMA, COMPRESSION_LZW, COMPRESSION_NONE, COMPRESSION_PACKBITS, COMPRESSION_WEBP,
    COMPRESSION_ZSTD, PREDICTOR_FLOATINGPOINT, PREDICTOR_HORIZONTAL, PREDICTOR_NONE,
    SAMPLEFORMAT_IEEEFP, SAMPLEFORMAT_INT, SAMPLEFORMAT_UINT, TIFFTAG_DEFLATELEVEL,
    TIFFTAG_JPEGQUALITY, TIFFTAG_LZMAPRESET, TIFFTAG_WEBP_LEVEL, TIFFTAG_ZIPQUALITY,
    TIFFTAG_ZSTD_LEVEL,
};

#[test]
fn format_identifiers_and_names() {
    assert_eq!(CompressionFormat::Zstd.to_ffi(), COMPRESSION_ZSTD);
    assert_eq!(CompressionFormat::Deflate.to_ffi(), COMPRESSION_ADOBE_DEFLATE);
    assert_eq!(CompressionFormat::Packbits.to_ffi(), COMPRESSION_PACKBITS);
    assert_eq!(CompressionFormat::JpegXl.to_ffi(), COMPRESSION_JPEGXL);
    assert_eq!(CompressionFormat::Uncompressed.to_ffi(), COMPRESSION_NONE);
    assert_eq!(CompressionFormat::JpegXl.name(), "JpegXl");
    assert_eq!(Predictor::NoPredictor.to_ffi(), PREDICTOR_NONE);
    assert_eq!(Predictor::FloatingPoint.to_ffi(), PREDICTOR_FLOATINGPOINT);
    assert_eq!(Predictor::NoPredictor.name(), "None");
    assert_eq!(Predictor::Horizontal.name(), "Horizontal");
}

#[test]
fn compression_and_sample_format_names() {
    assert_eq!(compression_name(COMPRESSION_NONE), "Uncompressed");
    assert_eq!(compression_name(COMPRESSION_DEFLATE), "Deflate");
    assert_eq!(compression_name(COMPRESSION_ADOBE_DEFLATE), "Deflate");
    assert_eq!(compression_name(COMPRESSION_LZMA), "LZMA");
    assert_eq!(compression_name(COMPRESSION_LZW), "LZW");
    assert_eq!(compression_name(COMPRESSION_WEBP), "WebP");
    assert_eq!(compression_name(COMPRESSION_JPEGXL), "JPEG-XL");
    assert_eq!(compression_name(4), "CCITT Group 4");
    assert_eq!(compression_name(12345), "Unknown");
    assert_eq!(sample_format_name(SAMPLEFORMAT_UINT), "Unsigned Integer");
    assert_eq!(sample_format_name(SAMPLEFORMAT_INT), "Signed Integer");
    assert_eq!(sample_format_name(SAMPLEFORMAT_IEEEFP), "Floating Point");
    assert_eq!(sample_format_name(9), "Unknown");
}

#[test]
fn quantize_and_level_choices() {
    assert!(effective_quantize(true, false, 8));
    assert!(effective_quantize(false, true, 16));
    assert!(!effective_quantize(false, true, 8));
    assert!(!effective_quantize(false, false, 32));
    assert_eq!(effective_level(None, true, CompressionFormat::Zstd), Some(90));
    assert_eq!(effective_level(None, false, CompressionFormat::Jpeg), Some(90));
    assert_eq!(effective_level(None, false, CompressionFormat::Zstd), Some(19));
    assert_eq!(effective_level(Some(4), false, CompressionFormat::Zstd), Some(4));
    assert_eq!(effective_level(None, false, CompressionFormat::Lzma), None);
    assert_eq!(effective_level(None, false, CompressionFormat::Deflate), None);
    assert_eq!(effective_level(Some(3), true, CompressionFormat::Webp), Some(3));
}

#[test]
fn candidates_and_combinations() {
    let extreme = candidate_formats(true, false, CompressionFormat::Lzw);
    assert_eq!(
        extreme,
        vec![
            CompressionFormat::Uncompressed,
            CompressionFormat::Zstd,
            CompressionFormat::Lzma,
            CompressionFormat::Deflate,
            CompressionFormat::JpegXl
        ]
    );
    assert_eq!(
        candidate_formats(false, true, CompressionFormat::Lzw),
        vec![CompressionFormat::Webp, CompressionFormat::Jpeg]
    );
    assert_eq!(candidate_formats(false, false, CompressionFormat::Lzw), vec![CompressionFormat::Lzw]);
    assert_eq!(
        candidate_predictors(true, false, true),
        vec![Predictor::NoPredictor, Predictor::Horizontal, Predictor::FloatingPoint]
    );
    assert_eq!(candidate_predictors(true, false, false), vec![Predictor::NoPredictor, Predictor::Horizontal]);
    assert_eq!(candidate_predictors(false, true, true), vec![Predictor::NoPredictor]);
    assert_eq!(candidate_predictors(false, false, true), vec![Predictor::Horizontal]);

    let lossy = vec![CompressionFormat::Webp, CompressionFormat::Zstd];
    let preds = vec![Predictor::NoPredictor, Predictor::Horizontal];
    assert_eq!(
        benchmark_combinations(&lossy, &preds),
        vec![
            (CompressionFormat::Webp, Predictor::NoPredictor),
            (CompressionFormat::Zstd, Predictor::NoPredictor),
            (CompressionFormat::Zstd, Predictor::Horizontal)
        ]
    );
    assert!(should_benchmark(true, false, 1));
    assert!(should_benchmark(false, true, 2));
    assert!(!should_benchmark(false, true, 1));
    assert!(!should_benchmark(false, false, 5));
}

#[test]
fn predictors_written() {
    assert_eq!(final_predictor(COMPRESSION_ZSTD, PREDICTOR_HORIZONTAL, 16, SAMPLEFORMAT_UINT), PREDICTOR_HORIZONTAL);
    assert_eq!(final_predictor(COMPRESSION_ZSTD, PREDICTOR_HORIZONTAL, 12, SAMPLEFORMAT_UINT), PREDICTOR_NONE);
    assert_eq!(final_predictor(COMPRESSION_LZMA, PREDICTOR_FLOATINGPOINT, 32, SAMPLEFORMAT_IEEEFP), PREDICTOR_FLOATINGPOINT);
    assert_eq!(final_predictor(COMPRESSION_LZMA, PREDICTOR_FLOATINGPOINT, 32, SAMPLEFORMAT_UINT), PREDICTOR_NONE);
    assert_eq!(final_predictor(COMPRESSION_JPEG, PREDICTOR_HORIZONTAL, 8, SAMPLEFORMAT_UINT), PREDICTOR_NONE);
    assert_eq!(final_predictor(COMPRESSION_PACKBITS, PREDICTOR_HORIZONTAL, 8, SAMPLEFORMAT_UINT), PREDICTOR_NONE);
}

#[test]
fn level_settings() {
    assert_eq!(clamp_u32(0, 1, 9), 1);
    assert_eq!(clamp_u32(50, 1, 9), 9);
    assert_eq!(clamp_u32(5, 1, 9), 5);
    assert_eq!(level_setting(COMPRESSION_LZMA, 50), Some((TIFFTAG_LZMAPRESET, 9)));
    assert_eq!(level_setting(COMPRESSION_ZSTD, 30), Some((TIFFTAG_ZSTD_LEVEL, 22)));
    assert_eq!(level_setting(COMPRESSION_ZSTD, 0), Some((TIFFTAG_ZSTD_LEVEL, 1)));
    assert_eq!(level_setting(COMPRESSION_JPEGXL, 150), Some((TIFFTAG_DEFLATELEVEL, 100)));
    assert_eq!(level_setting(COMPRESSION_JPEG, 85), Some((TIFFTAG_JPEGQUALITY, 85)));
    assert_eq!(level_setting(COMPRESSION_WEBP, 90), Some((TIFFTAG_WEBP_LEVEL, 90)));
    assert_eq!(level_setting(COMPRESSION_LZW, 5), None);
    assert_eq!(level_setting(COMPRESSION_ADOBE_DEFLATE, 6), Some((TIFFTAG_ZIPQUALITY, 6)));
    assert_eq!(level_setting(COMPRESSION_ADOBE_DEFLATE, 0), Some((TIFFTAG_ZIPQUALITY, 1)));
    assert_eq!(level_setting(COMPRESSION_ADOBE_DEFLATE, 40), Some((TIFFTAG_ZIPQUALITY, 9)));
}

#[test]
fn tournament_keeps_first_smallest() {
    let mut t = Tournament::new(CompressionFormat::Uncompressed, Predictor::NoPredictor);
    assert_eq!(t.best(), (CompressionFormat::Uncompressed, Predictor::NoPredictor, u64::MAX));
    t.record(CompressionFormat::Zstd, Predictor::NoPredictor, Some(500));
    t.record(CompressionFormat::Zstd, Predictor::Horizontal, Some(300));
    t.record(CompressionFormat::Lzma, Predictor::NoPredictor, None);
    t.record(CompressionFormat::Lzma, Predictor::Horizontal, Some(300));
    t.record(CompressionFormat::Deflate, Predictor::NoPredictor, Some(0));
    t.record(CompressionFormat::Deflate, Predictor::Horizontal, Some(u64::MAX));
    assert_eq!(t.best(), (CompressionFormat::Zstd, Predictor::Horizontal, 300));
    assert_eq!(
        t.results().clone(),
        vec![
            (CompressionFormat::Zstd, Predictor::NoPredictor, 500),
            (CompressionFormat::Zstd, Predictor::Horizontal, 300),
            (CompressionFormat::Lzma, Predictor::Horizontal, 300)
        ]
    );
}

#[test]
fn tournament_without_success_keeps_start() {
    let mut t = Tournament::new(CompressionFormat::Webp, Predictor::NoPredictor);
    t.record(CompressionFormat::Jpeg, Predictor::NoPredictor, None);
    assert_eq!(t.best(), (CompressionFormat::Webp, Predictor::NoPredictor, u64::MAX));
    assert!(t.results().is_empty());
}
