use tiff_reducer::ifd::{
    check_described_fields, check_ycbcr, compress_defaults, copy_row, decode_i16_row,
    info_defaults, output_fields, row_conversion, strip_plan, MissingField, OutputFields,
    PageFields, RowConversion, StripPlan,
};
use tiff_reducer::sample::ByteOrder;
use tiff_reducer::tags::{extrasamples_count, geo_array_accepted, icc_profile_accepted};
use tiff_reducer::tiff::{
    PHOTOMETRIC_RGB, PHOTOMETRIC_YCBCR, PLANARCONFIG_CONTIG, PLANARCONFIG_SEPARATE,
    PREDICTOR_FLOATINGPOINT, PREDICTOR_HORIZONTAL, PREDICTOR_NONE, SAMPLEFORMAT_IEEEFP,
    SAMPLEFORMAT_INT, SAMPLEFORMAT_UINT, TIFFTAG_GEOKEYDIRECTORYTAG, TIFFTAG_MODELTIEPOINTTAG,
};
use tiff_reducer::tiles::{div_ceil_u32, place_tile_rows, tile_geometry, tile_index, tile_jobs, TileJob};
use tiff_reducer::wipe_page::{
    check_scanline, tiled_pixel_bytes, wipe_defaults, wipe_layout, wipe_level, wipe_plane_size,
    wipe_predictor, WipeLayout, WipeRefusal,
};

fn fields(bps: u16, spp: u16, fmt: u16, photometric: u16, planar: u16) -> PageFields {
    PageFields { bps, spp, fmt, photometric, planar }
}

#[test]
fn ycbcr_subsampling_is_refused() {
    assert_eq!(check_ycbcr(PHOTOMETRIC_YCBCR, Some((2, 2))), Err((2, 2)));
    assert_eq!(check_ycbcr(PHOTOMETRIC_YCBCR, Some((1, 1))), Ok(()));
    assert_eq!(check_ycbcr(PHOTOMETRIC_YCBCR, None), Ok(()));
    assert_eq!(check_ycbcr(PHOTOMETRIC_RGB, Some((2, 1))), Ok(()));
}

#[test]
fn defaults_of_both_paths() {
    let raw = fields(0, 0, 0, 0, 0);
    assert_eq!(compress_defaults(raw), fields(0, 1, 0, 0, PLANARCONFIG_CONTIG));
    assert_eq!(wipe_defaults(raw), fields(8, 1, SAMPLEFORMAT_UINT, 0, PLANARCONFIG_CONTIG));
    let set = fields(16, 3, SAMPLEFORMAT_INT, PHOTOMETRIC_RGB, PLANARCONFIG_SEPARATE);
    assert_eq!(compress_defaults(set), set);
    assert_eq!(wipe_defaults(set), set);
    assert_eq!(info_defaults(None, None, None), (8, 1, SAMPLEFORMAT_UINT));
    assert_eq!(info_defaults(Some(0), Some(3), Some(SAMPLEFORMAT_IEEEFP)), (0, 3, SAMPLEFORMAT_IEEEFP));
}

#[test]
fn output_fields_of_pages() {
    let f = fields(16, 3, SAMPLEFORMAT_INT, PHOTOMETRIC_RGB, PLANARCONFIG_SEPARATE);
    assert_eq!(
        output_fields(f, true),
        OutputFields { bps: 8, spp: 3, fmt: Some(SAMPLEFORMAT_UINT), photometric: PHOTOMETRIC_RGB, planar: Some(PLANARCONFIG_SEPARATE) }
    );
    let g = fields(8, 1, 0, 0, PLANARCONFIG_CONTIG);
    assert_eq!(
        output_fields(g, false),
        OutputFields { bps: 8, spp: 1, fmt: None, photometric: 0, planar: None }
    );
}

#[test]
fn described_fields() {
    assert_eq!(check_described_fields(Some(4), Some(3), Some(8), Some(1)), Ok((4, 3, 8, 1)));
    assert_eq!(check_described_fields(None, Some(3), Some(8), Some(1)), Err(MissingField::Width));
    assert_eq!(check_described_fields(Some(4), Some(0), Some(8), Some(1)), Err(MissingField::Length));
    assert_eq!(check_described_fields(Some(4), Some(3), Some(0), None), Err(MissingField::BitsPerSample));
    assert_eq!(check_described_fields(Some(4), Some(3), Some(8), None), Err(MissingField::SamplesPerPixel));
}

#[test]
fn strip_plans_and_conversions() {
    assert_eq!(strip_plan(0, 10, 3, PLANARCONFIG_CONTIG, false), Err(0));
    assert_eq!(strip_plan(1073741825, 10, 3, PLANARCONFIG_CONTIG, false), Err(1073741825));
    assert_eq!(
        strip_plan(60, 10, 3, PLANARCONFIG_CONTIG, true),
        Ok(StripPlan { num_samples: 1, out_row_size: 30 })
    );
    assert_eq!(
        strip_plan(20, 10, 3, PLANARCONFIG_SEPARATE, true),
        Ok(StripPlan { num_samples: 3, out_row_size: 10 })
    );
    assert_eq!(
        strip_plan(60, 10, 3, PLANARCONFIG_CONTIG, false),
        Ok(StripPlan { num_samples: 1, out_row_size: 60 })
    );
    assert_eq!(row_conversion(32, SAMPLEFORMAT_IEEEFP), RowConversion::QuantizeF32);
    assert_eq!(row_conversion(64, SAMPLEFORMAT_IEEEFP), RowConversion::QuantizeF64);
    assert_eq!(row_conversion(16, SAMPLEFORMAT_INT), RowConversion::QuantizeI16);
    assert_eq!(row_conversion(16, SAMPLEFORMAT_UINT), RowConversion::QuantizeU16);
    assert_eq!(row_conversion(8, SAMPLEFORMAT_UINT), RowConversion::Copy);
}

#[test]
fn rows_decoded_and_copied() {
    let bytes: Vec<u8> = [1i16, -2, 300, i16::MIN].iter().flat_map(|v| v.to_le_bytes()).collect();
    assert_eq!(decode_i16_row(&bytes, 4, ByteOrder::Little), vec![1, -2, 300, i16::MIN]);
    let big: Vec<u8> = [7i16, -7].iter().flat_map(|v| v.to_be_bytes()).collect();
    assert_eq!(decode_i16_row(&big, 2, ByteOrder::Big), vec![7, -7]);
    let mut dst = vec![9u8; 5];
    copy_row(&[1, 2, 3], &mut dst);
    assert_eq!(dst, vec![1, 2, 3, 9, 9]);
    let mut short = vec![0u8; 2];
    copy_row(&[1, 2, 3], &mut short);
    assert_eq!(short, vec![1, 2]);
}

#[test]
fn tile_grid() {
    assert_eq!(div_ceil_u32(10, 4), 3);
    assert_eq!(div_ceil_u32(8, 4), 2);
    assert_eq!(div_ceil_u32(0, 4), 0);
    assert_eq!(div_ceil_u32(u32::MAX, 1), u32::MAX);
    assert_eq!(div_ceil_u32(u32::MAX, 2), 2147483648);
    let g = tile_geometry(10, 5, 4, 2, 3, 16, PLANARCONFIG_CONTIG, true).unwrap();
    assert_eq!(g.bytes_per_pixel, 6);
    assert_eq!(g.in_row_size, 60);
    assert_eq!(g.out_row_size, 30);
    assert_eq!(g.strip_size, 120);
    assert_eq!((g.tiles_across, g.tiles_down, g.tiles_per_plane), (3, 3, 9));
    assert_eq!(g.tile_buffer_size, 48);
    assert_eq!(g.tile_row_size, 24);
    assert_eq!(g.num_samples, 1);
    let p = tile_geometry(10, 5, 4, 2, 3, 8, PLANARCONFIG_SEPARATE, false).unwrap();
    assert_eq!((p.bytes_per_pixel, p.in_row_size, p.out_row_size, p.num_samples), (1, 10, 10, 3));
    assert!(tile_geometry(1 << 30, 1, 16, 16, 1, 16, PLANARCONFIG_CONTIG, false).is_none());
    assert_eq!(tile_index(true, 2, 9, 1, 3, 2), 23);
    assert_eq!(tile_index(false, 2, 9, 1, 3, 2), 5);
}

#[test]
fn tile_jobs_cover_the_plane() {
    assert!(tile_jobs(10, 5, 0, 2, 0, 1).is_none());
    let jobs = tile_jobs(10, 5, 4, 2, 1, 2).unwrap();
    assert_eq!(jobs.len(), 9);
    assert_eq!(jobs[0], TileJob { index: 9, actual_width: 4, actual_height: 2 });
    assert_eq!(jobs[2], TileJob { index: 11, actual_width: 2, actual_height: 2 });
    assert_eq!(jobs[8], TileJob { index: 17, actual_width: 2, actual_height: 1 });
    let single = tile_jobs(10, 5, 4, 2, 1, 1).unwrap();
    assert_eq!(single[0].index, 0);
    let covered: usize = jobs.iter().map(|j| j.actual_width * j.actual_height).sum();
    assert_eq!(covered, 50);
}

#[test]
fn tile_rows_placed_in_band() {
    // band of 2 rows of 6 bytes; tile of 2x2 pixels of 1 byte with rows 3 bytes apart
    let mut band = vec![0u8; 12];
    let tile = vec![1u8, 2, 99, 3, 4, 99];
    place_tile_rows(&mut band, &tile, 2, 2, 2, 6, 3);
    assert_eq!(band, vec![0, 0, 1, 2, 0, 0, 0, 0, 3, 4, 0, 0]);
    let mut one_row = vec![7u8; 12];
    place_tile_rows(&mut one_row, &tile, 4, 2, 1, 6, 3);
    assert_eq!(one_row, vec![7, 7, 7, 7, 1, 2, 7, 7, 7, 7, 7, 7]);
}

#[test]
fn wipe_settings() {
    assert_eq!(wipe_level(None), 9);
    assert_eq!(wipe_level(Some(0)), 1);
    assert_eq!(wipe_level(Some(30)), 22);
    assert_eq!(wipe_level(Some(15)), 15);
    assert_eq!(wipe_predictor(32, SAMPLEFORMAT_IEEEFP), PREDICTOR_FLOATINGPOINT);
    assert_eq!(wipe_predictor(24, SAMPLEFORMAT_IEEEFP), PREDICTOR_FLOATINGPOINT);
    assert_eq!(wipe_predictor(16, SAMPLEFORMAT_INT), PREDICTOR_HORIZONTAL);
    assert_eq!(wipe_predictor(64, SAMPLEFORMAT_UINT), PREDICTOR_NONE);
    assert_eq!(wipe_predictor(12, SAMPLEFORMAT_UINT), PREDICTOR_NONE);
}

#[test]
fn wipe_layouts() {
    let rgb16 = fields(16, 3, SAMPLEFORMAT_UINT, PHOTOMETRIC_RGB, PLANARCONFIG_CONTIG);
    assert_eq!(
        wipe_layout(10, rgb16),
        Ok(WipeLayout { interleaved_spp: 3, num_planes: 1, bytes_per_sample: 2, in_row_size: 60, use_histogram: true })
    );
    let planar32 = fields(32, 3, SAMPLEFORMAT_IEEEFP, PHOTOMETRIC_RGB, PLANARCONFIG_SEPARATE);
    assert_eq!(
        wipe_layout(10, planar32),
        Ok(WipeLayout { interleaved_spp: 1, num_planes: 3, bytes_per_sample: 4, in_row_size: 40, use_histogram: false })
    );
    let gray1 = fields(1, 1, SAMPLEFORMAT_UINT, 0, PLANARCONFIG_CONTIG);
    assert_eq!(
        wipe_layout(16, gray1),
        Ok(WipeLayout { interleaved_spp: 1, num_planes: 1, bytes_per_sample: 1, in_row_size: 2, use_histogram: false })
    );
    assert_eq!(wipe_layout(10, gray1), Err(WipeRefusal::SubByteLayout(1, 1, 10)));
    let rgb4 = fields(4, 3, SAMPLEFORMAT_UINT, PHOTOMETRIC_RGB, PLANARCONFIG_CONTIG);
    assert_eq!(wipe_layout(16, rgb4), Err(WipeRefusal::SubByteLayout(4, 3, 16)));
    let twelve = fields(12, 1, SAMPLEFORMAT_UINT, 0, PLANARCONFIG_CONTIG);
    assert_eq!(wipe_layout(16, twelve), Err(WipeRefusal::PartialByteSamples(12)));
}

#[test]
fn wipe_plane_limits() {
    assert_eq!(wipe_plane_size(60, 10), Some(600));
    assert_eq!(wipe_plane_size(0, 10), None);
    assert_eq!(wipe_plane_size(60, 0), None);
    assert_eq!(wipe_plane_size(1 << 24, 1 << 10), Some(1 << 34));
    assert_eq!(wipe_plane_size((1 << 24) + 1, 1 << 10), None);
    assert_eq!(check_scanline(0, 60), Err(0));
    assert_eq!(check_scanline(61, 60), Err(61));
    assert_eq!(check_scanline(60, 60), Ok(()));
    assert_eq!(tiled_pixel_bytes(60, 10), Some(6));
    assert_eq!(tiled_pixel_bytes(2, 16), None);
}

#[test]
fn copied_tag_counts() {
    assert_eq!(extrasamples_count(0), None);
    assert_eq!(extrasamples_count(1), Some(1));
    assert_eq!(extrasamples_count(5000), Some(1024));
    assert!(icc_profile_accepted(3144));
    assert!(!icc_profile_accepted(0));
    assert!(!icc_profile_accepted(104857600));
    assert!(geo_array_accepted(TIFFTAG_GEOKEYDIRECTORYTAG, 5000));
    assert!(!geo_array_accepted(TIFFTAG_MODELTIEPOINTTAG, 5000));
    assert!(geo_array_accepted(TIFFTAG_MODELTIEPOINTTAG, 6));
    assert!(!geo_array_accepted(TIFFTAG_MODELTIEPOINTTAG, 0));
}

#[test]
fn rows_of_unsigned_samples_decoded() {
    let bytes: Vec<u8> = [1u16, 65535, 300].iter().flat_map(|v| v.to_le_bytes()).collect();
    assert_eq!(
        tiff_reducer::ifd::decode_u16_row(&bytes, 3, ByteOrder::Little),
        vec![1, 65535, 300]
    );
    let big: Vec<u8> = [258u16].iter().flat_map(|v| v.to_be_bytes()).collect();
    assert_eq!(tiff_reducer::ifd::decode_u16_row(&big, 1, ByteOrder::Big), vec![258]);
}
