//! The test set of the report: which images of the test directory are
//! compressed. Some images are known to be mishandled by the codecs and are
//! left out, more of them in the lossy pass.

use vstd::prelude::*;
use vstd::string::StringSliceAdditionalSpecFns;

verus! {

/// Images left out of every pass.
pub open spec fn always_skipped() -> Seq<&'static str> {
    seq![
        "smallliz.tif",
        "text.tif",
        "ycbcr-cat.tif",
        "zackthecat.tif",
        "quad-tile.jpg.tiff",
        "quad-jpeg.tif",
        "sample-get-lzw-stuck.tiff",
        "tiled-jpeg-ycbcr.tif",
    ]
}

/// Images left out of the lossy pass as well.
pub open spec fn lossy_skipped() -> Seq<&'static str> {
    seq![
        "170918_tn_neutrophil_migration_wave.ome.tif",
        "181003_multi_pos_time_course_1_MMStack.ome.tif",
        "MMStack_Pos0.ome.tif",
        "P1_T0.tif",
        "P1_T1.tif",
        "P1_T2.tif",
        "P1_T3.tif",
        "P1_T4.tif",
        "P1_T5.tif",
        "P1_T6.tif",
        "P1_T7.tif",
        "P1_T8.tif",
        "P1_T9.tif",
        "P2_T0.tif",
        "P2_T1.tif",
        "P2_T2.tif",
        "P2_T3.tif",
        "P2_T4.tif",
        "P2_T5.tif",
        "P2_T6.tif",
        "P2_T7.tif",
        "P2_T8.tif",
        "P2_T9.tif",
        "TSeries-camp-005_Cycle00001_Ch1_000001.ome.tif",
        "TSeries-camp-005_Cycle00001_Ch1_000002.ome.tif",
        "TSeries-camp-005_Cycle00001_Ch1_000003.ome.tif",
        "TSeries-camp-005_Cycle00001_Ch1_000004.ome.tif",
        "TSeries-camp-005_Cycle00001_Ch2_000001.ome.tif",
        "TSeries-camp-005_Cycle00001_Ch2_000002.ome.tif",
        "TSeries-camp-005_Cycle00001_Ch2_000003.ome.tif",
        "TSeries-camp-005_Cycle00001_Ch2_000004.ome.tif",
        "TSeries-camp-005_Cycle00002_Ch1_000001.ome.tif",
        "TSeries-camp-005_Cycle00002_Ch1_000002.ome.tif",
        "TSeries-camp-005_Cycle00002_Ch1_000003.ome.tif",
        "TSeries-camp-005_Cycle00002_Ch1_000004.ome.tif",
        "TSeries-camp-005_Cycle00002_Ch2_000001.ome.tif",
        "TSeries-camp-005_Cycle00002_Ch2_000002.ome.tif",
        "TSeries-camp-005_Cycle00002_Ch2_000003.ome.tif",
        "TSeries-camp-005_Cycle00002_Ch2_000004.ome.tif",
        "TSeries-camp-005_Cycle00003_Ch1_000001.ome.tif",
        "TSeries-camp-005_Cycle00003_Ch1_000002.ome.tif",
        "TSeries-camp-005_Cycle00003_Ch1_000003.ome.tif",
        "TSeries-camp-005_Cycle00003_Ch1_000004.ome.tif",
        "TSeries-camp-005_Cycle00003_Ch2_000001.ome.tif",
        "TSeries-camp-005_Cycle00003_Ch2_000002.ome.tif",
        "TSeries-camp-005_Cycle00003_Ch2_000003.ome.tif",
        "TSeries-camp-005_Cycle00003_Ch2_000004.ome.tif",
        "background_1_MMStack.ome.tif",
        "bali.tif",
        "big_g4.tif",
        "capitol.tif",
        "capitol2.tif",
        "caspian.tif",
        "cmyk-3c-16b.tiff",
        "cmyk-3c-32b-float.tiff",
        "cmyk-4c-8b.tiff",
        "earthlab.tif",
        "earthlab_compressed.tif",
        "fax2d.tif",
        "fax4.tif",
        "flower-minisblack-02.tif",
        "flower-minisblack-04.tif",
        "flower-minisblack-06.tif",
        "flower-minisblack-10.tif",
        "flower-minisblack-14.tif",
        "flower-minisblack-16.tif",
        "flower-minisblack-24.tif",
        "flower-minisblack-32.tif",
        "flower-palette-02.tif",
        "flower-palette-04.tif",
        "flower-palette-08.tif",
        "flower-palette-16.tif",
        "flower-rgb-contig-02.tif",
        "flower-rgb-contig-04.tif",
        "flower-rgb-contig-10.tif",
        "flower-rgb-contig-14.tif",
        "flower-rgb-contig-16.tif",
        "flower-rgb-contig-24.tif",
        "flower-rgb-contig-32.tif",
        "flower-rgb-planar-02.tif",
        "flower-rgb-planar-04.tif",
        "flower-rgb-planar-10.tif",
        "flower-rgb-planar-14.tif",
        "flower-rgb-planar-16.tif",
        "flower-rgb-planar-24.tif",
        "flower-rgb-planar-32.tif",
        "flower-separated-16.tif",
        "flower-separated-planar-16.tif",
        "g3test.tif",
        "geo-5b.tif",
        "gradient-1c-32b-float.tiff",
        "gradient-1c-32b.tiff",
        "gradient-1c-64b-float.tiff",
        "gradient-1c-64b.tiff",
        "gradient-3c-32b-float.tiff",
        "gradient-3c-32b.tiff",
        "gradient-3c-64b.tiff",
        "imagemagick_group4.tif",
        "int16.tif",
        "int16_rgb.tif",
        "int16_zstd.tif",
        "issue_69_lzw.tif",
        "issue_69_packbits.tif",
        "jello.tif",
        "jim___ah.tif",
        "ladoga.tif",
        "logluv-3c-16b.tif",
        "minisblack-1c-16b.tif",
        "minisblack-1c-3b.tif",
        "minisblack-1c-5b.tif",
        "minisblack-1c-7b.tif",
        "minisblack-1c-i16b.tif",
        "miniswhite-1c-1b.tif",
        "miniswhite-1c-3b.tif",
        "miniswhite-1c-6b.tif",
        "mri.tif",
        "off_l16.tif",
        "off_luv24.tif",
        "off_luv32.tif",
        "palette-1c-1b.tif",
        "palette-1c-4b.tif",
        "palette-1c-8b.tif",
        "poppies.tif",
        "predictor-3-gray-f32.tif",
        "predictor-3-rgb-f32.tif",
        "random-fp16-pred2.tif",
        "random-fp16-pred3.tif",
        "random-fp16.tif",
        "renamed_internalfilenames.ome.tif",
        "rgb-3c-16b.tif",
        "seq-1c-10b-6d739fa2.tif",
        "seq-1c-10b-hpredict-6d739fa2.tif",
        "seq-1c-10b-miniswhite-6d739fa2.tif",
        "seq-1c-14b-e883657f.tif",
        "seq-1c-14b-hpredict-e883657f.tif",
        "seq-1c-14b-miniswhite-e883657f.tif",
        "seq-1c-16b-bigendian-68f373a0.tif",
        "seq-1c-16b-deflate-68f373a0.tif",
        "seq-1c-16b-lzw-68f373a0.tif",
        "seq-1c-16b-multistrip-68f373a0.tif",
        "seq-1c-16b-tiled-68f373a0.tif",
        "seq-1c-1b-71f6a21a.tif",
        "seq-1c-1b-miniswhite-71f6a21a.tif",
        "seq-1c-24b-072a9dc9.tif",
        "seq-1c-24b-hpredict-072a9dc9.tif",
        "seq-1c-24b-miniswhite-072a9dc9.tif",
        "seq-1c-2b-58b25f76.tif",
        "seq-1c-32f-390fe673.tif",
        "seq-1c-32f-deflate-fpredict-390fe673.tif",
        "seq-1c-3b-ef237c07.tif",
        "seq-1c-3b-miniswhite-ef237c07.tif",
        "seq-1c-4b-fb92dcae.tif",
        "seq-1c-4b-miniswhite-fb92dcae.tif",
        "seq-1c-4b-palette-85108c5a.tif",
        "seq-1c-5b-73098d17.tif",
        "seq-1c-5b-miniswhite-73098d17.tif",
        "seq-1c-64f-afa8560e.tif",
        "seq-1c-64f-deflate-fpredict-afa8560e.tif",
        "seq-1c-6b-miniswhite-79cafbb6.tif",
        "seq-1c-7b-9c61ba70.tif",
        "seq-1c-7b-miniswhite-9c61ba70.tif",
        "seq-1c-8b-palette-89b39bc3.tif",
        "seq-1c-i16-63af2488.tif",
        "seq-1c-i32-99fddec2.tif",
        "seq-3c-10b-contig-d08d5dc0.tif",
        "seq-3c-10b-planar-c82e8ab6.tif",
        "seq-3c-14b-contig-f4dcc6cc.tif",
        "seq-3c-14b-planar-4dde706b.tif",
        "seq-3c-16b-bigtiff-1b40ca6e.tif",
        "seq-3c-24b-contig-27b9f8ce.tif",
        "seq-3c-24b-planar-6296c0c9.tif",
        "seq-3c-32f-9a471c2b.tif",
        "seq-3c-5b-contig-09f197f4.tif",
        "seq-3c-64f-9fff098a.tif",
        "seq-3c-7b-contig-2e4f43c5.tif",
        "seq-3c-i16-f7fcf423.tif",
        "seq-4c-16b-cmyk-c6e52592.tif",
        "seq-4c-16b-rgba-5181991f.tif",
        "shapes_hyper.tif",
        "shapes_lzw_14bps.tif",
        "shapes_lzw_palette.tif",
        "shapes_lzw_planar_10bps.tif",
        "shapes_lzw_predictor3.tif",
        "shapes_multi_color.tif",
        "single-black-fp16.tif",
        "spine.tif",
        "spring.tif",
        "tiled-gray-i1.tif",
        "white-fp16-pred2.tif",
        "white-fp16-pred3.tif",
        "white-fp16.tif",
    ]
}

/// Whether `name` is one of `names`.
pub open spec fn listed(names: Seq<&'static str>, name: Seq<char>) -> bool {
    exists|i: int| 0 <= i < names.len() && (#[trigger] names[i])@ == name
}

/// Whether two byte strings are equal.
fn same_bytes(a: &[u8], b: &[u8]) -> (r: bool)
    ensures
        r == (a@ == b@),
{
    if a.len() != b.len() {
        return false;
    }
    let n = a.len();
    let mut i: usize = 0;
    while i < n
        invariant
            i <= n,
            n == a@.len(),
            n == b@.len(),
            forall|j: int| 0 <= j < i ==> a@[j] == b@[j],
        decreases n - i,
    {
        if a[i] != b[i] {
            return false;
        }
        i = i + 1;
    }
    assert(a@ =~= b@);
    true
}

/// Whether two strings are equal.
fn same_text(a: &str, b: &str) -> (r: bool)
    ensures
        r == (a@ == b@),
{
    let r = same_bytes(a.as_bytes(), b.as_bytes());
    proof {
        vstd::utf8::encode_utf8_decode_utf8(a@);
        vstd::utf8::encode_utf8_decode_utf8(b@);
    }
    r
}

/// Whether `name` is one of `names`.
fn is_listed(names: &Vec<&'static str>, name: &str) -> (r: bool)
    ensures
        r == listed(names@, name@),
{
    let n = names.len();
    let mut i: usize = 0;
    while i < n
        invariant
            i <= n,
            n == names@.len(),
            forall|j: int| 0 <= j < i ==> (#[trigger] names@[j])@ != name@,
        decreases n - i,
    {
        if same_text(names[i], name) {
            assert(names@[i as int]@ == name@);
            return true;
        }
        i = i + 1;
    }
    false
}

/// Whether the image named `name` is left out of a pass (the lossy pass if
/// `lossy`).
pub fn skipped_test_image(name: &str, lossy: bool) -> (r: bool)
    ensures
        r == (listed(always_skipped(), name@) || (lossy && listed(lossy_skipped(), name@))),
{
    let always: Vec<&'static str> = vec![
        "smallliz.tif",
        "text.tif",
        "ycbcr-cat.tif",
        "zackthecat.tif",
        "quad-tile.jpg.tiff",
        "quad-jpeg.tif",
        "sample-get-lzw-stuck.tiff",
        "tiled-jpeg-ycbcr.tif",
    ];
    assert(always@ =~= always_skipped());
    if is_listed(&always, name) {
        return true;
    }
    if !lossy {
        return false;
    }
    let more: Vec<&'static str> = vec![
        "170918_tn_neutrophil_migration_wave.ome.tif",
        "181003_multi_pos_time_course_1_MMStack.ome.tif",
        "MMStack_Pos0.ome.tif",
        "P1_T0.tif",
        "P1_T1.tif",
        "P1_T2.tif",
        "P1_T3.tif",
        "P1_T4.tif",
        "P1_T5.tif",
        "P1_T6.tif",
        "P1_T7.tif",
        "P1_T8.tif",
        "P1_T9.tif",
        "P2_T0.tif",
        "P2_T1.tif",
        "P2_T2.tif",
        "P2_T3.tif",
        "P2_T4.tif",
        "P2_T5.tif",
        "P2_T6.tif",
        "P2_T7.tif",
        "P2_T8.tif",
        "P2_T9.tif",
        "TSeries-camp-005_Cycle00001_Ch1_000001.ome.tif",
        "TSeries-camp-005_Cycle00001_Ch1_000002.ome.tif",
        "TSeries-camp-005_Cycle00001_Ch1_000003.ome.tif",
        "TSeries-camp-005_Cycle00001_Ch1_000004.ome.tif",
        "TSeries-camp-005_Cycle00001_Ch2_000001.ome.tif",
        "TSeries-camp-005_Cycle00001_Ch2_000002.ome.tif",
        "TSeries-camp-005_Cycle00001_Ch2_000003.ome.tif",
        "TSeries-camp-005_Cycle00001_Ch2_000004.ome.tif",
        "TSeries-camp-005_Cycle00002_Ch1_000001.ome.tif",
        "TSeries-camp-005_Cycle00002_Ch1_000002.ome.tif",
        "TSeries-camp-005_Cycle00002_Ch1_000003.ome.tif",
        "TSeries-camp-005_Cycle00002_Ch1_000004.ome.tif",
        "TSeries-camp-005_Cycle00002_Ch2_000001.ome.tif",
        "TSeries-camp-005_Cycle00002_Ch2_000002.ome.tif",
        "TSeries-camp-005_Cycle00002_Ch2_000003.ome.tif",
        "TSeries-camp-005_Cycle00002_Ch2_000004.ome.tif",
        "TSeries-camp-005_Cycle00003_Ch1_000001.ome.tif",
        "TSeries-camp-005_Cycle00003_Ch1_000002.ome.tif",
        "TSeries-camp-005_Cycle00003_Ch1_000003.ome.tif",
        "TSeries-camp-005_Cycle00003_Ch1_000004.ome.tif",
        "TSeries-camp-005_Cycle00003_Ch2_000001.ome.tif",
        "TSeries-camp-005_Cycle00003_Ch2_000002.ome.tif",
        "TSeries-camp-005_Cycle00003_Ch2_000003.ome.tif",
        "TSeries-camp-005_Cycle00003_Ch2_000004.ome.tif",
        "background_1_MMStack.ome.tif",
        "bali.tif",
        "big_g4.tif",
        "capitol.tif",
        "capitol2.tif",
        "caspian.tif",
        "cmyk-3c-16b.tiff",
        "cmyk-3c-32b-float.tiff",
        "cmyk-4c-8b.tiff",
        "earthlab.tif",
        "earthlab_compressed.tif",
        "fax2d.tif",
        "fax4.tif",
        "flower-minisblack-02.tif",
        "flower-minisblack-04.tif",
        "flower-minisblack-06.tif",
        "flower-minisblack-10.tif",
        "flower-minisblack-14.tif",
        "flower-minisblack-16.tif",
        "flower-minisblack-24.tif",
        "flower-minisblack-32.tif",
        "flower-palette-02.tif",
        "flower-palette-04.tif",
        "flower-palette-08.tif",
        "flower-palette-16.tif",
        "flower-rgb-contig-02.tif",
        "flower-rgb-contig-04.tif",
        "flower-rgb-contig-10.tif",
        "flower-rgb-contig-14.tif",
        "flower-rgb-contig-16.tif",
        "flower-rgb-contig-24.tif",
        "flower-rgb-contig-32.tif",
        "flower-rgb-planar-02.tif",
        "flower-rgb-planar-04.tif",
        "flower-rgb-planar-10.tif",
        "flower-rgb-planar-14.tif",
        "flower-rgb-planar-16.tif",
        "flower-rgb-planar-24.tif",
        "flower-rgb-planar-32.tif",
        "flower-separated-16.tif",
        "flower-separated-planar-16.tif",
        "g3test.tif",
        "geo-5b.tif",
        "gradient-1c-32b-float.tiff",
        "gradient-1c-32b.tiff",
        "gradient-1c-64b-float.tiff",
        "gradient-1c-64b.tiff",
        "gradient-3c-32b-float.tiff",
        "gradient-3c-32b.tiff",
        "gradient-3c-64b.tiff",
        "imagemagick_group4.tif",
        "int16.tif",
        "int16_rgb.tif",
        "int16_zstd.tif",
        "issue_69_lzw.tif",
        "issue_69_packbits.tif",
        "jello.tif",
        "jim___ah.tif",
        "ladoga.tif",
        "logluv-3c-16b.tif",
        "minisblack-1c-16b.tif",
        "minisblack-1c-3b.tif",
        "minisblack-1c-5b.tif",
        "minisblack-1c-7b.tif",
        "minisblack-1c-i16b.tif",
        "miniswhite-1c-1b.tif",
        "miniswhite-1c-3b.tif",
        "miniswhite-1c-6b.tif",
        "mri.tif",
        "off_l16.tif",
        "off_luv24.tif",
        "off_luv32.tif",
        "palette-1c-1b.tif",
        "palette-1c-4b.tif",
        "palette-1c-8b.tif",
        "poppies.tif",
        "predictor-3-gray-f32.tif",
        "predictor-3-rgb-f32.tif",
        "random-fp16-pred2.tif",
        "random-fp16-pred3.tif",
        "random-fp16.tif",
        "renamed_internalfilenames.ome.tif",
        "rgb-3c-16b.tif",
        "seq-1c-10b-6d739fa2.tif",
        "seq-1c-10b-hpredict-6d739fa2.tif",
        "seq-1c-10b-miniswhite-6d739fa2.tif",
        "seq-1c-14b-e883657f.tif",
        "seq-1c-14b-hpredict-e883657f.tif",
        "seq-1c-14b-miniswhite-e883657f.tif",
        "seq-1c-16b-bigendian-68f373a0.tif",
        "seq-1c-16b-deflate-68f373a0.tif",
        "seq-1c-16b-lzw-68f373a0.tif",
        "seq-1c-16b-multistrip-68f373a0.tif",
        "seq-1c-16b-tiled-68f373a0.tif",
        "seq-1c-1b-71f6a21a.tif",
        "seq-1c-1b-miniswhite-71f6a21a.tif",
        "seq-1c-24b-072a9dc9.tif",
        "seq-1c-24b-hpredict-072a9dc9.tif",
        "seq-1c-24b-miniswhite-072a9dc9.tif",
        "seq-1c-2b-58b25f76.tif",
        "seq-1c-32f-390fe673.tif",
        "seq-1c-32f-deflate-fpredict-390fe673.tif",
        "seq-1c-3b-ef237c07.tif",
        "seq-1c-3b-miniswhite-ef237c07.tif",
        "seq-1c-4b-fb92dcae.tif",
        "seq-1c-4b-miniswhite-fb92dcae.tif",
        "seq-1c-4b-palette-85108c5a.tif",
        "seq-1c-5b-73098d17.tif",
        "seq-1c-5b-miniswhite-73098d17.tif",
        "seq-1c-64f-afa8560e.tif",
        "seq-1c-64f-deflate-fpredict-afa8560e.tif",
        "seq-1c-6b-miniswhite-79cafbb6.tif",
        "seq-1c-7b-9c61ba70.tif",
        "seq-1c-7b-miniswhite-9c61ba70.tif",
        "seq-1c-8b-palette-89b39bc3.tif",
        "seq-1c-i16-63af2488.tif",
        "seq-1c-i32-99fddec2.tif",
        "seq-3c-10b-contig-d08d5dc0.tif",
        "seq-3c-10b-planar-c82e8ab6.tif",
        "seq-3c-14b-contig-f4dcc6cc.tif",
        "seq-3c-14b-planar-4dde706b.tif",
        "seq-3c-16b-bigtiff-1b40ca6e.tif",
        "seq-3c-24b-contig-27b9f8ce.tif",
        "seq-3c-24b-planar-6296c0c9.tif",
        "seq-3c-32f-9a471c2b.tif",
        "seq-3c-5b-contig-09f197f4.tif",
        "seq-3c-64f-9fff098a.tif",
        "seq-3c-7b-contig-2e4f43c5.tif",
        "seq-3c-i16-f7fcf423.tif",
        "seq-4c-16b-cmyk-c6e52592.tif",
        "seq-4c-16b-rgba-5181991f.tif",
        "shapes_hyper.tif",
        "shapes_lzw_14bps.tif",
        "shapes_lzw_palette.tif",
        "shapes_lzw_planar_10bps.tif",
        "shapes_lzw_predictor3.tif",
        "shapes_multi_color.tif",
        "single-black-fp16.tif",
        "spine.tif",
        "spring.tif",
        "tiled-gray-i1.tif",
        "white-fp16-pred2.tif",
        "white-fp16-pred3.tif",
        "white-fp16.tif",
    ];
    assert(more@ =~= lossy_skipped());
    is_listed(&more, name)
}

} // verus!
