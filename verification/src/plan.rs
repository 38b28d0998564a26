//! Decisions of the compress command: which codecs and predictors to try,
//! which level to ask of the codec, and which of the tried combinations wins.

use vstd::prelude::*;
use crate::tiff::{
    COMPRESSION_ADOBE_DEFLATE, COMPRESSION_CCITTFAX3, COMPRESSION_CCITTFAX4, COMPRESSION_DEFLATE,
    COMPRESSION_JPEG, COMPRESSION_JPEGXL, COMPRESSION_LZMA, COMPRESSION_LZW, COMPRESSION_NONE,
    COMPRESSION_PACKBITS, COMPRESSION_WEBP, COMPRESSION_ZSTD, PREDICTOR_FLOATINGPOINT,
    PREDICTOR_HORIZONTAL, PREDICTOR_NONE, SAMPLEFORMAT_IEEEFP, SAMPLEFORMAT_INT,
    SAMPLEFORMAT_UINT, TIFFTAG_DEFLATELEVEL, TIFFTAG_JPEGQUALITY, TIFFTAG_LZMAPRESET,
    TIFFTAG_WEBP_LEVEL, TIFFTAG_ZIPQUALITY, TIFFTAG_ZSTD_LEVEL,
};

verus! {

/// Output compression scheme.
#[derive(Clone, Copy, PartialEq, Eq, Debug, Structural)]
pub enum CompressionFormat {
    Uncompressed,
    Deflate,
    Zstd,
    Lzma,
    Lzw,
    Packbits,
    Jpeg,
    Webp,
    JpegXl,
}

/// Predictor applied before compression.
#[derive(Clone, Copy, PartialEq, Eq, Debug, Structural)]
pub enum Predictor {
    NoPredictor,
    Horizontal,
    FloatingPoint,
}

/// The libtiff compression identifier of a format.
pub open spec fn format_id(f: CompressionFormat) -> u16 {
    match f {
        CompressionFormat::Uncompressed => COMPRESSION_NONE,
        CompressionFormat::Deflate => COMPRESSION_ADOBE_DEFLATE,
        CompressionFormat::Zstd => COMPRESSION_ZSTD,
        CompressionFormat::Lzma => COMPRESSION_LZMA,
        CompressionFormat::Lzw => COMPRESSION_LZW,
        CompressionFormat::Packbits => COMPRESSION_PACKBITS,
        CompressionFormat::Jpeg => COMPRESSION_JPEG,
        CompressionFormat::Webp => COMPRESSION_WEBP,
        CompressionFormat::JpegXl => COMPRESSION_JPEGXL,
    }
}

/// The libtiff predictor identifier of a predictor.
pub open spec fn predictor_id(p: Predictor) -> u16 {
    match p {
        Predictor::NoPredictor => PREDICTOR_NONE,
        Predictor::Horizontal => PREDICTOR_HORIZONTAL,
        Predictor::FloatingPoint => PREDICTOR_FLOATINGPOINT,
    }
}

/// Lossy formats, which take no predictor.
pub open spec fn is_lossy(f: CompressionFormat) -> bool {
    f == CompressionFormat::Jpeg || f == CompressionFormat::Webp
}

impl CompressionFormat {
    /// The libtiff compression identifier.
    pub fn to_ffi(self) -> (r: u16)
        ensures
            r == format_id(self),
    {
        match self {
            CompressionFormat::Uncompressed => COMPRESSION_NONE,
            CompressionFormat::Deflate => COMPRESSION_ADOBE_DEFLATE,
            CompressionFormat::Zstd => COMPRESSION_ZSTD,
            CompressionFormat::Lzma => COMPRESSION_LZMA,
            CompressionFormat::Lzw => COMPRESSION_LZW,
            CompressionFormat::Packbits => COMPRESSION_PACKBITS,
            CompressionFormat::Jpeg => COMPRESSION_JPEG,
            CompressionFormat::Webp => COMPRESSION_WEBP,
            CompressionFormat::JpegXl => COMPRESSION_JPEGXL,
        }
    }

    /// The variant's name, as the tool prints it.
    pub fn name(self) -> (r: &'static str)
        ensures
            r@ == format_name(self)@,
    {
        match self {
            CompressionFormat::Uncompressed => "Uncompressed",
            CompressionFormat::Deflate => "Deflate",
            CompressionFormat::Zstd => "Zstd",
            CompressionFormat::Lzma => "Lzma",
            CompressionFormat::Lzw => "Lzw",
            CompressionFormat::Packbits => "Packbits",
            CompressionFormat::Jpeg => "Jpeg",
            CompressionFormat::Webp => "Webp",
            CompressionFormat::JpegXl => "JpegXl",
        }
    }
}

/// The printed name of a format.
pub open spec fn format_name(f: CompressionFormat) -> &'static str {
    match f {
        CompressionFormat::Uncompressed => "Uncompressed",
        CompressionFormat::Deflate => "Deflate",
        CompressionFormat::Zstd => "Zstd",
        CompressionFormat::Lzma => "Lzma",
        CompressionFormat::Lzw => "Lzw",
        CompressionFormat::Packbits => "Packbits",
        CompressionFormat::Jpeg => "Jpeg",
        CompressionFormat::Webp => "Webp",
        CompressionFormat::JpegXl => "JpegXl",
    }
}

/// The printed name of a predictor.
pub open spec fn predictor_name(p: Predictor) -> &'static str {
    match p {
        Predictor::NoPredictor => "None",
        Predictor::Horizontal => "Horizontal",
        Predictor::FloatingPoint => "FloatingPoint",
    }
}

impl Predictor {
    /// The libtiff predictor identifier.
    pub fn to_ffi(self) -> (r: u16)
        ensures
            r == predictor_id(self),
    {
        match self {
            Predictor::NoPredictor => PREDICTOR_NONE,
            Predictor::Horizontal => PREDICTOR_HORIZONTAL,
            Predictor::FloatingPoint => PREDICTOR_FLOATINGPOINT,
        }
    }

    /// The variant's name, as the tool prints it.
    pub fn name(self) -> (r: &'static str)
        ensures
            r@ == predictor_name(self)@,
    {
        match self {
            Predictor::NoPredictor => "None",
            Predictor::Horizontal => "Horizontal",
            Predictor::FloatingPoint => "FloatingPoint",
        }
    }
}

/// Human-readable name of a libtiff compression identifier.
pub open spec fn compression_label(comp: u16) -> &'static str {
    if comp == COMPRESSION_NONE {
        "Uncompressed"
    } else if comp == COMPRESSION_ADOBE_DEFLATE || comp == COMPRESSION_DEFLATE {
        "Deflate"
    } else if comp == COMPRESSION_ZSTD {
        "Zstd"
    } else if comp == COMPRESSION_LZMA {
        "LZMA"
    } else if comp == COMPRESSION_LZW {
        "LZW"
    } else if comp == COMPRESSION_PACKBITS {
        "PackBits"
    } else if comp == COMPRESSION_JPEG {
        "JPEG"
    } else if comp == COMPRESSION_WEBP {
        "WebP"
    } else if comp == COMPRESSION_JPEGXL {
        "JPEG-XL"
    } else if comp == COMPRESSION_CCITTFAX3 {
        "CCITT Group 3"
    } else if comp == COMPRESSION_CCITTFAX4 {
        "CCITT Group 4"
    } else {
        "Unknown"
    }
}

/// Human-readable name of a libtiff compression identifier.
pub fn compression_name(comp: u16) -> (r: &'static str)
    ensures
        r@ == compression_label(comp)@,
{
    if comp == COMPRESSION_NONE {
        "Uncompressed"
    } else if comp == COMPRESSION_ADOBE_DEFLATE || comp == COMPRESSION_DEFLATE {
        "Deflate"
    } else if comp == COMPRESSION_ZSTD {
        "Zstd"
    } else if comp == COMPRESSION_LZMA {
        "LZMA"
    } else if comp == COMPRESSION_LZW {
        "LZW"
    } else if comp == COMPRESSION_PACKBITS {
        "PackBits"
    } else if comp == COMPRESSION_JPEG {
        "JPEG"
    } else if comp == COMPRESSION_WEBP {
        "WebP"
    } else if comp == COMPRESSION_JPEGXL {
        "JPEG-XL"
    } else if comp == COMPRESSION_CCITTFAX3 {
        "CCITT Group 3"
    } else if comp == COMPRESSION_CCITTFAX4 {
        "CCITT Group 4"
    } else {
        "Unknown"
    }
}

/// Human-readable name of a sample format.
pub open spec fn sample_format_label(fmt: u16) -> &'static str {
    if fmt == SAMPLEFORMAT_UINT {
        "Unsigned Integer"
    } else if fmt == SAMPLEFORMAT_INT {
        "Signed Integer"
    } else if fmt == SAMPLEFORMAT_IEEEFP {
        "Floating Point"
    } else {
        "Unknown"
    }
}

/// Human-readable name of a sample format.
pub fn sample_format_name(fmt: u16) -> (r: &'static str)
    ensures
        r@ == sample_format_label(fmt)@,
{
    if fmt == SAMPLEFORMAT_UINT {
        "Unsigned Integer"
    } else if fmt == SAMPLEFORMAT_INT {
        "Signed Integer"
    } else if fmt == SAMPLEFORMAT_IEEEFP {
        "Floating Point"
    } else {
        "Unknown"
    }
}

/// Whether the output is quantized to 8 bits: on request, and always in lossy
/// mode for samples wider than 8 bits.
pub fn effective_quantize(quantize: bool, lossy: bool, bps: u16) -> (r: bool)
    ensures
        r == (quantize || (lossy && bps > 8)),
{
    quantize || (lossy && bps > 8)
}

/// Formats tried: the extreme set, the lossy pair, or the requested format.
pub open spec fn candidate_formats_spec(extreme: bool, lossy: bool, format: CompressionFormat) -> Seq<
    CompressionFormat,
> {
    if extreme {
        seq![
            CompressionFormat::Uncompressed,
            CompressionFormat::Zstd,
            CompressionFormat::Lzma,
            CompressionFormat::Deflate,
            CompressionFormat::JpegXl,
        ]
    } else if lossy {
        seq![CompressionFormat::Webp, CompressionFormat::Jpeg]
    } else {
        seq![format]
    }
}

/// Formats tried for one file.
pub fn candidate_formats(extreme: bool, lossy: bool, format: CompressionFormat) -> (r: Vec<
    CompressionFormat,
>)
    ensures
        r@ == candidate_formats_spec(extreme, lossy, format),
{
    let mut v: Vec<CompressionFormat> = Vec::new();
    if extreme {
        v.push(CompressionFormat::Uncompressed);
        v.push(CompressionFormat::Zstd);
        v.push(CompressionFormat::Lzma);
        v.push(CompressionFormat::Deflate);
        v.push(CompressionFormat::JpegXl);
    } else if lossy {
        v.push(CompressionFormat::Webp);
        v.push(CompressionFormat::Jpeg);
    } else {
        v.push(format);
    }
    proof {
        assert(v@ =~= candidate_formats_spec(extreme, lossy, format));
    }
    v
}

/// Predictors tried: every applicable one in extreme mode (the floating-point
/// predictor only for float data), none in lossy mode, else horizontal.
pub open spec fn candidate_predictors_spec(extreme: bool, lossy: bool, is_float: bool) -> Seq<
    Predictor,
> {
    if extreme {
        if is_float {
            seq![Predictor::NoPredictor, Predictor::Horizontal, Predictor::FloatingPoint]
        } else {
            seq![Predictor::NoPredictor, Predictor::Horizontal]
        }
    } else if lossy {
        seq![Predictor::NoPredictor]
    } else {
        seq![Predictor::Horizontal]
    }
}

/// Predictors tried for one file.
pub fn candidate_predictors(extreme: bool, lossy: bool, is_float: bool) -> (r: Vec<Predictor>)
    ensures
        r@ == candidate_predictors_spec(extreme, lossy, is_float),
{
    let mut v: Vec<Predictor> = Vec::new();
    if extreme {
        v.push(Predictor::NoPredictor);
        v.push(Predictor::Horizontal);
        if is_float {
            v.push(Predictor::FloatingPoint);
        }
    } else if lossy {
        v.push(Predictor::NoPredictor);
    } else {
        v.push(Predictor::Horizontal);
    }
    proof {
        assert(v@ =~= candidate_predictors_spec(extreme, lossy, is_float));
    }
    v
}

/// The level asked of the codec: the requested one; when none was
/// requested, 90 for lossy output and 19 for Zstd.
pub open spec fn effective_level_spec(level: Option<u32>, lossy: bool, format: CompressionFormat) -> Option<
    u32,
> {
    if level.is_none() && (lossy || is_lossy(format)) {
        Some(90)
    } else if level.is_none() && format == CompressionFormat::Zstd {
        Some(19)
    } else {
        level
    }
}

/// The level asked of the codec.
pub fn effective_level(level: Option<u32>, lossy: bool, format: CompressionFormat) -> (r: Option<
    u32,
>)
    ensures
        r == effective_level_spec(level, lossy, format),
{
    if level.is_none() && (lossy || format == CompressionFormat::Jpeg || format
        == CompressionFormat::Webp) {
        Some(90)
    } else if level.is_none() && format == CompressionFormat::Zstd {
        Some(19)
    } else {
        level
    }
}

/// Whether the combinations are compared before the final pass.
pub fn should_benchmark(extreme: bool, lossy: bool, num_formats: usize) -> (r: bool)
    ensures
        r == (extreme || (lossy && num_formats > 1)),
{
    extreme || (lossy && num_formats > 1)
}

/// The (format, predictor) pairs compared, format by format in order, without
/// pairing a lossy format with a predictor.
pub open spec fn combinations_spec(formats: Seq<CompressionFormat>, predictors: Seq<Predictor>) -> Seq<
    (CompressionFormat, Predictor),
>
    decreases formats.len(),
{
    if formats.len() == 0 {
        Seq::empty()
    } else {
        combinations_spec(formats.drop_last(), predictors) + pairs_for(formats.last(), predictors)
    }
}

/// The pairs of one format with the predictors it takes, in order.
pub open spec fn pairs_for(f: CompressionFormat, predictors: Seq<Predictor>) -> Seq<
    (CompressionFormat, Predictor),
>
    decreases predictors.len(),
{
    if predictors.len() == 0 {
        Seq::empty()
    } else {
        let rest = pairs_for(f, predictors.drop_last());
        if is_lossy(f) && predictors.last() != Predictor::NoPredictor {
            rest
        } else {
            rest.push((f, predictors.last()))
        }
    }
}

/// The (format, predictor) pairs compared.
pub fn benchmark_combinations(formats: &Vec<CompressionFormat>, predictors: &Vec<Predictor>) -> (r: Vec<
    (CompressionFormat, Predictor),
>)
    ensures
        r@ == combinations_spec(formats@, predictors@),
{
    let mut out: Vec<(CompressionFormat, Predictor)> = Vec::new();
    let mut i: usize = 0;
    while i < formats.len()
        invariant
            i <= formats@.len(),
            out@ == combinations_spec(formats@.take(i as int), predictors@),
        decreases formats@.len() - i,
    {
        let f = formats[i];
        let ghost before = out@;
        let mut j: usize = 0;
        proof {
            assert(predictors@.take(0) =~= Seq::<Predictor>::empty());
            assert(before =~= before + pairs_for(f, predictors@.take(0)));
        }
        while j < predictors.len()
            invariant
                j <= predictors@.len(),
                out@ == before + pairs_for(f, predictors@.take(j as int)),
            decreases predictors@.len() - j,
        {
            let p = predictors[j];
            proof {
                assert(predictors@.take(j + 1).drop_last() =~= predictors@.take(j as int));
            }
            if !((f == CompressionFormat::Jpeg || f == CompressionFormat::Webp) && p
                != Predictor::NoPredictor) {
                out.push((f, p));
                proof {
                    assert(out@ =~= before + pairs_for(f, predictors@.take(j + 1)));
                }
            }
            j = j + 1;
        }
        proof {
            assert(predictors@.take(predictors@.len() as int) =~= predictors@);
            assert(formats@.take(i + 1).drop_last() =~= formats@.take(i as int));
        }
        i = i + 1;
    }
    proof {
        assert(formats@.take(formats@.len() as int) =~= formats@);
    }
    out
}

/// The pairs of one format never pair a lossy format with a predictor, and
/// hold only that format and given predictors.
proof fn lemma_pairs_for(f: CompressionFormat, predictors: Seq<Predictor>)
    ensures
        forall|i: int|
            0 <= i < pairs_for(f, predictors).len() ==> {
                let pair = #[trigger] pairs_for(f, predictors)[i];
                &&& pair.0 == f
                &&& predictors.contains(pair.1)
                &&& is_lossy(pair.0) ==> pair.1 == Predictor::NoPredictor
            },
    decreases predictors.len(),
{
    if predictors.len() > 0 {
        let rest = predictors.drop_last();
        lemma_pairs_for(f, rest);
        assert forall|i: int| 0 <= i < pairs_for(f, predictors).len() implies {
            let pair = #[trigger] pairs_for(f, predictors)[i];
            &&& pair.0 == f
            &&& predictors.contains(pair.1)
            &&& is_lossy(pair.0) ==> pair.1 == Predictor::NoPredictor
        } by {
            let pr = pairs_for(f, rest);
            if i < pr.len() {
                let j = choose|j: int| 0 <= j < rest.len() && rest[j] == pr[i].1;
                assert(predictors[j] == rest[j]);
            } else {
                assert(predictors[predictors.len() - 1] == predictors.last());
            }
        }
    }
}

/// The compared combinations never pair a lossy format (JPEG, WebP) with a
/// predictor, and every one is a candidate format with a candidate
/// predictor.
pub proof fn law_combinations_respect_lossy(formats: Seq<CompressionFormat>, predictors: Seq<Predictor>)
    ensures
        forall|i: int|
            0 <= i < combinations_spec(formats, predictors).len() ==> {
                let pair = #[trigger] combinations_spec(formats, predictors)[i];
                &&& formats.contains(pair.0)
                &&& predictors.contains(pair.1)
                &&& is_lossy(pair.0) ==> pair.1 == Predictor::NoPredictor
            },
    decreases formats.len(),
{
    if formats.len() > 0 {
        let rest = formats.drop_last();
        let f = formats.last();
        law_combinations_respect_lossy(rest, predictors);
        lemma_pairs_for(f, predictors);
        assert forall|i: int| 0 <= i < combinations_spec(formats, predictors).len() implies {
            let pair = #[trigger] combinations_spec(formats, predictors)[i];
            &&& formats.contains(pair.0)
            &&& predictors.contains(pair.1)
            &&& is_lossy(pair.0) ==> pair.1 == Predictor::NoPredictor
        } by {
            let head = combinations_spec(rest, predictors);
            if i < head.len() {
                let j = choose|j: int| 0 <= j < rest.len() && rest[j] == head[i].0;
                assert(formats[j] == rest[j]);
            } else {
                let k = i - head.len();
                assert(pairs_for(f, predictors)[k] == combinations_spec(formats, predictors)[i]);
                assert(formats[formats.len() - 1] == f);
            }
        }
    }
}

/// Predictor actually written: only codecs that take one get one, the
/// horizontal predictor only for 8/16/32-bit integers, the floating-point one
/// only for 16/24/32/64-bit floats; otherwise none.
pub open spec fn final_predictor_spec(compression: u16, requested: u16, bps: u16, fmt: u16) -> u16 {
    if compression == COMPRESSION_LZW || compression == COMPRESSION_ADOBE_DEFLATE || compression
        == COMPRESSION_ZSTD || compression == COMPRESSION_LZMA || compression == COMPRESSION_JPEGXL {
        if requested == PREDICTOR_HORIZONTAL {
            if (bps == 8 || bps == 16 || bps == 32) && (fmt == SAMPLEFORMAT_UINT || fmt
                == SAMPLEFORMAT_INT) {
                PREDICTOR_HORIZONTAL
            } else {
                PREDICTOR_NONE
            }
        } else if requested == PREDICTOR_FLOATINGPOINT {
            if fmt == SAMPLEFORMAT_IEEEFP && (bps == 16 || bps == 24 || bps == 32 || bps == 64) {
                PREDICTOR_FLOATINGPOINT
            } else {
                PREDICTOR_NONE
            }
        } else {
            PREDICTOR_NONE
        }
    } else {
        PREDICTOR_NONE
    }
}

/// The predictors tried: only horizontal differencing for a plain
/// compression, none for lossy output, and for the extreme search no
/// predictor and horizontal differencing, plus the floating-point predictor
/// exactly when the data are floats; never one twice.
pub proof fn law_candidate_predictors(extreme: bool, lossy: bool, is_float: bool)
    ensures
        ({
            let p = candidate_predictors_spec(extreme, lossy, is_float);
            &&& !extreme && !lossy ==> p == seq![Predictor::Horizontal]
            &&& !extreme && lossy ==> p == seq![Predictor::NoPredictor]
            &&& extreme ==> p[0] == Predictor::NoPredictor && p.contains(Predictor::Horizontal)
                && (p.contains(Predictor::FloatingPoint) <==> is_float)
            &&& p.no_duplicates()
            &&& p.len() >= 1
        }),
{
    let p = candidate_predictors_spec(extreme, lossy, is_float);
    if extreme {
        assert(p[1] == Predictor::Horizontal);
        if is_float {
            assert(p[2] == Predictor::FloatingPoint);
        } else {
            assert(!p.contains(Predictor::FloatingPoint)) by {
                if p.contains(Predictor::FloatingPoint) {
                    let i = choose|i: int| 0 <= i < p.len() && p[i] == Predictor::FloatingPoint;
                }
            }
        }
    }
}

/// The predictor written for a page: a requested horizontal predictor is
/// kept for 8-, 16- and 32-bit integer samples, a requested floating-point
/// predictor for 16-, 24-, 32- and 64-bit floats, and only by the codecs
/// that take a predictor (LZW, Deflate, Zstd, LZMA, JPEG-XL); in every other
/// case no predictor is written.
pub proof fn law_final_predictor(compression: u16, requested: u16, bps: u16, fmt: u16)
    ensures
        ({
            let r = final_predictor_spec(compression, requested, bps, fmt);
            let codec = compression == COMPRESSION_LZW || compression == COMPRESSION_ADOBE_DEFLATE
                || compression == COMPRESSION_ZSTD || compression == COMPRESSION_LZMA
                || compression == COMPRESSION_JPEGXL;
            let int_data = (bps == 8 || bps == 16 || bps == 32) && (fmt == SAMPLEFORMAT_UINT || fmt
                == SAMPLEFORMAT_INT);
            let float_data = fmt == SAMPLEFORMAT_IEEEFP && (bps == 16 || bps == 24 || bps == 32
                || bps == 64);
            &&& r == PREDICTOR_HORIZONTAL <==> codec && requested == PREDICTOR_HORIZONTAL && int_data
            &&& r == PREDICTOR_FLOATINGPOINT <==> codec && requested == PREDICTOR_FLOATINGPOINT
                && float_data
            &&& r == PREDICTOR_NONE || r == PREDICTOR_HORIZONTAL || r == PREDICTOR_FLOATINGPOINT
        }),
{
}

/// Every codec that takes a predictor writes the same predictor for a page:
/// which of them is chosen does not change it.
pub proof fn law_final_predictor_same_for_codecs(c1: u16, c2: u16, requested: u16, bps: u16, fmt: u16)
    requires
        c1 == COMPRESSION_LZW || c1 == COMPRESSION_ADOBE_DEFLATE || c1 == COMPRESSION_ZSTD || c1
            == COMPRESSION_LZMA || c1 == COMPRESSION_JPEGXL,
        c2 == COMPRESSION_LZW || c2 == COMPRESSION_ADOBE_DEFLATE || c2 == COMPRESSION_ZSTD || c2
            == COMPRESSION_LZMA || c2 == COMPRESSION_JPEGXL,
    ensures
        final_predictor_spec(c1, requested, bps, fmt) == final_predictor_spec(c2, requested, bps, fmt),
{
}

/// Predictor actually written for a page.
pub fn final_predictor(compression: u16, requested: u16, bps: u16, fmt: u16) -> (r: u16)
    ensures
        r == final_predictor_spec(compression, requested, bps, fmt),
{
    if compression == COMPRESSION_LZW || compression == COMPRESSION_ADOBE_DEFLATE || compression
        == COMPRESSION_ZSTD || compression == COMPRESSION_LZMA || compression == COMPRESSION_JPEGXL {
        if requested == PREDICTOR_HORIZONTAL {
            if (bps == 8 || bps == 16 || bps == 32) && (fmt == SAMPLEFORMAT_UINT || fmt
                == SAMPLEFORMAT_INT) {
                PREDICTOR_HORIZONTAL
            } else {
                PREDICTOR_NONE
            }
        } else if requested == PREDICTOR_FLOATINGPOINT {
            if fmt == SAMPLEFORMAT_IEEEFP && (bps == 16 || bps == 24 || bps == 32 || bps == 64) {
                PREDICTOR_FLOATINGPOINT
            } else {
                PREDICTOR_NONE
            }
        } else {
            PREDICTOR_NONE
        }
    } else {
        PREDICTOR_NONE
    }
}

/// `v` brought into `[lo, hi]`.
pub open spec fn clamp_spec(v: u32, lo: u32, hi: u32) -> u32 {
    if v < lo {
        lo
    } else if v > hi {
        hi
    } else {
        v
    }
}

/// `v` brought into `[lo, hi]`.
pub fn clamp_u32(v: u32, lo: u32, hi: u32) -> (r: u32)
    requires
        lo <= hi,
    ensures
        r == clamp_spec(v, lo, hi),
{
    if v < lo {
        lo
    } else if v > hi {
        hi
    } else {
        v
    }
}

/// The codec tag that carries a requested level, and the value given to it:
/// LZMA preset and Deflate level 1-9, Zstd level 1-22, JPEG quality, WebP
/// level and JPEG-XL level 1-100; other codecs take no level.
pub open spec fn level_setting_spec(compression: u16, level: u32) -> Option<(u32, i32)> {
    if compression == COMPRESSION_LZMA {
        Some((TIFFTAG_LZMAPRESET, clamp_spec(level, 1, 9) as i32))
    } else if compression == COMPRESSION_ADOBE_DEFLATE {
        Some((TIFFTAG_ZIPQUALITY, clamp_spec(level, 1, 9) as i32))
    } else if compression == COMPRESSION_ZSTD {
        Some((TIFFTAG_ZSTD_LEVEL, clamp_spec(level, 1, 22) as i32))
    } else if compression == COMPRESSION_JPEGXL {
        Some((TIFFTAG_DEFLATELEVEL, clamp_spec(level, 1, 100) as i32))
    } else if compression == COMPRESSION_JPEG {
        Some((TIFFTAG_JPEGQUALITY, clamp_spec(level, 1, 100) as i32))
    } else if compression == COMPRESSION_WEBP {
        Some((TIFFTAG_WEBP_LEVEL, clamp_spec(level, 1, 100) as i32))
    } else {
        None
    }
}

/// The codec tag that carries a requested level, and its value.
pub fn level_setting(compression: u16, level: u32) -> (r: Option<(u32, i32)>)
    ensures
        r == level_setting_spec(compression, level),
{
    if compression == COMPRESSION_LZMA {
        Some((TIFFTAG_LZMAPRESET, clamp_u32(level, 1, 9) as i32))
    } else if compression == COMPRESSION_ADOBE_DEFLATE {
        Some((TIFFTAG_ZIPQUALITY, clamp_u32(level, 1, 9) as i32))
    } else if compression == COMPRESSION_ZSTD {
        Some((TIFFTAG_ZSTD_LEVEL, clamp_u32(level, 1, 22) as i32))
    } else if compression == COMPRESSION_JPEGXL {
        Some((TIFFTAG_DEFLATELEVEL, clamp_u32(level, 1, 100) as i32))
    } else if compression == COMPRESSION_JPEG {
        Some((TIFFTAG_JPEGQUALITY, clamp_u32(level, 1, 100) as i32))
    } else if compression == COMPRESSION_WEBP {
        Some((TIFFTAG_WEBP_LEVEL, clamp_u32(level, 1, 100) as i32))
    } else {
        None
    }
}

/// The formats tried: the extreme search tries the five lossless schemes
/// (none of them lossy, Zstd among them), a lossy request tries WebP then
/// JPEG, and otherwise only the requested format is tried.
pub proof fn law_candidate_formats(extreme: bool, lossy: bool, format: CompressionFormat)
    ensures
        ({
            let f = candidate_formats_spec(extreme, lossy, format);
            &&& extreme ==> f.len() == 5 && f.no_duplicates() && (forall|i: int|
                0 <= i < f.len() ==> !is_lossy(#[trigger] f[i])) && f.contains(
                CompressionFormat::Zstd,
            ) && f.contains(CompressionFormat::Lzma) && f.contains(CompressionFormat::Deflate)
                && f.contains(CompressionFormat::Uncompressed) && f.contains(
                CompressionFormat::JpegXl,
            )
            &&& !extreme && lossy ==> f == seq![CompressionFormat::Webp, CompressionFormat::Jpeg]
            &&& !extreme && !lossy ==> f == seq![format]
        }),
{
    let f = candidate_formats_spec(extreme, lossy, format);
    if extreme {
        assert(f[0] == CompressionFormat::Uncompressed);
        assert(f[1] == CompressionFormat::Zstd);
        assert(f[2] == CompressionFormat::Lzma);
        assert(f[3] == CompressionFormat::Deflate);
        assert(f[4] == CompressionFormat::JpegXl);
    }
}

/// The level asked of the codec: a requested level is passed on unchanged;
/// without one, lossy output (asked for, or a lossy format) gets 90, a Zstd
/// compression gets 19, and any other codec its own default (no level).
pub proof fn law_effective_level(level: Option<u32>, lossy: bool, format: CompressionFormat)
    ensures
        ({
            let r = effective_level_spec(level, lossy, format);
            let lossy_out = lossy || format == CompressionFormat::Jpeg || format
                == CompressionFormat::Webp;
            &&& level.is_some() ==> r == level
            &&& level.is_none() && lossy_out ==> r == Some(90u32)
            &&& level.is_none() && !lossy_out && format == CompressionFormat::Zstd ==> r == Some(
                19u32,
            )
            &&& level.is_none() && !lossy_out && format != CompressionFormat::Zstd ==> r.is_none()
        }),
{
}

/// `v` is `level` brought into `[lo, hi]`: unchanged inside the range, the
/// nearer bound outside it.
pub open spec fn clamped_to(v: int, level: int, lo: int, hi: int) -> bool {
    &&& lo <= v <= hi
    &&& lo <= level <= hi ==> v == level
    &&& level < lo ==> v == lo
    &&& level > hi ==> v == hi
}

/// The codec setting written for a requested level: LZMA's preset and
/// Deflate's level within 1-9, Zstd's level within 1-22, and the JPEG-XL,
/// JPEG and WebP settings within 1-100, each the requested level brought
/// into that range; codecs without a level setting get none.
pub proof fn law_level_setting(compression: u16, level: u32)
    ensures
        ({
            let r = level_setting_spec(compression, level);
            &&& compression == COMPRESSION_LZMA ==> r is Some && r.unwrap().0 == TIFFTAG_LZMAPRESET
                && clamped_to(r.unwrap().1 as int, level as int, 1, 9)
            &&& compression == COMPRESSION_ADOBE_DEFLATE ==> r is Some && r.unwrap().0
                == TIFFTAG_ZIPQUALITY && clamped_to(r.unwrap().1 as int, level as int, 1, 9)
            &&& compression == COMPRESSION_ZSTD ==> r is Some && r.unwrap().0 == TIFFTAG_ZSTD_LEVEL
                && clamped_to(r.unwrap().1 as int, level as int, 1, 22)
            &&& compression == COMPRESSION_JPEGXL ==> r is Some && r.unwrap().0 == TIFFTAG_DEFLATELEVEL
                && clamped_to(r.unwrap().1 as int, level as int, 1, 100)
            &&& compression == COMPRESSION_JPEG ==> r is Some && r.unwrap().0 == TIFFTAG_JPEGQUALITY
                && clamped_to(r.unwrap().1 as int, level as int, 1, 100)
            &&& compression == COMPRESSION_WEBP ==> r is Some && r.unwrap().0 == TIFFTAG_WEBP_LEVEL
                && clamped_to(r.unwrap().1 as int, level as int, 1, 100)
            &&& compression != COMPRESSION_LZMA && compression != COMPRESSION_ADOBE_DEFLATE
                && compression != COMPRESSION_ZSTD && compression != COMPRESSION_JPEGXL
                && compression != COMPRESSION_JPEG && compression != COMPRESSION_WEBP ==> r is None
        }),
{
}

/// The comparison of combinations: every successful trial, and the best one
/// so far (the first trial of the smallest size).
pub struct Tournament {
    best_format: CompressionFormat,
    best_predictor: Predictor,
    best_size: u64,
    results: Vec<(CompressionFormat, Predictor, u64)>,
}

impl Tournament {
    /// The kept trials, in order.
    pub closed spec fn trials(&self) -> Seq<(CompressionFormat, Predictor, u64)> {
        self.results@
    }

    /// The winner: format, predictor and size.
    pub closed spec fn winner(&self) -> (CompressionFormat, Predictor, u64) {
        (self.best_format, self.best_predictor, self.best_size)
    }

    /// The winner is the first kept trial of the smallest size; with no trial
    /// kept, the winner is the starting pair with size `u64::MAX`. Kept trials
    /// have a size strictly between 0 and `u64::MAX`.
    pub open spec fn consistent(&self, first: (CompressionFormat, Predictor)) -> bool {
        let t = self.trials();
        let w = self.winner();
        &&& forall|j: int| 0 <= j < t.len() ==> 0 < #[trigger] t[j].2 < u64::MAX
        &&& t.len() == 0 ==> w == (first.0, first.1, u64::MAX)
        &&& t.len() > 0 ==> exists|i: int|
            0 <= i < t.len() && #[trigger] t[i] == w && (forall|j: int|
                0 <= j < t.len() ==> w.2 <= #[trigger] t[j].2) && (forall|j: int|
                0 <= j < i ==> w.2 < #[trigger] t[j].2)
    }

    /// A comparison with no trial yet; `format` and `predictor` win unless a
    /// trial succeeds.
    pub fn new(format: CompressionFormat, predictor: Predictor) -> (r: Self)
        ensures
            r.trials() == Seq::<(CompressionFormat, Predictor, u64)>::empty(),
            r.winner() == (format, predictor, u64::MAX),
            r.consistent((format, predictor)),
    {
        Tournament {
            best_format: format,
            best_predictor: predictor,
            best_size: u64::MAX,
            results: Vec::new(),
        }
    }

    /// Records the outcome of one trial: the compressed size, or `None` when
    /// the trial failed. Sizes of 0 and `u64::MAX` count as failures. A kept
    /// trial wins when it is strictly smaller than the winner so far.
    pub fn record(&mut self, format: CompressionFormat, predictor: Predictor, outcome: Option<u64>)
        ensures
            match outcome {
                Some(size) if 0 < size < u64::MAX => {
                    &&& final(self).trials() == old(self).trials().push((format, predictor, size))
                    &&& final(self).winner() == if size < old(self).winner().2 {
                        (format, predictor, size)
                    } else {
                        old(self).winner()
                    }
                },
                _ => *final(self) == *old(self),
            },
    {
        if let Some(size) = outcome {
            if size > 0 && size < u64::MAX {
                self.results.push((format, predictor, size));
                if size < self.best_size {
                    self.best_size = size;
                    self.best_format = format;
                    self.best_predictor = predictor;
                }
            }
        }
    }

    /// The winner: format, predictor and size.
    pub fn best(&self) -> (r: (CompressionFormat, Predictor, u64))
        ensures
            r == self.winner(),
    {
        (self.best_format, self.best_predictor, self.best_size)
    }

    /// The kept trials, in order.
    pub fn results(&self) -> (r: &Vec<(CompressionFormat, Predictor, u64)>)
        ensures
            r@ == self.trials(),
    {
        &self.results
    }
}

/// Recording trials keeps the winner the first kept trial of the smallest
/// size (and the starting pair while no trial is kept).
pub proof fn law_winner_is_first_smallest(
    before: Tournament,
    after: Tournament,
    first: (CompressionFormat, Predictor),
    format: CompressionFormat,
    predictor: Predictor,
    outcome: Option<u64>,
)
    requires
        before.consistent(first),
        match outcome {
            Some(size) if 0 < size < u64::MAX => {
                &&& after.trials() == before.trials().push((format, predictor, size))
                &&& after.winner() == if size < before.winner().2 {
                    (format, predictor, size)
                } else {
                    before.winner()
                }
            },
            _ => after == before,
        },
    ensures
        after.consistent(first),
{
    match outcome {
        Some(size) => {
            if 0 < size < u64::MAX {
                let t = before.trials();
                let t2 = after.trials();
                let w = before.winner();
                let n = t.len() as int;
                if t.len() == 0 {
                    assert(t2[0] == after.winner());
                    assert(0 <= 0 < t2.len() && t2[0] == after.winner() && (forall|j: int|
                        0 <= j < t2.len() ==> after.winner().2 <= #[trigger] t2[j].2) && (forall|
                        j: int,
                    |
                        0 <= j < 0 ==> after.winner().2 < #[trigger] t2[j].2));
                } else {
                    let i = choose|i: int|
                        0 <= i < t.len() && #[trigger] t[i] == w && (forall|j: int|
                            0 <= j < t.len() ==> w.2 <= #[trigger] t[j].2) && (forall|j: int|
                            0 <= j < i ==> w.2 < #[trigger] t[j].2);
                    if size < w.2 {
                        assert(t2[n] == after.winner());
                        assert(forall|j: int| 0 <= j < t2.len() ==> after.winner().2 <= #[trigger] t2[j].2);
                        assert(forall|j: int| 0 <= j < n ==> after.winner().2 < #[trigger] t2[j].2);
                    } else {
                        assert(t2[i] == after.winner());
                        assert(forall|j: int| 0 <= j < t2.len() ==> after.winner().2 <= #[trigger] t2[j].2);
                        assert(forall|j: int| 0 <= j < i ==> after.winner().2 < #[trigger] t2[j].2);
                    }
                }
            }
        },
        None => {},
    }
}

} // verus!
