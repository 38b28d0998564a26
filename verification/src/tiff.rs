//! Numeric identifiers of the TIFF format used by the library: tags, compression
//! schemes, predictors, sample formats and photometric interpretations.

use vstd::prelude::*;

verus! {

/// A libtiff file handle. Its layout belongs to libtiff: a value is never
/// made or read here, only pointed to across the C interface.
pub struct TIFF {
    _opaque: [u8; 0],
}

pub const TIFFTAG_IMAGEWIDTH: u32 = 256;
pub const TIFFTAG_IMAGELENGTH: u32 = 257;
pub const TIFFTAG_BITSPERSAMPLE: u32 = 258;
pub const TIFFTAG_COMPRESSION: u32 = 259;
pub const TIFFTAG_PHOTOMETRIC: u32 = 262;
pub const TIFFTAG_IMAGEDESCRIPTION: u32 = 270;
pub const TIFFTAG_SAMPLESPERPIXEL: u32 = 277;
pub const TIFFTAG_ROWSPERSTRIP: u32 = 278;
pub const TIFFTAG_XRESOLUTION: u32 = 282;
pub const TIFFTAG_YRESOLUTION: u32 = 283;
pub const TIFFTAG_PLANARCONFIG: u32 = 284;
pub const TIFFTAG_RESOLUTIONUNIT: u32 = 296;
pub const TIFFTAG_PREDICTOR: u32 = 317;
pub const TIFFTAG_COLORMAP: u32 = 320;
pub const TIFFTAG_TILEWIDTH: u32 = 322;
pub const TIFFTAG_TILELENGTH: u32 = 323;
pub const TIFFTAG_INKSET: u32 = 332;
pub const TIFFTAG_DOTRANGE: u32 = 336;
pub const TIFFTAG_EXTRASAMPLES: u32 = 338;
pub const TIFFTAG_SAMPLEFORMAT: u32 = 339;
pub const TIFFTAG_INKNAMES: u32 = 340;
pub const TIFFTAG_NUMBEROFINKS: u32 = 345;
pub const TIFFTAG_YCBCRCOEFFICIENTS: u32 = 532;
pub const TIFFTAG_YCBCRSUBSAMPLING: u32 = 530;
pub const TIFFTAG_YCBCRPOSITION: u32 = 531;
pub const TIFFTAG_MODELPIXELSCALETAG: u32 = 33550;
pub const TIFFTAG_MODELTIEPOINTTAG: u32 = 33922;
pub const TIFFTAG_ICCPROFILE: u32 = 34675;
pub const TIFFTAG_GEOKEYDIRECTORYTAG: u32 = 34735;
pub const TIFFTAG_GEODOUBLEPARAMSTAG: u32 = 34736;
pub const TIFFTAG_GEOASCIIPARAMSTAG: u32 = 34737;

/// Pseudo-tags of libtiff that set codec parameters.
pub const TIFFTAG_ZSTD_LEVEL: u32 = 65564;
pub const TIFFTAG_DEFLATELEVEL: u32 = 320;
pub const TIFFTAG_ZIPQUALITY: u32 = 65557;
pub const TIFFTAG_LZMAPRESET: u32 = 34926;
pub const TIFFTAG_JPEGQUALITY: u32 = 65537;
pub const TIFFTAG_WEBP_LEVEL: u32 = 65568;

pub const PLANARCONFIG_CONTIG: u16 = 1;
pub const PLANARCONFIG_SEPARATE: u16 = 2;

pub const COMPRESSION_NONE: u16 = 1;
pub const COMPRESSION_CCITTFAX3: u16 = 3;
pub const COMPRESSION_CCITTFAX4: u16 = 4;
pub const COMPRESSION_LZW: u16 = 5;
pub const COMPRESSION_JPEG: u16 = 7;
pub const COMPRESSION_ADOBE_DEFLATE: u16 = 8;
pub const COMPRESSION_PACKBITS: u16 = 32773;
pub const COMPRESSION_DEFLATE: u16 = 32946;
pub const COMPRESSION_LZMA: u16 = 34925;
pub const COMPRESSION_ZSTD: u16 = 50000;
pub const COMPRESSION_WEBP: u16 = 50001;
pub const COMPRESSION_LERC: u16 = 50002;
pub const COMPRESSION_JPEGXL: u16 = 50005;

pub const PREDICTOR_NONE: u16 = 1;
pub const PREDICTOR_HORIZONTAL: u16 = 2;
pub const PREDICTOR_FLOATINGPOINT: u16 = 3;

pub const SAMPLEFORMAT_UINT: u16 = 1;
pub const SAMPLEFORMAT_INT: u16 = 2;
pub const SAMPLEFORMAT_IEEEFP: u16 = 3;

pub const PHOTOMETRIC_MINISBLACK: u16 = 0;
pub const PHOTOMETRIC_MINISWHITE: u16 = 1;
pub const PHOTOMETRIC_RGB: u16 = 2;
pub const PHOTOMETRIC_PALETTE: u16 = 3;
pub const PHOTOMETRIC_SEPARATED: u16 = 5;
pub const PHOTOMETRIC_YCBCR: u16 = 6;

} // verus!
