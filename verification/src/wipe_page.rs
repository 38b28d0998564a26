//! The wipe of one page: the fields written, the codec settings, and the
//! layout of the plane buffers whose samples are replaced by sorted ones.

use vstd::prelude::*;
use crate::histogram::{Histogram, histogram_supports};
use crate::ifd::{PageFields, interleaved_spp_spec};
use crate::plan::{clamp_spec, clamp_u32, final_predictor_spec};
use crate::tiff::{
    COMPRESSION_ZSTD,
    PHOTOMETRIC_MINISBLACK, PLANARCONFIG_CONTIG, PLANARCONFIG_SEPARATE, PREDICTOR_FLOATINGPOINT,
    PREDICTOR_HORIZONTAL, PREDICTOR_NONE, SAMPLEFORMAT_IEEEFP, SAMPLEFORMAT_INT,
    SAMPLEFORMAT_UINT,
};

verus! {

/// Largest plane read into memory by the sorting strategy: 16 GiB.
pub const MAX_PLANE_SIZE: u64 = 17179869184;

/// A page's fields with the defaults of the wipe path: 8 bits per sample,
/// one sample per pixel, unsigned samples, min-is-black and contiguous planes
/// when absent.
pub open spec fn wipe_defaults_spec(f: PageFields) -> PageFields {
    PageFields {
        bps: if f.bps == 0 {
            8
        } else {
            f.bps
        },
        spp: if f.spp == 0 {
            1
        } else {
            f.spp
        },
        fmt: if f.fmt == 0 {
            SAMPLEFORMAT_UINT
        } else {
            f.fmt
        },
        photometric: if f.photometric == 0 {
            PHOTOMETRIC_MINISBLACK
        } else {
            f.photometric
        },
        planar: if f.planar == 0 {
            PLANARCONFIG_CONTIG
        } else {
            f.planar
        },
    }
}

/// The page's fields with the defaults of the wipe path.
pub fn wipe_defaults(f: PageFields) -> (r: PageFields)
    ensures
        r == wipe_defaults_spec(f),
{
    PageFields {
        bps: if f.bps == 0 {
            8
        } else {
            f.bps
        },
        spp: if f.spp == 0 {
            1
        } else {
            f.spp
        },
        fmt: if f.fmt == 0 {
            SAMPLEFORMAT_UINT
        } else {
            f.fmt
        },
        photometric: if f.photometric == 0 {
            PHOTOMETRIC_MINISBLACK
        } else {
            f.photometric
        },
        planar: if f.planar == 0 {
            PLANARCONFIG_CONTIG
        } else {
            f.planar
        },
    }
}

/// Zstd level of a wiped page: the requested level, 9 by default, brought
/// into 1..=22.
pub open spec fn wipe_level_spec(level: Option<u32>) -> i32 {
    clamp_spec(
        match level {
            Some(l) => l,
            None => 9,
        },
        1,
        22,
    ) as i32
}

/// The Zstd level of a wiped page is 9 when none is requested, and the
/// requested level brought into 1-22 otherwise.
pub proof fn law_wipe_level(level: Option<u32>)
    ensures
        level.is_none() ==> wipe_level_spec(level) == 9,
        level.is_some() ==> crate::plan::clamped_to(
            wipe_level_spec(level) as int,
            level->0 as int,
            1,
            22,
        ),
{
}

/// Zstd level of a wiped page.
pub fn wipe_level(level: Option<u32>) -> (r: i32)
    ensures
        r == wipe_level_spec(level),
        1 <= r <= 22,
{
    let requested = match level {
        Some(l) => l,
        None => 9,
    };
    clamp_u32(requested, 1, 22) as i32
}

/// Predictor of a wiped page: sorted samples are monotonic, so floats take
/// the floating-point predictor and 8/16/32-bit integers the horizontal one.
pub open spec fn wipe_predictor_spec(bps: u16, fmt: u16) -> u16 {
    if fmt == SAMPLEFORMAT_IEEEFP && (bps == 16 || bps == 24 || bps == 32 || bps == 64) {
        PREDICTOR_FLOATINGPOINT
    } else if (bps == 8 || bps == 16 || bps == 32) && (fmt == SAMPLEFORMAT_UINT || fmt
        == SAMPLEFORMAT_INT) {
        PREDICTOR_HORIZONTAL
    } else {
        PREDICTOR_NONE
    }
}

/// Predictor of a wiped page.
pub fn wipe_predictor(bps: u16, fmt: u16) -> (r: u16)
    ensures
        r == wipe_predictor_spec(bps, fmt),
{
    if fmt == SAMPLEFORMAT_IEEEFP && (bps == 16 || bps == 24 || bps == 32 || bps == 64) {
        PREDICTOR_FLOATINGPOINT
    } else if (bps == 8 || bps == 16 || bps == 32) && (fmt == SAMPLEFORMAT_UINT || fmt
        == SAMPLEFORMAT_INT) {
        PREDICTOR_HORIZONTAL
    } else {
        PREDICTOR_NONE
    }
}

/// The predictor of a wiped page: horizontal differencing for 8-, 16- and
/// 32-bit integer samples, the floating-point predictor for 16-, 24-, 32-
/// and 64-bit floats, and none for any other sample type.
pub proof fn law_wipe_predictor(bps: u16, fmt: u16)
    ensures
        (bps == 8 || bps == 16 || bps == 32) && (fmt == SAMPLEFORMAT_UINT || fmt == SAMPLEFORMAT_INT)
            ==> wipe_predictor_spec(bps, fmt) == PREDICTOR_HORIZONTAL,
        fmt == SAMPLEFORMAT_IEEEFP && (bps == 16 || bps == 24 || bps == 32 || bps == 64)
            ==> wipe_predictor_spec(bps, fmt) == PREDICTOR_FLOATINGPOINT,
        !((bps == 8 || bps == 16 || bps == 32) && (fmt == SAMPLEFORMAT_UINT || fmt
            == SAMPLEFORMAT_INT)) && !(fmt == SAMPLEFORMAT_IEEEFP && (bps == 16 || bps == 24 || bps
            == 32 || bps == 64)) ==> wipe_predictor_spec(bps, fmt) == PREDICTOR_NONE,
{
}

/// The predictor of a wiped page is one that the compress path keeps for a
/// Zstd page of the same samples: the wipe never asks for a predictor that
/// the sample type does not allow.
pub proof fn law_wipe_predictor_kept(bps: u16, fmt: u16)
    ensures
        final_predictor_spec(COMPRESSION_ZSTD, wipe_predictor_spec(bps, fmt), bps, fmt)
            == wipe_predictor_spec(bps, fmt),
{
}

/// Why a page cannot be wiped.
#[derive(Clone, Copy, PartialEq, Eq, Debug, Structural)]
pub enum WipeRefusal {
    /// Samples wider than a byte but not a whole number of bytes (the width).
    PartialByteSamples(u16),
    /// Sub-byte samples whose bytes mix channels or row padding: the width of
    /// a sample, the channels in a plane and the image width.
    SubByteLayout(u16, usize, u32),
}

/// Layout of the plane buffers of a page to wipe.
#[derive(Clone, Copy, PartialEq, Eq, Debug, Structural)]
pub struct WipeLayout {
    /// Channels interleaved in one plane buffer.
    pub interleaved_spp: usize,
    /// Number of planes.
    pub num_planes: u16,
    /// Whole bytes per sample.
    pub bytes_per_sample: usize,
    /// Bytes of one row of a plane.
    pub in_row_size: usize,
    /// Whether the counting strategy applies (8/16-bit integers); otherwise
    /// the plane is read into memory and sorted.
    pub use_histogram: bool,
}

/// The layout of a page (fields already defaulted) of width `w`. Samples
/// wider than a byte must be whole bytes; sub-byte samples must not share a
/// byte with another channel or with row padding, since whole bytes are
/// sorted.
pub open spec fn wipe_layout_spec(w: u32, f: PageFields) -> Result<WipeLayout, WipeRefusal> {
    let ispp: nat = if f.planar == PLANARCONFIG_SEPARATE {
        1
    } else {
        f.spp as nat
    };
    let bytes: nat = (f.bps as nat + 7) / 8;
    if f.bps > 8 && f.bps % 8 != 0 {
        Err(WipeRefusal::PartialByteSamples(f.bps))
    } else if f.bps < 8 && (ispp > 1 || (w as nat * f.bps as nat) % 8 != 0) {
        Err(WipeRefusal::SubByteLayout(f.bps, ispp as usize, w))
    } else {
        Ok(
            WipeLayout {
                interleaved_spp: ispp as usize,
                num_planes: if f.planar == PLANARCONFIG_SEPARATE {
                    f.spp
                } else {
                    1
                },
                bytes_per_sample: bytes as usize,
                in_row_size: if f.bps >= 8 {
                    (w as nat * bytes * ispp) as usize
                } else {
                    ((w as nat * f.bps as nat * ispp + 7) / 8) as usize
                },
                use_histogram: f.bps >= 8 && histogram_supports(f.bps, f.fmt),
            },
        )
    }
}

/// The layout of a page to wipe, or why it cannot be wiped.
pub fn wipe_layout(w: u32, f: PageFields) -> (r: Result<WipeLayout, WipeRefusal>)
    requires
        w as nat * interleaved_spp_spec(f.spp, f.planar) * (f.bps as nat + 7) <= usize::MAX,
    ensures
        r == wipe_layout_spec(w, f),
{
    let ispp: usize = if f.planar == PLANARCONFIG_SEPARATE {
        1
    } else {
        f.spp as usize
    };
    let num_planes: u16 = if f.planar == PLANARCONFIG_SEPARATE {
        f.spp
    } else {
        1
    };
    if f.bps > 8 && f.bps % 8 != 0 {
        return Err(WipeRefusal::PartialByteSamples(f.bps));
    }
    let bps = f.bps as usize;
    proof {
        assert(w as nat * bps * ispp <= usize::MAX) by (nonlinear_arith)
            requires
                w as nat * ispp * (bps + 7) <= usize::MAX,
        ;
    }
    assert((w as u64) * (f.bps as u64) <= u64::MAX) by (nonlinear_arith);
    if f.bps < 8 && (ispp > 1 || ((w as u64) * (f.bps as u64)) % 8 != 0) {
        return Err(WipeRefusal::SubByteLayout(f.bps, ispp, w));
    }
    let bytes_per_sample: usize = (bps + 7) / 8;
    let in_row_size = if f.bps >= 8 {
        proof {
            assert(w as nat * (bytes_per_sample * ispp) <= w as nat * bps * ispp
                && w as nat * (bytes_per_sample * ispp) == w as nat * bytes_per_sample * ispp
                && bytes_per_sample * ispp <= bps * ispp) by (nonlinear_arith)
                requires
                    bytes_per_sample <= bps,
            ;
            assert(bps * ispp <= usize::MAX) by (nonlinear_arith)
                requires
                    bps <= 65535,
                    ispp <= 65535,
                    usize::MAX >= 4294967295,
            ;
        }
        (w as usize) * (bytes_per_sample * ispp)
    } else {
        assert(bps * ispp <= 7) by (nonlinear_arith)
            requires
                bps < 8,
                ispp <= 1,
        ;
        let bits = bps * ispp;
        proof {
            assert(w as nat * bits + 7 <= usize::MAX && w as nat * bits == w as nat * bps * ispp)
                by (nonlinear_arith)
                requires
                    w as nat * ispp * (bps + 7) <= usize::MAX,
                    usize::MAX >= 7,
                    bits == bps * ispp,
            ;
        }
        ((w as usize) * bits + 7) / 8
    };
    let use_histogram = f.bps >= 8 && Histogram::supports(f.bps, f.fmt);
    Ok(
        WipeLayout {
            interleaved_spp: ispp,
            num_planes,
            bytes_per_sample,
            in_row_size,
            use_histogram,
        },
    )
}

/// Bytes of a plane read into memory: rows of `in_row_size` bytes, `h` of
/// them; `None` when that is zero, does not fit in memory or exceeds
/// `MAX_PLANE_SIZE`.
pub open spec fn wipe_plane_size_spec(in_row_size: usize, h: u32) -> Option<usize> {
    let n = in_row_size as nat * h as nat;
    if n <= usize::MAX && n > 0 && n <= MAX_PLANE_SIZE {
        Some(n as usize)
    } else {
        None
    }
}

/// Bytes of a plane read into memory, when acceptable.
pub fn wipe_plane_size(in_row_size: usize, h: u32) -> (r: Option<usize>)
    ensures
        r == wipe_plane_size_spec(in_row_size, h),
{
    match in_row_size.checked_mul(h as usize) {
        Some(n) => {
            if n > 0 && (n as u64) <= MAX_PLANE_SIZE {
                Some(n)
            } else {
                None
            }
        },
        None => None,
    }
}

/// A stripped page's scanline must be non-empty and no longer than the row
/// buffer; otherwise the error carries its size.
pub open spec fn scanline_check_spec(in_scanline: usize, in_row_size: usize) -> Result<(), usize> {
    if in_scanline == 0 || in_scanline > in_row_size {
        Err(in_scanline)
    } else {
        Ok(())
    }
}

/// Checks the scanline size of a stripped page against the row buffer.
pub fn check_scanline(in_scanline: usize, in_row_size: usize) -> (r: Result<(), usize>)
    ensures
        r == scanline_check_spec(in_scanline, in_row_size),
{
    if in_scanline == 0 || in_scanline > in_row_size {
        Err(in_scanline)
    } else {
        Ok(())
    }
}

/// Bytes per pixel of a tiled plane whose rows are `in_row_size` bytes for
/// `w` pixels; `None` for sub-byte data, whose pixels are not whole bytes.
pub fn tiled_pixel_bytes(in_row_size: usize, w: u32) -> (r: Option<usize>)
    requires
        w > 0,
    ensures
        r == (if in_row_size as nat / (w as nat) == 0 {
            None
        } else {
            Some((in_row_size as nat / (w as nat)) as usize)
        }),
{
    let bpp = in_row_size / (w as usize);
    if bpp == 0 {
        None
    } else {
        Some(bpp)
    }
}

/// Samples that the writing pass emits for one plane: `h` rows of
/// `in_row_size / bytes_per_sample` samples; `None` when that many do not
/// fit in a `u64`. The counting pass must have counted exactly as many, or
/// the wipe fails rather than pad the plane.
pub fn plane_sample_count(in_row_size: usize, bytes_per_sample: usize, h: u32) -> (r: Option<u64>)
    requires
        bytes_per_sample > 0,
    ensures
        ({
            let n = (in_row_size as nat / bytes_per_sample as nat) * h as nat;
            r == if n <= u64::MAX {
                Some(n as u64)
            } else {
                None::<u64>
            }
        }),
{
    let per_row = (in_row_size / bytes_per_sample) as u64;
    per_row.checked_mul(h as u64)
}

} // verus!
