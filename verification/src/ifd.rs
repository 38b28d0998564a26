//! Layout of one image file directory (page) as the re-encoder writes it:
//! the fields written to the output, the size of rows and tiles, and the
//! conversion applied to each row.

use vstd::prelude::*;
use crate::sample::{ByteOrder, chunk_value, read_sample};
use crate::tiff::{
    PHOTOMETRIC_MINISBLACK, PHOTOMETRIC_YCBCR, PLANARCONFIG_CONTIG, PLANARCONFIG_SEPARATE,
    SAMPLEFORMAT_IEEEFP, SAMPLEFORMAT_INT, SAMPLEFORMAT_UINT,
};

verus! {

/// Largest scanline or row accepted, in bytes.
pub const MAX_SCANLINE_SIZE: usize = 1073741824;

/// Sample layout fields of a page; 0 stands for a field the file lacks.
#[derive(Clone, Copy, PartialEq, Eq, Debug, Structural)]
pub struct PageFields {
    pub bps: u16,
    pub spp: u16,
    pub fmt: u16,
    pub photometric: u16,
    pub planar: u16,
}

/// Fields written to the output page: `fmt` and `planar` are only written
/// when present.
#[derive(Clone, Copy, PartialEq, Eq, Debug, Structural)]
pub struct OutputFields {
    pub bps: u16,
    pub spp: u16,
    pub fmt: Option<u16>,
    pub photometric: u16,
    pub planar: Option<u16>,
}

/// A YCbCr page with chroma subsampling other than 1x1 is refused; the error
/// carries the subsampling factors.
pub open spec fn ycbcr_check_spec(photometric: u16, subsampling: Option<(u16, u16)>) -> Result<
    (),
    (u16, u16),
> {
    match subsampling {
        Some((h, v)) => if photometric == PHOTOMETRIC_YCBCR && (h != 1 || v != 1) {
            Err((h, v))
        } else {
            Ok(())
        },
        None => Ok(()),
    }
}

/// Refuses YCbCr pages with chroma subsampling, which the codec path does not
/// support.
pub fn check_ycbcr(photometric: u16, subsampling: Option<(u16, u16)>) -> (r: Result<(), (u16, u16)>)
    ensures
        r == ycbcr_check_spec(photometric, subsampling),
{
    match subsampling {
        Some((h, v)) => if photometric == PHOTOMETRIC_YCBCR && (h != 1 || v != 1) {
            Err((h, v))
        } else {
            Ok(())
        },
        None => Ok(()),
    }
}

/// A page's fields with the defaults of the compress path: one sample per
/// pixel, min-is-black and contiguous planes when absent.
pub open spec fn compress_defaults_spec(f: PageFields) -> PageFields {
    PageFields {
        bps: f.bps,
        spp: if f.spp == 0 {
            1
        } else {
            f.spp
        },
        fmt: f.fmt,
        photometric: if f.photometric == 0 {
            PHOTOMETRIC_MINISBLACK
        } else {
            f.photometric
        },
        planar: if f.planar == 0 {
            PLANARCONFIG_CONTIG
        } else {
            f.planar
        },
    }
}

/// The page's fields with the defaults of the compress path.
pub fn compress_defaults(f: PageFields) -> (r: PageFields)
    ensures
        r == compress_defaults_spec(f),
{
    PageFields {
        bps: f.bps,
        spp: if f.spp == 0 {
            1
        } else {
            f.spp
        },
        fmt: f.fmt,
        photometric: if f.photometric == 0 {
            PHOTOMETRIC_MINISBLACK
        } else {
            f.photometric
        },
        planar: if f.planar == 0 {
            PLANARCONFIG_CONTIG
        } else {
            f.planar
        },
    }
}

/// Fields written for a page (already defaulted): quantized output is 8-bit
/// unsigned; the sample format is written when known, the planar
/// configuration when there are several samples per pixel.
pub open spec fn output_fields_spec(f: PageFields, quantize: bool) -> OutputFields {
    let bps = if quantize {
        8u16
    } else {
        f.bps
    };
    let fmt = if quantize {
        SAMPLEFORMAT_UINT
    } else {
        f.fmt
    };
    OutputFields {
        bps,
        spp: f.spp,
        fmt: if fmt != 0 {
            Some(fmt)
        } else {
            None
        },
        photometric: f.photometric,
        planar: if f.planar != 0 && f.spp > 1 {
            Some(f.planar)
        } else {
            None
        },
    }
}

/// Fields written for a page.
pub fn output_fields(f: PageFields, quantize: bool) -> (r: OutputFields)
    ensures
        r == output_fields_spec(f, quantize),
{
    let bps = if quantize {
        8u16
    } else {
        f.bps
    };
    let fmt = if quantize {
        SAMPLEFORMAT_UINT
    } else {
        f.fmt
    };
    OutputFields {
        bps,
        spp: f.spp,
        fmt: if fmt != 0 {
            Some(fmt)
        } else {
            None
        },
        photometric: f.photometric,
        planar: if f.planar != 0 && f.spp > 1 {
            Some(f.planar)
        } else {
            None
        },
    }
}

/// Samples per pixel in one plane buffer: one for planar data.
pub open spec fn interleaved_spp_spec(spp: u16, planar: u16) -> nat {
    if planar == PLANARCONFIG_SEPARATE {
        1
    } else {
        spp as nat
    }
}

/// Number of planes: one per sample for planar data.
pub open spec fn plane_count_spec(spp: u16, planar: u16) -> u16 {
    if planar == PLANARCONFIG_SEPARATE {
        spp
    } else {
        1
    }
}

/// How the rows of a stripped page are processed: number of planes and the
/// size of an output row. Quantized rows hold one byte per sample.
#[derive(Clone, Copy, PartialEq, Eq, Debug, Structural)]
pub struct StripPlan {
    pub num_samples: u16,
    pub out_row_size: usize,
}

/// A stripped page's scanline must be non-empty and at most
/// `MAX_SCANLINE_SIZE` bytes; otherwise the error carries its size.
pub open spec fn strip_plan_spec(in_scanline: usize, w: u32, spp: u16, planar: u16, quantize: bool) -> Result<
    StripPlan,
    usize,
> {
    if in_scanline == 0 || in_scanline > MAX_SCANLINE_SIZE {
        Err(in_scanline)
    } else {
        Ok(
            StripPlan {
                num_samples: plane_count_spec(spp, planar),
                out_row_size: if quantize {
                    (w as nat * interleaved_spp_spec(spp, planar)) as usize
                } else {
                    in_scanline
                },
            },
        )
    }
}

/// Plans the rows of a stripped page.
pub fn strip_plan(in_scanline: usize, w: u32, spp: u16, planar: u16, quantize: bool) -> (r: Result<
    StripPlan,
    usize,
>)
    requires
        w as nat * spp as nat <= usize::MAX,
    ensures
        r == strip_plan_spec(in_scanline, w, spp, planar, quantize),
{
    if in_scanline == 0 || in_scanline > MAX_SCANLINE_SIZE {
        return Err(in_scanline);
    }
    let num_samples = if planar == PLANARCONFIG_SEPARATE {
        spp
    } else {
        1
    };
    let out_row_size = if quantize {
        if planar == PLANARCONFIG_SEPARATE {
            w as usize
        } else {
            (w as usize) * (spp as usize)
        }
    } else {
        in_scanline
    };
    Ok(StripPlan { num_samples, out_row_size })
}

/// What is done to a row before it is written.
#[derive(Clone, Copy, PartialEq, Eq, Debug, Structural)]
pub enum RowConversion {
    /// 32-bit floats quantized to 8 bits.
    QuantizeF32,
    /// 64-bit floats quantized to 8 bits.
    QuantizeF64,
    /// Signed 16-bit integers quantized to 8 bits.
    QuantizeI16,
    /// Unsigned 16-bit integers quantized to 8 bits.
    QuantizeU16,
    /// The bytes copied as they are, as far as both rows reach.
    Copy,
}

/// The conversion of a quantized row of the given sample type.
pub open spec fn row_conversion_spec(bps: u16, fmt: u16) -> RowConversion {
    if bps == 32 && fmt == SAMPLEFORMAT_IEEEFP {
        RowConversion::QuantizeF32
    } else if bps == 64 && fmt == SAMPLEFORMAT_IEEEFP {
        RowConversion::QuantizeF64
    } else if bps == 16 && fmt == SAMPLEFORMAT_INT {
        RowConversion::QuantizeI16
    } else if bps == 16 && fmt == SAMPLEFORMAT_UINT {
        RowConversion::QuantizeU16
    } else {
        RowConversion::Copy
    }
}

/// The conversion of a quantized row of the given sample type.
pub fn row_conversion(bps: u16, fmt: u16) -> (r: RowConversion)
    ensures
        r == row_conversion_spec(bps, fmt),
{
    if bps == 32 && fmt == SAMPLEFORMAT_IEEEFP {
        RowConversion::QuantizeF32
    } else if bps == 64 && fmt == SAMPLEFORMAT_IEEEFP {
        RowConversion::QuantizeF64
    } else if bps == 16 && fmt == SAMPLEFORMAT_INT {
        RowConversion::QuantizeI16
    } else if bps == 16 && fmt == SAMPLEFORMAT_UINT {
        RowConversion::QuantizeU16
    } else {
        RowConversion::Copy
    }
}

/// The two's complement value of a 16-bit pattern.
pub open spec fn signed16(v: nat) -> int {
    if v >= 32768 {
        v - 65536
    } else {
        v as int
    }
}

/// Reads the first `count` 16-bit signed samples of a row stored in byte
/// order `order`.
pub fn decode_i16_row(buf: &[u8], count: usize, order: ByteOrder) -> (r: Vec<i16>)
    requires
        count * 2 <= buf@.len(),
    ensures
        r@.len() == count,
        forall|i: int|
            0 <= i < count ==> #[trigger] r@[i] as int == signed16(
                chunk_value(buf@.subrange(2 * i, 2 * i + 2), order),
            ),
{
    let len = buf.len();
    let mut out: Vec<i16> = Vec::with_capacity(count);
    let mut i: usize = 0;
    while i < count
        invariant
            i <= count,
            len == buf@.len(),
            count * 2 <= buf@.len(),
            out@.len() == i,
            forall|j: int|
                0 <= j < i ==> #[trigger] out@[j] as int == signed16(
                    chunk_value(buf@.subrange(2 * j, 2 * j + 2), order),
                ),
        decreases count - i,
    {
        let v = read_sample(buf, 2 * i, 2, order);
        proof {
            crate::sample::lemma_chunk_value_bound(buf@.subrange(2 * i as int, 2 * i + 2), order);
            crate::sample::lemma_pow256_values();
        }
        let s: i16 = if v >= 32768 {
            (v as i32 - 65536) as i16
        } else {
            v as i16
        };
        out.push(s);
        i = i + 1;
    }
    out
}

/// Reads the first `count` 16-bit unsigned samples of a row stored in byte
/// order `order`.
pub fn decode_u16_row(buf: &[u8], count: usize, order: ByteOrder) -> (r: Vec<u16>)
    requires
        count * 2 <= buf@.len(),
    ensures
        r@.len() == count,
        forall|i: int|
            0 <= i < count ==> #[trigger] r@[i] as nat == chunk_value(
                buf@.subrange(2 * i, 2 * i + 2),
                order,
            ),
{
    let len = buf.len();
    let mut out: Vec<u16> = Vec::with_capacity(count);
    let mut i: usize = 0;
    while i < count
        invariant
            i <= count,
            len == buf@.len(),
            count * 2 <= buf@.len(),
            out@.len() == i,
            forall|j: int|
                0 <= j < i ==> #[trigger] out@[j] as nat == chunk_value(
                    buf@.subrange(2 * j, 2 * j + 2),
                    order,
                ),
        decreases count - i,
    {
        let v = read_sample(buf, 2 * i, 2, order);
        proof {
            crate::sample::lemma_chunk_value_bound(buf@.subrange(2 * i as int, 2 * i + 2), order);
            crate::sample::lemma_pow256_values();
        }
        out.push(v as u16);
        i = i + 1;
    }
    out
}

/// Copies the bytes of `src` into `dst` as far as both reach.
pub fn copy_row(src: &[u8], dst: &mut [u8])
    ensures
        ({
            let take = if src@.len() < old(dst)@.len() {
                src@.len()
            } else {
                old(dst)@.len()
            };
            final(dst)@ == src@.subrange(0, take as int) + old(dst)@.subrange(
                take as int,
                old(dst)@.len() as int,
            )
        }),
{
    let take = if src.len() < dst.len() {
        src.len()
    } else {
        dst.len()
    };
    crate::pixels::copy_bytes(dst, 0, src, 0, take);
    proof {
        assert(dst@ =~= src@.subrange(0, take as int) + old(dst)@.subrange(
            take as int,
            old(dst)@.len() as int,
        ));
    }
}

/// Sample fields of the first page used to plan a file, with the defaults
/// used when a field is absent: 8 bits, one sample, unsigned integers.
pub fn info_defaults(bps: Option<u16>, spp: Option<u16>, fmt: Option<u16>) -> (r: (u16, u16, u16))
    ensures
        r.0 == (match bps {
            Some(v) => v,
            None => 8u16,
        }),
        r.1 == (match spp {
            Some(v) => v,
            None => 1u16,
        }),
        r.2 == (match fmt {
            Some(v) => v,
            None => SAMPLEFORMAT_UINT,
        }),
{
    let b = match bps {
        Some(v) => v,
        None => 8,
    };
    let s = match spp {
        Some(v) => v,
        None => 1,
    };
    let f = match fmt {
        Some(v) => v,
        None => SAMPLEFORMAT_UINT,
    };
    (b, s, f)
}

/// The first field that a page to describe lacks, or has as zero.
#[derive(Clone, Copy, PartialEq, Eq, Debug, Structural)]
pub enum MissingField {
    Width,
    Length,
    BitsPerSample,
    SamplesPerPixel,
}

/// Whether a field read from a page is present and nonzero.
pub open spec fn present(v: Option<u32>) -> bool {
    v is Some && v.unwrap() != 0
}

/// The dimensions and sample fields of a page to describe, each of which
/// must be present and nonzero; otherwise the first one that is not, in the
/// order width, length, bits per sample, samples per pixel.
pub fn check_described_fields(
    w: Option<u32>,
    h: Option<u32>,
    bps: Option<u16>,
    spp: Option<u16>,
) -> (r: Result<(u32, u32, u16, u16), MissingField>)
    ensures
        !present(w) ==> r == Err::<(u32, u32, u16, u16), MissingField>(MissingField::Width),
        present(w) && !present(h) ==> r == Err::<(u32, u32, u16, u16), MissingField>(
            MissingField::Length,
        ),
        present(w) && present(h) && !(bps is Some && bps.unwrap() != 0) ==> r == Err::<
            (u32, u32, u16, u16),
            MissingField,
        >(MissingField::BitsPerSample),
        present(w) && present(h) && bps is Some && bps.unwrap() != 0 && !(spp is Some
            && spp.unwrap() != 0) ==> r == Err::<(u32, u32, u16, u16), MissingField>(
            MissingField::SamplesPerPixel,
        ),
        present(w) && present(h) && bps is Some && bps.unwrap() != 0 && spp is Some
            && spp.unwrap() != 0 ==> r == Ok::<(u32, u32, u16, u16), MissingField>(
            (w.unwrap(), h.unwrap(), bps.unwrap(), spp.unwrap()),
        ),
{
    let w = match w {
        Some(v) if v != 0 => v,
        _ => return Err(MissingField::Width),
    };
    let h = match h {
        Some(v) if v != 0 => v,
        _ => return Err(MissingField::Length),
    };
    let bps = match bps {
        Some(v) if v != 0 => v,
        _ => return Err(MissingField::BitsPerSample),
    };
    let spp = match spp {
        Some(v) if v != 0 => v,
        _ => return Err(MissingField::SamplesPerPixel),
    };
    Ok((w, h, bps, spp))
}

} // verus!
