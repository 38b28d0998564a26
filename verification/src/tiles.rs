//! Tiled pages: the grid of tiles over a plane, the valid region of each tile,
//! and the assembly of decoded tiles into a band of full rows.

use vstd::prelude::*;
use crate::sample::lemma_splice_index;
use crate::pixels::copy_bytes;
use crate::ifd::MAX_SCANLINE_SIZE;
use crate::tiff::PLANARCONFIG_SEPARATE;
use crate::histogram::{Histogram, channel_keys, law_channel_keys_split};
use crate::sorting::sample_layout;
use crate::pixels::pixel_count;

verus! {

/// `a / b` rounded up.
pub open spec fn ceil_div(a: nat, b: nat) -> nat {
    ((a + b - 1) as nat) / b
}

/// `a / b` rounded up, for `b > 0`.
pub fn div_ceil_u32(a: u32, b: u32) -> (r: u32)
    requires
        b > 0,
    ensures
        r as nat == ceil_div(a as nat, b as nat),
{
    let n: u64 = a as u64 + b as u64 - 1;
    let q: u64 = n / (b as u64);
    proof {
        vstd::arithmetic::div_mod::lemma_fundamental_div_mod(n as int, b as int);
        assert(q <= a) by (nonlinear_arith)
            requires
                n == b * q + n % (b as u64),
                n % (b as u64) >= 0,
                n == a + b - 1,
                b >= 1,
        ;
    }
    q as u32
}

/// The grid and buffer sizes of a tiled plane.
#[derive(Clone, Copy, PartialEq, Eq, Debug, Structural)]
pub struct TileGeometry {
    /// Bytes of one pixel of one plane.
    pub bytes_per_pixel: usize,
    /// Bytes of one full row of the plane.
    pub in_row_size: usize,
    /// Bytes of one output row (one byte per sample when quantized).
    pub out_row_size: usize,
    /// Bytes of a band of full rows as high as a tile.
    pub strip_size: usize,
    pub tiles_across: u32,
    pub tiles_down: u32,
    pub tiles_per_plane: u32,
    /// Bytes of one decoded tile.
    pub tile_buffer_size: usize,
    /// Bytes of one row of a decoded tile.
    pub tile_row_size: usize,
    /// Number of planes.
    pub num_samples: u16,
}

/// Bytes per pixel of one plane: whole bytes per sample, times the samples
/// interleaved in the plane.
pub open spec fn plane_pixel_bytes(bps: u16, spp: u16, planar: u16) -> nat {
    ((bps as nat + 7) / 8) * if planar == PLANARCONFIG_SEPARATE {
        1nat
    } else {
        spp as nat
    }
}

/// The geometry of a tiled plane; rows longer than `MAX_SCANLINE_SIZE` are
/// refused.
pub open spec fn tile_geometry_spec(
    w: u32,
    h: u32,
    tw: u32,
    tl: u32,
    spp: u16,
    bps: u16,
    planar: u16,
    quantize: bool,
) -> Option<TileGeometry> {
    let bpp = plane_pixel_bytes(bps, spp, planar);
    let in_row = w as nat * bpp;
    if in_row > MAX_SCANLINE_SIZE {
        None
    } else {
        let across = ceil_div(w as nat, tw as nat);
        let down = ceil_div(h as nat, tl as nat);
        Some(
            TileGeometry {
                bytes_per_pixel: bpp as usize,
                in_row_size: in_row as usize,
                out_row_size: if quantize {
                    (w as nat * if planar == PLANARCONFIG_SEPARATE {
                        1nat
                    } else {
                        spp as nat
                    }) as usize
                } else {
                    in_row as usize
                },
                strip_size: (in_row * tl) as usize,
                tiles_across: across as u32,
                tiles_down: down as u32,
                tiles_per_plane: (across * down) as u32,
                tile_buffer_size: (tw as nat * tl as nat * bpp) as usize,
                tile_row_size: (tw as nat * bpp) as usize,
                num_samples: if planar == PLANARCONFIG_SEPARATE {
                    spp
                } else {
                    1
                },
            },
        )
    }
}

/// The geometry of a tiled plane.
pub fn tile_geometry(
    w: u32,
    h: u32,
    tw: u32,
    tl: u32,
    spp: u16,
    bps: u16,
    planar: u16,
    quantize: bool,
) -> (r: Option<TileGeometry>)
    requires
        tw > 0,
        tl > 0,
        w as nat * plane_pixel_bytes(bps, spp, planar) <= usize::MAX,
        w as nat * spp as nat <= usize::MAX,
        w as nat * plane_pixel_bytes(bps, spp, planar) <= MAX_SCANLINE_SIZE ==> {
            &&& w as nat * plane_pixel_bytes(bps, spp, planar) * tl as nat <= usize::MAX
            &&& tw as nat * tl as nat * plane_pixel_bytes(bps, spp, planar) <= usize::MAX
            &&& ceil_div(w as nat, tw as nat) * ceil_div(h as nat, tl as nat) <= u32::MAX
        },
    ensures
        r == tile_geometry_spec(w, h, tw, tl, spp, bps, planar, quantize),
{
    let bytes_per_sample: usize = (bps as usize + 7) / 8;
    let per_pixel: usize = if planar == PLANARCONFIG_SEPARATE {
        1
    } else {
        spp as usize
    };
    assert(bytes_per_sample * per_pixel <= usize::MAX) by (nonlinear_arith)
        requires
            w as nat * (bytes_per_sample * per_pixel) <= usize::MAX || w == 0,
            bytes_per_sample <= 8192,
            per_pixel <= 65535,
    ;
    let bpp = bytes_per_sample * per_pixel;
    assert(bpp as nat == plane_pixel_bytes(bps, spp, planar));
    let in_row_size = (w as usize) * bpp;
    if in_row_size > MAX_SCANLINE_SIZE {
        return None;
    }
    let out_row_size = if quantize {
        (w as usize) * per_pixel
    } else {
        in_row_size
    };
    let tiles_across = div_ceil_u32(w, tw);
    let tiles_down = div_ceil_u32(h, tl);
    assert(tw as nat * bpp <= usize::MAX) by (nonlinear_arith)
        requires
            tw as nat * tl as nat * bpp <= usize::MAX,
            tl >= 1,
    ;
    let tile_row_size = (tw as usize) * bpp;
    proof {
        assert(tile_row_size * tl == tw as nat * tl as nat * bpp) by (nonlinear_arith)
            requires
                tile_row_size == tw as nat * bpp,
        ;
    }
    let strip_size = in_row_size * (tl as usize);
    let tiles_per_plane = tiles_across * tiles_down;
    let tile_buffer_size = tile_row_size * (tl as usize);
    let g = TileGeometry {
        bytes_per_pixel: bpp,
        in_row_size,
        out_row_size,
        strip_size,
        tiles_across,
        tiles_down,
        tiles_per_plane,
        tile_buffer_size,
        tile_row_size,
        num_samples: if planar == PLANARCONFIG_SEPARATE {
            spp
        } else {
            1
        },
    };
    Some(g)
}

/// Index of a tile in the file: tiles are numbered row by row in each plane,
/// and the planes of planar data one after the other.
pub open spec fn tile_index_spec(
    separate: bool,
    sample: u16,
    tiles_per_plane: u32,
    tile_y: u32,
    tiles_across: u32,
    tile_x: u32,
) -> nat {
    let in_plane = tile_y as nat * tiles_across as nat + tile_x as nat;
    if separate {
        sample as nat * tiles_per_plane as nat + in_plane
    } else {
        in_plane
    }
}

/// Index of a tile in the file.
pub fn tile_index(
    separate: bool,
    sample: u16,
    tiles_per_plane: u32,
    tile_y: u32,
    tiles_across: u32,
    tile_x: u32,
) -> (r: u32)
    requires
        tile_index_spec(separate, sample, tiles_per_plane, tile_y, tiles_across, tile_x)
            <= u32::MAX,
    ensures
        r as nat == tile_index_spec(separate, sample, tiles_per_plane, tile_y, tiles_across, tile_x),
{
    assert(tile_y as nat * tiles_across as nat + tile_x as nat <= u32::MAX) by (nonlinear_arith)
        requires
            tile_index_spec(separate, sample, tiles_per_plane, tile_y, tiles_across, tile_x)
                <= u32::MAX,
            tile_index_spec(separate, sample, tiles_per_plane, tile_y, tiles_across, tile_x)
                >= tile_y as nat * tiles_across as nat + tile_x as nat,
    ;
    let in_plane = tile_y * tiles_across + tile_x;
    if separate {
        (sample as u32) * tiles_per_plane + in_plane
    } else {
        in_plane
    }
}

/// `min(a, b)` of two sizes.
pub open spec fn min_nat(a: nat, b: nat) -> nat {
    if a < b {
        a
    } else {
        b
    }
}

/// One tile of a plane: its index in the file and the size of its part that
/// lies inside the image (edge tiles are padded beyond it).
#[derive(Clone, Copy, PartialEq, Eq, Debug, Structural)]
pub struct TileJob {
    pub index: u32,
    pub actual_width: usize,
    pub actual_height: usize,
}

/// The tiles of one plane, row by row: tile `j` is at column `j % across`
/// and row `j / across` of the grid.
pub open spec fn tile_jobs_spec(w: u32, h: u32, tw: u32, tl: u32, sample: u16, num_planes: u16) -> Seq<
    TileJob,
> {
    let across = ceil_div(w as nat, tw as nat);
    let down = ceil_div(h as nat, tl as nat);
    let base: nat = if num_planes > 1 {
        sample as nat * (across * down)
    } else {
        0
    };
    Seq::new(
        across * down,
        |j: int|
            TileJob {
                index: (base + j) as u32,
                actual_width: min_nat(tw as nat, (w - (j % (across as int)) * tw) as nat) as usize,
                actual_height: min_nat(tl as nat, (h - (j / (across as int)) * tl) as nat) as usize,
            },
    )
}

/// The tiles of one plane; `None` when the tile size is zero.
pub fn tile_jobs(w: u32, h: u32, tw: u32, tl: u32, sample: u16, num_planes: u16) -> (r: Option<
    Vec<TileJob>,
>)
    requires
        tw > 0 && tl > 0 ==> {
            let across = ceil_div(w as nat, tw as nat);
            let down = ceil_div(h as nat, tl as nat);
            (sample as nat + 1) * (across * down) <= u32::MAX
        },
    ensures
        tw == 0 || tl == 0 ==> r.is_none(),
        tw > 0 && tl > 0 ==> r.is_some() && r.unwrap()@ == tile_jobs_spec(
            w,
            h,
            tw,
            tl,
            sample,
            num_planes,
        ),
{
    if tw == 0 || tl == 0 {
        return None;
    }
    let across = div_ceil_u32(w, tw);
    let down = div_ceil_u32(h, tl);
    proof {
        assert(across as nat * down as nat <= u32::MAX) by (nonlinear_arith)
            requires
                (sample as nat + 1) * (across as nat * down as nat) <= u32::MAX,
        ;
        assert(across as nat * tw as nat <= w as nat + tw as nat) by (nonlinear_arith)
            requires
                across as int == (w as int + tw as int - 1) / (tw as int),
                tw > 0,
        ;
        assert(down as nat * tl as nat <= h as nat + tl as nat) by (nonlinear_arith)
            requires
                down as int == (h as int + tl as int - 1) / (tl as int),
                tl > 0,
        ;
    }
    let per_plane = across * down;
    let base: u32 = if num_planes > 1 {
        assert(sample as nat * per_plane as nat <= u32::MAX) by (nonlinear_arith)
            requires
                (sample as nat + 1) * per_plane as nat <= u32::MAX,
        ;
        (sample as u32) * per_plane
    } else {
        0
    };
    assert(base as nat + per_plane as nat <= u32::MAX) by (nonlinear_arith)
        requires
            (sample as nat + 1) * per_plane as nat <= u32::MAX,
            base == 0 || base as nat == sample as nat * per_plane as nat,
    ;
    let ghost spec = tile_jobs_spec(w, h, tw, tl, sample, num_planes);
    let mut jobs: Vec<TileJob> = Vec::with_capacity(per_plane as usize);
    let mut ty: u32 = 0;
    while ty < down
        invariant
            ty <= down,
            across as nat == ceil_div(w as nat, tw as nat),
            down as nat == ceil_div(h as nat, tl as nat),
            per_plane as nat == across as nat * down as nat,
            base as nat + per_plane as nat <= u32::MAX,
            base as nat == if num_planes > 1 {
                sample as nat * per_plane as nat
            } else {
                0
            },
            across as nat * tw as nat <= w as nat + tw as nat,
            down as nat * tl as nat <= h as nat + tl as nat,
            tw > 0,
            tl > 0,
            spec == tile_jobs_spec(w, h, tw, tl, sample, num_planes),
            jobs@.len() == ty as nat * across as nat,
            forall|j: int| 0 <= j < jobs@.len() ==> #[trigger] jobs@[j] == spec[j],
        decreases down - ty,
    {
        let mut tx: u32 = 0;
        while tx < across
            invariant
                ty < down,
                tx <= across,
                across as nat == ceil_div(w as nat, tw as nat),
                down as nat == ceil_div(h as nat, tl as nat),
                per_plane as nat == across as nat * down as nat,
                base as nat + per_plane as nat <= u32::MAX,
                base as nat == if num_planes > 1 {
                    sample as nat * per_plane as nat
                } else {
                    0
                },
                across as nat * tw as nat <= w as nat + tw as nat,
                down as nat * tl as nat <= h as nat + tl as nat,
                tw > 0,
                tl > 0,
                spec == tile_jobs_spec(w, h, tw, tl, sample, num_planes),
                jobs@.len() == ty as nat * across as nat + tx as nat,
                forall|j: int| 0 <= j < jobs@.len() ==> #[trigger] jobs@[j] == spec[j],
            decreases across - tx,
        {
            let ghost j = ty as nat * across as nat + tx as nat;
            proof {
                assert(j < per_plane as nat) by (nonlinear_arith)
                    requires
                        j == ty as nat * across as nat + tx as nat,
                        tx < across,
                        ty < down,
                        per_plane as nat == across as nat * down as nat,
                ;
                assert(tx as nat * tw as nat <= w as nat) by (nonlinear_arith)
                    requires
                        tx < across,
                        across as nat * tw as nat <= w as nat + tw as nat,
                        across as int == (w as int + tw as int - 1) / (tw as int),
                        tw > 0,
                ;
                assert(ty as nat * tl as nat <= h as nat) by (nonlinear_arith)
                    requires
                        ty < down,
                        down as int == (h as int + tl as int - 1) / (tl as int),
                        tl > 0,
                ;
                vstd::arithmetic::div_mod::lemma_fundamental_div_mod_converse(
                    j as int,
                    across as int,
                    ty as int,
                    tx as int,
                );
            }
            let in_plane = ty * across + tx;
            let start_x = (tx as usize) * (tw as usize);
            let start_y = (ty as usize) * (tl as usize);
            let aw = if (tw as usize) < (w as usize) - start_x {
                tw as usize
            } else {
                (w as usize) - start_x
            };
            let ah = if (tl as usize) < (h as usize) - start_y {
                tl as usize
            } else {
                (h as usize) - start_y
            };
            let job = TileJob { index: base + in_plane, actual_width: aw, actual_height: ah };
            jobs.push(job);
            proof {
                assert(jobs@[j as int] == spec[j as int]);
            }
            tx = tx + 1;
        }
        proof {
            assert((ty + 1) as nat * across as nat == ty as nat * across as nat + across as nat)
                by (nonlinear_arith);
        }
        ty = ty + 1;
    }
    proof {
        assert(down as nat * across as nat == across as nat * down as nat) by (nonlinear_arith);
        assert(jobs@ =~= spec);
    }
    Some(jobs)
}

/// Pixel `(x, y)` lies in the valid region of the tile at its grid position
/// (row `y / tl`, column `x / tw`) in `jobs`.
pub open spec fn covered_by_grid(jobs: Seq<TileJob>, across: nat, tw: nat, tl: nat, x: int, y: int) -> bool {
    let j = (y / (tl as int)) * across + x / (tw as int);
    &&& 0 <= j < jobs.len()
    &&& x % (tw as int) < jobs[j].actual_width
    &&& y % (tl as int) < jobs[j].actual_height
}

/// The valid region of tile `j` of `jobs` lies inside a `w` by `h` image.
pub open spec fn inside_image(jobs: Seq<TileJob>, across: nat, tw: nat, tl: nat, w: nat, h: nat, j: int) -> bool {
    &&& (j % (across as int)) * tw + jobs[j].actual_width <= w
    &&& (j / (across as int)) * tl + jobs[j].actual_height <= h
}

/// The tiles of a plane cover it exactly: every pixel lies in the valid
/// region of the tile at its grid position, and no valid region reaches past
/// the image, so padding is never taken for image data.
pub proof fn law_tiles_cover_plane(w: u32, h: u32, tw: u32, tl: u32, sample: u16, num_planes: u16)
    requires
        tw > 0,
        tl > 0,
    ensures
        forall|x: int, y: int|
            0 <= x < w && 0 <= y < h ==> #[trigger] covered_by_grid(
                tile_jobs_spec(w, h, tw, tl, sample, num_planes),
                ceil_div(w as nat, tw as nat),
                tw as nat,
                tl as nat,
                x,
                y,
            ),
        forall|j: int|
            0 <= j < tile_jobs_spec(w, h, tw, tl, sample, num_planes).len() ==> #[trigger] inside_image(
                tile_jobs_spec(w, h, tw, tl, sample, num_planes),
                ceil_div(w as nat, tw as nat),
                tw as nat,
                tl as nat,
                w as nat,
                h as nat,
                j,
            ),
{
    let jobs = tile_jobs_spec(w, h, tw, tl, sample, num_planes);
    let across = ceil_div(w as nat, tw as nat);
    let down = ceil_div(h as nat, tl as nat);
    assert forall|x: int, y: int| 0 <= x < w && 0 <= y < h implies #[trigger] covered_by_grid(
        jobs,
        across,
        tw as nat,
        tl as nat,
        x,
        y,
    ) by {
        let tx = x / (tw as int);
        let ty = y / (tl as int);
        vstd::arithmetic::div_mod::lemma_fundamental_div_mod(x, tw as int);
        vstd::arithmetic::div_mod::lemma_fundamental_div_mod(y, tl as int);
        vstd::arithmetic::div_mod::lemma_fundamental_div_mod((w + tw - 1) as int, tw as int);
        vstd::arithmetic::div_mod::lemma_fundamental_div_mod((h + tl - 1) as int, tl as int);
        assert(0 <= tx < across) by (nonlinear_arith)
            requires
                x == tw * tx + x % (tw as int),
                0 <= x % (tw as int) < tw,
                0 <= x < w,
                (w + tw - 1) as int == tw * (across as int) + (w + tw - 1) as int % (tw as int),
                0 <= (w + tw - 1) as int % (tw as int) < tw,
        ;
        assert(0 <= ty < down) by (nonlinear_arith)
            requires
                y == tl * ty + y % (tl as int),
                0 <= y % (tl as int) < tl,
                0 <= y < h,
                (h + tl - 1) as int == tl * (down as int) + (h + tl - 1) as int % (tl as int),
                0 <= (h + tl - 1) as int % (tl as int) < tl,
        ;
        let j = ty * across + tx;
        assert(0 <= j < across * down) by (nonlinear_arith)
            requires
                0 <= tx < across,
                0 <= ty < down,
                j == ty * across + tx,
        ;
        vstd::arithmetic::div_mod::lemma_fundamental_div_mod_converse(j, across as int, ty, tx);
        assert(x % (tw as int) < w - tx * tw) by (nonlinear_arith)
            requires
                x == tw * tx + x % (tw as int),
                x < w,
        ;
        assert(y % (tl as int) < h - ty * tl) by (nonlinear_arith)
            requires
                y == tl * ty + y % (tl as int),
                y < h,
        ;
    }
    assert forall|j: int| 0 <= j < jobs.len() implies #[trigger] inside_image(
        jobs,
        across,
        tw as nat,
        tl as nat,
        w as nat,
        h as nat,
        j,
    ) by {
        assert(across > 0) by (nonlinear_arith)
            requires
                0 <= j < across * down,
        ;
        let tx = j % (across as int);
        let ty = j / (across as int);
        vstd::arithmetic::div_mod::lemma_fundamental_div_mod(j, across as int);
        vstd::arithmetic::div_mod::lemma_fundamental_div_mod((w + tw - 1) as int, tw as int);
        vstd::arithmetic::div_mod::lemma_fundamental_div_mod((h + tl - 1) as int, tl as int);
        assert(ty < down) by (nonlinear_arith)
            requires
                j == across * ty + tx,
                0 <= tx,
                j < across * down,
        ;
        assert(tx * tw <= w) by (nonlinear_arith)
            requires
                0 <= tx < across,
                (w + tw - 1) as int == tw * (across as int) + (w + tw - 1) as int % (tw as int),
                0 <= (w + tw - 1) as int % (tw as int),
                tw > 0,
        ;
        assert(ty * tl <= h) by (nonlinear_arith)
            requires
                0 <= ty < down,
                (h + tl - 1) as int == tl * (down as int) + (h + tl - 1) as int % (tl as int),
                0 <= (h + tl - 1) as int % (tl as int),
                tl > 0,
        ;
    }
}

/// `strip` after copying `rows` rows of `copy_len` bytes from `tile` (rows
/// `src_row` bytes apart) into `strip` at byte `dst_x` of rows `in_row` bytes
/// apart.
pub open spec fn placed_rows(
    strip: Seq<u8>,
    tile: Seq<u8>,
    dst_x: nat,
    copy_len: nat,
    rows: nat,
    in_row: nat,
    src_row: nat,
) -> Seq<u8> {
    Seq::new(
        strip.len(),
        |i: int|
            if i / (in_row as int) < rows && dst_x <= i % (in_row as int) < dst_x + copy_len {
                tile[(i / (in_row as int)) * src_row + i % (in_row as int) - dst_x]
            } else {
                strip[i]
            },
    )
}

/// Copies the valid rows of a decoded tile into a band of full rows.
pub fn place_tile_rows(
    strip: &mut [u8],
    tile: &[u8],
    dst_x: usize,
    copy_len: usize,
    rows: usize,
    in_row: usize,
    src_row: usize,
)
    requires
        in_row > 0,
        dst_x + copy_len <= in_row,
        rows * in_row <= old(strip)@.len(),
        rows > 0 ==> (rows - 1) * src_row + copy_len <= tile@.len(),
    ensures
        final(strip)@ == placed_rows(
            old(strip)@,
            tile@,
            dst_x as nat,
            copy_len as nat,
            rows as nat,
            in_row as nat,
            src_row as nat,
        ),
{
    let ghost orig = strip@;
    let ghost target = placed_rows(
        orig,
        tile@,
        dst_x as nat,
        copy_len as nat,
        rows as nat,
        in_row as nat,
        src_row as nat,
    );
    let len = strip.len();
    let tlen = tile.len();
    let mut r: usize = 0;
    while r < rows
        invariant
            r <= rows,
            len == orig.len(),
            tlen == tile@.len(),
            strip@.len() == len,
            in_row > 0,
            dst_x + copy_len <= in_row,
            rows * in_row <= len,
            rows > 0 ==> (rows - 1) * src_row + copy_len <= tile@.len(),
            target == placed_rows(
                orig,
                tile@,
                dst_x as nat,
                copy_len as nat,
                rows as nat,
                in_row as nat,
                src_row as nat,
            ),
            forall|i: int|
                0 <= i < len ==> #[trigger] strip@[i] == if i / (in_row as int) < r {
                    target[i]
                } else {
                    orig[i]
                },
        decreases rows - r,
    {
        proof {
            assert(r * in_row + in_row <= rows * in_row) by (nonlinear_arith)
                requires
                    r < rows,
            ;
            assert(r * src_row + copy_len <= (rows - 1) * src_row + copy_len) by (nonlinear_arith)
                requires
                    r < rows,
            ;
        }
        assert(r * src_row <= tlen);
        let dst = r * in_row + dst_x;
        let src = r * src_row;
        let ghost before = strip@;
        copy_bytes(strip, dst, tile, src, copy_len);
        proof {
            assert forall|i: int| 0 <= i < len implies #[trigger] strip@[i] == if i / (in_row as int)
                < r + 1 {
                target[i]
            } else {
                orig[i]
            } by {
                vstd::arithmetic::div_mod::lemma_fundamental_div_mod(i, in_row as int);
                lemma_splice_index(
                    before,
                    dst as int,
                    tile@.subrange(src as int, src + copy_len),
                    i,
                );
                let q = i / (in_row as int);
                let m = i % (in_row as int);
                assert(i == q * in_row + m) by (nonlinear_arith)
                    requires
                        i == in_row * q + m,
                ;
                if q == r {
                    assert(r * in_row <= i < r * in_row + in_row);
                    if dst_x <= m < dst_x + copy_len {
                        assert(strip@[i] == tile@[src + (i - dst)]);
                    } else {
                        assert(i < dst || i >= dst + copy_len);
                        assert(strip@[i] == before[i]);
                    }
                } else {
                    if q < r {
                        assert(i < r * in_row) by (nonlinear_arith)
                            requires
                                i == q * in_row + m,
                                q < r,
                                m < in_row,
                        ;
                    } else {
                        assert(i >= r * in_row + in_row) by (nonlinear_arith)
                            requires
                                i == q * in_row + m,
                                q > r,
                                m >= 0,
                        ;
                    }
                    assert(strip@[i] == before[i]);
                }
            }
        }
        r = r + 1;
    }
    proof {
        assert forall|i: int| 0 <= i < len implies #[trigger] strip@[i] == target[i] by {
            if i / (in_row as int) >= rows {
                assert(i / (in_row as int) >= rows);
            }
        }
        assert(strip@ =~= target);
    }
}

/// The valid parts of the first `rows` rows of a decoded tile: `valid` bytes
/// from the start of each row, rows `src_row` bytes apart.
pub open spec fn valid_rows(tile: Seq<u8>, rows: nat, valid: nat, src_row: nat) -> Seq<u8>
    decreases rows,
{
    if rows == 0 {
        Seq::empty()
    } else {
        let r = (rows - 1) as nat;
        valid_rows(tile, r, valid, src_row) + tile.subrange(
            (r * src_row) as int,
            (r * src_row + valid) as int,
        )
    }
}

proof fn lemma_valid_rows_len(tile: Seq<u8>, rows: nat, valid: nat, src_row: nat)
    requires
        rows > 0 ==> (rows - 1) * src_row + valid <= tile.len(),
        valid <= src_row || rows <= 1,
    ensures
        valid_rows(tile, rows, valid, src_row).len() == rows * valid,
    decreases rows,
{
    if rows > 0 {
        let r = (rows - 1) as nat;
        if r > 0 {
            assert((r - 1) * src_row + valid <= r * src_row + valid) by (nonlinear_arith)
                requires
                    r >= 1,
            ;
        }
        lemma_valid_rows_len(tile, r, valid, src_row);
        assert(r * src_row + valid <= tile.len());
        let piece = tile.subrange((r * src_row) as int, (r * src_row + valid) as int);
        assert(piece.len() == valid);
        assert(valid_rows(tile, rows, valid, src_row) == valid_rows(tile, r, valid, src_row) + piece);
        assert(r * valid + valid == rows * valid) by (nonlinear_arith)
            requires
                r + 1 == rows,
        ;
    } else {
        assert(rows * valid == 0) by (nonlinear_arith)
            requires
                rows == 0,
        ;
    }
}

/// Counts the valid part of each row of a decoded tile: the padding of edge
/// tiles, beyond the image, is never counted.
pub fn accumulate_tile(hist: &mut Histogram, tile: &[u8], rows: usize, valid: usize, src_row: usize)
    requires
        old(hist).wf(),
        valid <= src_row,
        rows > 0 ==> (rows - 1) * src_row + valid <= tile@.len(),
        valid as nat % (old(hist).channels() * sample_layout(old(hist).bits(), old(hist).format()).0)
            == 0,
        old(hist).total_count() + rows * valid <= u64::MAX,
    ensures
        final(hist).wf(),
        final(hist).channels() == old(hist).channels(),
        final(hist).bits() == old(hist).bits(),
        final(hist).format() == old(hist).format(),
        final(hist).byte_order() == old(hist).byte_order(),
        forall|c: int, k: int|
            0 <= c < old(hist).channels() ==> #[trigger] final(hist).count(c, k) == old(
                hist,
            ).count(c, k) + channel_keys(
                valid_rows(tile@, rows as nat, valid as nat, src_row as nat),
                old(hist).channels(),
                old(hist).bits(),
                old(hist).format(),
                old(hist).byte_order(),
                c as nat,
            ).to_multiset().count(k),
{
    let ghost start = *hist;
    let ghost spp = start.channels();
    let ghost w = sample_layout(start.bits(), start.format()).0;
    let ghost bps = start.bits();
    let ghost fmt = start.format();
    let ghost order = start.byte_order();
    let tlen = tile.len();
    let mut r: usize = 0;
    proof {
        start.lemma_wf();
        crate::sorting::lemma_layout_valid(bps, fmt);
        assert forall|c: int, k: int| 0 <= c < spp implies #[trigger] hist.count(c, k)
            == start.count(c, k) + channel_keys(
            valid_rows(tile@, 0, valid as nat, src_row as nat),
            spp,
            bps,
            fmt,
            order,
            c as nat,
        ).to_multiset().count(k) by {
            let e = Seq::<u8>::empty();
            assert(spp * w > 0) by (nonlinear_arith)
                requires
                    spp >= 1,
                    w >= 1,
            ;
            assert(0nat / (spp * w) == 0) by (nonlinear_arith)
                requires
                    spp * w > 0,
            ;
            assert(e.len() == 0);
            assert(pixel_count(e.len(), spp, w) == 0);
            let pc = pixel_count(e.len(), spp, w);
            assert(pc * w == 0) by (nonlinear_arith)
                requires
                    pc == 0,
            ;
            assert(crate::pixels::channel_of(e, spp, w, c as nat).len() == 0);
            let ck = channel_keys(e, spp, bps, fmt, order, c as nat);
            assert(ck.len() == 0);
            assert(ck =~= Seq::<int>::empty());
            assert(ck.to_multiset() =~= vstd::multiset::Multiset::<int>::empty()) by {
                broadcast use vstd::seq_lib::group_to_multiset_ensures;
                assert(ck.to_multiset().len() == 0);
            }
        }
    }
    while r < rows
        invariant
            r <= rows,
            tlen == tile@.len(),
            hist.wf(),
            spp == start.channels(),
            hist.channels() == spp,
            hist.bits() == bps,
            hist.format() == fmt,
            hist.byte_order() == order,
            w == sample_layout(bps, fmt).0,
            valid <= src_row,
            rows > 0 ==> (rows - 1) * src_row + valid <= tile@.len(),
            valid as nat % (spp * w) == 0,
            start.total_count() + rows * valid <= u64::MAX,
            hist.total_count() <= start.total_count() + r * valid,
            spp >= 1,
            w >= 1,
            forall|c: int, k: int|
                0 <= c < spp ==> #[trigger] hist.count(c, k) == start.count(c, k) + channel_keys(
                    valid_rows(tile@, r as nat, valid as nat, src_row as nat),
                    spp,
                    bps,
                    fmt,
                    order,
                    c as nat,
                ).to_multiset().count(k),
        decreases rows - r,
    {
        proof {
            assert(r * src_row + valid <= (rows - 1) * src_row + valid) by (nonlinear_arith)
                requires
                    r < rows,
            ;
            assert(r * valid + valid <= rows * valid) by (nonlinear_arith)
                requires
                    r < rows,
            ;
        }
        let from = r * src_row;
        let row = vstd::slice::slice_subrange(tile, from, from + valid);
        let ghost before = *hist;
        proof {
            if r > 0 {
                assert((r - 1) * src_row + valid <= r * src_row + valid) by (nonlinear_arith)
                    requires
                        r >= 1,
                ;
            }
            lemma_valid_rows_len(tile@, r as nat, valid as nat, src_row as nat);
            crate::pixels::lemma_pixels_fit(valid as nat, spp, w);
            let np = pixel_count(valid as nat, spp, w);
            assert(spp * np <= valid) by (nonlinear_arith)
                requires
                    np * (spp * w) <= valid,
                    w >= 1,
            ;
            assert(r * valid + valid == (r + 1) * valid) by (nonlinear_arith);
        }
        hist.accumulate(row);
        proof {
            let prev = valid_rows(tile@, r as nat, valid as nat, src_row as nat);
            let next = valid_rows(tile@, (r + 1) as nat, valid as nat, src_row as nat);
            assert(next == prev + row@);
            assert(prev.len() % (spp * w) == 0) by {
                let m = valid as nat / (spp * w);
                vstd::arithmetic::div_mod::lemma_fundamental_div_mod(valid as int, (spp * w) as int);
                assert(prev.len() == (r * m) * (spp * w)) by (nonlinear_arith)
                    requires
                        prev.len() == r * valid,
                        valid == (spp * w) * m,
                ;
                vstd::arithmetic::div_mod::lemma_mod_multiples_basic((r * m) as int, (spp * w) as int);
            }
            assert forall|c: int, k: int| 0 <= c < spp implies #[trigger] hist.count(c, k)
                == start.count(c, k) + channel_keys(next, spp, bps, fmt, order, c as nat).to_multiset().count(k) by {
                law_channel_keys_split(prev, row@, spp, bps, fmt, order, c as nat);
                vstd::seq_lib::lemma_multiset_commutative(
                    channel_keys(prev, spp, bps, fmt, order, c as nat),
                    channel_keys(row@, spp, bps, fmt, order, c as nat),
                );
            }
        }
        r = r + 1;
    }
}

} // verus!
