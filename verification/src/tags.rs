//! Limits applied when tags are copied from a source page to the output:
//! counts that libtiff reports are only passed on when plausible.

use vstd::prelude::*;
use crate::tiff::TIFFTAG_GEOKEYDIRECTORYTAG;

verus! {

/// Most extra samples passed on.
pub const MAX_EXTRA_SAMPLES: u32 = 1024;

/// Largest ICC profile copied, exclusive: 100 MiB.
pub const MAX_ICC_PROFILE: u32 = 104857600;

/// Number of extra-sample entries copied: none for an empty list, at most
/// `MAX_EXTRA_SAMPLES`.
pub fn extrasamples_count(count: u16) -> (r: Option<u32>)
    ensures
        count == 0 ==> r.is_none(),
        count > 0 ==> r == Some(
            if (count as u32) < MAX_EXTRA_SAMPLES {
                count as u32
            } else {
                MAX_EXTRA_SAMPLES
            },
        ),
{
    if count == 0 {
        None
    } else if (count as u32) < MAX_EXTRA_SAMPLES {
        Some(count as u32)
    } else {
        Some(MAX_EXTRA_SAMPLES)
    }
}

/// Whether an ICC profile of `count` bytes is copied.
pub fn icc_profile_accepted(count: u32) -> (r: bool)
    ensures
        r == (count > 0 && count < MAX_ICC_PROFILE),
{
    count > 0 && count < MAX_ICC_PROFILE
}

/// Largest count, exclusive, of a GeoTIFF array tag that is copied: the key
/// directory may hold up to 10000 entries, the arrays of doubles 1000.
pub open spec fn geo_array_limit(tag: u32) -> u32 {
    if tag == TIFFTAG_GEOKEYDIRECTORYTAG {
        10000
    } else {
        1000
    }
}

/// Whether a GeoTIFF array tag with `count` entries is copied.
pub fn geo_array_accepted(tag: u32, count: u32) -> (r: bool)
    ensures
        r == (count > 0 && count < geo_array_limit(tag)),
{
    let limit: u32 = if tag == TIFFTAG_GEOKEYDIRECTORYTAG {
        10000
    } else {
        1000
    };
    count > 0 && count < limit
}

} // verus!
