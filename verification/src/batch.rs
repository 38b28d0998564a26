//! Decisions of a run over many files: which inputs are TIFF files, where
//! each result is written, whether a file name is safe to join to an output
//! directory, and the progress shown.

use vstd::prelude::*;
use vstd::string::StringSliceAdditionalSpecFns;

verus! {

/// A file name is joined to an output directory only when it is a single
/// plain component: it holds no `/` and no NUL byte, and is neither `.` nor
/// `..`. Stated over the UTF-8 bytes of the name.
pub open spec fn safe_file_name(b: Seq<u8>) -> bool {
    &&& !b.contains(0x2fu8)
    &&& !b.contains(0u8)
    &&& b != seq![0x2eu8]
    &&& b != seq![0x2eu8, 0x2eu8]
}

/// The name itself when it is safe to join to an output directory, so that
/// no input can make a result land outside it; `None` otherwise.
pub fn sanitize_filename(name: &str) -> (r: Option<String>)
    ensures
        r.is_some() == safe_file_name(name.spec_bytes()),
        r.is_some() ==> r.unwrap()@ == name@,
{
    let b = name.as_bytes();
    let n = b.len();
    let mut i: usize = 0;
    while i < n
        invariant
            n == b@.len(),
            b@ == name.spec_bytes(),
            i <= n,
            forall|j: int| 0 <= j < i ==> b@[j] != 0x2fu8 && b@[j] != 0u8,
        decreases n - i,
    {
        if b[i] == 0x2f || b[i] == 0 {
            assert(b@.contains(b@[i as int]));
            return None;
        }
        i = i + 1;
    }
    if n == 1 && b[0] == 0x2e {
        assert(b@ =~= seq![0x2eu8]);
        return None;
    }
    if n == 2 && b[0] == 0x2e && b[1] == 0x2e {
        assert(b@ =~= seq![0x2eu8, 0x2eu8]);
        return None;
    }
    assert(!b@.contains(0x2fu8) && !b@.contains(0u8));
    Some(name.to_owned())
}

/// Extensions of the files taken from an input directory.
pub open spec fn tiff_extension(b: Seq<u8>) -> bool {
    ||| b == seq![0x74u8, 0x69u8, 0x66u8]
    ||| b == seq![0x74u8, 0x69u8, 0x66u8, 0x66u8]
    ||| b == seq![0x54u8, 0x49u8, 0x46u8]
    ||| b == seq![0x54u8, 0x49u8, 0x46u8, 0x46u8]
}

/// Whether a file of an input directory is taken: its extension is `tif`,
/// `tiff`, `TIF` or `TIFF`.
pub fn is_tiff_extension(ext: &str) -> (r: bool)
    ensures
        r == tiff_extension(ext.spec_bytes()),
{
    let b = ext.as_bytes();
    let n = b.len();
    if n == 3 {
        let lower = b[0] == 0x74 && b[1] == 0x69 && b[2] == 0x66;
        let upper = b[0] == 0x54 && b[1] == 0x49 && b[2] == 0x46;
        if lower {
            assert(b@ =~= seq![0x74u8, 0x69u8, 0x66u8]);
        }
        if upper {
            assert(b@ =~= seq![0x54u8, 0x49u8, 0x46u8]);
        }
        lower || upper
    } else if n == 4 {
        let lower = b[0] == 0x74 && b[1] == 0x69 && b[2] == 0x66 && b[3] == 0x66;
        let upper = b[0] == 0x54 && b[1] == 0x49 && b[2] == 0x46 && b[3] == 0x46;
        if lower {
            assert(b@ =~= seq![0x74u8, 0x69u8, 0x66u8, 0x66u8]);
        }
        if upper {
            assert(b@ =~= seq![0x54u8, 0x49u8, 0x46u8, 0x46u8]);
        }
        lower || upper
    } else {
        false
    }
}

/// Several inputs need the output to be an existing directory: otherwise
/// every result would be written to the same file.
pub fn batch_output_ok(num_files: usize, output_given: bool, output_is_dir: bool) -> (r: bool)
    ensures
        r == !(num_files > 1 && output_given && !output_is_dir),
{
    !(num_files > 1 && output_given && !output_is_dir)
}

/// Where the result for one input is written.
#[derive(PartialEq, Eq, Debug)]
pub enum OutputTarget {
    /// Over the input file itself.
    SameAsInput,
    /// To the output path as given.
    Given,
    /// Into the output directory, under this file name.
    InDirectory(String),
    /// Nowhere: the input's name is not safe to join to the directory.
    InvalidName,
}

/// The target for an input named `file_name` (`None` when the name is not
/// valid UTF-8): the input itself without an output, the output path when it
/// is not a directory, else the sanitized name inside the directory.
pub fn output_target(output_given: bool, output_is_dir: bool, file_name: Option<&str>) -> (r:
    OutputTarget)
    ensures
        !output_given ==> r == OutputTarget::SameAsInput,
        output_given && !output_is_dir ==> r == OutputTarget::Given,
        output_given && output_is_dir ==> match file_name {
            Some(n) => if safe_file_name(n.spec_bytes()) {
                r matches OutputTarget::InDirectory(s) && s@ == n@
            } else {
                r == OutputTarget::InvalidName
            },
            None => r == OutputTarget::InvalidName,
        },
{
    if !output_given {
        OutputTarget::SameAsInput
    } else if !output_is_dir {
        OutputTarget::Given
    } else {
        match file_name {
            Some(n) => match sanitize_filename(n) {
                Some(s) => OutputTarget::InDirectory(s),
                None => OutputTarget::InvalidName,
            },
            None => OutputTarget::InvalidName,
        }
    }
}

/// Inputs larger than this many bytes are written as BigTIFF: 4 GiB.
pub const BIGTIFF_THRESHOLD: u64 = 4294967296;

/// Whether the output of an input of `input_len` bytes is written as BigTIFF.
pub fn needs_bigtiff(input_len: u64) -> (r: bool)
    ensures
        r == (input_len > BIGTIFF_THRESHOLD),
{
    input_len > BIGTIFF_THRESHOLD
}

/// Percentage of work done, rounded down.
pub fn progress_percent(done: u64, total: u64) -> (r: u64)
    requires
        total > 0,
        done * 100 <= u64::MAX,
    ensures
        r as nat == (done as nat * 100) / (total as nat),
{
    done * 100 / total
}

/// Progress of a tiled page: whole pages done, plus the fraction of rows of
/// tiles done in the current page, over all pages.
pub open spec fn band_progress_spec(page: u16, total_pages: u16, row: u32, rows: u32) -> nat {
    (page as nat * 100 + row as nat * 100 / rows as nat) / total_pages as nat
}

/// Progress of a tiled page, as a percentage rounded down.
pub fn band_progress(page: u16, total_pages: u16, row: u32, rows: u32) -> (r: u64)
    requires
        total_pages > 0,
        rows > 0,
    ensures
        r == band_progress_spec(page, total_pages, row, rows),
{
    let within = (row as u64) * 100 / (rows as u64);
    assert(within <= row * 100);
    ((page as u64) * 100 + within) / (total_pages as u64)
}

} // verus!
