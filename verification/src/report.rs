//! Text of the test report: the Markdown tables of each pass over the test
//! images. Sizes and percentages are written exactly as the 64-bit float
//! computation of them is printed (round to nearest, ties to even, at each
//! operation and in the decimals), but computed on integers.

use vstd::prelude::*;
use vstd::string::StringExecFns;
use crate::rounding::{
    f64_ratio, f64_ratio_u128, round_div, round_half_even, round_significant,
    round_significant_u128, two_to,
};

verus! {

/// `10^d`.
pub open spec fn pow10(d: nat) -> nat
    decreases d,
{
    if d == 0 {
        1
    } else {
        10 * pow10((d - 1) as nat)
    }
}

/// The character of decimal digit `d`.
pub open spec fn digit_char(d: nat) -> char {
    (d + 48) as char
}

/// Decimal digits of `n`, without leading zeros.
pub open spec fn decimal(n: nat) -> Seq<char>
    decreases n,
{
    if n < 10 {
        seq![digit_char(n)]
    } else {
        decimal(n / 10).push(digit_char(n % 10))
    }
}

/// The last `d` decimal digits of `x`, with leading zeros.
pub open spec fn padded(x: nat, d: nat) -> Seq<char>
    decreases d,
{
    if d == 0 {
        Seq::empty()
    } else {
        padded(x / 10, (d - 1) as nat).push(digit_char(x % 10))
    }
}

/// `v / 10^d` written with `d` decimals.
pub open spec fn fixed(v: nat, d: nat) -> Seq<char> {
    decimal(v / pow10(d)) + seq!['.'] + padded(v % pow10(d), d)
}

/// The integer `n` converted to a 64-bit float: rounded to 53 significant
/// bits, ties to even.
pub open spec fn float_of(n: nat) -> nat {
    round_significant(n, 0x20000000000000)
}

pub const KIB: u64 = 1024;
pub const MIB: u64 = 1048576;
pub const GIB: u64 = 1073741824;

/// A size in bytes in human units: bytes below 1 KiB, then KB and MB with
/// one decimal, GB with two; the decimals are those of the size as a 64-bit
/// float divided by the unit, rounded to nearest, ties to even.
pub open spec fn format_size_spec(size: u64) -> Seq<char> {
    if size < KIB {
        decimal(size as nat) + seq![' ', 'B']
    } else if size < MIB {
        fixed(round_half_even(size as nat * 10, KIB as nat), 1) + seq![' ', 'K', 'B']
    } else if size < GIB {
        fixed(round_half_even(size as nat * 10, MIB as nat), 1) + seq![' ', 'M', 'B']
    } else {
        fixed(round_half_even(float_of(size as nat) * 100, GIB as nat), 2) + seq![' ', 'G', 'B']
    }
}

/// The one-character string of decimal digit `d`.
fn digit_str(d: u128) -> (s: &'static str)
    requires
        d < 10,
    ensures
        s@ == seq![digit_char(d as nat)],
{
    if d == 0 {
        proof {
            reveal_strlit("0");
        }
        "0"
    } else if d == 1 {
        proof {
            reveal_strlit("1");
        }
        "1"
    } else if d == 2 {
        proof {
            reveal_strlit("2");
        }
        "2"
    } else if d == 3 {
        proof {
            reveal_strlit("3");
        }
        "3"
    } else if d == 4 {
        proof {
            reveal_strlit("4");
        }
        "4"
    } else if d == 5 {
        proof {
            reveal_strlit("5");
        }
        "5"
    } else if d == 6 {
        proof {
            reveal_strlit("6");
        }
        "6"
    } else if d == 7 {
        proof {
            reveal_strlit("7");
        }
        "7"
    } else if d == 8 {
        proof {
            reveal_strlit("8");
        }
        "8"
    } else {
        proof {
            reveal_strlit("9");
        }
        "9"
    }
}

/// Appends the decimal digits of `n`.
fn push_decimal(s: &mut String, n: u128)
    ensures
        final(s)@ == old(s)@ + decimal(n as nat),
    decreases n,
{
    if n >= 10 {
        push_decimal(s, n / 10);
        s.append(digit_str(n % 10));
        assert(final(s)@ =~= old(s)@ + decimal(n as nat));
    } else {
        s.append(digit_str(n));
        assert(final(s)@ =~= old(s)@ + decimal(n as nat));
    }
}

/// Appends the last `d` decimal digits of `x`, with leading zeros.
fn push_padded(s: &mut String, x: u128, d: u32)
    ensures
        final(s)@ == old(s)@ + padded(x as nat, d as nat),
    decreases d,
{
    if d > 0 {
        push_padded(s, x / 10, d - 1);
        s.append(digit_str(x % 10));
        assert(final(s)@ =~= old(s)@ + padded(x as nat, d as nat));
    } else {
        assert(final(s)@ =~= old(s)@ + padded(x as nat, d as nat));
    }
}

/// Appends `v / 10^d` written with `d` decimals, for one or two decimals.
fn push_fixed(s: &mut String, v: u128, d: u32)
    requires
        d == 1 || d == 2,
    ensures
        final(s)@ == old(s)@ + fixed(v as nat, d as nat),
{
    let scale: u128 = if d == 1 {
        10
    } else {
        100
    };
    assert(scale == pow10(d as nat)) by {
        reveal_with_fuel(pow10, 3);
    }
    push_decimal(s, v / scale);
    proof {
        reveal_strlit(".");
    }
    s.append(".");
    push_padded(s, v % scale, d);
    assert(final(s)@ =~= old(s)@ + fixed(v as nat, d as nat));
}

/// A size in bytes in human units, as a 64-bit float of it is printed:
/// `"512 B"`, `"1.5 KB"`, `"2.0 MB"`, `"1.25 GB"`.
pub fn format_size(size: u64) -> (r: String)
    ensures
        r@ == format_size_spec(size),
{
    let mut s = String::new();
    if size < KIB {
        push_decimal(&mut s, size as u128);
        proof {
            reveal_strlit(" B");
        }
        s.append(" B");
        return s;
    }
    let (v, d, suffix): (u128, u32, &'static str) = if size < MIB {
        proof {
            reveal_strlit(" KB");
        }
        (round_div(size as u128 * 10, KIB as u128), 1, " KB")
    } else if size < GIB {
        proof {
            reveal_strlit(" MB");
        }
        (round_div(size as u128 * 10, MIB as u128), 1, " MB")
    } else {
        proof {
            reveal_strlit(" GB");
        }
        (round_div(round_significant_u128(size as u128, 0x20000000000000) * 100, GIB as u128), 2, " GB")
    };
    push_fixed(&mut s, v, d);
    s.append(suffix);
    proof {
        assert(s@ =~= format_size_spec(size));
    }
    s
}

/// Tenths of `part as f64 / total as f64 * 100.0`, rounded to nearest, ties
/// to even, as `{:.1}` prints it; 0 when `total` is 0.
pub open spec fn percent_tenths(part: nat, total: nat) -> nat {
    if total == 0 {
        0
    } else {
        let (n, k) = f64_ratio(float_of(part), float_of(total));
        round_half_even(10 * round_significant(100 * n, 0x20000000000000), two_to(k))
    }
}

/// Sign and tenths of `(1.0 - result as f64 / original as f64) * 100.0`,
/// each operation rounded as 64-bit floats round, the tenths rounded to
/// nearest, ties to even, as `{:.1}` prints them; `(false, 0)` when
/// `original` is 0.
pub open spec fn reduction_tenths(result: nat, original: nat) -> (bool, nat) {
    if original == 0 {
        (false, 0)
    } else {
        let (n, k) = f64_ratio(float_of(result), float_of(original));
        let one = two_to(k);
        let neg = n > one;
        let d: nat = if neg {
            (n - one) as nat
        } else {
            (one - n) as nat
        };
        let z = round_significant(d, 0x20000000000000);
        (neg, round_half_even(10 * round_significant(100 * z, 0x20000000000000), one))
    }
}

/// `part / total` as a percentage with one decimal.
pub open spec fn percent_text(part: nat, total: nat) -> Seq<char> {
    fixed(percent_tenths(part, total), 1)
}

/// The reduction from `original` to `result` bytes as a percentage with one
/// decimal; negative when the result is larger.
pub open spec fn reduction_text(result: nat, original: nat) -> Seq<char> {
    let (neg, v) = reduction_tenths(result, original);
    (if neg {
        seq!['-']
    } else {
        Seq::empty()
    }) + fixed(v, 1)
}

/// Appends `part / total` as a percentage with one decimal.
fn push_percent(s: &mut String, part: u64, total: u64)
    ensures
        final(s)@ == old(s)@ + percent_text(part as nat, total as nat),
{
    if total == 0 {
        push_fixed(s, 0, 1);
        return;
    }
    let p = round_significant_u128(part as u128, 0x20000000000000);
    let q = round_significant_u128(total as u128, 0x20000000000000);
    let (n, k, one) = f64_ratio_u128(p, q);
    let hundred = round_significant_u128(100 * n, 0x20000000000000);
    let tenths = round_div(10 * hundred, one);
    push_fixed(s, tenths, 1);
}

/// Appends the reduction from `original` to `result` bytes as a percentage
/// with one decimal.
fn push_reduction(s: &mut String, result: u64, original: u64)
    ensures
        final(s)@ == old(s)@ + reduction_text(result as nat, original as nat),
{
    if original == 0 {
        push_fixed(s, 0, 1);
        assert(final(s)@ =~= old(s)@ + reduction_text(result as nat, original as nat));
        return;
    }
    let p = round_significant_u128(result as u128, 0x20000000000000);
    let q = round_significant_u128(original as u128, 0x20000000000000);
    let (n, k, one) = f64_ratio_u128(p, q);
    let neg = n > one;
    let d: u128 = if neg {
        n - one
    } else {
        one - n
    };
    let z = round_significant_u128(d, 0x20000000000000);
    assert(100 * z < 0x10000000000000000000000000000000) by (nonlinear_arith)
        requires
            z * 0x20000000000000 <= d * 0x20000000000000 + 2 * d,
            d <= 0x200000000000000000000000000000,
    ;
    let w = round_significant_u128(100 * z, 0x20000000000000);
    assert(10 * w <= u128::MAX) by (nonlinear_arith)
        requires
            w * 0x20000000000000 <= (100 * z) * 0x20000000000000 + 2 * (100 * z),
            100 * z < 0x10000000000000000000000000000000,
    ;
    let tenths = round_div(10 * w, one);
    if neg {
        proof {
            reveal_strlit("-");
        }
        s.append("-");
    }
    push_fixed(s, tenths, 1);
    assert(final(s)@ =~= old(s)@ + reduction_text(result as nat, original as nat));
}

/// Outcome of compressing one test image.
#[derive(Debug)]
pub struct TestResult {
    pub name: String,
    pub success: bool,
    pub error: Option<String>,
    pub orig_size: u64,
    pub comp_size: u64,
    pub duration_ms: u64,
    pub thumb_orig: Option<String>,
    pub thumb_comp: Option<String>,
    pub codec: String,
}

/// Results of one pass over the test images.
#[derive(Debug)]
pub struct ReportSummary {
    pub total: usize,
    pub success: usize,
    pub failed: usize,
    pub results: Vec<TestResult>,
    pub total_duration_ms: u64,
}

/// The table row of a failed image.
pub open spec fn failed_row(r: TestResult) -> Seq<char> {
    "| `"@ + r.name@ + "` | "@ + decimal(r.orig_size as nat) + " bytes | "@ + (match r.error {
        Some(e) => e@,
        None => "Unknown"@,
    }) + " |\n"@
}

/// The thumbnail cell of a working image.
pub open spec fn thumb_cell(thumb: Option<String>, compressed: bool) -> Seq<char> {
    match thumb {
        Some(t) => (if compressed {
            "![Compressed]("@
        } else {
            "![Original]("@
        }) + t@ + ")"@,
        None => "*N/A*"@,
    }
}

/// The table row of a working image.
pub open spec fn working_row(r: TestResult) -> Seq<char> {
    "| "@ + thumb_cell(r.thumb_orig, false) + " | "@ + thumb_cell(r.thumb_comp, true)
        + " | **File:** `"@ + r.name@ + "`<br>**Codec:** "@ + r.codec@ + "<br>**Size:** "@
        + format_size_spec(r.orig_size) + " → "@ + format_size_spec(r.comp_size)
        + "<br>**Red:** "@ + reduction_text(r.comp_size as nat, r.orig_size as nat)
        + "%<br>**Time:** "@ + decimal(r.duration_ms as nat) + "ms |\n"@
}

/// The rows of the failed images of `rs`, in order.
pub open spec fn failed_rows(rs: Seq<TestResult>) -> Seq<char>
    decreases rs.len(),
{
    if rs.len() == 0 {
        Seq::empty()
    } else {
        failed_rows(rs.drop_last()) + if !rs.last().success {
            failed_row(rs.last())
        } else {
            Seq::empty()
        }
    }
}

/// The rows of the working images of `rs`, in order.
pub open spec fn working_rows(rs: Seq<TestResult>) -> Seq<char>
    decreases rs.len(),
{
    if rs.len() == 0 {
        Seq::empty()
    } else {
        working_rows(rs.drop_last()) + if rs.last().success {
            working_row(rs.last())
        } else {
            Seq::empty()
        }
    }
}

/// Whether some image of `rs` failed.
pub open spec fn any_failed(rs: Seq<TestResult>) -> bool {
    exists|i: int| 0 <= i < rs.len() && !(#[trigger] rs[i]).success
}

/// Whether some image of `rs` worked.
pub open spec fn any_working(rs: Seq<TestResult>) -> bool {
    exists|i: int| 0 <= i < rs.len() && (#[trigger] rs[i]).success
}

/// The summary table of a pass.
pub open spec fn summary_table(s: ReportSummary) -> Seq<char> {
    "### Summary\n\n| Category | Count | Percentage |\n|----------|-------|------------|\n"@
        + "| ✅ Working | "@ + decimal(s.success as nat) + " | "@ + percent_text(
        s.success as nat,
        s.total as nat,
    ) + "% |\n| ❌ Failed | "@ + decimal(s.failed as nat) + " | "@ + percent_text(
        s.failed as nat,
        s.total as nat,
    ) + "% |\n| **Total** | **"@ + decimal(s.total as nat) + "** | **100%** |\n\n"@
}

/// The Markdown section of one pass: the summary table, then the table of
/// failed images and the table of working images, each only when it has a
/// row.
pub open spec fn section_text(s: ReportSummary) -> Seq<char> {
    summary_table(s) + (if any_failed(s.results@) {
        "### ❌ Failed Images\n\n| File | Original Size | Error |\n|------|---------------|-------|\n"@
            + failed_rows(s.results@) + "\n"@
    } else {
        Seq::empty()
    }) + (if any_working(s.results@) {
        "### ✅ Working Images\n\n| Original | Compressed | Details |\n|:---:|:---:|:---:|\n"@
            + working_rows(s.results@) + "\n"@
    } else {
        Seq::empty()
    })
}

/// Appends the row of a failed image.
fn push_failed_row(out: &mut String, r: &TestResult)
    ensures
        final(out)@ == old(out)@ + failed_row(*r),
{
    out.append("| `");
    out.append(r.name.as_str());
    out.append("` | ");
    push_decimal(out, r.orig_size as u128);
    out.append(" bytes | ");
    match &r.error {
        Some(e) => out.append(e.as_str()),
        None => out.append("Unknown"),
    }
    out.append(" |\n");
    assert(final(out)@ =~= old(out)@ + failed_row(*r));
}

/// Appends a thumbnail cell.
fn push_thumb_cell(out: &mut String, thumb: &Option<String>, compressed: bool)
    ensures
        final(out)@ == old(out)@ + thumb_cell(*thumb, compressed),
{
    match thumb {
        Some(t) => {
            if compressed {
                out.append("![Compressed](");
            } else {
                out.append("![Original](");
            }
            out.append(t.as_str());
            out.append(")");
        },
        None => out.append("*N/A*"),
    }
    assert(final(out)@ =~= old(out)@ + thumb_cell(*thumb, compressed));
}

/// Appends the row of a working image.
fn push_working_row(out: &mut String, r: &TestResult)
    ensures
        final(out)@ == old(out)@ + working_row(*r),
{
    out.append("| ");
    push_thumb_cell(out, &r.thumb_orig, false);
    out.append(" | ");
    push_thumb_cell(out, &r.thumb_comp, true);
    out.append(" | **File:** `");
    out.append(r.name.as_str());
    out.append("`<br>**Codec:** ");
    out.append(r.codec.as_str());
    out.append("<br>**Size:** ");
    let orig = format_size(r.orig_size);
    out.append(orig.as_str());
    out.append(" → ");
    let comp = format_size(r.comp_size);
    out.append(comp.as_str());
    out.append("<br>**Red:** ");
    push_reduction(out, r.comp_size, r.orig_size);
    out.append("%<br>**Time:** ");
    push_decimal(out, r.duration_ms as u128);
    out.append("ms |\n");
    assert(final(out)@ =~= old(out)@ + working_row(*r));
}

/// Appends the summary table of a pass.
fn push_summary_table(report: &mut String, summary: &ReportSummary)
    ensures
        final(report)@ == old(report)@ + summary_table(*summary),
{
    report.append(
        "### Summary\n\n| Category | Count | Percentage |\n|----------|-------|------------|\n",
    );
    report.append("| ✅ Working | ");
    push_decimal(report, summary.success as u128);
    report.append(" | ");
    push_percent(report, summary.success as u64, summary.total as u64);
    report.append("% |\n| ❌ Failed | ");
    push_decimal(report, summary.failed as u128);
    report.append(" | ");
    push_percent(report, summary.failed as u64, summary.total as u64);
    report.append("% |\n| **Total** | **");
    push_decimal(report, summary.total as u128);
    report.append("** | **100%** |\n\n");
    assert(final(report)@ =~= old(report)@ + summary_table(*summary));
}

/// The rows of the failed and of the working images, and whether there is
/// any of each.
fn collect_rows(results: &Vec<TestResult>) -> (r: (String, String, bool, bool))
    ensures
        r.0@ == failed_rows(results@),
        r.1@ == working_rows(results@),
        r.2 == any_failed(results@),
        r.3 == any_working(results@),
{
    let n = results.len();
    let mut failed_text = String::new();
    let mut working_text = String::new();
    let mut has_failed = false;
    let mut has_working = false;
    let mut i: usize = 0;
    while i < n
        invariant
            i <= n,
            n == results@.len(),
            failed_text@ == failed_rows(results@.take(i as int)),
            working_text@ == working_rows(results@.take(i as int)),
            has_failed == any_failed(results@.take(i as int)),
            has_working == any_working(results@.take(i as int)),
        decreases n - i,
    {
        let r = &results[i];
        let ghost prefix = results@.take(i as int);
        let ghost next = results@.take(i + 1);
        proof {
            assert(next.drop_last() =~= prefix);
            assert(next.last() == *r);
            assert(next[i as int] == *r);
            assert forall|j: int| 0 <= j < i implies #[trigger] next[j] == prefix[j] by {}
        }
        if r.success {
            push_working_row(&mut working_text, r);
            has_working = true;
        } else {
            push_failed_row(&mut failed_text, r);
            has_failed = true;
        }
        proof {
            assert(failed_text@ =~= failed_rows(next));
            assert(working_text@ =~= working_rows(next));
            if any_failed(prefix) {
                let j = choose|j: int| 0 <= j < prefix.len() && !(#[trigger] prefix[j]).success;
                assert(!next[j].success);
            }
            if any_working(prefix) {
                let j = choose|j: int| 0 <= j < prefix.len() && (#[trigger] prefix[j]).success;
                assert(next[j].success);
            }
            if any_failed(next) && r.success {
                let j = choose|j: int| 0 <= j < next.len() && !(#[trigger] next[j]).success;
                assert(!prefix[j].success);
            }
            if any_working(next) && !r.success {
                let j = choose|j: int| 0 <= j < next.len() && (#[trigger] next[j]).success;
                assert(prefix[j].success);
            }
        }
        i = i + 1;
    }
    proof {
        assert(results@.take(n as int) =~= results@);
    }
    (failed_text, working_text, has_failed, has_working)
}

/// Appends the Markdown section of one pass (see `section_text`).
pub fn render_section(report: &mut String, summary: &ReportSummary)
    ensures
        final(report)@ == old(report)@ + section_text(*summary),
{
    let (failed_text, working_text, has_failed, has_working) = collect_rows(&summary.results);
    push_summary_table(report, summary);
    let ghost after_table = report@;
    if has_failed {
        report.append(
            "### ❌ Failed Images\n\n| File | Original Size | Error |\n|------|---------------|-------|\n",
        );
        report.append(failed_text.as_str());
        report.append("\n");
    }
    let ghost after_failed = report@;
    assert(after_failed =~= after_table + (if has_failed {
        "### ❌ Failed Images\n\n| File | Original Size | Error |\n|------|---------------|-------|\n"@
            + failed_rows(summary.results@) + "\n"@
    } else {
        Seq::empty()
    }));
    if has_working {
        report.append(
            "### ✅ Working Images\n\n| Original | Compressed | Details |\n|:---:|:---:|:---:|\n",
        );
        report.append(working_text.as_str());
        report.append("\n");
    }
    assert(report@ =~= after_failed + (if has_working {
        "### ✅ Working Images\n\n| Original | Compressed | Details |\n|:---:|:---:|:---:|\n"@
            + working_rows(summary.results@) + "\n"@
    } else {
        Seq::empty()
    }));
    assert(final(report)@ =~= old(report)@ + section_text(*summary));
}

/// A pass as the report text sees it.
pub open spec fn pass_of(p: Option<&ReportSummary>) -> Option<ReportSummary> {
    match p {
        Some(s) => Some(*s),
        None => None,
    }
}

/// The summary line of the lossless pass.
pub open spec fn lossless_line(p: Option<ReportSummary>) -> Seq<char> {
    match p {
        Some(s) => "- [Lossless Report](#lossless-report): "@ + decimal(s.success as nat)
            + " working, "@ + decimal(s.failed as nat) + " failed\n"@,
        None => Seq::empty(),
    }
}

/// The summary line of the lossy pass.
pub open spec fn lossy_line(p: Option<ReportSummary>) -> Seq<char> {
    match p {
        Some(s) => "- [Lossy Report](#lossy-report): "@ + decimal(s.success as nat) + " working, "@
            + decimal(s.failed as nat) + " failed\n"@,
        None => Seq::empty(),
    }
}

/// The section of the lossless pass.
pub open spec fn lossless_section(p: Option<ReportSummary>) -> Seq<char> {
    match p {
        Some(s) => "<a id=\"lossless-report\"></a>\n## Lossless Report\n\n"@ + section_text(s),
        None => Seq::empty(),
    }
}

/// The section of the lossy pass.
pub open spec fn lossy_section(p: Option<ReportSummary>) -> Seq<char> {
    match p {
        Some(s) => "<a id=\"lossy-report\"></a>\n## Lossy Report\n\n"@ + section_text(s),
        None => Seq::empty(),
    }
}

/// The whole Markdown report: title, time of generation, one summary line
/// per pass, then the section of each pass.
pub open spec fn report_text(
    generated: Seq<char>,
    lossless: Option<ReportSummary>,
    lossy: Option<ReportSummary>,
) -> Seq<char> {
    "# tiff-reducer Test Report\n\n"@ + "**Generated:** "@ + generated + "\n\n"@
        + "## Summary\n\n"@ + lossless_line(lossless) + lossy_line(lossy) + "\n"@
        + lossless_section(lossless) + lossy_section(lossy)
}

/// Appends one summary line per pass.
fn push_summary_lines(
    report: &mut String,
    lossless: Option<&ReportSummary>,
    lossy: Option<&ReportSummary>,
)
    ensures
        final(report)@ == old(report)@ + lossless_line(pass_of(lossless)) + lossy_line(
            pass_of(lossy),
        ),
{
    if let Some(s) = lossless {
        report.append("- [Lossless Report](#lossless-report): ");
        push_decimal(report, s.success as u128);
        report.append(" working, ");
        push_decimal(report, s.failed as u128);
        report.append(" failed\n");
    }
    let ghost with_first = report@;
    assert(with_first =~= old(report)@ + lossless_line(pass_of(lossless)));
    if let Some(s) = lossy {
        report.append("- [Lossy Report](#lossy-report): ");
        push_decimal(report, s.success as u128);
        report.append(" working, ");
        push_decimal(report, s.failed as u128);
        report.append(" failed\n");
    }
    assert(report@ =~= with_first + lossy_line(pass_of(lossy)));
}

/// Appends the section of each pass.
fn push_sections(report: &mut String, lossless: Option<&ReportSummary>, lossy: Option<&ReportSummary>)
    ensures
        final(report)@ == old(report)@ + lossless_section(pass_of(lossless)) + lossy_section(
            pass_of(lossy),
        ),
{
    if let Some(s) = lossless {
        report.append("<a id=\"lossless-report\"></a>\n## Lossless Report\n\n");
        render_section(report, s);
    }
    let ghost with_first = report@;
    assert(with_first =~= old(report)@ + lossless_section(pass_of(lossless)));
    if let Some(s) = lossy {
        report.append("<a id=\"lossy-report\"></a>\n## Lossy Report\n\n");
        render_section(report, s);
    }
    assert(report@ =~= with_first + lossy_section(pass_of(lossy)));
}

/// The Markdown report of the lossless and lossy passes, generated at the
/// time written `generated`.
pub fn report_markdown(
    generated: &str,
    lossless: Option<&ReportSummary>,
    lossy: Option<&ReportSummary>,
) -> (r: String)
    ensures
        r@ == report_text(generated@, pass_of(lossless), pass_of(lossy)),
{
    let mut report = String::new();
    report.append("# tiff-reducer Test Report\n\n");
    report.append("**Generated:** ");
    report.append(generated);
    report.append("\n\n");
    report.append("## Summary\n\n");
    push_summary_lines(&mut report, lossless, lossy);
    report.append("\n");
    push_sections(&mut report, lossless, lossy);
    assert(report@ =~= report_text(generated@, pass_of(lossless), pass_of(lossy)));
    report
}

} // verus!
