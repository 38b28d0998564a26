use tiff_reducer::report::format_size;
use tiff_reducer::test_images::skipped_test_image;

/// The size text as the test report prints it, with floats.
fn float_format_size(size: u64) -> String {
    if size < 1024 {
        format!("{} B", size)
    } else if size < 1024 * 1024 {
        format!("{:.1} KB", size as f64 / 1024.0)
    } else if size < 1024 * 1024 * 1024 {
        format!("{:.1} MB", size as f64 / (1024.0 * 1024.0))
    } else {
        format!("{:.2} GB", size as f64 / (1024.0 * 1024.0 * 1024.0))
    }
}

#[test]
fn format_size_units() {
    assert_eq!(format_size(0), "0 B");
    assert_eq!(format_size(512), "512 B");
    assert_eq!(format_size(1023), "1023 B");
    assert_eq!(format_size(1024), "1.0 KB");
    assert_eq!(format_size(1536), "1.5 KB");
    assert_eq!(format_size(1048575), "1024.0 KB");
    assert_eq!(format_size(1048576), "1.0 MB");
    assert_eq!(format_size(5 * 1048576 + 104858), "5.1 MB");
    assert_eq!(format_size(1073741824), "1.00 GB");
    assert_eq!(format_size(1342177280), "1.25 GB");
}

#[test]
fn format_size_ties_go_to_even() {
    // 1.25 KB and 1.75 KB are exact ties at one decimal
    assert_eq!(format_size(1280), "1.2 KB");
    assert_eq!(format_size(1792), "1.8 KB");
    assert_eq!(format_size(1280), float_format_size(1280));
    assert_eq!(format_size(1792), float_format_size(1792));
}

#[test]
fn format_size_matches_float_formatting() {
    let mut sizes: Vec<u64> = vec![
        0,
        1,
        1023,
        1024,
        1025,
        1075,
        1076,
        1048575,
        1048576,
        1073741823,
        1073741824,
        (1u64 << 53) - 1,
        1u64 << 53,
        (1u64 << 53) + 1,
        (1u64 << 54) + 2,
        (1u64 << 54) + 6,
        u64::MAX - 1024,
        u64::MAX,
    ];
    let mut state: u64 = 7;
    for _ in 0..20000 {
        state = state
            .wrapping_mul(6364136223846793005)
            .wrapping_add(1442695040888963407);
        let shift = (state >> 58) as u32;
        sizes.push(state >> shift);
    }
    for k in 0..4096u64 {
        sizes.push(1024 + k);
        sizes.push(1048576 + k * 51);
        sizes.push(1073741824 + k * 5368709);
    }
    for size in sizes {
        assert_eq!(format_size(size), float_format_size(size), "size {}", size);
    }
}

use tiff_reducer::report::{render_section, report_markdown, ReportSummary, TestResult};

/// The section as the test report writes it, with floats.
fn float_render_section(report: &mut String, summary: &ReportSummary) {
    report.push_str(
        "### Summary\n\n| Category | Count | Percentage |\n|----------|-------|------------|\n",
    );
    report.push_str(&format!(
        "| ✅ Working | {} | {:.1}% |\n| ❌ Failed | {} | {:.1}% |\n| **Total** | **{}** | **100%** |\n\n",
        summary.success,
        if summary.total > 0 { summary.success as f64 / summary.total as f64 * 100.0 } else { 0.0 },
        summary.failed,
        if summary.total > 0 { summary.failed as f64 / summary.total as f64 * 100.0 } else { 0.0 },
        summary.total
    ));
    let failed: Vec<&TestResult> = summary.results.iter().filter(|r| !r.success).collect();
    if !failed.is_empty() {
        report.push_str("### ❌ Failed Images\n\n| File | Original Size | Error |\n|------|---------------|-------|\n");
        for result in &failed {
            report.push_str(&format!(
                "| `{}` | {} bytes | {} |\n",
                result.name,
                result.orig_size,
                result.error.as_deref().unwrap_or("Unknown")
            ));
        }
        report.push('\n');
    }
    let working: Vec<&TestResult> = summary.results.iter().filter(|r| r.success).collect();
    if !working.is_empty() {
        report.push_str(
            "### ✅ Working Images\n\n| Original | Compressed | Details |\n|:---:|:---:|:---:|\n",
        );
        for result in &working {
            report.push_str("| ");
            if let Some(ref thumb) = result.thumb_orig {
                report.push_str(&format!("![Original]({})", thumb));
            } else {
                report.push_str("*N/A*");
            }
            report.push_str(" | ");
            if let Some(ref thumb) = result.thumb_comp {
                report.push_str(&format!("![Compressed]({})", thumb));
            } else {
                report.push_str("*N/A*");
            }
            let reduction = if result.orig_size > 0 {
                (1.0 - result.comp_size as f64 / result.orig_size as f64) * 100.0
            } else {
                0.0
            };
            report.push_str(&format!(" | **File:** `{}`<br>**Codec:** {}<br>**Size:** {} → {}<br>**Red:** {:.1}%<br>**Time:** {}ms |\n",
                result.name, result.codec, float_format_size(result.orig_size), float_format_size(result.comp_size), reduction, result.duration_ms));
        }
        report.push('\n');
    }
}

fn result(name: &str, success: bool, orig: u64, comp: u64) -> TestResult {
    TestResult {
        name: name.to_string(),
        success,
        error: if success { None } else if orig % 2 == 0 { Some("Compression failed".to_string()) } else { None },
        orig_size: orig,
        comp_size: comp,
        duration_ms: orig % 997,
        thumb_orig: if orig % 3 == 0 { None } else { Some(format!("thumbnails/{}_orig.png", name)) },
        thumb_comp: if orig % 5 == 0 { None } else { Some(format!("thumbnails/{}_comp.png", name)) },
        codec: "zstd (lvl 19)".to_string(),
    }
}

fn summary_of(results: Vec<TestResult>) -> ReportSummary {
    let success = results.iter().filter(|r| r.success).count();
    ReportSummary {
        total: results.len(),
        success,
        failed: results.len() - success,
        results,
        total_duration_ms: 1234,
    }
}

#[test]
fn section_matches_float_rendering() {
    let mut state: u64 = 3;
    for round in 0..300usize {
        let mut results = Vec::new();
        for i in 0..(round % 9) {
            state = state.wrapping_mul(6364136223846793005).wrapping_add(1442695040888963407);
            let shift = (state >> 59) as u32 * 2;
            let orig = (state >> 3) >> shift;
            state = state.wrapping_mul(6364136223846793005).wrapping_add(1442695040888963407);
            let comp = match i % 4 {
                0 => orig / 3 + 1,
                1 => (state >> 7) >> ((state >> 60) as u32 * 3),
                2 => orig.saturating_mul(5),
                _ => orig,
            };
            results.push(result(&format!("img{}", i), state % 3 != 0, orig, comp));
        }
        let summary = summary_of(results);
        let mut expected = String::from("prefix\n");
        float_render_section(&mut expected, &summary);
        let mut got = String::from("prefix\n");
        render_section(&mut got, &summary);
        assert_eq!(got, expected);
    }
}

#[test]
fn section_of_edge_sizes() {
    let results = vec![
        result("zero", true, 0, 10),
        result("tiny", true, 1, u64::MAX),
        result("huge", true, u64::MAX, 1),
        result("same", true, 1 << 60, 1 << 60),
        result("just_below", true, 1000, 999),
        result("failed_even", false, 42, 0),
        result("failed_odd", false, 43, 0),
    ];
    let summary = summary_of(results);
    let mut expected = String::new();
    float_render_section(&mut expected, &summary);
    let mut got = String::new();
    render_section(&mut got, &summary);
    assert_eq!(got, expected);
    assert!(got.contains("**Red:** -0.1%") || got.contains("**Red:** 0.1%"));
}

#[test]
fn empty_and_unusual_counts() {
    let empty = summary_of(Vec::new());
    let mut got = String::new();
    render_section(&mut got, &empty);
    assert_eq!(
        got,
        "### Summary\n\n| Category | Count | Percentage |\n|----------|-------|------------|\n| ✅ Working | 0 | 0.0% |\n| ❌ Failed | 0 | 0.0% |\n| **Total** | **0** | **100%** |\n\n"
    );
    for (success, total) in [(1usize, 3usize), (2, 3), (1, 6), (5, 7), (7, 3), (1, 1000000007)] {
        let s = ReportSummary { total, success, failed: total.saturating_sub(success), results: Vec::new(), total_duration_ms: 0 };
        let mut expected = String::new();
        float_render_section(&mut expected, &s);
        let mut got = String::new();
        render_section(&mut got, &s);
        assert_eq!(got, expected);
    }
}

#[test]
fn whole_report_text() {
    let lossless = summary_of(vec![result("a", true, 3000, 1000), result("b", false, 10, 0)]);
    let lossy = summary_of(vec![result("c", true, 2048, 512)]);
    let text = report_markdown("2024-01-02 03:04:05", Some(&lossless), Some(&lossy));
    let mut expected = String::new();
    expected.push_str("# tiff-reducer Test Report\n\n");
    expected.push_str("**Generated:** 2024-01-02 03:04:05\n\n");
    expected.push_str("## Summary\n\n");
    expected.push_str("- [Lossless Report](#lossless-report): 1 working, 1 failed\n");
    expected.push_str("- [Lossy Report](#lossy-report): 1 working, 0 failed\n");
    expected.push('\n');
    expected.push_str("<a id=\"lossless-report\"></a>\n## Lossless Report\n\n");
    float_render_section(&mut expected, &lossless);
    expected.push_str("<a id=\"lossy-report\"></a>\n## Lossy Report\n\n");
    float_render_section(&mut expected, &lossy);
    assert_eq!(text, expected);
    let only = report_markdown("t", None, Some(&lossy));
    assert!(only.starts_with("# tiff-reducer Test Report\n\n**Generated:** t\n\n## Summary\n\n- [Lossy Report]"));
}

#[test]
fn test_set_skips_known_images() {
    assert!(skipped_test_image("smallliz.tif", false));
    assert!(skipped_test_image("tiled-jpeg-ycbcr.tif", true));
    assert!(!skipped_test_image("P1_T0.tif", false));
    assert!(skipped_test_image("P1_T0.tif", true));
    assert!(skipped_test_image("white-fp16.tif", true));
    assert!(!skipped_test_image("white-fp16.tif", false));
    assert!(!skipped_test_image("new-image.tif", true));
    assert!(!skipped_test_image("smallliz.tiff", true));
    assert!(!skipped_test_image("", true));
}
