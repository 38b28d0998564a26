use tiff_reducer::batch::{
    band_progress, batch_output_ok, is_tiff_extension, needs_bigtiff, output_target,
    progress_percent, sanitize_filename, OutputTarget,
};

#[test]
fn sanitize_keeps_plain_names() {
    assert_eq!(sanitize_filename("image.tif"), Some("image.tif".to_string()));
    assert_eq!(sanitize_filename("..hidden.tif"), Some("..hidden.tif".to_string()));
    assert_eq!(sanitize_filename("ünïcode.tiff"), Some("ünïcode.tiff".to_string()));
}

#[test]
fn sanitize_refuses_traversal_and_separators() {
    assert_eq!(sanitize_filename(".."), None);
    assert_eq!(sanitize_filename("."), None);
    assert_eq!(sanitize_filename("../etc/passwd"), None);
    assert_eq!(sanitize_filename("/abs.tif"), None);
    assert_eq!(sanitize_filename("dir/file.tif"), None);
    assert_eq!(sanitize_filename("nul\0.tif"), None);
}

#[test]
fn tiff_extensions() {
    for ext in ["tif", "tiff", "TIF", "TIFF"] {
        assert!(is_tiff_extension(ext), "{}", ext);
    }
    for ext in ["Tif", "tifff", "png", "", "ti", "TIFf"] {
        assert!(!is_tiff_extension(ext), "{}", ext);
    }
}

#[test]
fn several_inputs_need_an_output_directory() {
    assert!(!batch_output_ok(2, true, false));
    assert!(batch_output_ok(2, true, true));
    assert!(batch_output_ok(2, false, false));
    assert!(batch_output_ok(1, true, false));
    assert!(batch_output_ok(0, true, false));
}

#[test]
fn output_targets() {
    assert_eq!(output_target(false, false, Some("a.tif")), OutputTarget::SameAsInput);
    assert_eq!(output_target(false, true, None), OutputTarget::SameAsInput);
    assert_eq!(output_target(true, false, Some("a.tif")), OutputTarget::Given);
    assert_eq!(
        output_target(true, true, Some("a.tif")),
        OutputTarget::InDirectory("a.tif".to_string())
    );
    assert_eq!(output_target(true, true, Some("..")), OutputTarget::InvalidName);
    assert_eq!(output_target(true, true, None), OutputTarget::InvalidName);
}

#[test]
fn bigtiff_above_four_gib() {
    assert!(!needs_bigtiff(0));
    assert!(!needs_bigtiff(4 * 1024 * 1024 * 1024));
    assert!(needs_bigtiff(4 * 1024 * 1024 * 1024 + 1));
}

#[test]
fn progress_values() {
    assert_eq!(progress_percent(0, 3), 0);
    assert_eq!(progress_percent(1, 3), 33);
    assert_eq!(progress_percent(3, 3), 100);
    // page 1 of 2, tile row 3 of 4: (100 + 75) / 2
    assert_eq!(band_progress(1, 2, 3, 4), 87);
    assert_eq!(band_progress(0, 1, 0, 10), 0);
}
