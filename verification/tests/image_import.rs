use synthia::image_import::is_supported_image_type;

#[test]
fn accepts_png_jpeg_and_webp_only() {
    assert!(is_supported_image_type("image/png"));
    assert!(is_supported_image_type("image/jpeg"));
    assert!(is_supported_image_type("image/webp"));
    assert!(!is_supported_image_type("image/svg+xml"));
    assert!(!is_supported_image_type("application/pdf"));
    assert!(!is_supported_image_type("IMAGE/PNG"));
    assert!(!is_supported_image_type(""));
}
