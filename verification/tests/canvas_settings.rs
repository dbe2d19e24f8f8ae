use synthia::canvas_settings::{format_aspect_ratio, gcd};

#[test]
fn gcd_of_common_sizes() {
    assert_eq!(gcd(16, 12), 4);
    assert_eq!(gcd(1920, 1080), 120);
    assert_eq!(gcd(7, 0), 7);
    assert_eq!(gcd(0, 5), 5);
    assert_eq!(gcd(0, 0), 1);
    assert_eq!(gcd(17, 5), 1);
}

#[test]
fn aspect_ratios_are_reduced() {
    assert_eq!(format_aspect_ratio(1920, 1080), "16:9");
    assert_eq!(format_aspect_ratio(1080, 1080), "1:1");
    assert_eq!(format_aspect_ratio(1080, 1920), "9:16");
    assert_eq!(format_aspect_ratio(2480, 3508), "620:877");
    assert_eq!(format_aspect_ratio(800, 600), "4:3");
}
