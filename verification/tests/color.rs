use synthia::color::{parse_hex, Color};

#[test]
fn parses_six_and_three_digit_hex() {
    assert_eq!(parse_hex("#1A2b3C"), Some((0x1A, 0x2B, 0x3C)));
    assert_eq!(parse_hex("fff"), Some((255, 255, 255)));
    assert_eq!(parse_hex("#0a0"), Some((0, 0xAA, 0)));
}

#[test]
fn trims_whitespace_and_one_leading_hash() {
    assert_eq!(parse_hex("  #abcdef\n"), Some((0xAB, 0xCD, 0xEF)));
    assert_eq!(parse_hex("##abc"), None);
    assert_eq!(parse_hex("# abc"), None);
}

#[test]
fn rejects_other_lengths_and_non_hex_digits() {
    assert_eq!(parse_hex(""), None);
    assert_eq!(parse_hex("#12345"), None);
    assert_eq!(parse_hex("#1234567"), None);
    assert_eq!(parse_hex("#ggg"), None);
    assert_eq!(parse_hex("#12345z"), None);
}

#[test]
fn only_hex_digits_are_accepted() {
    assert_eq!(parse_hex("+f0000"), None);
    assert_eq!(parse_hex("+1+2+3"), None);
    assert_eq!(parse_hex("+ff"), None);
    assert_eq!(parse_hex("aé€"), None);
    assert_eq!(parse_hex("#ééé"), None);
}

#[test]
fn hex_notation_is_uppercase_without_alpha() {
    let color = Color { r: 255, g: 0, b: 16, a: 0.5 };
    assert_eq!(color.to_hex(), "#FF0010");
}

#[test]
fn hex_round_trips() {
    for (r, g, b) in [(0u8, 0u8, 0u8), (255, 255, 255), (18, 52, 86), (171, 205, 239)] {
        let color = Color { r, g, b, a: 1.0 };
        assert_eq!(parse_hex(&color.to_hex()), Some((r, g, b)));
    }
}
