use nextgen_studio::color::{parse_color, Rgba};

#[test]
fn colors_from_hex_and_words() {
    assert_eq!(parse_color(" #102030 "), Some(Rgba { r: 0x10, g: 0x20, b: 0x30, a: 255 }));
    assert_eq!(parse_color("#a0b0c0d0"), Some(Rgba { r: 0xa0, g: 0xb0, b: 0xc0, a: 0xd0 }));
    assert_eq!(parse_color("Transparent"), Some(Rgba { r: 0, g: 0, b: 0, a: 0 }));
    assert_eq!(parse_color("ALPHA"), Some(Rgba { r: 0, g: 0, b: 0, a: 0 }));
    assert_eq!(parse_color("#+12345"), Some(Rgba { r: 0x01, g: 0x23, b: 0x45, a: 255 }));
}

#[test]
fn malformed_colors_are_refused() {
    assert_eq!(parse_color("#12345"), None);
    assert_eq!(parse_color("#12345g"), None);
    assert_eq!(parse_color("red"), None);
    assert_eq!(parse_color("#"), None);
    assert_eq!(parse_color("#1234567890"), None);
    assert_eq!(parse_color(""), None);
}
