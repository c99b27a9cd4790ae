use qr_gen::color::{parse_hex, ColorError, Rgba};

#[test]
fn parses_six_digit() {
    assert_eq!(parse_hex("#ff0000").unwrap(), Rgba { r: 255, g: 0, b: 0, a: 255 });
    assert_eq!(parse_hex("00ff00").unwrap(), Rgba { r: 0, g: 255, b: 0, a: 255 });
}

#[test]
fn parses_three_digit_shorthand() {
    assert_eq!(parse_hex("#f00").unwrap(), Rgba { r: 255, g: 0, b: 0, a: 255 });
    assert_eq!(parse_hex("0f0").unwrap(), Rgba { r: 0, g: 255, b: 0, a: 255 });
}

#[test]
fn parses_eight_digit_with_alpha() {
    assert_eq!(parse_hex("#11223344").unwrap(), Rgba { r: 0x11, g: 0x22, b: 0x33, a: 0x44 });
}

#[test]
fn parses_named() {
    assert_eq!(parse_hex("black").unwrap(), Rgba::black());
    assert_eq!(parse_hex("WHITE").unwrap(), Rgba::white());
}

#[test]
fn rejects_garbage() {
    assert!(parse_hex("#zzzzzz").is_err());
    assert!(parse_hex("nope").is_err());
    assert!(parse_hex("#12345").is_err()); // 5 digits
    assert!(parse_hex("").is_err());
}

#[test]
fn roundtrips_to_hex() {
    assert_eq!(parse_hex("#abcdef").unwrap().to_hex(), "#abcdef");
}

#[test]
fn parses_four_digit_with_alpha() {
    assert_eq!(parse_hex("#1234").unwrap(), Rgba { r: 0x11, g: 0x22, b: 0x33, a: 0x44 });
}

#[test]
fn color_error_variants() {
    assert_eq!(parse_hex(""), Err(ColorError::Empty));
    assert_eq!(parse_hex("  #  "), Err(ColorError::Empty));
    assert_eq!(parse_hex("#zzzzzz"), Err(ColorError::NotHex));
    assert_eq!(parse_hex("##fff"), Err(ColorError::NotHex));
    assert_eq!(parse_hex("#12345"), Err(ColorError::BadLength(5)));
    assert_eq!(parse_hex("123456789"), Err(ColorError::BadLength(9)));
}

#[test]
fn whitespace_and_case_are_ignored() {
    assert_eq!(parse_hex("  #AbCdEf\t").unwrap(), Rgba { r: 0xab, g: 0xcd, b: 0xef, a: 255 });
    assert_eq!(parse_hex(" Black\n").unwrap(), Rgba::black());
}

#[test]
fn to_hex_pads_and_drops_alpha() {
    let c = Rgba { r: 1, g: 0x0a, b: 0xff, a: 7 };
    assert_eq!(c.to_hex(), "#010aff");
    assert_eq!(parse_hex(&c.to_hex()).unwrap(), Rgba { r: 1, g: 0x0a, b: 0xff, a: 255 });
}

#[test]
fn short_form_equals_long_form() {
    assert_eq!(parse_hex("#a1c").unwrap(), parse_hex("#aa11cc").unwrap());
}

#[test]
fn to_array_orders_channels() {
    assert_eq!(Rgba { r: 1, g: 2, b: 3, a: 4 }.to_array(), [1, 2, 3, 4]);
}
