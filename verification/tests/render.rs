use pwetty_box::render::{parse_hex_color, HexColor};

fn approx(a: f32, b: f32) -> bool {
    (a - b).abs() < 1e-6
}

fn unit(c: u8) -> f32 {
    c as f32 / 255.0
}

#[test]
fn parses_rgb() {
    let c = parse_hex_color("#1e1e2e").expect("valid rgb");
    assert!(approx(unit(c.r), 0x1e as f32 / 255.0));
    assert!(approx(unit(c.g), 0x1e as f32 / 255.0));
    assert!(approx(unit(c.b), 0x2e as f32 / 255.0));
    assert!(approx(unit(c.a), 1.0));
}

#[test]
fn parses_rgba_and_optional_hash() {
    let c = parse_hex_color("ff800040").expect("valid rgba without #");
    assert!(approx(unit(c.r), 1.0));
    assert!(approx(unit(c.g), 0x80 as f32 / 255.0));
    assert!(approx(unit(c.a), 0x40 as f32 / 255.0));
}

#[test]
fn rejects_malformed() {
    assert!(parse_hex_color("#123").is_none());
    assert!(parse_hex_color("#zz0000").is_none());
    assert!(parse_hex_color("").is_none());
}

#[test]
fn hex_digits_in_either_case_and_exact_bytes() {
    assert_eq!(
        parse_hex_color("#AbCdEf"),
        Some(HexColor { r: 0xab, g: 0xcd, b: 0xef, a: 255 })
    );
    assert_eq!(
        parse_hex_color("00000000"),
        Some(HexColor { r: 0, g: 0, b: 0, a: 0 })
    );
    assert!(parse_hex_color("##123456").is_none());
    assert!(parse_hex_color("#1234567").is_none());
    assert!(parse_hex_color("#éé1234").is_none());
    assert!(parse_hex_color("+f+f+f").is_none());
    assert!(parse_hex_color("#12+456").is_none());
}
