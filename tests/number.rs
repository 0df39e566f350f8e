use lzss::parse_dec_or_hex_u8;

fn std_parse(s: &str) -> Option<u8> {
    if let Some(h) = s.strip_prefix("0x") {
        u8::from_str_radix(h, 16).ok()
    } else {
        s.parse::<u8>().ok()
    }
}

#[test]
fn parses_decimal_and_hex_bytes() {
    assert_eq!(parse_dec_or_hex_u8(b"0x20"), Some(0x20));
    assert_eq!(parse_dec_or_hex_u8(b"32"), Some(32));
    assert_eq!(parse_dec_or_hex_u8(b"0xFF"), Some(255));
    assert_eq!(parse_dec_or_hex_u8(b"0xff"), Some(255));
    assert_eq!(parse_dec_or_hex_u8(b"255"), Some(255));
    assert_eq!(parse_dec_or_hex_u8(b"0010"), Some(10));
    assert_eq!(parse_dec_or_hex_u8(b"+7"), Some(7));
}

#[test]
fn rejects_what_is_no_byte() {
    for s in ["", "+", "0x", "256", "0x100", "-1", "12a", "0xg", " 1", "1000", "0X20"] {
        assert_eq!(parse_dec_or_hex_u8(s.as_bytes()), None, "{s:?}");
    }
}

#[test]
fn agrees_with_std_parsing() {
    let mut cases: Vec<String> = Vec::new();
    for v in 0..300u32 {
        cases.push(format!("{v}"));
        cases.push(format!("0x{v:x}"));
        cases.push(format!("0x{v:X}"));
        cases.push(format!("+{v}"));
        cases.push(format!("0x+{v:x}"));
        cases.push(format!("00{v}"));
    }
    for s in ["", "+", "-", "0x", "x1", "1x", "0x-1", "++1", "0xx1"] {
        cases.push(s.to_string());
    }
    for s in cases {
        assert_eq!(parse_dec_or_hex_u8(s.as_bytes()), std_parse(&s), "{s:?}");
    }
}
