use sample_pipeline::bytes::{find_byte_at, split_at_bytes, strip_commas, trim};
use sample_pipeline::num::{format_scaled, format_u64, parse_scaled, parse_u64_digits};

#[test]
fn u64_digits_parse() {
    assert_eq!(parse_u64_digits(b"0"), Some(0));
    assert_eq!(parse_u64_digits(b"00123"), Some(123));
    assert_eq!(parse_u64_digits(b"18446744073709551615"), Some(u64::MAX));
    assert_eq!(parse_u64_digits(b"18446744073709551616"), None);
    assert_eq!(parse_u64_digits(b""), None);
    assert_eq!(parse_u64_digits(b"12a"), None);
    assert_eq!(parse_u64_digits(b"-1"), None);
}

#[test]
fn scaled_decimals_parse_to_thousandths() {
    assert_eq!(parse_scaled(b"2"), Some(2_000));
    assert_eq!(parse_scaled(b"1.5"), Some(1_500));
    assert_eq!(parse_scaled(b"1.25"), Some(1_250));
    assert_eq!(parse_scaled(b"0.001"), Some(1));
    assert_eq!(parse_scaled(b"1234.567"), Some(1_234_567));
    assert_eq!(parse_scaled(b"0"), Some(0));
}

#[test]
fn scaled_decimal_rejections() {
    assert_eq!(parse_scaled(b""), None);
    assert_eq!(parse_scaled(b"."), None);
    assert_eq!(parse_scaled(b".5"), None);
    assert_eq!(parse_scaled(b"5."), None);
    assert_eq!(parse_scaled(b"1.2345"), None);
    assert_eq!(parse_scaled(b"1.2.3"), None);
    assert_eq!(parse_scaled(b"1,5"), None);
    assert_eq!(parse_scaled(b"-1"), None);
    // The value itself must fit in sixty-four bits of thousandths.
    assert_eq!(parse_scaled(b"18446744073709551.615"), Some(u64::MAX));
    assert_eq!(parse_scaled(b"18446744073709551.616"), None);
    assert_eq!(parse_scaled(b"18446744073709552"), None);
}

#[test]
fn formatting_is_canonical() {
    assert_eq!(format_u64(0), b"0".to_vec());
    assert_eq!(format_u64(907), b"907".to_vec());
    assert_eq!(format_scaled(0), b"0".to_vec());
    assert_eq!(format_scaled(2_000), b"2".to_vec());
    assert_eq!(format_scaled(1_500), b"1.5".to_vec());
    assert_eq!(format_scaled(1_050), b"1.05".to_vec());
    assert_eq!(format_scaled(1_005), b"1.005".to_vec());
    assert_eq!(format_scaled(123), b"0.123".to_vec());
}

#[test]
fn format_parse_round_trip() {
    for v in [0u64, 1, 999, 1_000, 1_001, 42_000, 1_234_567, u64::MAX] {
        let s = format_scaled(v);
        assert_eq!(parse_scaled(&s), Some(v));
    }
}

#[test]
fn trim_removes_surrounding_whitespace() {
    assert_eq!(trim(b"  7.5\r\n"), b"7.5");
    assert_eq!(trim(b"x"), b"x");
    assert_eq!(trim(b"   "), b"");
    assert_eq!(trim(b""), b"");
    assert_eq!(trim(b"a b"), b"a b");
}

#[test]
fn strip_commas_removes_thousands_separators() {
    assert_eq!(strip_commas(b"1,234,567.8"), b"1234567.8".to_vec());
    assert_eq!(strip_commas(b"42"), b"42".to_vec());
}

#[test]
fn find_and_split() {
    assert_eq!(find_byte_at(b"a,b", 44), 1);
    assert_eq!(find_byte_at(b"abc", 44), 3);
    let parts = split_at_bytes(b"a,b,,c", 44);
    let parts: Vec<&[u8]> = parts.iter().map(|p| p.as_slice()).collect();
    assert_eq!(parts, vec![&b"a"[..], b"b", b"", b"c"]);
}
