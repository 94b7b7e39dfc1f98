use sample_pipeline::record::{format_record, parse_csv, parse_out, ParseError, TransferRecord};

fn rec(id: u64, api: u64, lat: u64, gpu: u64) -> TransferRecord {
    TransferRecord { id, api_duration: api, latency: lat, gpu_duration: gpu }
}

#[test]
fn raw_line_parses() {
    let line = b"\"123\",\"x\",\"y\",\"1,234.5\",\"678.9\",\"z\",\"42\"";
    let r = parse_csv(line).unwrap();
    assert_eq!(r, rec(123, 1_234_500, 678_900, 42_000));
}

#[test]
fn raw_line_with_surrounding_whitespace() {
    let line = b"  \"7\",\"a\",\"b\",\"1.5\",\"2.25\",\"c\",\"3\"\r\n";
    let r = parse_csv(line).unwrap();
    assert_eq!(r, rec(7, 1_500, 2_250, 3_000));
}

#[test]
fn raw_line_extra_cells_are_ignored() {
    let line = b"\"9\",\"a\",\"b\",\"1\",\"2\",\"c\",\"3\",\"junk\",\"junk\"";
    let r = parse_csv(line).unwrap();
    assert_eq!(r, rec(9, 1_000, 2_000, 3_000));
}

#[test]
fn raw_line_too_few_cells() {
    let line = b"\"123\",\"x\",\"y\",\"1.5\"";
    assert_eq!(parse_csv(line), Err(ParseError::MissingFields));
}

#[test]
fn raw_line_bad_number() {
    let line = b"\"12a\",\"x\",\"y\",\"1.5\",\"2.5\",\"z\",\"3\"";
    assert_eq!(parse_csv(line), Err(ParseError::InvalidNumber));
}

#[test]
fn raw_line_too_many_fraction_digits() {
    let line = b"\"1\",\"x\",\"y\",\"1.2345\",\"2.5\",\"z\",\"3\"";
    assert_eq!(parse_csv(line), Err(ParseError::InvalidNumber));
}

#[test]
fn out_line_parses() {
    let r = parse_out(b"17, 1234.5, 678.9, 42").unwrap();
    assert_eq!(r, rec(17, 1_234_500, 678_900, 42_000));
}

#[test]
fn out_line_without_spaces() {
    let r = parse_out(b"1,2,3,4").unwrap();
    assert_eq!(r, rec(1, 2_000, 3_000, 4_000));
}

#[test]
fn out_line_extra_fields_are_ignored() {
    let r = parse_out(b"1, 2, 3, 4, 5, 6").unwrap();
    assert_eq!(r, rec(1, 2_000, 3_000, 4_000));
}

#[test]
fn out_line_too_few_fields() {
    assert_eq!(parse_out(b"1, 2, 3"), Err(ParseError::MissingFields));
}

#[test]
fn out_line_bad_number() {
    assert_eq!(parse_out(b"1, x, 3, 4"), Err(ParseError::InvalidNumber));
}

#[test]
fn out_line_embedded_comma_splits_fields() {
    // A thousands separator is not allowed in the normalized format: the
    // comma splits the number into two fields.
    assert_eq!(parse_out(b"1, 1,234.5, 3, 4").unwrap(), rec(1, 1_000, 234_500, 3_000));
}

#[test]
fn out_line_with_carriage_return() {
    // Lines split on a bare newline may keep their carriage return; the
    // field trim removes it.
    let r = parse_out(b"1, 2, 3, 4\r").unwrap();
    assert_eq!(r, rec(1, 2_000, 3_000, 4_000));
}

#[test]
fn format_then_parse_is_identity() {
    let r = rec(42, 1_234_500, 900, 42_000);
    let line = format_record(&r);
    assert_eq!(line, b"42, 1234.5, 0.9, 42".to_vec());
    assert_eq!(parse_out(&line).unwrap(), r);
}

#[test]
fn format_strips_trailing_zeros() {
    let line = format_record(&rec(1, 10_500, 20_050, 3_000));
    assert_eq!(line, b"1, 10.5, 20.05, 3".to_vec());
}
