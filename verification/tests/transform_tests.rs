use sample_pipeline::transform::{make_out_header, transform_lines, transform_stage,
    TransformError, PREAMBLE_LINES};

fn lines(raw: &[&[u8]]) -> Vec<Vec<u8>> {
    raw.iter().map(|l| l.to_vec()).collect()
}

fn raw_file(data: &[&[u8]]) -> Vec<Vec<u8>> {
    let mut v: Vec<Vec<u8>> = Vec::new();
    for i in 0..PREAMBLE_LINES {
        v.push(format!("preamble line {}", i).into_bytes());
    }
    for l in data {
        v.push(l.to_vec());
    }
    v
}

#[test]
fn header_line_is_fixed() {
    let h = make_out_header();
    assert_eq!(
        h,
        "Transfer ID, API Duration(\u{b5}s), Latency(\u{b5}s), GPU Duration(\u{b5}s)"
            .as_bytes()
            .to_vec()
    );
}

#[test]
fn transform_merges_and_formats() {
    let input = raw_file(&[
        b"\"1\",\"a\",\"b\",\"100.5\",\"5\",\"c\",\"10\"",
        b"\"1\",\"a\",\"b\",\"999\",\"7\",\"c\",\"3\"",
        b"\"2\",\"a\",\"b\",\"8\",\"6\",\"c\",\"4\"",
    ]);
    let out = transform_lines(&input).unwrap();
    assert_eq!(out.len(), 3);
    assert_eq!(out[0], make_out_header());
    assert_eq!(out[1], b"1, 100.5, 7, 13".to_vec());
    assert_eq!(out[2], b"2, 8, 6, 4".to_vec());
}

#[test]
fn transform_of_preamble_only_yields_header() {
    let input = raw_file(&[]);
    let out = transform_lines(&input).unwrap();
    assert_eq!(out, vec![make_out_header()]);
}

#[test]
fn short_file_yields_header_only() {
    let input = lines(&[b"just one line"]);
    let out = transform_lines(&input).unwrap();
    assert_eq!(out, vec![make_out_header()]);
}

#[test]
fn malformed_data_line_is_fatal() {
    let input = raw_file(&[b"\"1\",\"a\",\"b\",\"100.5\",\"5\",\"c\",\"10\"", b"garbage"]);
    assert_eq!(transform_lines(&input), Err(TransformError::Malformed));
}

#[test]
fn gpu_overflow_is_fatal() {
    // Two rows whose GPU durations together exceed the representable range.
    let input = raw_file(&[
        b"\"1\",\"a\",\"b\",\"1\",\"1\",\"c\",\"18446744073709551.615\"",
        b"\"2\",\"a\",\"b\",\"1\",\"1\",\"c\",\"0.001\"",
    ]);
    assert_eq!(transform_lines(&input), Err(TransformError::GpuOverflow));
}

#[test]
fn stage_skips_when_output_exists() {
    let input = raw_file(&[b"\"1\",\"a\",\"b\",\"1\",\"2\",\"c\",\"3\""]);
    let existing = lines(&[b"anything at all"]);
    let out = transform_stage(&input, Some(&existing)).unwrap();
    assert_eq!(out, existing);
}

#[test]
fn second_stage_run_is_a_no_op() {
    let input = raw_file(&[
        b"\"1\",\"a\",\"b\",\"100.5\",\"5\",\"c\",\"10\"",
        b"\"1\",\"a\",\"b\",\"999\",\"7\",\"c\",\"3\"",
    ]);
    let first = transform_stage(&input, None).unwrap();
    let second = transform_stage(&input, Some(&first)).unwrap();
    assert_eq!(first, second);
}
