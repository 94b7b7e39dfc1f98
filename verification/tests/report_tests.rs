use sample_pipeline::record::{ParseError, TransferRecord};
use sample_pipeline::report::{make_report_header, parse_out_file, process_leaf, run_totals,
    LeafError};

fn lines(raw: &[&[u8]]) -> Vec<Vec<u8>> {
    raw.iter().map(|l| l.to_vec()).collect()
}

fn rec(id: u64, api: u64, lat: u64, gpu: u64) -> TransferRecord {
    TransferRecord { id, api_duration: api, latency: lat, gpu_duration: gpu }
}

#[test]
fn report_header_names_every_column() {
    let mut expected = String::from("\"Directory\"");
    for metric in ["API duration", "GPU duration"] {
        for col in ["min", "max", "avg", "var", "stddev"] {
            expected.push_str(&format!(",\"{} {}\"", metric, col));
        }
    }
    expected.push('\n');
    assert_eq!(make_report_header(), expected.into_bytes());
}

#[test]
fn out_file_header_is_skipped() {
    let file = lines(&[b"Transfer ID, ...", b"1, 2, 3, 4", b"2, 5, 6, 7"]);
    let recs = parse_out_file(&file).unwrap();
    assert_eq!(recs, vec![rec(1, 2_000, 3_000, 4_000), rec(2, 5_000, 6_000, 7_000)]);
}

#[test]
fn empty_out_file_has_no_records() {
    assert_eq!(parse_out_file(&lines(&[])).unwrap(), vec![]);
    assert_eq!(parse_out_file(&lines(&[b"header only"])).unwrap(), vec![]);
}

#[test]
fn out_file_bad_line_is_fatal() {
    let file = lines(&[b"header", b"1, 2, 3, 4", b"oops"]);
    assert_eq!(parse_out_file(&file), Err(ParseError::MissingFields));
    let file = lines(&[b"header", b"1, 2, x, 4"]);
    assert_eq!(parse_out_file(&file), Err(ParseError::InvalidNumber));
}

#[test]
fn run_totals_sum_each_metric() {
    let recs = vec![rec(1, 10, 1, 100), rec(2, 20, 1, 200)];
    assert_eq!(run_totals(&recs), Some((30, 300)));
}

#[test]
fn run_totals_detect_overflow() {
    let recs = vec![rec(1, u64::MAX, 1, 1), rec(2, 1, 1, 1)];
    assert_eq!(run_totals(&recs), None);
}

#[test]
fn leaf_row_bytes() {
    // Two runs: API totals 10 and 30, GPU totals 100 and 300 (thousandths
    // of a microsecond).
    let run1 = lines(&[b"header", b"1, 0.005, 1, 0.04", b"2, 0.005, 1, 0.06"]);
    let run2 = lines(&[b"header", b"1, 0.03, 1, 0.3"]);
    let row = process_leaf(b"samples/leaf", &vec![run1, run2]).unwrap().unwrap();
    // API: min 0.01, max 0.03, avg 0.02, var 0.0001, stddev 0.01.
    // GPU: min 0.1, max 0.3, avg 0.2, var 0.01, stddev 0.1.
    let expected = "\"samples/leaf\",0.01,0.03,0.02,0.0001,0.01,0.1,0.3,0.2,0.01,0.1\n";
    assert_eq!(String::from_utf8(row).unwrap(), expected);
}

#[test]
fn aggregation_of_two_run_totals() {
    // Per-run GPU totals 100 and 300 microseconds fold to min 100, max
    // 300, avg 200.
    let run1 = lines(&[b"header", b"1, 1, 1, 100"]);
    let run2 = lines(&[b"header", b"1, 1, 1, 300"]);
    let row = process_leaf(b"leaf", &vec![run1, run2]).unwrap().unwrap();
    let text = String::from_utf8(row).unwrap();
    // Variance is reported in squared microseconds: 10000 us^2.
    assert!(text.ends_with(",100,300,200,10000,100\n"));
}

#[test]
fn empty_leaf_yields_no_row() {
    assert_eq!(process_leaf(b"leaf", &vec![]).unwrap(), None);
}

#[test]
fn malformed_run_is_fatal_for_the_leaf() {
    let bad = lines(&[b"header", b"not a record"]);
    assert_eq!(process_leaf(b"leaf", &vec![bad]), Err(LeafError::Malformed));
}

#[test]
fn oversized_run_total_is_fatal_for_the_leaf() {
    let big = lines(&[
        b"header",
        b"1, 18446744073709551.615, 1, 1",
        b"2, 0.001, 1, 1",
    ]);
    assert_eq!(process_leaf(b"leaf", &vec![big]), Err(LeafError::Overflow));
}
