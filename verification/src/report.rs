//! Per-leaf aggregation and the report writer.
//!
//! Every leaf directory's normalized files are read once; each file is one
//! run, and the pipeline folds per-run totals — the sum of each metric over
//! the run's records — into one accumulator per metric (`n` = number of
//! runs). The report writer serializes one row per leaf: the quoted
//! directory path, then `min`, `max`, `avg`, `var` and `stddev` for the API
//! and the GPU duration.
//!
//! A leaf with no runs yields no row at all: the division by zero that a
//! degenerate aggregate would force is guarded, not propagated.
//!
//! Durations are thousandths of a microsecond; `min`, `max`, `avg` and
//! `stddev` are printed in microseconds with up to three decimals, `var` in
//! squared microseconds with up to six.

use vstd::prelude::*;

use crate::bytes::{line_views, without_commas};
use crate::merge::{gpu_total, lemma_gpu_element_bound, lemma_gpu_total_take,
    lemma_merge_preserves_gpu_total, lemma_merge_rows_in_range, merge_rows, models,
    row_fields_in_range};
use crate::num::{dec_digits, format_scaled, format_u128, lemma_digits_val_nonneg,
    lemma_scaled_decimal_nonneg, scaled_bytes};
use crate::record::{lemma_record_line_round_trip, out_fields, out_line_ok, out_record, parse_out,
    quote_cells, raw_line_ok, raw_record, record_line, ParseError, RecordModel, TransferRecord};
use crate::stats::{floor_sqrt, max_seq, mean_of, min_seq, sq_sum_seq, sum_seq, variance_of,
    Accumulator};
use crate::transform::{data_lines, model_line, raw_file_ok, raw_rows, transform_output,
    transform_result};

verus! {

/// Total API duration over a sequence of rows.
pub open spec fn api_total(rows: Seq<RecordModel>) -> int
    decreases rows.len(),
{
    if rows.len() == 0 {
        0
    } else {
        api_total(rows.drop_last()) + rows.last().api_duration
    }
}

/// A prefix never exceeds the whole API total when durations are
/// nonnegative.
pub proof fn lemma_api_total_take(rows: Seq<RecordModel>, j: int)
    requires
        forall|i: int| 0 <= i < rows.len() ==> (#[trigger] rows[i]).api_duration >= 0,
        0 <= j <= rows.len(),
    ensures
        api_total(rows.take(j)) <= api_total(rows),
    decreases rows.len() - j,
{
    if j < rows.len() {
        let p = rows.take(j);
        let q = rows.take(j + 1);
        assert(q.drop_last() =~= p);
        assert(q.last() == rows[j]);
        lemma_api_total_take(rows, j + 1);
    } else {
        assert(rows.take(j) =~= rows);
    }
}

/// The data lines of a normalized file: everything after the header line.
pub open spec fn out_data(lines: Seq<Seq<u8>>) -> Seq<Seq<u8>> {
    if lines.len() == 0 {
        Seq::empty()
    } else {
        lines.skip(1)
    }
}

/// Every data line of the file is well formed.
pub open spec fn out_file_ok(lines: Seq<Seq<u8>>) -> bool {
    forall|i: int| 0 <= i < out_data(lines).len() ==> out_line_ok(#[trigger] out_data(lines)[i])
}

/// The records held in the file's data lines.
pub open spec fn out_file_records(lines: Seq<Seq<u8>>) -> Seq<RecordModel> {
    out_data(lines).map_values(|l: Seq<u8>| out_record(l))
}

/// The error that rejecting one line carries.
pub open spec fn out_line_error(line: Seq<u8>) -> ParseError {
    if out_fields(line).len() < 4 {
        ParseError::MissingFields
    } else {
        ParseError::InvalidNumber
    }
}

/// Index of the first data line that is not well formed, or the length
/// when all are.
pub open spec fn first_bad_line(data: Seq<Seq<u8>>) -> int
    decreases data.len(),
{
    if data.len() == 0 {
        0
    } else if !out_line_ok(data[0]) {
        0
    } else {
        1 + first_bad_line(data.drop_first())
    }
}

pub proof fn lemma_first_bad_line(data: Seq<Seq<u8>>)
    ensures
        0 <= first_bad_line(data) <= data.len(),
        forall|i: int| 0 <= i < first_bad_line(data) ==> out_line_ok(#[trigger] data[i]),
        first_bad_line(data) < data.len() ==> !out_line_ok(data[first_bad_line(data)]),
    decreases data.len(),
{
    if data.len() != 0 && out_line_ok(data[0]) {
        lemma_first_bad_line(data.drop_first());
        assert forall|i: int| 0 <= i < first_bad_line(data) implies out_line_ok(
            #[trigger] data[i],
        ) by {
            if i > 0 {
                assert(out_line_ok(data.drop_first()[i - 1]));
            }
        }
    }
}

/// An index with the first-rejected-line properties is `first_bad_line`.
pub proof fn lemma_first_bad_line_unique(data: Seq<Seq<u8>>, k: int)
    requires
        0 <= k <= data.len(),
        forall|i: int| 0 <= i < k ==> out_line_ok(#[trigger] data[i]),
        k < data.len() ==> !out_line_ok(data[k]),
    ensures
        first_bad_line(data) == k,
{
    lemma_first_bad_line(data);
    let p = first_bad_line(data);
    if p < k {
        assert(out_line_ok(data[p]));
    } else if k < p {
        assert(out_line_ok(data[k]));
    }
}

/// Parses one normalized file, given as its lines: skips the header line
/// and parses every further line. A rejected line rejects the whole file,
/// with the error of the first such line.
pub fn parse_out_file(lines: &Vec<Vec<u8>>) -> (r: Result<Vec<TransferRecord>, ParseError>)
    ensures
        r is Ok <==> out_file_ok(line_views(lines@)),
        r is Ok ==> models(r->Ok_0@) == out_file_records(line_views(lines@)),
        r is Err ==> {
            let dd = out_data(line_views(lines@));
            first_bad_line(dd) < dd.len() && r->Err_0 == out_line_error(dd[first_bad_line(dd)])
        },
{
    let ghost lv = line_views(lines@);
    let ghost dd = out_data(lv);
    let n = lines.len();
    let mut recs: Vec<TransferRecord> = Vec::new();
    if n == 0 {
        proof {
            assert(models(recs@) =~= out_file_records(lv));
        }
        return Ok(recs);
    }
    let mut j: usize = 0;
    proof {
        assert(dd.len() == n - 1);
        assert(models(recs@) =~= out_file_records(lv).take(0));
    }
    while j < n - 1
        invariant
            0 <= j <= n - 1,
            n == lines@.len(),
            n >= 1,
            lv == line_views(lines@),
            dd == out_data(lv),
            dd.len() == n - 1,
            forall|k: int| 0 <= k < j ==> out_line_ok(#[trigger] dd[k]),
            models(recs@) == out_file_records(lv).take(j as int),
        decreases n - 1 - j,
    {
        proof {
            assert(dd[j as int] == lv[j + 1]);
            assert(lv[j + 1] == lines@[j + 1]@);
        }
        let rec = match parse_out(lines[j + 1].as_slice()) {
            Ok(rec) => rec,
            Err(e) => {
                proof {
                    assert(!out_line_ok(dd[j as int]));
                    lemma_first_bad_line_unique(dd, j as int);
                    assert(!out_file_ok(lv)) by {
                        if out_file_ok(lv) {
                            assert(out_line_ok(dd[j as int]));
                        }
                    }
                }
                return Err(e);
            },
        };
        recs.push(rec);
        proof {
            assert(models(recs@) =~= out_file_records(lv).take(j + 1)) by {
                assert(out_file_records(lv).take(j + 1).drop_last() =~= out_file_records(
                    lv,
                ).take(j as int));
                assert(out_file_records(lv)[j as int] == out_record(dd[j as int]));
                assert(models(recs@).drop_last() =~= models(recs@.drop_last()));
            }
        }
        j = j + 1;
    }
    proof {
        assert(out_file_ok(lv));
        assert(models(recs@) =~= out_file_records(lv)) by {
            assert(out_file_records(lv).take(dd.len() as int) =~= out_file_records(lv));
        }
    }
    Ok(recs)
}

/// What the transform stage writes, the aggregation stage reads back
/// unchanged: the normalized lines of a transformed export form a
/// well-formed run file whose records are exactly the merged rows of the
/// raw export.
pub proof fn lemma_transform_feeds_aggregation(input: Seq<Seq<u8>>)
    requires
        transform_result(input) is Ok,
    ensures
        out_file_ok(transform_result(input)->Ok_0),
        out_file_records(transform_result(input)->Ok_0) == merge_rows(raw_rows(input)),
{
    let rows = raw_rows(input);
    let merged = merge_rows(rows);
    let out = transform_result(input)->Ok_0;
    assert(out == transform_output(input));
    assert(raw_file_ok(input));
    assert(gpu_total(rows) <= u64::MAX);
    assert forall|i: int| 0 <= i < rows.len() implies row_fields_in_range(#[trigger] rows[i]) by {
        assert(raw_line_ok(data_lines(input)[i]));
        assert(rows[i] == raw_record(data_lines(input)[i]));
        let c = quote_cells(data_lines(input)[i]);
        lemma_digits_val_nonneg(c[0]);
        lemma_scaled_decimal_nonneg(without_commas(c[3]));
        lemma_scaled_decimal_nonneg(without_commas(c[4]));
        lemma_scaled_decimal_nonneg(without_commas(c[6]));
    }
    lemma_merge_rows_in_range(rows);
    lemma_merge_preserves_gpu_total(rows);
    assert(forall|i: int|
        0 <= i < merged.len() ==> (#[trigger] merged[i]).gpu_duration >= 0);
    lemma_gpu_element_bound(merged);
    let dd = out_data(out);
    assert(dd =~= merged.map_values(|r: RecordModel| model_line(r)));
    assert forall|i: int| 0 <= i < dd.len() implies out_line_ok(#[trigger] dd[i]) && out_record(
        dd[i],
    ) == merged[i] by {
        let m = merged[i];
        assert(row_fields_in_range(m));
        assert(m.gpu_duration <= gpu_total(merged));
        let rec = TransferRecord {
            id: m.id as u64,
            api_duration: m.api_duration as u64,
            latency: m.latency as u64,
            gpu_duration: m.gpu_duration as u64,
        };
        assert(rec.model() == m);
        lemma_record_line_round_trip(rec);
        assert(dd[i] == model_line(m));
        assert(model_line(m) == record_line(rec));
    }
    assert(out_file_records(out) =~= merged);
}

/// Sums the API and GPU durations of one run's records — the per-run
/// totals that the leaf accumulators fold — exactly when both fit.
pub fn run_totals(records: &Vec<TransferRecord>) -> (r: Option<(u64, u64)>)
    ensures
        r is Some <==> (api_total(models(records@)) <= u64::MAX && gpu_total(models(records@))
            <= u64::MAX),
        (match r {
            Some(t) => t.0 == api_total(models(records@)) && t.1 == gpu_total(models(records@)),
            None => true,
        }),
{
    let ghost all = models(records@);
    proof {
        assert(forall|i: int| 0 <= i < all.len() ==> (#[trigger] all[i]).api_duration >= 0);
        assert(forall|i: int| 0 <= i < all.len() ==> (#[trigger] all[i]).gpu_duration >= 0);
    }
    let n = records.len();
    let mut api_sum: u64 = 0;
    let mut gpu_sum: u64 = 0;
    let mut i: usize = 0;
    proof {
        assert(all.take(0) =~= Seq::<RecordModel>::empty());
    }
    while i < n
        invariant
            0 <= i <= n,
            n == records@.len(),
            all == models(records@),
            api_sum == api_total(all.take(i as int)),
            gpu_sum == gpu_total(all.take(i as int)),
            forall|k: int| 0 <= k < all.len() ==> (#[trigger] all[k]).api_duration >= 0,
            forall|k: int| 0 <= k < all.len() ==> (#[trigger] all[k]).gpu_duration >= 0,
        decreases n - i,
    {
        proof {
            let h1 = all.take(i + 1);
            assert(h1.drop_last() =~= all.take(i as int));
            assert(h1.last() == all[i as int]);
            assert(all[i as int] == records@[i as int].model());
        }
        api_sum = match api_sum.checked_add(records[i].api_duration) {
            Some(t) => t,
            None => {
                proof {
                    assert(api_total(all.take(i + 1)) > u64::MAX);
                    lemma_api_total_take(all, i + 1);
                }
                return None;
            },
        };
        gpu_sum = match gpu_sum.checked_add(records[i].gpu_duration) {
            Some(t) => t,
            None => {
                proof {
                    assert(gpu_total(all.take(i + 1)) > u64::MAX);
                    lemma_gpu_total_take(all, i + 1);
                }
                return None;
            },
        };
        i = i + 1;
    }
    proof {
        assert(all.take(n as int) =~= all);
    }
    Some((api_sum, gpu_sum))
}

/// Trailing zero digits removed.
pub open spec fn strip_zeros(s: Seq<u8>) -> Seq<u8>
    decreases s.len(),
{
    if s.len() > 0 && s.last() == 48 {
        strip_zeros(s.drop_last())
    } else {
        s
    }
}

/// The six decimal digits of a fraction of a million, most significant
/// first.
pub open spec fn pad6(f: nat) -> Seq<u8> {
    seq![
        (48 + f / 100000) as u8,
        (48 + (f / 10000) % 10) as u8,
        (48 + (f / 1000) % 10) as u8,
        (48 + (f / 100) % 10) as u8,
        (48 + (f / 10) % 10) as u8,
        (48 + f % 10) as u8,
    ]
}

/// The canonical numeral of `v` millionths: integer part, then up to six
/// fractional digits with trailing zeros removed.
pub open spec fn micro2_bytes(v: nat) -> Seq<u8> {
    let f = v % 1000000;
    if f == 0 {
        dec_digits(v / 1000000)
    } else {
        dec_digits(v / 1000000) + seq![46u8] + strip_zeros(pad6(f))
    }
}

/// Formats `v` millionths as its canonical numeral.
pub fn format_micro2(v: u128) -> (r: Vec<u8>)
    ensures
        r@ == micro2_bytes(v as nat),
{
    let f: u128 = v % 1000000;
    let mut r = format_u128(v / 1000000);
    if f == 0 {
        proof {
            assert(r@ =~= micro2_bytes(v as nat));
        }
        return r;
    }
    let mut frac: Vec<u8> = Vec::new();
    frac.push(48 + (f / 100000) as u8);
    frac.push(48 + ((f / 10000) % 10) as u8);
    frac.push(48 + ((f / 1000) % 10) as u8);
    frac.push(48 + ((f / 100) % 10) as u8);
    frac.push(48 + ((f / 10) % 10) as u8);
    frac.push(48 + (f % 10) as u8);
    proof {
        assert(frac@ =~= pad6(f as nat));
    }
    while frac.len() > 0 && frac[frac.len() - 1] == 48
        invariant
            strip_zeros(frac@) == strip_zeros(pad6(f as nat)),
        decreases frac@.len(),
    {
        let ghost f0 = frac@;
        frac.pop();
        proof {
            assert(frac@ == f0.drop_last());
            assert(strip_zeros(f0) == strip_zeros(frac@));
        }
    }
    proof {
        assert(strip_zeros(frac@) == frac@);
    }
    r.push(46);
    r.append(&mut frac);
    proof {
        assert(r@ =~= micro2_bytes(v as nat));
    }
    r
}

/// The five report fields of one metric, each preceded by a comma: `min`,
/// `max`, `avg`, `var`, `stddev` of the folded values.
pub open spec fn stat_fields(vals: Seq<u64>) -> Seq<u8> {
    seq![44u8] + scaled_bytes(min_seq(vals) as nat) + seq![44u8] + scaled_bytes(
        max_seq(vals) as nat,
    ) + seq![44u8] + scaled_bytes(mean_of(vals) as nat) + seq![44u8] + micro2_bytes(
        variance_of(vals) as nat,
    ) + seq![44u8] + scaled_bytes(floor_sqrt(variance_of(vals) as nat))
}

/// Writes one metric's five report fields from its accumulator and count.
pub fn write_stat_fields(acc: &Accumulator, n: u64) -> (r: Vec<u8>)
    requires
        acc.wf(),
        n == acc.values@.len(),
        n > 0,
    ensures
        r@ == stat_fields(acc.values@),
{
    proof {
        crate::stats::lemma_stats_ranges(acc.values@);
        crate::stats::lemma_accumulator_bounds(acc.values@);
    }
    let mut r: Vec<u8> = Vec::new();
    r.push(44);
    let mut part = format_scaled(acc.min);
    r.append(&mut part);
    r.push(44);
    let mut part = format_scaled(acc.max);
    r.append(&mut part);
    r.push(44);
    let mut part = format_scaled(acc.mean(n));
    r.append(&mut part);
    r.push(44);
    let mut part = format_micro2(acc.variance(n));
    r.append(&mut part);
    r.push(44);
    let mut part = format_scaled(acc.stddev(n));
    r.append(&mut part);
    proof {
        assert(r@ =~= stat_fields(acc.values@));
    }
    r
}

/// The fixed header row of the report, naming every column.
pub open spec fn report_header() -> Seq<u8> {
    seq![
        34u8, 68u8, 105u8, 114u8, 101u8, 99u8, 116u8, 111u8, 114u8, 121u8, 34u8, 44u8, 34u8,
        65u8, 80u8, 73u8, 32u8, 100u8, 117u8, 114u8, 97u8, 116u8, 105u8, 111u8, 110u8, 32u8,
        109u8, 105u8, 110u8, 34u8, 44u8, 34u8, 65u8, 80u8, 73u8, 32u8, 100u8, 117u8, 114u8,
        97u8, 116u8, 105u8, 111u8, 110u8, 32u8, 109u8, 97u8, 120u8, 34u8, 44u8, 34u8, 65u8,
        80u8, 73u8, 32u8, 100u8, 117u8, 114u8, 97u8, 116u8, 105u8, 111u8, 110u8, 32u8, 97u8,
        118u8, 103u8, 34u8, 44u8, 34u8, 65u8, 80u8, 73u8, 32u8, 100u8, 117u8, 114u8, 97u8,
        116u8, 105u8, 111u8, 110u8, 32u8, 118u8, 97u8, 114u8, 34u8, 44u8, 34u8, 65u8, 80u8,
        73u8, 32u8, 100u8, 117u8, 114u8, 97u8, 116u8, 105u8, 111u8, 110u8, 32u8, 115u8, 116u8,
        100u8, 100u8, 101u8, 118u8, 34u8, 44u8, 34u8, 71u8, 80u8, 85u8, 32u8, 100u8, 117u8,
        114u8, 97u8, 116u8, 105u8, 111u8, 110u8, 32u8, 109u8, 105u8, 110u8, 34u8, 44u8, 34u8,
        71u8, 80u8, 85u8, 32u8, 100u8, 117u8, 114u8, 97u8, 116u8, 105u8, 111u8, 110u8, 32u8,
        109u8, 97u8, 120u8, 34u8, 44u8, 34u8, 71u8, 80u8, 85u8, 32u8, 100u8, 117u8, 114u8,
        97u8, 116u8, 105u8, 111u8, 110u8, 32u8, 97u8, 118u8, 103u8, 34u8, 44u8, 34u8, 71u8,
        80u8, 85u8, 32u8, 100u8, 117u8, 114u8, 97u8, 116u8, 105u8, 111u8, 110u8, 32u8, 118u8,
        97u8, 114u8, 34u8, 44u8, 34u8, 71u8, 80u8, 85u8, 32u8, 100u8, 117u8, 114u8, 97u8,
        116u8, 105u8, 111u8, 110u8, 32u8, 115u8, 116u8, 100u8, 100u8, 101u8, 118u8, 34u8, 10u8,
    ]
}

/// Builds the fixed header row of the report.
pub fn make_report_header() -> (r: Vec<u8>)
    ensures
        r@ == report_header(),
{
    let r: Vec<u8> = vec![
        34, 68, 105, 114, 101, 99, 116, 111, 114, 121, 34, 44, 34, 65, 80, 73, 32, 100, 117,
        114, 97, 116, 105, 111, 110, 32, 109, 105, 110, 34, 44, 34, 65, 80, 73, 32, 100, 117,
        114, 97, 116, 105, 111, 110, 32, 109, 97, 120, 34, 44, 34, 65, 80, 73, 32, 100, 117,
        114, 97, 116, 105, 111, 110, 32, 97, 118, 103, 34, 44, 34, 65, 80, 73, 32, 100, 117,
        114, 97, 116, 105, 111, 110, 32, 118, 97, 114, 34, 44, 34, 65, 80, 73, 32, 100, 117,
        114, 97, 116, 105, 111, 110, 32, 115, 116, 100, 100, 101, 118, 34, 44, 34, 71, 80, 85,
        32, 100, 117, 114, 97, 116, 105, 111, 110, 32, 109, 105, 110, 34, 44, 34, 71, 80, 85,
        32, 100, 117, 114, 97, 116, 105, 111, 110, 32, 109, 97, 120, 34, 44, 34, 71, 80, 85,
        32, 100, 117, 114, 97, 116, 105, 111, 110, 32, 97, 118, 103, 34, 44, 34, 71, 80, 85,
        32, 100, 117, 114, 97, 116, 105, 111, 110, 32, 118, 97, 114, 34, 44, 34, 71, 80, 85,
        32, 100, 117, 114, 97, 116, 105, 111, 110, 32, 115, 116, 100, 100, 101, 118, 34, 10,
    ];
    proof {
        assert(r@ =~= report_header());
    }
    r
}

/// The views of a leaf's files, each given as its lines.
pub open spec fn file_views(files: Seq<Vec<Vec<u8>>>) -> Seq<Seq<Seq<u8>>> {
    files.map_values(|f: Vec<Vec<u8>>| line_views(f@))
}

/// The per-run API totals of a leaf's files.
pub open spec fn api_vals(fvs: Seq<Seq<Seq<u8>>>) -> Seq<u64> {
    Seq::new(fvs.len(), |i: int| api_total(out_file_records(fvs[i])) as u64)
}

/// The per-run GPU totals of a leaf's files.
pub open spec fn gpu_vals(fvs: Seq<Seq<Seq<u8>>>) -> Seq<u64> {
    Seq::new(fvs.len(), |i: int| gpu_total(out_file_records(fvs[i])) as u64)
}

/// Why a leaf could not be aggregated.
#[derive(Clone, Copy, Debug, PartialEq, Eq, Structural)]
pub enum LeafError {
    /// Some line of some run is not well formed.
    Malformed,
    /// A per-run total, or an accumulator counter, does not fit.
    Overflow,
}

/// What goes wrong at file `i` of a leaf, if anything: a malformed line, a
/// per-run total beyond `u64`, or an accumulator counter beyond `u128`.
pub open spec fn file_trouble(fvs: Seq<Seq<Seq<u8>>>, i: int) -> bool {
    let a = api_total(out_file_records(fvs[i]));
    let g = gpu_total(out_file_records(fvs[i]));
    ||| !out_file_ok(fvs[i])
    ||| a > u64::MAX
    ||| g > u64::MAX
    ||| sum_seq(api_vals(fvs).take(i)) + a > u128::MAX
    ||| sq_sum_seq(api_vals(fvs).take(i)) + a * a > u128::MAX
    ||| sum_seq(gpu_vals(fvs).take(i)) + g > u128::MAX
    ||| sq_sum_seq(gpu_vals(fvs).take(i)) + g * g > u128::MAX
}

/// Every file of the leaf aggregates cleanly.
pub open spec fn leaf_trouble_free(fvs: Seq<Seq<Seq<u8>>>) -> bool {
    forall|i: int| 0 <= i < fvs.len() ==> !file_trouble(fvs, i)
}

/// Index of the first troubled file at or after `i`, or the length.
pub open spec fn first_trouble_from(fvs: Seq<Seq<Seq<u8>>>, i: int) -> int
    decreases fvs.len() - i,
{
    if i < 0 || i >= fvs.len() {
        fvs.len() as int
    } else if file_trouble(fvs, i) {
        i
    } else {
        first_trouble_from(fvs, i + 1)
    }
}

/// Index of the first troubled file, or the length when there is none.
pub open spec fn first_trouble(fvs: Seq<Seq<Seq<u8>>>) -> int {
    first_trouble_from(fvs, 0)
}

proof fn lemma_first_trouble_unique(fvs: Seq<Seq<Seq<u8>>>, k: int)
    requires
        0 <= k <= fvs.len(),
        forall|i: int| 0 <= i < k ==> !file_trouble(fvs, i),
        k < fvs.len() ==> file_trouble(fvs, k),
    ensures
        first_trouble(fvs) == k,
{
    lemma_first_trouble_from(fvs, 0, k);
}

proof fn lemma_first_trouble_from(fvs: Seq<Seq<Seq<u8>>>, i: int, k: int)
    requires
        0 <= i <= k <= fvs.len(),
        forall|j: int| i <= j < k ==> !file_trouble(fvs, j),
        k < fvs.len() ==> file_trouble(fvs, k),
    ensures
        first_trouble_from(fvs, i) == k,
    decreases fvs.len() - i,
{
    if i < k {
        lemma_first_trouble_from(fvs, i + 1, k);
    }
}

/// The error the first troubled file carries.
pub open spec fn leaf_error(fvs: Seq<Seq<Seq<u8>>>) -> LeafError {
    if !out_file_ok(fvs[first_trouble(fvs)]) {
        LeafError::Malformed
    } else {
        LeafError::Overflow
    }
}

/// The report row of one leaf: its quoted path, then the five fields of
/// each metric, then a newline.
pub open spec fn leaf_row(path: Seq<u8>, fvs: Seq<Seq<Seq<u8>>>) -> Seq<u8> {
    seq![34u8] + path + seq![34u8] + stat_fields(api_vals(fvs)) + stat_fields(gpu_vals(fvs))
        + seq![10u8]
}

/// Aggregates one leaf directory: parses every run file, folds the per-run
/// totals of both metrics, and writes the leaf's report row. A leaf
/// without runs yields no row.
pub fn process_leaf(path: &[u8], files: &Vec<Vec<Vec<u8>>>) -> (r: Result<
    Option<Vec<u8>>,
    LeafError,
>)
    ensures
        r is Ok <==> leaf_trouble_free(file_views(files@)),
        (match r {
            Ok(Some(row)) => files@.len() > 0 && row@ == leaf_row(path@, file_views(files@)),
            Ok(None) => files@.len() == 0,
            Err(e) => first_trouble(file_views(files@)) < files@.len() && e == leaf_error(
                file_views(files@),
            ),
        }),
{
    let ghost fvs = file_views(files@);
    let n = files.len();
    let mut api_acc = Accumulator::new();
    let mut gpu_acc = Accumulator::new();
    let mut i: usize = 0;
    proof {
        assert(api_acc.values@ =~= api_vals(fvs).take(0));
        assert(gpu_acc.values@ =~= gpu_vals(fvs).take(0));
    }
    while i < n
        invariant
            0 <= i <= n,
            n == files@.len(),
            fvs == file_views(files@),
            api_acc.wf(),
            gpu_acc.wf(),
            api_acc.values@ == api_vals(fvs).take(i as int),
            gpu_acc.values@ == gpu_vals(fvs).take(i as int),
            forall|k: int| 0 <= k < i ==> !file_trouble(fvs, k),
        decreases n - i,
    {
        proof {
            assert(fvs[i as int] == line_views(files@[i as int]@));
        }
        let ghost a = api_total(out_file_records(fvs[i as int]));
        let ghost g = gpu_total(out_file_records(fvs[i as int]));
        let recs = match parse_out_file(&files[i]) {
            Ok(recs) => recs,
            Err(_) => {
                proof {
                    assert(file_trouble(fvs, i as int));
                    lemma_first_trouble_unique(fvs, i as int);
                }
                return Err(LeafError::Malformed);
            },
        };
        let totals = match run_totals(&recs) {
            Some(t) => t,
            None => {
                proof {
                    assert(file_trouble(fvs, i as int));
                    lemma_first_trouble_unique(fvs, i as int);
                }
                return Err(LeafError::Overflow);
            },
        };
        proof {
            assert(totals.0 == a && totals.1 == g);
            assert(api_vals(fvs)[i as int] == a && gpu_vals(fvs)[i as int] == g);
        }
        let api_ok = api_acc.try_add(totals.0);
        if !api_ok {
            proof {
                assert(file_trouble(fvs, i as int));
                lemma_first_trouble_unique(fvs, i as int);
            }
            return Err(LeafError::Overflow);
        }
        let gpu_ok = gpu_acc.try_add(totals.1);
        if !gpu_ok {
            proof {
                assert(file_trouble(fvs, i as int));
                lemma_first_trouble_unique(fvs, i as int);
            }
            return Err(LeafError::Overflow);
        }
        proof {
            assert(!file_trouble(fvs, i as int));
            assert(api_acc.values@ =~= api_vals(fvs).take(i + 1));
            assert(gpu_acc.values@ =~= gpu_vals(fvs).take(i + 1));
        }
        i = i + 1;
    }
    proof {
        assert(leaf_trouble_free(fvs));
    }
    if n == 0 {
        return Ok(None);
    }
    let count: u64 = n as u64;
    proof {
        assert(api_vals(fvs).take(n as int) =~= api_vals(fvs));
        assert(gpu_vals(fvs).take(n as int) =~= gpu_vals(fvs));
    }
    let mut row: Vec<u8> = Vec::new();
    row.push(34);
    let mut part = vstd::slice::slice_to_vec(path);
    row.append(&mut part);
    row.push(34);
    let mut part = write_stat_fields(&api_acc, count);
    row.append(&mut part);
    let mut part = write_stat_fields(&gpu_acc, count);
    row.append(&mut part);
    row.push(10);
    proof {
        assert(row@ =~= leaf_row(path@, fvs));
    }
    Ok(Some(row))
}

} // verus!
