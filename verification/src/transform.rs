//! The transform stage: turns one raw export, given as its lines, into the
//! lines of its normalized counterpart.
//!
//! The stage drops a fixed preamble, parses every remaining line under the
//! raw grammar, merges adjacent rows with equal ids, and emits the fixed
//! header line followed by one canonical line per merged record. When the
//! normalized file already exists the stage is skipped entirely and the
//! existing content stands.
//!
//! A malformed line is fatal for the whole file, as is a GPU total beyond
//! the representable range.

use vstd::prelude::*;

use crate::bytes::{lemma_line_views_push, line_views};
use crate::merge::{gpu_total, gpu_total_checked, merge_all, merge_rows, models};
use crate::record::{format_record, parse_csv, raw_line_ok, raw_record, record_line, RecordModel,
    TransferRecord};

verus! {

/// Lines of preamble that a raw export carries before its data rows.
pub const PREAMBLE_LINES: usize = 11;

/// The fixed first line of a normalized file, naming the four columns
/// (`µ` stands in UTF-8 encoding).
pub open spec fn out_header() -> Seq<u8> {
    seq![
        84u8, 114u8, 97u8, 110u8, 115u8, 102u8, 101u8, 114u8, 32u8, 73u8, 68u8, 44u8, 32u8,
        65u8, 80u8, 73u8, 32u8, 68u8, 117u8, 114u8, 97u8, 116u8, 105u8, 111u8, 110u8, 40u8,
        194u8, 181u8, 115u8, 41u8, 44u8, 32u8, 76u8, 97u8, 116u8, 101u8, 110u8, 99u8, 121u8,
        40u8, 194u8, 181u8, 115u8, 41u8, 44u8, 32u8, 71u8, 80u8, 85u8, 32u8, 68u8, 117u8,
        114u8, 97u8, 116u8, 105u8, 111u8, 110u8, 40u8, 194u8, 181u8, 115u8, 41u8,
    ]
}

/// Builds the fixed header line of a normalized file.
pub fn make_out_header() -> (r: Vec<u8>)
    ensures
        r@ == out_header(),
{
    let r: Vec<u8> = vec![
        84, 114, 97, 110, 115, 102, 101, 114, 32, 73, 68, 44, 32, 65, 80, 73, 32, 68, 117, 114,
        97, 116, 105, 111, 110, 40, 194, 181, 115, 41, 44, 32, 76, 97, 116, 101, 110, 99, 121,
        40, 194, 181, 115, 41, 44, 32, 71, 80, 85, 32, 68, 117, 114, 97, 116, 105, 111, 110,
        40, 194, 181, 115, 41,
    ];
    proof {
        assert(r@ =~= out_header());
    }
    r
}

/// The data region of a raw export: everything after the preamble.
pub open spec fn data_lines(input: Seq<Seq<u8>>) -> Seq<Seq<u8>> {
    if input.len() <= PREAMBLE_LINES {
        Seq::empty()
    } else {
        input.skip(PREAMBLE_LINES as int)
    }
}

/// Every data line is well formed under the raw grammar.
pub open spec fn raw_file_ok(input: Seq<Seq<u8>>) -> bool {
    forall|i: int|
        0 <= i < data_lines(input).len() ==> raw_line_ok(#[trigger] data_lines(input)[i])
}

/// The rows denoted by the data lines.
pub open spec fn raw_rows(input: Seq<Seq<u8>>) -> Seq<RecordModel> {
    data_lines(input).map_values(|l: Seq<u8>| raw_record(l))
}

/// The canonical line of a record model whose fields are in `u64` range.
pub open spec fn model_line(r: RecordModel) -> Seq<u8> {
    record_line(
        TransferRecord {
            id: r.id as u64,
            api_duration: r.api_duration as u64,
            latency: r.latency as u64,
            gpu_duration: r.gpu_duration as u64,
        },
    )
}

/// The lines of the normalized file: the fixed header, then one canonical
/// line per merged record.
pub open spec fn transform_output(input: Seq<Seq<u8>>) -> Seq<Seq<u8>> {
    seq![out_header()] + merge_rows(raw_rows(input)).map_values(|r: RecordModel| model_line(r))
}

/// Why a raw export could not be transformed.
#[derive(Clone, Copy, Debug, PartialEq, Eq, Structural)]
pub enum TransformError {
    /// Some data line is not well formed under the raw grammar.
    Malformed,
    /// The file's total GPU duration does not fit in a `u64`.
    GpuOverflow,
}

/// What transforming a raw export yields: its normalized lines, or the
/// error naming the first reason the file was rejected.
pub open spec fn transform_result(input: Seq<Seq<u8>>) -> Result<Seq<Seq<u8>>, TransformError> {
    if !raw_file_ok(input) {
        Err(TransformError::Malformed)
    } else if gpu_total(raw_rows(input)) > u64::MAX {
        Err(TransformError::GpuOverflow)
    } else {
        Ok(transform_output(input))
    }
}

/// Transforms the lines of one raw export into the lines of its normalized
/// counterpart.
pub fn transform_lines(input: &Vec<Vec<u8>>) -> (r: Result<Vec<Vec<u8>>, TransformError>)
    ensures
        (match r {
            Ok(out) => transform_result(line_views(input@)) == Ok::<_, TransformError>(
                line_views(out@),
            ),
            Err(e) => transform_result(line_views(input@)) == Err::<Seq<Seq<u8>>, _>(e),
        }),
{
    let ghost inp = line_views(input@);
    let ghost dd = data_lines(inp);
    let n = input.len();
    let data_len: usize = if n > PREAMBLE_LINES {
        n - PREAMBLE_LINES
    } else {
        0
    };
    proof {
        assert(dd.len() == data_len);
    }
    let mut rows: Vec<TransferRecord> = Vec::new();
    let mut j: usize = 0;
    proof {
        assert(models(rows@) =~= raw_rows(inp).take(0));
    }
    while j < data_len
        invariant
            0 <= j <= data_len,
            n == input@.len(),
            data_len == dd.len(),
            inp == line_views(input@),
            dd == data_lines(inp),
            data_len > 0 ==> n == data_len + PREAMBLE_LINES,
            forall|k: int| 0 <= k < j ==> raw_line_ok(#[trigger] dd[k]),
            models(rows@) == raw_rows(inp).take(j as int),
        decreases data_len - j,
    {
        proof {
            assert(dd[j as int] == inp[j + PREAMBLE_LINES]);
            assert(inp[j + PREAMBLE_LINES] == input@[j + PREAMBLE_LINES]@);
        }
        let line = &input[j + PREAMBLE_LINES];
        let rec = match parse_csv(line.as_slice()) {
            Ok(rec) => rec,
            Err(_) => {
                proof {
                    assert(!raw_line_ok(dd[j as int]));
                    assert(!raw_file_ok(inp)) by {
                        if raw_file_ok(inp) {
                            assert(raw_line_ok(dd[j as int]));
                        }
                    }
                }
                return Err(TransformError::Malformed);
            },
        };
        rows.push(rec);
        proof {
            assert(models(rows@) =~= raw_rows(inp).take(j + 1)) by {
                assert(raw_rows(inp).take(j + 1).drop_last() =~= raw_rows(inp).take(j as int));
                assert(raw_rows(inp)[j as int] == raw_record(dd[j as int]));
                assert(models(rows@).drop_last() =~= models(rows@.drop_last()));
            }
        }
        j = j + 1;
    }
    proof {
        assert(raw_file_ok(inp));
        assert(models(rows@) =~= raw_rows(inp)) by {
            assert(raw_rows(inp).take(dd.len() as int) =~= raw_rows(inp));
        }
    }
    match gpu_total_checked(&rows) {
        Some(_) => (),
        None => {
            return Err(TransformError::GpuOverflow);
        },
    }
    let merged = merge_all(&rows);
    let mut out: Vec<Vec<u8>> = Vec::new();
    out.push(make_out_header());
    let ghost target = transform_output(inp);
    proof {
        assert(line_views(out@) =~= target.take(1));
    }
    let m = merged.len();
    let mut k: usize = 0;
    while k < m
        invariant
            0 <= k <= m,
            m == merged@.len(),
            models(merged@) == merge_rows(raw_rows(inp)),
            target == transform_output(inp),
            inp == line_views(input@),
            target.len() == m + 1,
            line_views(out@) == target.take(k as int + 1),
        decreases m - k,
    {
        let line = format_record(&merged[k]);
        proof {
            assert(models(merged@)[k as int] == merged@[k as int].model());
            assert(target[k as int + 1] == model_line(models(merged@)[k as int]));
            assert(model_line(merged@[k as int].model()) == record_line(merged@[k as int]));
        }
        let ghost out0 = out@;
        out.push(line);
        proof {
            lemma_line_views_push(out0, line);
            assert(target.take(k as int + 2) =~= target.take(k as int + 1).push(
                target[k as int + 1],
            ));
        }
        k = k + 1;
    }
    proof {
        assert(line_views(out@) =~= target) by {
            assert(target.take(m as int + 1) =~= target);
        }
    }
    Ok(out)
}

/// What the transform stage leaves as the normalized file: the existing
/// content untouched when the file is already there, else the transform of
/// the raw input.
pub open spec fn stage_result(input: Seq<Seq<u8>>, existing: Option<Seq<Seq<u8>>>) -> Result<
    Seq<Seq<u8>>,
    TransformError,
> {
    match existing {
        Some(content) => Ok(content),
        None => transform_result(input),
    }
}

/// Running the stage a second time, with the first run's output already
/// present, leaves the normalized file exactly as the first run wrote it.
pub proof fn lemma_stage_idempotent(input: Seq<Seq<u8>>)
    requires
        stage_result(input, None) is Ok,
    ensures
        stage_result(input, Some(stage_result(input, None)->Ok_0)) == stage_result(input, None),
{
}

/// Runs the transform stage over one raw file, skipping the work entirely
/// when the normalized file already exists.
pub fn transform_stage(input: &Vec<Vec<u8>>, existing: Option<&Vec<Vec<u8>>>) -> (r: Result<
    Vec<Vec<u8>>,
    TransformError,
>)
    ensures
        (match r {
            Ok(out) => stage_result(line_views(input@), existing_views(existing)) == Ok::<
                _,
                TransformError,
            >(line_views(out@)),
            Err(e) => stage_result(line_views(input@), existing_views(existing)) == Err::<
                Seq<Seq<u8>>,
                _,
            >(e),
        }),
{
    match existing {
        Some(content) => {
            let mut copy: Vec<Vec<u8>> = Vec::new();
            let c = content.len();
            let mut i: usize = 0;
            while i < c
                invariant
                    0 <= i <= c,
                    c == content@.len(),
                    line_views(copy@) == line_views(content@).take(i as int),
                decreases c - i,
            {
                let line = vstd::slice::slice_to_vec(content[i].as_slice());
                let ghost copy0 = copy@;
                copy.push(line);
                proof {
                    lemma_line_views_push(copy0, line);
                    assert(line_views(content@).take(i as int + 1) =~= line_views(
                        content@,
                    ).take(i as int).push(line_views(content@)[i as int]));
                    assert(line_views(content@)[i as int] == content@[i as int]@);
                }
                i = i + 1;
            }
            proof {
                assert(line_views(content@).take(c as int) =~= line_views(content@));
            }
            Ok(copy)
        },
        None => transform_lines(input),
    }
}

/// The views of the optional existing normalized content.
pub open spec fn existing_views(existing: Option<&Vec<Vec<u8>>>) -> Option<Seq<Seq<u8>>> {
    match existing {
        Some(v) => Some(line_views(v@)),
        None => None,
    }
}

} // verus!
