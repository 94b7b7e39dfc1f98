//! Transfer records and the two line grammars that carry them.
//!
//! The raw export wraps its numeric fields in double quotes and separates
//! them with unquoted text that the pipeline skips; the normalized
//! intermediate format is plain comma-separated fields. Both parsers are
//! specified exactly: they succeed precisely on well-formed lines whose
//! numbers fit, and the value they return is pinned down field by field.

use vstd::prelude::*;

use crate::bytes::{split_at_bytes, split_on, strip_commas, trim, trim_spec, without_commas};
use crate::num::{
    all_digits, dec_digits, digits_val, format_scaled, format_u64, is_scaled_decimal,
    parse_scaled, parse_u64_digits, scaled_bytes, scaled_decimal_val,
};

verus! {

/// One logical GPU transfer event. Durations count thousandths of a
/// microsecond.
#[derive(Clone, Copy, Debug, PartialEq, Eq, Structural)]
pub struct TransferRecord {
    pub id: u64,
    pub api_duration: u64,
    pub latency: u64,
    pub gpu_duration: u64,
}

/// The mathematical image of a record; fields are unbounded so that merged
/// quantities can be spoken of even where they would overflow.
pub struct RecordModel {
    pub id: int,
    pub api_duration: int,
    pub latency: int,
    pub gpu_duration: int,
}

impl TransferRecord {
    pub open spec fn model(self) -> RecordModel {
        RecordModel {
            id: self.id as int,
            api_duration: self.api_duration as int,
            latency: self.latency as int,
            gpu_duration: self.gpu_duration as int,
        }
    }
}

/// Why a line was rejected.
#[derive(Clone, Copy, Debug, PartialEq, Eq, Structural)]
pub enum ParseError {
    /// The line does not have enough fields.
    MissingFields,
    /// A field is not a well-formed numeral, or its value does not fit.
    InvalidNumber,
}

/// The quoted cells of a raw export line: the segments between the odd and
/// the even quote of each pair, after surrounding whitespace is removed.
pub open spec fn quote_cells(line: Seq<u8>) -> Seq<Seq<u8>> {
    let parts = split_on(trim_spec(line), 34);
    Seq::new((parts.len() / 2) as nat, |i: int| parts[2 * i + 1])
}

/// Is `s` a digit string whose value fits in a `u64`?
pub open spec fn is_u64_numeral(s: Seq<u8>) -> bool {
    s.len() > 0 && all_digits(s) && digits_val(s) <= u64::MAX
}

/// Is `s`, commas removed, a scaled-decimal numeral that fits in a `u64`?
pub open spec fn is_duration_field(s: Seq<u8>) -> bool {
    is_scaled_decimal(without_commas(s)) && scaled_decimal_val(without_commas(s)) <= u64::MAX
}

/// Value of a duration field, in thousandths of a microsecond.
pub open spec fn duration_field_val(s: Seq<u8>) -> int {
    scaled_decimal_val(without_commas(s))
}

/// A raw line is well formed when it has at least seven quoted cells and
/// the four consumed ones are numerals in range: cell 0 is the transfer id,
/// cell 3 the API duration, cell 4 the latency, cell 6 the GPU duration.
pub open spec fn raw_line_ok(line: Seq<u8>) -> bool {
    let c = quote_cells(line);
    &&& c.len() >= 7
    &&& is_u64_numeral(c[0])
    &&& is_duration_field(c[3])
    &&& is_duration_field(c[4])
    &&& is_duration_field(c[6])
}

/// The record denoted by a well-formed raw line.
pub open spec fn raw_record(line: Seq<u8>) -> RecordModel {
    let c = quote_cells(line);
    RecordModel {
        id: digits_val(c[0]),
        api_duration: duration_field_val(c[3]),
        latency: duration_field_val(c[4]),
        gpu_duration: duration_field_val(c[6]),
    }
}

/// Parses one raw export line.
///
/// Returns `Ok` exactly on well-formed lines; `MissingFields` exactly when
/// there are fewer than seven quoted cells, `InvalidNumber` otherwise.
pub fn parse_csv(line: &[u8]) -> (r: Result<TransferRecord, ParseError>)
    ensures
        r is Ok <==> raw_line_ok(line@),
        r is Ok ==> r->Ok_0.model() == raw_record(line@),
        quote_cells(line@).len() < 7 ==> r == Err::<TransferRecord, ParseError>(
            ParseError::MissingFields,
        ),
        quote_cells(line@).len() >= 7 && !raw_line_ok(line@) ==> r == Err::<
            TransferRecord,
            ParseError,
        >(ParseError::InvalidNumber),
{
    let t = trim(line);
    let parts = split_at_bytes(t, 34);
    let ghost cells = quote_cells(line@);
    proof {
        assert(cells.len() == parts@.len() / 2);
    }
    if parts.len() < 14 {
        return Err(ParseError::MissingFields);
    }
    proof {
        assert(parts@[1]@ == cells[0]);
        assert(parts@[7]@ == cells[3]);
        assert(parts@[9]@ == cells[4]);
        assert(parts@[13]@ == cells[6]);
    }
    let id = match parse_u64_digits(parts[1].as_slice()) {
        Some(v) => v,
        None => {
            return Err(ParseError::InvalidNumber);
        },
    };
    let api_cell = strip_commas(parts[7].as_slice());
    let api = match parse_scaled(api_cell.as_slice()) {
        Some(v) => v,
        None => {
            return Err(ParseError::InvalidNumber);
        },
    };
    let lat_cell = strip_commas(parts[9].as_slice());
    let latency = match parse_scaled(lat_cell.as_slice()) {
        Some(v) => v,
        None => {
            return Err(ParseError::InvalidNumber);
        },
    };
    let gpu_cell = strip_commas(parts[13].as_slice());
    let gpu = match parse_scaled(gpu_cell.as_slice()) {
        Some(v) => v,
        None => {
            return Err(ParseError::InvalidNumber);
        },
    };
    Ok(TransferRecord { id, api_duration: api, latency, gpu_duration: gpu })
}

/// The comma-separated fields of a normalized line, each trimmed.
pub open spec fn out_fields(line: Seq<u8>) -> Seq<Seq<u8>> {
    split_on(line, 44).map_values(|f: Seq<u8>| trim_spec(f))
}

/// A normalized line is well formed when its first four fields are
/// numerals in range: id, API duration, latency, GPU duration.
pub open spec fn out_line_ok(line: Seq<u8>) -> bool {
    let f = out_fields(line);
    &&& f.len() >= 4
    &&& is_u64_numeral(f[0])
    &&& is_scaled_decimal(f[1]) && scaled_decimal_val(f[1]) <= u64::MAX
    &&& is_scaled_decimal(f[2]) && scaled_decimal_val(f[2]) <= u64::MAX
    &&& is_scaled_decimal(f[3]) && scaled_decimal_val(f[3]) <= u64::MAX
}

/// The record denoted by a well-formed normalized line.
pub open spec fn out_record(line: Seq<u8>) -> RecordModel {
    let f = out_fields(line);
    RecordModel {
        id: digits_val(f[0]),
        api_duration: scaled_decimal_val(f[1]),
        latency: scaled_decimal_val(f[2]),
        gpu_duration: scaled_decimal_val(f[3]),
    }
}

/// Parses one normalized intermediate line.
///
/// Returns `Ok` exactly on well-formed lines; `MissingFields` exactly when
/// there are fewer than four comma-separated fields, `InvalidNumber`
/// otherwise.
pub fn parse_out(line: &[u8]) -> (r: Result<TransferRecord, ParseError>)
    ensures
        r is Ok <==> out_line_ok(line@),
        r is Ok ==> r->Ok_0.model() == out_record(line@),
        out_fields(line@).len() < 4 ==> r == Err::<TransferRecord, ParseError>(
            ParseError::MissingFields,
        ),
        out_fields(line@).len() >= 4 && !out_line_ok(line@) ==> r == Err::<
            TransferRecord,
            ParseError,
        >(ParseError::InvalidNumber),
{
    let parts = split_at_bytes(line, 44);
    let ghost fields = out_fields(line@);
    proof {
        assert(fields.len() == parts@.len());
    }
    if parts.len() < 4 {
        return Err(ParseError::MissingFields);
    }
    proof {
        assert(fields[0] == trim_spec(parts@[0]@));
        assert(fields[1] == trim_spec(parts@[1]@));
        assert(fields[2] == trim_spec(parts@[2]@));
        assert(fields[3] == trim_spec(parts@[3]@));
    }
    let id = match parse_u64_digits(trim(parts[0].as_slice())) {
        Some(v) => v,
        None => {
            return Err(ParseError::InvalidNumber);
        },
    };
    let api = match parse_scaled(trim(parts[1].as_slice())) {
        Some(v) => v,
        None => {
            return Err(ParseError::InvalidNumber);
        },
    };
    let latency = match parse_scaled(trim(parts[2].as_slice())) {
        Some(v) => v,
        None => {
            return Err(ParseError::InvalidNumber);
        },
    };
    let gpu = match parse_scaled(trim(parts[3].as_slice())) {
        Some(v) => v,
        None => {
            return Err(ParseError::InvalidNumber);
        },
    };
    Ok(TransferRecord { id, api_duration: api, latency, gpu_duration: gpu })
}

/// The canonical normalized line of a record: the four numerals joined by
/// comma and space.
pub open spec fn record_line(r: TransferRecord) -> Seq<u8> {
    dec_digits(r.id as nat) + seq![44u8, 32u8] + scaled_bytes(r.api_duration as nat) + seq![
        44u8,
        32u8,
    ] + scaled_bytes(r.latency as nat) + seq![44u8, 32u8] + scaled_bytes(r.gpu_duration as nat)
}

/// A formatted record is a well-formed normalized line, and parsing it
/// under the normalized grammar gives the record back: what the transform
/// stage writes, the aggregation stage reads unchanged.
pub proof fn lemma_record_line_round_trip(r: TransferRecord)
    ensures
        out_line_ok(record_line(r)),
        out_record(record_line(r)) == r.model(),
{
    let a = dec_digits(r.id as nat);
    let b = scaled_bytes(r.api_duration as nat);
    let c = scaled_bytes(r.latency as nat);
    let d = scaled_bytes(r.gpu_duration as nat);
    crate::num::lemma_dec_digits(r.id as nat);
    crate::num::lemma_scaled_bytes_inverse(r.api_duration as nat);
    crate::num::lemma_scaled_bytes_inverse(r.latency as nat);
    crate::num::lemma_scaled_bytes_inverse(r.gpu_duration as nat);
    let line = record_line(r);
    let r1 = seq![32u8] + b + seq![44u8, 32u8] + c + seq![44u8, 32u8] + d;
    let r2 = seq![32u8] + c + seq![44u8, 32u8] + d;
    let r3 = seq![32u8] + d;
    assert(line =~= a + seq![44u8] + r1);
    assert forall|i: int| 0 <= i < a.len() implies a[i] != 44 by {
        assert(crate::num::is_digit(a[i]));
    }
    crate::bytes::lemma_split_on_prefix(a, r1, 44);
    assert(r1 =~= (seq![32u8] + b) + seq![44u8] + r2);
    assert forall|i: int| 0 <= i < (seq![32u8] + b).len() implies (seq![32u8] + b)[i] != 44 by {
        if i > 0 {
            assert((seq![32u8] + b)[i] == b[i - 1]);
            assert(crate::num::is_digit(b[i - 1]) || b[i - 1] == 46);
        }
    }
    crate::bytes::lemma_split_on_prefix(seq![32u8] + b, r2, 44);
    assert(r2 =~= (seq![32u8] + c) + seq![44u8] + r3);
    assert forall|i: int| 0 <= i < (seq![32u8] + c).len() implies (seq![32u8] + c)[i] != 44 by {
        if i > 0 {
            assert((seq![32u8] + c)[i] == c[i - 1]);
            assert(crate::num::is_digit(c[i - 1]) || c[i - 1] == 46);
        }
    }
    crate::bytes::lemma_split_on_prefix(seq![32u8] + c, r3, 44);
    assert forall|i: int| 0 <= i < r3.len() implies r3[i] != 44 by {
        if i > 0 {
            assert(r3[i] == d[i - 1]);
            assert(crate::num::is_digit(d[i - 1]) || d[i - 1] == 46);
        }
    }
    crate::bytes::lemma_split_on_whole(r3, 44);
    let parts = split_on(line, 44);
    assert(parts == seq![a] + (seq![seq![32u8] + b] + (seq![seq![32u8] + c] + seq![r3])));
    assert(parts.len() == 4);
    assert(parts[0] == a && parts[1] == seq![32u8] + b && parts[2] == seq![32u8] + c && parts[3]
        == r3);
    assert forall|i: int| 0 <= i < a.len() implies !crate::bytes::is_space(a[i]) by {
        assert(crate::num::is_digit(a[i]));
    }
    crate::bytes::lemma_trim_no_space(a);
    assert forall|i: int| 0 <= i < b.len() implies !crate::bytes::is_space(b[i]) by {
        assert(crate::num::is_digit(b[i]) || b[i] == 46);
    }
    crate::bytes::lemma_trim_space_then(b);
    assert forall|i: int| 0 <= i < c.len() implies !crate::bytes::is_space(c[i]) by {
        assert(crate::num::is_digit(c[i]) || c[i] == 46);
    }
    crate::bytes::lemma_trim_space_then(c);
    assert forall|i: int| 0 <= i < d.len() implies !crate::bytes::is_space(d[i]) by {
        assert(crate::num::is_digit(d[i]) || d[i] == 46);
    }
    crate::bytes::lemma_trim_space_then(d);
    let f = out_fields(line);
    assert(f[0] == trim_spec(a) && f[1] == trim_spec(seq![32u8] + b) && f[2] == trim_spec(
        seq![32u8] + c,
    ) && f[3] == trim_spec(seq![32u8] + d));
    assert(r3 == seq![32u8] + d);
    assert(f[0] == a && f[1] == b && f[2] == c && f[3] == d);
}

/// Formats a record as its canonical normalized line.
pub fn format_record(r: &TransferRecord) -> (out: Vec<u8>)
    ensures
        out@ == record_line(*r),
{
    let mut out = format_u64(r.id);
    out.push(44);
    out.push(32);
    let mut api = format_scaled(r.api_duration);
    out.append(&mut api);
    out.push(44);
    out.push(32);
    let mut lat = format_scaled(r.latency);
    out.append(&mut lat);
    out.push(44);
    out.push(32);
    let mut gpu = format_scaled(r.gpu_duration);
    out.append(&mut gpu);
    proof {
        assert(out@ =~= record_line(*r));
    }
    out
}

} // verus!
