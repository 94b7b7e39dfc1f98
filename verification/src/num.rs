//! Exact decimal numerals.
//!
//! Durations are carried as unsigned integers counting thousandths of a
//! microsecond, so a textual field like `1,234.56` (after comma removal:
//! `1234.56`) denotes the integer `1234560`. This module gives the grammar of
//! such numerals, verified parsers, and canonical formatters that invert them.

use vstd::prelude::*;

verus! {

/// How many integer units one whole microsecond counts for.
pub const SCALE: u64 = 1000;

pub open spec fn is_digit(b: u8) -> bool {
    48 <= b <= 57
}

pub open spec fn digit_val(b: u8) -> int {
    b - 48
}

pub open spec fn all_digits(s: Seq<u8>) -> bool {
    forall|i: int| 0 <= i < s.len() ==> is_digit(#[trigger] s[i])
}

/// Value of a string of decimal digits, most significant first.
pub open spec fn digits_val(s: Seq<u8>) -> int
    decreases s.len(),
{
    if s.len() == 0 {
        0
    } else {
        digits_val(s.drop_last()) * 10 + digit_val(s.last())
    }
}

pub proof fn lemma_digits_val_nonneg(s: Seq<u8>)
    requires
        all_digits(s),
    ensures
        digits_val(s) >= 0,
    decreases s.len(),
{
    if s.len() > 0 {
        assert(all_digits(s.drop_last())) by {
            assert(forall|i: int|
                0 <= i < s.len() - 1 ==> is_digit(#[trigger] s.drop_last()[i]) == is_digit(
                    s[i],
                ));
        }
        lemma_digits_val_nonneg(s.drop_last());
    }
}

/// Appending one digit multiplies the value by ten and adds the digit.
pub proof fn lemma_digits_val_push(s: Seq<u8>, b: u8)
    ensures
        digits_val(s.push(b)) == digits_val(s) * 10 + digit_val(b),
{
    assert(s.push(b).drop_last() =~= s);
    assert(s.push(b).last() == b);
}

/// A digit string is worth at least any of its prefixes.
pub proof fn lemma_digits_val_prefix(s: Seq<u8>, j: int)
    requires
        all_digits(s),
        0 <= j <= s.len(),
    ensures
        digits_val(s.subrange(0, j)) <= digits_val(s),
    decreases s.len() - j,
{
    if j < s.len() {
        let p = s.subrange(0, j);
        let q = s.subrange(0, j + 1);
        assert(q.drop_last() =~= p);
        lemma_digits_val_nonneg(p);
        assert(digits_val(q) == digits_val(p) * 10 + digit_val(s[j]));
        lemma_digits_val_prefix(s, j + 1);
    } else {
        assert(s.subrange(0, j) =~= s);
    }
}

pub open spec fn pow10(n: nat) -> int
    decreases n,
{
    if n == 0 {
        1
    } else {
        10 * pow10((n - 1) as nat)
    }
}

/// A digit string of length `n` is worth less than `10^n`.
pub proof fn lemma_digits_val_bound(s: Seq<u8>)
    requires
        all_digits(s),
    ensures
        digits_val(s) < pow10(s.len()),
    decreases s.len(),
{
    if s.len() > 0 {
        assert(all_digits(s.drop_last())) by {
            assert(forall|i: int|
                0 <= i < s.len() - 1 ==> is_digit(#[trigger] s.drop_last()[i]) == is_digit(
                    s[i],
                ));
        }
        lemma_digits_val_bound(s.drop_last());
    }
}

/// Parses an unsigned decimal integer, exactly when `s` is one or more
/// digits whose value fits in a `u64`.
pub fn parse_u64_digits(s: &[u8]) -> (r: Option<u64>)
    ensures
        r is Some <==> s@.len() > 0 && all_digits(s@) && digits_val(s@) <= u64::MAX,
        r is Some ==> r->0 == digits_val(s@),
{
    let n: usize = s.len();
    if n == 0 {
        return None;
    }
    let mut acc: u64 = 0;
    let mut i: usize = 0;
    while i < n
        invariant
            0 <= i <= n,
            n == s@.len(),
            all_digits(s@.subrange(0, i as int)),
            acc == digits_val(s@.subrange(0, i as int)),
        decreases n - i,
    {
        let b = s[i];
        if b < 48 || b > 57 {
            return None;
        }
        let d: u64 = (b - 48) as u64;
        proof {
            assert(s@.subrange(0, i + 1).drop_last() =~= s@.subrange(0, i as int));
            assert(s@.subrange(0, i + 1).last() == s@[i as int]);
            assert(forall|j: int|
                0 <= j < i + 1 ==> is_digit(#[trigger] s@.subrange(0, i + 1)[j]));
        }
        let shifted = match acc.checked_mul(10) {
            Some(v) => v,
            None => {
                proof {
                    lemma_digits_val_nonneg(s@.subrange(0, i as int));
                    assert(digits_val(s@.subrange(0, i + 1)) > u64::MAX);
                    if all_digits(s@) {
                        lemma_digits_val_prefix(s@, i + 1);
                    }
                }
                return None;
            },
        };
        acc = match shifted.checked_add(d) {
            Some(v) => v,
            None => {
                proof {
                    assert(digits_val(s@.subrange(0, i + 1)) > u64::MAX);
                    if all_digits(s@) {
                        lemma_digits_val_prefix(s@, i + 1);
                    }
                }
                return None;
            },
        };
        i = i + 1;
    }
    proof {
        assert(s@.subrange(0, n as int) =~= s@);
    }
    Some(acc)
}

/// The scaled-decimal grammar: one or more integer digits, optionally
/// followed by a dot and one to three fractional digits.
pub open spec fn is_scaled_decimal(s: Seq<u8>) -> bool {
    let p = find_byte_pos(s);
    let ip = s.subrange(0, p);
    let fp = s.subrange(p + 1, s.len() as int);
    &&& ip.len() > 0
    &&& all_digits(ip)
    &&& (p < s.len() ==> 1 <= fp.len() <= 3 && all_digits(fp))
}

/// Position of the dot in a numeral (the whole length if there is none).
pub open spec fn find_byte_pos(s: Seq<u8>) -> int {
    crate::bytes::find_byte(s, 46)
}

/// Multiplier that scales a fractional part of the given width to
/// thousandths.
pub open spec fn frac_scale(len: int) -> int {
    if len == 1 {
        100
    } else if len == 2 {
        10
    } else {
        1
    }
}

/// The integer denoted by a scaled-decimal numeral, in thousandths.
pub open spec fn scaled_decimal_val(s: Seq<u8>) -> int {
    let p = find_byte_pos(s);
    let ip = s.subrange(0, p);
    let fp = s.subrange(p + 1, s.len() as int);
    if p == s.len() {
        digits_val(ip) * 1000
    } else {
        digits_val(ip) * 1000 + digits_val(fp) * frac_scale(fp.len() as int)
    }
}

/// The fractional contribution of a well-formed numeral is never negative.
proof fn lemma_frac_part_nonneg(s: Seq<u8>)
    requires
        is_scaled_decimal(s),
    ensures
        find_byte_pos(s) < s.len() ==> digits_val(
            s.subrange(find_byte_pos(s) + 1, s.len() as int),
        ) * frac_scale(s.subrange(find_byte_pos(s) + 1, s.len() as int).len() as int) >= 0,
{
    let p = find_byte_pos(s);
    if p < s.len() {
        let fp = s.subrange(p + 1, s.len() as int);
        lemma_digits_val_nonneg(fp);
        let sc = frac_scale(fp.len() as int);
        assert(sc == 100 || sc == 10 || sc == 1);
        assert(digits_val(fp) * sc >= 0) by (nonlinear_arith)
            requires
                digits_val(fp) >= 0,
                sc >= 1,
        ;
    }
}

/// A well-formed numeral never denotes a negative value.
pub proof fn lemma_scaled_decimal_nonneg(s: Seq<u8>)
    requires
        is_scaled_decimal(s),
    ensures
        scaled_decimal_val(s) >= 0,
{
    crate::bytes::lemma_find_byte(s, 46);
    let p = find_byte_pos(s);
    let ip = s.subrange(0, p);
    lemma_digits_val_nonneg(ip);
    lemma_frac_part_nonneg(s);
}

/// Parses a scaled-decimal numeral into thousandths, exactly when the
/// numeral is well formed and its value fits in a `u64`.
pub fn parse_scaled(s: &[u8]) -> (r: Option<u64>)
    ensures
        r is Some <==> is_scaled_decimal(s@) && scaled_decimal_val(s@) <= u64::MAX,
        r is Some ==> r->0 == scaled_decimal_val(s@),
{
    let n: usize = s.len();
    let p = crate::bytes::find_byte_at(s, 46);
    proof {
        crate::bytes::lemma_find_byte(s@, 46);
    }
    let ip = vstd::slice::slice_subrange(s, 0, p);
    let iv = match parse_u64_digits(ip) {
        Some(v) => v,
        None => {
            proof {
                if is_scaled_decimal(s@) {
                    lemma_digits_val_nonneg(ip@);
                    lemma_frac_part_nonneg(s@);
                    assert(scaled_decimal_val(s@) > u64::MAX);
                }
            }
            return None;
        },
    };
    if p == n {
        let r = iv.checked_mul(SCALE);
        proof {
            if r is None {
                assert(scaled_decimal_val(s@) > u64::MAX);
            }
        }
        return r;
    }
    let fp = vstd::slice::slice_subrange(s, p + 1, n);
    let flen = fp.len();
    if flen == 0 || flen > 3 {
        return None;
    }
    let fv = match parse_u64_digits(fp) {
        Some(v) => v,
        None => {
            proof {
                if all_digits(fp@) {
                    lemma_digits_val_bound(fp@);
                }
            }
            return None;
        },
    };
    proof {
        lemma_digits_val_bound(fp@);
        lemma_digits_val_nonneg(fp@);
        reveal_with_fuel(pow10, 4);
        assert(pow10(1) == 10 && pow10(2) == 100 && pow10(3) == 1000);
        assert(fv <= 999);
    }
    let mult: u64 = if flen == 1 {
        100
    } else if flen == 2 {
        10
    } else {
        1
    };
    proof {
        assert(fv * mult <= 99900) by (nonlinear_arith)
            requires
                0 <= fv <= 999,
                0 <= mult <= 100,
        ;
    }
    let shifted = match iv.checked_mul(SCALE) {
        Some(v) => v,
        None => {
            proof {
                assert(scaled_decimal_val(s@) > u64::MAX);
            }
            return None;
        },
    };
    let r = shifted.checked_add(fv * mult);
    proof {
        if r is None {
            assert(scaled_decimal_val(s@) > u64::MAX);
        }
    }
    r
}

/// The canonical digit string of `v`: no leading zero except for `0` itself.
pub open spec fn dec_digits(v: nat) -> Seq<u8>
    decreases v,
{
    if v < 10 {
        seq![(48 + v) as u8]
    } else {
        dec_digits(v / 10).push((48 + v % 10) as u8)
    }
}

pub proof fn lemma_dec_digits(v: nat)
    ensures
        dec_digits(v).len() >= 1,
        all_digits(dec_digits(v)),
        digits_val(dec_digits(v)) == v,
    decreases v,
{
    if v < 10 {
        let s = dec_digits(v);
        assert(s.drop_last() =~= Seq::<u8>::empty());
        assert(digits_val(Seq::<u8>::empty()) == 0);
        assert(digits_val(s) == digit_val(s[0]));
    } else {
        lemma_dec_digits(v / 10);
        lemma_digits_val_push(dec_digits(v / 10), (48 + v % 10) as u8);
        assert(forall|i: int|
            0 <= i < dec_digits(v).len() ==> is_digit(#[trigger] dec_digits(v)[i]));
    }
}

/// Formats `v` as its canonical digit string.
pub fn format_u64(v: u64) -> (r: Vec<u8>)
    ensures
        r@ == dec_digits(v as nat),
    decreases v,
{
    if v < 10 {
        let mut r: Vec<u8> = Vec::new();
        r.push(48 + v as u8);
        proof {
            assert(r@ =~= dec_digits(v as nat));
        }
        r
    } else {
        let mut r = format_u64(v / 10);
        r.push(48 + (v % 10) as u8);
        proof {
            assert(r@ =~= dec_digits(v as nat));
        }
        r
    }
}

/// Formats a `u128` as its canonical digit string.
pub fn format_u128(v: u128) -> (r: Vec<u8>)
    ensures
        r@ == dec_digits(v as nat),
    decreases v,
{
    if v < 10 {
        let mut r: Vec<u8> = Vec::new();
        r.push(48 + v as u8);
        proof {
            assert(r@ =~= dec_digits(v as nat));
        }
        r
    } else {
        let mut r = format_u128(v / 10);
        r.push(48 + (v % 10) as u8);
        proof {
            assert(r@ =~= dec_digits(v as nat));
        }
        r
    }
}

/// The canonical scaled-decimal numeral of `v` thousandths: integer part,
/// then a fractional part with trailing zeros removed, if any.
pub open spec fn scaled_bytes(v: nat) -> Seq<u8> {
    let f = v % 1000;
    if f == 0 {
        dec_digits(v / 1000)
    } else {
        dec_digits(v / 1000) + seq![46u8] + frac_bytes(f)
    }
}

/// Fractional digits of `f` thousandths (`1 <= f <= 999`), zero padded to
/// three places and with trailing zeros removed.
pub open spec fn frac_bytes(f: nat) -> Seq<u8> {
    let d1 = (48 + f / 100) as u8;
    let d2 = (48 + (f / 10) % 10) as u8;
    let d3 = (48 + f % 10) as u8;
    if f % 10 != 0 {
        seq![d1, d2, d3]
    } else if (f / 10) % 10 != 0 {
        seq![d1, d2]
    } else {
        seq![d1]
    }
}

/// Values of one-, two- and three-digit strings, written out.
pub proof fn lemma_digits_val_small(a: u8, b: u8, c: u8)
    ensures
        digits_val(seq![a]) == digit_val(a),
        digits_val(seq![a, b]) == digit_val(a) * 10 + digit_val(b),
        digits_val(seq![a, b, c]) == (digit_val(a) * 10 + digit_val(b)) * 10 + digit_val(c),
{
    let s1 = seq![a];
    let s2 = seq![a, b];
    let s3 = seq![a, b, c];
    assert(digits_val(Seq::<u8>::empty()) == 0);
    assert(s1.drop_last() =~= Seq::<u8>::empty());
    assert(digits_val(s1) == digits_val(s1.drop_last()) * 10 + digit_val(s1.last()));
    assert(s2.drop_last() =~= s1);
    assert(digits_val(s2) == digits_val(s2.drop_last()) * 10 + digit_val(s2.last()));
    assert(s3.drop_last() =~= s2);
    assert(digits_val(s3) == digits_val(s3.drop_last()) * 10 + digit_val(s3.last()));
}

/// The canonical numeral parses back to the value it was formatted from,
/// and consists of digits and at most one dot.
pub proof fn lemma_scaled_bytes_inverse(v: nat)
    ensures
        is_scaled_decimal(scaled_bytes(v)),
        scaled_decimal_val(scaled_bytes(v)) == v,
        scaled_bytes(v).len() > 0,
        forall|i: int|
            0 <= i < scaled_bytes(v).len() ==> is_digit(#[trigger] scaled_bytes(v)[i])
                || scaled_bytes(v)[i] == 46,
{
    let f = v % 1000;
    let ip = v / 1000;
    let d = dec_digits(ip);
    lemma_dec_digits(ip);
    let s = scaled_bytes(v);
    if f == 0 {
        assert forall|i: int| 0 <= i < s.len() implies s[i] != 46 by {
            assert(is_digit(s[i]));
        }
        crate::bytes::lemma_find_byte_unique(s, 46, s.len() as int);
        assert(s.subrange(0, s.len() as int) =~= s);
        assert(v == ip * 1000);
    } else {
        let fb = frac_bytes(f);
        assert(s == d + seq![46u8] + fb);
        assert forall|i: int| 0 <= i < d.len() implies s[i] != 46 by {
            assert(s[i] == d[i]);
            assert(is_digit(d[i]));
        }
        assert(s[d.len() as int] == 46);
        crate::bytes::lemma_find_byte_unique(s, 46, d.len() as int);
        assert(s.subrange(0, d.len() as int) =~= d);
        assert(s.subrange(d.len() as int + 1, s.len() as int) =~= fb);
        let d1 = (48 + f / 100) as u8;
        let d2 = (48 + (f / 10) % 10) as u8;
        let d3 = (48 + f % 10) as u8;
        lemma_digits_val_small(d1, d2, d3);
        assert((f / 10) / 10 == f / 100) by (nonlinear_arith)
            requires
                0 <= f,
        ;
        assert(f / 10 == (f / 100) * 10 + (f / 10) % 10);
        assert(f == (f / 10) * 10 + f % 10);
        if f % 10 != 0 {
            assert(digits_val(fb) == f);
        } else if (f / 10) % 10 != 0 {
            assert(digits_val(fb) == f / 10);
            assert(digits_val(fb) * frac_scale(fb.len() as int) == f);
        } else {
            assert(digits_val(fb) == f / 100);
            assert(f % 100 == 0) by (nonlinear_arith)
                requires
                    0 <= f,
                    f % 10 == 0,
                    (f / 10) % 10 == 0,
            ;
            assert(f == (f / 100) * 100) by (nonlinear_arith)
                requires
                    0 <= f,
                    f % 100 == 0,
            ;
            assert(digits_val(fb) * frac_scale(fb.len() as int) == f);
        }
        assert(v == ip * 1000 + f);
        assert(forall|i: int| 0 <= i < s.len() ==> is_digit(#[trigger] s[i]) || s[i] == 46) by {
            assert(forall|i: int| 0 <= i < d.len() ==> is_digit(#[trigger] d[i]));
            assert(forall|i: int|
                0 <= i < fb.len() ==> is_digit(#[trigger] fb[i]));
            assert forall|i: int| 0 <= i < s.len() implies is_digit(#[trigger] s[i]) || s[i]
                == 46 by {
                if i < d.len() {
                    assert(s[i] == d[i]);
                } else if i == d.len() {
                } else {
                    assert(s[i] == fb[i - d.len() - 1]);
                }
            }
        }
    }
}

/// Formats `v` thousandths as its canonical scaled-decimal numeral.
pub fn format_scaled(v: u64) -> (r: Vec<u8>)
    ensures
        r@ == scaled_bytes(v as nat),
{
    let f: u64 = v % 1000;
    let mut r = format_u64(v / 1000);
    if f == 0 {
        proof {
            assert(r@ =~= scaled_bytes(v as nat));
        }
        return r;
    }
    r.push(46);
    let d1: u8 = 48 + (f / 100) as u8;
    let d2: u8 = 48 + ((f / 10) % 10) as u8;
    let d3: u8 = 48 + (f % 10) as u8;
    r.push(d1);
    if f % 10 != 0 {
        r.push(d2);
        r.push(d3);
    } else if (f / 10) % 10 != 0 {
        r.push(d2);
    }
    proof {
        assert(r@ =~= scaled_bytes(v as nat));
    }
    r
}

} // verus!
