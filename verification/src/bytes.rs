//! Byte-level text utilities shared by the two line grammars: whitespace
//! trimming, locating a separator, splitting on a separator, and removing
//! thousands-separator commas.

use vstd::prelude::*;

verus! {

/// The ASCII whitespace bytes that may surround fields on disk.
pub open spec fn is_space(b: u8) -> bool {
    b == 32 || b == 9 || b == 13 || b == 10
}

fn space(b: u8) -> (r: bool)
    ensures
        r == is_space(b),
{
    b == 32 || b == 9 || b == 13 || b == 10
}

/// Index of the first occurrence of `sep` in `s`, or `s.len()` if none.
pub open spec fn find_byte(s: Seq<u8>, sep: u8) -> int
    decreases s.len(),
{
    if s.len() == 0 {
        0
    } else if s[0] == sep {
        0
    } else {
        1 + find_byte(s.drop_first(), sep)
    }
}

pub proof fn lemma_find_byte(s: Seq<u8>, sep: u8)
    ensures
        0 <= find_byte(s, sep) <= s.len(),
        forall|i: int| 0 <= i < find_byte(s, sep) ==> s[i] != sep,
        find_byte(s, sep) < s.len() ==> s[find_byte(s, sep)] == sep,
    decreases s.len(),
{
    if s.len() != 0 && s[0] != sep {
        lemma_find_byte(s.drop_first(), sep);
        assert forall|i: int| 0 <= i < find_byte(s, sep) implies s[i] != sep by {
            if i > 0 {
                assert(s.drop_first()[i - 1] != sep);
            }
        }
    }
}

/// Scans `s` for the first `sep`.
pub fn find_byte_at(s: &[u8], sep: u8) -> (r: usize)
    ensures
        r == find_byte(s@, sep),
{
    proof {
        lemma_find_byte(s@, sep);
    }
    let n: usize = s.len();
    let mut i: usize = 0;
    while i < n
        invariant
            0 <= i <= n,
            n == s@.len(),
            forall|j: int| 0 <= j < i ==> s@[j] != sep,
            forall|j: int| 0 <= j < find_byte(s@, sep) ==> s@[j] != sep,
            find_byte(s@, sep) < s@.len() ==> s@[find_byte(s@, sep)] == sep,
            0 <= find_byte(s@, sep) <= s@.len(),
        decreases n - i,
    {
        if s[i] == sep {
            return i;
        }
        i = i + 1;
    }
    i
}

/// The views of a vector of owned byte strings.
pub open spec fn line_views(lines: Seq<Vec<u8>>) -> Seq<Seq<u8>> {
    lines.map_values(|l: Vec<u8>| l@)
}

pub proof fn lemma_line_views_push(s: Seq<Vec<u8>>, x: Vec<u8>)
    ensures
        line_views(s.push(x)) == line_views(s).push(x@),
{
    assert(line_views(s.push(x)) =~= line_views(s).push(x@));
}

/// An index with the first-occurrence properties is `find_byte` itself.
pub proof fn lemma_find_byte_unique(s: Seq<u8>, sep: u8, k: int)
    requires
        0 <= k <= s.len(),
        forall|i: int| 0 <= i < k ==> s[i] != sep,
        k < s.len() ==> s[k] == sep,
    ensures
        find_byte(s, sep) == k,
{
    lemma_find_byte(s, sep);
    let p = find_byte(s, sep);
    if p < k {
        assert(s[p] != sep);
    } else if k < p {
        assert(s[k] != sep);
    }
}

/// Segments of `s` between occurrences of `sep`: one more segment than
/// there are separators, in order, each without the separator itself.
pub open spec fn split_on(s: Seq<u8>, sep: u8) -> Seq<Seq<u8>>
    decreases s.len(),
    via split_on_decreases
{
    let p = find_byte(s, sep);
    if p == s.len() {
        seq![s]
    } else {
        seq![s.subrange(0, p)] + split_on(s.subrange(p + 1, s.len() as int), sep)
    }
}

#[via_fn]
proof fn split_on_decreases(s: Seq<u8>, sep: u8) {
    lemma_find_byte(s, sep);
}

/// Splits `s` at every `sep`.
pub fn split_at_bytes(s: &[u8], sep: u8) -> (r: Vec<Vec<u8>>)
    ensures
        r@.len() == split_on(s@, sep).len(),
        forall|i: int| 0 <= i < r@.len() ==> #[trigger] r@[i]@ == split_on(s@, sep)[i],
    decreases s@.len(),
{
    let p = find_byte_at(s, sep);
    proof {
        lemma_find_byte(s@, sep);
    }
    if p == s.len() {
        let mut r: Vec<Vec<u8>> = Vec::new();
        r.push(vstd::slice::slice_to_vec(s));
        r
    } else {
        let head = vstd::slice::slice_to_vec(vstd::slice::slice_subrange(s, 0, p));
        let mut rest = split_at_bytes(vstd::slice::slice_subrange(s, p + 1, s.len()), sep);
        let mut r: Vec<Vec<u8>> = Vec::new();
        let ghost rest0 = rest@;
        r.push(head);
        r.append(&mut rest);
        proof {
            let whole = split_on(s@, sep);
            let tail = split_on(s@.subrange(p + 1, s@.len() as int), sep);
            assert(whole == seq![s@.subrange(0, p as int)] + tail);
            assert forall|i: int| 0 <= i < r@.len() implies #[trigger] r@[i]@ == whole[i] by {
                if i > 0 {
                    assert(r@[i] == rest0[i - 1]);
                    assert(whole[i] == tail[i - 1]);
                }
            }
        }
        r
    }
}

/// `s` with every comma removed.
pub open spec fn without_commas(s: Seq<u8>) -> Seq<u8> {
    s.filter(|b: u8| b != 44)
}

/// Removes thousands-separator commas.
pub fn strip_commas(s: &[u8]) -> (r: Vec<u8>)
    ensures
        r@ == without_commas(s@),
{
    let n: usize = s.len();
    let mut r: Vec<u8> = Vec::new();
    let mut i: usize = 0;
    while i < n
        invariant
            0 <= i <= n,
            n == s@.len(),
            r@ == without_commas(s@.subrange(0, i as int)),
        decreases n - i,
    {
        let b = s[i];
        if b != 44 {
            r.push(b);
        }
        proof {
            reveal(Seq::filter);
            assert(s@.subrange(0, i + 1).drop_last() =~= s@.subrange(0, i as int));
            assert(s@.subrange(0, i + 1).last() == s@[i as int]);
        }
        i = i + 1;
    }
    proof {
        assert(s@.subrange(0, n as int) =~= s@);
    }
    r
}

/// Splitting starts with the separator-free prefix as its first segment.
pub proof fn lemma_split_on_prefix(a: Seq<u8>, b: Seq<u8>, sep: u8)
    requires
        forall|i: int| 0 <= i < a.len() ==> a[i] != sep,
    ensures
        split_on(a + seq![sep] + b, sep) == seq![a] + split_on(b, sep),
{
    let s = a + seq![sep] + b;
    assert forall|i: int| 0 <= i < a.len() implies s[i] != sep by {
        assert(s[i] == a[i]);
    }
    assert(s[a.len() as int] == sep);
    lemma_find_byte_unique(s, sep, a.len() as int);
    assert(s.subrange(0, a.len() as int) =~= a);
    assert(s.subrange(a.len() as int + 1, s.len() as int) =~= b);
}

/// A separator-free string is one single segment.
pub proof fn lemma_split_on_whole(s: Seq<u8>, sep: u8)
    requires
        forall|i: int| 0 <= i < s.len() ==> s[i] != sep,
    ensures
        split_on(s, sep) == seq![s],
{
    lemma_find_byte_unique(s, sep, s.len() as int);
}

/// Number of leading whitespace bytes of `s`.
pub open spec fn leading_spaces(s: Seq<u8>) -> int
    decreases s.len(),
{
    if s.len() == 0 {
        0
    } else if !is_space(s[0]) {
        0
    } else {
        1 + leading_spaces(s.drop_first())
    }
}

/// End of `s` with trailing whitespace removed: the least index such that
/// everything at or after it is whitespace.
pub open spec fn trimmed_end(s: Seq<u8>) -> int
    decreases s.len(),
{
    if s.len() == 0 {
        0
    } else if !is_space(s.last()) {
        s.len() as int
    } else {
        trimmed_end(s.drop_last())
    }
}

/// An index with the leading-whitespace properties is `leading_spaces`.
pub proof fn lemma_leading_spaces_unique(s: Seq<u8>, k: int)
    requires
        0 <= k <= s.len(),
        forall|i: int| 0 <= i < k ==> is_space(s[i]),
        k < s.len() ==> !is_space(s[k]),
    ensures
        leading_spaces(s) == k,
{
    lemma_leading_spaces(s);
    let p = leading_spaces(s);
    if p < k {
        assert(is_space(s[p]));
    } else if k < p {
        assert(is_space(s[k]));
    }
}

/// An index with the trailing-whitespace properties is `trimmed_end`.
pub proof fn lemma_trimmed_end_unique(s: Seq<u8>, k: int)
    requires
        0 <= k <= s.len(),
        forall|i: int| k <= i < s.len() ==> is_space(s[i]),
        k > 0 ==> !is_space(s[k - 1]),
    ensures
        trimmed_end(s) == k,
{
    lemma_trimmed_end(s);
    let p = trimmed_end(s);
    if p < k {
        assert(is_space(s[k - 1]));
    } else if k < p {
        assert(is_space(s[p - 1]));
    }
}

/// `s` with leading and trailing ASCII whitespace removed.
pub open spec fn trim_spec(s: Seq<u8>) -> Seq<u8> {
    let t = s.subrange(leading_spaces(s), s.len() as int);
    t.subrange(0, trimmed_end(t))
}

pub proof fn lemma_leading_spaces(s: Seq<u8>)
    ensures
        0 <= leading_spaces(s) <= s.len(),
        forall|i: int| 0 <= i < leading_spaces(s) ==> is_space(s[i]),
        leading_spaces(s) < s.len() ==> !is_space(s[leading_spaces(s)]),
    decreases s.len(),
{
    if s.len() != 0 && is_space(s[0]) {
        lemma_leading_spaces(s.drop_first());
        assert forall|i: int| 0 <= i < leading_spaces(s) implies is_space(s[i]) by {
            if i > 0 {
                assert(is_space(s.drop_first()[i - 1]));
            }
        }
    }
}

pub proof fn lemma_trimmed_end(s: Seq<u8>)
    ensures
        0 <= trimmed_end(s) <= s.len(),
        forall|i: int| trimmed_end(s) <= i < s.len() ==> is_space(s[i]),
        trimmed_end(s) > 0 ==> !is_space(s[trimmed_end(s) - 1]),
    decreases s.len(),
{
    if s.len() != 0 && is_space(s.last()) {
        lemma_trimmed_end(s.drop_last());
        assert forall|i: int| trimmed_end(s) <= i < s.len() implies is_space(s[i]) by {
            if i < s.len() - 1 {
                assert(is_space(s.drop_last()[i]));
            }
        }
    }
}

/// Trimming a string without whitespace leaves it unchanged.
pub proof fn lemma_trim_no_space(s: Seq<u8>)
    requires
        forall|i: int| 0 <= i < s.len() ==> !is_space(s[i]),
    ensures
        trim_spec(s) == s,
{
    lemma_leading_spaces_unique(s, 0);
    assert(s.subrange(0, s.len() as int) =~= s);
    lemma_trimmed_end_unique(s, s.len() as int);
    assert(trim_spec(s) =~= s);
}

/// Trimming removes a single leading space before a whitespace-free word.
pub proof fn lemma_trim_space_then(x: Seq<u8>)
    requires
        x.len() > 0,
        forall|i: int| 0 <= i < x.len() ==> !is_space(x[i]),
    ensures
        trim_spec(seq![32u8] + x) == x,
{
    let s = seq![32u8] + x;
    assert(is_space(s[0]));
    assert(s[1] == x[0]);
    lemma_leading_spaces_unique(s, 1);
    let t = s.subrange(1, s.len() as int);
    assert(t =~= x);
    lemma_trimmed_end_unique(t, t.len() as int);
    assert(trim_spec(s) =~= x);
}

/// Removes leading and trailing ASCII whitespace.
pub fn trim(s: &[u8]) -> (r: &[u8])
    ensures
        r@ == trim_spec(s@),
{
    proof {
        lemma_leading_spaces(s@);
    }
    let n: usize = s.len();
    let mut start: usize = 0;
    while start < n && space(s[start])
        invariant
            0 <= start <= n,
            n == s@.len(),
            forall|j: int| 0 <= j < start ==> is_space(s@[j]),
            start <= leading_spaces(s@),
        decreases n - start,
    {
        proof {
            lemma_leading_spaces(s@);
        }
        start = start + 1;
    }
    proof {
        lemma_leading_spaces(s@);
        assert(start == leading_spaces(s@));
    }
    let mut end: usize = n;
    while end > start && space(s[end - 1])
        invariant
            start <= end <= n,
            n == s@.len(),
            start == leading_spaces(s@),
            forall|j: int| end <= j < n ==> is_space(s@[j]),
        decreases end,
    {
        end = end - 1;
    }
    let r = vstd::slice::slice_subrange(s, start, end);
    proof {
        let t = s@.subrange(start as int, n as int);
        lemma_trimmed_end(t);
        if end > start {
            assert(!is_space(s@[end - 1]));
            assert(t[end - start - 1] == s@[end - 1]);
            assert forall|i: int| end - start <= i < t.len() implies is_space(t[i]) by {
                assert(t[i] == s@[i + start]);
            }
            assert(trimmed_end(t) == end - start) by {
                if trimmed_end(t) < end - start {
                    assert(is_space(t[end - start - 1]));
                } else if trimmed_end(t) > end - start {
                    assert(is_space(t[trimmed_end(t) - 1]));
                }
            }
        } else {
            assert(t.len() == n - start);
            assert(trimmed_end(t) == 0) by {
                if trimmed_end(t) > 0 {
                    assert(is_space(s@[trimmed_end(t) - 1 + start]));
                    assert(is_space(t[trimmed_end(t) - 1]));
                }
            }
        }
        assert(r@ =~= trim_spec(s@));
    }
    r
}

} // verus!
