//! Web links in the text of the screen.
use vstd::prelude::*;
use vstd::utf8::*;
use crate::cells;
use crate::cells::byte_index_for_column_in_line;
use crate::text;
use crate::text::ascii_string;

verus! {

/// `b` may stand in a link.
pub open spec fn is_url_byte(b: u8) -> bool {
    ||| 0x61 <= b <= 0x7a  // a to z
    ||| 0x41 <= b <= 0x5a  // A to Z
    ||| 0x30 <= b <= 0x39  // 0 to 9
    ||| b == 0x2d || b == 0x2e || b == 0x5f || b == 0x7e  // - . _ ~
    ||| b == 0x3a || b == 0x2f || b == 0x3f || b == 0x23  // : / ? #
    ||| b == 0x5b || b == 0x5d || b == 0x40 || b == 0x21  // [ ] @ !
    ||| b == 0x24 || b == 0x26 || b == 0x27 || b == 0x28  // $ & ' (
    ||| b == 0x29 || b == 0x2a || b == 0x2b || b == 0x2c  // ) * + ,
    ||| b == 0x3b || b == 0x3d || b == 0x25  // ; = %
}

/// `b` does not count as part of a link that it ends.
pub open spec fn is_trailing(b: u8) -> bool {
    // . , ) ] } ; : ! ?
    b == 0x2e || b == 0x2c || b == 0x29 || b == 0x5d || b == 0x7d || b == 0x3b || b == 0x3a || b
        == 0x21 || b == 0x3f
}

/// `https://`
pub open spec fn https() -> Seq<u8> {
    seq![0x68, 0x74, 0x74, 0x70, 0x73, 0x3a, 0x2f, 0x2f]
}

/// `http://`
pub open spec fn http() -> Seq<u8> {
    seq![0x68, 0x74, 0x74, 0x70, 0x3a, 0x2f, 0x2f]
}

/// Where the run of link bytes around `i` begins.
pub open spec fn run_first(bytes: Seq<u8>, i: int) -> int
    decreases i,
{
    if i <= 0 || i > bytes.len() || !is_url_byte(bytes[i - 1]) {
        i
    } else {
        run_first(bytes, i - 1)
    }
}

/// Where the run of link bytes from `i` on ends.
pub open spec fn run_last(bytes: Seq<u8>, i: int) -> int
    decreases bytes.len() - i,
{
    if i < 0 || i >= bytes.len() || !is_url_byte(bytes[i]) {
        i
    } else {
        run_last(bytes, i + 1)
    }
}

/// Where a link that starts at `start` ends, once the punctuation before `end`
/// is taken off.
pub open spec fn trimmed(bytes: Seq<u8>, start: int, end: int) -> int
    decreases end - start,
{
    if end <= start || !is_trailing(bytes[end - 1]) {
        end
    } else {
        trimmed(bytes, start, end - 1)
    }
}

/// A link's scheme stands at `at`, before `end`.
pub open spec fn scheme_at(bytes: Seq<u8>, at: int, end: int) -> bool {
    ||| at + 8 <= end && bytes.subrange(at, at + 8) == https()
    ||| at + 7 <= end && bytes.subrange(at, at + 7) == http()
}

/// The byte that a position in a text stands for: the last one where it is past
/// the end, and the one before where only that may stand in a link.
pub open spec fn url_index(bytes: Seq<u8>, index: int) -> int {
    let i = if index < bytes.len() {
        index
    } else {
        bytes.len() - 1
    };
    if !is_url_byte(bytes[i]) && i > 0 && is_url_byte(bytes[i - 1]) {
        i - 1
    } else {
        i
    }
}

/// Where the link around a position begins and ends: the run of link bytes there,
/// without the punctuation at its end, if it begins with a scheme.
pub open spec fn url_span(bytes: Seq<u8>, index: int) -> Option<(int, int)> {
    if bytes.len() == 0 || !is_url_byte(bytes[url_index(bytes, index)]) {
        None
    } else {
        let i = url_index(bytes, index);
        let start = run_first(bytes, i);
        let end = trimmed(bytes, start, run_last(bytes, i + 1));
        if scheme_at(bytes, start, end) {
            Some((start, end))
        } else {
            None
        }
    }
}

/// The first position from `at` to `last` at which a scheme stands.
pub open spec fn first_scheme(bytes: Seq<u8>, at: int, last: int, end: int) -> Option<int>
    decreases last + 1 - at,
{
    if at > last {
        None
    } else if scheme_at(bytes, at, end) {
        Some(at)
    } else {
        first_scheme(bytes, at + 1, last, end)
    }
}

/// Where the link around a position begins and ends, if other link bytes may
/// stand before its scheme: from the first scheme in the run of link bytes there
/// that does not lie behind the position.
pub open spec fn embedded_url_span(bytes: Seq<u8>, index: int) -> Option<(int, int)> {
    if bytes.len() == 0 || !is_url_byte(bytes[url_index(bytes, index)]) {
        None
    } else {
        let i = url_index(bytes, index);
        let end = run_last(bytes, i + 1);
        match first_scheme(bytes, run_first(bytes, i), i, end) {
            Some(start) => Some((start, trimmed(bytes, start, end))),
            None => None,
        }
    }
}

/// The bytes of a span.
pub open spec fn span_bytes(bytes: Seq<u8>, span: Option<(int, int)>) -> Option<Seq<u8>> {
    match span {
        Some((start, end)) => Some(bytes.subrange(start, end)),
        None => None,
    }
}

/// The bytes of a string that may be missing.
pub open spec fn string_bytes(s: Option<String>) -> Option<Seq<u8>> {
    match s {
        Some(s) => Some(encode_utf8(s@)),
        None => None,
    }
}

pub proof fn lemma_run_first(bytes: Seq<u8>, i: int)
    requires
        0 <= i <= bytes.len(),
    ensures
        0 <= run_first(bytes, i) <= i,
        forall|j: int| run_first(bytes, i) <= j < i ==> is_url_byte(#[trigger] bytes[j]),
    decreases i,
{
    if i > 0 && is_url_byte(bytes[i - 1]) {
        lemma_run_first(bytes, i - 1);
    }
}

pub proof fn lemma_run_last(bytes: Seq<u8>, i: int)
    requires
        0 <= i <= bytes.len(),
    ensures
        i <= run_last(bytes, i) <= bytes.len(),
        forall|j: int| i <= j < run_last(bytes, i) ==> is_url_byte(#[trigger] bytes[j]),
    decreases bytes.len() - i,
{
    if i < bytes.len() && is_url_byte(bytes[i]) {
        lemma_run_last(bytes, i + 1);
    }
}

pub proof fn lemma_trimmed(bytes: Seq<u8>, start: int, end: int)
    requires
        0 <= start <= end <= bytes.len(),
    ensures
        start <= trimmed(bytes, start, end) <= end,
        forall|j: int| trimmed(bytes, start, end) <= j < end ==> is_trailing(#[trigger] bytes[j]),
    decreases end - start,
{
    if end > start && is_trailing(bytes[end - 1]) {
        lemma_trimmed(bytes, start, end - 1);
    }
}

/// Taking off punctuation does not reach into a scheme, which ends in a slash.
proof fn lemma_trim_keeps_scheme(bytes: Seq<u8>, start: int, end: int)
    requires
        0 <= start <= end <= bytes.len(),
    ensures
        scheme_at(bytes, start, trimmed(bytes, start, end)) == scheme_at(bytes, start, end),
{
    lemma_trimmed(bytes, start, end);
    let t = trimmed(bytes, start, end);
    if start + 8 <= end && bytes.subrange(start, start + 8) == https() {
        assert(bytes[start + 7] == bytes.subrange(start, start + 8)[7]);
        assert(!is_trailing(bytes[start + 7]));
    }
    if start + 7 <= end && bytes.subrange(start, start + 7) == http() {
        assert(bytes[start + 6] == bytes.subrange(start, start + 7)[6]);
        assert(!is_trailing(bytes[start + 6]));
    }
}

pub proof fn lemma_first_scheme(bytes: Seq<u8>, at: int, last: int, end: int)
    ensures
        first_scheme(bytes, at, last, end) matches Some(s) ==> at <= s <= last && scheme_at(
            bytes,
            s,
            end,
        ),
    decreases last + 1 - at,
{
    if at <= last && !scheme_at(bytes, at, end) {
        lemma_first_scheme(bytes, at + 1, last, end);
    }
}

/// A link found around a position is a run of link bytes of the text that begins
/// with a scheme, and does not end in punctuation.
pub proof fn law_url_span(bytes: Seq<u8>, index: int)
    requires
        index >= 0,
    ensures
        embedded_url_span(bytes, index) matches Some((start, end)) ==> {
            &&& 0 <= start < end <= bytes.len()
            &&& scheme_at(bytes, start, end)
            &&& !is_trailing(bytes[end - 1])
            &&& forall|j: int| start <= j < end ==> is_url_byte(#[trigger] bytes[j])
        },
        url_span(bytes, index) matches Some((start, end)) ==> {
            &&& 0 <= start < end <= bytes.len()
            &&& scheme_at(bytes, start, end)
            &&& !is_trailing(bytes[end - 1])
            &&& forall|j: int| start <= j < end ==> is_url_byte(#[trigger] bytes[j])
        },
{
    if bytes.len() > 0 && is_url_byte(bytes[url_index(bytes, index)]) {
        let i = url_index(bytes, index);
        let first = run_first(bytes, i);
        let last = run_last(bytes, i + 1);
        lemma_run_first(bytes, i);
        lemma_run_last(bytes, i + 1);
        lemma_first_scheme(bytes, first, i, last);
        lemma_trim_end(bytes, first, last);
        lemma_trim_keeps_scheme(bytes, first, last);
        lemma_trimmed(bytes, first, last);
        if let Some(s) = first_scheme(bytes, first, i, last) {
            lemma_trim_end(bytes, s, last);
            lemma_trim_keeps_scheme(bytes, s, last);
            lemma_trimmed(bytes, s, last);
        }
    }
}

proof fn lemma_trim_end(bytes: Seq<u8>, start: int, end: int)
    requires
        0 <= start <= end <= bytes.len(),
    ensures
        trimmed(bytes, start, end) > start ==> !is_trailing(bytes[trimmed(bytes, start, end) - 1]),
    decreases end - start,
{
    if end > start && is_trailing(bytes[end - 1]) {
        lemma_trim_end(bytes, start, end - 1);
    }
}

/// Where the run of link bytes itself begins with a scheme, looking for a scheme
/// inside the run finds the same link.
pub proof fn law_embedded_extends_plain(bytes: Seq<u8>, index: int)
    requires
        index >= 0,
        url_span(bytes, index) is Some,
    ensures
        embedded_url_span(bytes, index) == url_span(bytes, index),
{
    let i = url_index(bytes, index);
    lemma_run_first(bytes, i);
    lemma_run_last(bytes, i + 1);
    lemma_trim_keeps_scheme(bytes, run_first(bytes, i), run_last(bytes, i + 1));
}

/// Positions between which only link bytes stand lie in one run.
proof fn lemma_same_run(bytes: Seq<u8>, a: int, b: int)
    requires
        0 <= a <= b <= bytes.len(),
        forall|j: int| a <= j < b ==> is_url_byte(#[trigger] bytes[j]),
    ensures
        run_first(bytes, a) == run_first(bytes, b),
        run_last(bytes, a) == run_last(bytes, b),
    decreases b - a,
{
    if a < b {
        lemma_same_run(bytes, a, b - 1);
        assert(is_url_byte(bytes[b - 1]));
        assert(run_last(bytes, b - 1) == run_last(bytes, b));
    }
}

proof fn lemma_first_scheme_up_to(bytes: Seq<u8>, at: int, last: int, end: int, other: int)
    requires
        first_scheme(bytes, at, last, end) matches Some(s) && s <= other,
    ensures
        first_scheme(bytes, at, other, end) == first_scheme(bytes, at, last, end),
    decreases last + 1 - at,
{
    lemma_first_scheme(bytes, at, last, end);
    if !scheme_at(bytes, at, end) {
        lemma_first_scheme_up_to(bytes, at + 1, last, end, other);
    }
}

/// A link is the same wherever it is looked at: from each of its bytes the same one
/// is found.
pub proof fn law_same_link_from_every_byte(bytes: Seq<u8>, index: int, other: int)
    requires
        index >= 0,
        embedded_url_span(bytes, index) matches Some((start, end)) && start <= other < end,
    ensures
        embedded_url_span(bytes, other) == embedded_url_span(bytes, index),
{
    law_url_span(bytes, index);
    let (start, end) = embedded_url_span(bytes, index).unwrap();
    let i = url_index(bytes, index);
    let first = run_first(bytes, i);
    let last = run_last(bytes, i + 1);
    lemma_run_first(bytes, i);
    lemma_run_last(bytes, i + 1);
    lemma_first_scheme(bytes, first, i, last);
    lemma_trimmed(bytes, start, last);
    assert(is_url_byte(bytes[other]));
    assert(url_index(bytes, other) == other);
    if other <= i {
        lemma_same_run(bytes, other, i);
        lemma_same_run(bytes, other + 1, i + 1);
    } else {
        lemma_same_run(bytes, i, other);
        lemma_same_run(bytes, i + 1, other + 1);
    }
    lemma_first_scheme_up_to(bytes, first, i, last, other);
}

fn url_byte(b: u8) -> (r: bool)
    ensures
        r == is_url_byte(b),
{
    match b {
        0x61..=0x7a | 0x41..=0x5a | 0x30..=0x39 => true,
        0x2d | 0x2e | 0x5f | 0x7e | 0x3a | 0x2f | 0x3f | 0x23 | 0x5b | 0x5d | 0x40 | 0x21 => true,
        0x24 | 0x26 | 0x27 | 0x28 | 0x29 | 0x2a | 0x2b | 0x2c | 0x3b | 0x3d | 0x25 => true,
        _ => false,
    }
}

fn trailing(b: u8) -> (r: bool)
    ensures
        r == is_trailing(b),
{
    match b {
        0x2e | 0x2c | 0x29 | 0x5d | 0x7d | 0x3b | 0x3a | 0x21 | 0x3f => true,
        _ => false,
    }
}

pub(crate) fn has_scheme(bytes: &[u8], at: usize, end: usize) -> (r: bool)
    requires
        at <= end <= bytes@.len(),
    ensures
        r == scheme_at(bytes@, at as int, end as int),
{
    let n: usize = end - at;
    if n >= 8 && bytes[at] == 0x68 && bytes[at + 1] == 0x74 && bytes[at + 2] == 0x74 && bytes[at
        + 3] == 0x70 && bytes[at + 4] == 0x73 && bytes[at + 5] == 0x3a && bytes[at + 6] == 0x2f
        && bytes[at + 7] == 0x2f {
        assert(bytes@.subrange(at as int, at + 8) =~= https());
        return true;
    }
    let r = n >= 7 && bytes[at] == 0x68 && bytes[at + 1] == 0x74 && bytes[at + 2] == 0x74
        && bytes[at + 3] == 0x70 && bytes[at + 4] == 0x3a && bytes[at + 5] == 0x2f && bytes[at + 6]
        == 0x2f;
    proof {
        if n >= 8 {
            let s = bytes@.subrange(at as int, at + 8);
            assert(forall|j: int| 0 <= j < 8 ==> s[j] == bytes@[at + j]);
            if s == https() {
                assert(s[0] == 0x68 && s[1] == 0x74 && s[2] == 0x74 && s[3] == 0x70 && s[4] == 0x73
                    && s[5] == 0x3a && s[6] == 0x2f && s[7] == 0x2f);
            }
        }
        if n >= 7 {
            let s = bytes@.subrange(at as int, at + 7);
            assert(forall|j: int| 0 <= j < 7 ==> s[j] == bytes@[at + j]);
            if r {
                assert(s =~= http());
            } else if s == http() {
                assert(s[0] == 0x68 && s[1] == 0x74 && s[2] == 0x74 && s[3] == 0x70 && s[4] == 0x3a
                    && s[5] == 0x2f && s[6] == 0x2f);
            }
        }
    }
    r
}

/// The run of link bytes around a position: the byte the position stands for,
/// and where the run begins and ends.
pub(crate) fn url_run(bytes: &[u8], index: usize) -> (r: Option<(usize, usize, usize)>)
    ensures
        r is Some <==> bytes@.len() > 0 && is_url_byte(bytes@[url_index(bytes@, index as int)]),
        r matches Some((i, first, last)) ==> {
            &&& i == url_index(bytes@, index as int)
            &&& first == run_first(bytes@, i as int)
            &&& last == run_last(bytes@, i + 1)
            &&& first <= i < last <= bytes@.len()
            &&& forall|j: int| first <= j < last ==> is_url_byte(#[trigger] bytes@[j])
        },
{
    if bytes.len() == 0 {
        return None;
    }
    let mut i: usize = if index < bytes.len() {
        index
    } else {
        bytes.len() - 1
    };
    if !url_byte(bytes[i]) && i > 0 && url_byte(bytes[i - 1]) {
        i = i - 1;
    }
    if !url_byte(bytes[i]) {
        return None;
    }
    let mut first: usize = i;
    while first > 0 && url_byte(bytes[first - 1])
        invariant
            first <= i < bytes@.len(),
            run_first(bytes@, i as int) == run_first(bytes@, first as int),
        decreases first,
    {
        first = first - 1;
    }
    let mut last: usize = i + 1;
    while last < bytes.len() && url_byte(bytes[last])
        invariant
            i < last <= bytes@.len(),
            run_last(bytes@, i + 1) == run_last(bytes@, last as int),
        decreases bytes@.len() - last,
    {
        last = last + 1;
    }
    proof {
        lemma_run_first(bytes@, i as int);
        lemma_run_last(bytes@, i + 1);
    }
    Some((i, first, last))
}

pub(crate) fn trim(bytes: &[u8], start: usize, end: usize) -> (r: usize)
    requires
        start <= end <= bytes@.len(),
    ensures
        r == trimmed(bytes@, start as int, end as int),
        start <= r <= end,
{
    let mut e: usize = end;
    while e > start && trailing(bytes[e - 1])
        invariant
            start <= e <= end <= bytes@.len(),
            trimmed(bytes@, start as int, end as int) == trimmed(bytes@, start as int, e as int),
        decreases e,
    {
        e = e - 1;
    }
    e
}

/// A part of a text that is all link bytes, as a string.
pub(crate) fn url_string(bytes: &[u8], start: usize, end: usize) -> (s: String)
    requires
        start <= end <= bytes@.len(),
        forall|j: int| start <= j < end ==> is_url_byte(#[trigger] bytes@[j]),
    ensures
        encode_utf8(s@) == bytes@.subrange(start as int, end as int),
{
    let part = vstd::slice::slice_subrange(bytes, start, end);
    assert forall|j: int| 0 <= j < part@.len() implies #[trigger] part@[j] < 0x80 by {
        assert(is_url_byte(bytes@[start + j]));
    }
    ascii_string(part)
}

/// The link around byte `index` of a text, if the run of link bytes there begins
/// with a scheme.
pub fn url_at_byte_index(line: &str, index: usize) -> (r: Option<String>)
    ensures
        string_bytes(r) == span_bytes(
            encode_utf8(line@),
            url_span(encode_utf8(line@), index as int),
        ),
{
    let bytes = line.as_bytes();
    match url_run(bytes, index) {
        Some((i, first, last)) => {
            let end: usize = trim(bytes, first, last);
            if has_scheme(bytes, first, end) {
                Some(url_string(bytes, first, end))
            } else {
                None
            }
        },
        None => None,
    }
}

/// The byte of a line that a column stands for: the last one where the line is
/// shorter.
pub open spec fn line_index(line: Seq<char>, col: int) -> int {
    let b = cells::column_offset(line, col) as int;
    let len = encode_utf8(line).len();
    if b < len {
        b
    } else {
        len - 1
    }
}

/// The link at column `col` of a line, counted from 1.
pub fn url_at_column_in_line(line: &str, col: u16) -> (r: Option<String>)
    ensures
        string_bytes(r) == (if line@.len() == 0 {
            None
        } else {
            span_bytes(
                encode_utf8(line@),
                url_span(encode_utf8(line@), line_index(line@, col as int)),
            )
        }),
        line@.len() > 0 && col >= 1 && cells::all_printable(line@) ==> line_index(
            line@,
            col as int,
        ) == if col <= line@.len() {
            col - 1
        } else {
            line@.len() - 1
        },
{
    if line.is_empty() {
        return None;
    }
    proof {
        text::lemma_byte_offset_mono(line@, 0, line@.len() as int);
        if cells::all_printable(line@) {
            text::lemma_ascii_offset(line@, line@.len() as int);
        }
    }
    let len: usize = line.as_bytes().len();
    let at: usize = byte_index_for_column_in_line(line, col);
    let local: usize = if at < len {
        at
    } else {
        len - 1
    };
    url_at_byte_index(line, local)
}

proof fn lemma_run_bounds(bytes: Seq<u8>, first: int, last: int, i: int)
    requires
        0 <= first <= i,
        first < last <= bytes.len(),
        i <= last || last == bytes.len(),
        first > 0 ==> !is_url_byte(bytes[first - 1]),
        last < bytes.len() ==> !is_url_byte(bytes[last]),
        forall|j: int| first <= j < last ==> is_url_byte(#[trigger] bytes[j]),
    ensures
        url_index(bytes, i) == if i < last {
            i
        } else {
            last - 1
        },
        is_url_byte(bytes[url_index(bytes, i)]),
        run_first(bytes, url_index(bytes, i)) == first,
        run_last(bytes, url_index(bytes, i) + 1) == last,
{
    assert(is_url_byte(bytes[last - 1]));
    let k = url_index(bytes, i);
    assert(is_url_byte(bytes[k]));
    lemma_same_run(bytes, first, k);
    lemma_same_run(bytes, k + 1, last);
}

proof fn lemma_trims_to(bytes: Seq<u8>, start: int, end: int, last: int)
    requires
        0 <= start < end <= last <= bytes.len(),
        !is_trailing(bytes[end - 1]),
        forall|j: int| end <= j < last ==> is_trailing(#[trigger] bytes[j]),
    ensures
        trimmed(bytes, start, last) == end,
    decreases last - end,
{
    if end < last {
        assert(is_trailing(bytes[last - 1]));
        lemma_trims_to(bytes, start, end, last - 1);
    }
}

proof fn lemma_first_scheme_is(bytes: Seq<u8>, at: int, last: int, end: int, first: int)
    requires
        at <= first <= last,
        scheme_at(bytes, first, end),
        forall|j: int| at <= j < first ==> !#[trigger] scheme_at(bytes, j, end),
    ensures
        first_scheme(bytes, at, last, end) == Some(first),
    decreases first - at,
{
    if at < first {
        assert(!scheme_at(bytes, at, end));
        lemma_first_scheme_is(bytes, at + 1, last, end, first);
    }
}

proof fn lemma_no_scheme(bytes: Seq<u8>, at: int, last: int, end: int)
    requires
        forall|j: int| at <= j <= last ==> !#[trigger] scheme_at(bytes, j, end),
    ensures
        first_scheme(bytes, at, last, end) is None,
    decreases last + 1 - at,
{
    if at <= last {
        assert(!scheme_at(bytes, at, end));
        lemma_no_scheme(bytes, at + 1, last, end);
    }
}

/// What a scheme is, byte by byte.
proof fn lemma_scheme_bytes(bytes: Seq<u8>, at: int, end: int)
    requires
        0 <= at <= end <= bytes.len(),
    ensures
        scheme_at(bytes, at, end) <==> (at + 7 <= end && bytes[at] == 0x68 && bytes[at + 1] == 0x74
            && bytes[at + 2] == 0x74 && bytes[at + 3] == 0x70 && ((bytes[at + 4] == 0x3a && bytes[at
            + 5] == 0x2f && bytes[at + 6] == 0x2f) || (at + 8 <= end && bytes[at + 4] == 0x73
            && bytes[at + 5] == 0x3a && bytes[at + 6] == 0x2f && bytes[at + 7] == 0x2f))),
{
    if at + 7 <= end {
        let s = bytes.subrange(at, at + 7);
        assert(forall|j: int| 0 <= j < 7 ==> s[j] == bytes[at + j]);
        if s == http() {
            assert(s[0] == 0x68 && s[1] == 0x74 && s[2] == 0x74 && s[3] == 0x70 && s[4] == 0x3a
                && s[5] == 0x2f && s[6] == 0x2f);
        }
        if bytes[at] == 0x68 && bytes[at + 1] == 0x74 && bytes[at + 2] == 0x74 && bytes[at + 3]
            == 0x70 && bytes[at + 4] == 0x3a && bytes[at + 5] == 0x2f && bytes[at + 6] == 0x2f {
            assert(s =~= http());
        }
    }
    if at + 8 <= end {
        let s = bytes.subrange(at, at + 8);
        assert(forall|j: int| 0 <= j < 8 ==> s[j] == bytes[at + j]);
        if s == https() {
            assert(s[0] == 0x68 && s[1] == 0x74 && s[2] == 0x74 && s[3] == 0x70 && s[4] == 0x73
                && s[5] == 0x3a && s[6] == 0x2f && s[7] == 0x2f);
        }
        if bytes[at] == 0x68 && bytes[at + 1] == 0x74 && bytes[at + 2] == 0x74 && bytes[at + 3]
            == 0x70 && bytes[at + 4] == 0x73 && bytes[at + 5] == 0x3a && bytes[at + 6] == 0x2f
            && bytes[at + 7] == 0x2f {
            assert(s =~= https());
        }
    }
}

/// A link is found whole. Where `http://` or `https://` is followed by letters of
/// either case, digits and any of `-._~:/?#[]@!$&'()*+,;=%`, from byte `start` up to
/// byte `end`, where some of `.,)];:!?` may follow up to byte `last`, and where on
/// both sides the text ends or a byte stands that is none of these, the link found
/// from each of these bytes goes from `start` to `end`: it is neither cut short nor
/// does it reach further. The byte right behind it, and any position past the end
/// of the text that it ends, still stand for it.
pub proof fn law_link_is_found_whole(bytes: Seq<u8>, start: int, end: int, last: int, index: int)
    requires
        0 <= start <= index,
        index <= last || last == bytes.len(),
        start + 7 <= end <= last <= bytes.len(),
        bytes.subrange(start, start + 7) == seq![0x68u8, 0x74, 0x74, 0x70, 0x3a, 0x2f, 0x2f] || (
        start + 8 <= end && bytes.subrange(start, start + 8) == seq![
            0x68u8,
            0x74,
            0x74,
            0x70,
            0x73,
            0x3a,
            0x2f,
            0x2f,
        ]),
        forall|j: int|
            start <= j < last ==> {
                let b = #[trigger] bytes[j];
                b == 0x21 || 0x23 <= b <= 0x3b || b == 0x3d || 0x3f <= b <= 0x5b || b == 0x5d || b
                    == 0x5f || 0x61 <= b <= 0x7a || b == 0x7e
            },
        forall|j: int|
            j == start - 1 || j == last ==> 0 <= j < bytes.len() ==> {
                let b = #[trigger] bytes[j];
                !(b == 0x21 || 0x23 <= b <= 0x3b || b == 0x3d || 0x3f <= b <= 0x5b || b == 0x5d || b
                    == 0x5f || 0x61 <= b <= 0x7a || b == 0x7e)
            },
        !(seq![0x2eu8, 0x2c, 0x29, 0x5d, 0x3b, 0x3a, 0x21, 0x3f]).contains(bytes[end - 1]),
        forall|j: int|
            end <= j < last ==> (seq![0x2eu8, 0x2c, 0x29, 0x5d, 0x3b, 0x3a, 0x21, 0x3f]).contains(
                #[trigger] bytes[j],
            ),
    ensures
        url_span(bytes, index) == Some((start, end)),
        embedded_url_span(bytes, index) == Some((start, end)),
{
    let stops = seq![0x2eu8, 0x2c, 0x29, 0x5d, 0x3b, 0x3a, 0x21, 0x3f];
    assert(start > 0 ==> !is_url_byte(bytes[start - 1]));
    assert(last < bytes.len() ==> !is_url_byte(bytes[last]));
    lemma_run_bounds(bytes, start, last, index);
    let b = bytes[end - 1];
    assert(!is_trailing(b)) by {
        assert(stops[0] == 0x2e && stops[1] == 0x2c && stops[2] == 0x29 && stops[3] == 0x5d
            && stops[4] == 0x3b && stops[5] == 0x3a && stops[6] == 0x21 && stops[7] == 0x3f);
    }
    lemma_trims_to(bytes, start, end, last);
    lemma_first_scheme_is(bytes, start, url_index(bytes, index), last, start);
}

/// Text may stand right before a link, as in `see=https://..`: from byte `start` on,
/// where the first scheme of the run of link bytes stands, the link is found; from
/// the bytes before it, none is. No link begins in the middle of a run for
/// `url_span`.
pub proof fn law_link_behind_other_text(
    bytes: Seq<u8>,
    first: int,
    start: int,
    end: int,
    last: int,
    index: int,
)
    requires
        0 <= first < start,
        first <= index,
        index <= last || last == bytes.len(),
        start + 7 <= end <= last <= bytes.len(),
        bytes.subrange(start, start + 7) == seq![0x68u8, 0x74, 0x74, 0x70, 0x3a, 0x2f, 0x2f] || (
        start + 8 <= end && bytes.subrange(start, start + 8) == seq![
            0x68u8,
            0x74,
            0x74,
            0x70,
            0x73,
            0x3a,
            0x2f,
            0x2f,
        ]),
        // No `http` stands before.
        forall|j: int|
            first <= j < start ==> !(#[trigger] bytes[j] == 0x68 && bytes[j + 1] == 0x74 && bytes[j
                + 2] == 0x74 && bytes[j + 3] == 0x70),
        forall|j: int|
            first <= j < last ==> {
                let b = #[trigger] bytes[j];
                b == 0x21 || 0x23 <= b <= 0x3b || b == 0x3d || 0x3f <= b <= 0x5b || b == 0x5d || b
                    == 0x5f || 0x61 <= b <= 0x7a || b == 0x7e
            },
        forall|j: int|
            j == first - 1 || j == last ==> 0 <= j < bytes.len() ==> {
                let b = #[trigger] bytes[j];
                !(b == 0x21 || 0x23 <= b <= 0x3b || b == 0x3d || 0x3f <= b <= 0x5b || b == 0x5d || b
                    == 0x5f || 0x61 <= b <= 0x7a || b == 0x7e)
            },
        !(seq![0x2eu8, 0x2c, 0x29, 0x5d, 0x3b, 0x3a, 0x21, 0x3f]).contains(bytes[end - 1]),
        forall|j: int|
            end <= j < last ==> (seq![0x2eu8, 0x2c, 0x29, 0x5d, 0x3b, 0x3a, 0x21, 0x3f]).contains(
                #[trigger] bytes[j],
            ),
    ensures
        url_span(bytes, index) is None,
        index >= start ==> embedded_url_span(bytes, index) == Some((start, end)),
        index < start ==> embedded_url_span(bytes, index) is None,
{
    let stops = seq![0x2eu8, 0x2c, 0x29, 0x5d, 0x3b, 0x3a, 0x21, 0x3f];
    assert(first > 0 ==> !is_url_byte(bytes[first - 1]));
    assert(last < bytes.len() ==> !is_url_byte(bytes[last]));
    lemma_run_bounds(bytes, first, last, index);
    let b = bytes[end - 1];
    assert(!is_trailing(b)) by {
        assert(stops[0] == 0x2e && stops[1] == 0x2c && stops[2] == 0x29 && stops[3] == 0x5d
            && stops[4] == 0x3b && stops[5] == 0x3a && stops[6] == 0x21 && stops[7] == 0x3f);
    }
    lemma_trims_to(bytes, start, end, last);
    assert forall|j: int| first <= j < start implies !#[trigger] scheme_at(bytes, j, last) by {
        lemma_scheme_bytes(bytes, j, last);
        assert(!(bytes[j] == 0x68 && bytes[j + 1] == 0x74 && bytes[j + 2] == 0x74 && bytes[j + 3]
            == 0x70));
    }
    lemma_trimmed(bytes, first, last);
    let cut = trimmed(bytes, first, last);
    lemma_scheme_bytes(bytes, first, cut);
    assert(!(bytes[first] == 0x68 && bytes[first + 1] == 0x74 && bytes[first + 2] == 0x74
        && bytes[first + 3] == 0x70));
    if index >= start {
        lemma_first_scheme_is(bytes, first, url_index(bytes, index), last, start);
    } else {
        lemma_no_scheme(bytes, first, url_index(bytes, index), last);
    }
}

/// A text without `http://` and `https://` holds no link.
pub proof fn law_no_scheme_no_link(bytes: Seq<u8>, index: int)
    requires
        index >= 0,
        forall|j: int|
            0 <= j && j + 7 <= bytes.len() ==> {
                &&& #[trigger] bytes.subrange(j, j + 7) != seq![
                    0x68u8,
                    0x74,
                    0x74,
                    0x70,
                    0x3a,
                    0x2f,
                    0x2f,
                ]
            },
        forall|j: int|
            0 <= j && j + 8 <= bytes.len() ==> {
                &&& #[trigger] bytes.subrange(j, j + 8) != seq![
                    0x68u8,
                    0x74,
                    0x74,
                    0x70,
                    0x73,
                    0x3a,
                    0x2f,
                    0x2f,
                ]
            },
    ensures
        url_span(bytes, index) is None,
        embedded_url_span(bytes, index) is None,
{
    law_url_span(bytes, index);
    if let Some((start, end)) = embedded_url_span(bytes, index) {
        if start + 7 <= end {
            assert(bytes.subrange(start, start + 7) != http());
        }
        if start + 8 <= end {
            assert(bytes.subrange(start, start + 8) != https());
        }
    }
    if let Some((start, end)) = url_span(bytes, index) {
        if start + 7 <= end {
            assert(bytes.subrange(start, start + 7) != http());
        }
        if start + 8 <= end {
            assert(bytes.subrange(start, start + 8) != https());
        }
    }
}

/// A span stands for the bytes from its start up to its end, and a column for the byte
/// at which its character starts, or the last byte of a line that is shorter.
pub proof fn law_spans_and_columns(bytes: Seq<u8>, start: int, end: int, line: Seq<char>, col: int)
    ensures
        span_bytes(bytes, Some((start, end))) == Some(bytes.subrange(start, end)),
        span_bytes(bytes, None) is None,
        cells::column_offset(line, col) < encode_utf8(line).len() ==> line_index(line, col)
            == cells::column_offset(line, col),
        cells::column_offset(line, col) >= encode_utf8(line).len() ==> line_index(line, col)
            == encode_utf8(line).len() - 1,
{
}

} // verus!
