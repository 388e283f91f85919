//! Links in text that the terminal wrapped: rows that are full count as continued
//! on the next row.
use std::ops::Range;
use vstd::prelude::*;
use vstd::utf8::*;
use crate::cells;
use crate::cells::{byte_index_for_column_in_line, line_columns};
use crate::text;
use crate::url;
use crate::url::{has_scheme, trim, url_run, url_string};

verus! {

/// The texts of a list of lines.
pub open spec fn texts(lines: Seq<String>) -> Seq<Seq<char>> {
    lines.map_values(|s: String| s@)
}

/// A line takes up all columns of a row.
pub open spec fn is_full(line: Seq<char>, cols: u16) -> bool {
    text::capped(cells::columns(cells::widths_of(line), line.len() as int)) >= cols
}

/// The first row of the wrapped line that `row` belongs to.
pub open spec fn first_row(lines: Seq<Seq<char>>, cols: u16, row: int) -> int
    decreases row,
{
    if row <= 0 || row > lines.len() || !is_full(lines[row - 1], cols) {
        row
    } else {
        first_row(lines, cols, row - 1)
    }
}

/// The last row of the wrapped line that `row` belongs to.
pub open spec fn last_row(lines: Seq<Seq<char>>, cols: u16, row: int) -> int
    decreases lines.len() - row,
{
    if row < 0 || row + 1 >= lines.len() || !is_full(lines[row], cols) {
        row
    } else {
        last_row(lines, cols, row + 1)
    }
}

/// The bytes of rows `a` up to, but without, `b`, one after the other.
pub open spec fn rows_bytes(lines: Seq<Seq<char>>, a: int, b: int) -> Seq<u8>
    decreases b - a,
{
    if b <= a {
        Seq::empty()
    } else {
        rows_bytes(lines, a, b - 1) + encode_utf8(lines[b - 1])
    }
}

/// The bytes of the wrapped line that `row` belongs to.
pub open spec fn wrapped_bytes(lines: Seq<Seq<char>>, cols: u16, row: int) -> Seq<u8> {
    rows_bytes(lines, first_row(lines, cols, row), last_row(lines, cols, row) + 1)
}

/// In printable ASCII, of the rows that decide how far the wrapped line of `row`
/// goes, those are full that have as many characters as the screen has columns.
pub open spec fn plain_rows_measured(lines: Seq<Seq<char>>, cols: u16, row: int) -> bool {
    forall|r: int|
        first_row(lines, cols, row) - 1 <= r <= last_row(lines, cols, row) && 0 <= r && r + 1
            < lines.len() && cells::all_printable(#[trigger] lines[r]) ==> is_full(lines[r], cols)
            == (lines[r].len() >= cols)
}

/// Where the link at a cell begins and ends in the wrapped line of its row; `row`
/// counts from 0, `col` from 1.
pub open spec fn wrapped_url_span(lines: Seq<Seq<char>>, cols: u16, row: int, col: int) -> Option<
    (int, int),
> {
    if row < 0 || row >= lines.len() || lines[row].len() == 0 {
        None
    } else {
        let before = rows_bytes(lines, first_row(lines, cols, row), row).len();
        url::embedded_url_span(
            wrapped_bytes(lines, cols, row),
            before + url::line_index(lines[row], col),
        )
    }
}

/// The part of a row that a link covers, in bytes of the row.
pub struct RowSpan {
    pub row: int,
    pub start: int,
    pub end: int,
}

/// The parts of the rows from `a` up to, but without, `b` that lie between bytes
/// `start` and `end` of these rows.
pub open spec fn row_spans(
    lines: Seq<Seq<char>>,
    a: int,
    b: int,
    start: int,
    end: int,
) -> Seq<RowSpan>
    decreases b - a,
{
    if b <= a {
        Seq::empty()
    } else {
        let before = rows_bytes(lines, a, b - 1).len() as int;
        let len = encode_utf8(lines[b - 1]).len() as int;
        let from = if start > before {
            start - before
        } else {
            0
        };
        let to = if end - before < len {
            end - before
        } else {
            len
        };
        let earlier = row_spans(lines, a, b - 1, start, end);
        if from < to {
            earlier.push(RowSpan { row: b - 1, start: from, end: to })
        } else {
            earlier
        }
    }
}

/// `spans` says the same as `model`.
pub open spec fn same_spans(spans: Seq<(usize, Range<usize>)>, model: Seq<RowSpan>) -> bool {
    &&& spans.len() == model.len()
    &&& forall|i: int|
        0 <= i < spans.len() ==> {
            &&& (#[trigger] spans[i]).0 == model[i].row
            &&& spans[i].1.start == model[i].start
            &&& spans[i].1.end == model[i].end
        }
}

/// The bytes of the parts of rows.
pub open spec fn spans_bytes(lines: Seq<Seq<char>>, spans: Seq<RowSpan>) -> Seq<u8>
    decreases spans.len(),
{
    if spans.len() == 0 {
        Seq::empty()
    } else {
        let s = spans.last();
        spans_bytes(lines, spans.drop_last()) + encode_utf8(lines[s.row]).subrange(s.start, s.end)
    }
}

proof fn lemma_first_row(lines: Seq<Seq<char>>, cols: u16, row: int)
    requires
        0 <= row <= lines.len(),
    ensures
        0 <= first_row(lines, cols, row) <= row,
    decreases row,
{
    if row > 0 && is_full(lines[row - 1], cols) {
        lemma_first_row(lines, cols, row - 1);
    }
}

proof fn lemma_last_row(lines: Seq<Seq<char>>, cols: u16, row: int)
    requires
        0 <= row < lines.len(),
    ensures
        row <= last_row(lines, cols, row) < lines.len(),
    decreases lines.len() - row,
{
    if row + 1 < lines.len() && is_full(lines[row], cols) {
        lemma_last_row(lines, cols, row + 1);
    }
}

proof fn lemma_rows_prefix(lines: Seq<Seq<char>>, a: int, b: int, c: int)
    requires
        a <= b <= c,
    ensures
        rows_bytes(lines, a, b).len() <= rows_bytes(lines, a, c).len(),
        rows_bytes(lines, a, c).take(rows_bytes(lines, a, b).len() as int) == rows_bytes(
            lines,
            a,
            b,
        ),
    decreases c - b,
{
    let head = rows_bytes(lines, a, b);
    if b < c {
        lemma_rows_prefix(lines, a, b, c - 1);
        let all = rows_bytes(lines, a, c);
        let less = rows_bytes(lines, a, c - 1);
        assert(all.take(head.len() as int) =~= less.take(head.len() as int));
    } else {
        assert(head.take(head.len() as int) =~= head);
    }
}

/// The parts of the rows that a link covers, put together, are the link.
pub proof fn law_row_spans_make_the_link(
    lines: Seq<Seq<char>>,
    a: int,
    b: int,
    start: int,
    end: int,
)
    requires
        0 <= a <= b <= lines.len(),
        0 <= start <= end <= rows_bytes(lines, a, b).len(),
    ensures
        spans_bytes(lines, row_spans(lines, a, b, start, end)) == rows_bytes(lines, a, b).subrange(
            start,
            end,
        ),
    decreases b - a,
{
    let all = rows_bytes(lines, a, b);
    if a == b {
        assert(all.subrange(start, end) =~= Seq::<u8>::empty());
    } else {
        let less = rows_bytes(lines, a, b - 1);
        let row = encode_utf8(lines[b - 1]);
        let n = less.len() as int;
        let from = if start > n {
            start - n
        } else {
            0
        };
        let to = if end - n < row.len() {
            end - n
        } else {
            row.len() as int
        };
        let s = if start < n {
            start
        } else {
            n
        };
        let e = if end < n {
            end
        } else {
            n
        };
        law_row_spans_make_the_link(lines, a, b - 1, s, e);
        lemma_row_spans_clip(lines, a, b - 1, start, end, s, e);
        let earlier = row_spans(lines, a, b - 1, start, end);
        let spans = row_spans(lines, a, b, start, end);
        if from < to {
            assert(spans.drop_last() =~= earlier);
            assert(all.subrange(start, end) =~= less.subrange(s, e) + row.subrange(from, to));
        } else {
            assert(all.subrange(start, end) =~= less.subrange(s, e));
        }
    }
}

proof fn lemma_row_spans_clip(
    lines: Seq<Seq<char>>,
    a: int,
    b: int,
    start: int,
    end: int,
    s: int,
    e: int,
)
    requires
        a <= b,
        s == start || (s <= start && s >= rows_bytes(lines, a, b).len()),
        e == end || (e <= end && e >= rows_bytes(lines, a, b).len()),
    ensures
        row_spans(lines, a, b, start, end) == row_spans(lines, a, b, s, e),
    decreases b - a,
{
    if a < b {
        lemma_rows_prefix(lines, a, b - 1, b);
        lemma_row_spans_clip(lines, a, b - 1, start, end, s, e);
    }
}

/// A wrapped line, put together: its rows, its bytes, and where in them each row
/// begins.
struct Wrapped {
    first: usize,
    bytes: Vec<u8>,
    starts: Vec<usize>,
}

/// Puts together the wrapped line that `row` belongs to.
fn wrapped_line(lines: &[String], cols: u16, row: usize) -> (w: Wrapped)
    requires
        row < lines@.len(),
    ensures
        w.first == first_row(texts(lines@), cols, row as int),
        w.first <= row,
        w.bytes@ == wrapped_bytes(texts(lines@), cols, row as int),
        w.first + w.starts@.len() == last_row(texts(lines@), cols, row as int) + 1,
        row < w.first + w.starts@.len() <= lines@.len(),
        plain_rows_measured(texts(lines@), cols, row as int),
        forall|i: int|
            0 <= i < w.starts@.len() ==> #[trigger] w.starts@[i] == rows_bytes(
                texts(lines@),
                w.first as int,
                w.first + i,
            ).len(),
{
    let ghost ts = texts(lines@);
    let mut first: usize = row;
    while first > 0 && line_columns(lines[first - 1].as_str()) >= cols as usize
        invariant
            ts == texts(lines@),
            first <= row < lines@.len(),
            first_row(ts, cols, row as int) == first_row(ts, cols, first as int),
            forall|r: int|
                first <= r < row && cells::all_printable(#[trigger] ts[r]) ==> is_full(ts[r], cols)
                    == (ts[r].len() >= cols),
        decreases first,
    {
        first = first - 1;
    }
    assert(first > 0 && cells::all_printable(ts[first - 1]) ==> is_full(ts[first - 1], cols) == (
    ts[first - 1].len() >= cols));
    let mut last: usize = row;
    while lines.len() - last > 1 && line_columns(lines[last].as_str()) >= cols as usize
        invariant
            ts == texts(lines@),
            row <= last < lines@.len(),
            last_row(ts, cols, row as int) == last_row(ts, cols, last as int),
            forall|r: int|
                row <= r < last && cells::all_printable(#[trigger] ts[r]) ==> is_full(ts[r], cols)
                    == (ts[r].len() >= cols),
        decreases lines@.len() - last,
    {
        last = last + 1;
    }
    assert(plain_rows_measured(ts, cols, row as int));
    let mut bytes: Vec<u8> = Vec::new();
    let mut starts: Vec<usize> = Vec::new();
    let count: usize = lines.len();
    let mut i: usize = first;
    assert(bytes@ =~= rows_bytes(ts, first as int, first as int));
    while i <= last
        invariant
            ts == texts(lines@),
            count == lines@.len(),
            first <= i <= last + 1 <= count,
            bytes@ == rows_bytes(ts, first as int, i as int),
            starts@.len() == i - first,
            forall|j: int|
                0 <= j < starts@.len() ==> #[trigger] starts@[j] == rows_bytes(
                    ts,
                    first as int,
                    first + j,
                ).len(),
        decreases last + 1 - i,
    {
        starts.push(bytes.len());
        let ghost before = bytes@;
        bytes.extend_from_slice(lines[i].as_str().as_bytes());
        assert(bytes@ =~= before + encode_utf8(ts[i as int]));
        i = i + 1;
    }
    Wrapped { first, bytes, starts }
}

/// The link at a cell, with the parts of the rows that it covers; `row` counts
/// from 0, `col` from 1.
pub fn url_spans_at_cell_in_wrapped_lines(
    lines: &[String],
    cols: u16,
    row: usize,
    col: u16,
) -> (r: Option<(String, Vec<(usize, Range<usize>)>)>)
    ensures
        r is Some <==> wrapped_url_span(texts(lines@), cols, row as int, col as int) is Some,
        r matches Some((link, spans)) ==> {
            let ts = texts(lines@);
            let (start, end) = wrapped_url_span(ts, cols, row as int, col as int).unwrap();
            &&& encode_utf8(link@) == wrapped_bytes(ts, cols, row as int).subrange(start, end)
            &&& same_spans(
                spans@,
                row_spans(
                    ts,
                    first_row(ts, cols, row as int),
                    last_row(ts, cols, row as int) + 1,
                    start,
                    end,
                ),
            )
        },
        row < lines@.len() && lines@[row as int]@.len() > 0 ==> plain_rows_measured(
            texts(lines@),
            cols,
            row as int,
        ) && (cells::all_printable(lines@[row as int]@) ==> cells::columns_are_bytes(
            lines@[row as int]@,
        )),
{
    if row >= lines.len() || lines[row].as_str().is_empty() {
        return None;
    }
    let ghost ts = texts(lines@);
    let line = lines[row].as_str();
    let w = wrapped_line(lines, cols, row);
    proof {
        text::lemma_byte_offset_mono(line@, 0, line@.len() as int);
        lemma_rows_prefix(ts, w.first as int, row as int, row + 1);
        lemma_rows_prefix(ts, w.first as int, row + 1, last_row(ts, cols, row as int) + 1);
    }
    let len: usize = line.as_bytes().len();
    let at: usize = byte_index_for_column_in_line(line, col);
    let local: usize = if at < len {
        at
    } else {
        len - 1
    };
    let before: usize = w.starts[row - w.first];
    let bytes = w.bytes.as_slice();
    let total: usize = bytes.len();
    assert(before + len <= total);
    match url_run(bytes, before + local) {
        Some((i, first, last)) => {
            let mut start: usize = first;
            while start <= i && !has_scheme(bytes, start, last)
                invariant
                    bytes@ == w.bytes@,
                    first <= start <= i + 1 <= last <= bytes@.len(),
                    url::first_scheme(bytes@, first as int, i as int, last as int)
                        == url::first_scheme(bytes@, start as int, i as int, last as int),
                decreases i + 1 - start,
            {
                start = start + 1;
            }
            if start > i {
                return None;
            }
            let end: usize = trim(bytes, start, last);
            let link = url_string(bytes, start, end);
            let mut spans: Vec<(usize, Range<usize>)> = Vec::new();
            let count: usize = lines.len();
            let mut k: usize = 0;
            while k < w.starts.len()
                invariant
                    ts == texts(lines@),
                    count == lines@.len(),
                    k <= w.starts@.len(),
                    w.first + w.starts@.len() <= lines@.len(),
                    forall|j: int|
                        0 <= j < w.starts@.len() ==> #[trigger] w.starts@[j] == rows_bytes(
                            ts,
                            w.first as int,
                            w.first + j,
                        ).len(),
                    same_spans(
                        spans@,
                        row_spans(ts, w.first as int, w.first + k, start as int, end as int),
                    ),
                decreases w.starts@.len() - k,
            {
                let this: usize = w.first + k;
                let row_start: usize = w.starts[k];
                let row_len: usize = lines[this].as_str().as_bytes().len();
                assert(row_len == encode_utf8(ts[this as int]).len());
                let from: usize = if start > row_start {
                    start - row_start
                } else {
                    0
                };
                let to: usize = if end <= row_start {
                    0
                } else if end - row_start < row_len {
                    end - row_start
                } else {
                    row_len
                };
                if from < to {
                    spans.push((this, from..to));
                }
                k = k + 1;
            }
            Some((link, spans))
        },
        None => None,
    }
}

/// The link at a cell; `row` counts from 0, `col` from 1.
pub fn url_at_cell_in_wrapped_lines(lines: &[String], cols: u16, row: usize, col: u16) -> (r:
    Option<String>)
    ensures
        url::string_bytes(r) == url::span_bytes(
            wrapped_bytes(texts(lines@), cols, row as int),
            wrapped_url_span(texts(lines@), cols, row as int, col as int),
        ),
        row < lines@.len() && lines@[row as int]@.len() > 0 ==> plain_rows_measured(
            texts(lines@),
            cols,
            row as int,
        ) && (cells::all_printable(lines@[row as int]@) ==> cells::columns_are_bytes(
            lines@[row as int]@,
        )),
{
    match url_spans_at_cell_in_wrapped_lines(lines, cols, row, col) {
        Some((link, _)) => Some(link),
        None => None,
    }
}

/// On a row that is not wrapped, a link that is found in the line alone is found
/// here too.
pub proof fn law_unwrapped_row(lines: Seq<Seq<char>>, cols: u16, row: int, col: int)
    requires
        0 <= row < lines.len(),
        lines[row].len() > 0,
        row > 0 ==> !is_full(lines[row - 1], cols),
        !is_full(lines[row], cols) || row + 1 == lines.len(),
        url::url_span(encode_utf8(lines[row]), url::line_index(lines[row], col)) is Some,
    ensures
        wrapped_bytes(lines, cols, row) == encode_utf8(lines[row]),
        wrapped_url_span(lines, cols, row, col) == url::url_span(
            encode_utf8(lines[row]),
            url::line_index(lines[row], col),
        ),
{
    assert(rows_bytes(lines, row, row) =~= Seq::<u8>::empty());
    assert(rows_bytes(lines, row, row + 1) =~= encode_utf8(lines[row]));
    text::lemma_byte_offset_mono(lines[row], 0, lines[row].len() as int);
    url::law_embedded_extends_plain(
        encode_utf8(lines[row]),
        url::line_index(lines[row], col),
    );
}

/// The rows of a wrapped line belong to the same one.
proof fn lemma_same_wrapped_line(lines: Seq<Seq<char>>, cols: u16, row: int, other: int)
    requires
        0 <= row < lines.len(),
        first_row(lines, cols, row) <= other <= last_row(lines, cols, row),
    ensures
        first_row(lines, cols, other) == first_row(lines, cols, row),
        last_row(lines, cols, other) == last_row(lines, cols, row),
    decreases if other < row {
        row - other
    } else {
        other - row
    },
{
    lemma_first_row(lines, cols, row);
    lemma_last_row(lines, cols, row);
    if other < row {
        lemma_last_row(lines, cols, row - 1);
        lemma_same_wrapped_line(lines, cols, row - 1, other);
    } else if other > row {
        lemma_first_row(lines, cols, row + 1);
        lemma_same_wrapped_line(lines, cols, row + 1, other);
    }
}

/// A link that is wrapped over rows is the same wherever it is looked at: from each
/// cell whose text is part of it, on whichever of its rows, the same one is found.
pub proof fn law_same_link_from_every_row(
    lines: Seq<Seq<char>>,
    cols: u16,
    row: int,
    col: int,
    other_row: int,
    other_col: int,
)
    requires
        first_row(lines, cols, row) <= other_row <= last_row(lines, cols, row),
        lines[other_row].len() > 0,
        wrapped_url_span(lines, cols, row, col) matches Some((start, end)) && start <= rows_bytes(
            lines,
            first_row(lines, cols, row),
            other_row,
        ).len() + url::line_index(lines[other_row], other_col) < end,
    ensures
        wrapped_bytes(lines, cols, other_row) == wrapped_bytes(lines, cols, row),
        wrapped_url_span(lines, cols, other_row, other_col) == wrapped_url_span(
            lines,
            cols,
            row,
            col,
        ),
{
    lemma_first_row(lines, cols, row);
    lemma_last_row(lines, cols, row);
    lemma_same_wrapped_line(lines, cols, row, other_row);
    text::lemma_byte_offset_mono(lines[row], 0, lines[row].len() as int);
    let first = first_row(lines, cols, row);
    url::law_same_link_from_every_byte(
        wrapped_bytes(lines, cols, row),
        rows_bytes(lines, first, row).len() + url::line_index(lines[row], col),
        rows_bytes(lines, first, other_row).len() + url::line_index(lines[other_row], other_col),
    );
}

/// A wrapped line reaches from row `a` to row `b` where the rows from `a` on are full up
/// to `b`, the row before `a` is not, and `b` is not, or is the last row. From each of
/// its rows the same line is found: its rows, one after the other.
pub proof fn law_wrapped_line_is_its_full_rows(
    lines: Seq<Seq<char>>,
    cols: u16,
    a: int,
    b: int,
    row: int,
)
    requires
        0 <= a <= row <= b < lines.len(),
        forall|r: int|
            a <= r < b ==> cells::columns(
                cells::widths_of(#[trigger] lines[r]),
                lines[r].len() as int,
            ) >= cols,
        a > 0 ==> cells::columns(cells::widths_of(lines[a - 1]), lines[a - 1].len() as int) < cols,
        b + 1 < lines.len() ==> cells::columns(cells::widths_of(lines[b]), lines[b].len() as int)
            < cols,
    ensures
        first_row(lines, cols, row) == a,
        last_row(lines, cols, row) == b,
        wrapped_bytes(lines, cols, row) == rows_bytes(lines, a, b + 1),
{
    assert forall|r: int| a <= r < b implies is_full(#[trigger] lines[r], cols) by {}
    lemma_first_row_is(lines, cols, a, row);
    lemma_last_row_is(lines, cols, b, row);
}

proof fn lemma_first_row_is(lines: Seq<Seq<char>>, cols: u16, a: int, row: int)
    requires
        0 <= a <= row < lines.len(),
        forall|r: int| a <= r < row ==> is_full(#[trigger] lines[r], cols),
        a > 0 ==> !is_full(lines[a - 1], cols),
    ensures
        first_row(lines, cols, row) == a,
    decreases row - a,
{
    if row > a {
        assert(is_full(lines[row - 1], cols));
        lemma_first_row_is(lines, cols, a, row - 1);
    }
}

proof fn lemma_last_row_is(lines: Seq<Seq<char>>, cols: u16, b: int, row: int)
    requires
        0 <= row <= b < lines.len(),
        forall|r: int| row <= r < b ==> is_full(#[trigger] lines[r], cols),
        b + 1 < lines.len() ==> !is_full(lines[b], cols),
    ensures
        last_row(lines, cols, row) == b,
    decreases b - row,
{
    if row < b {
        assert(is_full(lines[row], cols));
        lemma_last_row_is(lines, cols, b, row + 1);
    }
}

/// The bytes of rows are those of each row, one after the other, with nothing between
/// them.
pub proof fn law_rows_follow_one_another(lines: Seq<Seq<char>>, a: int, b: int, row: int)
    requires
        0 <= a <= row < b <= lines.len(),
    ensures
        rows_bytes(lines, a, a).len() == 0,
        rows_bytes(lines, a, row + 1) == rows_bytes(lines, a, row) + encode_utf8(lines[row]),
        rows_bytes(lines, a, b) == rows_bytes(lines, a, row) + rows_bytes(lines, row, b),
    decreases b - row,
{
    if row + 1 == b {
        assert(rows_bytes(lines, row, row) =~= Seq::<u8>::empty());
        assert(rows_bytes(lines, a, b) =~= rows_bytes(lines, a, row) + rows_bytes(lines, row, b));
    } else {
        law_rows_follow_one_another(lines, a, b - 1, row);
        assert(rows_bytes(lines, a, b) =~= rows_bytes(lines, a, row) + rows_bytes(lines, row, b));
    }
}

/// A link that goes over the end of a full row is found whole. Where the wrapped line
/// that a cell belongs to holds `http://` or `https://` at byte `start`, then letters of
/// either case, digits and any of `-._~:/?#[]@!$&'()*+,;=%` up to byte `end`, with a
/// byte that is none of these, or nothing, on both sides, and the last byte is none of
/// `.,)];:!?`, the link found from each cell whose text is part of it is these bytes.
pub proof fn law_wrapped_link_is_found_whole(
    lines: Seq<Seq<char>>,
    cols: u16,
    row: int,
    col: int,
    start: int,
    end: int,
)
    requires
        0 <= row < lines.len(),
        lines[row].len() > 0,
        ({
            let bytes = wrapped_bytes(lines, cols, row);
            let index = rows_bytes(lines, first_row(lines, cols, row), row).len() + url::line_index(
                lines[row],
                col,
            );
            &&& 0 <= start <= index < end <= bytes.len()
            &&& start + 7 <= end
            &&& bytes.subrange(start, start + 7) == seq![
                0x68u8,
                0x74,
                0x74,
                0x70,
                0x3a,
                0x2f,
                0x2f,
            ] || (start + 8 <= end && bytes.subrange(start, start + 8) == seq![
                0x68u8,
                0x74,
                0x74,
                0x70,
                0x73,
                0x3a,
                0x2f,
                0x2f,
            ])
            &&& forall|j: int|
                start <= j < end ==> {
                    let b = #[trigger] bytes[j];
                    b == 0x21 || 0x23 <= b <= 0x3b || b == 0x3d || 0x3f <= b <= 0x5b || b == 0x5d
                        || b == 0x5f || 0x61 <= b <= 0x7a || b == 0x7e
                }
            &&& forall|j: int|
                j == start - 1 || j == end ==> 0 <= j < bytes.len() ==> {
                    let b = #[trigger] bytes[j];
                    !(b == 0x21 || 0x23 <= b <= 0x3b || b == 0x3d || 0x3f <= b <= 0x5b || b == 0x5d
                        || b == 0x5f || 0x61 <= b <= 0x7a || b == 0x7e)
                }
            &&& !(seq![0x2eu8, 0x2c, 0x29, 0x5d, 0x3b, 0x3a, 0x21, 0x3f]).contains(bytes[end - 1])
        }),
    ensures
        wrapped_url_span(lines, cols, row, col) == Some((start, end)),
{
    let bytes = wrapped_bytes(lines, cols, row);
    let index = rows_bytes(lines, first_row(lines, cols, row), row).len() + url::line_index(
        lines[row],
        col,
    );
    url::law_link_is_found_whole(bytes, start, end, end, index);
}

/// There is no link on an empty row, nor outside the lines.
pub proof fn law_no_link_without_text(lines: Seq<Seq<char>>, cols: u16, row: int, col: int)
    requires
        row < 0 || row >= lines.len() || lines[row].len() == 0,
    ensures
        wrapped_url_span(lines, cols, row, col) is None,
{
}

/// The parts of the rows that a link covers come one for each row, in order, and none
/// of them is empty.
pub proof fn law_row_spans_in_order(
    lines: Seq<Seq<char>>,
    a: int,
    b: int,
    start: int,
    end: int,
    i: int,
)
    requires
        0 <= a <= b <= lines.len(),
        0 <= i < row_spans(lines, a, b, start, end).len(),
    ensures
        ({
            let spans = row_spans(lines, a, b, start, end);
            let s = spans[i];
            &&& a <= s.row < b
            &&& 0 <= s.start < s.end <= encode_utf8(lines[s.row]).len()
            &&& i > 0 ==> spans[i - 1].row < s.row
        }),
    decreases b - a,
{
    let earlier = row_spans(lines, a, b - 1, start, end);
    if i < earlier.len() {
        law_row_spans_in_order(lines, a, b - 1, start, end, i);
    } else if i > 0 {
        law_row_spans_in_order(lines, a, b - 1, start, end, i - 1);
    }
}

/// Spans that stand for others have their rows, their starts and their ends.
pub proof fn law_same_spans(spans: Seq<(usize, Range<usize>)>, model: Seq<RowSpan>, i: int)
    requires
        same_spans(spans, model),
        0 <= i < model.len(),
    ensures
        spans.len() == model.len(),
        spans[i].0 == model[i].row,
        spans[i].1.start == model[i].start,
        spans[i].1.end == model[i].end,
{
    assert(spans[i].0 == model[i].row);
}

} // verus!
