//! The text of the screen as lines, and positions in it.
//!
//! A position counts bytes through all lines, each line followed by a line
//! break.
use vstd::prelude::*;
use vstd::utf8::*;
use crate::cells;
use crate::cells::byte_index_for_column_in_line;
use crate::text;
use crate::text::{byte_len, chars_of, text_slice};
use crate::url;
use crate::url::url_at_byte_index;
use crate::wrap;

verus! {

/// `chars` cut at every line break.
pub open spec fn split_lines(chars: Seq<char>) -> Seq<Seq<char>>
    decreases chars.len(),
{
    if chars.len() == 0 {
        seq![Seq::empty()]
    } else {
        let before = split_lines(chars.drop_last());
        if chars.last() == '\n' {
            before.push(Seq::empty())
        } else {
            before.drop_last().push(before.last().push(chars.last()))
        }
    }
}

/// `chars` without the line break at its end, if there is one.
pub open spec fn without_newline(chars: Seq<char>) -> Seq<char> {
    if chars.len() > 0 && chars.last() == '\n' {
        chars.drop_last()
    } else {
        chars
    }
}

/// The lines of a screen's text; none where it is empty.
pub open spec fn screen_lines(screen: Seq<char>) -> Seq<Seq<char>> {
    let body = without_newline(screen);
    if body.len() == 0 {
        Seq::empty()
    } else {
        split_lines(body)
    }
}

/// All lines, each followed by a line break.
pub open spec fn joined(lines: Seq<Seq<char>>) -> Seq<char>
    decreases lines.len(),
{
    if lines.len() == 0 {
        Seq::empty()
    } else {
        joined(lines.drop_last()) + lines.last().push('\n')
    }
}

/// The bytes of the first `k` lines, each with its line break.
pub open spec fn line_start(lines: Seq<Seq<char>>, k: int) -> nat
    decreases k,
{
    if k <= 0 || k > lines.len() {
        0
    } else {
        line_start(lines, k - 1) + encode_utf8(lines[k - 1]).len() + 1
    }
}

/// The position at which line `k` starts, as it is kept.
pub open spec fn kept_start(lines: Seq<Seq<char>>, k: int) -> usize {
    text::capped(line_start(lines, k))
}

/// The bytes of all lines together, as they are kept.
pub open spec fn kept_total(lines: Seq<Seq<char>>) -> usize {
    kept_start(lines, lines.len() as int)
}

pub proof fn lemma_line_start_mono(lines: Seq<Seq<char>>, j: int, k: int)
    requires
        0 <= j <= k <= lines.len(),
    ensures
        line_start(lines, j) <= line_start(lines, k),
        kept_start(lines, j) <= kept_start(lines, k),
    decreases k - j,
{
    if j < k {
        lemma_line_start_mono(lines, j, k - 1);
    }
}

proof fn lemma_split_nonempty(chars: Seq<char>)
    ensures
        split_lines(chars).len() > 0,
    decreases chars.len(),
{
    if chars.len() > 0 {
        lemma_split_nonempty(chars.drop_last());
    }
}

/// The first `n` of `chars`, cut at every line break.
fn split_chars(chars: &Vec<char>, n: usize) -> (lines: Vec<String>)
    requires
        n <= chars@.len(),
    ensures
        wrap::texts(lines@) == split_lines(chars@.take(n as int)),
{
    let ghost body = chars@.take(n as int);
    let mut lines: Vec<String> = Vec::new();
    let mut line = String::new();
    let mut i: usize = 0;
    assert(body.take(0) =~= Seq::<char>::empty());
    assert(wrap::texts(lines@).push(line@) =~= split_lines(body.take(0)));
    while i < n
        invariant
            n <= chars@.len(),
            body == chars@.take(n as int),
            i <= n,
            wrap::texts(lines@).push(line@) == split_lines(body.take(i as int)),
        decreases n - i,
    {
        let c = chars[i];
        let ghost before = wrap::texts(lines@);
        let ghost old_line = line@;
        assert(body.take(i + 1).drop_last() =~= body.take(i as int));
        assert(body.take(i + 1).last() == c);
        assert(before.push(old_line).drop_last() =~= before);
        if c == '\n' {
            lines.push(line);
            line = String::new();
            assert(wrap::texts(lines@) =~= before.push(old_line));
        } else {
            line.push(c);
        }
        assert(wrap::texts(lines@).push(line@) =~= split_lines(body.take(i + 1)));
        i = i + 1;
    }
    let ghost before = wrap::texts(lines@);
    let ghost last = line@;
    lines.push(line);
    assert(wrap::texts(lines@) =~= before.push(last));
    assert(body.take(n as int) =~= body);
    lines
}

/// The lines of a screen's text, without the line break at its end.
pub fn split_viewport_lines(viewport: &str) -> (lines: Vec<String>)
    ensures
        wrap::texts(lines@) == screen_lines(viewport@),
{
    let chars = chars_of(viewport);
    let mut n: usize = chars.len();
    if n > 0 && chars[n - 1] == '\n' {
        n = n - 1;
    }
    assert(without_newline(viewport@) =~= viewport@.take(n as int));
    if n == 0 {
        let lines: Vec<String> = Vec::new();
        assert(wrap::texts(lines@) =~= Seq::<Seq<char>>::empty());
        return lines;
    }
    split_chars(&chars, n)
}

/// The lines, put together again, are the screen's text, which may have left out
/// its last line break.
pub proof fn law_lines_make_the_screen(screen: Seq<char>)
    ensures
        joined(screen_lines(screen)) == if without_newline(screen).len() == 0 {
            Seq::empty()
        } else {
            without_newline(screen).push('\n')
        },
{
    let body = without_newline(screen);
    if body.len() > 0 {
        lemma_split_joined(body);
    }
}

proof fn lemma_split_joined(chars: Seq<char>)
    ensures
        joined(split_lines(chars)) == chars.push('\n'),
    decreases chars.len(),
{
    let lines = split_lines(chars);
    lemma_split_nonempty(chars);
    if chars.len() == 0 {
        assert(joined(lines.drop_last()) =~= Seq::<char>::empty());
        assert(joined(lines) =~= chars.push('\n'));
    } else {
        let rest = chars.drop_last();
        let before = split_lines(rest);
        lemma_split_nonempty(rest);
        lemma_split_joined(rest);
        assert(lines.drop_last() =~= if chars.last() == '\n' {
            before
        } else {
            before.drop_last()
        });
        if chars.last() == '\n' {
            assert(joined(lines) =~= chars.push('\n'));
        } else {
            let a = joined(before.drop_last());
            let l = before.last();
            assert(a + l.push('\n') == rest.push('\n'));
            assert((a + l).push('\n') =~= a + l.push('\n'));
            assert(a + l =~= rest) by {
                assert((a + l).push('\n').drop_last() =~= a + l);
                assert(rest.push('\n').drop_last() =~= rest);
            }
            assert(joined(lines) =~= (a + l).push(chars.last()).push('\n'));
            assert(joined(lines) =~= chars.push('\n'));
        }
    }
}

/// The bytes of the joined lines are counted by their starts.
pub proof fn lemma_joined_len(lines: Seq<Seq<char>>)
    ensures
        encode_utf8(joined(lines)).len() == line_start(lines, lines.len() as int),
    decreases lines.len(),
{
    if lines.len() > 0 {
        let less = lines.drop_last();
        lemma_joined_len(less);
        lemma_line_start_prefix(lines, less.len() as int);
        text::lemma_encode_concat(joined(less), lines.last().push('\n'));
        text::lemma_encode_push(lines.last(), '\n');
        lemma_newline_width();
    }
}

proof fn lemma_newline_width()
    ensures
        encode_scalar('\n' as u32).len() == 1,
{
}

proof fn lemma_line_start_prefix(lines: Seq<Seq<char>>, k: int)
    requires
        0 <= k <= lines.len(),
    ensures
        forall|j: int| 0 <= j <= k ==> #[trigger] line_start(lines.take(k), j) == line_start(lines, j),
        lines.len() > 0 && k == lines.len() - 1 ==> lines.drop_last() == lines.take(k),
{
    if lines.len() > 0 && k == lines.len() - 1 {
        assert(lines.drop_last() =~= lines.take(k));
    }
    assert forall|j: int| 0 <= j <= k implies #[trigger] line_start(lines.take(k), j) == line_start(
        lines,
        j,
    ) by {
        lemma_line_start_take(lines, k, j);
    }
}

proof fn lemma_line_start_take(lines: Seq<Seq<char>>, k: int, j: int)
    requires
        0 <= j <= k <= lines.len(),
    ensures
        line_start(lines.take(k), j) == line_start(lines, j),
    decreases j,
{
    if j > 0 {
        lemma_line_start_take(lines, k, j - 1);
    }
}

/// The positions at which lines start.
pub fn compute_viewport_line_offsets(lines: &Vec<String>) -> (offsets: Vec<usize>)
    ensures
        offsets@.len() == lines@.len(),
        forall|i: int|
            0 <= i < offsets@.len() ==> #[trigger] offsets@[i] == kept_start(
                wrap::texts(lines@),
                i,
            ),
{
    let ghost ts = wrap::texts(lines@);
    let mut offsets: Vec<usize> = Vec::new();
    let mut offset: usize = 0;
    let mut i: usize = 0;
    while i < lines.len()
        invariant
            ts == wrap::texts(lines@),
            i <= lines@.len(),
            offsets@.len() == i,
            offset == kept_start(ts, i as int),
            forall|j: int| 0 <= j < i ==> #[trigger] offsets@[j] == kept_start(ts, j),
        decreases lines@.len() - i,
    {
        offsets.push(offset);
        let len: usize = byte_len(lines[i].as_str());
        assert(len == encode_utf8(ts[i as int]).len());
        offset = offset.saturating_add(len).saturating_add(1);
        i = i + 1;
    }
    offsets
}

/// The bytes of all lines together, each with its line break.
pub fn compute_viewport_total_len(lines: &Vec<String>) -> (total: usize)
    ensures
        total == kept_total(wrap::texts(lines@)),
{
    let ghost ts = wrap::texts(lines@);
    let mut total: usize = 0;
    let mut i: usize = 0;
    while i < lines.len()
        invariant
            ts == wrap::texts(lines@),
            i <= lines@.len(),
            total == kept_start(ts, i as int),
        decreases lines@.len() - i,
    {
        let len: usize = byte_len(lines[i].as_str());
        assert(len == encode_utf8(ts[i as int]).len());
        total = total.saturating_add(len).saturating_add(1);
        i = i + 1;
    }
    total
}

/// The part of a line that starts at position `at` and of its line break that
/// lies between positions `start` and `end`. Where `start` or `end` cuts a
/// character of the line, its text is left out.
pub open spec fn line_part(line: Seq<char>, at: int, start: int, end: int) -> Seq<char> {
    let len = encode_utf8(line).len() as int;
    let from = if start > at {
        start - at
    } else {
        0
    };
    let to = if end - at < len + 1 {
        end - at
    } else {
        len + 1
    };
    let upto = if to < len {
        to
    } else {
        len
    };
    let shown = if from < to && from < len {
        match text::sub_text(line, from, upto) {
            Some(t) => t,
            None => Seq::empty(),
        }
    } else {
        Seq::empty()
    };
    if from < to && to > len {
        shown.push('\n')
    } else {
        shown
    }
}

/// The text of the first `k` lines that lies between positions `start` and
/// `end`.
pub open spec fn lines_part(lines: Seq<Seq<char>>, start: int, end: int, k: int) -> Seq<char>
    decreases k,
{
    if k <= 0 || k > lines.len() {
        Seq::empty()
    } else {
        lines_part(lines, start, end, k - 1) + line_part(
            lines[k - 1],
            kept_start(lines, k - 1) as int,
            start,
            end,
        )
    }
}

/// The text of the lines that lies between positions `start` and `end`; what is
/// past the end of the text does not count.
pub open spec fn slice_of(lines: Seq<Seq<char>>, start: int, end: int) -> Seq<char> {
    let total = kept_total(lines) as int;
    let s = if start < total {
        start
    } else {
        total
    };
    let e = if end < total {
        end
    } else {
        total
    };
    if start >= end || s >= e {
        Seq::empty()
    } else {
        lines_part(lines, s, e, lines.len() as int)
    }
}

/// The text of the lines that lies between positions `start` and `end`.
pub fn slice_lines(
    lines: &Vec<String>,
    offsets: &Vec<usize>,
    total: usize,
    start: usize,
    end: usize,
) -> (out: String)
    requires
        offsets@.len() == lines@.len(),
        forall|i: int|
            0 <= i < offsets@.len() ==> #[trigger] offsets@[i] == kept_start(
                wrap::texts(lines@),
                i,
            ),
        total == kept_total(wrap::texts(lines@)),
    ensures
        out@ == slice_of(wrap::texts(lines@), start as int, end as int),
{
    let ghost ts = wrap::texts(lines@);
    let mut out = String::new();
    if start >= end || lines.len() == 0 {
        assert(out@ =~= slice_of(ts, start as int, end as int));
        return out;
    }
    let s: usize = if start < total {
        start
    } else {
        total
    };
    let e: usize = if end < total {
        end
    } else {
        total
    };
    if s >= e {
        return out;
    }
    let mut i: usize = 0;
    while i < lines.len()
        invariant
            ts == wrap::texts(lines@),
            offsets@.len() == lines@.len(),
            forall|j: int|
                0 <= j < offsets@.len() ==> #[trigger] offsets@[j] == kept_start(ts, j),
            s < e,
            i <= lines@.len(),
            out@ == lines_part(ts, s as int, e as int, i as int),
        decreases lines@.len() - i,
    {
        let line = lines[i].as_str();
        assert(line@ == ts[i as int]);
        let at: usize = offsets[i];
        let len: usize = byte_len(line);
        let from: usize = if s > at {
            s - at
        } else {
            0
        };
        let ghost before = out@;
        if e > at && (from < len || e - at > from) {
            let past: bool = e - at > len;
            let upto: usize = if past {
                len
            } else {
                e - at
            };
            if from < len && from < upto {
                match text_slice(line, from, upto) {
                    Some(t) => {
                        out.append(t.as_str());
                    },
                    None => {},
                }
            }
            if past && from <= len {
                out.push('\n');
            }
        }
        assert(out@ =~= before + line_part(line@, at as int, s as int, e as int));
        i = i + 1;
    }
    out
}

/// Offsets in a concatenation are those in its first part, or lie behind it.
proof fn lemma_offset_concat(a: Seq<char>, b: Seq<char>, k: int)
    requires
        0 <= k <= (a + b).len(),
    ensures
        k <= a.len() ==> text::byte_offset(a + b, k) == text::byte_offset(a, k),
        k >= a.len() ==> text::byte_offset(a + b, k) == encode_utf8(a).len() + text::byte_offset(
            b,
            k - a.len(),
        ),
{
    if k <= a.len() {
        assert((a + b).take(k) =~= a.take(k));
    }
    if k >= a.len() {
        assert((a + b).take(k) =~= a + b.take(k - a.len()));
        text::lemma_encode_concat(a, b.take(k - a.len()));
    }
}

/// A boundary in a concatenation is one in the part that it lies in.
proof fn lemma_boundary_concat(a: Seq<char>, b: Seq<char>, x: int)
    requires
        text::is_boundary(a + b, x),
        0 <= x,
    ensures
        x <= encode_utf8(a).len() ==> text::is_boundary(a, x),
        x >= encode_utf8(a).len() ==> text::is_boundary(b, x - encode_utf8(a).len()),
{
    let n = encode_utf8(a).len() as int;
    let k = text::chars_before(a + b, x);
    text::lemma_chars_before_from(a + b, 0, x);
    lemma_offset_concat(a, b, k);
    lemma_offset_concat(a, b, a.len() as int);
    text::lemma_byte_offset_mono(a, 0, a.len() as int);
    if k <= a.len() {
        text::lemma_chars_before_offset(a, k);
        text::lemma_byte_offset_mono(a, k, a.len() as int);
        if x == n {
            text::lemma_chars_before_offset(b, 0);
            text::lemma_byte_offset_mono(b, 0, 0);
        }
    } else {
        text::lemma_chars_before_offset(b, k - a.len());
        text::lemma_byte_offset_mono(b, 0, k - a.len());
    }
}

/// The part of a line and its line break that is taken over has the bytes that
/// it should.
proof fn lemma_line_part_bytes(line: Seq<char>, at: int, start: int, end: int, s: int, e: int)
    requires
        at <= s <= e <= at + encode_utf8(line).len() + 1,
        s == start || (start < s && s == at) || (s < start && s == at + encode_utf8(line).len()
            + 1),
        e == end || (end < e && e == at) || (e < end && e == at + encode_utf8(line).len() + 1),
        s - at <= encode_utf8(line).len() ==> text::is_boundary(line, s - at),
        e - at <= encode_utf8(line).len() ==> text::is_boundary(line, e - at),
    ensures
        encode_utf8(line_part(line, at, start, end)) == encode_utf8(line.push('\n')).subrange(
            s - at,
            e - at,
        ),
{
    let len = encode_utf8(line).len() as int;
    let all = encode_utf8(line.push('\n'));
    text::lemma_encode_push(line, '\n');
    lemma_newline_width();
    let part = line_part(line, at, start, end);
    let from = s - at;
    let to = e - at;
    text::lemma_chars_before_offset(line, line.len() as int);
    text::lemma_byte_offset_mono(line, 0, line.len() as int);
    if s == e {
        assert(part =~= Seq::<char>::empty());
        assert(all.subrange(from, to) =~= Seq::<u8>::empty());
    } else {
        let upto = if to < len {
            to
        } else {
            len
        };
        let shown = if from < len {
            text::sub_text(line, from, upto).unwrap()
        } else {
            Seq::empty()
        };
        if from < len {
            text::law_sub_text_bytes(line, from, upto);
        } else {
            assert(encode_utf8(line).subrange(len, len) =~= Seq::<u8>::empty());
            assert(encode_utf8(shown) =~= encode_utf8(line).subrange(from, upto));
        }
        if to > len {
            text::lemma_encode_push(shown, '\n');
            assert(part == shown.push('\n'));
            assert(all.subrange(from, to) =~= encode_utf8(line).subrange(from, upto)
                + encode_scalar('\n' as u32));
        } else {
            assert(part == shown);
            assert(all.subrange(from, to) =~= encode_utf8(line).subrange(from, upto));
        }
    }
}

spec fn clip(x: int, top: int) -> int {
    if x < top {
        x
    } else {
        top
    }
}

proof fn lemma_lines_part_bytes(lines: Seq<Seq<char>>, start: int, end: int, k: int)
    requires
        0 <= start <= end <= line_start(lines, lines.len() as int),
        line_start(lines, lines.len() as int) <= usize::MAX,
        0 <= k <= lines.len(),
        text::is_boundary(joined(lines.take(k)), clip(start, line_start(lines, k) as int)),
        text::is_boundary(joined(lines.take(k)), clip(end, line_start(lines, k) as int)),
    ensures
        encode_utf8(lines_part(lines, start, end, k)) == encode_utf8(
            joined(lines.take(k)),
        ).subrange(
            clip(start, line_start(lines, k) as int),
            clip(end, line_start(lines, k) as int),
        ),
    decreases k,
{
    let all = joined(lines.take(k));
    lemma_line_start_take(lines, k, k);
    lemma_joined_len(lines.take(k));
    if k == 0 {
        assert(encode_utf8(all).subrange(0, 0) =~= Seq::<u8>::empty());
    } else {
        let less = joined(lines.take(k - 1));
        let line = lines[k - 1];
        let at = line_start(lines, k - 1) as int;
        let top = line_start(lines, k) as int;
        lemma_line_start_mono(lines, k - 1, k);
        lemma_line_start_mono(lines, k, lines.len() as int);
        assert(lines.take(k).drop_last() =~= lines.take(k - 1));
        assert(all == less + line.push('\n'));
        lemma_line_start_take(lines, k - 1, k - 1);
        lemma_joined_len(lines.take(k - 1));
        assert(encode_utf8(less).len() == at);
        text::lemma_encode_concat(less, line.push('\n'));
        let s = clip(start, top);
        let e = clip(end, top);
        let s0 = clip(start, at);
        let e0 = clip(end, at);
        text::lemma_chars_before_offset(less, less.len() as int);
        text::lemma_byte_offset_mono(less, 0, less.len() as int);
        lemma_boundary_concat(less, line.push('\n'), s);
        lemma_boundary_concat(less, line.push('\n'), e);
        lemma_lines_part_bytes(lines, start, end, k - 1);
        let s1 = if s > at {
            s
        } else {
            at
        };
        let e1 = if e > at {
            e
        } else {
            at
        };
        let nl = seq!['\n'];
        assert(line.push('\n') =~= line + nl);
        text::lemma_chars_before_offset(line, 0);
        text::lemma_byte_offset_mono(line, 0, 0);
        if s > at {
            lemma_boundary_concat(line, nl, s - at);
        }
        if e > at {
            lemma_boundary_concat(line, nl, e - at);
        }
        lemma_line_part_bytes(line, at, start, end, s1, e1);
        let part = line_part(line, at, start, end);
        text::lemma_encode_concat(lines_part(lines, start, end, k - 1), part);
        assert(encode_utf8(all).subrange(s, e) =~= encode_utf8(less).subrange(s0, e0)
            + encode_utf8(line.push('\n')).subrange(s1 - at, e1 - at));
    }
}

/// What is copied is what is shown: between two positions that cut no character,
/// the slice has the bytes of the text between them.
pub proof fn law_slice_is_the_text_between(lines: Seq<Seq<char>>, start: int, end: int)
    requires
        0 <= start <= end <= line_start(lines, lines.len() as int) <= usize::MAX,
        text::is_boundary(joined(lines), start),
        text::is_boundary(joined(lines), end),
    ensures
        encode_utf8(slice_of(lines, start, end)) == encode_utf8(joined(lines)).subrange(
            start,
            end,
        ),
{
    let n = lines.len() as int;
    assert(lines.take(n) =~= lines);
    lemma_joined_len(lines);
    if start < end {
        lemma_lines_part_bytes(lines, start, end, n);
    } else {
        assert(encode_utf8(joined(lines)).subrange(start, end) =~= Seq::<u8>::empty());
    }
}

/// Copying everything gives back all lines, each with its line break.
pub proof fn law_slice_of_everything(lines: Seq<Seq<char>>)
    requires
        line_start(lines, lines.len() as int) <= usize::MAX,
    ensures
        slice_of(lines, 0, kept_total(lines) as int) == joined(lines),
{
    let all = joined(lines);
    let total = kept_total(lines) as int;
    lemma_joined_len(lines);
    text::lemma_byte_offset_mono(all, 0, all.len() as int);
    text::lemma_chars_before_offset(all, 0);
    text::lemma_chars_before_offset(all, all.len() as int);
    law_slice_is_the_text_between(lines, 0, total);
    assert(encode_utf8(all).subrange(0, total) =~= encode_utf8(all));
    text::lemma_encode_injective(slice_of(lines, 0, total), all);
}

/// The rows of a text: its lines, but for an empty one after a line break at its
/// end.
pub open spec fn text_rows(chars: Seq<char>) -> Seq<Seq<char>> {
    let lines = split_lines(chars);
    if lines.last().len() == 0 {
        lines.drop_last()
    } else {
        lines
    }
}

/// The position of a cell in a text; row and column count from 1, and 0 stands
/// for 1. The end of the text where it has fewer rows.
pub open spec fn cell_position(chars: Seq<char>, row: int, col: int) -> int {
    let rows = text_rows(chars);
    let r = if row < 1 {
        0
    } else {
        row - 1
    };
    if r < rows.len() {
        line_start(rows, r) as int + cells::column_offset(rows[r], col)
    } else {
        encode_utf8(chars).len() as int
    }
}

/// The position of a cell in a text.
pub fn viewport_index_for_cell(viewport: &str, row: u16, col: u16) -> (r: usize)
    ensures
        r == cell_position(viewport@, row as int, col as int),
        r <= encode_utf8(viewport@).len(),
        ({
            let rows = text_rows(viewport@);
            1 <= row <= rows.len() && col >= 1 && cells::all_printable(rows[row - 1]) ==> r
                == line_start(rows, row - 1) + if col - 1 < rows[row - 1].len() {
                col - 1
            } else {
                rows[row - 1].len() as int
            }
        }),
{
    let chars = chars_of(viewport);
    let total: usize = byte_len(viewport);
    let mut lines = split_chars(&chars, chars.len());
    let ghost all = split_lines(viewport@);
    assert(viewport@.take(viewport@.len() as int) =~= viewport@);
    assert(wrap::texts(lines@) == all);
    proof {
        lemma_split_nonempty(viewport@);
        lemma_split_joined(viewport@);
        lemma_joined_len(all);
        text::lemma_encode_push(viewport@, '\n');
        lemma_newline_width();
    }
    let last: usize = lines.len() - 1;
    if lines[last].as_str().is_empty() {
        lines.pop();
        assert(wrap::texts(lines@) =~= all.drop_last());
    }
    let ghost rows = text_rows(viewport@);
    assert(wrap::texts(lines@) == rows);
    let index: usize = if row < 1 {
        0
    } else {
        (row - 1) as usize
    };
    if index >= lines.len() {
        return total;
    }
    proof {
        assert(rows =~= all.take(rows.len() as int));
        lemma_line_start_take(all, rows.len() as int, index as int);
        lemma_line_start_mono(all, index + 1, all.len() as int);
    }
    let offsets = compute_viewport_line_offsets(&lines);
    let line = lines[index].as_str();
    assert(line@ == rows[index as int]);
    let at: usize = offsets[index];
    at + byte_index_for_column_in_line(line, col)
}

/// The line that position `at` lies in: the last of the first `k` that does not
/// start behind it.
pub open spec fn line_at(lines: Seq<Seq<char>>, at: int, k: int) -> int
    decreases k,
{
    if k <= 1 || kept_start(lines, k - 1) <= at {
        k - 1
    } else {
        line_at(lines, at, k - 1)
    }
}

/// Where in its line position `index` lies, or the last byte of the line where
/// it lies on the line break.
pub open spec fn url_position(lines: Seq<Seq<char>>, index: int) -> (int, int) {
    let total = kept_total(lines) as int;
    let at = if index < total {
        index
    } else {
        total - 1
    };
    let row = line_at(lines, at, lines.len() as int);
    let len = encode_utf8(lines[row]).len() as int;
    let local = at - kept_start(lines, row);
    let top = if len > 0 {
        len - 1
    } else {
        0
    };
    (
        row,
        if local < top {
            local
        } else {
            top
        },
    )
}

proof fn lemma_line_at(lines: Seq<Seq<char>>, at: int, k: int)
    requires
        1 <= k <= lines.len(),
        0 <= at,
    ensures
        0 <= line_at(lines, at, k) < k,
        kept_start(lines, line_at(lines, at, k)) <= at,
    decreases k,
{
    if k > 1 && kept_start(lines, k - 1) > at {
        lemma_line_at(lines, at, k - 1);
    }
}

/// The link at position `index` of the lines.
pub fn url_at_viewport_index(
    lines: &Vec<String>,
    offsets: &Vec<usize>,
    total: usize,
    index: usize,
) -> (r: Option<String>)
    requires
        offsets@.len() == lines@.len(),
        forall|i: int|
            0 <= i < offsets@.len() ==> #[trigger] offsets@[i] == kept_start(
                wrap::texts(lines@),
                i,
            ),
        total == kept_total(wrap::texts(lines@)),
    ensures
        url::string_bytes(r) == (if lines@.len() == 0 {
            None
        } else {
            let ts = wrap::texts(lines@);
            let (row, at) = url_position(ts, index as int);
            url::span_bytes(encode_utf8(ts[row]), url::url_span(encode_utf8(ts[row]), at))
        }),
{
    if lines.len() == 0 {
        return None;
    }
    let ghost ts = wrap::texts(lines@);
    proof {
        lemma_line_start_mono(ts, 1, ts.len() as int);
        assert(kept_start(ts, 1) >= 1);
    }
    let at: usize = if index < total {
        index
    } else {
        total - 1
    };
    let mut row: usize = lines.len() - 1;
    while row > 0 && offsets[row] > at
        invariant
            ts == wrap::texts(lines@),
            offsets@.len() == lines@.len(),
            forall|i: int|
                0 <= i < offsets@.len() ==> #[trigger] offsets@[i] == kept_start(ts, i),
            row < lines@.len(),
            line_at(ts, at as int, lines@.len() as int) == line_at(ts, at as int, row + 1),
        decreases row,
    {
        row = row - 1;
    }
    proof {
        lemma_line_at(ts, at as int, row + 1);
    }
    let line = lines[row].as_str();
    assert(line@ == ts[row as int]);
    let len: usize = byte_len(line);
    let top: usize = if len > 0 {
        len - 1
    } else {
        0
    };
    let local: usize = at - offsets[row];
    url_at_byte_index(
        line,
        if local < top {
            local
        } else {
            top
        },
    )
}

/// No line holds a line break.
pub proof fn law_lines_hold_no_break(chars: Seq<char>, i: int)
    requires
        0 <= i < split_lines(chars).len(),
    ensures
        !split_lines(chars)[i].contains('\n'),
    decreases chars.len(),
{
    if chars.len() > 0 {
        let rest = chars.drop_last();
        let before = split_lines(rest);
        lemma_split_nonempty(rest);
        if i < before.len() - 1 {
            law_lines_hold_no_break(rest, i);
        } else if chars.last() == '\n' {
            if i < before.len() {
                law_lines_hold_no_break(rest, i);
            }
        } else {
            law_lines_hold_no_break(rest, before.len() - 1);
            let line = before.last().push(chars.last());
            assert(split_lines(chars)[i] == line);
            assert forall|j: int| 0 <= j < line.len() implies line[j] != '\n' by {
                if j < line.len() - 1 {
                    assert(before.last().contains(before.last()[j]));
                }
            }
        }
    }
}

proof fn lemma_split_append(a: Seq<char>, b: Seq<char>)
    requires
        !b.contains('\n'),
    ensures
        split_lines(a + b) == split_lines(a).drop_last().push(split_lines(a).last() + b),
    decreases b.len(),
{
    lemma_split_nonempty(a);
    let before = split_lines(a);
    if b.len() == 0 {
        assert(a + b =~= a);
        assert(before.last() + b =~= before.last());
        assert(split_lines(a + b) =~= before.drop_last().push(before.last() + b));
    } else {
        let less = b.drop_last();
        assert(!less.contains('\n')) by {
            assert forall|j: int| 0 <= j < less.len() implies less[j] != '\n' by {
                assert(b.contains(b[j]));
            }
        }
        lemma_split_append(a, less);
        assert((a + b).drop_last() =~= a + less);
        assert((a + b).last() == b.last());
        assert(b.contains(b[b.len() - 1]));
        let cut = before.drop_last().push(before.last() + less);
        assert(cut.drop_last() =~= before.drop_last());
        assert(cut.last() == before.last() + less);
        assert((before.last() + less).push(b.last()) =~= before.last() + b);
    }
}

proof fn lemma_split_of_joined(lines: Seq<Seq<char>>)
    requires
        forall|i: int| 0 <= i < lines.len() ==> !(#[trigger] lines[i]).contains('\n'),
    ensures
        split_lines(joined(lines)) == lines.push(Seq::empty()),
        lines.len() > 0 ==> split_lines(joined(lines.drop_last()) + lines.last()) == lines,
    decreases lines.len(),
{
    if lines.len() == 0 {
        assert(split_lines(joined(lines)) =~= lines.push(Seq::empty()));
    } else {
        let less = lines.drop_last();
        let last = lines.last();
        assert forall|i: int| 0 <= i < less.len() implies !(#[trigger] less[i]).contains('\n') by {
            assert(less[i] == lines[i]);
        }
        lemma_split_of_joined(less);
        lemma_split_append(joined(less), last);
        let begun = less.push(Seq::empty());
        assert(begun.drop_last() =~= less);
        assert(Seq::<char>::empty() + last =~= last);
        assert(less.push(last) =~= lines);
        let text = joined(less) + last;
        assert(joined(lines) =~= text.push('\n'));
        assert(text.push('\n').drop_last() =~= text);
        assert(split_lines(joined(lines)) =~= lines.push(Seq::empty()));
    }
}

/// Lines without line breaks, put together, come apart again into the same lines,
/// whether or not the last line break is there; only a single empty line does not
/// count as one.
pub proof fn law_lines_read_back(lines: Seq<Seq<char>>)
    requires
        lines.len() > 0,
        forall|i: int| 0 <= i < lines.len() ==> !(#[trigger] lines[i]).contains('\n'),
    ensures
        lines.len() > 1 || lines[0].len() > 0 ==> screen_lines(joined(lines)) == lines,
        lines.last().len() > 0 ==> screen_lines(joined(lines.drop_last()) + lines.last()) == lines,
        screen_lines(seq!['\n']) == Seq::<Seq<char>>::empty(),
        screen_lines(Seq::empty()) == Seq::<Seq<char>>::empty(),
        text_rows(joined(lines)) == lines,
        lines.last().len() > 0 ==> text_rows(joined(lines.drop_last()) + lines.last()) == lines,
{
    lemma_split_of_joined(lines);
    let less = lines.drop_last();
    let last = lines.last();
    let text = joined(less) + last;
    assert(joined(lines) =~= text.push('\n'));
    assert(without_newline(joined(lines)) =~= text);
    if less.len() > 0 {
        assert(joined(less).len() > 0);
    }
    assert(lines.push(Seq::empty()).drop_last() =~= lines);
    if last.len() > 0 {
        assert(last.contains(last[last.len() - 1]));
        assert(text.last() == last.last());
        assert(without_newline(text) == text);
    }
    assert(without_newline(seq!['\n']) =~= Seq::<char>::empty());
}

proof fn lemma_joined_prefix(lines: Seq<Seq<char>>, k: int)
    requires
        0 <= k <= lines.len(),
    ensures
        joined(lines.take(k)).is_prefix_of(joined(lines)),
    decreases lines.len() - k,
{
    if k == lines.len() {
        assert(lines.take(k) =~= lines);
        assert(joined(lines).subrange(0, joined(lines).len() as int) =~= joined(lines));
    } else {
        let more = lines.take(k + 1);
        lemma_joined_prefix(lines, k + 1);
        assert(more.drop_last() =~= lines.take(k));
        assert(more.last() == lines[k]);
        let a = joined(lines.take(k));
        let b = joined(more);
        assert(b == a + lines[k].push('\n'));
        assert(a =~= joined(lines).subrange(0, a.len() as int)) by {
            assert(b == joined(lines).subrange(0, b.len() as int));
            assert(forall|i: int| 0 <= i < a.len() ==> a[i] == b[i]);
        }
    }
}

/// A line starts where its start says: in the text of all lines its bytes stand there,
/// and a line break behind them.
pub proof fn law_line_stands_at_its_start(lines: Seq<Seq<char>>, k: int)
    requires
        0 <= k < lines.len(),
    ensures
        ({
            let all = encode_utf8(joined(lines));
            let line = encode_utf8(lines[k]);
            let at = line_start(lines, k) as int;
            &&& at + line.len() < all.len()
            &&& all.subrange(at, at + line.len()) == line
            &&& all[at + line.len()] == 0x0a
        }),
        line_start(lines, 0) == 0,
        line_start(lines, k + 1) == line_start(lines, k) + encode_utf8(lines[k]).len() + 1,
{
    let a = joined(lines.take(k));
    let b = joined(lines.take(k + 1));
    assert(lines.take(k + 1).drop_last() =~= lines.take(k));
    assert(lines.take(k + 1).last() == lines[k]);
    assert(b == a + lines[k].push('\n'));
    lemma_joined_len(lines.take(k));
    lemma_line_start_take(lines, k, k);
    lemma_joined_prefix(lines, k + 1);
    let rest = joined(lines).skip(b.len() as int);
    assert(joined(lines) =~= b + rest);
    text::lemma_encode_concat(b, rest);
    text::lemma_encode_concat(a, lines[k].push('\n'));
    text::lemma_encode_push(lines[k], '\n');
    lemma_newline_width();
    let all = encode_utf8(joined(lines));
    let line = encode_utf8(lines[k]);
    let at = line_start(lines, k) as int;
    assert((0x0au32 & 0x7F) as u8 == 0x0a) by (bit_vector);
    assert(encode_scalar('\n' as u32)[0] == 0x0a);
    assert(all.subrange(at, at + line.len()) =~= line);
}

/// What lies past the end of the text does not count, and nothing lies between two
/// positions that are out of order.
pub proof fn law_slice_ends_with_the_text(lines: Seq<Seq<char>>, start: int, end: int)
    ensures
        end >= kept_total(lines) ==> slice_of(lines, start, end) == slice_of(
            lines,
            start,
            kept_total(lines) as int,
        ),
        start >= kept_total(lines) ==> slice_of(lines, start, end) == Seq::<char>::empty(),
        start >= end ==> slice_of(lines, start, end) == Seq::<char>::empty(),
{
}

/// Row 0 counts as the first row; a row that the text does not have is at its end.
pub proof fn law_cell_positions(chars: Seq<char>, row: int, col: int)
    ensures
        cell_position(chars, 0, col) == cell_position(chars, 1, col),
        row > text_rows(chars).len() && row >= 1 ==> cell_position(chars, row, col) == encode_utf8(
            chars,
        ).len(),
        1 <= row <= text_rows(chars).len() ==> cell_position(chars, row, 1) == line_start(
            text_rows(chars),
            row - 1,
        ),
        1 <= row <= text_rows(chars).len() ==> cell_position(chars, row, col) == cell_position(
            chars,
            row,
            1,
        ) + cells::column_offset(text_rows(chars)[row - 1], col),
{
}

proof fn lemma_line_at_is(lines: Seq<Seq<char>>, at: int, row: int, k: int)
    requires
        0 <= row < k <= lines.len(),
        kept_start(lines, row) <= at,
        row + 1 < k ==> at < kept_start(lines, row + 1),
    ensures
        line_at(lines, at, k) == row,
    decreases k,
{
    if row + 1 < k {
        lemma_line_start_mono(lines, row + 1, k - 1);
        lemma_line_at_is(lines, at, row, k - 1);
    }
}

/// A position in a line is found in that line, counted from its start; the line break
/// counts as the line's last byte, and what lies past the end of the text as the last
/// byte of the last line.
pub proof fn law_position_in_its_line(lines: Seq<Seq<char>>, row: int, at: int)
    requires
        0 <= row < lines.len(),
        0 <= at <= encode_utf8(lines[row]).len(),
        line_start(lines, lines.len() as int) <= usize::MAX,
    ensures
        ({
            let len = encode_utf8(lines[row]).len() as int;
            let found = url_position(lines, line_start(lines, row) + at);
            &&& found.0 == row
            &&& at < len ==> found.1 == at
            &&& at == len && len > 0 ==> found.1 == len - 1
            &&& len == 0 ==> found.1 == 0
        }),
        forall|index: int|
            index >= line_start(lines, lines.len() as int) ==> #[trigger] url_position(lines, index)
                == url_position(lines, line_start(lines, lines.len() as int) - 1),
{
    let n = lines.len() as int;
    lemma_line_start_mono(lines, row + 1, n);
    lemma_line_start_mono(lines, row, n);
    if row + 1 < n {
        lemma_line_start_mono(lines, row + 1, row + 1);
    }
    lemma_line_at_is(lines, line_start(lines, row) + at, row, n);
}

/// A selection that begins or ends inside a character leaves out the text of that
/// line; its line break still counts where it is selected.
pub proof fn law_cut_line_is_left_out(line: Seq<char>, at: int, start: int, end: int)
    requires
        0 <= at <= start < end,
        ({
            let len = encode_utf8(line).len() as int;
            let upto = if end - at < len {
                end - at
            } else {
                len
            };
            start - at < len && text::sub_text(line, start - at, upto) is None
        }),
    ensures
        line_part(line, at, start, end) == if end - at > encode_utf8(line).len() {
            seq!['\n']
        } else {
            Seq::<char>::empty()
        },
{
    assert(Seq::<char>::empty().push('\n') =~= seq!['\n']);
}

} // verus!
