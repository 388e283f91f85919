//! Columns of terminal cells that characters take up.
use vstd::prelude::*;
use vstd::utf8::*;
use crate::text;
use crate::text::{byte_len, chars_of, len_utf16, len_utf8};

verus! {

/// The columns that `unicode-width` gives a character; `None` for a control
/// character.
pub uninterp spec fn char_columns(c: char) -> Option<usize>;

/// `unicode_width::UnicodeWidthChar::width`. The result is a function of the
/// character alone; printable ASCII takes one column, and the control
/// characters of ASCII and Latin-1 have no width.
#[verifier::external_body]
fn char_width(c: char) -> (w: Option<usize>)
    ensures
        w == char_columns(c),
        0x20 <= c as u32 && (c as u32) < 0x7f ==> w == Some(1usize),
        (c as u32) < 0x20 || (0x7f <= c as u32 && (c as u32) < 0xa0) ==> w is None,
{
    unicode_width::UnicodeWidthChar::width(c)
}

/// The columns that a character takes up; none where it has no width.
pub open spec fn cell_width(c: char) -> usize {
    match char_columns(c) {
        Some(w) => w,
        None => 0,
    }
}

/// The columns that each character takes up.
pub open spec fn widths_of(chars: Seq<char>) -> Seq<usize> {
    Seq::new(chars.len(), |i: int| cell_width(chars[i]))
}

/// A printable ASCII character.
pub open spec fn is_printable(c: char) -> bool {
    0x20 <= c as u32 && (c as u32) < 0x7f
}

/// Every character is printable ASCII.
pub open spec fn all_printable(chars: Seq<char>) -> bool {
    forall|i: int| 0 <= i < chars.len() ==> is_printable(#[trigger] chars[i])
}

/// The columns of the first `k` characters together.
pub open spec fn columns(ws: Seq<usize>, k: int) -> nat
    decreases k,
{
    if k <= 0 || k > ws.len() {
        0
    } else {
        columns(ws, k - 1) + ws[k - 1] as nat
    }
}

/// Character `i` covers column `col`, counted from 1.
pub open spec fn covers(ws: Seq<usize>, i: int, col: int) -> bool {
    0 <= i < ws.len() && 1 + columns(ws, i) <= col < 1 + columns(ws, i) + ws[i]
}

/// The character that covers column `col`; the number of characters where the
/// line is shorter.
pub open spec fn char_at_column(ws: Seq<usize>, col: int) -> int {
    if exists|i: int| covers(ws, i, col) {
        choose|i: int| covers(ws, i, col)
    } else {
        ws.len() as int
    }
}

/// The byte offset of the character that covers column `col` of a line whose
/// characters have the widths `ws`. The first column is the start of the line,
/// whatever stands there.
pub open spec fn offset_for_column(chars: Seq<char>, ws: Seq<usize>, col: int) -> nat {
    if col <= 1 {
        0
    } else {
        text::byte_offset(chars, char_at_column(ws, col))
    }
}

/// The byte offset of the character that covers column `col` of a line.
pub open spec fn column_offset(chars: Seq<char>, col: int) -> nat {
    offset_for_column(chars, widths_of(chars), col)
}

/// Column `col` of the line is its byte `col - 1`, or its end where it is shorter.
pub open spec fn columns_are_bytes(line: Seq<char>) -> bool {
    forall|col: int|
        col >= 1 ==> #[trigger] column_offset(line, col) == if col - 1 < line.len() {
            col - 1
        } else {
            line.len() as int
        }
}

pub proof fn lemma_columns_mono(ws: Seq<usize>, j: int, k: int)
    requires
        0 <= j <= k <= ws.len(),
    ensures
        columns(ws, j) <= columns(ws, k),
    decreases k - j,
{
    if j < k {
        lemma_columns_mono(ws, j, k - 1);
    }
}

/// No column is covered by two characters.
pub proof fn law_one_char_per_column(ws: Seq<usize>, i: int, j: int, col: int)
    requires
        covers(ws, i, col),
        covers(ws, j, col),
    ensures
        i == j,
{
    if i < j {
        lemma_columns_mono(ws, i + 1, j);
    } else if j < i {
        lemma_columns_mono(ws, j + 1, i);
    }
}

/// Every column of a line is covered by a character, and no column past its end
/// is.
pub proof fn law_columns_are_covered(ws: Seq<usize>, col: int)
    ensures
        1 <= col <= columns(ws, ws.len() as int) <==> exists|i: int| covers(ws, i, col),
        0 <= char_at_column(ws, col) <= ws.len(),
{
    if exists|i: int| covers(ws, i, col) {
        let i = choose|i: int| covers(ws, i, col);
        lemma_columns_mono(ws, i + 1, ws.len() as int);
    }
    if 1 <= col <= columns(ws, ws.len() as int) {
        lemma_find_cover(ws, ws.len() as int, col);
    }
}

proof fn lemma_find_cover(ws: Seq<usize>, k: int, col: int)
    requires
        0 <= k <= ws.len(),
        1 <= col <= columns(ws, k),
    ensures
        exists|i: int| covers(ws, i, col),
    decreases k,
{
    if k > 0 {
        if col <= columns(ws, k - 1) {
            lemma_find_cover(ws, k - 1, col);
        } else {
            assert(covers(ws, k - 1, col));
        }
    }
}

/// The columns that each of `chars` takes up; one, where it is printable ASCII.
pub fn cell_widths(chars: &Vec<char>) -> (ws: Vec<usize>)
    ensures
        ws@ == widths_of(chars@),
        forall|i: int| 0 <= i < chars@.len() && is_printable(chars@[i]) ==> #[trigger] ws@[i] == 1,
{
    let mut ws: Vec<usize> = Vec::new();
    let mut i: usize = 0;
    while i < chars.len()
        invariant
            i <= chars@.len(),
            ws@ == widths_of(chars@.take(i as int)),
            forall|j: int| 0 <= j < i && is_printable(chars@[j]) ==> #[trigger] ws@[j] == 1,
        decreases chars@.len() - i,
    {
        let w: usize = match char_width(chars[i]) {
            Some(w) => w,
            None => 0,
        };
        ws.push(w);
        i = i + 1;
        assert(ws@ =~= widths_of(chars@.take(i as int)));
    }
    assert(chars@.take(i as int) =~= chars@);
    ws
}

/// Where every character takes up one column, the columns are the characters.
pub proof fn lemma_single_columns(ws: Seq<usize>, k: int)
    requires
        0 <= k <= ws.len(),
        forall|i: int| 0 <= i < ws.len() ==> #[trigger] ws[i] == 1,
    ensures
        columns(ws, k) == k,
    decreases k,
{
    if k > 0 {
        lemma_single_columns(ws, k - 1);
    }
}

/// In a line of printable ASCII whose characters take up one column each, column
/// `col` is byte `col - 1`, and the end of the line where it is shorter.
pub proof fn law_plain_line_columns(chars: Seq<char>, ws: Seq<usize>, col: int)
    requires
        all_printable(chars),
        ws.len() == chars.len(),
        forall|i: int| 0 <= i < ws.len() ==> #[trigger] ws[i] == 1,
        col >= 1,
    ensures
        offset_for_column(chars, ws, col) == if col - 1 < chars.len() {
            col - 1
        } else {
            chars.len() as int
        },
        encode_utf8(chars).len() == chars.len(),
{
    let n = chars.len() as int;
    text::lemma_ascii_offset(chars, n);
    text::lemma_byte_offset_mono(chars, 0, n);
    law_columns_are_covered(ws, col);
    lemma_single_columns(ws, n);
    if col <= n {
        lemma_single_columns(ws, col - 1);
        assert(covers(ws, col - 1, col));
        law_one_char_per_column(ws, col - 1, char_at_column(ws, col), col);
        text::lemma_ascii_offset(chars, col - 1);
    }
}

/// The byte offset of the character that covers column `col`, by the widths of
/// the characters.
pub fn byte_index_for_column(chars: &Vec<char>, ws: &Vec<usize>, col: u16) -> (r: usize)
    requires
        ws@.len() == chars@.len(),
        encode_utf8(chars@).len() <= usize::MAX,
    ensures
        r == offset_for_column(chars@, ws@, col as int),
        r <= encode_utf8(chars@).len(),
{
    proof {
        text::lemma_byte_offset_mono(chars@, 0, 0);
    }
    if col <= 1 {
        return 0;
    }
    let target: usize = col as usize;
    let mut current: usize = 1;
    let mut at: usize = 0;
    let mut i: usize = 0;
    while i < chars.len()
        invariant
            ws@.len() == chars@.len(),
            encode_utf8(chars@).len() <= usize::MAX,
            target == col,
            1 < col,
            i <= chars@.len(),
            current == 1 + columns(ws@, i as int),
            current <= target,
            at == text::byte_offset(chars@, i as int),
            forall|j: int| 0 <= j < i ==> !#[trigger] covers(ws@, j, col as int),
        decreases chars@.len() - i,
    {
        let next: usize = current.saturating_add(ws[i]);
        if target < next {
            proof {
                assert(covers(ws@, i as int, col as int));
                let k = char_at_column(ws@, col as int);
                law_one_char_per_column(ws@, i as int, k, col as int);
                text::lemma_byte_offset_mono(chars@, i as int, i as int);
            }
            return at;
        }
        proof {
            assert(!covers(ws@, i as int, col as int));
            text::lemma_byte_offset_step(chars@, i as int);
            text::lemma_byte_offset_mono(chars@, i + 1, i + 1);
        }
        current = next;
        at = at + len_utf8(chars[i]);
        i = i + 1;
    }
    proof {
        assert(!exists|j: int| covers(ws@, j, col as int));
        text::lemma_byte_offset_mono(chars@, i as int, i as int);
    }
    at
}

/// The byte offset of the character that covers column `col` of a line; the
/// length of the line where it is shorter.
pub fn byte_index_for_column_in_line(line: &str, col: u16) -> (r: usize)
    ensures
        r == column_offset(line@, col as int),
        r <= encode_utf8(line@).len(),
        all_printable(line@) && col >= 1 ==> r == if col - 1 < line@.len() {
            col - 1
        } else {
            line@.len() as int
        },
        all_printable(line@) ==> columns_are_bytes(line@),
{
    let chars = chars_of(line);
    let bytes = byte_len(line);
    let ws = cell_widths(&chars);
    proof {
        if all_printable(line@) {
            assert forall|i: int| 0 <= i < ws@.len() implies #[trigger] ws@[i] == 1 by {
                assert(is_printable(line@[i]));
            }
            assert forall|c: int| c >= 1 implies #[trigger] column_offset(line@, c) == if c - 1
                < line@.len() {
                c - 1
            } else {
                line@.len() as int
            } by {
                law_plain_line_columns(line@, ws@, c);
            }
            assert(columns_are_bytes(line@));
            assert(offset_for_column(line@, ws@, col as int) == column_offset(line@, col as int));
        }
    }
    byte_index_for_column(&chars, &ws, col)
}

/// The columns of all characters together, by their widths.
pub fn total_columns(ws: &Vec<usize>) -> (n: usize)
    ensures
        n == text::capped(columns(ws@, ws@.len() as int)),
{
    let mut n: usize = 0;
    let mut i: usize = 0;
    while i < ws.len()
        invariant
            i <= ws@.len(),
            n == text::capped(columns(ws@, i as int)),
        decreases ws@.len() - i,
    {
        n = n.saturating_add(ws[i]);
        i = i + 1;
    }
    n
}

/// The columns that a line takes up.
pub fn line_columns(line: &str) -> (n: usize)
    ensures
        n == text::capped(columns(widths_of(line@), line@.len() as int)),
        all_printable(line@) ==> n == line@.len(),
{
    let chars = chars_of(line);
    let ws = cell_widths(&chars);
    proof {
        if all_printable(line@) {
            assert forall|i: int| 0 <= i < ws@.len() implies #[trigger] ws@[i] == 1 by {
                assert(is_printable(line@[i]));
            }
            lemma_single_columns(ws@, ws@.len() as int);
        }
    }
    total_columns(&ws)
}

/// Some character takes up more than one column.
pub open spec fn has_wide(ws: Seq<usize>) -> bool {
    exists|i: int| 0 <= i < ws.len() && ws[i] > 1
}

/// Whether some character of a line takes up more than one column, so that it
/// cannot be drawn on a fixed grid of one column each.
pub fn line_has_wide(line: &str) -> (r: bool)
    ensures
        r == has_wide(widths_of(line@)),
        all_printable(line@) ==> !r,
{
    let chars = chars_of(line);
    let ws = cell_widths(&chars);
    proof {
        if all_printable(line@) {
            assert forall|i: int| 0 <= i < ws@.len() implies #[trigger] ws@[i] == 1 by {
                assert(is_printable(line@[i]));
            }
        }
    }
    let mut i: usize = 0;
    while i < ws.len()
        invariant
            i <= ws@.len(),
            ws@ == widths_of(line@),
            all_printable(line@) ==> forall|j: int| 0 <= j < ws@.len() ==> #[trigger] ws@[j] == 1,
            forall|j: int| 0 <= j < i ==> ws@[j] <= 1,
        decreases ws@.len() - i,
    {
        if ws[i] > 1 {
            return true;
        }
        i = i + 1;
    }
    false
}

/// How many characters, from index `k` on, end at or before 16-bit unit `u`.
pub open spec fn chars_in_utf16(chars: Seq<char>, k: int, u: int) -> int
    decreases chars.len() - k,
{
    if k < 0 || k >= chars.len() || text::utf16_offset(chars, k + 1) > u {
        k
    } else {
        chars_in_utf16(chars, k + 1, u)
    }
}

/// The columns before 16-bit unit `u` of a text whose characters have the widths
/// `ws`; a character that `u` cuts does not count.
pub open spec fn columns_before_utf16(chars: Seq<char>, ws: Seq<usize>, u: int) -> nat {
    columns(ws, chars_in_utf16(chars, 0, u))
}

/// The columns before 16-bit unit `u` of a text, by the widths of its
/// characters.
pub fn columns_for_utf16(chars: &Vec<char>, ws: &Vec<usize>, u: usize) -> (r: usize)
    requires
        ws@.len() == chars@.len(),
        encode_utf8(chars@).len() <= usize::MAX,
    ensures
        r == text::capped(columns_before_utf16(chars@, ws@, u as int)),
{
    let mut cells: usize = 0;
    let mut units: usize = 0;
    let mut i: usize = 0;
    while i < chars.len()
        invariant
            ws@.len() == chars@.len(),
            encode_utf8(chars@).len() <= usize::MAX,
            i <= chars@.len(),
            units == text::utf16_offset(chars@, i as int),
            cells == text::capped(columns(ws@, i as int)),
            chars_in_utf16(chars@, 0, u as int) == chars_in_utf16(chars@, i as int, u as int),
        decreases chars@.len() - i,
    {
        proof {
            text::lemma_utf16_offset(chars@, i as int, i + 1);
        }
        let next: usize = units + len_utf16(chars[i]);
        if next > u {
            return cells;
        }
        units = next;
        cells = cells.saturating_add(ws[i]);
        i = i + 1;
    }
    cells
}

/// In printable ASCII the 16-bit units are the characters.
proof fn lemma_plain_utf16(chars: Seq<char>, k: int, u: int)
    requires
        all_printable(chars),
        0 <= k <= chars.len(),
        k <= u,
    ensures
        chars_in_utf16(chars, k, u) == if u < chars.len() {
            u
        } else {
            chars.len() as int
        },
    decreases chars.len() - k,
{
    lemma_plain_units(chars, k);
    if k < chars.len() {
        lemma_plain_units(chars, k + 1);
        if k + 1 <= u {
            lemma_plain_utf16(chars, k + 1, u);
        }
    }
}

proof fn lemma_plain_units(chars: Seq<char>, k: int)
    requires
        all_printable(chars),
        0 <= k <= chars.len(),
    ensures
        text::utf16_offset(chars, k) == k,
    decreases k,
{
    if k > 0 {
        lemma_plain_units(chars, k - 1);
        assert(is_printable(chars[k - 1]));
    }
}

/// The columns before 16-bit unit `utf16_offset` of a text.
pub fn cell_offset_for_utf16(s: &str, utf16_offset: usize) -> (r: usize)
    ensures
        r == text::capped(columns_before_utf16(s@, widths_of(s@), utf16_offset as int)),
        all_printable(s@) ==> r == if utf16_offset < s@.len() {
            utf16_offset as int
        } else {
            s@.len() as int
        },
{
    let chars = chars_of(s);
    let bytes = byte_len(s);
    let ws = cell_widths(&chars);
    proof {
        if all_printable(s@) {
            assert forall|i: int| 0 <= i < ws@.len() implies #[trigger] ws@[i] == 1 by {
                assert(is_printable(s@[i]));
            }
            let u = utf16_offset as int;
            lemma_plain_utf16(s@, 0, u);
            lemma_single_columns(ws@, chars_in_utf16(s@, 0, u));
        }
    }
    columns_for_utf16(&chars, &ws, utf16_offset)
}

/// A character covers as many columns as it is wide, right behind those of the
/// characters before it; from each of them the byte at which it starts is found.
pub proof fn law_char_covers_its_columns(chars: Seq<char>, ws: Seq<usize>, i: int, k: int)
    requires
        ws.len() == chars.len(),
        0 <= i < ws.len(),
        0 <= k < ws[i],
    ensures
        columns(ws, 0) == 0,
        columns(ws, i + 1) == columns(ws, i) + ws[i],
        char_at_column(ws, columns(ws, i) + 1 + k) == i,
        columns(ws, i) + k > 0 ==> offset_for_column(chars, ws, columns(ws, i) + 1 + k)
            == text::byte_offset(chars, i),
        offset_for_column(chars, ws, 1) == 0,
        offset_for_column(chars, ws, 0) == 0,
{
    let col = columns(ws, i) + 1 + k;
    assert(covers(ws, i, col));
    let found = choose|j: int| covers(ws, j, col);
    law_one_char_per_column(ws, i, found, col);
}

/// Past the last column of a line its end is found.
pub proof fn law_columns_past_the_line(chars: Seq<char>, ws: Seq<usize>, col: int)
    requires
        ws.len() == chars.len(),
        col > columns(ws, ws.len() as int),
        col > 1,
    ensures
        offset_for_column(chars, ws, col) == encode_utf8(chars).len(),
{
    law_columns_are_covered(ws, col);
    text::lemma_byte_offset_mono(chars, 0, 0);
}

proof fn lemma_chars_in_utf16(chars: Seq<char>, k: int, n: int, u: int)
    requires
        0 <= k <= n <= chars.len(),
        text::utf16_offset(chars, n) <= u,
        n < chars.len() ==> u < text::utf16_offset(chars, n + 1),
    ensures
        chars_in_utf16(chars, k, u) == n,
    decreases n - k,
{
    if k < n {
        text::lemma_utf16_offset(chars, k + 1, n);
        lemma_chars_in_utf16(chars, k + 1, n, u);
    }
}

/// The columns before the 16-bit unit at which a character starts are those of the
/// characters before it; a unit inside it does not count it.
pub proof fn law_columns_before_a_unit(chars: Seq<char>, ws: Seq<usize>, n: int, u: int)
    requires
        ws.len() == chars.len(),
        0 <= n < chars.len(),
        text::utf16_offset(chars, n) <= u < text::utf16_offset(chars, n) + text::utf16_width(
            chars[n],
        ),
    ensures
        columns_before_utf16(chars, ws, u) == columns(ws, n),
{
    lemma_chars_in_utf16(chars, 0, n, u);
}

/// The columns before the end of a text, and before any unit past it, are all of its
/// columns.
pub proof fn law_columns_before_the_end(chars: Seq<char>, ws: Seq<usize>, u: int)
    requires
        ws.len() == chars.len(),
        u >= text::utf16_offset(chars, chars.len() as int),
    ensures
        columns_before_utf16(chars, ws, u) == columns(ws, ws.len() as int),
{
    lemma_chars_in_utf16(chars, 0, chars.len() as int, u);
}

/// A character without a width takes up no column, one with a width as many as that.
pub proof fn law_widths(chars: Seq<char>, i: int)
    requires
        0 <= i < chars.len(),
    ensures
        widths_of(chars).len() == chars.len(),
        char_columns(chars[i]) is None ==> widths_of(chars)[i] == 0,
        char_columns(chars[i]) matches Some(w) ==> widths_of(chars)[i] == w,
        widths_of(chars)[i] >= 2 ==> has_wide(widths_of(chars)),
{
}

/// A line is on a fixed grid where no character is wider than a column.
pub proof fn law_no_wide_char(ws: Seq<usize>)
    requires
        forall|i: int| 0 <= i < ws.len() ==> #[trigger] ws[i] <= 1,
    ensures
        !has_wide(ws),
{
}

} // verus!
