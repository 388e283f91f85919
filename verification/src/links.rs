//! Hyperlinks that a program attached to cells, found again from one of their
//! cells.
//!
//! A hyperlink may run over the end of a row, so that its cells are followed in
//! reading order. Which cell has which hyperlink only the emulator knows; it is
//! asked cell by cell.
use std::ops::Range;
use vstd::prelude::*;
use vstd::utf8::*;
use crate::cells;
use crate::cells::byte_index_for_column_in_line;
use crate::text;
use crate::text::same_text;
use crate::wrap;
use crate::wrap::RowSpan;

verus! {

/// A cell: its column and its row, both counted from 1.
pub struct Cell {
    pub col: u16,
    pub row: u16,
}

/// The cell before `c` in reading order.
pub open spec fn prev_cell(c: Cell, cols: u16) -> Option<Cell> {
    if c.col > 1 {
        Some(Cell { col: (c.col - 1) as u16, row: c.row })
    } else if c.row > 1 {
        Some(Cell { col: cols, row: (c.row - 1) as u16 })
    } else {
        None
    }
}

/// The cell after `c` in reading order.
pub open spec fn next_cell(c: Cell, cols: u16, rows: u16) -> Option<Cell> {
    if c.col < cols {
        Some(Cell { col: (c.col + 1) as u16, row: c.row })
    } else if c.row < rows {
        Some(Cell { col: 1, row: (c.row + 1) as u16 })
    } else {
        None
    }
}

/// The cell is on the screen.
pub open spec fn on_screen(c: Cell, cols: u16, rows: u16) -> bool {
    1 <= c.col <= cols && 1 <= c.row <= rows
}

/// The cell `k` cells before `c`.
pub open spec fn back(c: Cell, cols: u16, k: nat) -> Option<Cell>
    decreases k,
{
    if k == 0 {
        Some(c)
    } else {
        match back(c, cols, (k - 1) as nat) {
            Some(p) => prev_cell(p, cols),
            None => None,
        }
    }
}

/// The cell `k` cells after `c`.
pub open spec fn ahead(c: Cell, cols: u16, rows: u16, k: nat) -> Option<Cell>
    decreases k,
{
    if k == 0 {
        Some(c)
    } else {
        match ahead(c, cols, rows, (k - 1) as nat) {
            Some(p) => next_cell(p, cols, rows),
            None => None,
        }
    }
}

/// Asked about cell `c`, `link` may answer `url`.
pub open spec fn answers<F: Fn(u16, u16) -> Option<String>>(
    link: F,
    c: Cell,
    url: Option<Seq<char>>,
) -> bool {
    exists|r: Option<String>|
        #[trigger] call_ensures(link, (c.col, c.row), r) && text::text_of(r) == url
}

/// Asked about cell `c`, `link` may answer something else than `url`.
pub open spec fn answers_other<F: Fn(u16, u16) -> Option<String>>(
    link: F,
    c: Cell,
    url: Seq<char>,
) -> bool {
    exists|r: Option<String>|
        #[trigger] call_ensures(link, (c.col, c.row), r) && text::text_of(r) != Some(url)
}

/// The hyperlink `url` at cell `at` begins `before` cells before it: all cells
/// from there on have it, and the one before them, if there is one, has not.
pub open spec fn begins<F: Fn(u16, u16) -> Option<String>>(
    link: F,
    at: Cell,
    url: Seq<char>,
    cols: u16,
    before: nat,
) -> bool {
    &&& forall|k: nat|
        k <= before ==> (#[trigger] back(at, cols, k) matches Some(c) && answers(
            link,
            c,
            Some(url),
        ))
    &&& back(at, cols, before + 1) matches Some(c) ==> answers_other(link, c, url)
}

/// The hyperlink `url` at cell `at` ends `after` cells after it.
pub open spec fn ends<F: Fn(u16, u16) -> Option<String>>(
    link: F,
    at: Cell,
    url: Seq<char>,
    cols: u16,
    rows: u16,
    after: nat,
) -> bool {
    &&& forall|k: nat|
        k <= after ==> (#[trigger] ahead(at, cols, rows, k) matches Some(c) && answers(
            link,
            c,
            Some(url),
        ))
    &&& ahead(at, cols, rows, after + 1) matches Some(c) ==> answers_other(link, c, url)
}

/// The column after `col`, as far as columns go.
pub open spec fn column_after(col: u16) -> int {
    if col < u16::MAX {
        col + 1
    } else {
        u16::MAX as int
    }
}

/// The part of row `r`, counted from 1, that the cells from `first` to `last`
/// cover: to the end of the row's text where they go on in the next row.
pub open spec fn covered(line: Seq<char>, r: int, first: Cell, last: Cell) -> (int, int) {
    let start = if r == first.row {
        cells::column_offset(line, first.col as int) as int
    } else {
        0
    };
    let end = if r == last.row {
        cells::column_offset(line, column_after(last.col)) as int
    } else {
        encode_utf8(line).len() as int
    };
    (start, end)
}

/// The parts of the rows from that of `first` up to, but without, `r` that the
/// cells from `first` to `last` cover.
pub open spec fn link_spans(lines: Seq<Seq<char>>, first: Cell, last: Cell, r: int) -> Seq<RowSpan>
    decreases r - first.row,
{
    if r <= first.row {
        Seq::empty()
    } else {
        let earlier = link_spans(lines, first, last, r - 1);
        if r - 1 <= lines.len() {
            let (start, end) = covered(lines[r - 2], r - 1, first, last);
            if start < end {
                earlier.push(RowSpan { row: r - 2, start, end })
            } else {
                earlier
            }
        } else {
            earlier
        }
    }
}

/// `spans` are the parts of the rows that the cells from `first` to `last` cover.
pub open spec fn covers_from_to(
    spans: Seq<(usize, Range<usize>)>,
    lines: Seq<Seq<char>>,
    first: Cell,
    last: Cell,
) -> bool {
    wrap::same_spans(spans, link_spans(lines, first, last, last.row + 1))
}

/// The hyperlink `url` at cell `at` reaches from `before` cells before it to
/// `after` cells after it, and `spans` are the parts of the rows that it covers.
pub open spec fn is_link<F: Fn(u16, u16) -> Option<String>>(
    link: F,
    at: Cell,
    url: Seq<char>,
    spans: Seq<(usize, Range<usize>)>,
    lines: Seq<Seq<char>>,
    cols: u16,
    rows: u16,
    before: nat,
    after: nat,
) -> bool {
    &&& begins(link, at, url, cols, before)
    &&& ends(link, at, url, cols, rows, after)
    &&& covers_from_to(
        spans,
        lines,
        back(at, cols, before).unwrap(),
        ahead(at, cols, rows, after).unwrap(),
    )
}

/// The hyperlink at a cell, with the parts of the rows that its cells cover.
/// `link` is asked for the hyperlink of a cell, by its column and its row, both
/// counted from 1; so are `col` and `row`.
pub fn osc8_link_spans<F: Fn(u16, u16) -> Option<String>>(
    link: F,
    lines: &[String],
    cols: u16,
    rows: u16,
    col: u16,
    row: u16,
) -> (found: Option<(String, Vec<(usize, Range<usize>)>)>)
    requires
        forall|c: u16, r: u16|
            1 <= c <= cols && 1 <= r <= rows ==> #[trigger] call_requires(link, (c, r)),
    ensures
        !on_screen(Cell { col, row }, cols, rows) ==> found is None,
        on_screen(Cell { col, row }, cols, rows) && found is None ==> answers(
            link,
            Cell { col, row },
            None,
        ),
        found is Some ==> exists|before: nat, after: nat| #[trigger]
            is_link(
                link,
                Cell { col, row },
                found.unwrap().0@,
                found.unwrap().1@,
                wrap::texts(lines@),
                cols,
                rows,
                before,
                after,
            ),
{
    if col < 1 || col > cols || row < 1 || row > rows {
        return None;
    }
    let ghost at = Cell { col, row };
    let answer = link(col, row);
    assert(call_ensures(link, (at.col, at.row), answer));
    let url = match answer {
        Some(url) => url,
        None => {
            return None;
        },
    };
    assert(text::text_of(answer) == Some(url@));
    assert(answers(link, at, Some(url@)));
    let ghost mut before: nat = 0;
    let mut first_col: u16 = col;
    let mut first_row: u16 = row;
    let mut more = true;
    while more
        invariant
            forall|c: u16, r: u16|
                1 <= c <= cols && 1 <= r <= rows ==> #[trigger] call_requires(link, (c, r)),
            1 <= first_col <= cols,
            1 <= first_row <= row <= rows,
            back(at, cols, before) == Some(Cell { col: first_col, row: first_row }),
            forall|k: nat|
                k <= before ==> (#[trigger] back(at, cols, k) matches Some(c) && answers(
                    link,
                    c,
                    Some(url@),
                )),
            !more ==> begins(link, at, url@, cols, before),
        decreases first_row, first_col, if more { 1int } else { 0 },
    {
        let (c, r): (u16, u16) = if first_col > 1 {
            (first_col - 1, first_row)
        } else if first_row > 1 {
            (cols, first_row - 1)
        } else {
            (0, 0)
        };
        if c == 0 {
            more = false;
        } else {
            let ghost p = Cell { col: c, row: r };
            assert(back(at, cols, before + 1) == Some(p));
            let other = link(c, r);
            assert(call_ensures(link, (p.col, p.row), other));
            let same = match &other {
                Some(o) => same_text(o.as_str(), url.as_str()),
                None => false,
            };
            if same {
                assert(text::text_of(other) == Some(url@));
                assert(answers(link, p, Some(url@)));
                proof {
                    before = before + 1;
                }
                first_col = c;
                first_row = r;
            } else {
                assert(text::text_of(other) != Some(url@));
                assert(answers_other(link, p, url@));
                more = false;
            }
        }
    }
    let ghost mut after: nat = 0;
    let mut last_col: u16 = col;
    let mut last_row: u16 = row;
    more = true;
    while more
        invariant
            forall|c: u16, r: u16|
                1 <= c <= cols && 1 <= r <= rows ==> #[trigger] call_requires(link, (c, r)),
            1 <= last_col <= cols,
            1 <= row <= last_row <= rows,
            ahead(at, cols, rows, after) == Some(Cell { col: last_col, row: last_row }),
            forall|k: nat|
                k <= after ==> (#[trigger] ahead(at, cols, rows, k) matches Some(c) && answers(
                    link,
                    c,
                    Some(url@),
                )),
            !more ==> ends(link, at, url@, cols, rows, after),
        decreases rows - last_row, cols - last_col, if more { 1int } else { 0 },
    {
        let (c, r): (u16, u16) = if last_col < cols {
            (last_col + 1, last_row)
        } else if last_row < rows {
            (1, last_row + 1)
        } else {
            (0, 0)
        };
        if c == 0 {
            more = false;
        } else {
            let ghost p = Cell { col: c, row: r };
            assert(ahead(at, cols, rows, after + 1) == Some(p));
            let other = link(c, r);
            assert(call_ensures(link, (p.col, p.row), other));
            let same = match &other {
                Some(o) => same_text(o.as_str(), url.as_str()),
                None => false,
            };
            if same {
                assert(text::text_of(other) == Some(url@));
                assert(answers(link, p, Some(url@)));
                proof {
                    after = after + 1;
                }
                last_col = c;
                last_row = r;
            } else {
                assert(text::text_of(other) != Some(url@));
                assert(answers_other(link, p, url@));
                more = false;
            }
        }
    }
    let spans = spans_between(lines, (first_col, first_row), (last_col, last_row));
    let found = Some((url, spans));
    assert(is_link(
        link,
        Cell { col, row },
        found.unwrap().0@,
        found.unwrap().1@,
        wrap::texts(lines@),
        cols,
        rows,
        before,
        after,
    ));
    found
}

/// The parts of the rows that the cells from `first` to `last`, each given as
/// column and row, cover.
pub fn spans_between(lines: &[String], first: (u16, u16), last: (u16, u16)) -> (spans: Vec<
    (usize, Range<usize>),
>)
    requires
        1 <= first.1 <= last.1,
    ensures
        covers_from_to(
            spans@,
            wrap::texts(lines@),
            Cell { col: first.0, row: first.1 },
            Cell { col: last.0, row: last.1 },
        ),
{
    let ghost ts = wrap::texts(lines@);
    let ghost f = Cell { col: first.0, row: first.1 };
    let ghost l = Cell { col: last.0, row: last.1 };
    let mut spans: Vec<(usize, Range<usize>)> = Vec::new();
    let mut r: usize = first.1 as usize;
    while r <= last.1 as usize
        invariant
            ts == wrap::texts(lines@),
            f == (Cell { col: first.0, row: first.1 }),
            l == (Cell { col: last.0, row: last.1 }),
            1 <= first.1 <= r <= last.1 + 1,
            wrap::same_spans(spans@, link_spans(ts, f, l, r as int)),
        decreases last.1 + 1 - r,
    {
        if r <= lines.len() {
            let line = lines[r - 1].as_str();
            assert(line@ == ts[r - 1]);
            let start: usize = if r == first.1 as usize {
                byte_index_for_column_in_line(line, first.0)
            } else {
                0
            };
            let end: usize = if r == last.1 as usize {
                byte_index_for_column_in_line(line, last.0.saturating_add(1))
            } else {
                line.as_bytes().len()
            };
            if start < end {
                spans.push((r - 1, start..end));
            }
        }
        r = r + 1;
    }
    spans
}

/// Cells are walked in reading order: with `(row - 1) * cols + col` for a cell's number,
/// the cell before has the number before, and the cell after the number after. Only
/// the first cell of the screen has none before it, and only the last none after it.
pub proof fn law_cells_in_reading_order(c: Cell, cols: u16, rows: u16)
    requires
        on_screen(c, cols, rows),
    ensures
        prev_cell(c, cols) is None <==> c.col == 1 && c.row == 1,
        next_cell(c, cols, rows) is None <==> c.col == cols && c.row == rows,
        prev_cell(c, cols) matches Some(p) ==> {
            &&& 1 <= p.col <= cols && 1 <= p.row <= rows
            &&& (p.row - 1) * cols + p.col == (c.row - 1) * cols + c.col - 1
            &&& next_cell(p, cols, rows) == Some(c)
        },
        next_cell(c, cols, rows) matches Some(n) ==> {
            &&& 1 <= n.col <= cols && 1 <= n.row <= rows
            &&& (n.row - 1) * cols + n.col == (c.row - 1) * cols + c.col + 1
            &&& prev_cell(n, cols) == Some(c)
        },
{
    assert((c.row - 2) * cols == (c.row - 1) * cols - cols) by (nonlinear_arith);
    assert(c.row * cols == (c.row - 1) * cols + cols) by (nonlinear_arith);
}

/// Columns and rows count from 1.
pub proof fn law_cells_on_screen(c: Cell, cols: u16, rows: u16)
    ensures
        on_screen(c, cols, rows) <==> c.col != 0 && c.row != 0 && c.col <= cols && c.row <= rows,
{
}

/// Walking a number of cells back and the same number ahead comes back to the cell.
pub proof fn law_there_and_back(c: Cell, cols: u16, rows: u16, k: nat)
    requires
        on_screen(c, cols, rows),
        back(c, cols, k) is Some,
    ensures
        on_screen(back(c, cols, k).unwrap(), cols, rows),
        ahead(back(c, cols, k).unwrap(), cols, rows, k) == Some(c),
    decreases k,
{
    if k > 0 {
        let p = back(c, cols, (k - 1) as nat).unwrap();
        law_there_and_back(c, cols, rows, (k - 1) as nat);
        law_cells_in_reading_order(p, cols, rows);
        lemma_ahead_from_the_start(back(c, cols, k).unwrap(), cols, rows, (k - 1) as nat);
    }
}

proof fn lemma_ahead_from_the_start(c: Cell, cols: u16, rows: u16, k: nat)
    requires
        next_cell(c, cols, rows) is Some,
    ensures
        ahead(c, cols, rows, k + 1) == ahead(next_cell(c, cols, rows).unwrap(), cols, rows, k),
    decreases k,
{
    reveal_with_fuel(ahead, 2);
    if k > 0 {
        lemma_ahead_from_the_start(c, cols, rows, (k - 1) as nat);
    }
}

/// What cells cover of a row: on the row of the first cell from where its text starts,
/// on the row of the last cell to where the text of the cell behind it starts, and
/// all of a row between them.
pub proof fn law_covered(line: Seq<char>, r: int, first: Cell, last: Cell)
    requires
        first.row <= r <= last.row,
        last.col < u16::MAX,
    ensures
        r == first.row ==> covered(line, r, first, last).0 == cells::column_offset(
            line,
            first.col as int,
        ),
        r > first.row ==> covered(line, r, first, last).0 == 0,
        r == last.row ==> covered(line, r, first, last).1 == cells::column_offset(
            line,
            last.col + 1,
        ),
        r < last.row ==> covered(line, r, first, last).1 == encode_utf8(line).len(),
{
}

/// The parts of the rows that cells cover: at most one for each row, in order, none of
/// them empty, and each what is covered of its row.
pub proof fn law_link_spans(lines: Seq<Seq<char>>, first: Cell, last: Cell, r: int, i: int)
    requires
        first.row >= 1,
        0 <= i < link_spans(lines, first, last, r).len(),
    ensures
        ({
            let spans = link_spans(lines, first, last, r);
            let s = spans[i];
            &&& first.row - 1 <= s.row < r - 1
            &&& 0 <= s.row < lines.len()
            &&& s.start < s.end
            &&& (s.start, s.end) == covered(lines[s.row], s.row + 1, first, last)
            &&& i > 0 ==> spans[i - 1].row < s.row
        }),
    decreases r - first.row,
{
    let earlier = link_spans(lines, first, last, r - 1);
    if i < earlier.len() {
        law_link_spans(lines, first, last, r - 1, i);
    } else if i > 0 {
        law_link_spans(lines, first, last, r - 1, i - 1);
    }
}

/// No row is left out: a row between the first and the last cell of which something is
/// covered has its part.
pub proof fn law_every_covered_row_has_its_span(
    lines: Seq<Seq<char>>,
    first: Cell,
    last: Cell,
    r: int,
    row: int,
)
    requires
        first.row >= 1,
        first.row - 1 <= row < r - 1,
        row < lines.len(),
        covered(lines[row], row + 1, first, last).0 < covered(lines[row], row + 1, first, last).1,
    ensures
        exists|i: int|
            0 <= i < link_spans(lines, first, last, r).len() && (#[trigger] link_spans(
                lines,
                first,
                last,
                r,
            )[i]).row == row,
    decreases r - first.row,
{
    let spans = link_spans(lines, first, last, r);
    let earlier = link_spans(lines, first, last, r - 1);
    if row == r - 2 {
        assert(spans[earlier.len() as int].row == row);
    } else {
        law_every_covered_row_has_its_span(lines, first, last, r - 1, row);
        let i = choose|i: int| 0 <= i < earlier.len() && (#[trigger] earlier[i]).row == row;
        assert(spans[i].row == row);
    }
}

/// A hyperlink is all of its cells and no others. Each cell from its first to its last
/// has it, and where there is a cell before its first, or behind its last, that one
/// was found to have another, or none.
pub proof fn law_link_reaches_as_far_as_it_goes<F: Fn(u16, u16) -> Option<String>>(
    link: F,
    at: Cell,
    url: Seq<char>,
    cols: u16,
    rows: u16,
    before: nat,
    after: nat,
    k: nat,
)
    requires
        begins(link, at, url, cols, before),
        ends(link, at, url, cols, rows, after),
    ensures
        k <= before ==> (back(at, cols, k) matches Some(c) && exists|r: Option<String>| #[trigger]
            call_ensures(link, (c.col, c.row), r) && r is Some && r.unwrap()@ == url),
        k <= after ==> (ahead(at, cols, rows, k) matches Some(c) && exists|r: Option<String>| #[trigger]
            call_ensures(link, (c.col, c.row), r) && r is Some && r.unwrap()@ == url),
        back(at, cols, before + 1) matches Some(c) ==> exists|r: Option<String>| #[trigger]
            call_ensures(link, (c.col, c.row), r) && (r is None || r.unwrap()@ != url),
        ahead(at, cols, rows, after + 1) matches Some(c) ==> exists|r: Option<String>| #[trigger]
            call_ensures(link, (c.col, c.row), r) && (r is None || r.unwrap()@ != url),
{
    if k <= before {
        let c = back(at, cols, k).unwrap();
        assert(answers(link, c, Some(url)));
        let r = choose|r: Option<String>| #[trigger]
            call_ensures(link, (c.col, c.row), r) && text::text_of(r) == Some(url);
        assert(r is Some && r.unwrap()@ == url);
    }
    if k <= after {
        let c = ahead(at, cols, rows, k).unwrap();
        assert(answers(link, c, Some(url)));
        let r = choose|r: Option<String>| #[trigger]
            call_ensures(link, (c.col, c.row), r) && text::text_of(r) == Some(url);
        assert(r is Some && r.unwrap()@ == url);
    }
    if let Some(c) = back(at, cols, before + 1) {
        assert(answers_other(link, c, url));
        let r = choose|r: Option<String>| #[trigger]
            call_ensures(link, (c.col, c.row), r) && text::text_of(r) != Some(url);
        assert(r is None || r.unwrap()@ != url);
    }
    if let Some(c) = ahead(at, cols, rows, after + 1) {
        assert(answers_other(link, c, url));
        let r = choose|r: Option<String>| #[trigger]
            call_ensures(link, (c.col, c.row), r) && text::text_of(r) != Some(url);
        assert(r is None || r.unwrap()@ != url);
    }
}

/// The cells from `first` to `last` cover a part of each of their rows that has text
/// for them, the first and the last row included, and nothing of any other row.
pub proof fn law_cells_cover_their_rows(
    spans: Seq<(usize, Range<usize>)>,
    lines: Seq<Seq<char>>,
    first: Cell,
    last: Cell,
    row: int,
)
    requires
        1 <= first.row <= last.row,
        covers_from_to(spans, lines, first, last),
        0 <= row < lines.len(),
    ensures
        first.row <= row + 1 <= last.row && covered(lines[row], row + 1, first, last).0 < covered(
            lines[row],
            row + 1,
            first,
            last,
        ).1 ==> exists|i: int|
            0 <= i < spans.len() && (#[trigger] spans[i]).0 == row && (
            spans[i].1.start as int, spans[i].1.end as int) == covered(
                lines[row],
                row + 1,
                first,
                last,
            ),
        forall|i: int|
            0 <= i < spans.len() ==> first.row <= (#[trigger] spans[i]).0 + 1 <= last.row,
{
    let r = last.row + 1;
    let model = link_spans(lines, first, last, r);
    assert forall|i: int| 0 <= i < spans.len() implies first.row <= (#[trigger] spans[i]).0 + 1
        <= last.row by {
        law_link_spans(lines, first, last, r, i);
    }
    if first.row <= row + 1 <= last.row && covered(lines[row], row + 1, first, last).0 < covered(
        lines[row],
        row + 1,
        first,
        last,
    ).1 {
        law_every_covered_row_has_its_span(lines, first, last, r, row);
        let i = choose|i: int| 0 <= i < model.len() && (#[trigger] model[i]).row == row;
        law_link_spans(lines, first, last, r, i);
        assert(spans[i].0 == model[i].row);
    }
}

/// A link that was found begins and ends where its cells do, and its spans are what
/// these cover.
pub proof fn law_found_link<F: Fn(u16, u16) -> Option<String>>(
    link: F,
    at: Cell,
    url: Seq<char>,
    spans: Seq<(usize, Range<usize>)>,
    lines: Seq<Seq<char>>,
    cols: u16,
    rows: u16,
    before: nat,
    after: nat,
)
    requires
        is_link(link, at, url, spans, lines, cols, rows, before, after),
    ensures
        begins(link, at, url, cols, before),
        ends(link, at, url, cols, rows, after),
        back(at, cols, before) is Some,
        ahead(at, cols, rows, after) is Some,
        covers_from_to(
            spans,
            lines,
            back(at, cols, before).unwrap(),
            ahead(at, cols, rows, after).unwrap(),
        ),
{
}

} // verus!
