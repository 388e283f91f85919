//! How the style runs of a row are drawn: text spans, backgrounds, and the cells
//! whose glyphs are rectangles.
use vstd::prelude::*;
use vstd::utf8::*;
use crate::cells;
use crate::cells::{byte_index_for_column_in_line, cell_widths};
use crate::glyph;
use crate::glyph::{box_drawing_mask, has_block_rects};
use crate::text;
use crate::text::{byte_len, chars_of};
use crate::types::{Rgb, StyleRun};

verus! {

pub const CELL_STYLE_FLAG_BOLD: u8 = 0x02;

pub const CELL_STYLE_FLAG_ITALIC: u8 = 0x04;

pub const CELL_STYLE_FLAG_UNDERLINE: u8 = 0x08;

pub const CELL_STYLE_FLAG_FAINT: u8 = 0x10;

pub const CELL_STYLE_FLAG_STRIKETHROUGH: u8 = 0x40;

/// The flags that text is drawn by, together.
pub const TEXT_STYLE_FLAGS: u8 = 0x5e;

/// What text in a style is drawn by.
#[derive(Clone, Copy, Debug, PartialEq, Eq, Structural)]
pub struct TextRunKey {
    pub fg: Rgb,
    pub flags: u8,
}

/// A stretch of `len` bytes drawn in one style; `None` for the default style.
#[derive(Clone, Copy, Debug, PartialEq, Eq, Structural)]
pub struct TextSpan {
    pub len: usize,
    pub key: Option<TextRunKey>,
}

/// What text in the style of a run is drawn by.
pub open spec fn key_of(run: StyleRun) -> TextRunKey {
    TextRunKey { fg: run.fg, flags: run.flags & TEXT_STYLE_FLAGS }
}

/// The flags of a style, one by one.
#[derive(Clone, Copy, Debug, PartialEq, Eq)]
pub struct TextAttributes {
    pub bold: bool,
    pub italic: bool,
    pub underline: bool,
    pub faint: bool,
    pub strikethrough: bool,
}

impl TextRunKey {
    /// The flags of the style, one by one.
    pub fn attributes(self) -> (a: TextAttributes)
        ensures
            a.bold == (self.flags & CELL_STYLE_FLAG_BOLD != 0),
            a.italic == (self.flags & CELL_STYLE_FLAG_ITALIC != 0),
            a.underline == (self.flags & CELL_STYLE_FLAG_UNDERLINE != 0),
            a.faint == (self.flags & CELL_STYLE_FLAG_FAINT != 0),
            a.strikethrough == (self.flags & CELL_STYLE_FLAG_STRIKETHROUGH != 0),
            a.bold == (self.flags & 0x02 != 0),
            a.italic == (self.flags & 0x04 != 0),
            a.underline == (self.flags & 0x08 != 0),
            a.faint == (self.flags & 0x10 != 0),
            a.strikethrough == (self.flags & 0x40 != 0),
    {
        TextAttributes {
            bold: self.flags & CELL_STYLE_FLAG_BOLD != 0,
            italic: self.flags & CELL_STYLE_FLAG_ITALIC != 0,
            underline: self.flags & CELL_STYLE_FLAG_UNDERLINE != 0,
            faint: self.flags & CELL_STYLE_FLAG_FAINT != 0,
            strikethrough: self.flags & CELL_STYLE_FLAG_STRIKETHROUGH != 0,
        }
    }
}

/// The kept flags are exactly those that text is drawn by: none of them is lost,
/// and no other stays.
pub proof fn law_key_keeps_text_flags(run: StyleRun)
    ensures
        key_of(run).flags & CELL_STYLE_FLAG_BOLD == run.flags & CELL_STYLE_FLAG_BOLD,
        key_of(run).flags & CELL_STYLE_FLAG_ITALIC == run.flags & CELL_STYLE_FLAG_ITALIC,
        key_of(run).flags & CELL_STYLE_FLAG_UNDERLINE == run.flags & CELL_STYLE_FLAG_UNDERLINE,
        key_of(run).flags & CELL_STYLE_FLAG_FAINT == run.flags & CELL_STYLE_FLAG_FAINT,
        key_of(run).flags & CELL_STYLE_FLAG_STRIKETHROUGH == run.flags
            & CELL_STYLE_FLAG_STRIKETHROUGH,
        key_of(run).flags & !TEXT_STYLE_FLAGS == 0,
{
    let f = run.flags;
    assert((f & 0x5e) & 0x02 == f & 0x02) by (bit_vector);
    assert((f & 0x5e) & 0x04 == f & 0x04) by (bit_vector);
    assert((f & 0x5e) & 0x08 == f & 0x08) by (bit_vector);
    assert((f & 0x5e) & 0x10 == f & 0x10) by (bit_vector);
    assert((f & 0x5e) & 0x40 == f & 0x40) by (bit_vector);
    assert((f & 0x5e) & !0x5eu8 == 0) by (bit_vector);
}

/// The column after the last one of a run.
pub open spec fn past_col(run: StyleRun) -> int {
    if run.end_col < u16::MAX {
        run.end_col + 1
    } else {
        u16::MAX as int
    }
}

/// Where in the line the text of a run begins.
pub open spec fn run_start(line: Seq<char>, run: StyleRun) -> int {
    cells::column_offset(line, run.start_col as int) as int
}

/// Where in the line the text of a run ends.
pub open spec fn run_end(line: Seq<char>, run: StyleRun) -> int {
    cells::column_offset(line, past_col(run)) as int
}

/// How far into the line the first `k` runs reach.
pub open spec fn reached(line: Seq<char>, runs: Seq<StyleRun>, k: int) -> int
    decreases k,
{
    if k <= 0 || k > runs.len() {
        0
    } else {
        let before = reached(line, runs, k - 1);
        let start = run_start(line, runs[k - 1]);
        let end = run_end(line, runs[k - 1]);
        if end > start {
            end
        } else if start > before {
            start
        } else {
            before
        }
    }
}

/// The spans of the first `k` runs: a run's own text, and before it, in the
/// default style, what lies between it and the runs before.
pub open spec fn spans_of(line: Seq<char>, runs: Seq<StyleRun>, k: int) -> Seq<TextSpan>
    decreases k,
{
    if k <= 0 || k > runs.len() {
        Seq::empty()
    } else {
        let before = reached(line, runs, k - 1);
        let start = run_start(line, runs[k - 1]);
        let end = run_end(line, runs[k - 1]);
        let gap = if start > before {
            seq![TextSpan { len: (start - before) as usize, key: None }]
        } else {
            Seq::empty()
        };
        let own = if end > start {
            seq![TextSpan { len: (end - start) as usize, key: Some(key_of(runs[k - 1])) }]
        } else {
            Seq::empty()
        };
        spans_of(line, runs, k - 1) + gap + own
    }
}

/// The spans of a line: those of its runs, and the rest of the line in the
/// default style. Where that leaves no span, a single one in the default style
/// takes in the whole line.
pub open spec fn line_spans(line: Seq<char>, runs: Seq<StyleRun>) -> Seq<TextSpan> {
    let n = runs.len() as int;
    let len = encode_utf8(line).len();
    let styled = spans_of(line, runs, n);
    let rest = if n > 0 && reached(line, runs, n) < len {
        seq![TextSpan { len: (len - reached(line, runs, n)) as usize, key: None }]
    } else {
        Seq::empty()
    };
    if (styled + rest).len() == 0 {
        seq![TextSpan { len: len as usize, key: None }]
    } else {
        styled + rest
    }
}

/// The spans in which a row is drawn, by its text and its style runs. In printable
/// ASCII the columns of the runs are the bytes of the line.
pub fn build_runs_for_line(line: &str, style_runs: &[StyleRun]) -> (spans: Vec<TextSpan>)
    ensures
        spans@ == line_spans(line@, style_runs@),
        style_runs@.len() > 0 && cells::all_printable(line@) ==> cells::columns_are_bytes(line@),
{
    let len: usize = byte_len(line);
    let mut spans: Vec<TextSpan> = Vec::new();
    let mut byte_pos: usize = 0;
    let mut i: usize = 0;
    while i < style_runs.len()
        invariant
            len == encode_utf8(line@).len(),
            i <= style_runs@.len(),
            byte_pos == reached(line@, style_runs@, i as int),
            byte_pos <= len,
            spans@ == spans_of(line@, style_runs@, i as int),
            i > 0 && cells::all_printable(line@) ==> cells::columns_are_bytes(line@),
        decreases style_runs@.len() - i,
    {
        let style = style_runs[i];
        let key = TextRunKey { fg: style.fg, flags: style.flags & TEXT_STYLE_FLAGS };
        let start: usize = byte_index_for_column_in_line(line, style.start_col);
        let end: usize = byte_index_for_column_in_line(line, style.end_col.saturating_add(1));
        let ghost before = spans@;
        if start > byte_pos {
            spans.push(TextSpan { len: start - byte_pos, key: None });
            byte_pos = start;
        }
        if end > start {
            spans.push(TextSpan { len: end - start, key: Some(key) });
            byte_pos = end;
        }
        i = i + 1;
        assert(spans@ =~= spans_of(line@, style_runs@, i as int));
    }
    let ghost styled = spans@;
    if style_runs.len() > 0 && byte_pos < len {
        spans.push(TextSpan { len: len - byte_pos, key: None });
    }
    if spans.len() == 0 {
        spans.push(TextSpan { len, key: None });
    }
    assert(spans@ =~= line_spans(line@, style_runs@));
    spans
}

/// The bytes of all spans together.
pub open spec fn spans_len(spans: Seq<TextSpan>) -> nat
    decreases spans.len(),
{
    if spans.len() == 0 {
        0
    } else {
        spans_len(spans.drop_last()) + spans.last().len as nat
    }
}

proof fn lemma_spans_len_concat(a: Seq<TextSpan>, b: Seq<TextSpan>)
    ensures
        spans_len(a + b) == spans_len(a) + spans_len(b),
    decreases b.len(),
{
    if b.len() == 0 {
        assert(a + b =~= a);
    } else {
        assert((a + b).drop_last() =~= a + b.drop_last());
        lemma_spans_len_concat(a, b.drop_last());
    }
}

proof fn lemma_spans_len_one(span: TextSpan)
    ensures
        spans_len(seq![span]) == span.len,
{
    let one = seq![span];
    assert(one.drop_last() =~= Seq::<TextSpan>::empty());
    assert(spans_len(one.drop_last()) == 0);
}

/// A later column lies no earlier in the line.
pub proof fn lemma_column_offset_mono(line: Seq<char>, a: int, b: int)
    requires
        a <= b,
    ensures
        cells::column_offset(line, a) <= cells::column_offset(line, b) <= encode_utf8(line).len(),
{
    let ws = cells::widths_of(line);
    cells::law_columns_are_covered(ws, a);
    cells::law_columns_are_covered(ws, b);
    let j = cells::char_at_column(ws, b);
    text::lemma_byte_offset_mono(line, 0, j);
    if a > 1 {
        let i = cells::char_at_column(ws, a);
        if exists|k: int| cells::covers(ws, k, b) {
            assert(cells::covers(ws, j, b));
            cells::lemma_columns_mono(ws, j + 1, ws.len() as int);
            assert(cells::covers(ws, i, a));
            if j < i {
                cells::lemma_columns_mono(ws, j + 1, i);
            }
        }
        text::lemma_byte_offset_mono(line, i, j);
    }
}

/// The runs come in column order and do not overlap.
pub open spec fn in_order(runs: Seq<StyleRun>) -> bool {
    &&& forall|i: int| 0 <= i < runs.len() ==> (#[trigger] runs[i]).start_col <= runs[i].end_col
    &&& forall|i: int, j: int|
        0 <= i < j < runs.len() ==> (#[trigger] runs[i]).end_col < (#[trigger] runs[j]).start_col
}

proof fn lemma_spans_reach(line: Seq<char>, runs: Seq<StyleRun>, k: int)
    requires
        in_order(runs),
        0 <= k <= runs.len(),
        encode_utf8(line).len() <= usize::MAX,
    ensures
        spans_len(spans_of(line, runs, k)) == reached(line, runs, k),
        0 <= reached(line, runs, k) <= encode_utf8(line).len(),
        k > 0 ==> reached(line, runs, k) <= cells::column_offset(line, past_col(runs[k - 1])),
    decreases k,
{
    if k > 0 {
        lemma_spans_reach(line, runs, k - 1);
        let run = runs[k - 1];
        let before = reached(line, runs, k - 1);
        let start = run_start(line, run);
        let end = run_end(line, run);
        lemma_column_offset_mono(line, run.start_col as int, past_col(run));
        if k > 1 {
            assert(runs[k - 2].end_col < runs[k - 1].start_col);
            lemma_column_offset_mono(line, past_col(runs[k - 2]), run.start_col as int);
        }
        let head = spans_of(line, runs, k - 1);
        let gap = if start > before {
            seq![TextSpan { len: (start - before) as usize, key: None }]
        } else {
            Seq::empty()
        };
        let own = if end > start {
            seq![TextSpan { len: (end - start) as usize, key: Some(key_of(run)) }]
        } else {
            Seq::empty()
        };
        lemma_spans_len_concat(head, gap);
        lemma_spans_len_concat(head + gap, own);
        if start > before {
            lemma_spans_len_one(gap[0]);
        }
        if end > start {
            lemma_spans_len_one(own[0]);
        }
    }
}

/// The spans of a line cover it exactly: where the runs are in order, each byte
/// is drawn once.
pub proof fn law_spans_cover_line(line: Seq<char>, runs: Seq<StyleRun>)
    requires
        in_order(runs),
        encode_utf8(line).len() <= usize::MAX,
    ensures
        spans_len(line_spans(line, runs)) == encode_utf8(line).len(),
{
    let n = runs.len() as int;
    let len = encode_utf8(line).len();
    lemma_spans_reach(line, runs, n);
    let styled = spans_of(line, runs, n);
    let rest = if n > 0 && reached(line, runs, n) < len {
        seq![TextSpan { len: (len - reached(line, runs, n)) as usize, key: None }]
    } else {
        Seq::empty()
    };
    lemma_spans_len_concat(styled, rest);
    if rest.len() > 0 {
        lemma_spans_len_one(rest[0]);
    }
    lemma_spans_len_one(TextSpan { len: len as usize, key: None });
}

/// A background that differs from the default one: the cells from `first`,
/// counted from 0, on.
#[derive(Clone, Copy, Debug, PartialEq, Eq, Structural)]
pub struct BackgroundSpan {
    pub first: u16,
    pub cells: u16,
    pub color: Rgb,
}

/// The background of a run.
pub open spec fn background_of(run: StyleRun) -> BackgroundSpan {
    let covered: int = if run.end_col < run.start_col {
        1
    } else {
        run.end_col - run.start_col + 1
    };
    BackgroundSpan {
        first: if run.start_col == 0 {
            0
        } else {
            (run.start_col - 1) as u16
        },
        cells: if covered <= u16::MAX {
            covered as u16
        } else {
            u16::MAX
        },
        color: run.bg,
    }
}

/// The backgrounds of a row: one for each run that does not have the default
/// background.
pub open spec fn row_backgrounds(runs: Seq<StyleRun>, default_bg: Rgb) -> Seq<BackgroundSpan>
    decreases runs.len(),
{
    if runs.len() == 0 {
        Seq::empty()
    } else if runs.last().bg == default_bg {
        row_backgrounds(runs.drop_last(), default_bg)
    } else {
        row_backgrounds(runs.drop_last(), default_bg).push(background_of(runs.last()))
    }
}

/// The backgrounds of a row that are drawn over the default one.
pub fn build_backgrounds_for_row(style_runs: &[StyleRun], default_bg: Rgb) -> (out: Vec<
    BackgroundSpan,
>)
    ensures
        out@ == row_backgrounds(style_runs@, default_bg),
{
    let mut out: Vec<BackgroundSpan> = Vec::new();
    let mut i: usize = 0;
    assert(style_runs@.take(0) =~= Seq::<StyleRun>::empty());
    while i < style_runs.len()
        invariant
            i <= style_runs@.len(),
            out@ == row_backgrounds(style_runs@.take(i as int), default_bg),
        decreases style_runs@.len() - i,
    {
        let run = style_runs[i];
        assert(style_runs@.take(i + 1).drop_last() =~= style_runs@.take(i as int));
        if run.bg != default_bg {
            out.push(
                BackgroundSpan {
                    first: run.start_col.saturating_sub(1),
                    cells: run.end_col.saturating_sub(run.start_col).saturating_add(1),
                    color: run.bg,
                },
            );
        }
        i = i + 1;
    }
    assert(style_runs@.take(i as int) =~= style_runs@);
    out
}

/// The background behind column `col` of a row: that of the first run that holds
/// the column, else the default one.
pub open spec fn background_at(runs: Seq<StyleRun>, col: u16, default_bg: Rgb) -> Rgb
    decreases runs.len(),
{
    if runs.len() == 0 {
        default_bg
    } else if runs[0].start_col <= col <= runs[0].end_col {
        runs[0].bg
    } else {
        background_at(runs.drop_first(), col, default_bg)
    }
}

/// The background behind column `col` of a row.
pub fn background_at_column(style_runs: &[StyleRun], col: u16, default_bg: Rgb) -> (r: Rgb)
    ensures
        r == background_at(style_runs@, col, default_bg),
{
    let mut i: usize = 0;
    assert(style_runs@.skip(0) =~= style_runs@);
    while i < style_runs.len()
        invariant
            i <= style_runs@.len(),
            background_at(style_runs@, col, default_bg) == background_at(
                style_runs@.skip(i as int),
                col,
                default_bg,
            ),
        decreases style_runs@.len() - i,
    {
        let run = style_runs[i];
        assert(style_runs@.skip(i as int)[0] == run);
        assert(style_runs@.skip(i as int).drop_first() =~= style_runs@.skip(i + 1));
        if run.start_col <= col && col <= run.end_col {
            return run.bg;
        }
        i = i + 1;
    }
    default_bg
}

/// A colour as red, green, blue and full opacity, one byte each.
pub fn opaque_rgba(color: Rgb) -> (r: u32)
    ensures
        r == color.r * 0x100_0000 + color.g * 0x1_0000 + color.b * 0x100 + 0xff,
{
    color.r as u32 * 0x100_0000 + color.g as u32 * 0x1_0000 + color.b as u32 * 0x100 + 0xff
}

/// A cell whose glyph is drawn as rectangles: its column, counted from 0, its
/// glyph, and its style where a run gives it one.
#[derive(Clone, Copy, Debug, PartialEq, Eq, Structural)]
pub struct BoxCell {
    pub col: usize,
    pub ch: char,
    pub key: Option<TextRunKey>,
}

/// The first run, from index `k` on, that does not end before column `col`.
pub open spec fn run_from(runs: Seq<StyleRun>, k: int, col: u16) -> int
    decreases runs.len() - k,
{
    if k < 0 || k >= runs.len() || col <= runs[k].end_col {
        k
    } else {
        run_from(runs, k + 1, col)
    }
}

/// The glyph is drawn as rectangles.
pub open spec fn is_drawn(ch: char) -> bool {
    glyph::box_sides(ch) is Some || glyph::block_rects(ch) is Some
}

/// The column, counted from 1, at which character `i` starts.
pub open spec fn start_column(ws: Seq<usize>, i: int) -> usize {
    text::capped((1 + cells::columns(ws, i)) as nat)
}

/// The column of character `i` as runs count it.
pub open spec fn run_column(ws: Seq<usize>, i: int) -> u16 {
    (start_column(ws, i) as int % 0x1_0000) as u16
}

/// Which run the cells after the first `i` characters are looked for from.
pub open spec fn box_run(chars: Seq<char>, ws: Seq<usize>, runs: Seq<StyleRun>, i: int) -> int
    decreases i,
{
    if i <= 0 || i > chars.len() {
        0
    } else {
        let before = box_run(chars, ws, runs, i - 1);
        if ws[i - 1] > 0 && is_drawn(chars[i - 1]) {
            run_from(runs, before, run_column(ws, i - 1))
        } else {
            before
        }
    }
}

/// The style of a cell at column `col`, if run `k` holds it.
pub open spec fn style_in(runs: Seq<StyleRun>, k: int, col: u16) -> Option<TextRunKey> {
    if 0 <= k < runs.len() && runs[k].start_col <= col <= runs[k].end_col {
        Some(key_of(runs[k]))
    } else {
        None
    }
}

/// The cells among the first `i` characters whose glyphs are drawn as
/// rectangles.
pub open spec fn box_cells(
    chars: Seq<char>,
    ws: Seq<usize>,
    runs: Seq<StyleRun>,
    i: int,
) -> Seq<BoxCell>
    decreases i,
{
    if i <= 0 || i > chars.len() {
        Seq::empty()
    } else if ws[i - 1] > 0 && is_drawn(chars[i - 1]) {
        let k = box_run(chars, ws, runs, i);
        box_cells(chars, ws, runs, i - 1).push(
            BoxCell {
                col: (start_column(ws, i - 1) - 1) as usize,
                ch: chars[i - 1],
                key: style_in(runs, k, run_column(ws, i - 1)),
            },
        )
    } else {
        box_cells(chars, ws, runs, i - 1)
    }
}

/// The cells of a row whose glyphs are drawn as rectangles, by the widths of its
/// characters.
pub fn box_cells_by_width(chars: &Vec<char>, ws: &Vec<usize>, style_runs: &[StyleRun]) -> (out: Vec<
    BoxCell,
>)
    requires
        ws@.len() == chars@.len(),
    ensures
        out@ == box_cells(chars@, ws@, style_runs@, chars@.len() as int),
{
    let mut out: Vec<BoxCell> = Vec::new();
    let mut run_idx: usize = 0;
    let mut col: usize = 1;
    let mut i: usize = 0;
    while i < chars.len()
        invariant
            ws@.len() == chars@.len(),
            i <= chars@.len(),
            run_idx <= style_runs@.len(),
            run_idx == box_run(chars@, ws@, style_runs@, i as int),
            col == start_column(ws@, i as int),
            out@ == box_cells(chars@, ws@, style_runs@, i as int),
        decreases chars@.len() - i,
    {
        let ch = chars[i];
        let width: usize = ws[i];
        if width > 0 && (box_drawing_mask(ch).is_some() || has_block_rects(ch)) {
            let at: u16 = (col % 0x1_0000) as u16;
            let ghost from = run_idx as int;
            while run_idx < style_runs.len() && style_runs[run_idx].end_col < at
                invariant
                    run_idx <= style_runs@.len(),
                    run_from(style_runs@, from, at) == run_from(style_runs@, run_idx as int, at),
                decreases style_runs@.len() - run_idx,
            {
                run_idx = run_idx + 1;
            }
            let key = if run_idx < style_runs.len() && style_runs[run_idx].start_col <= at && at
                <= style_runs[run_idx].end_col {
                let run = style_runs[run_idx];
                Some(TextRunKey { fg: run.fg, flags: run.flags & TEXT_STYLE_FLAGS })
            } else {
                None
            };
            out.push(BoxCell { col: col - 1, ch, key });
        }
        col = col.saturating_add(width);
        i = i + 1;
    }
    out
}

/// The cells of a row whose glyphs are drawn as rectangles.
pub fn build_box_cells_for_row(line: &str, style_runs: &[StyleRun]) -> (out: Vec<BoxCell>)
    ensures
        out@ == box_cells(line@, cells::widths_of(line@), style_runs@, line@.len() as int),
        forall|i: int|
            0 <= i < line@.len() && cells::is_printable(line@[i]) ==> #[trigger] cells::widths_of(
                line@,
            )[i] == 1,
{
    let chars = chars_of(line);
    let ws = cell_widths(&chars);
    box_cells_by_width(&chars, &ws, style_runs)
}

proof fn lemma_run_from(runs: Seq<StyleRun>, k: int, col: u16)
    requires
        0 <= k <= runs.len(),
    ensures
        k <= run_from(runs, k, col) <= runs.len(),
        forall|j: int| k <= j < run_from(runs, k, col) ==> (#[trigger] runs[j]).end_col < col,
        run_from(runs, k, col) < runs.len() ==> col <= runs[run_from(runs, k, col)].end_col,
    decreases runs.len() - k,
{
    if k < runs.len() && col > runs[k].end_col {
        lemma_run_from(runs, k + 1, col);
    }
}

proof fn lemma_box_run(chars: Seq<char>, ws: Seq<usize>, runs: Seq<StyleRun>, i: int)
    requires
        ws.len() == chars.len(),
        0 <= i <= chars.len(),
        1 + cells::columns(ws, chars.len() as int) <= u16::MAX,
    ensures
        0 <= box_run(chars, ws, runs, i) <= runs.len(),
        forall|j: int|
            0 <= j < box_run(chars, ws, runs, i) ==> (#[trigger] runs[j]).end_col
                < 1 + cells::columns(ws, i),
    decreases i,
{
    if i > 0 {
        lemma_box_run(chars, ws, runs, i - 1);
        cells::lemma_columns_mono(ws, i - 1, i);
        cells::lemma_columns_mono(ws, i, ws.len() as int);
        if ws[i - 1] > 0 && is_drawn(chars[i - 1]) {
            let col = run_column(ws, i - 1);
            assert(col == 1 + cells::columns(ws, i - 1));
            lemma_run_from(runs, box_run(chars, ws, runs, i - 1), col);
        }
    }
}

/// On a row that fits into the columns a terminal can have, a drawn cell has the
/// style of the first run that does not end before it, where that run holds it:
/// remembering the run from one cell to the next loses nothing.
pub proof fn law_box_cell_style(chars: Seq<char>, ws: Seq<usize>, runs: Seq<StyleRun>, i: int)
    requires
        ws.len() == chars.len(),
        0 < i <= chars.len(),
        1 + cells::columns(ws, chars.len() as int) <= u16::MAX,
        ws[i - 1] > 0 && is_drawn(chars[i - 1]),
    ensures
        box_cells(chars, ws, runs, i).last() == (BoxCell {
            col: cells::columns(ws, i - 1) as usize,
            ch: chars[i - 1],
            key: style_in(
                runs,
                run_from(runs, 0, (1 + cells::columns(ws, i - 1)) as u16),
                (1 + cells::columns(ws, i - 1)) as u16,
            ),
        }),
{
    lemma_box_run(chars, ws, runs, i - 1);
    cells::lemma_columns_mono(ws, i - 1, ws.len() as int);
    let col = run_column(ws, i - 1);
    let from = box_run(chars, ws, runs, i - 1);
    lemma_run_from(runs, from, col);
    lemma_run_from(runs, 0, col);
    let a = run_from(runs, from, col);
    let b = run_from(runs, 0, col);
    if a < b {
        assert(runs[a].end_col < col);
    } else if b < a {
        assert(runs[b].end_col < col);
    }
}

/// Text is drawn in the foreground colour of its run, and keeps of its flags bold
/// (0x02), italic (0x04), underline (0x08), faint (0x10) and strikethrough (0x40).
pub proof fn law_text_key(run: StyleRun)
    ensures
        key_of(run).fg == run.fg,
        key_of(run).flags & 0x02 == run.flags & 0x02,
        key_of(run).flags & 0x04 == run.flags & 0x04,
        key_of(run).flags & 0x08 == run.flags & 0x08,
        key_of(run).flags & 0x10 == run.flags & 0x10,
        key_of(run).flags & 0x40 == run.flags & 0x40,
        key_of(run).flags & 0xa1 == 0,
{
    let f = run.flags;
    assert((f & 0x5e) & 0x02 == f & 0x02) by (bit_vector);
    assert((f & 0x5e) & 0x04 == f & 0x04) by (bit_vector);
    assert((f & 0x5e) & 0x08 == f & 0x08) by (bit_vector);
    assert((f & 0x5e) & 0x10 == f & 0x10) by (bit_vector);
    assert((f & 0x5e) & 0x40 == f & 0x40) by (bit_vector);
    assert((f & 0x5e) & 0xa1 == 0) by (bit_vector);
}

/// The style that spans give byte `b` of the text they cover.
pub open spec fn key_at(spans: Seq<TextSpan>, b: int) -> Option<TextRunKey>
    decreases spans.len(),
{
    if spans.len() == 0 {
        None
    } else if b < spans_len(spans.drop_last()) {
        key_at(spans.drop_last(), b)
    } else {
        spans.last().key
    }
}

proof fn lemma_key_at_push(spans: Seq<TextSpan>, span: TextSpan, b: int)
    ensures
        b < spans_len(spans) ==> key_at(spans.push(span), b) == key_at(spans, b),
        b >= spans_len(spans) ==> key_at(spans.push(span), b) == span.key,
        spans_len(spans.push(span)) == spans_len(spans) + span.len,
{
    assert(spans.push(span).drop_last() =~= spans);
}

/// What the spans of the first `k` runs say of each byte that they reach.
proof fn lemma_spans_style(line: Seq<char>, runs: Seq<StyleRun>, k: int, b: int)
    requires
        in_order(runs),
        0 <= k <= runs.len(),
        encode_utf8(line).len() <= usize::MAX,
        0 <= b < reached(line, runs, k),
    ensures
        forall|i: int|
            0 <= i < k && run_start(line, #[trigger] runs[i]) <= b < run_end(line, runs[i])
                ==> key_at(spans_of(line, runs, k), b) == Some(key_of(runs[i])),
        (forall|i: int|
            0 <= i < k ==> !(run_start(line, #[trigger] runs[i]) <= b < run_end(line, runs[i])))
            ==> key_at(spans_of(line, runs, k), b) is None,
    decreases k,
{
    lemma_spans_reach(line, runs, k);
    if k > 0 {
        lemma_spans_reach(line, runs, k - 1);
        let run = runs[k - 1];
        let before = reached(line, runs, k - 1);
        let start = run_start(line, run);
        let end = run_end(line, run);
        lemma_column_offset_mono(line, run.start_col as int, past_col(run));
        if k > 1 {
            assert(runs[k - 2].end_col < runs[k - 1].start_col);
            lemma_column_offset_mono(line, past_col(runs[k - 2]), run.start_col as int);
        }
        let head = spans_of(line, runs, k - 1);
        let gap = TextSpan { len: (start - before) as usize, key: None };
        let own = TextSpan { len: (end - start) as usize, key: Some(key_of(run)) };
        let filled = if start > before {
            head.push(gap)
        } else {
            head
        };
        let all = if end > start {
            filled.push(own)
        } else {
            filled
        };
        assert(spans_of(line, runs, k) =~= all);
        lemma_key_at_push(head, gap, b);
        lemma_key_at_push(filled, own, b);
        if b < before {
            lemma_spans_style(line, runs, k - 1, b);
        } else {
            assert forall|i: int| 0 <= i < k - 1 implies run_end(line, #[trigger] runs[i])
                <= before by {
                lemma_reached_holds(line, runs, k - 1, i);
            }
        }
    }
}

proof fn lemma_reached_holds(line: Seq<char>, runs: Seq<StyleRun>, k: int, i: int)
    requires
        in_order(runs),
        0 <= i < k <= runs.len(),
        encode_utf8(line).len() <= usize::MAX,
    ensures
        run_end(line, runs[i]) <= reached(line, runs, k),
    decreases k,
{
    lemma_column_offset_mono(line, runs[k - 1].start_col as int, past_col(runs[k - 1]));
    if i < k - 1 {
        lemma_reached_holds(line, runs, k - 1, i);
        assert(runs[i].end_col < runs[k - 1].start_col);
        lemma_spans_reach(line, runs, k - 1);
        assert(runs[k - 2].end_col < runs[k - 1].start_col);
        lemma_column_offset_mono(line, past_col(runs[k - 2]), runs[k - 1].start_col as int);
    }
}

/// Each byte of a line is drawn in the style of the run that holds its column: from
/// where the first column of the run starts in the line, up to where the column behind
/// its last one does. What no run holds is drawn in the default style.
pub proof fn law_bytes_have_the_style_of_their_run(line: Seq<char>, runs: Seq<StyleRun>, b: int)
    requires
        in_order(runs),
        runs.len() > 0,
        encode_utf8(line).len() <= usize::MAX,
        0 <= b < encode_utf8(line).len(),
        forall|i: int| 0 <= i < runs.len() ==> (#[trigger] runs[i]).end_col < u16::MAX,
    ensures
        forall|i: int|
            0 <= i < runs.len() && cells::column_offset(line, (#[trigger] runs[i]).start_col as int)
                <= b < cells::column_offset(line, runs[i].end_col + 1) ==> key_at(
                line_spans(line, runs),
                b,
            ) == Some(key_of(runs[i])),
        (forall|i: int|
            0 <= i < runs.len() ==> !(cells::column_offset(
                line,
                (#[trigger] runs[i]).start_col as int,
            ) <= b < cells::column_offset(line, runs[i].end_col + 1))) ==> key_at(
            line_spans(line, runs),
            b,
        ) is None,
{
    let n = runs.len() as int;
    let styled = spans_of(line, runs, n);
    let len = encode_utf8(line).len() as int;
    let done = reached(line, runs, n);
    lemma_spans_reach(line, runs, n);
    let rest = TextSpan { len: (len - done) as usize, key: None };
    lemma_key_at_push(styled, rest, b);
    if done < len {
        assert(line_spans(line, runs) =~= styled.push(rest));
    } else {
        assert(styled.len() > 0);
        assert(line_spans(line, runs) =~= styled);
    }
    if b < done {
        lemma_spans_style(line, runs, n, b);
    } else {
        assert forall|i: int| 0 <= i < n implies run_end(line, #[trigger] runs[i]) <= done by {
            lemma_reached_holds(line, runs, n, i);
        }
    }
}

/// A run that has another background than the default one fills its cells with it:
/// from the cell of its first column, counted from 0, up to that of its last one. A
/// run with the default background fills none.
pub proof fn law_backgrounds_of_a_row(runs: Seq<StyleRun>, run: StyleRun, default_bg: Rgb)
    requires
        1 <= run.start_col <= run.end_col,
    ensures
        row_backgrounds(Seq::empty(), default_bg) == Seq::<BackgroundSpan>::empty(),
        run.bg == default_bg ==> row_backgrounds(runs.push(run), default_bg) == row_backgrounds(
            runs,
            default_bg,
        ),
        run.bg != default_bg ==> ({
            let all = row_backgrounds(runs.push(run), default_bg);
            &&& all.drop_last() == row_backgrounds(runs, default_bg)
            &&& all.len() == row_backgrounds(runs, default_bg).len() + 1
            &&& all.last().first + 1 == run.start_col
            &&& all.last().first + all.last().cells == run.end_col
            &&& all.last().color == run.bg
        }),
{
    assert(runs.push(run).drop_last() =~= runs);
    if run.bg != default_bg {
        let all = row_backgrounds(runs.push(run), default_bg);
        assert(all.drop_last() =~= row_backgrounds(runs, default_bg));
    }
}

/// Behind a column lies the background of the first run that holds it, both ends
/// included; where none does, the default one.
pub proof fn law_background_behind_a_column(
    runs: Seq<StyleRun>,
    col: u16,
    default_bg: Rgb,
    i: int,
)
    ensures
        (0 <= i < runs.len() && runs[i].start_col <= col && col <= runs[i].end_col && (forall|j: int|
            0 <= j < i ==> col < (#[trigger] runs[j]).start_col || runs[j].end_col < col))
            ==> background_at(runs, col, default_bg) == runs[i].bg,
        (forall|j: int|
            0 <= j < runs.len() ==> col < (#[trigger] runs[j]).start_col || runs[j].end_col < col)
            ==> background_at(runs, col, default_bg) == default_bg,
    decreases runs.len(),
{
    if runs.len() > 0 {
        let rest = runs.drop_first();
        assert(forall|j: int| 0 <= j < rest.len() ==> rest[j] == runs[j + 1]);
        law_background_behind_a_column(rest, col, default_bg, i - 1);
        if !(runs[0].start_col <= col <= runs[0].end_col) {
            if 0 < i < runs.len() && (forall|j: int|
                0 <= j < i ==> col < (#[trigger] runs[j]).start_col || runs[j].end_col < col) {
                assert forall|j: int| 0 <= j < i - 1 implies col < (#[trigger] rest[j]).start_col
                    || rest[j].end_col < col by {
                    assert(rest[j] == runs[j + 1]);
                }
            }
            if forall|j: int|
                0 <= j < runs.len() ==> col < (#[trigger] runs[j]).start_col || runs[j].end_col
                    < col {
                assert forall|j: int|
                    0 <= j < rest.len() implies col < (#[trigger] rest[j]).start_col
                    || rest[j].end_col < col by {
                    assert(rest[j] == runs[j + 1]);
                }
            }
        }
    }
}

/// A drawn cell has the style of the run that holds its column, and the default style
/// where none does.
pub proof fn law_drawn_cells_have_the_style_of_their_run(
    chars: Seq<char>,
    ws: Seq<usize>,
    runs: Seq<StyleRun>,
    i: int,
    k: int,
)
    requires
        in_order(runs),
        ws.len() == chars.len(),
        0 <= i < chars.len(),
        1 + cells::columns(ws, chars.len() as int) <= u16::MAX,
        ws[i] > 0 && is_drawn(chars[i]),
    ensures
        ({
            let cell = box_cells(chars, ws, runs, i + 1).last();
            let col = 1 + cells::columns(ws, i);
            &&& cell.col == col - 1
            &&& cell.ch == chars[i]
            &&& 0 <= k < runs.len() && runs[k].start_col <= col <= runs[k].end_col ==> cell.key
                == Some(key_of(runs[k]))
            &&& (forall|j: int|
                0 <= j < runs.len() ==> col < (#[trigger] runs[j]).start_col || runs[j].end_col
                    < col) ==> cell.key is None
        }),
{
    law_box_cell_style(chars, ws, runs, i + 1);
    cells::lemma_columns_mono(ws, i, ws.len() as int);
    let col = (1 + cells::columns(ws, i)) as u16;
    lemma_run_from(runs, 0, col);
    let at = run_from(runs, 0, col);
    if 0 <= k < runs.len() && runs[k].start_col <= col <= runs[k].end_col {
        if at < k {
            assert(runs[at].end_col < runs[k].start_col);
        } else if k < at {
            assert(runs[k].end_col < col);
        }
    }
}

/// The cells that are drawn are those of the box-drawing glyphs and of the blocks, in
/// the order of the text; a character without a width has no cell.
pub proof fn law_which_cells_are_drawn(
    chars: Seq<char>,
    ws: Seq<usize>,
    runs: Seq<StyleRun>,
    i: int,
)
    requires
        ws.len() == chars.len(),
        0 <= i < chars.len(),
    ensures
        ({
            let before = box_cells(chars, ws, runs, i);
            let after = box_cells(chars, ws, runs, i + 1);
            let drawn = glyph::box_sides(chars[i]) is Some || glyph::block_rects(chars[i]) is Some;
            &&& box_cells(chars, ws, runs, 0).len() == 0
            &&& ws[i] > 0 && drawn ==> after.len() == before.len() + 1 && after.drop_last()
                == before && after.last().ch == chars[i]
            &&& ws[i] == 0 || !drawn ==> after == before
        }),
{
    let before = box_cells(chars, ws, runs, i);
    let after = box_cells(chars, ws, runs, i + 1);
    if ws[i] > 0 && is_drawn(chars[i]) {
        assert(after.drop_last() =~= before);
    }
}

/// A run whose columns make no sense still fills something: column 0 counts as the
/// first, and a run that ends before it starts fills one cell.
pub proof fn law_odd_backgrounds(run: StyleRun)
    ensures
        background_of(run).color == run.bg,
        run.start_col == 0 ==> background_of(run).first == 0,
        run.start_col > 0 ==> background_of(run).first == run.start_col - 1,
        run.end_col < run.start_col ==> background_of(run).cells == 1,
        run.start_col == 0 && run.end_col == 0xffff ==> background_of(run).cells == 0xffff,
{
}

/// Without runs a line is drawn in the default style, as one span.
pub proof fn law_line_without_runs(line: Seq<char>)
    requires
        encode_utf8(line).len() <= usize::MAX,
    ensures
        line_spans(line, Seq::empty()).len() == 1,
        line_spans(line, Seq::empty())[0].len == encode_utf8(line).len(),
        line_spans(line, Seq::empty())[0].key is None,
{
    assert(spans_of(line, Seq::empty(), 0) + Seq::<TextSpan>::empty() =~= Seq::<
        TextSpan,
    >::empty());
}

} // verus!
