//! The cached rows of the visible screen.
//!
//! The cache follows the emulator: rows move when the screen scrolls, and rows
//! that changed are fetched anew. Each row may also hold a layout that the host
//! made for it, which is dropped when the row changes.
use std::ops::Range;
use vstd::prelude::*;
use vstd::utf8::*;
use crate::cells;
use crate::cells::byte_index_for_column_in_line;
use crate::lines;
use crate::lines::{
    compute_viewport_line_offsets, compute_viewport_total_len, slice_lines, split_viewport_lines,
};
use crate::text;
use crate::text::chars_of;
use crate::types::StyleRun;
use crate::url;
use crate::wrap;
use crate::wrap::url_at_cell_in_wrapped_lines;

verus! {

/// A layout, and the text that it was made for.
pub struct RowLayout<L> {
    text: String,
    layout: L,
}

/// A layout as contracts see it.
pub struct LayoutModel<L> {
    pub text: Seq<char>,
    pub layout: L,
}

/// The cached rows, with layouts of type `L`.
pub struct Viewport<L> {
    lines: Vec<String>,
    line_offsets: Vec<usize>,
    total_len: usize,
    style_runs: Vec<Vec<StyleRun>>,
    layouts: Vec<Option<RowLayout<L>>>,
}

/// The cached rows as contracts see them.
#[verifier::ext_equal]
pub struct ViewportModel<L> {
    pub lines: Seq<Seq<char>>,
    pub runs: Seq<Seq<StyleRun>>,
    pub layouts: Seq<Option<LayoutModel<L>>>,
}

/// A row that was fetched anew.
pub struct RowPatch {
    pub row: u16,
    pub text: String,
    pub style_runs: Vec<StyleRun>,
}

/// A fetched row as contracts see it.
pub struct PatchModel {
    pub row: int,
    pub text: Seq<char>,
    pub runs: Seq<StyleRun>,
}

/// What has to be fetched from the emulator before the cache is right again.
pub enum Fetch {
    /// Nothing.
    Nothing,
    /// The whole screen.
    Everything,
    /// These rows, counted from 0.
    Rows(Vec<u16>),
}

/// The style runs of a list of rows.
pub open spec fn run_lists(runs: Seq<Vec<StyleRun>>) -> Seq<Seq<StyleRun>> {
    runs.map_values(|r: Vec<StyleRun>| r@)
}

/// A list of fetched rows as contracts see them.
pub open spec fn patch_models(patches: Seq<RowPatch>) -> Seq<PatchModel> {
    patches.map_values(
        |p: RowPatch| PatchModel { row: p.row as int, text: p.text@, runs: p.style_runs@ },
    )
}

/// `rows` moved by `delta`: up where it is positive, down where it is negative.
/// Rows that come in are `blank`.
pub open spec fn moved<T>(rows: Seq<T>, delta: int, blank: T) -> Seq<T> {
    Seq::new(
        rows.len(),
        |i: int|
            if 0 <= i + delta < rows.len() {
                rows[i + delta]
            } else {
                blank
            },
    )
}

/// The rows that come in when the screen moves by `delta`, as a range.
pub open spec fn incoming(n: int, delta: int) -> (int, int) {
    if delta > 0 {
        (n - delta, n)
    } else {
        (0, -delta)
    }
}

impl<L> ViewportModel<L> {
    /// The screen moved by `delta` rows.
    pub open spec fn scrolled(self, delta: int) -> ViewportModel<L> {
        ViewportModel {
            lines: moved(self.lines, delta, Seq::empty()),
            runs: moved(self.runs, delta, Seq::empty()),
            layouts: if self.layouts.len() == self.lines.len() {
                moved(self.layouts, delta, None)
            } else {
                self.layouts
            },
        }
    }

    /// One row was fetched anew; a row that is not cached is ignored.
    pub open spec fn patched_one(self, p: PatchModel) -> ViewportModel<L> {
        if 0 <= p.row < self.lines.len() && p.row < self.runs.len() {
            ViewportModel {
                lines: self.lines.update(p.row, lines::without_newline(p.text)),
                runs: self.runs.update(p.row, p.runs),
                layouts: if p.row < self.layouts.len() {
                    self.layouts.update(p.row, None)
                } else {
                    self.layouts
                },
            }
        } else {
            self
        }
    }

    /// Rows were fetched anew, one after the other.
    pub open spec fn patched(self, ps: Seq<PatchModel>) -> ViewportModel<L>
        decreases ps.len(),
    {
        if ps.len() == 0 {
            self
        } else {
            self.patched(ps.drop_last()).patched_one(ps.last())
        }
    }

    /// There are no layouts, or there is room for one per line, and each was made
    /// for the text that its line has.
    pub open spec fn layouts_fit(self) -> bool {
        &&& self.layouts.len() == 0 || self.layouts.len() == self.lines.len()
        &&& forall|i: int|
            0 <= i < self.layouts.len() ==> ((#[trigger] self.layouts[i]) matches Some(l)
                ==> l.text == self.lines[i])
    }

    /// The cache has the rows of a screen of `rows` rows.
    pub open spec fn has_rows(self, rows: int) -> bool {
        self.lines.len() == rows && self.runs.len() == rows
    }
}

/// Layouts as contracts see them.
pub closed spec fn layout_models<L>(layouts: Seq<Option<RowLayout<L>>>) -> Seq<
    Option<LayoutModel<L>>,
> {
    layouts.map_values(
        |l: Option<RowLayout<L>>|
            match l {
                Some(r) => Some(LayoutModel { text: r.text@, layout: r.layout }),
                None => None,
            },
    )
}

impl<L> View for Viewport<L> {
    type V = ViewportModel<L>;

    closed spec fn view(&self) -> ViewportModel<L> {
        ViewportModel {
            lines: wrap::texts(self.lines@),
            runs: run_lists(self.style_runs@),
            layouts: layout_models(self.layouts@),
        }
    }
}

/// Moves the first `k` elements to the end.
fn rotate_left<T>(v: &mut Vec<T>, k: usize)
    requires
        k <= old(v)@.len(),
    ensures
        final(v)@ == old(v)@.skip(k as int) + old(v)@.take(k as int),
{
    let mut tail = v.split_off(k);
    tail.append(v);
    std::mem::swap(v, &mut tail);
    assert(v@ =~= old(v)@.skip(k as int) + old(v)@.take(k as int));
}

/// `rows` with the first `left` of them moved to the end.
spec fn turned<T>(rows: Seq<T>, left: int) -> Seq<T> {
    rows.skip(left) + rows.take(left)
}

/// `rows` with those from `first` up to, but without, `end` replaced by `blank`.
spec fn blanked<T>(rows: Seq<T>, first: int, end: int, blank: T) -> Seq<T> {
    Seq::new(
        rows.len(),
        |i: int|
            if first <= i < end {
                blank
            } else {
                rows[i]
            },
    )
}

/// Turning rows round, and blanking those that come in, moves them.
proof fn lemma_moved<T>(rows: Seq<T>, delta: int, blank: T)
    requires
        delta != 0,
        -rows.len() < delta < rows.len(),
    ensures
        blanked(
            turned(
                rows,
                if delta > 0 {
                    delta
                } else {
                    rows.len() + delta
                },
            ),
            incoming(rows.len() as int, delta).0,
            incoming(rows.len() as int, delta).1,
            blank,
        ) == moved(rows, delta, blank),
{
    let left = if delta > 0 {
        delta
    } else {
        rows.len() + delta
    };
    let (first, end) = incoming(rows.len() as int, delta);
    assert(blanked(turned(rows, left), first, end, blank) =~= moved(rows, delta, blank));
}

/// Moves lines round, and blanks those that come in.
fn move_lines(v: &mut Vec<String>, left: usize, first: usize, end: usize)
    requires
        left <= old(v)@.len(),
        first <= end <= old(v)@.len(),
    ensures
        wrap::texts(final(v)@) == blanked(
            turned(wrap::texts(old(v)@), left as int),
            first as int,
            end as int,
            Seq::<char>::empty(),
        ),
{
    let ghost was = turned(wrap::texts(v@), left as int);
    rotate_left(v, left);
    assert(wrap::texts(v@) =~= was);
    let mut i: usize = first;
    assert(was =~= blanked(was, first as int, first as int, Seq::<char>::empty()));
    while i < end
        invariant
            first <= i <= end <= v@.len(),
            wrap::texts(v@) == blanked(was, first as int, i as int, Seq::<char>::empty()),
        decreases end - i,
    {
        let ghost before = wrap::texts(v@);
        v.set(i, String::new());
        assert(wrap::texts(v@) =~= before.update(i as int, Seq::<char>::empty()));
        i = i + 1;
        assert(wrap::texts(v@) =~= blanked(was, first as int, i as int, Seq::<char>::empty()));
    }
}

/// Moves the style runs of rows round, and empties those of rows that come in.
fn move_runs(v: &mut Vec<Vec<StyleRun>>, left: usize, first: usize, end: usize)
    requires
        left <= old(v)@.len(),
        first <= end <= old(v)@.len(),
    ensures
        run_lists(final(v)@) == blanked(
            turned(run_lists(old(v)@), left as int),
            first as int,
            end as int,
            Seq::<StyleRun>::empty(),
        ),
{
    let ghost was = turned(run_lists(v@), left as int);
    rotate_left(v, left);
    assert(run_lists(v@) =~= was);
    let mut i: usize = first;
    assert(was =~= blanked(was, first as int, first as int, Seq::<StyleRun>::empty()));
    while i < end
        invariant
            first <= i <= end <= v@.len(),
            run_lists(v@) == blanked(was, first as int, i as int, Seq::<StyleRun>::empty()),
        decreases end - i,
    {
        let ghost before = run_lists(v@);
        v.set(i, Vec::new());
        assert(run_lists(v@) =~= before.update(i as int, Seq::<StyleRun>::empty()));
        i = i + 1;
        assert(run_lists(v@) =~= blanked(was, first as int, i as int, Seq::<StyleRun>::empty()));
    }
}

/// Moves layouts round, and drops those of rows that come in.
fn move_layouts<L>(v: &mut Vec<Option<RowLayout<L>>>, left: usize, first: usize, end: usize)
    requires
        left <= old(v)@.len(),
        first <= end <= old(v)@.len(),
    ensures
        layout_models(final(v)@) == blanked(
            turned(layout_models(old(v)@), left as int),
            first as int,
            end as int,
            None::<LayoutModel<L>>,
        ),
{
    let ghost was = turned(layout_models(v@), left as int);
    rotate_left(v, left);
    assert(layout_models(v@) =~= was);
    let mut i: usize = first;
    assert(was =~= blanked(was, first as int, first as int, None::<LayoutModel<L>>));
    while i < end
        invariant
            first <= i <= end <= v@.len(),
            layout_models(v@) == blanked(was, first as int, i as int, None::<LayoutModel<L>>),
        decreases end - i,
    {
        let ghost before = layout_models(v@);
        v.set(i, None);
        assert(layout_models(v@) =~= before.update(i as int, None::<LayoutModel<L>>));
        i = i + 1;
        assert(layout_models(v@) =~= blanked(was, first as int, i as int, None::<LayoutModel<L>>));
    }
}

impl<L> Viewport<L> {
    /// The positions of the lines and the layouts are kept in step with them.
    pub closed spec fn wf(&self) -> bool {
        let ts = wrap::texts(self.lines@);
        &&& self@.layouts_fit()
        &&& self.line_offsets@.len() == self.lines@.len()
        &&& forall|i: int|
            0 <= i < self.line_offsets@.len() ==> #[trigger] self.line_offsets@[i]
                == lines::kept_start(ts, i)
        &&& self.total_len == lines::kept_total(ts)
    }

    /// An empty cache.
    pub fn new() -> (v: Viewport<L>)
        ensures
            v.wf(),
            v@ == (ViewportModel::<L> {
                lines: Seq::empty(),
                runs: Seq::empty(),
                layouts: Seq::empty(),
            }),
    {
        let v = Viewport {
            lines: Vec::new(),
            line_offsets: Vec::new(),
            total_len: 0,
            style_runs: Vec::new(),
            layouts: Vec::new(),
        };
        assert(v@.lines =~= Seq::<Seq<char>>::empty());
        assert(v@.runs =~= Seq::<Seq<StyleRun>>::empty());
        assert(v@.layouts =~= Seq::<Option<LayoutModel<L>>>::empty());
        v
    }

    fn recount(&mut self)
        requires
            old(self)@.layouts_fit(),
        ensures
            final(self).wf(),
            final(self)@ == old(self)@,
    {
        self.line_offsets = compute_viewport_line_offsets(&self.lines);
        self.total_len = compute_viewport_total_len(&self.lines);
    }

    /// Takes over the whole screen: its text, and the style runs of each row.
    pub fn refresh(&mut self, screen: &str, style_runs: Vec<Vec<StyleRun>>)
        ensures
            final(self).wf(),
            final(self)@ == (ViewportModel::<L> {
                lines: lines::screen_lines(screen@),
                runs: run_lists(style_runs@),
                layouts: Seq::empty(),
            }),
    {
        self.lines = split_viewport_lines(screen);
        self.style_runs = style_runs;
        self.layouts = Vec::new();
        assert(self@.layouts =~= Seq::<Option<LayoutModel<L>>>::empty());
        self.recount();
    }

    /// Moves the cached rows as the emulator moved its screen of `rows` rows.
    /// Rows that come in are blank until they are fetched.
    pub fn scroll(&mut self, delta: i32, rows: u16) -> (fetch: Fetch)
        requires
            old(self).wf(),
        ensures
            final(self).wf(),
            delta == 0 || rows == 0 ==> fetch is Nothing && final(self)@ == old(self)@,
            delta != 0 && rows != 0 && (!old(self)@.has_rows(rows as int) || delta >= rows || delta
                <= -rows) ==> fetch is Everything && final(self)@ == old(self)@,
            delta != 0 && old(self)@.has_rows(rows as int) && -rows < delta < rows ==> {
                &&& final(self)@ == old(self)@.scrolled(delta as int)
                &&& fetch matches Fetch::Rows(v) && v@ == row_range(
                    incoming(rows as int, delta as int).0,
                    incoming(rows as int, delta as int).1,
                )
            },
    {
        if delta == 0 || rows == 0 {
            return Fetch::Nothing;
        }
        let n: usize = rows as usize;
        if self.lines.len() != n || self.style_runs.len() != n {
            return Fetch::Everything;
        }
        let by: i64 = if delta > 0 {
            delta as i64
        } else {
            -(delta as i64)
        };
        if by >= n as i64 {
            return Fetch::Everything;
        }
        let by: usize = by as usize;
        let left: usize = if delta > 0 {
            by
        } else {
            n - by
        };
        let (first, end): (usize, usize) = if delta > 0 {
            (n - by, n)
        } else {
            (0, by)
        };
        let has_layouts = self.layouts.len() == n;
        let ghost was = self@;
        move_lines(&mut self.lines, left, first, end);
        move_runs(&mut self.style_runs, left, first, end);
        if has_layouts {
            move_layouts(&mut self.layouts, left, first, end);
        }
        proof {
            lemma_moved(was.lines, delta as int, Seq::<char>::empty());
            lemma_moved(was.runs, delta as int, Seq::<StyleRun>::empty());
            if has_layouts {
                lemma_moved(was.layouts, delta as int, None::<LayoutModel<L>>);
            }
            assert(self@ == was.scrolled(delta as int));
            lemma_scrolled_layouts_fit(was, delta as int);
        }
        self.recount();
        Fetch::Rows(rows_between(first, end))
    }
}

proof fn lemma_scrolled_layouts_fit<L>(v: ViewportModel<L>, delta: int)
    requires
        v.layouts_fit(),
    ensures
        v.scrolled(delta).layouts_fit(),
{
    let now = v.scrolled(delta);
    assert forall|i: int| 0 <= i < now.layouts.len() implies ((#[trigger] now.layouts[i]) matches
        Some(l) ==> l.text == now.lines[i]) by {
        if 0 <= i + delta < v.lines.len() {
            assert(v.layouts[i + delta] == now.layouts[i]);
        }
    }
}

proof fn lemma_patched_layouts_fit<L>(v: ViewportModel<L>, p: PatchModel)
    requires
        v.layouts_fit(),
    ensures
        v.patched_one(p).layouts_fit(),
{
    let now = v.patched_one(p);
    assert forall|i: int| 0 <= i < now.layouts.len() implies ((#[trigger] now.layouts[i]) matches
        Some(l) ==> l.text == now.lines[i]) by {
        assert(v.layouts[i] == v.layouts[i]);
    }
}

/// The rows from `a` up to, but without, `b`.
pub open spec fn row_range(a: int, b: int) -> Seq<u16> {
    Seq::new((b - a) as nat, |i: int| (a + i) as u16)
}

fn rows_between(a: usize, b: usize) -> (v: Vec<u16>)
    requires
        a <= b <= u16::MAX,
    ensures
        v@ == row_range(a as int, b as int),
{
    let mut v: Vec<u16> = Vec::new();
    let mut i: usize = a;
    while i < b
        invariant
            a <= i <= b <= u16::MAX,
            v@ == row_range(a as int, i as int),
        decreases b - i,
    {
        v.push(i as u16);
        i = i + 1;
        assert(v@ =~= row_range(a as int, i as int));
    }
    v
}

/// The rows among `dirty` that are on a screen of `n` rows.
pub open spec fn rows_on_screen(dirty: Seq<u16>, n: int) -> Seq<u16>
    decreases dirty.len(),
{
    if dirty.len() == 0 {
        Seq::empty()
    } else if dirty.last() < n {
        rows_on_screen(dirty.drop_last(), n).push(dirty.last())
    } else {
        rows_on_screen(dirty.drop_last(), n)
    }
}

/// `text` without the line break at its end.
fn strip_newline(text: &str) -> (s: String)
    ensures
        s@ == lines::without_newline(text@),
{
    let chars = chars_of(text);
    let mut n: usize = chars.len();
    if n > 0 && chars[n - 1] == '\n' {
        n = n - 1;
    }
    let mut s = String::new();
    let mut i: usize = 0;
    while i < n
        invariant
            chars@ == text@,
            n <= chars@.len(),
            i <= n,
            s@ == text@.take(i as int),
        decreases n - i,
    {
        s.push(chars[i]);
        i = i + 1;
        assert(s@ =~= text@.take(i as int));
    }
    assert(text@.take(n as int) =~= lines::without_newline(text@));
    s
}

/// The part of the selection from `start` to `end` that lies in a line of `len`
/// bytes at position `at`, in bytes of the line; nothing where there is none.
pub open spec fn segment_of(at: int, len: int, start: int, end: int) -> Option<(int, int)> {
    let from = if start > at {
        start - at
    } else {
        0
    };
    let to = if end - at < len {
        end - at
    } else {
        len
    };
    if from < to {
        Some((from, to))
    } else {
        None
    }
}

impl<L> Viewport<L> {
    /// What has to be fetched where the emulator reports the rows `dirty` of a
    /// screen of `rows` rows as changed.
    pub fn plan_dirty(&self, dirty: &[u16], rows: u16) -> (fetch: Fetch)
        ensures
            dirty@.len() == 0 ==> fetch is Nothing,
            dirty@.len() > 0 && !self@.has_rows(rows as int) ==> fetch is Everything,
            dirty@.len() > 0 && self@.has_rows(rows as int) ==> (fetch matches Fetch::Rows(v)
                && v@ == rows_on_screen(dirty@, rows as int)),
    {
        if dirty.len() == 0 {
            return Fetch::Nothing;
        }
        if self.lines.len() != rows as usize || self.style_runs.len() != rows as usize {
            return Fetch::Everything;
        }
        let mut v: Vec<u16> = Vec::new();
        let mut i: usize = 0;
        assert(dirty@.take(0) =~= Seq::<u16>::empty());
        while i < dirty.len()
            invariant
                i <= dirty@.len(),
                v@ == rows_on_screen(dirty@.take(i as int), rows as int),
            decreases dirty@.len() - i,
        {
            assert(dirty@.take(i + 1).drop_last() =~= dirty@.take(i as int));
            if dirty[i] < rows {
                v.push(dirty[i]);
            }
            i = i + 1;
        }
        assert(dirty@.take(i as int) =~= dirty@);
        Fetch::Rows(v)
    }

    fn patch_row(&mut self, patch: &RowPatch)
        ensures
            final(self)@ == old(self)@.patched_one(
                PatchModel {
                    row: patch.row as int,
                    text: patch.text@,
                    runs: patch.style_runs@,
                },
            ),
    {
        let row: usize = patch.row as usize;
        if row >= self.lines.len() || row >= self.style_runs.len() {
            return;
        }
        let ghost was = self@;
        self.lines.set(row, strip_newline(patch.text.as_str()));
        self.style_runs.set(row, vstd::slice::slice_to_vec(patch.style_runs.as_slice()));
        if row < self.layouts.len() {
            let ghost before = self.layouts@;
            self.layouts.set(row, None);
            assert(layout_models(self.layouts@) =~= layout_models(before).update(
                row as int,
                None,
            ));
        }
        proof {
            let want = was.patched_one(
                PatchModel {
                    row: patch.row as int,
                    text: patch.text@,
                    runs: patch.style_runs@,
                },
            );
            assert(self@.lines =~= want.lines);
            assert(self@.runs =~= want.runs);
            assert(self@.layouts =~= want.layouts);
        }
    }

    /// Takes over rows that were fetched anew.
    pub fn apply_patches(&mut self, patches: &Vec<RowPatch>)
        requires
            old(self).wf(),
        ensures
            final(self).wf(),
            final(self)@ == old(self)@.patched(patch_models(patches@)),
    {
        let ghost ps = patch_models(patches@);
        let mut i: usize = 0;
        assert(ps.take(0) =~= Seq::<PatchModel>::empty());
        while i < patches.len()
            invariant
                ps == patch_models(patches@),
                i <= patches@.len(),
                self@ == old(self)@.patched(ps.take(i as int)),
                self@.layouts_fit(),
            decreases patches@.len() - i,
        {
            assert(ps.take(i + 1).drop_last() =~= ps.take(i as int));
            assert(ps.take(i + 1).last() == ps[i as int]);
            proof {
                lemma_patched_layouts_fit(self@, ps[i as int]);
            }
            self.patch_row(&patches[i]);
            i = i + 1;
        }
        assert(ps.take(i as int) =~= ps);
        self.recount();
    }

    /// The number of cached lines.
    pub fn line_count(&self) -> (n: usize)
        ensures
            n == self@.lines.len(),
    {
        self.lines.len()
    }

    /// The text of a line.
    pub fn line(&self, row: usize) -> (r: Option<&str>)
        ensures
            r is Some <==> row < self@.lines.len(),
            r matches Some(t) ==> t@ == self@.lines[row as int],
    {
        if row < self.lines.len() {
            let t = self.lines[row].as_str();
            assert(t@ == self@.lines[row as int]);
            Some(t)
        } else {
            None
        }
    }

    /// The number of rows whose style runs are cached.
    pub fn styled_row_count(&self) -> (n: usize)
        ensures
            n == self@.runs.len(),
    {
        self.style_runs.len()
    }

    /// The style runs of a row.
    pub fn style_runs(&self, row: usize) -> (r: Option<&[StyleRun]>)
        ensures
            r is Some <==> row < self@.runs.len(),
            r matches Some(v) ==> v@ == self@.runs[row as int],
    {
        if row < self.style_runs.len() {
            let v = self.style_runs[row].as_slice();
            assert(v@ == self@.runs[row as int]);
            Some(v)
        } else {
            None
        }
    }

    /// The bytes of all lines together, each with its line break.
    pub fn total_len(&self) -> (n: usize)
        requires
            self.wf(),
        ensures
            n == lines::kept_total(self@.lines),
    {
        self.total_len
    }

    /// Makes room for one layout per line. Layouts are kept unless `stale` says
    /// that they were made for other measures, or their number is not right.
    pub fn prepare_layouts(&mut self, stale: bool)
        requires
            old(self).wf(),
        ensures
            final(self).wf(),
            final(self)@ == (ViewportModel {
                layouts: if stale || old(self)@.layouts.len() != old(self)@.lines.len() {
                    Seq::new(old(self)@.lines.len(), |i: int| None::<LayoutModel<L>>)
                } else {
                    old(self)@.layouts
                },
                ..old(self)@
            }),
    {
        if stale || self.layouts.len() != self.lines.len() {
            let n: usize = self.lines.len();
            let mut layouts: Vec<Option<RowLayout<L>>> = Vec::new();
            let mut i: usize = 0;
            while i < n
                invariant
                    i <= n,
                    layouts@.len() == i,
                    forall|j: int| 0 <= j < i ==> #[trigger] layouts@[j] is None,
                decreases n - i,
            {
                layouts.push(None);
                i = i + 1;
            }
            self.layouts = layouts;
            assert(self@.layouts =~= Seq::new(
                self@.lines.len(),
                |i: int| None::<LayoutModel<L>>,
            ));
        }
    }

    /// The layout of a row, if it has one; it was made for the text that the row
    /// has.
    pub fn layout(&self, row: usize) -> (r: Option<&L>)
        requires
            self.wf(),
        ensures
            r is Some <==> row < self@.layouts.len() && self@.layouts[row as int] is Some,
            r matches Some(l) ==> row < self@.lines.len() && self@.layouts[row as int] == Some(
                LayoutModel { text: self@.lines[row as int], layout: *l },
            ),
    {
        if row < self.layouts.len() {
            assert(self@.layouts[row as int] == layout_models(self.layouts@)[row as int]);
            match &self.layouts[row] {
                Some(l) => Some(&l.layout),
                None => None,
            }
        } else {
            None
        }
    }

    /// Keeps a layout that was made for the text of a row; without room it is
    /// dropped.
    pub fn set_layout(&mut self, row: usize, layout: L)
        requires
            old(self).wf(),
        ensures
            final(self).wf(),
            final(self)@ == (ViewportModel {
                layouts: if row < old(self)@.layouts.len() {
                    old(self)@.layouts.update(
                        row as int,
                        Some(LayoutModel { text: old(self)@.lines[row as int], layout }),
                    )
                } else {
                    old(self)@.layouts
                },
                ..old(self)@
            }),
    {
        if row < self.layouts.len() {
            let ghost was = self@;
            let ghost before = self.layouts@;
            let line = self.lines[row].as_str().to_owned();
            assert(line@ == was.lines[row as int]);
            self.layouts.set(row, Some(RowLayout { text: line, layout }));
            proof {
                assert(layout_models(self.layouts@) =~= layout_models(before).update(
                    row as int,
                    Some(LayoutModel { text: was.lines[row as int], layout }),
                ));
                assert forall|i: int| 0 <= i < self@.layouts.len() implies ((#[trigger]
                self@.layouts[i]) matches Some(l) ==> l.text == self@.lines[i]) by {
                    assert(was.layouts[i] == was.layouts[i]);
                }
            }
        }
    }

    /// The text between two positions.
    pub fn viewport_slice(&self, range: Range<usize>) -> (out: String)
        requires
            self.wf(),
        ensures
            out@ == lines::slice_of(self@.lines, range.start as int, range.end as int),
    {
        slice_lines(&self.lines, &self.line_offsets, self.total_len, range.start, range.end)
    }

    /// The link at a position.
    pub fn url_at_viewport_index(&self, index: usize) -> (r: Option<String>)
        requires
            self.wf(),
        ensures
            url::string_bytes(r) == link_at_position(self@.lines, index as int),
    {
        lines::url_at_viewport_index(&self.lines, &self.line_offsets, self.total_len, index)
    }

    /// The position of byte `byte` of row `row`.
    pub fn index_for_byte(&self, row: usize, byte: usize) -> (r: usize)
        requires
            self.wf(),
        ensures
            r == text::capped(
                ((if row < self@.lines.len() {
                    lines::kept_start(self@.lines, row as int)
                } else {
                    0
                }) + byte) as nat,
            ),
    {
        let offset: usize = if row < self.line_offsets.len() {
            self.line_offsets[row]
        } else {
            0
        };
        offset.saturating_add(byte)
    }

    /// The position of column `col`, counted from 1, of row `row`; nothing where
    /// the row is not cached.
    pub fn index_for_cell(&self, row: usize, col: u16) -> (r: Option<usize>)
        requires
            self.wf(),
        ensures
            r is Some <==> row < self@.lines.len(),
            r matches Some(i) ==> i == text::capped(
                (lines::kept_start(self@.lines, row as int) + cells::column_offset(
                    self@.lines[row as int],
                    col as int,
                )) as nat,
            ),
            r is Some && col >= 1 && cells::all_printable(self@.lines[row as int])
                ==> cells::column_offset(self@.lines[row as int], col as int) == if col - 1
                < self@.lines[row as int].len() {
                col - 1
            } else {
                self@.lines[row as int].len() as int
            },
    {
        match self.line(row) {
            Some(line) => {
                let byte: usize = byte_index_for_column_in_line(line, col);
                Some(self.index_for_byte(row, byte))
            },
            None => None,
        }
    }

    /// The part of a line that is selected, in bytes of the line.
    pub fn selection_segment(&self, row: usize, range: Range<usize>) -> (r: Option<
        (usize, usize),
    >)
        requires
            self.wf(),
        ensures
            row >= self@.lines.len() ==> r is None,
            row < self@.lines.len() ==> ({
                let want = segment_of(
                    lines::kept_start(self@.lines, row as int) as int,
                    encode_utf8(self@.lines[row as int]).len() as int,
                    range.start as int,
                    range.end as int,
                );
                &&& r is Some <==> want is Some
                &&& r matches Some((a, b)) ==> want == Some((a as int, b as int))
            }),
    {
        match self.line(row) {
            Some(line) => {
                let at: usize = self.line_offsets[row];
                let len: usize = line.as_bytes().len();
                let from: usize = if range.start > at {
                    range.start - at
                } else {
                    0
                };
                let to: usize = if range.end <= at {
                    0
                } else if range.end - at < len {
                    range.end - at
                } else {
                    len
                };
                if from < to {
                    Some((from, to))
                } else {
                    None
                }
            },
            None => None,
        }
    }

    /// The link that a click copies: the hyperlink of the cell, else a link in the
    /// text at the cell, on a screen of `cols` columns, over as many rows as it is
    /// wrapped, else a link at the position of the click. Each may be missing.
    pub fn clicked_link(
        &self,
        cols: u16,
        cell: Option<(u16, u16)>,
        hyperlink: Option<String>,
        index: Option<usize>,
    ) -> (r: Option<String>)
        requires
            self.wf(),
        ensures
            url::string_bytes(r) == click_target(
                self@.lines,
                cols,
                cell,
                url::string_bytes(hyperlink),
                index,
            ),
    {
        if let Some((col, row)) = cell {
            if hyperlink.is_some() {
                return hyperlink;
            }
            let row_index: usize = if row > 0 {
                (row - 1) as usize
            } else {
                0
            };
            let found = url_at_cell_in_wrapped_lines(self.lines.as_slice(), cols, row_index, col);
            if found.is_some() {
                return found;
            }
        }
        match index {
            Some(i) => self.url_at_viewport_index(i),
            None => None,
        }
    }
}

/// The link at a position of the lines.
pub open spec fn link_at_position(ts: Seq<Seq<char>>, index: int) -> Option<Seq<u8>> {
    if ts.len() == 0 {
        None
    } else {
        let (row, at) = lines::url_position(ts, index);
        url::span_bytes(encode_utf8(ts[row]), url::url_span(encode_utf8(ts[row]), at))
    }
}

/// The link in the text at column `col`, counted from 1, of row `row`, counted from
/// 0, over as many rows as it is wrapped.
pub open spec fn link_at_cell(ts: Seq<Seq<char>>, cols: u16, row: int, col: int) -> Option<
    Seq<u8>,
> {
    url::span_bytes(
        wrap::wrapped_bytes(ts, cols, row),
        wrap::wrapped_url_span(ts, cols, row, col),
    )
}

/// The link that a click copies.
pub open spec fn click_target(
    ts: Seq<Seq<char>>,
    cols: u16,
    cell: Option<(u16, u16)>,
    hyperlink: Option<Seq<u8>>,
    index: Option<usize>,
) -> Option<Seq<u8>> {
    let at_cell = match cell {
        None => None,
        Some((col, row)) => {
            let r = if row > 0 {
                row - 1
            } else {
                0
            };
            if hyperlink is Some {
                hyperlink
            } else {
                link_at_cell(ts, cols, r, col as int)
            }
        },
    };
    match at_cell {
        Some(link) => Some(link),
        None => match index {
            Some(i) => link_at_position(ts, i as int),
            None => None,
        },
    }
}

/// On a row that is not wrapped, a click copies the link that is found in that row
/// alone, where there is one.
pub proof fn law_click_finds_a_link_of_its_row(
    ts: Seq<Seq<char>>,
    cols: u16,
    col: u16,
    row: u16,
    index: Option<usize>,
)
    requires
        1 <= row <= ts.len(),
        ts[row - 1].len() > 0,
        row > 1 ==> !wrap::is_full(ts[row - 2], cols),
        !wrap::is_full(ts[row - 1], cols) || row == ts.len(),
        url::url_span(
            encode_utf8(ts[row - 1]),
            url::line_index(ts[row - 1], col as int),
        ) is Some,
    ensures
        click_target(ts, cols, Some((col, row)), None, index) == url::span_bytes(
            encode_utf8(ts[row - 1]),
            url::url_span(encode_utf8(ts[row - 1]), url::line_index(ts[row - 1], col as int)),
        ),
{
    wrap::law_unwrapped_row(ts, cols, row - 1, col as int);
}

/// Every fetched row holds what the screen shows there.
pub open spec fn patches_show(
    ps: Seq<PatchModel>,
    new_lines: Seq<Seq<char>>,
    new_runs: Seq<Seq<StyleRun>>,
) -> bool {
    forall|k: int|
        0 <= k < ps.len() && 0 <= (#[trigger] ps[k]).row < new_lines.len()
            ==> lines::without_newline(ps[k].text) == new_lines[ps[k].row] && ps[k].runs
            == new_runs[ps[k].row]
}

/// Row `i` is among the fetched ones.
pub open spec fn fetched(ps: Seq<PatchModel>, i: int) -> bool {
    exists|k: int| 0 <= k < ps.len() && (#[trigger] ps[k]).row == i
}

/// The cached row `i` shows what the screen shows there.
pub open spec fn row_shows<L>(
    v: ViewportModel<L>,
    new_lines: Seq<Seq<char>>,
    new_runs: Seq<Seq<StyleRun>>,
    i: int,
) -> bool {
    v.lines[i] == new_lines[i] && v.runs[i] == new_runs[i]
}

proof fn lemma_patched<L>(
    v: ViewportModel<L>,
    ps: Seq<PatchModel>,
    new_lines: Seq<Seq<char>>,
    new_runs: Seq<Seq<StyleRun>>,
    k: int,
)
    requires
        v.has_rows(new_lines.len() as int),
        new_runs.len() == new_lines.len(),
        patches_show(ps, new_lines, new_runs),
        0 <= k <= ps.len(),
    ensures
        v.patched(ps.take(k)).has_rows(new_lines.len() as int),
        forall|i: int|
            #![trigger v.patched(ps.take(k)).lines[i]]
            0 <= i < new_lines.len() ==> ({
                let now = v.patched(ps.take(k));
                ||| now.lines[i] == new_lines[i] && now.runs[i] == new_runs[i]
                ||| now.lines[i] == v.lines[i] && now.runs[i] == v.runs[i] && (forall|j: int|
                    0 <= j < k ==> (#[trigger] ps[j]).row != i)
            }),
    decreases k,
{
    if k == 0 {
        assert(ps.take(0) =~= Seq::<PatchModel>::empty());
    } else {
        lemma_patched(v, ps, new_lines, new_runs, k - 1);
        assert(ps.take(k).drop_last() =~= ps.take(k - 1));
        let before = v.patched(ps.take(k - 1));
        let p = ps[k - 1];
        let now = v.patched(ps.take(k));
        assert(now == before.patched_one(p));
        assert forall|i: int|
            #![trigger v.patched(ps.take(k)).lines[i]]
            0 <= i < new_lines.len() implies ({
            let now = v.patched(ps.take(k));
            ||| now.lines[i] == new_lines[i] && now.runs[i] == new_runs[i]
            ||| now.lines[i] == v.lines[i] && now.runs[i] == v.runs[i] && (forall|j: int|
                0 <= j < k ==> (#[trigger] ps[j]).row != i)
        }) by {
            assert(before.lines[i] == v.patched(ps.take(k - 1)).lines[i]);
            if p.row == i {
                assert(lines::without_newline(ps[k - 1].text) == new_lines[ps[k - 1].row]);
            }
        }
    }
}

/// Fetching every row that changed makes the cache show the screen.
pub proof fn law_patches_show_the_screen<L>(
    v: ViewportModel<L>,
    ps: Seq<PatchModel>,
    new_lines: Seq<Seq<char>>,
    new_runs: Seq<Seq<StyleRun>>,
)
    requires
        v.has_rows(new_lines.len() as int),
        new_runs.len() == new_lines.len(),
        patches_show(ps, new_lines, new_runs),
        forall|i: int|
            #![trigger fetched(ps, i)]
            #![trigger row_shows(v, new_lines, new_runs, i)]
            0 <= i < new_lines.len() ==> row_shows(v, new_lines, new_runs, i) || fetched(ps, i),
    ensures
        v.patched(ps).lines == new_lines,
        v.patched(ps).runs == new_runs,
{
    let n = ps.len() as int;
    lemma_patched(v, ps, new_lines, new_runs, n);
    assert(ps.take(n) =~= ps);
    let now = v.patched(ps);
    assert forall|i: int| 0 <= i < new_lines.len() implies now.lines[i] == new_lines[i]
        && now.runs[i] == new_runs[i] by {
        assert(now.lines[i] == v.patched(ps.take(n)).lines[i]);
        assert(row_shows(v, new_lines, new_runs, i) || fetched(ps, i));
    }
    assert(now.lines =~= new_lines);
    assert(now.runs =~= new_runs);
}

/// Moving the cached rows along with the screen, and fetching only the rows that
/// came in, makes the cache show the screen.
pub proof fn law_scroll_then_fetch_shows_the_screen<L>(
    v: ViewportModel<L>,
    delta: int,
    ps: Seq<PatchModel>,
    new_lines: Seq<Seq<char>>,
    new_runs: Seq<Seq<StyleRun>>,
)
    requires
        v.has_rows(new_lines.len() as int),
        new_runs.len() == new_lines.len(),
        delta != 0,
        -new_lines.len() < delta < new_lines.len(),
        forall|i: int|
            #![trigger new_lines[i]]
            0 <= i < new_lines.len() && 0 <= i + delta < new_lines.len() ==> new_lines[i]
                == v.lines[i + delta] && new_runs[i] == v.runs[i + delta],
        patches_show(ps, new_lines, new_runs),
        forall|i: int|
            incoming(new_lines.len() as int, delta).0 <= i < incoming(
                new_lines.len() as int,
                delta,
            ).1 ==> #[trigger] fetched(ps, i),
    ensures
        v.scrolled(delta).patched(ps).lines == new_lines,
        v.scrolled(delta).patched(ps).runs == new_runs,
{
    let now = v.scrolled(delta);
    assert forall|i: int|
        #![trigger fetched(ps, i)]
        #![trigger row_shows(now, new_lines, new_runs, i)]
        0 <= i < new_lines.len() implies row_shows(now, new_lines, new_runs, i) || fetched(
        ps,
        i,
    ) by {
        if 0 <= i + delta < new_lines.len() {
            assert(new_lines[i] == v.lines[i + delta]);
        } else {
            assert(fetched(ps, i));
        }
    }
    law_patches_show_the_screen(now, ps, new_lines, new_runs);
}

/// When the screen moves, exactly those rows come in for which there was none to move
/// to their place.
pub proof fn law_incoming_rows(n: int, delta: int, i: int)
    requires
        delta != 0,
        -n < delta < n,
        0 <= i < n,
    ensures
        incoming(n, delta).0 <= i < incoming(n, delta).1 <==> !(0 <= i + delta < n),
        0 <= incoming(n, delta).0 < incoming(n, delta).1 <= n,
{
}

/// Moving rows keeps each with what belongs to it: row `i` then is what row `i + delta`
/// was, its text, its runs and its layout alike, and a row that comes in is blank.
pub proof fn law_rows_move_together<L>(v: ViewportModel<L>, delta: int, i: int)
    requires
        v.runs.len() == v.lines.len(),
        v.layouts.len() == v.lines.len(),
        0 <= i < v.lines.len(),
    ensures
        ({
            let now = v.scrolled(delta);
            &&& now.lines.len() == v.lines.len()
            &&& now.runs.len() == v.lines.len()
            &&& now.layouts.len() == v.lines.len()
            &&& 0 <= i + delta < v.lines.len() ==> now.lines[i] == v.lines[i + delta]
                && now.runs[i] == v.runs[i + delta] && now.layouts[i] == v.layouts[i + delta]
            &&& !(0 <= i + delta < v.lines.len()) ==> now.lines[i].len() == 0 && now.runs[i].len()
                == 0 && now.layouts[i] is None
        }),
{
}

/// A row that was fetched anew has the text without its line break and the runs that
/// were fetched, and no layout; every other row stays as it was.
pub proof fn law_patch_changes_its_row<L>(v: ViewportModel<L>, p: PatchModel, i: int)
    requires
        v.runs.len() == v.lines.len(),
        0 <= i < v.lines.len(),
    ensures
        ({
            let now = v.patched_one(p);
            &&& now.lines.len() == v.lines.len()
            &&& now.runs.len() == v.runs.len()
            &&& now.layouts.len() == v.layouts.len()
            &&& p.row == i ==> now.lines[i] == lines::without_newline(p.text) && now.runs[i]
                == p.runs && (i < v.layouts.len() ==> now.layouts[i] is None)
            &&& p.row != i ==> now.lines[i] == v.lines[i] && now.runs[i] == v.runs[i] && (i
                < v.layouts.len() ==> now.layouts[i] == v.layouts[i])
        }),
{
}

/// Of the rows that are reported as changed, those on the screen are fetched, each as
/// often as it is reported and in that order.
pub proof fn law_rows_on_screen(dirty: Seq<u16>, row: u16, n: int)
    ensures
        rows_on_screen(Seq::empty(), n) == Seq::<u16>::empty(),
        row < n ==> rows_on_screen(dirty.push(row), n) == rows_on_screen(dirty, n).push(row),
        row >= n ==> rows_on_screen(dirty.push(row), n) == rows_on_screen(dirty, n),
{
    assert(dirty.push(row).drop_last() =~= dirty);
}

/// A range of rows holds each row of it once, in order.
pub proof fn law_row_range(a: int, b: int, i: int)
    requires
        0 <= a <= b <= u16::MAX,
        0 <= i < b - a,
    ensures
        row_range(a, b).len() == b - a,
        row_range(a, b)[i] == a + i,
{
}

/// A byte of a line is selected exactly where its position in the text lies in the
/// selection.
pub proof fn law_selected_bytes(at: int, len: int, start: int, end: int, b: int)
    requires
        0 <= b < len,
        0 <= at,
    ensures
        (segment_of(at, len, start, end) matches Some((from, to)) && from <= b < to) <==> start
            <= at + b < end,
        segment_of(at, len, start, end) matches Some((from, to)) ==> 0 <= from < to <= len,
{
}

/// A click copies the hyperlink of its cell, where there is one; else the link in the
/// text there, over as many rows as it is wrapped; else the link at its position. Row
/// 0 counts as the first row.
pub proof fn law_what_a_click_copies(
    ts: Seq<Seq<char>>,
    cols: u16,
    cell: (u16, u16),
    hyperlink: Option<Seq<u8>>,
    index: Option<usize>,
)
    ensures
        ({
            let (col, row) = cell;
            let found = wrap::wrapped_url_span(ts, cols, row - 1, col as int);
            let clicked = click_target(ts, cols, Some(cell), hyperlink, index);
            let elsewhere = click_target(ts, cols, None, hyperlink, index);
            &&& hyperlink is Some ==> clicked == hyperlink
            &&& hyperlink is None && row >= 1 && found is Some ==> clicked == Some(
                wrap::wrapped_bytes(ts, cols, row - 1).subrange(found.unwrap().0, found.unwrap().1),
            )
            &&& hyperlink is None && row >= 1 && found is None ==> clicked == elsewhere
            &&& row == 0 ==> clicked == click_target(ts, cols, Some((col, 1u16)), hyperlink, index)
            &&& index is None ==> elsewhere is None
        }),
{
}

/// Away from the cells, a click copies the link that is found in the line of its
/// position, from there.
pub proof fn law_click_by_position(
    ts: Seq<Seq<char>>,
    cols: u16,
    hyperlink: Option<Seq<u8>>,
    row: int,
    at: int,
)
    requires
        0 <= row < ts.len(),
        0 <= at < encode_utf8(ts[row]).len(),
        lines::line_start(ts, ts.len() as int) <= usize::MAX,
    ensures
        ({
            let line = encode_utf8(ts[row]);
            let index = (lines::line_start(ts, row) + at) as usize;
            let clicked = click_target(ts, cols, None, hyperlink, Some(index));
            &&& url::url_span(line, at) matches Some((start, end)) ==> clicked == Some(
                line.subrange(start, end),
            )
            &&& url::url_span(line, at) is None ==> clicked is None
        }),
{
    lines::law_position_in_its_line(ts, row, at);
    lines::lemma_line_start_mono(ts, row + 1, ts.len() as int);
}

/// What contracts see of fetched rows and of style runs is what they hold.
pub proof fn law_models_hold_the_rows(
    patches: Seq<RowPatch>,
    runs: Seq<Vec<StyleRun>>,
    texts: Seq<String>,
    i: int,
)
    ensures
        patch_models(patches).len() == patches.len(),
        run_lists(runs).len() == runs.len(),
        wrap::texts(texts).len() == texts.len(),
        0 <= i < patches.len() ==> patch_models(patches)[i].row == patches[i].row && patch_models(
            patches,
        )[i].text == patches[i].text@ && patch_models(patches)[i].runs == patches[i].style_runs@,
        0 <= i < runs.len() ==> run_lists(runs)[i] == runs[i]@,
        0 <= i < texts.len() ==> wrap::texts(texts)[i] == texts[i]@,
{
}

} // verus!
