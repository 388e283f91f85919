//! The state of a terminal's view: output that waits to be taken in, the cached
//! screen, selection, composed text, and the cursor's blinking.
//!
//! The host draws the view and talks to the emulator; what it must do next, the
//! methods here say.
use std::ops::Range;
use vstd::prelude::*;
use vstd::utf8::*;
use crate::ascii::ESC;
use crate::cells;
use crate::cells::{cell_offset_for_utf16, line_columns};
use crate::config::{CursorStyle, TerminalConfig};
use crate::input::{scroll_hit_boundary, ByteSelection};
use crate::lines;
use crate::session::{SessionModel, TerminalSession};
use crate::text;
use crate::text::{same_text, text_slice, utf16_len, utf16_range_to_utf8};
use crate::types::{Rgb, ScrollPosition, StyleRun};
use crate::url;
use crate::viewport;
use crate::viewport::{Fetch, RowPatch, Viewport, ViewportModel};

verus! {

/// How much output may wait to be taken in.
pub const MAX_PENDING_OUTPUT_BYTES: usize = 262_144;

/// The view's state, with row layouts of type `L`.
pub struct TerminalView<L> {
    pub session: TerminalSession,
    pub viewport: Viewport<L>,
    has_input: bool,
    last_window_title: Option<String>,
    pending_output: Vec<u8>,
    pending_refresh: bool,
    selection: Option<ByteSelection>,
    marked_text: Option<String>,
    marked_start: usize,
    marked_end: usize,
    cursor_blink_on: bool,
    cursor_blink_enabled: bool,
    window_active: bool,
    peek_text: Option<String>,
    peek_runs: Vec<StyleRun>,
    peek_dirty: bool,
    scroll_pos: Option<ScrollPosition>,
    scroll_pos_dirty: bool,
}

/// The view's state as contracts see it.
#[verifier::ext_equal]
pub struct ViewModel<L> {
    pub session: SessionModel,
    pub viewport: ViewportModel<L>,
    /// Input goes to a shell.
    pub has_input: bool,
    pub window_title: Option<Seq<char>>,
    pub pending_output: Seq<u8>,
    pub pending_refresh: bool,
    pub selection: Option<ByteSelection>,
    /// Text that is being composed, and what is selected in it, in 16-bit units.
    pub marked_text: Option<Seq<char>>,
    pub marked_range: (usize, usize),
    /// The cursor is in the visible phase of its blinking.
    pub blink_on: bool,
    pub blink_enabled: bool,
    pub window_active: bool,
    /// The row above the screen, which shows while scrolling between lines.
    pub peek_text: Option<Seq<char>>,
    pub peek_runs: Seq<StyleRun>,
    pub peek_dirty: bool,
    pub scroll_pos: Option<ScrollPosition>,
    pub scroll_pos_dirty: bool,
}

impl<L> View for TerminalView<L> {
    type V = ViewModel<L>;

    closed spec fn view(&self) -> ViewModel<L> {
        ViewModel {
            session: self.session@,
            viewport: self.viewport@,
            has_input: self.has_input,
            window_title: text::text_of(self.last_window_title),
            pending_output: self.pending_output@,
            pending_refresh: self.pending_refresh,
            selection: self.selection,
            marked_text: text::text_of(self.marked_text),
            marked_range: (self.marked_start, self.marked_end),
            blink_on: self.cursor_blink_on,
            blink_enabled: self.cursor_blink_enabled,
            window_active: self.window_active,
            peek_text: text::text_of(self.peek_text),
            peek_runs: self.peek_runs@,
            peek_dirty: self.peek_dirty,
            scroll_pos: self.scroll_pos,
            scroll_pos_dirty: self.scroll_pos_dirty,
        }
    }
}

/// Output that has to be taken in now: first what was waiting, then these parts
/// of what came in.
pub struct QueuedOutput {
    pub flush: Option<Vec<u8>>,
    pub chunks: Vec<(usize, usize)>,
}

/// Output that is taken in before a frame: whether the program held back its
/// output before, and whether the output switches that on or off.
pub struct FrameOutput {
    pub bytes: Vec<u8>,
    pub sync_before: bool,
    pub touched_sync: bool,
}

/// The bytes, none where they are missing.
pub open spec fn or_none(bytes: Option<Vec<u8>>) -> Seq<u8> {
    match bytes {
        Some(v) => v@,
        None => Seq::empty(),
    }
}

/// The chunks follow one another from `from` to `to`, none of them empty or
/// larger than what may wait.
pub open spec fn chunks_tile(chunks: Seq<(usize, usize)>, from: int, to: int) -> bool
    decreases chunks.len(),
{
    if chunks.len() == 0 {
        from == to
    } else {
        let last = chunks.last();
        &&& last.1 == to
        &&& 0 < last.1 - last.0 <= MAX_PENDING_OUTPUT_BYTES
        &&& chunks_tile(chunks.drop_last(), from, last.0 as int)
    }
}

/// The bytes of the chunks, one after the other.
pub open spec fn chunk_bytes(bytes: Seq<u8>, chunks: Seq<(usize, usize)>) -> Seq<u8>
    decreases chunks.len(),
{
    if chunks.len() == 0 {
        Seq::empty()
    } else {
        chunk_bytes(bytes, chunks.drop_last()) + bytes.subrange(
            chunks.last().0 as int,
            chunks.last().1 as int,
        )
    }
}

proof fn lemma_chunk_bytes(bytes: Seq<u8>, chunks: Seq<(usize, usize)>, to: int)
    requires
        chunks_tile(chunks, 0, to),
        0 <= to <= bytes.len(),
    ensures
        chunk_bytes(bytes, chunks) == bytes.take(to),
        chunks.len() > 0 ==> to > 0,
    decreases chunks.len(),
{
    if chunks.len() > 0 {
        let last = chunks.last();
        lemma_chunks_start(chunks.drop_last(), 0, last.0 as int);
        lemma_chunk_bytes(bytes, chunks.drop_last(), last.0 as int);
        assert(bytes.take(to) =~= bytes.take(last.0 as int) + bytes.subrange(last.0 as int, to));
    } else {
        assert(bytes.take(0) =~= Seq::<u8>::empty());
    }
}

proof fn lemma_chunks_start(chunks: Seq<(usize, usize)>, from: int, to: int)
    requires
        chunks_tile(chunks, from, to),
    ensures
        from <= to,
    decreases chunks.len(),
{
    if chunks.len() > 0 {
        lemma_chunks_start(chunks.drop_last(), from, chunks.last().0 as int);
    }
}

/// `ESC [ ? 2 0 2 6` at position `i`, followed by `h` or `l`.
pub open spec fn sync_switch_at(bytes: Seq<u8>, i: int) -> bool {
    &&& 0 <= i
    &&& i + 8 <= bytes.len()
    &&& bytes.subrange(i, i + 7) == seq![ESC, 0x5b, 0x3f, 0x32, 0x30, 0x32, 0x36]
    &&& bytes[i + 7] == 0x68 || bytes[i + 7] == 0x6c
}

/// Whether the output switches synchronized output on or off somewhere.
pub fn has_synchronized_output_mode_change(bytes: &[u8]) -> (r: bool)
    ensures
        r == exists|i: int| sync_switch_at(bytes@, i),
{
    let mut i: usize = 0;
    while bytes.len() - i >= 8
        invariant
            i <= bytes@.len(),
            forall|j: int| 0 <= j < i ==> !#[trigger] sync_switch_at(bytes@, j),
        decreases bytes@.len() - i,
    {
        let found = bytes[i] == ESC && bytes[i + 1] == 0x5b && bytes[i + 2] == 0x3f && bytes[i + 3]
            == 0x32 && bytes[i + 4] == 0x30 && bytes[i + 5] == 0x32 && bytes[i + 6] == 0x36 && (
        bytes[i + 7] == 0x68 || bytes[i + 7] == 0x6c);
        let ghost s = bytes@.subrange(i as int, i + 7);
        assert(forall|k: int| 0 <= k < 7 ==> s[k] == bytes@[i + k]);
        if found {
            assert(s =~= seq![ESC, 0x5b, 0x3f, 0x32, 0x30, 0x32, 0x36]);
            assert(sync_switch_at(bytes@, i as int));
            return true;
        }
        assert(!sync_switch_at(bytes@, i as int)) by {
            if sync_switch_at(bytes@, i as int) {
                assert(s[0] == ESC && s[1] == 0x5b && s[2] == 0x3f && s[3] == 0x32 && s[4] == 0x30
                    && s[5] == 0x32 && s[6] == 0x36);
            }
        }
        i = i + 1;
    }
    assert forall|j: int| !#[trigger] sync_switch_at(bytes@, j) by {
        if j >= i && sync_switch_at(bytes@, j) {
            assert(j + 8 <= bytes@.len());
        }
    }
    false
}

/// The title of a window whose terminal has set none.
pub open spec fn default_title() -> Seq<char> {
    "GPUI Embedded Terminal (Ghostty VT)"@
}

impl<L> ViewModel<L> {
    /// A view that has not taken in the screen yet.
    pub open spec fn fresh(session: SessionModel, has_input: bool) -> ViewModel<L> {
        ViewModel {
            session,
            viewport: ViewportModel {
                lines: Seq::empty(),
                runs: Seq::empty(),
                layouts: Seq::empty(),
            },
            has_input,
            window_title: None,
            pending_output: Seq::empty(),
            pending_refresh: false,
            selection: None,
            marked_text: None,
            marked_range: (0, 0),
            blink_on: true,
            blink_enabled: true,
            window_active: true,
            peek_text: None,
            peek_runs: Seq::empty(),
            peek_dirty: false,
            scroll_pos: None,
            scroll_pos_dirty: true,
        }
    }

    /// The screen was taken over as a whole.
    pub open spec fn refreshed(self, screen: Seq<char>, runs: Seq<Seq<StyleRun>>) -> ViewModel<L> {
        ViewModel {
            viewport: ViewportModel {
                lines: lines::screen_lines(screen),
                runs,
                layouts: Seq::empty(),
            },
            selection: None,
            peek_dirty: true,
            scroll_pos_dirty: true,
            ..self
        }
    }

    /// The title that the window should have.
    pub open spec fn wanted_title(self) -> Seq<char> {
        match self.session.title {
            Some(t) => t,
            None => default_title(),
        }
    }

    /// Output `bytes` came in.
    pub open spec fn queued(self, bytes: Seq<u8>) -> ViewModel<L> {
        let fits = self.pending_output.len() + bytes.len() <= MAX_PENDING_OUTPUT_BYTES;
        let large = bytes.len() > MAX_PENDING_OUTPUT_BYTES;
        ViewModel {
            blink_on: true,
            pending_output: if fits {
                self.pending_output + bytes
            } else if large {
                Seq::empty()
            } else {
                bytes
            },
            pending_refresh: self.pending_refresh || (!fits && (large || self.pending_output.len()
                > 0)),
            ..self
        }
    }
}

/// How the view followed its screen, which moved by `delta` rows: the cached rows
/// moved too, and those that came in have to be fetched; everything has, where the
/// cache does not have the screen's rows or none of them is left.
pub open spec fn scroll_followed<L>(
    was: ViewModel<L>,
    now: ViewModel<L>,
    delta: i32,
    fetch: Fetch,
) -> bool {
    let rows = was.session.config.rows;
    let whole = !was.viewport.has_rows(rows as int) || delta >= rows || delta <= -rows;
    let marked = ViewModel { scroll_pos_dirty: true, ..was };
    &&& rows == 0 ==> fetch is Nothing && now == marked
    &&& rows != 0 && whole ==> fetch is Everything && now == marked
    &&& rows != 0 && !whole ==> {
        &&& now == (ViewModel { viewport: was.viewport.scrolled(delta as int), ..marked })
        &&& fetch matches Fetch::Rows(v) && v@ == viewport::row_range(
            viewport::incoming(rows as int, delta as int).0,
            viewport::incoming(rows as int, delta as int).1,
        )
    }
}

/// What follows from scrolling by lines.
pub struct LinesScrolled {
    pub fetch: Fetch,
    pub clamped: bool,
}

impl<L> TerminalView<L> {
    /// The cached screen is in order.
    pub closed spec fn wf(&self) -> bool {
        self.viewport.wf()
    }

    /// A view without a shell, which has not taken in the screen yet.
    pub fn new(session: TerminalSession) -> (v: TerminalView<L>)
        ensures
            v.wf(),
            v@ == ViewModel::<L>::fresh(session@, false),
    {
        Self::with_input(session, false)
    }

    /// A view whose input goes to a shell, which has not taken in the screen yet.
    pub fn new_with_input(session: TerminalSession) -> (v: TerminalView<L>)
        ensures
            v.wf(),
            v@ == ViewModel::<L>::fresh(session@, true),
    {
        Self::with_input(session, true)
    }

    fn with_input(session: TerminalSession, has_input: bool) -> (v: TerminalView<L>)
        ensures
            v.wf(),
            v@ == ViewModel::<L>::fresh(session@, has_input),
    {
        TerminalView {
            session,
            viewport: Viewport::new(),
            has_input,
            last_window_title: None,
            pending_output: Vec::new(),
            pending_refresh: false,
            selection: None,
            marked_text: None,
            marked_start: 0,
            marked_end: 0,
            cursor_blink_on: true,
            cursor_blink_enabled: true,
            window_active: true,
            peek_text: None,
            peek_runs: Vec::new(),
            peek_dirty: false,
            scroll_pos: None,
            scroll_pos_dirty: true,
        }
    }

    /// Takes over the whole screen.
    pub fn refresh_viewport(&mut self, screen: &str, style_runs: Vec<Vec<StyleRun>>)
        ensures
            final(self).wf(),
            final(self)@ == old(self)@.refreshed(screen@, viewport::run_lists(style_runs@)),
    {
        self.viewport.refresh(screen, style_runs);
        self.selection = None;
        self.peek_dirty = true;
        self.scroll_pos_dirty = true;
    }

    /// The emulator's screen moved by `delta` rows. Says what has to be fetched;
    /// rows that came in are blank until then.
    pub fn apply_viewport_scroll_delta(&mut self, delta: i32) -> (fetch: Fetch)
        requires
            old(self).wf(),
        ensures
            final(self).wf(),
            delta == 0 ==> fetch is Nothing && final(self)@ == old(self)@,
            delta != 0 ==> scroll_followed(old(self)@, final(self)@, delta, fetch),
    {
        if delta == 0 {
            return Fetch::Nothing;
        }
        self.scroll_pos_dirty = true;
        let rows = self.session.rows();
        self.viewport.scroll(delta, rows)
    }

    /// What has to be fetched where the emulator reports these rows as changed.
    pub fn plan_dirty_rows(&self, dirty: &[u16]) -> (fetch: Fetch)
        ensures
            dirty@.len() == 0 ==> fetch is Nothing,
            dirty@.len() > 0 && !self@.viewport.has_rows(self@.session.config.rows as int)
                ==> fetch is Everything,
            dirty@.len() > 0 && self@.viewport.has_rows(self@.session.config.rows as int) ==> (
            fetch matches Fetch::Rows(v) && v@ == viewport::rows_on_screen(
                dirty@,
                self@.session.config.rows as int,
            )),
    {
        let rows = self.session.rows();
        self.viewport.plan_dirty(dirty, rows)
    }

    /// Takes over rows that were fetched anew; what was selected no longer is.
    pub fn apply_dirty_viewport_rows(&mut self, patches: &Vec<RowPatch>)
        requires
            old(self).wf(),
        ensures
            final(self).wf(),
            final(self)@ == (ViewModel {
                viewport: old(self)@.viewport.patched(viewport::patch_models(patches@)),
                selection: None,
                ..old(self)@
            }),
    {
        self.viewport.apply_patches(patches);
        self.selection = None;
    }

    /// Output came in. It waits to be taken in with the next frame; what does not
    /// fit has to be taken in now. No byte is lost, and their order stays.
    pub fn queue_output_bytes(&mut self, bytes: &[u8]) -> (now: QueuedOutput)
        requires
            old(self).wf(),
        ensures
            final(self).wf(),
            final(self)@ == old(self)@.queued(bytes@),
            now.flush is Some <==> old(self)@.pending_output.len() > 0
                && old(self)@.pending_output.len() + bytes@.len() > MAX_PENDING_OUTPUT_BYTES,
            now.flush matches Some(v) ==> v@ == old(self)@.pending_output,
            now.chunks@.len() > 0 <==> bytes@.len() > MAX_PENDING_OUTPUT_BYTES,
            bytes@.len() > MAX_PENDING_OUTPUT_BYTES ==> chunks_tile(
                now.chunks@,
                0,
                bytes@.len() as int,
            ),
            or_none(now.flush) + chunk_bytes(bytes@, now.chunks@) + final(self)@.pending_output
                == old(self)@.pending_output + bytes@,
            old(self)@.pending_output.len() <= MAX_PENDING_OUTPUT_BYTES
                ==> final(self)@.pending_output.len() <= MAX_PENDING_OUTPUT_BYTES,
    {
        self.cursor_blink_on = true;
        let ghost was = self.pending_output@;
        let mut chunks: Vec<(usize, usize)> = Vec::new();
        if self.pending_output.len() <= MAX_PENDING_OUTPUT_BYTES && bytes.len()
            <= MAX_PENDING_OUTPUT_BYTES - self.pending_output.len() {
            self.pending_output.extend_from_slice(bytes);
            assert(self.pending_output@ =~= was + bytes@);
            assert(Seq::<u8>::empty() + Seq::<u8>::empty() + (was + bytes@) =~= was + bytes@);
            return QueuedOutput { flush: None, chunks };
        }
        let mut flush: Option<Vec<u8>> = None;
        if self.pending_output.len() > 0 {
            let mut pending: Vec<u8> = Vec::new();
            std::mem::swap(&mut pending, &mut self.pending_output);
            flush = Some(pending);
            self.pending_refresh = true;
        }
        assert(or_none(flush) =~= was);
        if bytes.len() > MAX_PENDING_OUTPUT_BYTES {
            let mut offset: usize = 0;
            while offset < bytes.len()
                invariant
                    offset <= bytes@.len(),
                    chunks_tile(chunks@, 0, offset as int),
                    chunks@.len() > 0 || offset == 0,
                decreases bytes@.len() - offset,
            {
                let end: usize = if bytes.len() - offset > MAX_PENDING_OUTPUT_BYTES {
                    offset + MAX_PENDING_OUTPUT_BYTES
                } else {
                    bytes.len()
                };
                let ghost before = chunks@;
                chunks.push((offset, end));
                assert(chunks@.drop_last() =~= before);
                offset = end;
            }
            proof {
                lemma_chunk_bytes(bytes@, chunks@, bytes@.len() as int);
                assert(bytes@.take(bytes@.len() as int) =~= bytes@);
                assert(was + bytes@ + Seq::<u8>::empty() =~= was + bytes@);
                assert(self.pending_output@ =~= Seq::<u8>::empty());
            }
            self.pending_refresh = true;
            return QueuedOutput { flush, chunks };
        }
        self.pending_output.extend_from_slice(bytes);
        assert(self.pending_output@ =~= bytes@);
        assert(was + Seq::<u8>::empty() + bytes@ =~= was + bytes@);
        QueuedOutput { flush, chunks }
    }
}

/// The range from `start` to `end`, held to a text of `total` units.
pub open spec fn held_range(start: usize, end: usize, total: usize) -> (usize, usize) {
    (
        if start < total {
            start
        } else {
            total
        },
        if end < total {
            end
        } else {
            total
        },
    )
}

/// The number of 16-bit units of a text.
pub open spec fn units(t: Seq<char>) -> usize {
    text::utf16_offset(t, t.len() as int) as usize
}

/// What is selected when nothing was asked for: the end of the text.
pub open spec fn marked_selection(t: Seq<char>, selected: Option<Range<usize>>) -> (usize, usize) {
    match selected {
        Some(r) => held_range(r.start, r.end, units(t)),
        None => (units(t), units(t)),
    }
}

impl<L> TerminalView<L> {
    /// Takes the output that waits, for the frame that is about to be drawn.
    pub fn take_frame_output(&mut self) -> (r: Option<FrameOutput>)
        requires
            old(self).wf(),
        ensures
            final(self).wf(),
            r is Some <==> old(self)@.pending_output.len() > 0,
            r matches Some(f) ==> {
                &&& f.bytes@ == old(self)@.pending_output
                &&& f.sync_before == old(self)@.session.modes.synchronized_output
                &&& f.touched_sync == exists|i: int| sync_switch_at(old(self)@.pending_output, i)
            },
            final(self)@ == (ViewModel { pending_output: Seq::empty(), ..old(self)@ }),
    {
        if self.pending_output.len() == 0 {
            assert(self.pending_output@ =~= Seq::<u8>::empty());
            return None;
        }
        let mut bytes: Vec<u8> = Vec::new();
        std::mem::swap(&mut bytes, &mut self.pending_output);
        assert(self.pending_output@ =~= Seq::<u8>::empty());
        let sync_before = self.session.modes().synchronized_output;
        let touched_sync = has_synchronized_output_mode_change(bytes.as_slice());
        Some(FrameOutput { bytes, sync_before, touched_sync })
    }

    /// Output was taken in before a frame. Whether the changed rows can be fetched
    /// one by one: not while the program holds back its output, nor when it did
    /// before or switched in between; then the whole screen is due instead.
    pub fn after_frame_output(&mut self, sync_before: bool, touched_sync: bool) -> (rows: bool)
        requires
            old(self).wf(),
        ensures
            final(self).wf(),
            rows == !(old(self)@.session.modes.synchronized_output || sync_before || touched_sync),
            final(self)@ == (ViewModel {
                pending_refresh: old(self)@.pending_refresh || !rows,
                ..old(self)@
            }),
    {
        let sync_after = self.session.modes().synchronized_output;
        if sync_after || sync_before || touched_sync {
            self.pending_refresh = true;
            false
        } else {
            true
        }
    }

    /// Output was taken in outside a frame. Whether the screen is to be fetched
    /// now: not while the program holds back its output.
    pub fn after_direct_output(&mut self) -> (refresh: bool)
        requires
            old(self).wf(),
        ensures
            final(self).wf(),
            refresh == !old(self)@.session.modes.synchronized_output,
            final(self)@ == (ViewModel {
                pending_refresh: old(self)@.pending_refresh || !refresh,
                ..old(self)@
            }),
    {
        if self.session.modes().synchronized_output {
            self.pending_refresh = true;
            false
        } else {
            true
        }
    }

    /// Whether the whole screen is to be fetched for the frame. While the program
    /// holds back its output, only a refresh that output asked for waits; what the
    /// user asked for never does.
    pub fn refresh_due(&mut self, had_pending_output: bool) -> (due: bool)
        requires
            old(self).wf(),
        ensures
            final(self).wf(),
            due == (old(self)@.pending_refresh && (!old(self)@.session.modes.synchronized_output
                || !had_pending_output)),
            final(self)@ == (ViewModel {
                pending_refresh: old(self)@.pending_refresh && !due,
                ..old(self)@
            }),
    {
        if self.pending_refresh && (!self.session.modes().synchronized_output
            || !had_pending_output) {
            self.pending_refresh = false;
            true
        } else {
            false
        }
    }

    /// Asks for the whole screen with the next frame.
    pub fn schedule_viewport_refresh(&mut self)
        requires
            old(self).wf(),
        ensures
            final(self).wf(),
            final(self)@ == (ViewModel { pending_refresh: true, ..old(self)@ }),
    {
        self.pending_refresh = true;
    }

    /// The title that the window is to be given, if it does not have it yet.
    pub fn window_title_update(&mut self) -> (r: Option<String>)
        requires
            old(self).wf(),
        ensures
            final(self).wf(),
            old(self)@.session.config.update_window_title && old(self)@.window_title != Some(
                old(self)@.wanted_title(),
            ) ==> {
                &&& text::text_of(r) == Some(old(self)@.wanted_title())
                &&& final(self)@ == (ViewModel {
                    window_title: Some(old(self)@.wanted_title()),
                    ..old(self)@
                })
            },
            !(old(self)@.session.config.update_window_title && old(self)@.window_title != Some(
                old(self)@.wanted_title(),
            )) ==> r is None && final(self)@ == old(self)@,
    {
        if !self.session.window_title_updates_enabled() {
            return None;
        }
        let title = match self.session.title() {
            Some(t) => t.to_owned(),
            None => "GPUI Embedded Terminal (Ghostty VT)".to_owned(),
        };
        let current = match &self.last_window_title {
            Some(t) => same_text(t.as_str(), title.as_str()),
            None => false,
        };
        if current {
            return None;
        }
        self.last_window_title = Some(title.as_str().to_owned());
        Some(title)
    }

    /// The terminal has a new size; the host resizes the emulator.
    pub fn resize_terminal(&mut self, cols: u16, rows: u16, between_lines: bool)
        requires
            old(self).wf(),
        ensures
            final(self).wf(),
            final(self)@ == (ViewModel {
                session: SessionModel {
                    config: TerminalConfig {
                        cols,
                        rows,
                        ..old(self)@.session.config
                    },
                    ..old(self)@.session.with_anchor(None)
                },
                scroll_pos_dirty: true,
                peek_dirty: old(self)@.peek_dirty || between_lines,
                pending_refresh: true,
                ..old(self)@
            }),
    {
        self.session.resize(cols, rows);
        self.sync_viewport_scroll_tracking(between_lines);
        self.pending_refresh = true;
    }

    /// The screen was moved by a key, the wheel or a new size: where it sits has
    /// to be asked for anew. `between_lines` says that it showed a part of the row
    /// above, which it does not any more.
    pub fn sync_viewport_scroll_tracking(&mut self, between_lines: bool)
        requires
            old(self).wf(),
        ensures
            final(self).wf(),
            final(self)@ == (ViewModel {
                scroll_pos_dirty: true,
                peek_dirty: old(self)@.peek_dirty || between_lines,
                ..old(self)@
            }),
    {
        self.scroll_pos_dirty = true;
        if between_lines {
            self.peek_dirty = true;
        }
    }

    /// The emulator was asked to scroll `lines` lines back, and its screen moved
    /// by `moved` rows. Says what has to be fetched, and whether the emulator came
    /// to an end of what it has. `smooth` says that the view scrolls between
    /// lines, and so shows the row above.
    pub fn lines_scrolled(&mut self, lines: i32, moved: i32, smooth: bool) -> (r: LinesScrolled)
        requires
            old(self).wf(),
        ensures
            final(self).wf(),
            r.clamped == (-moved != lines),
            moved == 0 ==> r.fetch is Nothing && final(self)@ == (ViewModel {
                peek_dirty: old(self)@.peek_dirty || smooth,
                ..old(self)@
            }),
            moved != 0 ==> scroll_followed(
                old(self)@,
                ViewModel { peek_dirty: old(self)@.peek_dirty, ..final(self)@ },
                moved,
                r.fetch,
            ) && final(self)@.peek_dirty == (old(self)@.peek_dirty || smooth),
    {
        let fetch = self.apply_viewport_scroll_delta(moved);
        if smooth {
            self.peek_dirty = true;
        }
        LinesScrolled { fetch, clamped: scroll_hit_boundary(lines, moved) }
    }

    /// Swaps the default colours; the screen is drawn anew with them.
    pub fn set_default_colors(&mut self, fg: Rgb, bg: Rgb)
        requires
            old(self).wf(),
        ensures
            final(self).wf(),
            final(self)@.session == old(self)@.session.recolored(fg, bg),
            final(self)@ == (ViewModel {
                session: final(self)@.session,
                pending_refresh: true,
                ..old(self)@
            }),
    {
        self.session.set_default_colors(fg, bg);
        self.pending_refresh = true;
    }

    /// Sets the cursor's colour; `None` for one that contrasts with the
    /// background.
    pub fn set_cursor_color(&mut self, color: Option<Rgb>)
        requires
            old(self).wf(),
        ensures
            final(self).wf(),
            final(self)@ == (ViewModel {
                session: SessionModel {
                    config: TerminalConfig { cursor_color: color, ..old(self)@.session.config },
                    ..old(self)@.session
                },
                ..old(self)@
            }),
    {
        self.session.set_cursor_color(color);
    }

    /// Sets the cursor's shape.
    pub fn set_cursor_style(&mut self, style: CursorStyle)
        requires
            old(self).wf(),
        ensures
            final(self).wf(),
            final(self)@ == (ViewModel {
                session: SessionModel {
                    config: TerminalConfig { cursor_style: style, ..old(self)@.session.config },
                    ..old(self)@.session
                },
                ..old(self)@
            }),
    {
        self.session.set_cursor_style(style);
    }

    /// One tick of the cursor's blinking; whether the cursor is to be drawn anew.
    pub fn blink_tick(&mut self) -> (redraw: bool)
        requires
            old(self).wf(),
        ensures
            final(self).wf(),
            redraw == (old(self)@.blink_enabled && old(self)@.window_active),
            final(self)@ == (ViewModel {
                blink_on: if old(self)@.blink_enabled {
                    !old(self)@.blink_on
                } else {
                    old(self)@.blink_on
                },
                ..old(self)@
            }),
    {
        if !self.cursor_blink_enabled {
            return false;
        }
        self.cursor_blink_on = !self.cursor_blink_on;
        self.window_active
    }

    /// Turns the cursor's blinking on or off; off leaves it visible. Whether
    /// anything changed.
    pub fn set_cursor_blink_enabled(&mut self, enabled: bool) -> (changed: bool)
        requires
            old(self).wf(),
        ensures
            final(self).wf(),
            changed == (enabled != old(self)@.blink_enabled),
            final(self)@ == (ViewModel {
                blink_enabled: enabled,
                blink_on: old(self)@.blink_on || (changed && !enabled),
                ..old(self)@
            }),
    {
        if self.cursor_blink_enabled == enabled {
            return false;
        }
        self.cursor_blink_enabled = enabled;
        if !enabled {
            self.cursor_blink_on = true;
        }
        true
    }

    /// The window came to the front or left it; the cursor shows at once when it
    /// comes. Whether the cursor is to be drawn anew.
    pub fn set_window_active(&mut self, active: bool) -> (redraw: bool)
        requires
            old(self).wf(),
        ensures
            final(self).wf(),
            redraw == (active && !old(self)@.window_active),
            final(self)@ == (ViewModel {
                window_active: active,
                blink_on: old(self)@.blink_on || redraw,
                ..old(self)@
            }),
    {
        let redraw = active && !self.window_active;
        self.window_active = active;
        if redraw {
            self.cursor_blink_on = true;
        }
        redraw
    }

    /// Where the cursor is drawn: nowhere while the view has no focus, the program
    /// hides it, or it is in the dark phase of its blinking.
    pub fn shown_cursor(&self, focused: bool, cursor: Option<(u16, u16)>) -> (r: Option<(u16, u16)>)
        ensures
            r == if focused && self@.session.modes.cursor_visible && self@.blink_on {
                cursor
            } else {
                None
            },
    {
        if focused && self.session.modes().cursor_visible && self.cursor_blink_on {
            cursor
        } else {
            None
        }
    }

    /// Whether the row above the screen has to be fetched, where `visible` says
    /// that a part of it shows.
    pub fn peek_fetch_due(&self, visible: bool) -> (r: bool)
        ensures
            r == (visible && self@.peek_dirty),
    {
        visible && self.peek_dirty
    }

    /// The row above the screen may have changed.
    pub fn mark_peek_dirty(&mut self)
        requires
            old(self).wf(),
        ensures
            final(self).wf(),
            final(self)@ == (ViewModel { peek_dirty: true, ..old(self)@ }),
    {
        self.peek_dirty = true;
    }

    /// Takes over the row above the screen. Whether there is one; without it
    /// nothing may show above the screen.
    pub fn set_peek(&mut self, row: Option<String>, runs: Vec<StyleRun>) -> (exists_row: bool)
        requires
            old(self).wf(),
        ensures
            final(self).wf(),
            exists_row == row is Some,
            final(self)@ == (ViewModel {
                peek_text: text::text_of(row),
                peek_runs: runs@,
                peek_dirty: false,
                ..old(self)@
            }),
    {
        let exists_row = row.is_some();
        self.peek_text = row;
        self.peek_runs = runs;
        self.peek_dirty = false;
        exists_row
    }

    /// The row above the screen.
    pub fn peek_text(&self) -> (r: Option<&str>)
        ensures
            r is Some <==> self@.peek_text is Some,
            r matches Some(t) ==> self@.peek_text == Some(t@),
    {
        match &self.peek_text {
            Some(t) => Some(t.as_str()),
            None => None,
        }
    }

    /// The style runs of the row above the screen.
    pub fn peek_runs(&self) -> (r: &[StyleRun])
        ensures
            r@ == self@.peek_runs,
    {
        self.peek_runs.as_slice()
    }

    /// Whether the emulator has to be asked where the screen sits.
    pub fn scroll_pos_stale(&self) -> (r: bool)
        ensures
            r == self@.scroll_pos_dirty,
    {
        self.scroll_pos_dirty
    }

    /// Takes over where the screen sits.
    pub fn set_scroll_pos(&mut self, pos: Option<ScrollPosition>)
        requires
            old(self).wf(),
        ensures
            final(self).wf(),
            final(self)@ == (ViewModel {
                scroll_pos: pos,
                scroll_pos_dirty: false,
                ..old(self)@
            }),
    {
        self.scroll_pos = pos;
        self.scroll_pos_dirty = false;
    }

    /// Where the screen sits, if there is anything to scroll to.
    pub fn scrollbar(&self) -> (r: Option<ScrollPosition>)
        ensures
            r == match self@.scroll_pos {
                Some(pos) => if pos.total_rows > pos.viewport_rows && pos.viewport_rows != 0 {
                    Some(pos)
                } else {
                    None
                },
                None => None,
            },
    {
        match self.scroll_pos {
            Some(pos) => if pos.total_rows <= pos.viewport_rows || pos.viewport_rows == 0 {
                None
            } else {
                Some(pos)
            },
            None => None,
        }
    }

    /// Whether input goes to a shell.
    pub fn has_input(&self) -> (r: bool)
        ensures
            r == self@.has_input,
    {
        self.has_input
    }

    /// What is selected.
    pub fn selection(&self) -> (r: Option<ByteSelection>)
        ensures
            r == self@.selection,
    {
        self.selection
    }

    /// Starts a selection at a position.
    pub fn select_from(&mut self, index: usize)
        requires
            old(self).wf(),
        ensures
            final(self).wf(),
            final(self)@ == (ViewModel {
                selection: Some(ByteSelection { anchor: index, active: index }),
                ..old(self)@
            }),
    {
        self.selection = Some(ByteSelection { anchor: index, active: index });
    }

    /// Moves the end of the selection; whether that changed anything.
    pub fn drag_selection(&mut self, index: usize) -> (changed: bool)
        requires
            old(self).wf(),
        ensures
            final(self).wf(),
            changed == (old(self)@.selection matches Some(s) && s.active != index),
            final(self)@ == (ViewModel {
                selection: match old(self)@.selection {
                    Some(s) => Some(ByteSelection { anchor: s.anchor, active: index }),
                    None => None,
                },
                ..old(self)@
            }),
    {
        match self.selection {
            Some(s) => {
                self.selection = Some(ByteSelection { anchor: s.anchor, active: index });
                s.active != index
            },
            None => false,
        }
    }

    /// The button that selects was released: an empty selection is none. Whether
    /// there was one.
    pub fn end_selection(&mut self) -> (had: bool)
        requires
            old(self).wf(),
        ensures
            final(self).wf(),
            had == old(self)@.selection is Some,
            final(self)@ == (ViewModel {
                selection: match old(self)@.selection {
                    Some(s) => if s.is_empty() {
                        None
                    } else {
                        Some(s)
                    },
                    None => None,
                },
                ..old(self)@
            }),
    {
        match self.selection {
            Some(s) => {
                if s.anchor == s.active {
                    self.selection = None;
                }
                true
            },
            None => false,
        }
    }

    /// Selects everything.
    pub fn select_all(&mut self)
        requires
            old(self).wf(),
        ensures
            final(self).wf(),
            final(self)@ == (ViewModel {
                selection: Some(
                    ByteSelection {
                        anchor: 0,
                        active: lines::kept_total(old(self)@.viewport.lines),
                    },
                ),
                ..old(self)@
            }),
    {
        self.selection = Some(ByteSelection { anchor: 0, active: self.viewport.total_len() });
    }

    /// The link that a click on a cell copies. `hyperlink` is what the emulator has
    /// attached to the cell, `index` the position of the click.
    pub fn clicked_link(
        &self,
        cell: Option<(u16, u16)>,
        hyperlink: Option<String>,
        index: Option<usize>,
    ) -> (r: Option<String>)
        requires
            self.wf(),
        ensures
            url::string_bytes(r) == viewport::click_target(
                self@.viewport.lines,
                self@.session.config.cols,
                cell,
                url::string_bytes(hyperlink),
                index,
            ),
    {
        let cols = self.session.cols();
        self.viewport.clicked_link(cols, cell, hyperlink, index)
    }

    /// The text that is copied: what is selected, or everything where nothing is,
    /// or what is selected has no text.
    pub fn copied_text(&self) -> (s: String)
        requires
            self.wf(),
        ensures
            s@ == copied(self@.viewport.lines, self@.selection),
    {
        if let Some(sel) = self.selection {
            let range = sel.range();
            if range.start < range.end {
                let s = self.viewport.viewport_slice(range);
                if !s.as_str().is_empty() {
                    return s;
                }
            }
        }
        let total: usize = self.viewport.total_len();
        self.viewport.viewport_slice(0..total)
    }

    /// Nothing is being composed any more.
    pub fn clear_marked_text(&mut self)
        requires
            old(self).wf(),
        ensures
            final(self).wf(),
            final(self)@ == (ViewModel { marked_text: None, marked_range: (0, 0), ..old(self)@ }),
    {
        self.marked_text = None;
        self.marked_start = 0;
        self.marked_end = 0;
    }

    /// Text is being composed; an empty text ends that.
    pub fn set_marked_text(&mut self, marked: String, selected: Option<Range<usize>>)
        requires
            old(self).wf(),
        ensures
            final(self).wf(),
            marked@.len() == 0 ==> final(self)@ == (ViewModel {
                marked_text: None,
                marked_range: (0, 0),
                ..old(self)@
            }),
            marked@.len() > 0 ==> final(self)@ == (ViewModel {
                marked_text: Some(marked@),
                marked_range: marked_selection(marked@, selected),
                ..old(self)@
            }),
    {
        if marked.as_str().is_empty() {
            self.clear_marked_text();
            return;
        }
        let total: usize = utf16_len(marked.as_str());
        let (start, end): (usize, usize) = match selected {
            Some(r) => (
                if r.start < total {
                    r.start
                } else {
                    total
                },
                if r.end < total {
                    r.end
                } else {
                    total
                },
            ),
            None => (total, total),
        };
        self.marked_text = Some(marked);
        self.marked_start = start;
        self.marked_end = end;
    }

    /// The text that is being composed.
    pub fn marked_text(&self) -> (r: Option<&str>)
        ensures
            r is Some <==> self@.marked_text is Some,
            r matches Some(t) ==> self@.marked_text == Some(t@),
    {
        match &self.marked_text {
            Some(t) => Some(t.as_str()),
            None => None,
        }
    }

    /// What is selected in the text that is being composed, in 16-bit units.
    pub fn selected_text_range(&self) -> (r: Range<usize>)
        ensures
            (r.start, r.end) == self@.marked_range,
    {
        self.marked_start..self.marked_end
    }

    /// The text that is being composed, as a range of 16-bit units.
    pub fn marked_text_range(&self) -> (r: Option<Range<usize>>)
        ensures
            match self@.marked_text {
                Some(t) => if units(t) > 0 {
                    r matches Some(x) && x.start == 0 && x.end == units(t)
                } else {
                    r is None
                },
                None => r is None,
            },
    {
        match &self.marked_text {
            Some(t) => {
                let len: usize = utf16_len(t.as_str());
                if len > 0 {
                    Some(0..len)
                } else {
                    None
                }
            },
            None => None,
        }
    }

    /// A part of the text that is being composed, by 16-bit units, and the part
    /// that was taken: the range held to the text. The text is missing where the
    /// range runs backwards.
    pub fn text_for_range(&self, range: Range<usize>) -> (r: Option<(Range<usize>, Option<String>)>)
        ensures
            r is Some <==> self@.marked_text is Some,
            r matches Some((adjusted, part)) ==> {
                let t = self@.marked_text.unwrap();
                let (start, end) = held_range(range.start, range.end, units(t));
                &&& adjusted.start == start && adjusted.end == end
                &&& text::text_of(part) == text::sub_text(
                    t,
                    text::utf16_to_utf8(t, start as int).unwrap(),
                    text::utf16_to_utf8(t, end as int).unwrap(),
                )
            },
    {
        match &self.marked_text {
            Some(t) => {
                let s = t.as_str();
                let total: usize = utf16_len(s);
                let start: usize = if range.start < total {
                    range.start
                } else {
                    total
                };
                let end: usize = if range.end < total {
                    range.end
                } else {
                    total
                };
                proof {
                    text::lemma_utf16_to_utf8_some(s@, start as int);
                    text::lemma_utf16_to_utf8_some(s@, end as int);
                }
                let part = match utf16_range_to_utf8(s, start..end) {
                    Some(bytes) => text_slice(s, bytes.start, bytes.end),
                    None => None,
                };
                Some((start..end, part))
            },
            None => None,
        }
    }

    /// How many columns right of the cursor 16-bit unit `unit` of the text that is
    /// being composed stands; without such text, as many as units.
    pub fn marked_column(&self, unit: usize) -> (r: usize)
        ensures
            r == match self@.marked_text {
                Some(t) => text::capped(
                    cells::columns_before_utf16(t, cells::widths_of(t), unit as int),
                ),
                None => unit,
            },
    {
        match &self.marked_text {
            Some(t) => cell_offset_for_utf16(t.as_str(), unit),
            None => unit,
        }
    }

    /// How many columns the text that is being composed takes up, but at least
    /// one; nothing where there is none.
    pub fn marked_columns(&self) -> (r: Option<usize>)
        ensures
            r == match self@.marked_text {
                Some(t) => if t.len() == 0 {
                    None
                } else {
                    let n = text::capped(cells::columns(cells::widths_of(t), t.len() as int));
                    Some(
                        if n < 1 {
                            1usize
                        } else {
                            n
                        },
                    )
                },
                None => None,
            },
    {
        match &self.marked_text {
            Some(t) => {
                let s = t.as_str();
                if s.is_empty() {
                    return None;
                }
                let n: usize = line_columns(s);
                Some(
                    if n < 1 {
                        1
                    } else {
                        n
                    },
                )
            },
            None => None,
        }
    }
}

/// The text that is copied.
pub open spec fn copied(ts: Seq<Seq<char>>, selection: Option<ByteSelection>) -> Seq<char> {
    let everything = lines::slice_of(ts, 0, lines::kept_total(ts) as int);
    match selection {
        Some(s) => {
            let (a, b) = if s.anchor <= s.active {
                (s.anchor, s.active)
            } else {
                (s.active, s.anchor)
            };
            let part = lines::slice_of(ts, a as int, b as int);
            if part.len() > 0 {
                part
            } else {
                everything
            }
        },
        None => everything,
    }
}

/// A view begins with nothing cached, nothing waiting, nothing selected and nothing
/// composed; its cursor shows and blinks, its window is in front, and where the screen
/// sits has yet to be asked for.
pub proof fn law_fresh_view<L>(session: SessionModel, has_input: bool)
    ensures
        ({
            let v = ViewModel::<L>::fresh(session, has_input);
            &&& v.session == session
            &&& v.has_input == has_input
            &&& v.viewport.lines.len() == 0
            &&& v.viewport.runs.len() == 0
            &&& v.viewport.layouts.len() == 0
            &&& v.pending_output.len() == 0
            &&& !v.pending_refresh
            &&& v.selection is None
            &&& v.marked_text is None
            &&& v.marked_range == (0usize, 0usize)
            &&& v.blink_on && v.blink_enabled && v.window_active
            &&& v.window_title is None
            &&& v.peek_text is None && v.peek_runs.len() == 0 && !v.peek_dirty
            &&& v.scroll_pos is None && v.scroll_pos_dirty
        }),
{
}

/// Taking over the screen shows its lines and runs, drops the layouts and what was
/// selected, and asks anew for the row above and for where the screen sits. Nothing
/// else changes.
pub proof fn law_refreshed_view<L>(v: ViewModel<L>, screen: Seq<char>, runs: Seq<Seq<StyleRun>>)
    ensures
        ({
            let now = v.refreshed(screen, runs);
            &&& now.viewport.lines == lines::screen_lines(screen)
            &&& now.viewport.runs == runs
            &&& now.viewport.layouts.len() == 0
            &&& now.selection is None
            &&& now.peek_dirty && now.scroll_pos_dirty
            &&& now.session == v.session && now.has_input == v.has_input
            &&& now.pending_output == v.pending_output && now.pending_refresh == v.pending_refresh
            &&& now.marked_text == v.marked_text && now.marked_range == v.marked_range
            &&& now.blink_on == v.blink_on && now.blink_enabled == v.blink_enabled
            &&& now.window_active == v.window_active && now.window_title == v.window_title
            &&& now.peek_text == v.peek_text && now.peek_runs == v.peek_runs
            &&& now.scroll_pos == v.scroll_pos
        }),
{
}

/// The window has the title that the terminal has set, and a name of its own where it
/// has set none.
pub proof fn law_window_title<L>(v: ViewModel<L>)
    ensures
        v.session.title matches Some(t) ==> v.wanted_title() == t,
        v.session.title is None ==> v.wanted_title() == "GPUI Embedded Terminal (Ghostty VT)"@,
{
}

/// Output waits as long as no more than 256 KiB do; then what waited leaves, and what
/// came in waits, or leaves too where it is more than that by itself. What left is
/// shown by a refresh, which is asked for. The cursor shows at once.
pub proof fn law_queued_output<L>(v: ViewModel<L>, bytes: Seq<u8>)
    ensures
        ({
            let now = v.queued(bytes);
            let sum = v.pending_output.len() + bytes.len();
            &&& now.blink_on
            &&& sum <= 262144 ==> now.pending_output == v.pending_output + bytes
                && now.pending_refresh == v.pending_refresh
            &&& sum > 262144 && bytes.len() <= 262144 ==> now.pending_output == bytes
            &&& bytes.len() > 262144 ==> now.pending_output.len() == 0
            &&& sum > 262144 && (v.pending_output.len() > 0 || bytes.len() > 262144)
                ==> now.pending_refresh
            &&& !now.pending_refresh ==> now.pending_output == v.pending_output + bytes
                || v.pending_output.len() == 0
            &&& now == (ViewModel {
                blink_on: true,
                pending_output: now.pending_output,
                pending_refresh: now.pending_refresh,
                ..v
            })
        }),
{
}

/// Chunks that follow one another make up the bytes that they reach over, and none is
/// empty or longer than 256 KiB.
pub proof fn law_chunks_make_up_the_bytes(
    bytes: Seq<u8>,
    chunks: Seq<(usize, usize)>,
    to: int,
    i: int,
)
    requires
        chunks_tile(chunks, 0, to),
        0 <= to <= bytes.len(),
        0 <= i < chunks.len(),
    ensures
        chunk_bytes(bytes, chunks) == bytes.take(to),
        0 < chunks[i].1 - chunks[i].0 <= 262144,
        chunks[0].0 == 0,
        chunks.last().1 == to,
        i > 0 ==> chunks[i - 1].1 == chunks[i].0,
    decreases chunks.len(),
{
    lemma_chunk_bytes(bytes, chunks, to);
    let less = chunks.drop_last();
    if less.len() > 0 {
        let at = chunks.last().0 as int;
        let k = if i < less.len() {
            i
        } else {
            less.len() - 1
        };
        law_chunks_make_up_the_bytes(bytes, less, at, k);
    } else {
        assert(chunks_tile(less, 0, chunks[0].0 as int));
    }
}

/// Synchronized output is switched by `ESC [ ? 2026 h` and `ESC [ ? 2026 l`, wherever
/// they stand in the output, and by nothing shorter.
pub proof fn law_sync_switch(before: Seq<u8>, after: Seq<u8>, bytes: Seq<u8>, i: int)
    ensures
        sync_switch_at(
            before + seq![0x1bu8, 0x5b, 0x3f, 0x32, 0x30, 0x32, 0x36, 0x68] + after,
            before.len() as int,
        ),
        sync_switch_at(
            before + seq![0x1bu8, 0x5b, 0x3f, 0x32, 0x30, 0x32, 0x36, 0x6c] + after,
            before.len() as int,
        ),
        sync_switch_at(bytes, i) ==> 0 <= i && i + 8 <= bytes.len() && (bytes.subrange(i, i + 8)
            == seq![0x1bu8, 0x5b, 0x3f, 0x32, 0x30, 0x32, 0x36, 0x68] || bytes.subrange(i, i + 8)
            == seq![0x1bu8, 0x5b, 0x3f, 0x32, 0x30, 0x32, 0x36, 0x6c]),
{
    let n = before.len() as int;
    let on = before + seq![0x1bu8, 0x5b, 0x3f, 0x32, 0x30, 0x32, 0x36, 0x68] + after;
    let off = before + seq![0x1bu8, 0x5b, 0x3f, 0x32, 0x30, 0x32, 0x36, 0x6c] + after;
    assert(on.subrange(n, n + 7) =~= seq![ESC, 0x5b, 0x3f, 0x32, 0x30, 0x32, 0x36]);
    assert(off.subrange(n, n + 7) =~= seq![ESC, 0x5b, 0x3f, 0x32, 0x30, 0x32, 0x36]);
    if sync_switch_at(bytes, i) {
        let head = bytes.subrange(i, i + 7);
        assert(bytes.subrange(i, i + 8) =~= head.push(bytes[i + 7]));
        if bytes[i + 7] == 0x68 {
            assert(bytes.subrange(i, i + 8) =~= seq![
                0x1bu8,
                0x5b,
                0x3f,
                0x32,
                0x30,
                0x32,
                0x36,
                0x68,
            ]);
        } else {
            assert(bytes.subrange(i, i + 8) =~= seq![
                0x1bu8,
                0x5b,
                0x3f,
                0x32,
                0x30,
                0x32,
                0x36,
                0x6c,
            ]);
        }
    }
}

/// Where the view followed its screen row by row, each row either is what the row
/// `delta` further down was, or is among those that have to be fetched.
pub proof fn law_scrolled_rows_are_moved_or_fetched<L>(
    was: ViewModel<L>,
    now: ViewModel<L>,
    delta: i32,
    rows: Vec<u16>,
    i: int,
)
    requires
        delta != 0,
        scroll_followed(was, now, delta, Fetch::Rows(rows)),
        0 <= i < was.session.config.rows,
    ensures
        0 <= i + delta < was.session.config.rows ==> now.viewport.lines[i] == was.viewport.lines[i
            + delta] && now.viewport.runs[i] == was.viewport.runs[i + delta],
        !(0 <= i + delta < was.session.config.rows) ==> rows@.contains(i as u16),
        now.scroll_pos_dirty,
        now.pending_output == was.pending_output,
        now.selection == was.selection,
{
    let n = was.session.config.rows as int;
    if !(0 <= i + delta < n) {
        viewport::law_incoming_rows(n, delta as int, i);
        let (a, b) = viewport::incoming(n, delta as int);
        viewport::law_row_range(a, b, i - a);
        assert(rows@[i - a] == i as u16);
    }
}

/// Where the screen moved by as many rows as it has, or more, or the cache does not
/// have its rows, everything is fetched; else never.
pub proof fn law_when_everything_is_fetched<L>(
    was: ViewModel<L>,
    now: ViewModel<L>,
    delta: i32,
    fetch: Fetch,
)
    requires
        delta != 0,
        scroll_followed(was, now, delta, fetch),
    ensures
        ({
            let rows = was.session.config.rows;
            let cached = was.viewport.lines.len() == rows && was.viewport.runs.len() == rows;
            &&& rows == 0 ==> fetch is Nothing
            &&& rows > 0 ==> (fetch is Everything <==> !cached || delta >= rows || delta <= -rows)
            &&& fetch is Everything || rows == 0 ==> now.viewport == was.viewport
        }),
{
}

/// What is selected in a composed text lies in it; asked for nothing, its end is
/// selected.
pub proof fn law_marked_selection(t: Seq<char>, start: usize, end: usize)
    requires
        encode_utf8(t).len() <= usize::MAX,
    ensures
        ({
            let total = text::utf16_offset(t, t.len() as int);
            let asked = marked_selection(t, Some(start..end));
            &&& asked.0 <= total && asked.1 <= total
            &&& start <= total ==> asked.0 == start
            &&& start > total ==> asked.0 == total
            &&& end <= total ==> asked.1 == end
            &&& end > total ==> asked.1 == total
            &&& marked_selection(t, None).0 == total && marked_selection(t, None).1 == total
        }),
{
    text::lemma_utf16_offset(t, 0, t.len() as int);
}

/// What is copied does not depend on the direction of the selection; it is the text of
/// the lines between the two ends. Without a selection, or where it holds no text, all
/// lines are copied, each with its line break.
pub proof fn law_copied(ts: Seq<Seq<char>>, a: usize, b: usize)
    requires
        a <= b,
        lines::line_start(ts, ts.len() as int) <= usize::MAX,
    ensures
        copied(ts, Some(ByteSelection { anchor: a, active: b })) == copied(
            ts,
            Some(ByteSelection { anchor: b, active: a }),
        ),
        copied(ts, None) == lines::joined(ts),
        lines::slice_of(ts, a as int, b as int).len() > 0 ==> copied(
            ts,
            Some(ByteSelection { anchor: a, active: b }),
        ) == lines::slice_of(ts, a as int, b as int),
        lines::slice_of(ts, a as int, b as int).len() == 0 ==> copied(
            ts,
            Some(ByteSelection { anchor: a, active: b }),
        ) == lines::joined(ts),
{
    lines::law_slice_of_everything(ts);
}

} // verus!
