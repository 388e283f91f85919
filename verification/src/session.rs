//! What the terminal knows about the stream between a program and its host.
//!
//! The emulator keeps the screen; a session mirrors from the same bytes what
//! the host must know besides: the modes, the title, clipboard writes, and the
//! queries to be answered.
use vstd::prelude::*;
use vstd::utf8::*;
use crate::ascii::{ESC, LOWER_C};
use crate::clipboard;
use crate::clipboard::decode_osc_52;
use crate::config::{ColorScheme, CursorStyle, TerminalConfig};
use crate::decimal;
use crate::modes;
use crate::modes::{scan_modes, TerminalModes};
use crate::osc;
use crate::osc::scan_osc;
use crate::query;
use crate::query::{
    csi_query_response, osc_color_query_response, CsiQueryScanState, OscQuery, OscQueryScanState,
    PtyQuery, QueryScanState,
};
use crate::text;
use crate::text::lossy_string;
use crate::types::{Rgb, TerminalEvent};

verus! {

/// How many bytes of the scanned stream are carried into the next call, so
/// that a sequence split over two reads is still seen whole. Never a limit on
/// what is scanned.
pub const CARRY_LIMIT: usize = 2048;

/// How many default backgrounds are remembered.
pub const REMEMBERED_BACKGROUNDS: usize = 8;

/// The state of one terminal session.
pub struct TerminalSession {
    config: TerminalConfig,
    modes: TerminalModes,
    title: Option<String>,
    clipboard_write: Option<String>,
    parse_tail: Vec<u8>,
    queries: QueryScanState,
    transparent_default_bgs: Vec<Rgb>,
}

/// A session as its contracts see it.
pub struct SessionModel {
    pub config: TerminalConfig,
    pub modes: TerminalModes,
    pub title: Option<Seq<char>>,
    pub clipboard: Option<Seq<char>>,
    /// The bytes that the next scan starts with.
    pub carry: Seq<u8>,
    pub queries: QueryScanState,
    /// The colours that have been the default background, oldest first.
    pub backgrounds: Seq<Rgb>,
}

/// A stretch of output that the emulator takes in before the next reply is
/// due: up to `end`, and the query that its last byte completes.
#[derive(Clone, Copy, Debug, PartialEq, Eq)]
pub struct PtySegment {
    pub end: usize,
    pub query: Option<PtyQuery>,
}

/// The last bytes of a stream that are carried on.
pub open spec fn carried(buf: Seq<u8>) -> Seq<u8> {
    if buf.len() > CARRY_LIMIT {
        buf.skip(buf.len() - CARRY_LIMIT)
    } else {
        buf
    }
}

/// The bytes of a stream that are not carried on.
pub open spec fn dropped(buf: Seq<u8>) -> Seq<u8> {
    if buf.len() > CARRY_LIMIT {
        buf.take(buf.len() - CARRY_LIMIT)
    } else {
        Seq::empty()
    }
}

/// The remembered backgrounds once `bg` is one of them: a new one goes last,
/// and the oldest leaves where there would be too many.
pub open spec fn remembered(bgs: Seq<Rgb>, bg: Rgb) -> Seq<Rgb> {
    if bgs.contains(bg) {
        bgs
    } else if bgs.len() >= REMEMBERED_BACKGROUNDS {
        bgs.push(bg).drop_first()
    } else {
        bgs.push(bg)
    }
}

/// Where the input line begins after a list of events. `cursor` is where the
/// cursor stands as they are looked at.
pub open spec fn anchor_after(
    anchor: Option<(u16, u16)>,
    events: Seq<TerminalEvent>,
    cursor: Option<(u16, u16)>,
) -> Option<(u16, u16)>
    decreases events.len(),
{
    if events.len() == 0 {
        anchor
    } else {
        match events.last() {
            TerminalEvent::InputStart => cursor,
            TerminalEvent::CommandStart { .. } | TerminalEvent::CommandEnd { .. } => None,
            TerminalEvent::PromptStart | TerminalEvent::Other => anchor_after(
                anchor,
                events.drop_last(),
                cursor,
            ),
        }
    }
}

impl SessionModel {
    /// The commands that `bytes` complete, behind the bytes that are carried.
    pub open spec fn commands(self, bytes: Seq<u8>) -> Seq<osc::OscItem> {
        osc::new_items(self.carry + bytes, 0, self.carry.len() as int)
    }

    /// The title once some commands have come.
    pub open spec fn title_after(self, items: Seq<osc::OscItem>) -> Option<Seq<char>> {
        match osc::last_title(items) {
            Some(payload) => Some(text::lossy_text(payload)),
            None => self.title,
        }
    }

    /// The clipboard text that the last clipboard write of some commands gives;
    /// `None` where there is no write, or the last one is ignored.
    pub open spec fn clipboard_in(items: Seq<osc::OscItem>) -> Option<Seq<char>> {
        match osc::last_clipboard(items) {
            Some(payload) => clipboard::clipboard_text(payload),
            None => None,
        }
    }

    /// The pending clipboard text once some commands have come.
    pub open spec fn clipboard_after(self, items: Seq<osc::OscItem>) -> Option<Seq<char>> {
        match Self::clipboard_in(items) {
            Some(text) => Some(text),
            None => self.clipboard,
        }
    }

    /// The session once `bytes` of output have been scanned. The carried bytes are
    /// there to complete a sequence that was cut: only what ends in the new bytes
    /// acts.
    pub open spec fn fed(self, bytes: Seq<u8>) -> SessionModel {
        let buf = self.carry + bytes;
        SessionModel {
            modes: modes::scanned_after(self.modes, buf, self.carry.len() as int),
            title: self.title_after(self.commands(bytes)),
            clipboard: self.clipboard_after(self.commands(bytes)),
            carry: carried(buf),
            ..self
        }
    }

    /// No sequence is left unfinished in the carried bytes.
    pub open spec fn settled(self) -> bool {
        &&& forall|j: int|
            0 <= j < self.carry.len() ==> !modes::mode_unfinished(#[trigger] self.carry.skip(j))
        &&& osc::clean_cut(self.carry, 0, self.carry.len() as int)
    }

    /// The session with another value for where the input line begins.
    pub open spec fn with_anchor(self, anchor: Option<(u16, u16)>) -> SessionModel {
        SessionModel { modes: TerminalModes { input_anchor: anchor, ..self.modes }, ..self }
    }

    /// The session once a new pty is behind it.
    pub open spec fn renewed(self) -> SessionModel {
        SessionModel {
            modes: TerminalModes::power_on(),
            carry: Seq::empty(),
            queries: QueryScanState::idle(),
            ..self
        }
    }

    /// The session once a hard reset was asked for.
    pub open spec fn hard_reset(self) -> SessionModel {
        SessionModel { modes: TerminalModes::power_on(), ..self }
    }

    /// The session with other default colours. The backgrounds before and after
    /// are remembered.
    pub open spec fn recolored(self, fg: Rgb, bg: Rgb) -> SessionModel {
        SessionModel {
            config: TerminalConfig { default_fg: fg, default_bg: bg, ..self.config },
            backgrounds: remembered(remembered(self.backgrounds, self.config.default_bg), bg),
            ..self
        }
    }

    /// The carry is bounded; the backgrounds are bounded, differ from one
    /// another, and hold the current one.
    pub open spec fn wf(self) -> bool {
        &&& self.carry.len() <= CARRY_LIMIT
        &&& self.backgrounds.len() <= REMEMBERED_BACKGROUNDS
        &&& self.backgrounds.no_duplicates()
        &&& self.backgrounds.contains(self.config.default_bg)
    }

    /// The colour that a colour query learns. Without a colour of its own the
    /// cursor is drawn in the foreground colour.
    pub open spec fn color_of(self, q: OscQuery) -> Rgb {
        match q {
            OscQuery::Foreground => self.config.default_fg,
            OscQuery::Background => self.config.default_bg,
            OscQuery::Cursor => match self.config.cursor_color {
                Some(c) => c,
                None => self.config.default_fg,
            },
        }
    }

    /// The reply to a query.
    pub open spec fn reply(self, q: PtyQuery, cursor: Option<(u16, u16)>) -> Seq<u8> {
        match q {
            PtyQuery::Csi(q) => query::csi_reply(q, cursor, self.config.color_scheme),
            PtyQuery::Osc(q) => {
                let c = self.color_of(q);
                query::color_reply(q.number(), c.r, c.g, c.b)
            },
        }
    }
}

impl View for TerminalSession {
    type V = SessionModel;

    closed spec fn view(&self) -> SessionModel {
        SessionModel {
            config: self.config,
            modes: self.modes,
            title: text::text_of(self.title),
            clipboard: text::text_of(self.clipboard_write),
            carry: self.parse_tail@,
            queries: self.queries,
            backgrounds: self.transparent_default_bgs@,
        }
    }
}

/// Whether `bg` is among `bgs`.
fn contains_color(bgs: &Vec<Rgb>, bg: Rgb) -> (r: bool)
    ensures
        r == bgs@.contains(bg),
{
    let mut i: usize = 0;
    while i < bgs.len()
        invariant
            i <= bgs@.len(),
            forall|j: int| 0 <= j < i ==> bgs@[j] != bg,
        decreases bgs@.len() - i,
    {
        if bgs[i] == bg {
            return true;
        }
        i = i + 1;
    }
    false
}

impl TerminalSession {
    /// A session with nothing seen yet.
    pub fn new(config: TerminalConfig) -> (s: TerminalSession)
        ensures
            s@ == (SessionModel {
                config,
                modes: TerminalModes::power_on(),
                title: None,
                clipboard: None,
                carry: Seq::empty(),
                queries: QueryScanState::idle(),
                backgrounds: seq![config.default_bg],
            }),
            s@.wf(),
    {
        let initial_bg = config.default_bg;
        let s = TerminalSession {
            config,
            modes: TerminalModes::new(),
            title: None,
            clipboard_write: None,
            parse_tail: Vec::new(),
            queries: QueryScanState {
                csi: CsiQueryScanState::Idle,
                osc: OscQueryScanState::Idle,
            },
            transparent_default_bgs: vec![initial_bg],
        };
        proof {
            assert(s@.backgrounds =~= seq![initial_bg]);
            assert(s@.backgrounds[0] == initial_bg);
            assert(s@.carry =~= Seq::<u8>::empty());
        }
        s
    }

    /// The terminal's height in rows.
    pub fn rows(&self) -> (r: u16)
        ensures
            r == self@.config.rows,
    {
        self.config.rows
    }

    /// The mirrored modes.
    pub fn modes(&self) -> (m: TerminalModes)
        ensures
            m == self@.modes,
    {
        self.modes
    }

    /// The title that the program set.
    pub fn title(&self) -> (r: Option<&str>)
        ensures
            r is Some <==> self@.title is Some,
            r matches Some(t) ==> self@.title == Some(t@),
    {
        match &self.title {
            Some(t) => Some(t.as_str()),
            None => None,
        }
    }

    /// Whether the window's title follows the terminal's.
    pub fn window_title_updates_enabled(&self) -> (r: bool)
        ensures
            r == self@.config.update_window_title,
    {
        self.config.update_window_title
    }

    /// Scans more of the program's output. Everything is scanned, however large
    /// the batch; the emulator gets the same bytes from the host.
    pub fn feed(&mut self, bytes: &[u8])
        ensures
            final(self)@ == old(self)@.fed(bytes@),
            osc::last_title(old(self)@.commands(bytes@)) matches Some(payload) ==> valid_utf8(payload) ==> final(self)@.title == Some(decode_utf8(payload)),
            final(self)@.carry.len() <= CARRY_LIMIT,
            old(self)@.wf() ==> final(self)@.wf(),
    {
        let mut buf: Vec<u8> = Vec::new();
        std::mem::swap(&mut buf, &mut self.parse_tail);
        let ghost carry = buf@;
        let seen: usize = buf.len();
        buf.extend_from_slice(bytes);
        assert(buf@ =~= carry + bytes@);
        self.modes = scan_modes(self.modes, buf.as_slice(), seen);
        let found = scan_osc(buf.as_slice(), seen);
        let title = match found.title {
            Some(p) => Some(
                lossy_string(vstd::slice::slice_subrange(buf.as_slice(), p.start, p.end)),
            ),
            None => None,
        };
        let clipboard = match found.clipboard {
            Some(p) => decode_osc_52(
                vstd::slice::slice_subrange(buf.as_slice(), p.start, p.end),
            ),
            None => None,
        };
        if buf.len() > CARRY_LIMIT {
            let at: usize = buf.len() - CARRY_LIMIT;
            let ghost whole = buf@;
            self.parse_tail = buf.split_off(at);
            assert(self.parse_tail@ =~= whole.skip(at as int));
        } else {
            self.parse_tail = buf;
        }
        self.note_osc(title, clipboard);
    }

    /// Takes over a title and a clipboard write, where there are any.
    pub fn note_osc(&mut self, title: Option<String>, clipboard: Option<String>)
        ensures
            final(self)@ == (SessionModel {
                title: match title {
                    Some(t) => Some(t@),
                    None => old(self)@.title,
                },
                clipboard: match clipboard {
                    Some(t) => Some(t@),
                    None => old(self)@.clipboard,
                },
                ..old(self)@
            }),
    {
        if title.is_some() {
            self.title = title;
        }
        if clipboard.is_some() {
            self.clipboard_write = clipboard;
        }
    }

    /// The next stretch of `bytes`, from `start` on, that the emulator takes in
    /// before a reply is due; `None` at the end. The scanners move on over it.
    pub fn next_pty_segment(&mut self, bytes: &[u8], start: usize) -> (r: Option<PtySegment>)
        ensures
            start >= bytes@.len() ==> r is None && final(self)@ == old(self)@,
            start < bytes@.len() ==> ({
                let q = old(self)@.queries;
                let rest = bytes@.skip(start as int);
                let n = q.first_hit(rest);
                &&& r matches Some(seg)
                &&& 1 <= n <= rest.len()
                &&& seg.end == start + n
                &&& q.run(rest.take(n - 1)).hits(rest[n - 1]) == (match seg.query {
                    Some(found) => seq![found],
                    None => Seq::empty(),
                })
                &&& final(self)@ == (SessionModel { queries: q.run(rest.take(n)), ..old(self)@ })
            }),
    {
        if start >= bytes.len() {
            return None;
        }
        let ghost q = self.queries;
        let ghost rest = bytes@.skip(start as int);
        let mut i: usize = start;
        proof {
            assert(rest.take(0) =~= Seq::<u8>::empty());
            query::lemma_first_hit(q, rest);
        }
        loop
            invariant
                start <= i < bytes@.len(),
                rest == bytes@.skip(start as int),
                q == old(self)@.queries,
                self@ == (SessionModel { queries: q.run(rest.take(i - start)), ..old(self)@ }),
                1 <= q.first_hit(rest) <= rest.len(),
                i - start < q.first_hit(rest),
                forall|j: int|
                    0 <= j < q.first_hit(rest) - 1 ==> !(#[trigger] q.run(rest.take(j))).hit(
                        rest[j],
                    ),
                q.first_hit(rest) < rest.len() ==> q.run(rest.take(q.first_hit(rest) - 1)).hit(
                    rest[q.first_hit(rest) - 1],
                ),
            decreases bytes@.len() - i,
        {
            let b = bytes[i];
            let ghost before = self.queries;
            assert(before == q.run(rest.take(i - start)));
            assert(rest[i - start] == b);
            let csi = self.queries.csi.advance(b);
            let osc = self.queries.osc.advance(b);
            i = i + 1;
            proof {
                assert(rest.take(i - start).drop_last() =~= rest.take(i - start - 1));
                query::law_one_query_at_a_time(before, b);
            }
            let query = match csi {
                Some(found) => Some(PtyQuery::Csi(found)),
                None => match osc {
                    Some(found) => Some(PtyQuery::Osc(found)),
                    None => None,
                },
            };
            if query.is_some() || i >= bytes.len() {
                proof {
                    assert(before.hits(b) =~= match query {
                        Some(found) => seq![found],
                        None => Seq::empty(),
                    });
                    if query is Some {
                        assert(before.hit(b));
                    }
                    assert(i - start == q.first_hit(rest));
                }
                return Some(PtySegment { end: i, query });
            }
            assert(!before.hit(b));
        }
    }

    /// The reply to a query. `cursor` is where the emulator's cursor stands,
    /// (column, row) and 1-based, now that it has taken in the query.
    pub fn pty_reply(&self, query: PtyQuery, cursor: Option<(u16, u16)>) -> (out: Vec<u8>)
        ensures
            out@ == self@.reply(query, cursor),
    {
        match query {
            PtyQuery::Csi(q) => csi_query_response(q, cursor, self.config.color_scheme),
            PtyQuery::Osc(q) => {
                let color = match q {
                    OscQuery::Foreground => self.config.default_fg,
                    OscQuery::Background => self.config.default_bg,
                    OscQuery::Cursor => match self.config.cursor_color {
                        Some(c) => c,
                        None => self.config.default_fg,
                    },
                };
                let reply = osc_color_query_response(q, (color.r, color.g, color.b));
                vstd::slice::slice_to_vec(reply.as_str().as_bytes())
            },
        }
    }

    /// Puts every mirrored mode back to its power-on value.
    pub fn reset_modes(&mut self)
        ensures
            final(self)@ == (SessionModel { modes: TerminalModes::power_on(), ..old(self)@ }),
            old(self)@.wf() ==> final(self)@.wf(),
    {
        self.modes = TerminalModes::new();
    }

    /// The session's part of a hard reset; the host resets the emulator. The stream
    /// goes on where it is.
    pub fn full_reset(&mut self)
        ensures
            final(self)@ == old(self)@.hard_reset(),
            old(self)@.wf() ==> final(self)@.wf(),
    {
        self.reset_modes();
    }

    /// The pty behind the session was swapped: everything that described the
    /// old stream is forgotten, so that its last bytes cannot fuse with the
    /// first ones of the new stream.
    pub fn reset_for_new_pty(&mut self)
        ensures
            final(self)@ == old(self)@.renewed(),
            old(self)@.wf() ==> final(self)@.wf(),
    {
        self.reset_modes();
        self.parse_tail.clear();
        self.queries = QueryScanState {
            csi: CsiQueryScanState::Idle,
            osc: OscQueryScanState::Idle,
        };
        assert(self.parse_tail@ =~= Seq::<u8>::empty());
    }

    /// Follows the events that the emulator queued, with its cursor at `cursor`.
    /// A caller that needs where the finished input line began reads
    /// `input_anchor` before this call.
    pub fn drain_events(&mut self, events: &Vec<TerminalEvent>, cursor: Option<(u16, u16)>)
        ensures
            final(self)@ == old(self)@.with_anchor(
                anchor_after(old(self)@.modes.input_anchor, events@, cursor),
            ),
            old(self)@.wf() ==> final(self)@.wf(),
    {
        let before = self.modes.input_anchor;
        let mut anchor = before;
        let mut i: usize = 0;
        while i < events.len()
            invariant
                i <= events@.len(),
                anchor == anchor_after(before, events@.take(i as int), cursor),
            decreases events@.len() - i,
        {
            assert(events@.take(i + 1).drop_last() =~= events@.take(i as int));
            match &events[i] {
                TerminalEvent::InputStart => {
                    anchor = cursor;
                },
                TerminalEvent::CommandStart { .. } | TerminalEvent::CommandEnd { .. } => {
                    anchor = None;
                },
                TerminalEvent::PromptStart | TerminalEvent::Other => {},
            }
            i = i + 1;
        }
        assert(events@.take(i as int) =~= events@);
        self.modes.input_anchor = anchor;
    }

    /// The terminal has a new size; the host resizes the emulator.
    pub fn resize(&mut self, cols: u16, rows: u16)
        ensures
            final(self)@ == (SessionModel {
                config: TerminalConfig { cols, rows, ..old(self)@.config },
                ..old(self)@.with_anchor(None)
            }),
            old(self)@.wf() ==> final(self)@.wf(),
    {
        self.config.cols = cols;
        self.config.rows = rows;
        self.modes.input_anchor = None;
    }

    fn remember_transparent_default_bg(&mut self, bg: Rgb)
        ensures
            final(self)@ == (SessionModel {
                backgrounds: remembered(old(self)@.backgrounds, bg),
                ..old(self)@
            }),
    {
        if contains_color(&self.transparent_default_bgs, bg) {
            return;
        }
        let ghost before = self.transparent_default_bgs@;
        self.transparent_default_bgs.push(bg);
        if self.transparent_default_bgs.len() > REMEMBERED_BACKGROUNDS {
            self.transparent_default_bgs.remove(0);
            assert(self.transparent_default_bgs@ =~= before.push(bg).drop_first());
        }
    }

    /// Swaps the default colours, as after a change of the host's theme; the
    /// host tells the emulator. The backgrounds before and after are remembered.
    pub fn set_default_colors(&mut self, fg: Rgb, bg: Rgb)
        ensures
            final(self)@ == old(self)@.recolored(fg, bg),
            old(self)@.wf() ==> final(self)@.wf(),
    {
        let old_bg = self.config.default_bg;
        self.remember_transparent_default_bg(old_bg);
        self.remember_transparent_default_bg(bg);
        self.config.default_fg = fg;
        self.config.default_bg = bg;
        proof {
            let s = old(self)@;
            if s.wf() {
                lemma_remembered(s.backgrounds, s.config.default_bg);
                lemma_remembered(s.backgrounds, bg);
            }
        }
    }

    /// Tells the session which colour scheme the host's theme is now. The report
    /// to be written to the pty comes back where the scheme changed and the
    /// program asked to be told.
    pub fn set_color_scheme(&mut self, scheme: ColorScheme) -> (r: Option<Vec<u8>>)
        ensures
            final(self)@ == (SessionModel {
                config: TerminalConfig { color_scheme: scheme, ..old(self)@.config },
                ..old(self)@
            }),
            text::bytes_of(r) == if scheme != old(self)@.config.color_scheme
                && old(self)@.modes.report_color_scheme {
                Some(scheme.report_bytes())
            } else {
                None
            },
            old(self)@.wf() ==> final(self)@.wf(),
    {
        if self.config.color_scheme == scheme {
            return None;
        }
        self.config.color_scheme = scheme;
        if self.modes.report_color_scheme {
            Some(scheme.report())
        } else {
            None
        }
    }

    /// The clipboard text that a program asked to be written, once.
    pub fn take_clipboard_write(&mut self) -> (r: Option<String>)
        ensures
            text::text_of(r) == old(self)@.clipboard,
            final(self)@ == (SessionModel { clipboard: None, ..old(self)@ }),
            old(self)@.wf() ==> final(self)@.wf(),
    {
        self.clipboard_write.take()
    }
}

impl TerminalSession {
    /// The terminal's width in columns.
    pub fn cols(&self) -> (r: u16)
        ensures
            r == self@.config.cols,
    {
        self.config.cols
    }

    /// The default foreground.
    pub fn default_foreground(&self) -> (r: Rgb)
        ensures
            r == self@.config.default_fg,
    {
        self.config.default_fg
    }

    /// The default background.
    pub fn default_background(&self) -> (r: Rgb)
        ensures
            r == self@.config.default_bg,
    {
        self.config.default_bg
    }

    /// The colours that have been the default background of this session. Cells
    /// may still carry an older one; a host that makes the default background
    /// transparent treats these as transparent too.
    pub fn transparent_default_backgrounds(&self) -> (r: &[Rgb])
        ensures
            r@ == self@.backgrounds,
    {
        self.transparent_default_bgs.as_slice()
    }

    /// The primary font family, if the host overrides its own choice.
    pub fn font_family(&self) -> (r: Option<&str>)
        ensures
            match self@.config.font_family {
                Some(f) => r matches Some(t) && t@ == f@,
                None => r is None,
            },
    {
        match &self.config.font_family {
            Some(f) => Some(f.as_str()),
            None => None,
        }
    }

    /// Overrides the primary font family, or goes back to the host's own choice.
    pub fn set_font_family(&mut self, family: Option<String>)
        ensures
            final(self)@ == (SessionModel {
                config: TerminalConfig { font_family: family, ..old(self)@.config },
                ..old(self)@
            }),
            old(self)@.wf() ==> final(self)@.wf(),
    {
        self.config.font_family = family;
    }

    /// Sets the cursor's colour; `None` for one that contrasts with the
    /// background.
    pub fn set_cursor_color(&mut self, color: Option<Rgb>)
        ensures
            final(self)@ == (SessionModel {
                config: TerminalConfig { cursor_color: color, ..old(self)@.config },
                ..old(self)@
            }),
            old(self)@.wf() ==> final(self)@.wf(),
    {
        self.config.cursor_color = color;
    }

    /// Sets the cursor's shape.
    pub fn set_cursor_style(&mut self, style: CursorStyle)
        ensures
            final(self)@ == (SessionModel {
                config: TerminalConfig { cursor_style: style, ..old(self)@.config },
                ..old(self)@
            }),
            old(self)@.wf() ==> final(self)@.wf(),
    {
        self.config.cursor_style = style;
    }

    /// The cursor's blink interval in milliseconds; `None` for a steady one.
    pub fn cursor_blink_ms(&self) -> (r: Option<u64>)
        ensures
            r == self@.config.cursor_blink_ms,
    {
        self.config.cursor_blink_ms
    }

    /// The cursor's colour; `None` for one that contrasts with the background.
    pub fn cursor_color(&self) -> (r: Option<Rgb>)
        ensures
            r == self@.config.cursor_color,
    {
        self.config.cursor_color
    }

    /// The cursor's shape.
    pub fn cursor_style(&self) -> (r: CursorStyle)
        ensures
            r == self@.config.cursor_style,
    {
        self.config.cursor_style
    }

    /// The colour scheme that the session was told of last.
    pub fn color_scheme(&self) -> (r: ColorScheme)
        ensures
            r == self@.config.color_scheme,
    {
        self.config.color_scheme
    }

    /// Whether the program asked to be told of changes of the colour scheme.
    pub fn color_scheme_reports_enabled(&self) -> (r: bool)
        ensures
            r == self@.modes.report_color_scheme,
    {
        self.modes.report_color_scheme
    }

    /// Whether pasted text is to be bracketed.
    pub fn bracketed_paste_enabled(&self) -> (r: bool)
        ensures
            r == self@.modes.bracketed_paste,
    {
        self.modes.bracketed_paste
    }

    /// Whether the program shows the cursor.
    pub fn cursor_visible(&self) -> (r: bool)
        ensures
            r == self@.modes.cursor_visible,
    {
        self.modes.cursor_visible
    }

    /// Whether the program holds back its output for now.
    pub fn synchronized_output_active(&self) -> (r: bool)
        ensures
            r == self@.modes.synchronized_output,
    {
        self.modes.synchronized_output
    }

    /// Whether mouse reports have the form with decimal numbers.
    pub fn mouse_sgr_enabled(&self) -> (r: bool)
        ensures
            r == self@.modes.mouse_sgr,
    {
        self.modes.mouse_sgr
    }

    /// Whether the alternate screen shows, which has no scrollback.
    pub fn alternate_screen_active(&self) -> (r: bool)
        ensures
            r == self@.modes.alternate_screen,
    {
        self.modes.alternate_screen
    }

    /// Whether cursor keys are encoded with `ESC O`.
    pub fn application_cursor_keys(&self) -> (r: bool)
        ensures
            r == self@.modes.application_cursor_keys,
    {
        self.modes.application_cursor_keys
    }

    /// Whether the wheel sends cursor keys on the alternate screen.
    pub fn mouse_alternate_scroll_enabled(&self) -> (r: bool)
        ensures
            r == self@.modes.mouse_alternate_scroll,
    {
        self.modes.mouse_alternate_scroll
    }

    /// Whether the program wants to hear of motion with a button held.
    pub fn mouse_button_event_enabled(&self) -> (r: bool)
        ensures
            r == self@.modes.mouse_button_event,
    {
        self.modes.mouse_button_event
    }

    /// Whether the program wants to hear of all motion.
    pub fn mouse_any_event_enabled(&self) -> (r: bool)
        ensures
            r == self@.modes.mouse_any_event,
    {
        self.modes.mouse_any_event
    }

    /// Whether the program wants to hear of the mouse at all.
    pub fn mouse_reporting_enabled(&self) -> (r: bool)
        ensures
            r == (self@.modes.mouse_x10 || self@.modes.mouse_button_event
                || self@.modes.mouse_any_event),
    {
        self.modes.mouse_reporting()
    }

    /// Where the user's current input line begins, as (column, row), 1-based; `None`
    /// where no input has begun, or a command, the alternate screen, a new size or a
    /// reset came since.
    pub fn input_anchor(&self) -> (r: Option<(u16, u16)>)
        ensures
            r == self@.modes.input_anchor,
    {
        self.modes.input_anchor
    }

    /// How many bytes are carried over into the next scan.
    pub fn carry_len(&self) -> (r: usize)
        ensures
            r == self@.carry.len(),
    {
        self.parse_tail.len()
    }
}

/// Remembering a background keeps the list bounded and free of duplicates, and
/// the background is in it.
proof fn lemma_remembered(bgs: Seq<Rgb>, bg: Rgb)
    requires
        bgs.len() <= REMEMBERED_BACKGROUNDS,
        bgs.no_duplicates(),
    ensures
        remembered(bgs, bg).len() <= REMEMBERED_BACKGROUNDS,
        remembered(bgs, bg).no_duplicates(),
        remembered(bgs, bg).contains(bg),
{
    let after = remembered(bgs, bg);
    if !bgs.contains(bg) {
        assert(after.last() == bg);
    }
}

/// A stream may be cut between two calls wherever the read happens to end:
/// scanning `a` and then `b` leaves the session as scanning both at once does.
///
/// What it takes is that a sequence left unfinished at the cut fits into the
/// bytes that are carried over, and that the bytes left behind end no command
/// in the middle of another. The last clause is about the clipboard: a write
/// that is ignored hides an earlier one only when both come in one read.
pub proof fn law_feed_chunked(s: SessionModel, a: Seq<u8>, b: Seq<u8>)
    requires
        ({
            let buf = s.carry + a;
            &&& forall|j: int|
                0 <= j < dropped(buf).len() ==> !modes::mode_unfinished(#[trigger] buf.skip(j))
            &&& osc::clean_cut(buf, 0, dropped(buf).len() as int)
            &&& osc::last_clipboard(s.fed(a).commands(b)) is None || SessionModel::clipboard_in(
                s.fed(a).commands(b),
            ) is Some || SessionModel::clipboard_in(s.commands(a)) is None
        }),
    ensures
        s.fed(a).fed(b) == s.fed(a + b),
{
    let buf = s.carry + a;
    let head = dropped(buf);
    let rest = carried(buf);
    let c = s.carry;
    let n = c.len() as int;
    assert(head + rest =~= buf);
    assert(c + (a + b) =~= buf + b);
    assert(carried(rest + b) =~= carried(buf + b));
    modes::law_modes_chunked(s.modes, head, rest, b);
    modes::lemma_events_extend(c, a, 0);
    modes::lemma_events_extend(c, a + b, 0);
    let e0 = modes::mode_events(c, 0);
    let e1 = modes::new_events(buf, 0, n);
    let e2 = modes::new_events(rest + b, 0, rest.len() as int);
    let e = modes::new_events(buf + b, 0, n);
    assert(e0 + e == e0 + e1 + e2);
    assert(e =~= (e0 + e).skip(e0.len() as int));
    assert(e1 + e2 =~= (e0 + e1 + e2).skip(e0.len() as int));
    modes::lemma_run_concat(s.modes, e1, e2);
    osc::law_osc_chunked(head, rest, b);
    osc::lemma_items_extend(c, a, 0);
    osc::lemma_items_extend(c, a + b, 0);
    let i0 = osc::osc_items(c, 0);
    let i1 = s.commands(a);
    let i2 = s.fed(a).commands(b);
    let i = s.commands(a + b);
    assert(i0 + i == i0 + i1 + i2);
    assert(i =~= (i0 + i).skip(i0.len() as int));
    assert(i1 + i2 =~= (i0 + i1 + i2).skip(i0.len() as int));
    osc::lemma_last_concat(i1, i2);
    assert(s.fed(a).fed(b).title == s.fed(a + b).title);
    assert(s.fed(a).fed(b).clipboard == s.fed(a + b).clipboard);
}

/// What was scanned does not act again. Output without `ESC`, behind bytes in which
/// no sequence is left unfinished, changes neither a mode, nor the title, nor the
/// pending clipboard text: a mode that was reset stays so, and a clipboard write
/// that was taken is not delivered again.
pub proof fn law_plain_output_does_nothing(s: SessionModel, bytes: Seq<u8>)
    requires
        s.settled(),
        forall|i: int| 0 <= i < bytes.len() ==> #[trigger] bytes[i] != ESC,
    ensures
        s.fed(bytes).modes == s.modes,
        s.fed(bytes).title == s.title,
        s.fed(bytes).clipboard == s.clipboard,
{
    modes::law_scan_starts_afresh(s.modes, s.carry, bytes);
    modes::law_plain_output_changes_nothing(s.modes, bytes);
    osc::law_nothing_counts_twice(s.carry, bytes);
}

/// The carried bytes by themselves do nothing: whatever they hold, a read of no
/// bytes leaves the session as it was.
pub proof fn law_carry_acts_only_once(s: SessionModel)
    requires
        s.wf(),
    ensures
        s.fed(Seq::empty()) == s,
{
    let none = Seq::<u8>::empty();
    assert(s.carry + none =~= s.carry);
    modes::lemma_events_extend(s.carry, none, 0);
    osc::lemma_items_extend(s.carry, none, 0);
    assert(modes::new_events(s.carry, 0, s.carry.len() as int) =~= Seq::empty());
    assert(s.commands(none) =~= Seq::empty());
}

/// Scanning the carried bytes for modes once more, right after they were scanned,
/// changes nothing.
pub proof fn law_carry_rescan_idempotent(m: TerminalModes, buf: Seq<u8>)
    ensures
        modes::scanned(modes::scanned(m, buf), carried(buf)) == modes::scanned(m, buf),
{
    assert(dropped(buf) + carried(buf) =~= buf);
    modes::law_rescan_idempotent(m, dropped(buf), carried(buf));
}

/// Scanning keeps the carry bounded and leaves alone what the host configured.
pub proof fn law_feed_is_bounded(s: SessionModel, bytes: Seq<u8>)
    ensures
        s.fed(bytes).carry.len() <= CARRY_LIMIT,
        s.fed(bytes).config == s.config,
        s.fed(bytes).backgrounds == s.backgrounds,
        s.fed(bytes).queries == s.queries,
{
}

/// A mode that was set before a hard reset does not come back by itself: where no
/// sequence was cut by the reset, the modes after it are those that the new bytes
/// alone make of the power-on ones.
pub proof fn law_hard_reset_forgets_modes(s: SessionModel, bytes: Seq<u8>)
    requires
        forall|j: int|
            0 <= j < s.carry.len() ==> !modes::mode_unfinished(#[trigger] s.carry.skip(j)),
    ensures
        s.hard_reset().fed(bytes).modes == modes::scanned(TerminalModes::power_on(), bytes),
{
    modes::law_scan_starts_afresh(TerminalModes::power_on(), s.carry, bytes);
}

/// After a swap of the pty nothing of the old stream is left: whatever two sessions
/// saw before, the same new bytes lead them to the same modes and the same queries,
/// and the modes are those that the new bytes alone make of the power-on ones.
pub proof fn law_new_pty_forgets(s1: SessionModel, s2: SessionModel, bytes: Seq<u8>)
    ensures
        s1.renewed().fed(bytes).modes == s2.renewed().fed(bytes).modes,
        s1.renewed().fed(bytes).carry == s2.renewed().fed(bytes).carry,
        s1.renewed().queries.queries(bytes) == s2.renewed().queries.queries(bytes),
        s1.renewed().fed(bytes).modes == modes::scanned(TerminalModes::power_on(), bytes),
{
    let none = Seq::<u8>::empty();
    assert(none + bytes =~= bytes);
    modes::lemma_events_extend(none, bytes, 0);
    assert(modes::mode_events(none, 0) + modes::new_events(bytes, 0, 0) =~= modes::new_events(
        bytes,
        0,
        0,
    ));
}

/// `ESC c` at the end of what was read puts every mode back to its power-on
/// value at once; it does not wait for the next read.
pub proof fn law_reset_does_not_wait(s: SessionModel, bytes: Seq<u8>)
    ensures
        s.fed(bytes + seq![ESC, LOWER_C]).modes == TerminalModes::power_on(),
{
    let reset = seq![ESC, LOWER_C];
    assert(s.carry + (bytes + reset) =~= s.carry + bytes + reset);
    modes::lemma_reset_is_new(s.modes, s.carry + bytes, s.carry.len() as int);
}

/// The current default background is always among the remembered ones.
pub proof fn law_backgrounds_hold_the_current(s: SessionModel, fg: Rgb, bg: Rgb)
    requires
        s.wf(),
    ensures
        s.recolored(fg, bg).backgrounds.contains(bg),
        s.recolored(fg, bg).backgrounds == remembered(s.backgrounds, bg),
{
    lemma_remembered(s.backgrounds, bg);
}

/// Whatever was fed before, output that ends in `ESC [ ? n h` leaves the alternate
/// screen shown and output that ends in `ESC [ ? n l` leaves it not shown, for 47,
/// 1047 and 1049.
pub proof fn law_alternate_screen_follows_the_output(s: SessionModel, bytes: Seq<u8>)
    ensures
        s.fed(bytes + seq![0x1bu8, 0x5b, 0x3f, 0x34, 0x37, 0x68]).modes.alternate_screen,
        !s.fed(bytes + seq![0x1bu8, 0x5b, 0x3f, 0x34, 0x37, 0x6c]).modes.alternate_screen,
        s.fed(
            bytes + seq![0x1bu8, 0x5b, 0x3f, 0x31, 0x30, 0x34, 0x37, 0x68],
        ).modes.alternate_screen,
        !s.fed(
            bytes + seq![0x1bu8, 0x5b, 0x3f, 0x31, 0x30, 0x34, 0x37, 0x6c],
        ).modes.alternate_screen,
        s.fed(
            bytes + seq![0x1bu8, 0x5b, 0x3f, 0x31, 0x30, 0x34, 0x39, 0x68],
        ).modes.alternate_screen,
        !s.fed(
            bytes + seq![0x1bu8, 0x5b, 0x3f, 0x31, 0x30, 0x34, 0x39, 0x6c],
        ).modes.alternate_screen,
        // Entering the alternate screen forgets where the input line begins.
        s.fed(
            bytes + seq![0x1bu8, 0x5b, 0x3f, 0x31, 0x30, 0x34, 0x39, 0x68],
        ).modes.input_anchor is None,
{
    let c = s.carry;
    modes::law_alternate_screen_is_the_last_switch(s.modes, c + bytes, c.len() as int);
    assert(c + (bytes + seq![0x1bu8, 0x5b, 0x3f, 0x34, 0x37, 0x68]) =~= c + bytes + seq![
        0x1bu8,
        0x5b,
        0x3f,
        0x34,
        0x37,
        0x68,
    ]);
    assert(c + (bytes + seq![0x1bu8, 0x5b, 0x3f, 0x34, 0x37, 0x6c]) =~= c + bytes + seq![
        0x1bu8,
        0x5b,
        0x3f,
        0x34,
        0x37,
        0x6c,
    ]);
    lemma_four_digits_fed(s, bytes, 0x31, 0x30, 0x34, 0x37);
    lemma_four_digits_fed(s, bytes, 0x31, 0x30, 0x34, 0x39);
}

proof fn lemma_four_digits_fed(s: SessionModel, bytes: Seq<u8>, a: u8, b: u8, c: u8, d: u8)
    ensures
        ({
            let on = seq![0x1bu8, 0x5b, 0x3f, a, b, c, d, 0x68];
            let off = seq![0x1bu8, 0x5b, 0x3f, a, b, c, d, 0x6c];
            let n = s.carry.len() as int;
            &&& s.fed(bytes + on).modes == modes::scanned_after(
                s.modes,
                s.carry + bytes + on,
                n,
            )
            &&& s.fed(bytes + off).modes == modes::scanned_after(
                s.modes,
                s.carry + bytes + off,
                n,
            )
        }),
{
    let on = seq![0x1bu8, 0x5b, 0x3f, a, b, c, d, 0x68];
    let off = seq![0x1bu8, 0x5b, 0x3f, a, b, c, d, 0x6c];
    assert(s.carry + (bytes + on) =~= s.carry + bytes + on);
    assert(s.carry + (bytes + off) =~= s.carry + bytes + off);
}

/// Whatever was fed before, reports of mouse buttons are on after output that ends in
/// `ESC [ ? 1000 h` and off after `ESC [ ? 1000 l`, and reports of drags with 1002.
pub proof fn law_button_reports_follow_the_output(s: SessionModel, bytes: Seq<u8>)
    ensures
        s.fed(
            bytes + seq![0x1bu8, 0x5b, 0x3f, 0x31, 0x30, 0x30, 0x30, 0x68],
        ).modes.mouse_x10,
        !s.fed(
            bytes + seq![0x1bu8, 0x5b, 0x3f, 0x31, 0x30, 0x30, 0x30, 0x6c],
        ).modes.mouse_x10,
        s.fed(
            bytes + seq![0x1bu8, 0x5b, 0x3f, 0x31, 0x30, 0x30, 0x32, 0x68],
        ).modes.mouse_button_event,
        !s.fed(
            bytes + seq![0x1bu8, 0x5b, 0x3f, 0x31, 0x30, 0x30, 0x32, 0x6c],
        ).modes.mouse_button_event,
{
    let b = s.carry + bytes;
    let n = s.carry.len() as int;
    lemma_four_digits_fed(s, bytes, 0x31, 0x30, 0x30, 0x30);
    modes::law_switch_mouse_x10(s.modes, b, n);
    lemma_four_digits_fed(s, bytes, 0x31, 0x30, 0x30, 0x32);
    modes::law_switch_mouse_button_event(s.modes, b, n);
}

/// Whatever was fed before, reports of all motion are on after output that ends in
/// `ESC [ ? 1003 h` and off after `ESC [ ? 1003 l`, and the SGR form with 1006.
pub proof fn law_motion_reports_follow_the_output(s: SessionModel, bytes: Seq<u8>)
    ensures
        s.fed(
            bytes + seq![0x1bu8, 0x5b, 0x3f, 0x31, 0x30, 0x30, 0x33, 0x68],
        ).modes.mouse_any_event,
        !s.fed(
            bytes + seq![0x1bu8, 0x5b, 0x3f, 0x31, 0x30, 0x30, 0x33, 0x6c],
        ).modes.mouse_any_event,
        s.fed(
            bytes + seq![0x1bu8, 0x5b, 0x3f, 0x31, 0x30, 0x30, 0x36, 0x68],
        ).modes.mouse_sgr,
        !s.fed(
            bytes + seq![0x1bu8, 0x5b, 0x3f, 0x31, 0x30, 0x30, 0x36, 0x6c],
        ).modes.mouse_sgr,
{
    let b = s.carry + bytes;
    let n = s.carry.len() as int;
    lemma_four_digits_fed(s, bytes, 0x31, 0x30, 0x30, 0x33);
    modes::law_switch_mouse_any_event(s.modes, b, n);
    lemma_four_digits_fed(s, bytes, 0x31, 0x30, 0x30, 0x36);
    modes::law_switch_mouse_sgr(s.modes, b, n);
}

/// Whatever was fed before, the wheel sends cursor keys on the alternate screen after
/// output that ends in `ESC [ ? 1007 h` and not after `ESC [ ? 1007 l`, and pastes are
/// bracketed by 2004.
pub proof fn law_wheel_and_paste_follow_the_output(s: SessionModel, bytes: Seq<u8>)
    ensures
        s.fed(
            bytes + seq![0x1bu8, 0x5b, 0x3f, 0x31, 0x30, 0x30, 0x37, 0x68],
        ).modes.mouse_alternate_scroll,
        !s.fed(
            bytes + seq![0x1bu8, 0x5b, 0x3f, 0x31, 0x30, 0x30, 0x37, 0x6c],
        ).modes.mouse_alternate_scroll,
        s.fed(
            bytes + seq![0x1bu8, 0x5b, 0x3f, 0x32, 0x30, 0x30, 0x34, 0x68],
        ).modes.bracketed_paste,
        !s.fed(
            bytes + seq![0x1bu8, 0x5b, 0x3f, 0x32, 0x30, 0x30, 0x34, 0x6c],
        ).modes.bracketed_paste,
{
    let b = s.carry + bytes;
    let n = s.carry.len() as int;
    lemma_four_digits_fed(s, bytes, 0x31, 0x30, 0x30, 0x37);
    modes::law_switch_mouse_alternate_scroll(s.modes, b, n);
    lemma_four_digits_fed(s, bytes, 0x32, 0x30, 0x30, 0x34);
    modes::law_switch_bracketed_paste(s.modes, b, n);
}

/// Whatever was fed before, synchronized output has begun after output that ends in
/// `ESC [ ? 2026 h` and ended after `ESC [ ? 2026 l`, and changes of the colour scheme
/// are reported by 2031.
pub proof fn law_updates_follow_the_output(s: SessionModel, bytes: Seq<u8>)
    ensures
        s.fed(
            bytes + seq![0x1bu8, 0x5b, 0x3f, 0x32, 0x30, 0x32, 0x36, 0x68],
        ).modes.synchronized_output,
        !s.fed(
            bytes + seq![0x1bu8, 0x5b, 0x3f, 0x32, 0x30, 0x32, 0x36, 0x6c],
        ).modes.synchronized_output,
        s.fed(
            bytes + seq![0x1bu8, 0x5b, 0x3f, 0x32, 0x30, 0x33, 0x31, 0x68],
        ).modes.report_color_scheme,
        !s.fed(
            bytes + seq![0x1bu8, 0x5b, 0x3f, 0x32, 0x30, 0x33, 0x31, 0x6c],
        ).modes.report_color_scheme,
{
    let b = s.carry + bytes;
    let n = s.carry.len() as int;
    lemma_four_digits_fed(s, bytes, 0x32, 0x30, 0x32, 0x36);
    modes::law_switch_synchronized_output(s.modes, b, n);
    lemma_four_digits_fed(s, bytes, 0x32, 0x30, 0x33, 0x31);
    modes::law_switch_report_color_scheme(s.modes, b, n);
}

/// Whatever was fed before, `ESC [ ? 25 h` shows the cursor, `ESC [ ? 25 l` hides it,
/// and `ESC [ ? 1 h` and `.. l` switch the form of the cursor keys.
pub proof fn law_cursor_follows_the_output(s: SessionModel, bytes: Seq<u8>)
    ensures
        s.fed(bytes + seq![0x1bu8, 0x5b, 0x3f, 0x32, 0x35, 0x68]).modes.cursor_visible,
        !s.fed(bytes + seq![0x1bu8, 0x5b, 0x3f, 0x32, 0x35, 0x6c]).modes.cursor_visible,
        s.fed(bytes + seq![0x1bu8, 0x5b, 0x3f, 0x31, 0x68]).modes.application_cursor_keys,
        !s.fed(bytes + seq![0x1bu8, 0x5b, 0x3f, 0x31, 0x6c]).modes.application_cursor_keys,
{
    let b = s.carry + bytes;
    let n = s.carry.len() as int;
    modes::law_switch_cursor_visible(s.modes, b, n);
    modes::law_switch_cursor_keys(s.modes, b, n);
    let show = seq![0x1bu8, 0x5b, 0x3f, 0x32, 0x35, 0x68];
    let hide = seq![0x1bu8, 0x5b, 0x3f, 0x32, 0x35, 0x6c];
    let keys = seq![0x1bu8, 0x5b, 0x3f, 0x31, 0x68];
    let usual = seq![0x1bu8, 0x5b, 0x3f, 0x31, 0x6c];
    assert(s.carry + (bytes + show) =~= b + show);
    assert(s.carry + (bytes + hide) =~= b + hide);
    assert(s.carry + (bytes + keys) =~= b + keys);
    assert(s.carry + (bytes + usual) =~= b + usual);
}

/// A command at the end of the output, behind what leaves none unfinished. A command
/// 0 or 2 sets the title to its text; a command 52 puts what it holds on the
/// clipboard, where that can be read; any other command leaves both as they are.
pub proof fn law_commands_take_effect(
    s: SessionModel,
    bytes: Seq<u8>,
    digits: Seq<u8>,
    payload: Seq<u8>,
    end: Seq<u8>,
)
    requires
        osc::clean_cut(s.carry + bytes, 0, (s.carry + bytes).len() as int),
        digits.len() > 0,
        forall|i: int| 0 <= i < digits.len() ==> 0x30 <= #[trigger] digits[i] <= 0x39,
        forall|i: int|
            0 <= i < payload.len() ==> #[trigger] payload[i] != 0x07 && !(payload[i] == 0x1b && i
                + 1 < payload.len() && payload[i + 1] == 0x5c),
        end == seq![0x07u8] || end == seq![0x1bu8, 0x5c],
    ensures
        ({
            let was = s.fed(bytes);
            let now = s.fed(
                bytes + (seq![0x1bu8, 0x5d] + digits + seq![0x3bu8] + payload + end),
            );
            let number = decimal::decimal_value(digits);
            &&& number == 0 || number == 2 ==> now.title == Some(text::lossy_text(payload))
            &&& number != 0 && number != 2 ==> now.title == was.title
            &&& number == 52 ==> (clipboard::clipboard_text(payload) matches Some(t)
                ==> now.clipboard == Some(t))
            &&& number != 52 ==> now.clipboard == was.clipboard
        }),
{
    let command = seq![0x1bu8, 0x5d] + digits + seq![0x3bu8] + payload + end;
    let buf = s.carry + bytes;
    let n = s.carry.len() as int;
    assert(s.carry + (bytes + command) =~= buf + command);
    osc::law_command_at_the_end(buf, n, digits, seq![0x3bu8], payload, end);
    osc::law_last_command_counts(
        s.commands(bytes),
        osc::OscItem { ps: decimal::capped_value(digits), payload },
    );
}

/// A clipboard write that names no clipboard, holds no data, or holds data that is no
/// base64 leaves the pending text as it was, where no other write came with it.
pub proof fn law_ignored_write_keeps_the_clipboard(s: SessionModel, bytes: Seq<u8>)
    requires
        SessionModel::clipboard_in(s.commands(bytes)) is None,
    ensures
        s.fed(bytes).clipboard == s.clipboard,
{
}

/// Feeding output touches neither the configuration, nor the scanners of queries, nor
/// the remembered backgrounds; the title and the clipboard only change by a command.
pub proof fn law_feeding_keeps_the_rest(s: SessionModel, bytes: Seq<u8>)
    ensures
        s.fed(bytes).config == s.config,
        s.fed(bytes).queries == s.queries,
        s.fed(bytes).backgrounds == s.backgrounds,
        (forall|i: int|
            0 <= i < (s.carry + bytes).len() - 1 ==> !(#[trigger] (s.carry + bytes)[i] == 0x1b && (
            s.carry + bytes)[i + 1] == 0x5d)) ==> s.fed(bytes).title == s.title && s.fed(
            bytes,
        ).clipboard == s.clipboard,
{
    if forall|i: int|
        0 <= i < (s.carry + bytes).len() - 1 ==> !(#[trigger] (s.carry + bytes)[i] == 0x1b && (
        s.carry + bytes)[i + 1] == 0x5d) {
        osc::law_no_command_without_its_start(s.carry + bytes, s.carry.len() as int);
    }
}

/// The last 2048 bytes are carried on, or all of them where there are fewer.
pub proof fn law_carry_is_the_end(buf: Seq<u8>)
    ensures
        buf.len() <= 2048 ==> carried(buf) == buf,
        buf.len() > 2048 ==> carried(buf).len() == 2048,
        carried(buf).len() <= buf.len(),
        carried(buf) == buf.skip(buf.len() - carried(buf).len()),
        dropped(buf) + carried(buf) == buf,
{
    assert(dropped(buf) + carried(buf) =~= buf);
    assert(buf.skip(0) =~= buf);
}

/// A background that is remembered already stays where it is. A new one goes last;
/// where there were eight, the oldest makes room for it, and the others keep their
/// order.
pub proof fn law_backgrounds_are_remembered(bgs: Seq<Rgb>, bg: Rgb)
    requires
        bgs.len() <= 8,
    ensures
        bgs.contains(bg) ==> remembered(bgs, bg) == bgs,
        !bgs.contains(bg) && bgs.len() < 8 ==> remembered(bgs, bg) == bgs + seq![bg],
        !bgs.contains(bg) && bgs.len() == 8 ==> remembered(bgs, bg) == bgs.subrange(1, 8)
            + seq![bg],
{
    if !bgs.contains(bg) {
        assert(bgs.push(bg) =~= bgs + seq![bg]);
        if bgs.len() == 8 {
            assert(bgs.push(bg).drop_first() =~= bgs.subrange(1, 8) + seq![bg]);
        }
    }
}

/// New default colours are the default colours from then on, nothing else of the
/// configuration changes, and the modes and the stream go on as they were.
pub proof fn law_recoloring(s: SessionModel, fg: Rgb, bg: Rgb)
    ensures
        s.recolored(fg, bg).config.default_fg == fg,
        s.recolored(fg, bg).config.default_bg == bg,
        s.recolored(fg, bg).config == (TerminalConfig {
            default_fg: fg,
            default_bg: bg,
            ..s.config
        }),
        s.recolored(fg, bg).modes == s.modes,
        s.recolored(fg, bg).carry == s.carry,
        s.recolored(fg, bg).title == s.title,
        s.recolored(fg, bg).clipboard == s.clipboard,
        s.recolored(fg, bg).queries == s.queries,
{
}

/// The last event that says something decides where the input line begins: the start
/// of the input puts it at the cursor, a command that starts or ends takes it away.
/// The start of a prompt and other events say nothing.
pub proof fn law_last_event_decides(
    anchor: Option<(u16, u16)>,
    events: Seq<TerminalEvent>,
    event: TerminalEvent,
    cursor: Option<(u16, u16)>,
)
    ensures
        anchor_after(anchor, Seq::empty(), cursor) == anchor,
        event is InputStart ==> anchor_after(anchor, events.push(event), cursor) == cursor,
        event is CommandStart || event is CommandEnd ==> anchor_after(
            anchor,
            events.push(event),
            cursor,
        ) is None,
        event is PromptStart || event is Other ==> anchor_after(anchor, events.push(event), cursor)
            == anchor_after(anchor, events, cursor),
{
    assert(events.push(event).drop_last() =~= events);
}

/// A colour query learns the colour it asks for: 10 the foreground, 11 the
/// background, 12 the cursor's own colour, or the foreground where it has none.
pub proof fn law_color_replies(s: SessionModel, cursor: Option<(u16, u16)>)
    ensures
        ({
            let fg = s.config.default_fg;
            let bg = s.config.default_bg;
            &&& s.reply(PtyQuery::Osc(OscQuery::Foreground), cursor) == query::color_reply(
                10,
                fg.r,
                fg.g,
                fg.b,
            )
            &&& s.reply(PtyQuery::Osc(OscQuery::Background), cursor) == query::color_reply(
                11,
                bg.r,
                bg.g,
                bg.b,
            )
            &&& s.config.cursor_color matches Some(c) ==> s.reply(
                PtyQuery::Osc(OscQuery::Cursor),
                cursor,
            ) == query::color_reply(12, c.r, c.g, c.b)
            &&& s.config.cursor_color is None ==> s.reply(PtyQuery::Osc(OscQuery::Cursor), cursor)
                == query::color_reply(12, fg.r, fg.g, fg.b)
        }),
{
}

/// A CSI query is answered by what it asks for, with the cursor as it stands and the
/// scheme as it is configured.
pub proof fn law_csi_replies(s: SessionModel, q: query::TerminalQuery, cursor: Option<(u16, u16)>)
    ensures
        s.reply(PtyQuery::Csi(q), cursor) == query::csi_reply(
            q,
            cursor,
            s.config.color_scheme,
        ),
{
}

/// A hard reset, and a new pty, show the cursor, let the wheel send cursor keys on the
/// alternate screen, and switch everything else off. A new pty also drops the bytes
/// and the half seen queries of the old stream; neither touches the configuration, the
/// title, the pending clipboard text or the backgrounds.
pub proof fn law_resets(s: SessionModel)
    ensures
        ({
            let m = s.hard_reset().modes;
            &&& m.cursor_visible && m.mouse_alternate_scroll
            &&& !m.bracketed_paste && !m.synchronized_output && !m.alternate_screen
            &&& !m.mouse_x10 && !m.mouse_button_event && !m.mouse_any_event && !m.mouse_sgr
            &&& !m.application_cursor_keys && !m.report_color_scheme
            &&& m.input_anchor is None
        }),
        s.renewed().modes == s.hard_reset().modes,
        s.renewed().carry.len() == 0,
        s.renewed().queries.csi is Idle && s.renewed().queries.osc is Idle,
        s.hard_reset().carry == s.carry,
        s.hard_reset().queries == s.queries,
        forall|r: SessionModel|
            r == s.renewed() || r == s.hard_reset() ==> {
                &&& (#[trigger] r.config) == s.config
                &&& r.title == s.title
                &&& r.clipboard == s.clipboard
                &&& r.backgrounds == s.backgrounds
            },
{
}

/// Moving where the input line begins changes nothing else.
pub proof fn law_anchor_alone_moves(s: SessionModel, anchor: Option<(u16, u16)>)
    ensures
        s.with_anchor(anchor).modes == (TerminalModes { input_anchor: anchor, ..s.modes }),
        s.with_anchor(anchor) == (SessionModel {
            modes: s.with_anchor(anchor).modes,
            ..s
        }),
{
}

} // verus!
