//! The terminal modes that programs switch through their output, mirrored
//! from the byte stream.
//!
//! Two kinds of sequence matter: `ESC c`, which puts every mode back to its
//! power-on value, and `ESC [ ? Ps ; .. h` or `.. l`, which sets or clears the
//! modes it lists. Everything else in the stream leaves the modes alone.
use vstd::prelude::*;
use crate::ascii;
use crate::ascii::{digit, ESC, LOWER_C, LOWER_H, LOWER_L, OPEN_BRACKET, QUESTION, SEMICOLON};
use crate::decimal;
use crate::decimal::push_digit;

verus! {

/// The mirrored modes, and the place where the shell's input line begins.
#[derive(Clone, Copy, Debug, PartialEq, Eq)]
pub struct TerminalModes {
    pub bracketed_paste: bool,
    pub cursor_visible: bool,
    pub synchronized_output: bool,
    pub mouse_x10: bool,
    pub mouse_button_event: bool,
    pub mouse_any_event: bool,
    pub mouse_sgr: bool,
    /// The alternate screen, which has no scrollback.
    pub alternate_screen: bool,
    /// Cursor position (1-based column and row) at which the user's current
    /// input line begins. Not a mode, but entering the alternate screen and a
    /// reset both forget it.
    pub input_anchor: Option<(u16, u16)>,
    /// Cursor keys send `ESC O A` instead of `ESC [ A`.
    pub application_cursor_keys: bool,
    /// On the alternate screen the wheel sends cursor keys.
    pub mouse_alternate_scroll: bool,
    /// The program asked to be told when the colour scheme changes.
    pub report_color_scheme: bool,
}

impl TerminalModes {
    /// What a terminal starts with.
    pub open spec fn power_on() -> TerminalModes {
        TerminalModes {
            bracketed_paste: false,
            cursor_visible: true,
            synchronized_output: false,
            mouse_x10: false,
            mouse_button_event: false,
            mouse_any_event: false,
            mouse_sgr: false,
            alternate_screen: false,
            input_anchor: None,
            application_cursor_keys: false,
            mouse_alternate_scroll: true,
            report_color_scheme: false,
        }
    }

    /// The mode numbers that stand for the alternate screen.
    pub open spec fn is_alternate_screen(ps: u32) -> bool {
        ps == 47 || ps == 1047 || ps == 1049
    }

    /// The modes after mode number `ps` is set or cleared.
    pub open spec fn with_mode(self, ps: u32, enabled: bool) -> TerminalModes {
        TerminalModes {
            bracketed_paste: if ps == 2004 {
                enabled
            } else {
                self.bracketed_paste
            },
            cursor_visible: if ps == 25 {
                enabled
            } else {
                self.cursor_visible
            },
            synchronized_output: if ps == 2026 {
                enabled
            } else {
                self.synchronized_output
            },
            mouse_x10: if ps == 1000 {
                enabled
            } else {
                self.mouse_x10
            },
            mouse_button_event: if ps == 1002 {
                enabled
            } else {
                self.mouse_button_event
            },
            mouse_any_event: if ps == 1003 {
                enabled
            } else {
                self.mouse_any_event
            },
            mouse_sgr: if ps == 1006 {
                enabled
            } else {
                self.mouse_sgr
            },
            alternate_screen: if Self::is_alternate_screen(ps) {
                enabled
            } else {
                self.alternate_screen
            },
            input_anchor: if Self::is_alternate_screen(ps) && enabled {
                None
            } else {
                self.input_anchor
            },
            application_cursor_keys: if ps == 1 {
                enabled
            } else {
                self.application_cursor_keys
            },
            mouse_alternate_scroll: if ps == 1007 {
                enabled
            } else {
                self.mouse_alternate_scroll
            },
            report_color_scheme: if ps == 2031 {
                enabled
            } else {
                self.report_color_scheme
            },
        }
    }

    /// The modes after each of `params`, in order, is set or cleared.
    pub open spec fn with_modes(self, params: Seq<u32>, enabled: bool) -> TerminalModes
        decreases params.len(),
    {
        if params.len() == 0 {
            self
        } else {
            self.with_modes(params.drop_last(), enabled).with_mode(params.last(), enabled)
        }
    }

    /// The modes of a terminal that was just switched on.
    pub fn new() -> (m: TerminalModes)
        ensures
            m == TerminalModes::power_on(),
    {
        TerminalModes {
            bracketed_paste: false,
            cursor_visible: true,
            synchronized_output: false,
            mouse_x10: false,
            mouse_button_event: false,
            mouse_any_event: false,
            mouse_sgr: false,
            alternate_screen: false,
            input_anchor: None,
            application_cursor_keys: false,
            mouse_alternate_scroll: true,
            report_color_scheme: false,
        }
    }

    fn switched(self, ps: u32, enabled: bool) -> (m: TerminalModes)
        ensures
            m == self.with_mode(ps, enabled),
    {
        match ps {
            1 => TerminalModes { application_cursor_keys: enabled, ..self },
            25 => TerminalModes { cursor_visible: enabled, ..self },
            // The anchor belongs to a shell prompt on the primary screen, which
            // is no longer shown.
            47 | 1047 | 1049 => if enabled {
                TerminalModes { alternate_screen: true, input_anchor: None, ..self }
            } else {
                TerminalModes { alternate_screen: false, ..self }
            },
            1000 => TerminalModes { mouse_x10: enabled, ..self },
            1002 => TerminalModes { mouse_button_event: enabled, ..self },
            1003 => TerminalModes { mouse_any_event: enabled, ..self },
            1006 => TerminalModes { mouse_sgr: enabled, ..self },
            1007 => TerminalModes { mouse_alternate_scroll: enabled, ..self },
            2004 => TerminalModes { bracketed_paste: enabled, ..self },
            2026 => TerminalModes { synchronized_output: enabled, ..self },
            2031 => TerminalModes { report_color_scheme: enabled, ..self },
            _ => self,
        }
    }

    fn switched_all(self, params: &Vec<u32>, enabled: bool) -> (m: TerminalModes)
        ensures
            m == self.with_modes(params@, enabled),
    {
        let mut m = self;
        let mut i: usize = 0;
        while i < params.len()
            invariant
                i <= params@.len(),
                m == self.with_modes(params@.take(i as int), enabled),
            decreases params@.len() - i,
        {
            assert(params@.take(i + 1).drop_last() =~= params@.take(i as int));
            m = m.switched(params[i], enabled);
            i = i + 1;
        }
        assert(params@.take(i as int) =~= params@);
        m
    }

    /// Whether the program wants to hear of the mouse at all.
    pub fn mouse_reporting(&self) -> (r: bool)
        ensures
            r == (self.mouse_x10 || self.mouse_button_event || self.mouse_any_event),
    {
        self.mouse_x10 || self.mouse_button_event || self.mouse_any_event
    }

    /// Each mode of `n1` and `n2` is the same in both, or is what it was in
    /// `m1` and `m2`.
    pub open spec fn same_or_kept(
        m1: TerminalModes,
        m2: TerminalModes,
        n1: TerminalModes,
        n2: TerminalModes,
    ) -> bool {
        &&& n1.bracketed_paste == n2.bracketed_paste || (n1.bracketed_paste == m1.bracketed_paste
            && n2.bracketed_paste == m2.bracketed_paste)
        &&& n1.cursor_visible == n2.cursor_visible || (n1.cursor_visible == m1.cursor_visible
            && n2.cursor_visible == m2.cursor_visible)
        &&& n1.synchronized_output == n2.synchronized_output || (n1.synchronized_output
            == m1.synchronized_output && n2.synchronized_output == m2.synchronized_output)
        &&& n1.mouse_x10 == n2.mouse_x10 || (n1.mouse_x10 == m1.mouse_x10 && n2.mouse_x10
            == m2.mouse_x10)
        &&& n1.mouse_button_event == n2.mouse_button_event || (n1.mouse_button_event
            == m1.mouse_button_event && n2.mouse_button_event == m2.mouse_button_event)
        &&& n1.mouse_any_event == n2.mouse_any_event || (n1.mouse_any_event == m1.mouse_any_event
            && n2.mouse_any_event == m2.mouse_any_event)
        &&& n1.mouse_sgr == n2.mouse_sgr || (n1.mouse_sgr == m1.mouse_sgr && n2.mouse_sgr
            == m2.mouse_sgr)
        &&& n1.alternate_screen == n2.alternate_screen || (n1.alternate_screen
            == m1.alternate_screen && n2.alternate_screen == m2.alternate_screen)
        &&& n1.input_anchor == n2.input_anchor || (n1.input_anchor == m1.input_anchor
            && n2.input_anchor == m2.input_anchor)
        &&& n1.application_cursor_keys == n2.application_cursor_keys || (n1.application_cursor_keys
            == m1.application_cursor_keys && n2.application_cursor_keys
            == m2.application_cursor_keys)
        &&& n1.mouse_alternate_scroll == n2.mouse_alternate_scroll || (n1.mouse_alternate_scroll
            == m1.mouse_alternate_scroll && n2.mouse_alternate_scroll == m2.mouse_alternate_scroll)
        &&& n1.report_color_scheme == n2.report_color_scheme || (n1.report_color_scheme
            == m1.report_color_scheme && n2.report_color_scheme == m2.report_color_scheme)
    }
}

/// What one control sequence does to the modes.
pub enum ModeEvent {
    /// `ESC c`.
    Reset,
    /// `ESC [ ? params h` (enabled) or `ESC [ ? params l`.
    Switch { params: Seq<u32>, enabled: bool },
}

impl ModeEvent {
    pub open spec fn apply(self, m: TerminalModes) -> TerminalModes {
        match self {
            ModeEvent::Reset => TerminalModes::power_on(),
            ModeEvent::Switch { params, enabled } => m.with_modes(params, enabled),
        }
    }
}

/// `bytes` cut at every semicolon.
pub open spec fn fields(bytes: Seq<u8>) -> Seq<Seq<u8>>
    decreases bytes.len(),
{
    if bytes.len() == 0 {
        seq![Seq::empty()]
    } else {
        let before = fields(bytes.drop_last());
        if bytes.last() == SEMICOLON {
            before.push(Seq::empty())
        } else {
            before.drop_last().push(before.last().push(bytes.last()))
        }
    }
}

/// The numbers in the fields that are not empty.
pub open spec fn numbers(fs: Seq<Seq<u8>>) -> Seq<u32>
    decreases fs.len(),
{
    if fs.len() == 0 {
        Seq::empty()
    } else if fs.last().len() == 0 {
        numbers(fs.drop_last())
    } else {
        numbers(fs.drop_last()).push(decimal::capped_value(fs.last()))
    }
}

/// `b` may stand in a parameter list.
pub open spec fn is_param_byte(b: u8) -> bool {
    ascii::is_digit(b) || b == SEMICOLON
}

/// How many bytes at the start of `s` belong to a parameter list.
pub open spec fn params_len(s: Seq<u8>) -> nat
    decreases s.len(),
{
    if s.len() > 0 && is_param_byte(s[0]) {
        1 + params_len(s.drop_first())
    } else {
        0
    }
}

/// `s` starts with `ESC [ ?`.
pub open spec fn starts_mode(s: Seq<u8>) -> bool {
    s.len() >= 3 && s[0] == ESC && s[1] == OPEN_BRACKET && s[2] == QUESTION
}

/// The control sequence that `s` starts with, if it is one that changes modes.
pub open spec fn mode_event(s: Seq<u8>) -> Option<ModeEvent> {
    if s.len() >= 2 && s[0] == ESC && s[1] == LOWER_C {
        Some(ModeEvent::Reset)
    } else if starts_mode(s) {
        let end = 3 + params_len(s.skip(3)) as int;
        if end < s.len() && (s[end] == LOWER_H || s[end] == LOWER_L) {
            Some(
                ModeEvent::Switch {
                    params: numbers(fields(s.subrange(3, end))),
                    enabled: s[end] == LOWER_H,
                },
            )
        } else {
            None
        }
    } else {
        None
    }
}

/// How many bytes the control sequence that `s` starts with takes up, where it is
/// one that changes modes.
pub open spec fn event_len(s: Seq<u8>) -> int {
    if s.len() >= 2 && s[0] == ESC && s[1] == LOWER_C {
        2
    } else {
        4 + params_len(s.skip(3)) as int
    }
}

/// `s` is the beginning of a control sequence that may still come to change
/// modes, cut off by the end of the stream.
pub open spec fn mode_unfinished(s: Seq<u8>) -> bool {
    ||| s =~= seq![ESC]
    ||| s =~= seq![ESC, OPEN_BRACKET]
    ||| starts_mode(s) && s.len() == 3 + params_len(s.skip(3))
}

/// The control sequences that change modes, among those that start at or after
/// position `i` of the stream, in order.
pub open spec fn mode_events(buf: Seq<u8>, i: int) -> Seq<ModeEvent>
    decreases buf.len() - i,
{
    if i < 0 || i >= buf.len() {
        Seq::empty()
    } else {
        match mode_event(buf.skip(i)) {
            Some(e) => seq![e] + mode_events(buf, i + 1),
            None => mode_events(buf, i + 1),
        }
    }
}

/// Those of the events from position `i` on whose sequence ends behind position
/// `seen`: the ones that were not complete yet when the stream was only `seen`
/// bytes long.
pub open spec fn new_events(buf: Seq<u8>, i: int, seen: int) -> Seq<ModeEvent>
    decreases buf.len() - i,
{
    if i < 0 || i >= buf.len() {
        Seq::empty()
    } else {
        let later = new_events(buf, i + 1, seen);
        match mode_event(buf.skip(i)) {
            Some(e) => if i + event_len(buf.skip(i)) > seen {
                seq![e] + later
            } else {
                later
            },
            None => later,
        }
    }
}

/// The modes after a list of events.
pub open spec fn run_events(m: TerminalModes, events: Seq<ModeEvent>) -> TerminalModes
    decreases events.len(),
{
    if events.len() == 0 {
        m
    } else {
        run_events(events[0].apply(m), events.drop_first())
    }
}

/// The modes after the bytes of `buf` went by.
pub open spec fn scanned(m: TerminalModes, buf: Seq<u8>) -> TerminalModes {
    run_events(m, mode_events(buf, 0))
}

/// The modes after the bytes of `buf` went by, where the first `seen` of them had
/// already been scanned: no sequence acts twice.
pub open spec fn scanned_after(m: TerminalModes, buf: Seq<u8>, seen: int) -> TerminalModes {
    run_events(m, new_events(buf, 0, seen))
}

proof fn lemma_params_len(s: Seq<u8>)
    ensures
        params_len(s) <= s.len(),
        forall|i: int| 0 <= i < params_len(s) ==> is_param_byte(#[trigger] s[i]),
        params_len(s) < s.len() ==> !is_param_byte(s[params_len(s) as int]),
    decreases s.len(),
{
    if s.len() > 0 && is_param_byte(s[0]) {
        let rest = s.drop_first();
        lemma_params_len(rest);
        assert forall|i: int| 0 <= i < params_len(s) implies is_param_byte(#[trigger] s[i]) by {
            if i > 0 {
                assert(s[i] == rest[i - 1]);
            }
        }
        if params_len(s) < s.len() {
            assert(s[params_len(s) as int] == rest[params_len(rest) as int]);
        }
    }
}

proof fn lemma_params_len_unique(s: Seq<u8>, n: nat)
    requires
        n <= s.len(),
        forall|i: int| 0 <= i < n ==> is_param_byte(#[trigger] s[i]),
        n < s.len() ==> !is_param_byte(s[n as int]),
    ensures
        params_len(s) == n,
{
    lemma_params_len(s);
    if params_len(s) < n {
        assert(is_param_byte(s[params_len(s) as int]));
    } else if n < params_len(s) {
        assert(is_param_byte(s[n as int]));
    }
}

/// No sequence starts where there is no `ESC`.
proof fn lemma_no_events(buf: Seq<u8>, i: int, k: int)
    requires
        0 <= i <= k <= buf.len(),
        forall|j: int| i <= j < k ==> #[trigger] buf[j] != ESC,
    ensures
        mode_events(buf, i) == mode_events(buf, k),
        forall|seen: int| #[trigger] new_events(buf, i, seen) == new_events(buf, k, seen),
    decreases k - i,
{
    if i < k {
        assert(buf.skip(i)[0] == buf[i]);
        assert(mode_event(buf.skip(i)) is None);
        lemma_no_events(buf, i + 1, k);
        assert forall|seen: int| #[trigger] new_events(buf, i, seen) == new_events(
            buf,
            k,
            seen,
        ) by {
            assert(new_events(buf, i + 1, seen) == new_events(buf, k, seen));
        }
    }
}

/// Every event that starts at or behind `seen` ends behind it.
proof fn lemma_all_new(buf: Seq<u8>, i: int, seen: int)
    requires
        0 <= i <= buf.len(),
        seen <= i,
    ensures
        new_events(buf, i, seen) == mode_events(buf, i),
    decreases buf.len() - i,
{
    if i < buf.len() {
        lemma_all_new(buf, i + 1, seen);
    }
}

pub proof fn lemma_run_concat(m: TerminalModes, a: Seq<ModeEvent>, b: Seq<ModeEvent>)
    ensures
        run_events(m, a + b) == run_events(run_events(m, a), b),
    decreases a.len(),
{
    if a.len() == 0 {
        assert(a + b =~= b);
    } else {
        assert((a + b).drop_first() =~= a.drop_first() + b);
        lemma_run_concat(a[0].apply(m), a.drop_first(), b);
    }
}

/// Reads the parameter list that starts at `start`: its numbers, and where it
/// ends.
fn scan_params(buf: &[u8], start: usize) -> (r: (Vec<u32>, usize))
    requires
        start <= buf@.len(),
    ensures
        r.1 == start + params_len(buf@.skip(start as int)),
        r.1 <= buf@.len(),
        r.0@ == numbers(fields(buf@.subrange(start as int, r.1 as int))),
{
    let mut k: usize = start;
    let mut nums: Vec<u32> = Vec::new();
    let mut num: u32 = 0;
    let mut saw_digit = false;
    assert(buf@.subrange(start as int, k as int) =~= Seq::<u8>::empty());
    while k < buf.len() && (digit(buf[k]) || buf[k] == SEMICOLON)
        invariant
            start <= k <= buf@.len(),
            forall|j: int| start <= j < k ==> is_param_byte(#[trigger] buf@[j]),
            ({
                let fs = fields(buf@.subrange(start as int, k as int));
                &&& fs.len() > 0
                &&& nums@ == numbers(fs.drop_last())
                &&& saw_digit == (fs.last().len() > 0)
                &&& num == decimal::capped_value(fs.last())
            }),
        decreases buf@.len() - k,
    {
        let b = buf[k];
        let ghost seen = buf@.subrange(start as int, k as int);
        let ghost next = buf@.subrange(start as int, k + 1);
        let ghost fs = fields(seen);
        assert(next.drop_last() =~= seen);
        if digit(b) {
            proof {
                decimal::lemma_capped_push(fs.last(), b);
                assert(fields(next).drop_last() =~= fs.drop_last());
            }
            saw_digit = true;
            num = push_digit(num, b);
        } else {
            assert(fields(next).drop_last() =~= fs);
            if saw_digit {
                nums.push(num);
            }
            num = 0;
            saw_digit = false;
        }
        k = k + 1;
    }
    proof {
        let tail = buf@.skip(start as int);
        let n = (k - start) as nat;
        assert forall|i: int| 0 <= i < n implies is_param_byte(#[trigger] tail[i]) by {
            assert(tail[i] == buf@[start + i]);
        }
        if n < tail.len() {
            assert(tail[n as int] == buf@[k as int]);
        }
        lemma_params_len_unique(tail, n);
    }
    if saw_digit {
        nums.push(num);
    }
    (nums, k)
}

/// The modes after the bytes of `buf` went by, where the first `seen` of them had
/// already been scanned; only what ends behind them acts.
pub fn scan_modes(modes: TerminalModes, buf: &[u8], seen: usize) -> (r: TerminalModes)
    ensures
        r == scanned_after(modes, buf@, seen as int),
        seen == 0 ==> r == scanned(modes, buf@),
{
    let mut m = modes;
    let mut i: usize = 0;
    while buf.len() - i >= 2
        invariant
            i <= buf@.len(),
            run_events(m, new_events(buf@, i as int, seen as int)) == scanned_after(
                modes,
                buf@,
                seen as int,
            ),
        decreases buf@.len() - i,
    {
        let ghost rest = buf@.skip(i as int);
        assert(rest.len() == buf@.len() - i);
        assert(forall|j: int| 0 <= j < rest.len() ==> rest[j] == buf@[i + j]);
        if buf[i] == ESC && buf[i + 1] == LOWER_C {
            proof {
                let e = ModeEvent::Reset;
                lemma_no_events(buf@, i + 1, i + 2);
                let later = new_events(buf@, i + 2, seen as int);
                assert(new_events(buf@, i + 1, seen as int) == later);
                assert(mode_event(rest) == Some(e));
                assert((seq![e] + later).drop_first() =~= later);
            }
            if i + 2 > seen {
                m = TerminalModes::new();
            }
            i = i + 2;
        } else if buf.len() - i < 3 || buf[i] != ESC || buf[i + 1] != OPEN_BRACKET || buf[i + 2]
            != QUESTION {
            assert(mode_event(rest) is None);
            i = i + 1;
        } else {
            let (nums, k) = scan_params(buf, i + 3);
            proof {
                assert(rest.skip(3) =~= buf@.skip(i + 3));
                assert(rest.subrange(3, k - i) =~= buf@.subrange(i + 3, k as int));
                lemma_params_len(rest.skip(3));
                assert forall|j: int| i < j < k implies #[trigger] buf@[j] != ESC by {
                    if j >= i + 3 {
                        assert(is_param_byte(rest.skip(3)[j - i - 3]));
                    }
                }
                lemma_no_events(buf@, i + 1, k as int);
            }
            if k < buf.len() && (buf[k] == LOWER_H || buf[k] == LOWER_L) {
                let enabled = buf[k] == LOWER_H;
                proof {
                    let e = ModeEvent::Switch { params: nums@, enabled };
                    assert(mode_event(rest) == Some(e));
                    lemma_no_events(buf@, k as int, k + 1);
                    let later = new_events(buf@, k + 1, seen as int);
                    assert(new_events(buf@, k as int, seen as int) == later);
                    assert(new_events(buf@, i + 1, seen as int) == later);
                    assert(event_len(rest) == k + 1 - i);
                    assert((seq![e] + later).drop_first() =~= later);
                }
                if k + 1 > seen {
                    m = m.switched_all(&nums, enabled);
                }
                i = k + 1;
            } else {
                assert(mode_event(rest) is None);
                assert(new_events(buf@, i + 1, seen as int) == new_events(
                    buf@,
                    k as int,
                    seen as int,
                ));
                i = k;
            }
        }
    }
    proof {
        if i < buf@.len() {
            assert(mode_event(buf@.skip(i as int)) is None);
            assert(new_events(buf@, i + 1, seen as int) =~= Seq::empty());
        }
        if seen == 0 {
            lemma_all_new(buf@, 0, 0);
        }
    }
    m
}

proof fn lemma_switch_same_or_kept(
    m1: TerminalModes,
    m2: TerminalModes,
    params: Seq<u32>,
    enabled: bool,
)
    ensures
        TerminalModes::same_or_kept(
            m1,
            m2,
            m1.with_modes(params, enabled),
            m2.with_modes(params, enabled),
        ),
    decreases params.len(),
{
    if params.len() > 0 {
        lemma_switch_same_or_kept(m1, m2, params.drop_last(), enabled);
    }
}

proof fn lemma_run_same_or_kept(m1: TerminalModes, m2: TerminalModes, events: Seq<ModeEvent>)
    ensures
        TerminalModes::same_or_kept(m1, m2, run_events(m1, events), run_events(m2, events)),
    decreases events.len(),
{
    if events.len() > 0 {
        let e = events[0];
        if let ModeEvent::Switch { params, enabled } = e {
            lemma_switch_same_or_kept(m1, m2, params, enabled);
        }
        lemma_run_same_or_kept(e.apply(m1), e.apply(m2), events.drop_first());
    }
}

/// Seeing the same events again right away changes nothing.
pub proof fn law_events_idempotent(m: TerminalModes, events: Seq<ModeEvent>)
    ensures
        run_events(run_events(m, events), events) == run_events(m, events),
{
    lemma_run_same_or_kept(m, run_events(m, events), events);
}

/// Scanning the last bytes of a stream again right away, however many of them,
/// changes nothing.
pub proof fn law_rescan_idempotent(m: TerminalModes, head: Seq<u8>, tail: Seq<u8>)
    ensures
        scanned(scanned(m, head + tail), tail) == scanned(m, head + tail),
{
    let again = mode_events(tail, 0);
    let first = lemma_events_split(head + tail, 0, head.len() as int);
    lemma_events_suffix(head, tail, 0);
    lemma_run_concat(m, first, again);
    law_events_idempotent(run_events(m, first), again);
}

/// A sequence that is complete stays what it is when more bytes follow, and
/// where none can start any more none appears.
proof fn lemma_event_extend(s: Seq<u8>, b: Seq<u8>)
    requires
        s.len() > 0,
        !mode_unfinished(s),
    ensures
        mode_event(s + b) == mode_event(s),
        mode_event(s) is Some ==> event_len(s + b) == event_len(s) <= s.len(),
{
    let t = s + b;
    assert(forall|j: int| 0 <= j < s.len() ==> t[j] == s[j]);
    if s[0] == ESC {
        if s.len() == 1 {
            assert(s =~= seq![ESC]);
        } else if s.len() == 2 {
            if s[1] == OPEN_BRACKET {
                assert(s =~= seq![ESC, OPEN_BRACKET]);
            }
        } else if starts_mode(s) {
            let n = params_len(s.skip(3));
            lemma_params_len(s.skip(3));
            assert(t.skip(3) =~= s.skip(3) + b);
            assert(forall|j: int| 0 <= j < n ==> t.skip(3)[j] == s.skip(3)[j]);
            assert(t.skip(3)[n as int] == s.skip(3)[n as int]);
            lemma_params_len_unique(t.skip(3), n);
            assert(t.subrange(3, 3 + n as int) =~= s.subrange(3, 3 + n as int));
        }
    }
}

/// An unfinished sequence is the last thing in the stream.
proof fn lemma_unfinished_last(buf: Seq<u8>, i: int)
    requires
        0 <= i < buf.len(),
        mode_unfinished(buf.skip(i)),
    ensures
        mode_events(buf, i) == Seq::<ModeEvent>::empty(),
{
    let s = buf.skip(i);
    assert(forall|j: int| 0 <= j < s.len() ==> s[j] == buf[i + j]);
    if starts_mode(s) {
        lemma_params_len(s.skip(3));
        assert forall|j: int| i < j < buf.len() implies #[trigger] buf[j] != ESC by {
            if j >= i + 3 {
                assert(s.skip(3)[j - i - 3] == buf[j]);
            }
        }
    } else {
        assert forall|j: int| i < j < buf.len() implies #[trigger] buf[j] != ESC by {
            assert(buf[j] == s[j - i]);
        }
    }
    lemma_no_events(buf, i + 1, buf.len() as int);
}

/// A sequence that is unfinished does not end before more bytes follow.
proof fn lemma_unfinished_ends_later(s: Seq<u8>, more: Seq<u8>)
    requires
        mode_unfinished(s),
        mode_event(s + more) is Some,
    ensures
        event_len(s + more) > s.len(),
{
    let t = s + more;
    assert(forall|j: int| 0 <= j < s.len() ==> t[j] == s[j]);
    if starts_mode(s) {
        let n = params_len(s.skip(3));
        lemma_params_len(s.skip(3));
        lemma_params_len(t.skip(3));
        assert(t.skip(3) =~= s.skip(3) + more);
        if params_len(t.skip(3)) < n {
            assert(is_param_byte(s.skip(3)[params_len(t.skip(3)) as int]));
        }
    }
}

/// The events of a stream stay as they are when more bytes follow; those that end
/// in the new bytes come after them.
pub proof fn lemma_events_extend(buf: Seq<u8>, more: Seq<u8>, i: int)
    requires
        0 <= i <= buf.len(),
    ensures
        mode_events(buf + more, i) == mode_events(buf, i) + new_events(
            buf + more,
            i,
            buf.len() as int,
        ),
    decreases buf.len() - i,
{
    let all = buf + more;
    let n = buf.len() as int;
    if i == n {
        lemma_all_new(all, i, n);
        assert(mode_events(all, i) =~= mode_events(buf, i) + mode_events(all, i));
    } else {
        let s = buf.skip(i);
        assert(all.skip(i) =~= s + more);
        if mode_unfinished(s) {
            lemma_unfinished_last(buf, i);
            assert forall|j: int| i < j < n implies #[trigger] all[j] != ESC by {
                assert(all[j] == s[j - i]);
                if starts_mode(s) && j >= i + 3 {
                    lemma_params_len(s.skip(3));
                    assert(is_param_byte(s.skip(3)[j - i - 3]));
                }
            }
            lemma_no_events(all, i + 1, n);
            lemma_all_new(all, n, n);
            assert(new_events(all, i + 1, n) == new_events(all, n, n));
            if mode_event(s + more) is Some {
                lemma_unfinished_ends_later(s, more);
            }
            assert(new_events(all, i, n) == mode_events(all, i));
            assert(mode_events(all, i) =~= mode_events(buf, i) + mode_events(all, i));
        } else {
            lemma_event_extend(s, more);
            lemma_events_extend(buf, more, i + 1);
            assert(mode_events(all, i) =~= mode_events(buf, i) + new_events(all, i, n));
        }
    }
}

/// What a sequence does depends only on the bytes from its start on.
proof fn lemma_events_suffix(head: Seq<u8>, buf: Seq<u8>, i: int)
    requires
        0 <= i <= buf.len(),
    ensures
        mode_events(head + buf, head.len() + i) == mode_events(buf, i),
    decreases buf.len() - i,
{
    if i < buf.len() {
        assert((head + buf).skip(head.len() + i) =~= buf.skip(i));
        lemma_events_suffix(head, buf, i + 1);
    }
}

/// Where no sequence is left unfinished in `head`, what follows `more` decides
/// only about sequences that start after `head`.
proof fn lemma_events_head(head: Seq<u8>, rest: Seq<u8>, more: Seq<u8>, i: int) -> (first: Seq<
    ModeEvent,
>)
    requires
        0 <= i <= head.len(),
        forall|j: int|
            0 <= j < head.len() ==> !mode_unfinished(#[trigger] (head + rest).skip(j)),
    ensures
        mode_events(head + rest, i) == first + mode_events(rest, 0),
        mode_events(head + rest + more, i) == first + mode_events(rest + more, 0),
    decreases head.len() - i,
{
    let a = head + rest;
    let b = head + rest + more;
    if i == head.len() {
        lemma_events_suffix(head, rest, 0);
        lemma_events_suffix(head, rest + more, 0);
        assert(head + (rest + more) =~= b);
        let first = Seq::<ModeEvent>::empty();
        assert(first + mode_events(rest, 0) =~= mode_events(rest, 0));
        assert(first + mode_events(rest + more, 0) =~= mode_events(rest + more, 0));
        first
    } else {
        assert(b.skip(i) =~= a.skip(i) + more);
        lemma_event_extend(a.skip(i), more);
        let later = lemma_events_head(head, rest, more, i + 1);
        let first = match mode_event(a.skip(i)) {
            Some(e) => seq![e] + later,
            None => later,
        };
        assert(mode_events(a, i) =~= first + mode_events(rest, 0));
        assert(mode_events(b, i) =~= first + mode_events(rest + more, 0));
        first
    }
}

/// Cutting a stream in two does not change what it does: once `head + rest` was
/// scanned, scanning `rest` with the bytes that follow it, for what they complete,
/// makes up the rest of what the whole stream does. The one thing it takes is that
/// a sequence left unfinished at the cut starts in `rest`.
pub proof fn law_modes_chunked(m: TerminalModes, head: Seq<u8>, rest: Seq<u8>, more: Seq<u8>)
    requires
        forall|j: int|
            0 <= j < head.len() ==> !mode_unfinished(#[trigger] (head + rest).skip(j)),
    ensures
        mode_events(head + rest + more, 0) == mode_events(head + rest, 0) + new_events(
            rest + more,
            0,
            rest.len() as int,
        ),
        scanned_after(scanned(m, head + rest), rest + more, rest.len() as int) == scanned(
            m,
            head + rest + more,
        ),
{
    let first = lemma_events_head(head, rest, more, 0);
    let added = new_events(rest + more, 0, rest.len() as int);
    lemma_events_extend(rest, more, 0);
    assert(first + (mode_events(rest, 0) + added) =~= first + mode_events(rest, 0) + added);
    lemma_run_concat(m, mode_events(head + rest, 0), added);
}

/// What was scanned does not act again: behind a stream in which nothing is left
/// unfinished, more bytes do what they do by themselves, whatever was done to the
/// modes since.
pub proof fn law_scan_starts_afresh(m: TerminalModes, buf: Seq<u8>, more: Seq<u8>)
    requires
        forall|j: int| 0 <= j < buf.len() ==> !mode_unfinished(#[trigger] buf.skip(j)),
    ensures
        new_events(buf + more, 0, buf.len() as int) == mode_events(more, 0),
        scanned_after(m, buf + more, buf.len() as int) == scanned(m, more),
{
    let none = Seq::<u8>::empty();
    assert(buf + none =~= buf);
    assert(none + more =~= more);
    let first = lemma_events_head(buf, none, more, 0);
    let old = mode_events(buf, 0);
    let new = new_events(buf + more, 0, buf.len() as int);
    assert(first + mode_events(none, 0) =~= first);
    lemma_events_extend(buf, more, 0);
    assert(new =~= (old + new).skip(old.len() as int));
    assert(mode_events(more, 0) =~= (old + mode_events(more, 0)).skip(old.len() as int));
}

/// Output without `ESC` changes no mode.
pub proof fn law_plain_output_changes_nothing(m: TerminalModes, buf: Seq<u8>)
    requires
        forall|i: int| 0 <= i < buf.len() ==> #[trigger] buf[i] != ESC,
    ensures
        scanned(m, buf) == m,
{
    lemma_no_events(buf, 0, buf.len() as int);
}

/// The events of a stream up to position `k`, then those from there on.
proof fn lemma_events_split(buf: Seq<u8>, i: int, k: int) -> (first: Seq<ModeEvent>)
    requires
        0 <= i <= k <= buf.len(),
    ensures
        mode_events(buf, i) == first + mode_events(buf, k),
    decreases k - i,
{
    if i == k {
        let first = Seq::<ModeEvent>::empty();
        assert(first + mode_events(buf, k) =~= mode_events(buf, k));
        first
    } else {
        let later = lemma_events_split(buf, i + 1, k);
        let first = match mode_event(buf.skip(i)) {
            Some(e) => seq![e] + later,
            None => later,
        };
        assert(mode_events(buf, i) =~= first + mode_events(buf, k));
        first
    }
}

/// A reset in the stream counts in stream order: what came before it is
/// forgotten, and what follows it acts on the power-on modes.
pub proof fn law_reset_in_stream_order(m: TerminalModes, before: Seq<u8>, after: Seq<u8>)
    ensures
        scanned(m, before + seq![ESC, LOWER_C] + after) == scanned(
            TerminalModes::power_on(),
            after,
        ),
{
    let reset = seq![ESC, LOWER_C];
    let buf = before + reset + after;
    let n = before.len() as int;
    let first = lemma_events_split(buf, 0, n);
    let e = ModeEvent::Reset;
    assert(mode_event(buf.skip(n)) == Some(e));
    lemma_no_events(buf, n + 1, n + 2);
    lemma_events_suffix(before + reset, after, 0);
    let rest = mode_events(after, 0);
    assert(mode_events(buf, n) =~= seq![e] + rest);
    let reached = run_events(m, first);
    lemma_run_concat(m, first, seq![e] + rest);
    assert((seq![e] + rest).drop_first() =~= rest);
    assert(run_events(reached, seq![e] + rest) == run_events(e.apply(reached), rest));
}

/// A reset at the end of a stream acts where the bytes before it had been scanned,
/// or fewer.
pub proof fn lemma_reset_is_new(m: TerminalModes, before: Seq<u8>, seen: int)
    requires
        0 <= seen <= before.len(),
    ensures
        scanned_after(m, before + seq![ESC, LOWER_C], seen) == TerminalModes::power_on(),
{
    let buf = before + seq![ESC, LOWER_C];
    let n = before.len() as int;
    let e = ModeEvent::Reset;
    assert(mode_event(buf.skip(n)) == Some(e));
    lemma_no_events(buf, n + 1, n + 2);
    assert(new_events(buf, n + 1, seen) == new_events(buf, n + 2, seen));
    assert(new_events(buf, n, seen) =~= seq![e]);
    let first = lemma_new_events_split(buf, 0, n, seen);
    lemma_run_concat(m, first, seq![e]);
    assert(seq![e].drop_first() =~= Seq::<ModeEvent>::empty());
    assert(run_events(run_events(m, first), seq![e]) == run_events(
        TerminalModes::power_on(),
        seq![e].drop_first(),
    ));
}

proof fn lemma_new_events_split(buf: Seq<u8>, i: int, k: int, seen: int) -> (first: Seq<ModeEvent>)
    requires
        0 <= i <= k <= buf.len(),
    ensures
        new_events(buf, i, seen) == first + new_events(buf, k, seen),
    decreases k - i,
{
    if i == k {
        let first = Seq::<ModeEvent>::empty();
        assert(first + new_events(buf, k, seen) =~= new_events(buf, k, seen));
        first
    } else {
        let later = lemma_new_events_split(buf, i + 1, k, seen);
        let s = buf.skip(i);
        let first = match mode_event(s) {
            Some(e) => if i + event_len(s) > seen {
                seq![e] + later
            } else {
                later
            },
            None => later,
        };
        assert(new_events(buf, i, seen) =~= first + new_events(buf, k, seen));
        first
    }
}

/// An `ESC` breaks off whatever came before it: the events of a stream followed
/// by more that starts with `ESC` are those of both parts.
proof fn lemma_esc_breaks_off(buf: Seq<u8>, next: Seq<u8>, i: int)
    requires
        0 <= i <= buf.len(),
        next.len() > 0,
        next[0] == ESC,
    ensures
        mode_events(buf + next, i) == mode_events(buf, i) + mode_events(next, 0),
    decreases buf.len() - i,
{
    let all = buf + next;
    if i == buf.len() {
        lemma_events_suffix(buf, next, 0);
        assert(mode_events(buf, i) + mode_events(next, 0) =~= mode_events(next, 0));
    } else {
        let s = buf.skip(i);
        let t = all.skip(i);
        assert(t =~= s + next);
        if mode_unfinished(s) {
            let n = s.len() as int;
            assert(t[n] == ESC);
            assert(forall|j: int| 0 <= j < n ==> t[j] == s[j]);
            if starts_mode(s) {
                lemma_params_len(s.skip(3));
                assert(t.skip(3) =~= s.skip(3) + next);
                assert(forall|j: int| 0 <= j < n - 3 ==> t.skip(3)[j] == s.skip(3)[j]);
                assert(t.skip(3)[n - 3] == ESC);
                lemma_params_len_unique(t.skip(3), (n - 3) as nat);
            }
            assert(mode_event(t) is None);
            assert(mode_event(s) is None);
        } else {
            lemma_event_extend(s, next);
        }
        lemma_esc_breaks_off(buf, next, i + 1);
        assert(mode_events(all, i) =~= mode_events(buf, i) + mode_events(next, 0));
    }
}

/// Half a sequence decides nothing yet.
pub proof fn law_half_sequence_decides_nothing(m: TerminalModes, buf: Seq<u8>, half: Seq<u8>)
    requires
        mode_unfinished(half),
    ensures
        scanned(m, buf + half) == scanned(m, buf),
{
    lemma_esc_breaks_off(buf, half, 0);
    assert(half.skip(0) =~= half);
    lemma_unfinished_last(half, 0);
    assert(mode_events(buf, 0) + Seq::<ModeEvent>::empty() =~= mode_events(buf, 0));
}

/// The bytes that set or clear one mode.
pub open spec fn mode_sequence(digits: Seq<u8>, enabled: bool) -> Seq<u8> {
    seq![ESC, OPEN_BRACKET, QUESTION] + digits + seq![
        if enabled {
            LOWER_H
        } else {
            LOWER_L
        },
    ]
}

pub proof fn lemma_digits_one_field(digits: Seq<u8>)
    requires
        forall|i: int| 0 <= i < digits.len() ==> ascii::is_digit(#[trigger] digits[i]),
    ensures
        fields(digits) == seq![digits],
    decreases digits.len(),
{
    if digits.len() > 0 {
        let before = digits.drop_last();
        lemma_digits_one_field(before);
        assert(ascii::is_digit(digits.last()));
        assert(before.push(digits.last()) =~= digits);
        assert(fields(digits) =~= seq![digits]);
    } else {
        assert(digits =~= Seq::<u8>::empty());
    }
}

proof fn lemma_mode_sequence_events(digits: Seq<u8>, enabled: bool)
    requires
        digits.len() > 0,
        forall|i: int| 0 <= i < digits.len() ==> ascii::is_digit(#[trigger] digits[i]),
    ensures
        mode_events(mode_sequence(digits, enabled), 0) == seq![
            ModeEvent::Switch { params: seq![decimal::capped_value(digits)], enabled },
        ],
{
    let s = mode_sequence(digits, enabled);
    let n = digits.len() as int;
    let ps = decimal::capped_value(digits);
    let e = ModeEvent::Switch { params: seq![ps], enabled };
    assert(s.skip(0) =~= s);
    assert(forall|i: int| 0 <= i < n ==> s.skip(3)[i] == digits[i]);
    assert(s.skip(3)[n] == s.last());
    lemma_params_len_unique(s.skip(3), n as nat);
    assert(s.subrange(3, 3 + n) =~= digits);
    lemma_digits_one_field(digits);
    let one = seq![digits];
    assert(one.drop_last() =~= Seq::<Seq<u8>>::empty());
    assert(numbers(one.drop_last()) =~= Seq::<u32>::empty());
    assert(numbers(one) =~= seq![ps]);
    assert(mode_event(s) == Some(e));
    assert forall|j: int| 1 <= j < s.len() implies #[trigger] s[j] != ESC by {
        if 3 <= j < 3 + n {
            assert(ascii::is_digit(digits[j - 3]));
        }
    }
    lemma_no_events(s, 1, s.len() as int);
    assert(mode_events(s, 0) =~= seq![e]);
}

proof fn lemma_run_one_switch(m: TerminalModes, ps: u32, enabled: bool)
    ensures
        run_events(m, seq![ModeEvent::Switch { params: seq![ps], enabled }]) == m.with_mode(
            ps,
            enabled,
        ),
{
    let e = ModeEvent::Switch { params: seq![ps], enabled };
    assert(seq![e].drop_first() =~= Seq::<ModeEvent>::empty());
    assert(run_events(e.apply(m), seq![e].drop_first()) == e.apply(m));
    let params = seq![ps];
    assert(params.drop_last() =~= Seq::<u32>::empty());
    assert(m.with_modes(params.drop_last(), enabled) == m);
}

/// A sequence that sets or clears a mode does so, whatever came before it in the
/// stream: nothing before it can hide it, and it hides nothing.
pub proof fn law_mode_switch_recognised(
    m: TerminalModes,
    before: Seq<u8>,
    digits: Seq<u8>,
    enabled: bool,
)
    requires
        digits.len() > 0,
        forall|i: int| 0 <= i < digits.len() ==> ascii::is_digit(#[trigger] digits[i]),
    ensures
        scanned(m, before + mode_sequence(digits, enabled)) == scanned(m, before).with_mode(
            decimal::capped_value(digits),
            enabled,
        ),
{
    let s = mode_sequence(digits, enabled);
    lemma_mode_sequence_events(digits, enabled);
    lemma_esc_breaks_off(before, s, 0);
    lemma_run_concat(m, mode_events(before, 0), mode_events(s, 0));
    lemma_run_one_switch(scanned(m, before), decimal::capped_value(digits), enabled);
}

/// An `ESC` breaks off whatever came before it, also where the first `seen`
/// bytes had already been scanned.
proof fn lemma_esc_breaks_off_after(buf: Seq<u8>, next: Seq<u8>, i: int, seen: int)
    requires
        0 <= i <= buf.len(),
        0 <= seen <= buf.len(),
        next.len() > 0,
        next[0] == ESC,
    ensures
        new_events(buf + next, i, seen) == new_events(buf, i, seen) + mode_events(next, 0),
    decreases buf.len() - i,
{
    let all = buf + next;
    if i == buf.len() {
        lemma_all_new(all, i, seen);
        lemma_events_suffix(buf, next, 0);
        assert(new_events(buf, i, seen) + mode_events(next, 0) =~= mode_events(next, 0));
    } else {
        let s = buf.skip(i);
        let t = all.skip(i);
        assert(t =~= s + next);
        if mode_unfinished(s) {
            let n = s.len() as int;
            assert(t[n] == ESC);
            assert(forall|j: int| 0 <= j < n ==> t[j] == s[j]);
            if starts_mode(s) {
                lemma_params_len(s.skip(3));
                assert(t.skip(3) =~= s.skip(3) + next);
                assert(forall|j: int| 0 <= j < n - 3 ==> t.skip(3)[j] == s.skip(3)[j]);
                assert(t.skip(3)[n - 3] == ESC);
                lemma_params_len_unique(t.skip(3), (n - 3) as nat);
            }
            assert(mode_event(t) is None);
            assert(mode_event(s) is None);
        } else {
            lemma_event_extend(s, next);
        }
        lemma_esc_breaks_off_after(buf, next, i + 1, seen);
        assert(new_events(all, i, seen) =~= new_events(buf, i, seen) + mode_events(next, 0));
    }
}

/// One switch at the end of a stream, of which the first `seen` bytes or fewer had
/// already been scanned.
proof fn lemma_switch_at_end(
    m: TerminalModes,
    before: Seq<u8>,
    seen: int,
    digits: Seq<u8>,
    enabled: bool,
)
    requires
        0 <= seen <= before.len(),
        digits.len() > 0,
        forall|i: int| 0 <= i < digits.len() ==> ascii::is_digit(#[trigger] digits[i]),
    ensures
        scanned_after(m, before + mode_sequence(digits, enabled), seen) == scanned_after(
            m,
            before,
            seen,
        ).with_mode(decimal::capped_value(digits), enabled),
{
    let s = mode_sequence(digits, enabled);
    lemma_mode_sequence_events(digits, enabled);
    lemma_esc_breaks_off_after(before, s, 0, seen);
    lemma_run_concat(m, new_events(before, 0, seen), mode_events(s, 0));
    lemma_run_one_switch(
        scanned_after(m, before, seen),
        decimal::capped_value(digits),
        enabled,
    );
}

/// A switch whose number has four digits.
proof fn lemma_four_digit_switch(
    m: TerminalModes,
    before: Seq<u8>,
    seen: int,
    a: u8,
    b: u8,
    c: u8,
    d: u8,
    end: u8,
)
    requires
        0 <= seen <= before.len(),
        ascii::is_digit(a),
        ascii::is_digit(b),
        ascii::is_digit(c),
        ascii::is_digit(d),
        end == LOWER_H || end == LOWER_L,
    ensures
        scanned_after(m, before + seq![0x1bu8, 0x5b, 0x3f, a, b, c, d, end], seen)
            == scanned_after(m, before, seen).with_mode(
            ((a - 0x30) * 1000 + (b - 0x30) * 100 + (c - 0x30) * 10 + (d - 0x30)) as u32,
            end == LOWER_H,
        ),
{
    let digits = seq![a, b, c, d];
    decimal::lemma_four_digits(a, b, c, d);
    lemma_switch_at_end(m, before, seen, digits, end == LOWER_H);
    assert(mode_sequence(digits, end == LOWER_H) =~= seq![0x1bu8, 0x5b, 0x3f, a, b, c, d, end]);
}

/// A switch whose number has two digits.
proof fn lemma_two_digit_switch(
    m: TerminalModes,
    before: Seq<u8>,
    seen: int,
    a: u8,
    b: u8,
    end: u8,
)
    requires
        0 <= seen <= before.len(),
        ascii::is_digit(a),
        ascii::is_digit(b),
        end == LOWER_H || end == LOWER_L,
    ensures
        scanned_after(m, before + seq![0x1bu8, 0x5b, 0x3f, a, b, end], seen) == scanned_after(
            m,
            before,
            seen,
        ).with_mode(((a - 0x30) * 10 + (b - 0x30)) as u32, end == LOWER_H),
{
    let digits = seq![a, b];
    decimal::lemma_two_digits(a, b);
    lemma_switch_at_end(m, before, seen, digits, end == LOWER_H);
    assert(mode_sequence(digits, end == LOWER_H) =~= seq![0x1bu8, 0x5b, 0x3f, a, b, end]);
}

/// After a stream that ends in `ESC [ ? n h` the alternate screen is shown, and
/// after one that ends in `ESC [ ? n l` it is not, for 47, 1047 and 1049 alike and
/// whatever came before. Entering it forgets where the input line begins; leaving
/// it does not. No other mode changes.
pub proof fn law_alternate_screen_is_the_last_switch(m: TerminalModes, before: Seq<u8>, seen: int)
    requires
        0 <= seen <= before.len(),
    ensures
        ({
            let was = scanned_after(m, before, seen);
            let entered = TerminalModes { alternate_screen: true, input_anchor: None, ..was };
            let left = TerminalModes { alternate_screen: false, ..was };
            &&& scanned_after(m, before + seq![0x1bu8, 0x5b, 0x3f, 0x34, 0x37, 0x68], seen)
                == entered
            &&& scanned_after(m, before + seq![0x1bu8, 0x5b, 0x3f, 0x34, 0x37, 0x6c], seen) == left
            &&& scanned_after(
                m,
                before + seq![0x1bu8, 0x5b, 0x3f, 0x31, 0x30, 0x34, 0x37, 0x68],
                seen,
            ) == entered
            &&& scanned_after(
                m,
                before + seq![0x1bu8, 0x5b, 0x3f, 0x31, 0x30, 0x34, 0x37, 0x6c],
                seen,
            ) == left
            &&& scanned_after(
                m,
                before + seq![0x1bu8, 0x5b, 0x3f, 0x31, 0x30, 0x34, 0x39, 0x68],
                seen,
            ) == entered
            &&& scanned_after(
                m,
                before + seq![0x1bu8, 0x5b, 0x3f, 0x31, 0x30, 0x34, 0x39, 0x6c],
                seen,
            ) == left
        }),
{
    lemma_two_digit_switch(m, before, seen, 0x34, 0x37, 0x68);
    lemma_two_digit_switch(m, before, seen, 0x34, 0x37, 0x6c);
    lemma_four_digit_switch(m, before, seen, 0x31, 0x30, 0x34, 0x37, 0x68);
    lemma_four_digit_switch(m, before, seen, 0x31, 0x30, 0x34, 0x37, 0x6c);
    lemma_four_digit_switch(m, before, seen, 0x31, 0x30, 0x34, 0x39, 0x68);
    lemma_four_digit_switch(m, before, seen, 0x31, 0x30, 0x34, 0x39, 0x6c);
}

/// `ESC [ ? 1 h` makes the cursor keys send their application form, and
/// `ESC [ ? 1 l` their usual one, whatever came before; no other mode changes.
pub proof fn law_switch_cursor_keys(m: TerminalModes, before: Seq<u8>, seen: int)
    requires
        0 <= seen <= before.len(),
    ensures
        scanned_after(m, before + seq![0x1bu8, 0x5b, 0x3f, 0x31, 0x68], seen) == (
        TerminalModes { application_cursor_keys: true, ..scanned_after(m, before, seen) }),
        scanned_after(m, before + seq![0x1bu8, 0x5b, 0x3f, 0x31, 0x6c], seen) == (
        TerminalModes { application_cursor_keys: false, ..scanned_after(m, before, seen) }),
{
    let digits = seq![0x31u8];
    decimal::lemma_one_digit(0x31);
    lemma_switch_at_end(m, before, seen, digits, true);
    lemma_switch_at_end(m, before, seen, digits, false);
    assert(mode_sequence(digits, true) =~= seq![0x1bu8, 0x5b, 0x3f, 0x31, 0x68]);
    assert(mode_sequence(digits, false) =~= seq![0x1bu8, 0x5b, 0x3f, 0x31, 0x6c]);
}

/// `ESC [ ? 25 h` shows the cursor and `ESC [ ? 25 l` hides it, whatever came
/// before; no other mode changes.
pub proof fn law_switch_cursor_visible(m: TerminalModes, before: Seq<u8>, seen: int)
    requires
        0 <= seen <= before.len(),
    ensures
        scanned_after(m, before + seq![0x1bu8, 0x5b, 0x3f, 0x32, 0x35, 0x68], seen) == (
        TerminalModes { cursor_visible: true, ..scanned_after(m, before, seen) }),
        scanned_after(m, before + seq![0x1bu8, 0x5b, 0x3f, 0x32, 0x35, 0x6c], seen) == (
        TerminalModes { cursor_visible: false, ..scanned_after(m, before, seen) }),
{
    lemma_two_digit_switch(m, before, seen, 0x32, 0x35, 0x68);
    lemma_two_digit_switch(m, before, seen, 0x32, 0x35, 0x6c);
}

/// `ESC [ ? 1000 h` turns reports of mouse buttons on and `ESC [ ? 1000 l` turns
/// them off, whatever came before; no other mode changes.
pub proof fn law_switch_mouse_x10(m: TerminalModes, before: Seq<u8>, seen: int)
    requires
        0 <= seen <= before.len(),
    ensures
        scanned_after(m, before + seq![0x1bu8, 0x5b, 0x3f, 0x31, 0x30, 0x30, 0x30, 0x68], seen) == (
        TerminalModes { mouse_x10: true, ..scanned_after(m, before, seen) }),
        scanned_after(m, before + seq![0x1bu8, 0x5b, 0x3f, 0x31, 0x30, 0x30, 0x30, 0x6c], seen) == (
        TerminalModes { mouse_x10: false, ..scanned_after(m, before, seen) }),
{
    lemma_four_digit_switch(m, before, seen, 0x31, 0x30, 0x30, 0x30, 0x68);
    lemma_four_digit_switch(m, before, seen, 0x31, 0x30, 0x30, 0x30, 0x6c);
}

/// `ESC [ ? 1002 h` turns reports of drags on and `ESC [ ? 1002 l` turns them off,
/// whatever came before; no other mode changes.
pub proof fn law_switch_mouse_button_event(m: TerminalModes, before: Seq<u8>, seen: int)
    requires
        0 <= seen <= before.len(),
    ensures
        scanned_after(m, before + seq![0x1bu8, 0x5b, 0x3f, 0x31, 0x30, 0x30, 0x32, 0x68], seen) == (
        TerminalModes { mouse_button_event: true, ..scanned_after(m, before, seen) }),
        scanned_after(m, before + seq![0x1bu8, 0x5b, 0x3f, 0x31, 0x30, 0x30, 0x32, 0x6c], seen) == (
        TerminalModes { mouse_button_event: false, ..scanned_after(m, before, seen) }),
{
    lemma_four_digit_switch(m, before, seen, 0x31, 0x30, 0x30, 0x32, 0x68);
    lemma_four_digit_switch(m, before, seen, 0x31, 0x30, 0x30, 0x32, 0x6c);
}

/// `ESC [ ? 1003 h` turns reports of all motion on and `ESC [ ? 1003 l` turns them
/// off, whatever came before; no other mode changes.
pub proof fn law_switch_mouse_any_event(m: TerminalModes, before: Seq<u8>, seen: int)
    requires
        0 <= seen <= before.len(),
    ensures
        scanned_after(m, before + seq![0x1bu8, 0x5b, 0x3f, 0x31, 0x30, 0x30, 0x33, 0x68], seen) == (
        TerminalModes { mouse_any_event: true, ..scanned_after(m, before, seen) }),
        scanned_after(m, before + seq![0x1bu8, 0x5b, 0x3f, 0x31, 0x30, 0x30, 0x33, 0x6c], seen) == (
        TerminalModes { mouse_any_event: false, ..scanned_after(m, before, seen) }),
{
    lemma_four_digit_switch(m, before, seen, 0x31, 0x30, 0x30, 0x33, 0x68);
    lemma_four_digit_switch(m, before, seen, 0x31, 0x30, 0x30, 0x33, 0x6c);
}

/// `ESC [ ? 1006 h` turns the SGR form of mouse reports on and `ESC [ ? 1006 l`
/// turns it off, whatever came before; no other mode changes.
pub proof fn law_switch_mouse_sgr(m: TerminalModes, before: Seq<u8>, seen: int)
    requires
        0 <= seen <= before.len(),
    ensures
        scanned_after(m, before + seq![0x1bu8, 0x5b, 0x3f, 0x31, 0x30, 0x30, 0x36, 0x68], seen) == (
        TerminalModes { mouse_sgr: true, ..scanned_after(m, before, seen) }),
        scanned_after(m, before + seq![0x1bu8, 0x5b, 0x3f, 0x31, 0x30, 0x30, 0x36, 0x6c], seen) == (
        TerminalModes { mouse_sgr: false, ..scanned_after(m, before, seen) }),
{
    lemma_four_digit_switch(m, before, seen, 0x31, 0x30, 0x30, 0x36, 0x68);
    lemma_four_digit_switch(m, before, seen, 0x31, 0x30, 0x30, 0x36, 0x6c);
}

/// `ESC [ ? 1007 h` lets the wheel send cursor keys on the alternate screen and
/// `ESC [ ? 1007 l` does not, whatever came before; no other mode changes.
pub proof fn law_switch_mouse_alternate_scroll(m: TerminalModes, before: Seq<u8>, seen: int)
    requires
        0 <= seen <= before.len(),
    ensures
        scanned_after(m, before + seq![0x1bu8, 0x5b, 0x3f, 0x31, 0x30, 0x30, 0x37, 0x68], seen) == (
        TerminalModes { mouse_alternate_scroll: true, ..scanned_after(m, before, seen) }),
        scanned_after(m, before + seq![0x1bu8, 0x5b, 0x3f, 0x31, 0x30, 0x30, 0x37, 0x6c], seen) == (
        TerminalModes { mouse_alternate_scroll: false, ..scanned_after(m, before, seen) }),
{
    lemma_four_digit_switch(m, before, seen, 0x31, 0x30, 0x30, 0x37, 0x68);
    lemma_four_digit_switch(m, before, seen, 0x31, 0x30, 0x30, 0x37, 0x6c);
}

/// `ESC [ ? 2004 h` turns bracketed paste on and `ESC [ ? 2004 l` turns it off,
/// whatever came before; no other mode changes.
pub proof fn law_switch_bracketed_paste(m: TerminalModes, before: Seq<u8>, seen: int)
    requires
        0 <= seen <= before.len(),
    ensures
        scanned_after(m, before + seq![0x1bu8, 0x5b, 0x3f, 0x32, 0x30, 0x30, 0x34, 0x68], seen) == (
        TerminalModes { bracketed_paste: true, ..scanned_after(m, before, seen) }),
        scanned_after(m, before + seq![0x1bu8, 0x5b, 0x3f, 0x32, 0x30, 0x30, 0x34, 0x6c], seen) == (
        TerminalModes { bracketed_paste: false, ..scanned_after(m, before, seen) }),
{
    lemma_four_digit_switch(m, before, seen, 0x32, 0x30, 0x30, 0x34, 0x68);
    lemma_four_digit_switch(m, before, seen, 0x32, 0x30, 0x30, 0x34, 0x6c);
}

/// `ESC [ ? 2026 h` begins synchronized output and `ESC [ ? 2026 l` ends it,
/// whatever came before; no other mode changes.
pub proof fn law_switch_synchronized_output(m: TerminalModes, before: Seq<u8>, seen: int)
    requires
        0 <= seen <= before.len(),
    ensures
        scanned_after(m, before + seq![0x1bu8, 0x5b, 0x3f, 0x32, 0x30, 0x32, 0x36, 0x68], seen) == (
        TerminalModes { synchronized_output: true, ..scanned_after(m, before, seen) }),
        scanned_after(m, before + seq![0x1bu8, 0x5b, 0x3f, 0x32, 0x30, 0x32, 0x36, 0x6c], seen) == (
        TerminalModes { synchronized_output: false, ..scanned_after(m, before, seen) }),
{
    lemma_four_digit_switch(m, before, seen, 0x32, 0x30, 0x32, 0x36, 0x68);
    lemma_four_digit_switch(m, before, seen, 0x32, 0x30, 0x32, 0x36, 0x6c);
}

/// `ESC [ ? 2031 h` asks to be told of changes of the colour scheme and
/// `ESC [ ? 2031 l` no longer, whatever came before; no other mode changes.
pub proof fn law_switch_report_color_scheme(m: TerminalModes, before: Seq<u8>, seen: int)
    requires
        0 <= seen <= before.len(),
    ensures
        scanned_after(m, before + seq![0x1bu8, 0x5b, 0x3f, 0x32, 0x30, 0x33, 0x31, 0x68], seen) == (
        TerminalModes { report_color_scheme: true, ..scanned_after(m, before, seen) }),
        scanned_after(m, before + seq![0x1bu8, 0x5b, 0x3f, 0x32, 0x30, 0x33, 0x31, 0x6c], seen) == (
        TerminalModes { report_color_scheme: false, ..scanned_after(m, before, seen) }),
{
    lemma_four_digit_switch(m, before, seen, 0x32, 0x30, 0x33, 0x31, 0x68);
    lemma_four_digit_switch(m, before, seen, 0x32, 0x30, 0x33, 0x31, 0x6c);
}

/// A number that names none of the modes changes nothing.
pub proof fn law_other_numbers_change_nothing(
    m: TerminalModes,
    before: Seq<u8>,
    seen: int,
    digits: Seq<u8>,
    end: u8,
)
    requires
        0 <= seen <= before.len(),
        digits.len() > 0,
        forall|i: int| 0 <= i < digits.len() ==> 0x30 <= #[trigger] digits[i] <= 0x39,
        !(set![1nat, 25, 47, 1000, 1002, 1003, 1006, 1007, 1047, 1049, 2004, 2026, 2031]).contains(
            decimal::decimal_value(digits),
        ),
        end == 0x68 || end == 0x6c,
    ensures
        scanned_after(m, before + (seq![0x1bu8, 0x5b, 0x3f] + digits + seq![end]), seen)
            == scanned_after(m, before, seen),
{
    lemma_switch_at_end(m, before, seen, digits, end == 0x68);
    assert(mode_sequence(digits, end == 0x68) =~= seq![0x1bu8, 0x5b, 0x3f] + digits + seq![end]);
}

/// `ESC c` shows the cursor and lets the wheel send cursor keys on the alternate
/// screen; everything else is off, and where the input line begins is forgotten.
pub proof fn law_reset_switches_all_off(m: TerminalModes, before: Seq<u8>, seen: int)
    requires
        0 <= seen <= before.len(),
    ensures
        ({
            let r = scanned_after(m, before + seq![0x1bu8, 0x63], seen);
            &&& r.cursor_visible && r.mouse_alternate_scroll
            &&& !r.bracketed_paste && !r.synchronized_output && !r.alternate_screen
            &&& !r.mouse_x10 && !r.mouse_button_event && !r.mouse_any_event && !r.mouse_sgr
            &&& !r.application_cursor_keys && !r.report_color_scheme
            &&& r.input_anchor is None
            &&& r == TerminalModes::power_on()
        }),
{
    lemma_reset_is_new(m, before, seen);
}

pub proof fn lemma_fields_concat(p: Seq<u8>, q: Seq<u8>)
    ensures
        fields(p + seq![SEMICOLON] + q) == fields(p) + fields(q),
        fields(q).len() > 0,
    decreases q.len(),
{
    let all = p + seq![SEMICOLON] + q;
    if q.len() == 0 {
        assert(all.drop_last() =~= p);
        assert(all.last() == SEMICOLON);
        assert(fields(all) =~= fields(p) + fields(q));
    } else {
        let before = q.drop_last();
        lemma_fields_concat(p, before);
        assert(all.drop_last() =~= p + seq![SEMICOLON] + before);
        assert(all.last() == q.last());
        let cut = fields(p) + fields(before);
        assert(cut.last() == fields(before).last());
        assert(cut.drop_last() =~= fields(p) + fields(before).drop_last());
        assert(fields(all) =~= fields(p) + fields(q));
    }
}

proof fn lemma_numbers_concat(a: Seq<Seq<u8>>, b: Seq<Seq<u8>>)
    ensures
        numbers(a + b) == numbers(a) + numbers(b),
    decreases b.len(),
{
    if b.len() == 0 {
        assert(a + b =~= a);
        assert(numbers(a + b) =~= numbers(a) + numbers(b));
    } else {
        lemma_numbers_concat(a, b.drop_last());
        assert((a + b).drop_last() =~= a + b.drop_last());
        assert((a + b).last() == b.last());
        assert(numbers(a + b) =~= numbers(a) + numbers(b));
    }
}

proof fn lemma_with_modes_concat(m: TerminalModes, a: Seq<u32>, b: Seq<u32>, enabled: bool)
    ensures
        m.with_modes(a + b, enabled) == m.with_modes(a, enabled).with_modes(b, enabled),
    decreases b.len(),
{
    if b.len() == 0 {
        assert(a + b =~= a);
    } else {
        lemma_with_modes_concat(m, a, b.drop_last(), enabled);
        assert((a + b).drop_last() =~= a + b.drop_last());
        assert((a + b).last() == b.last());
    }
}

/// What `ESC [ ? params end` does, for any list of parameters.
proof fn lemma_list_at_end(m: TerminalModes, before: Seq<u8>, seen: int, params: Seq<u8>, end: u8)
    requires
        0 <= seen <= before.len(),
        forall|i: int| 0 <= i < params.len() ==> is_param_byte(#[trigger] params[i]),
        !is_param_byte(end),
        end != ESC,
    ensures
        ({
            let after = scanned_after(
                m,
                before + (seq![0x1bu8, 0x5b, 0x3f] + params + seq![end]),
                seen,
            );
            let was = scanned_after(m, before, seen);
            if end == LOWER_H || end == LOWER_L {
                after == was.with_modes(numbers(fields(params)), end == LOWER_H)
            } else {
                after == was
            }
        }),
{
    let s = seq![0x1bu8, 0x5b, 0x3f] + params + seq![end];
    let n = params.len() as int;
    assert(s.skip(0) =~= s);
    assert(forall|i: int| 0 <= i < n ==> s.skip(3)[i] == params[i]);
    assert(s.skip(3)[n] == end);
    lemma_params_len_unique(s.skip(3), n as nat);
    assert(s.subrange(3, 3 + n) =~= params);
    assert forall|j: int| 1 <= j < s.len() implies #[trigger] s[j] != ESC by {
        if 3 <= j < 3 + n {
            assert(is_param_byte(params[j - 3]));
        }
    }
    lemma_no_events(s, 1, s.len() as int);
    lemma_esc_breaks_off_after(before, s, 0, seen);
    let was = scanned_after(m, before, seen);
    lemma_run_concat(m, new_events(before, 0, seen), mode_events(s, 0));
    if end == LOWER_H || end == LOWER_L {
        let e = ModeEvent::Switch { params: numbers(fields(params)), enabled: end == LOWER_H };
        assert(mode_event(s) == Some(e));
        assert(mode_events(s, 0) =~= seq![e]);
        assert(seq![e].drop_first() =~= Seq::<ModeEvent>::empty());
        assert(run_events(e.apply(was), seq![e].drop_first()) == e.apply(was));
    } else {
        assert(mode_event(s) is None);
        assert(mode_events(s, 0) =~= Seq::<ModeEvent>::empty());
    }
}

/// A list of modes acts as its parts do one after the other: `ESC [ ? p ; q h` is
/// `ESC [ ? p h` followed by `ESC [ ? q h`, and the same with `l`.
pub proof fn law_list_is_one_by_one(
    m: TerminalModes,
    before: Seq<u8>,
    seen: int,
    p: Seq<u8>,
    q: Seq<u8>,
    end: u8,
)
    requires
        0 <= seen <= before.len(),
        forall|i: int| 0 <= i < p.len() ==> 0x30 <= #[trigger] p[i] <= 0x39 || p[i] == 0x3b,
        forall|i: int| 0 <= i < q.len() ==> 0x30 <= #[trigger] q[i] <= 0x39 || q[i] == 0x3b,
        end == 0x68 || end == 0x6c,
    ensures
        scanned_after(
            m,
            before + (seq![0x1bu8, 0x5b, 0x3f] + (p + seq![0x3bu8] + q) + seq![end]),
            seen,
        ) == scanned_after(
            m,
            before + (seq![0x1bu8, 0x5b, 0x3f] + p + seq![end]) + (seq![0x1bu8, 0x5b, 0x3f] + q
                + seq![end]),
            seen,
        ),
{
    let both = p + seq![0x3bu8] + q;
    assert forall|i: int| 0 <= i < both.len() implies is_param_byte(#[trigger] both[i]) by {
        if i < p.len() {
            assert(both[i] == p[i]);
        } else if i > p.len() {
            assert(both[i] == q[i - p.len() - 1]);
        }
    }
    let on = end == 0x68;
    let first = before + (seq![0x1bu8, 0x5b, 0x3f] + p + seq![end]);
    lemma_list_at_end(m, before, seen, both, end);
    lemma_list_at_end(m, before, seen, p, end);
    lemma_list_at_end(m, first, seen, q, end);
    lemma_fields_concat(p, q);
    lemma_numbers_concat(fields(p), fields(q));
    lemma_with_modes_concat(
        scanned_after(m, before, seen),
        numbers(fields(p)),
        numbers(fields(q)),
        on,
    );
}

/// `ESC [ ?` with parameters and an end other than `h` or `l` switches nothing,
/// and neither does an empty list.
pub proof fn law_other_ends_switch_nothing(
    m: TerminalModes,
    before: Seq<u8>,
    seen: int,
    params: Seq<u8>,
    end: u8,
)
    requires
        0 <= seen <= before.len(),
        forall|i: int|
            0 <= i < params.len() ==> 0x30 <= #[trigger] params[i] <= 0x39 || params[i] == 0x3b,
        end != 0x1b && end != 0x3b && !(0x30 <= end <= 0x39),
        (end == 0x68 || end == 0x6c) ==> params.len() == 0,
    ensures
        scanned_after(m, before + (seq![0x1bu8, 0x5b, 0x3f] + params + seq![end]), seen)
            == scanned_after(m, before, seen),
{
    lemma_list_at_end(m, before, seen, params, end);
    if params.len() == 0 {
        let fs = fields(params);
        assert(fs.drop_last() =~= Seq::<Seq<u8>>::empty());
        assert(numbers(fs.drop_last()) =~= Seq::<u32>::empty());
        assert(numbers(fs) =~= Seq::<u32>::empty());
    }
}

/// Only `ESC c` and what begins with `ESC [ ?` can change a mode: a stream without
/// either leaves the modes alone, whatever else it holds.
pub proof fn law_other_sequences_change_nothing(m: TerminalModes, buf: Seq<u8>, seen: int)
    requires
        forall|i: int|
            0 <= i < buf.len() - 1 ==> !(#[trigger] buf[i] == 0x1b && buf[i + 1] == 0x63),
        forall|i: int|
            0 <= i < buf.len() - 2 ==> !(#[trigger] buf[i] == 0x1b && buf[i + 1] == 0x5b && buf[i
                + 2] == 0x3f),
    ensures
        scanned_after(m, buf, seen) == m,
        scanned(m, buf) == m,
{
    lemma_nothing_starts(buf, 0, seen);
}

proof fn lemma_nothing_starts(buf: Seq<u8>, i: int, seen: int)
    requires
        0 <= i <= buf.len(),
        forall|i: int|
            0 <= i < buf.len() - 1 ==> !(#[trigger] buf[i] == 0x1b && buf[i + 1] == 0x63),
        forall|i: int|
            0 <= i < buf.len() - 2 ==> !(#[trigger] buf[i] == 0x1b && buf[i + 1] == 0x5b && buf[i
                + 2] == 0x3f),
    ensures
        new_events(buf, i, seen).len() == 0,
        mode_events(buf, i).len() == 0,
    decreases buf.len() - i,
{
    if i < buf.len() {
        lemma_nothing_starts(buf, i + 1, seen);
        let s = buf.skip(i);
        assert(s[0] == buf[i]);
        assert(s.len() > 1 ==> s[1] == buf[i + 1]);
        assert(s.len() > 2 ==> s[2] == buf[i + 2]);
        assert(mode_event(s) is None);
    }
}

} // verus!
