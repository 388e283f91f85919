//! Queries in the output stream that the terminal, not the shell, must answer,
//! and the answers.
use vstd::prelude::*;
use vstd::utf8::*;
use crate::ascii;
use crate::ascii::{
    BACKSLASH, BEL, CLOSE_BRACKET, ESC, GREATER, LOWER_C, LOWER_N, OPEN_BRACKET, QUESTION,
    SEMICOLON,
};
use crate::config::ColorScheme;
use crate::decimal;
use crate::decimal::{push_decimal, push_digit, push_hex4};
use crate::modes;
use crate::text;
use crate::text::ascii_string;

verus! {

/// A query that starts with `ESC [`.
#[derive(Clone, Copy, Debug, PartialEq, Eq, Structural)]
pub enum TerminalQuery {
    /// `CSI 5 n`.
    DeviceStatus,
    /// `CSI 6 n`.
    CursorPosition,
    /// `CSI ? 996 n`.
    ColorScheme,
    /// `CSI c` or `CSI 0 c`.
    PrimaryDeviceAttributes,
    /// `CSI > c` or `CSI > 0 c`.
    SecondaryDeviceAttributes,
}

/// A query that starts with `ESC ]`: which colour is asked for.
#[derive(Clone, Copy, Debug, PartialEq, Eq, Structural)]
pub enum OscQuery {
    Foreground,
    Background,
    Cursor,
}

impl OscQuery {
    /// The number by which the query goes.
    pub open spec fn number(self) -> u8 {
        match self {
            OscQuery::Foreground => 10,
            OscQuery::Background => 11,
            OscQuery::Cursor => 12,
        }
    }

    /// The query with number `ps`.
    pub open spec fn numbered(ps: u32) -> Option<OscQuery> {
        if ps == 10 {
            Some(OscQuery::Foreground)
        } else if ps == 11 {
            Some(OscQuery::Background)
        } else if ps == 12 {
            Some(OscQuery::Cursor)
        } else {
            None
        }
    }

    /// The query with number `ps`.
    pub fn for_ps(ps: u32) -> (r: Option<OscQuery>)
        ensures
            r == OscQuery::numbered(ps),
    {
        match ps {
            10 => Some(OscQuery::Foreground),
            11 => Some(OscQuery::Background),
            12 => Some(OscQuery::Cursor),
            _ => None,
        }
    }
}

/// How much of a CSI query has been seen.
#[derive(Clone, Copy, Debug, PartialEq, Eq)]
pub enum CsiQueryScanState {
    Idle,
    Esc,
    /// After `ESC [`, before the final byte. `marker` is the private prefix
    /// (`?`, `>`, or 0 for none), `value` the numeric parameter seen last.
    /// `multi` records a `;`: no query takes a parameter list, which keeps an
    /// echoed attributes response from reading as a query.
    Csi { marker: u8, value: u32, saw_digit: bool, multi: bool },
}

impl Default for CsiQueryScanState {
    fn default() -> (s: CsiQueryScanState)
        ensures
            s == CsiQueryScanState::Idle,
    {
        CsiQueryScanState::Idle
    }
}

/// The query that a CSI sequence makes, by its marker, its parameter, whether
/// it has several, and its final byte.
pub open spec fn csi_query_for(marker: u8, value: u32, multi: bool, final_byte: u8) -> Option<
    TerminalQuery,
> {
    let plain_or_private = marker == 0 || marker == QUESTION;
    if multi {
        None
    } else if final_byte == LOWER_N && plain_or_private && value == 5 {
        Some(TerminalQuery::DeviceStatus)
    } else if final_byte == LOWER_N && plain_or_private && value == 6 {
        Some(TerminalQuery::CursorPosition)
    } else if final_byte == LOWER_N && marker == QUESTION && value == 996 {
        Some(TerminalQuery::ColorScheme)
    } else if final_byte == LOWER_C && marker == 0 && value == 0 {
        Some(TerminalQuery::PrimaryDeviceAttributes)
    } else if final_byte == LOWER_C && marker == GREATER && value == 0 {
        Some(TerminalQuery::SecondaryDeviceAttributes)
    } else {
        None
    }
}

impl CsiQueryScanState {
    /// The state after `ESC [`.
    pub open spec fn opened() -> CsiQueryScanState {
        CsiQueryScanState::Csi { marker: 0, value: 0, saw_digit: false, multi: false }
    }

    /// The state after one more byte.
    pub open spec fn next(self, b: u8) -> CsiQueryScanState {
        if b == ESC {
            CsiQueryScanState::Esc
        } else {
            match self {
                CsiQueryScanState::Idle => CsiQueryScanState::Idle,
                CsiQueryScanState::Esc => if b == OPEN_BRACKET {
                    CsiQueryScanState::opened()
                } else {
                    CsiQueryScanState::Idle
                },
                CsiQueryScanState::Csi { marker, value, saw_digit, multi } => {
                    if marker == 0 && !saw_digit && !multi && (b == QUESTION || b == GREATER) {
                        CsiQueryScanState::Csi {
                            marker: b,
                            value: 0,
                            saw_digit: false,
                            multi: false,
                        }
                    } else if ascii::is_digit(b) {
                        CsiQueryScanState::Csi {
                            marker,
                            value: decimal::append_digit(value, b),
                            saw_digit: true,
                            multi,
                        }
                    } else if b == SEMICOLON {
                        CsiQueryScanState::Csi { marker, value: 0, saw_digit: false, multi: true }
                    } else {
                        CsiQueryScanState::Idle
                    }
                },
            }
        }
    }

    /// The query that byte `b` completes.
    pub open spec fn found(self, b: u8) -> Option<TerminalQuery> {
        match self {
            CsiQueryScanState::Csi { marker, value, saw_digit, multi } => if 0x40 <= b <= 0x7e {
                csi_query_for(marker, value, multi, b)
            } else {
                None
            },
            _ => None,
        }
    }

    /// Takes in one byte; returns the query that it completes.
    pub fn advance(&mut self, b: u8) -> (r: Option<TerminalQuery>)
        ensures
            *final(self) == old(self).next(b),
            r == old(self).found(b),
    {
        let (next, matched): (CsiQueryScanState, Option<TerminalQuery>) = match (*self, b) {
            (_, 0x1b) => (CsiQueryScanState::Esc, None),
            (CsiQueryScanState::Esc, 0x5b) => (
                CsiQueryScanState::Csi { marker: 0, value: 0, saw_digit: false, multi: false },
                None,
            ),
            (CsiQueryScanState::Csi { marker: 0, saw_digit: false, multi: false, .. }, 0x3f
            | 0x3e) => (
                CsiQueryScanState::Csi { marker: b, value: 0, saw_digit: false, multi: false },
                None,
            ),
            (CsiQueryScanState::Csi { marker, value, multi, .. }, 0x30..=0x39) => (
                CsiQueryScanState::Csi {
                    marker,
                    value: push_digit(value, b),
                    saw_digit: true,
                    multi,
                },
                None,
            ),
            (CsiQueryScanState::Csi { marker, .. }, 0x3b) => (
                CsiQueryScanState::Csi { marker, value: 0, saw_digit: false, multi: true },
                None,
            ),
            (CsiQueryScanState::Csi { marker, value, multi, .. }, 0x40..=0x7e) => (
                CsiQueryScanState::Idle,
                csi_query(marker, value, multi, b),
            ),
            _ => (CsiQueryScanState::Idle, None),
        };
        *self = next;
        matched
    }
}

/// The query that a CSI sequence makes, by its marker, its parameter, whether
/// it has several, and its final byte.
pub fn csi_query(marker: u8, value: u32, multi: bool, final_byte: u8) -> (r: Option<TerminalQuery>)
    ensures
        r == csi_query_for(marker, value, multi, final_byte),
{
    if multi {
        return None;
    }
    match (final_byte, marker, value) {
        (0x6e, 0 | 0x3f, 5) => Some(TerminalQuery::DeviceStatus),
        (0x6e, 0 | 0x3f, 6) => Some(TerminalQuery::CursorPosition),
        (0x6e, 0x3f, 996) => Some(TerminalQuery::ColorScheme),
        (0x63, 0, 0) => Some(TerminalQuery::PrimaryDeviceAttributes),
        (0x63, 0x3e, 0) => Some(TerminalQuery::SecondaryDeviceAttributes),
        _ => None,
    }
}

/// How much of an OSC query has been seen.
#[derive(Clone, Copy, Debug, PartialEq, Eq)]
pub enum OscQueryScanState {
    Idle,
    Esc,
    Osc,
    Ps { value: u32 },
    AfterSemicolon { ps: u32 },
    Query { ps: u32 },
    StEscape { ps: u32 },
}

impl Default for OscQueryScanState {
    fn default() -> (s: OscQueryScanState)
        ensures
            s == OscQueryScanState::Idle,
    {
        OscQueryScanState::Idle
    }
}

impl OscQueryScanState {
    /// The state after the semicolon behind number `ps`.
    pub open spec fn after_semicolon(ps: u32) -> OscQueryScanState {
        if OscQuery::numbered(ps) is Some {
            OscQueryScanState::AfterSemicolon { ps }
        } else {
            OscQueryScanState::Idle
        }
    }

    /// The state after one more byte.
    pub open spec fn next(self, b: u8) -> OscQueryScanState {
        if b == ESC {
            match self {
                OscQueryScanState::Query { ps } => OscQueryScanState::StEscape { ps },
                _ => OscQueryScanState::Esc,
            }
        } else {
            match self {
                OscQueryScanState::Esc => if b == CLOSE_BRACKET {
                    OscQueryScanState::Osc
                } else {
                    OscQueryScanState::Idle
                },
                OscQueryScanState::Osc => if ascii::is_digit(b) {
                    OscQueryScanState::Ps { value: (b - 0x30) as u32 }
                } else {
                    OscQueryScanState::Idle
                },
                OscQueryScanState::Ps { value } => if ascii::is_digit(b) {
                    OscQueryScanState::Ps { value: decimal::append_digit(value, b) }
                } else if b == SEMICOLON {
                    OscQueryScanState::after_semicolon(value)
                } else {
                    OscQueryScanState::Idle
                },
                OscQueryScanState::AfterSemicolon { ps } => if b == QUESTION {
                    OscQueryScanState::Query { ps }
                } else {
                    OscQueryScanState::Idle
                },
                _ => OscQueryScanState::Idle,
            }
        }
    }

    /// The query that byte `b` completes.
    pub open spec fn found(self, b: u8) -> Option<OscQuery> {
        match self {
            OscQueryScanState::Query { ps } => if b == BEL {
                OscQuery::numbered(ps)
            } else {
                None
            },
            OscQueryScanState::StEscape { ps } => if b == BACKSLASH {
                OscQuery::numbered(ps)
            } else {
                None
            },
            _ => None,
        }
    }

    /// Takes in one byte; returns the query that it completes.
    pub fn advance(&mut self, b: u8) -> (r: Option<OscQuery>)
        ensures
            *final(self) == old(self).next(b),
            r == old(self).found(b),
    {
        let matched = match (*self, b) {
            (OscQueryScanState::Query { ps }, 0x07) => OscQuery::for_ps(ps),
            (OscQueryScanState::StEscape { ps }, 0x5c) => OscQuery::for_ps(ps),
            _ => None,
        };
        *self =
        match (*self, b) {
            (OscQueryScanState::Query { ps }, 0x1b) => OscQueryScanState::StEscape { ps },
            (_, 0x1b) => OscQueryScanState::Esc,
            (OscQueryScanState::Esc, 0x5d) => OscQueryScanState::Osc,
            (OscQueryScanState::Osc, 0x30..=0x39) => OscQueryScanState::Ps {
                value: (b - 0x30) as u32,
            },
            (OscQueryScanState::Ps { value }, 0x30..=0x39) => OscQueryScanState::Ps {
                value: push_digit(value, b),
            },
            (OscQueryScanState::Ps { value }, 0x3b) => value_to_after_semicolon_state(value),
            (OscQueryScanState::AfterSemicolon { ps }, 0x3f) => OscQueryScanState::Query { ps },
            _ => OscQueryScanState::Idle,
        };
        matched
    }
}

/// The state after the semicolon behind number `ps`: only the numbers of
/// queries are followed further.
pub fn value_to_after_semicolon_state(ps: u32) -> (r: OscQueryScanState)
    ensures
        r == OscQueryScanState::after_semicolon(ps),
{
    if OscQuery::for_ps(ps).is_some() {
        OscQueryScanState::AfterSemicolon { ps }
    } else {
        OscQueryScanState::Idle
    }
}

/// What both scanners have seen of the stream.
#[derive(Clone, Copy, Debug, PartialEq, Eq)]
pub struct QueryScanState {
    pub csi: CsiQueryScanState,
    pub osc: OscQueryScanState,
}

/// A query of either kind.
#[derive(Clone, Copy, Debug, PartialEq, Eq, Structural)]
pub enum PtyQuery {
    Csi(TerminalQuery),
    Osc(OscQuery),
}

impl QueryScanState {
    /// Nothing seen yet.
    pub open spec fn idle() -> QueryScanState {
        QueryScanState { csi: CsiQueryScanState::Idle, osc: OscQueryScanState::Idle }
    }

    /// The state after one more byte.
    pub open spec fn next(self, b: u8) -> QueryScanState {
        QueryScanState { csi: self.csi.next(b), osc: self.osc.next(b) }
    }

    /// The state after more bytes.
    pub open spec fn run(self, bytes: Seq<u8>) -> QueryScanState
        decreases bytes.len(),
    {
        if bytes.len() == 0 {
            self
        } else {
            self.run(bytes.drop_last()).next(bytes.last())
        }
    }

    /// Byte `b` completes a query.
    pub open spec fn hit(self, b: u8) -> bool {
        self.csi.found(b) is Some || self.osc.found(b) is Some
    }

    /// The queries that byte `b` completes.
    pub open spec fn hits(self, b: u8) -> Seq<PtyQuery> {
        let csi = match self.csi.found(b) {
            Some(q) => seq![PtyQuery::Csi(q)],
            None => Seq::empty(),
        };
        let osc = match self.osc.found(b) {
            Some(q) => seq![PtyQuery::Osc(q)],
            None => Seq::empty(),
        };
        csi + osc
    }

    /// The queries that a stream completes, in order.
    pub open spec fn queries(self, bytes: Seq<u8>) -> Seq<PtyQuery>
        decreases bytes.len(),
    {
        if bytes.len() == 0 {
            Seq::empty()
        } else {
            self.queries(bytes.drop_last()) + self.run(bytes.drop_last()).hits(bytes.last())
        }
    }

    /// How many bytes of a stream it takes up to and including the first that
    /// completes a query; all of them where none does.
    pub open spec fn first_hit(self, bytes: Seq<u8>) -> int
        decreases bytes.len(),
    {
        if bytes.len() == 0 {
            0
        } else if self.hit(bytes[0]) {
            1
        } else {
            1 + self.next(bytes[0]).first_hit(bytes.drop_first())
        }
    }
}

pub proof fn lemma_run_concat(q: QueryScanState, a: Seq<u8>, b: Seq<u8>)
    ensures
        q.run(a + b) == q.run(a).run(b),
    decreases b.len(),
{
    if b.len() == 0 {
        assert(a + b =~= a);
    } else {
        assert((a + b).drop_last() =~= a + b.drop_last());
        lemma_run_concat(q, a, b.drop_last());
    }
}

/// A query split over two reads is found as if it came in one: the queries of a
/// stream are those of its first part, followed by those that its second part
/// completes from where the first part ended.
pub proof fn law_queries_chunked(q: QueryScanState, a: Seq<u8>, b: Seq<u8>)
    ensures
        q.queries(a + b) == q.queries(a) + q.run(a).queries(b),
        q.run(a + b) == q.run(a).run(b),
    decreases b.len(),
{
    lemma_run_concat(q, a, b);
    if b.len() == 0 {
        assert(a + b =~= a);
        assert(q.queries(a) + Seq::<PtyQuery>::empty() =~= q.queries(a));
    } else {
        let last = b.last();
        let before = b.drop_last();
        assert((a + b).drop_last() =~= a + before);
        law_queries_chunked(q, a, before);
        assert(q.queries(a + b) =~= q.queries(a) + q.run(a).queries(b));
    }
}

/// No byte completes a query of both kinds at once.
pub proof fn law_one_query_at_a_time(q: QueryScanState, b: u8)
    ensures
        q.csi.found(b) is None || q.osc.found(b) is None,
        q.hits(b).len() <= 1,
{
}

/// `ESC` starts over: whatever was half seen before it no longer matters, but
/// for a colour query that `ESC \` may end.
pub proof fn law_esc_restarts(q: QueryScanState)
    ensures
        q.csi.next(ESC) == CsiQueryScanState::Esc,
        !(q.osc is Query) ==> q.osc.next(ESC) == OscQueryScanState::Esc,
        !q.hit(ESC),
{
}

/// The bytes that a CSI sequence with a private marker (0 for none) starts with.
pub open spec fn csi_prefix(marker: u8) -> Seq<u8> {
    if marker == 0 {
        seq![ESC, OPEN_BRACKET]
    } else {
        seq![ESC, OPEN_BRACKET, marker]
    }
}

/// The bytes of a CSI sequence with a private marker (0 for none) and its
/// parameters.
pub open spec fn csi_sequence(marker: u8, params: Seq<u8>, final_byte: u8) -> Seq<u8> {
    csi_prefix(marker) + params + seq![final_byte]
}

/// Every byte is a digit.
pub open spec fn all_digits(s: Seq<u8>) -> bool {
    forall|i: int| 0 <= i < s.len() ==> ascii::is_digit(#[trigger] s[i])
}

/// The bytes of a query that starts with `ESC ]`, by its number.
pub open spec fn osc_sequence(digits: Seq<u8>, bel: bool) -> Seq<u8> {
    seq![ESC, CLOSE_BRACKET] + digits + seq![SEMICOLON, QUESTION] + if bel {
        seq![BEL]
    } else {
        seq![ESC, BACKSLASH]
    }
}

/// The bytes `ESC [`, and a private marker where there is one, complete nothing and
/// open a sequence.
proof fn lemma_csi_prefix(q: QueryScanState, marker: u8)
    requires
        marker == 0 || marker == QUESTION || marker == GREATER,
    ensures
        q.queries(csi_prefix(marker)) == Seq::<PtyQuery>::empty(),
        q.run(csi_prefix(marker)).csi == (CsiQueryScanState::Csi {
            marker,
            value: 0,
            saw_digit: false,
            multi: false,
        }),
        q.run(csi_prefix(marker)).osc == OscQueryScanState::Idle,
{
    lemma_intro_quiet(q, OPEN_BRACKET);
    if marker != 0 {
        let intro = seq![ESC, OPEN_BRACKET];
        lemma_quiet_push(q, intro, marker);
        assert(intro.push(marker) =~= csi_prefix(marker));
    }
}

/// Parameters complete nothing; a semicolon among them makes a list of them.
proof fn lemma_csi_params(q: QueryScanState, marker: u8, params: Seq<u8>)
    requires
        q.csi == (CsiQueryScanState::Csi { marker, value: 0, saw_digit: false, multi: false }),
        q.osc == OscQueryScanState::Idle,
        forall|i: int|
            0 <= i < params.len() ==> ascii::is_digit(#[trigger] params[i]) || params[i]
                == SEMICOLON,
    ensures
        q.run(params).csi matches CsiQueryScanState::Csi { marker: m, value, saw_digit, multi }
            && m == marker && multi == params.contains(SEMICOLON) && (!multi ==> value
            == decimal::capped_value(params)),
        q.run(params).osc == OscQueryScanState::Idle,
        q.queries(params) == Seq::<PtyQuery>::empty(),
    decreases params.len(),
{
    if params.len() > 0 {
        let before = params.drop_last();
        let last = params.last();
        assert forall|i: int| 0 <= i < before.len() implies ascii::is_digit(#[trigger] before[i])
            || before[i] == SEMICOLON by {
            assert(before[i] == params[i]);
        }
        lemma_csi_params(q, marker, before);
        assert(ascii::is_digit(last) || last == SEMICOLON);
        lemma_quiet_push(q, before, last);
        assert(before.push(last) =~= params);
        if ascii::is_digit(last) {
            decimal::lemma_capped_push(before, last);
        }
        if before.contains(SEMICOLON) {
            let i = choose|i: int| 0 <= i < before.len() && before[i] == SEMICOLON;
            assert(params[i] == SEMICOLON);
        } else if last != SEMICOLON {
            assert forall|i: int| 0 <= i < params.len() implies params[i] != SEMICOLON by {
                if i < before.len() {
                    assert(before[i] == params[i]);
                }
            }
        } else {
            assert(params[params.len() - 1] == SEMICOLON);
        }
    }
}

/// A CSI sequence completes the query that its parts make, and leaves nothing half
/// seen.
proof fn lemma_csi_sequence(q: QueryScanState, marker: u8, params: Seq<u8>, final_byte: u8)
    requires
        marker == 0 || marker == QUESTION || marker == GREATER,
        forall|i: int|
            0 <= i < params.len() ==> ascii::is_digit(#[trigger] params[i]) || params[i]
                == SEMICOLON,
        0x40 <= final_byte <= 0x7e,
    ensures
        q.run(csi_sequence(marker, params, final_byte)) == QueryScanState::idle(),
        params.contains(SEMICOLON) ==> q.queries(csi_sequence(marker, params, final_byte))
            == Seq::<PtyQuery>::empty(),
        !params.contains(SEMICOLON) ==> q.queries(csi_sequence(marker, params, final_byte))
            == match csi_query_for(marker, decimal::capped_value(params), false, final_byte) {
            Some(found) => seq![PtyQuery::Csi(found)],
            None => Seq::empty(),
        },
{
    let prefix = csi_prefix(marker);
    let open = prefix + params;
    let all = csi_sequence(marker, params, final_byte);
    lemma_csi_prefix(q, marker);
    lemma_csi_params(q.run(prefix), marker, params);
    law_queries_chunked(q, prefix, params);
    assert(all.drop_last() =~= open);
    assert(q.queries(open) =~= Seq::<PtyQuery>::empty());
    let end = q.run(open).hits(final_byte);
    assert(Seq::<PtyQuery>::empty() + end =~= end);
}

/// Whatever was seen before, a complete CSI query is recognised: the sequence
/// `ESC [ marker digits final` completes the query that its parts make, and no
/// other, and leaves nothing half seen.
pub proof fn law_csi_query_recognised(
    q: QueryScanState,
    marker: u8,
    digits: Seq<u8>,
    final_byte: u8,
)
    requires
        marker == 0 || marker == QUESTION || marker == GREATER,
        all_digits(digits),
        0x40 <= final_byte <= 0x7e,
    ensures
        q.queries(csi_sequence(marker, digits, final_byte)) == match csi_query_for(
            marker,
            decimal::capped_value(digits),
            false,
            final_byte,
        ) {
            Some(found) => seq![PtyQuery::Csi(found)],
            None => Seq::empty(),
        },
        q.run(csi_sequence(marker, digits, final_byte)) == QueryScanState::idle(),
{
    assert(!digits.contains(SEMICOLON)) by {
        assert forall|i: int| 0 <= i < digits.len() implies digits[i] != SEMICOLON by {
            assert(ascii::is_digit(digits[i]));
        }
    }
    lemma_csi_sequence(q, marker, digits, final_byte);
}

/// A CSI sequence with a parameter list is no query, whatever its final byte, and
/// leaves nothing half seen.
pub proof fn law_multi_param_is_no_query(
    q: QueryScanState,
    marker: u8,
    params: Seq<u8>,
    final_byte: u8,
)
    requires
        marker == 0 || marker == QUESTION || marker == GREATER,
        forall|i: int|
            0 <= i < params.len() ==> ascii::is_digit(#[trigger] params[i]) || params[i]
                == SEMICOLON,
        params.contains(SEMICOLON),
        0x40 <= final_byte <= 0x7e,
    ensures
        q.queries(csi_sequence(marker, params, final_byte)) == Seq::<PtyQuery>::empty(),
        q.run(csi_sequence(marker, params, final_byte)) == QueryScanState::idle(),
{
    lemma_csi_sequence(q, marker, params, final_byte);
}

/// The stream ends in the beginning of a CSI sequence with one parameter.
pub open spec fn ends_in_csi(s: Seq<u8>, marker: u8, digits: Seq<u8>) -> bool {
    &&& marker == 0 || marker == QUESTION || marker == GREATER
    &&& all_digits(digits)
    &&& (csi_prefix(marker) + digits).is_suffix_of(s)
}

proof fn lemma_suffix_push(t: Seq<u8>, s: Seq<u8>, b: u8)
    requires
        t.is_suffix_of(s),
    ensures
        t.push(b).is_suffix_of(s.push(b)),
{
    assert(s.push(b).subrange(s.len() - t.len(), s.len() as int + 1) =~= s.subrange(
        s.len() - t.len(),
        s.len() as int,
    ).push(b));
}

/// What the scanner has half seen of a CSI query stands at the end of the stream.
proof fn lemma_csi_half_seen(s: Seq<u8>) -> (digits: Seq<u8>)
    ensures
        QueryScanState::idle().run(s).csi is Esc ==> s.len() > 0 && s.last() == ESC,
        QueryScanState::idle().run(s).csi matches CsiQueryScanState::Csi {
            marker,
            value,
            saw_digit,
            multi,
        } ==> !multi ==> ends_in_csi(s, marker, digits) && value == decimal::capped_value(digits)
            && saw_digit == (digits.len() > 0),
        QueryScanState::idle().run(s).csi matches CsiQueryScanState::Csi { marker, .. } ==> marker
            == 0 || marker == QUESTION || marker == GREATER,
    decreases s.len(),
{
    let none = Seq::<u8>::empty();
    if s.len() == 0 {
        none
    } else {
        let before = s.drop_last();
        let b = s.last();
        let state = QueryScanState::idle().run(before).csi;
        let digits = lemma_csi_half_seen(before);
        assert(s =~= before.push(b));
        match state {
            CsiQueryScanState::Esc => {
                if b == OPEN_BRACKET {
                    assert(s.subrange(s.len() - 2, s.len() as int) =~= csi_prefix(0) + none);
                }
                none
            },
            CsiQueryScanState::Csi { marker, value, saw_digit, multi } => {
                let open = csi_prefix(marker) + digits;
                if multi || b == ESC || b == SEMICOLON {
                    none
                } else if marker == 0 && !saw_digit && (b == QUESTION || b == GREATER) {
                    lemma_suffix_push(open, before, b);
                    assert(open.push(b) =~= csi_prefix(b) + none);
                    none
                } else if ascii::is_digit(b) {
                    let more = digits.push(b);
                    lemma_suffix_push(open, before, b);
                    decimal::lemma_capped_push(digits, b);
                    assert(open.push(b) =~= csi_prefix(marker) + more);
                    more
                } else {
                    none
                }
            },
            _ => none,
        }
    }
}

/// A CSI query is found only where one stands: the byte that completes it ends a
/// sequence `ESC [ marker digits final` that makes just this query.
pub proof fn law_csi_query_stands_there(s: Seq<u8>, b: u8)
    requires
        QueryScanState::idle().run(s).csi.found(b) is Some,
    ensures
        exists|marker: u8, digits: Seq<u8>| #[trigger]
            ends_in_csi(s, marker, digits) && csi_sequence(marker, digits, b).is_suffix_of(
                s.push(b),
            ) && csi_query_for(marker, decimal::capped_value(digits), false, b)
                == QueryScanState::idle().run(s).csi.found(b),
{
    let digits = lemma_csi_half_seen(s);
    if let CsiQueryScanState::Csi { marker, .. } = QueryScanState::idle().run(s).csi {
        let open = csi_prefix(marker) + digits;
        assert(ends_in_csi(s, marker, digits));
        lemma_suffix_push(open, s, b);
        assert(csi_sequence(marker, digits, b) =~= open.push(b));
    }
}

/// The digits of a number make it up.
proof fn lemma_osc_number(q: QueryScanState, digits: Seq<u8>)
    requires
        q.csi == CsiQueryScanState::Idle,
        q.osc == OscQueryScanState::Osc,
        digits.len() > 0,
        all_digits(digits),
    ensures
        q.run(digits).csi == CsiQueryScanState::Idle,
        q.run(digits).osc == (OscQueryScanState::Ps { value: decimal::capped_value(digits) }),
        q.queries(digits) == Seq::<PtyQuery>::empty(),
    decreases digits.len(),
{
    let before = digits.drop_last();
    let last = digits.last();
    assert(ascii::is_digit(last));
    assert(before.push(last) =~= digits);
    decimal::lemma_capped_push(before, last);
    if before.len() > 0 {
        assert forall|i: int| 0 <= i < before.len() implies ascii::is_digit(
            #[trigger] before[i],
        ) by {
            assert(before[i] == digits[i]);
        }
        lemma_osc_number(q, before);
    } else {
        assert(before =~= Seq::<u8>::empty());
        assert(q.run(before) == q);
        assert(q.queries(before) =~= Seq::<PtyQuery>::empty());
        assert(decimal::capped_value(before) == 0);
    }
    lemma_quiet_push(q, before, last);
}

/// The sequence `ESC ] digits ; ?`, ended by `BEL` or by `ESC \`, completes the
/// colour query with that number, however the number is written, and nothing where
/// no colour query has it. It leaves nothing half seen. The one thing it takes is
/// that no earlier colour query is still waiting for its own end.
pub proof fn law_osc_query_recognised(q: QueryScanState, digits: Seq<u8>, bel: bool)
    requires
        !(q.osc is Query),
        digits.len() > 0,
        all_digits(digits),
    ensures
        q.queries(osc_sequence(digits, bel)) == match OscQuery::numbered(
            decimal::capped_value(digits),
        ) {
            Some(query) => seq![PtyQuery::Osc(query)],
            None => Seq::empty(),
        },
        q.run(osc_sequence(digits, bel)) == QueryScanState::idle(),
{
    let intro = seq![ESC, CLOSE_BRACKET];
    lemma_intro_quiet(q, CLOSE_BRACKET);
    lemma_osc_number(q.run(intro), digits);
    law_queries_chunked(q, intro, digits);
    let a = intro + digits;
    assert(q.queries(a) =~= Seq::<PtyQuery>::empty());
    lemma_quiet_push(q, a, SEMICOLON);
    let b = a.push(SEMICOLON);
    lemma_quiet_push(q, b, QUESTION);
    let c = b.push(QUESTION);
    let before = if bel {
        c
    } else {
        lemma_quiet_push(q, c, ESC);
        c.push(ESC)
    };
    let all = osc_sequence(digits, bel);
    assert(all.drop_last() =~= before);
    let end = q.run(before).hits(all.last());
    assert(Seq::<PtyQuery>::empty() + end =~= end);
    assert(end =~= match OscQuery::numbered(decimal::capped_value(digits)) {
        Some(query) => seq![PtyQuery::Osc(query)],
        None => Seq::empty(),
    });
}

/// What the scanner has half seen of a colour query, where its number is written
/// by `digits`.
pub open spec fn osc_half(state: OscQueryScanState, digits: Seq<u8>) -> Seq<u8> {
    let intro = seq![ESC, CLOSE_BRACKET];
    match state {
        OscQueryScanState::Idle => Seq::empty(),
        OscQueryScanState::Esc => seq![ESC],
        OscQueryScanState::Osc => intro,
        OscQueryScanState::Ps { .. } => intro + digits,
        OscQueryScanState::AfterSemicolon { .. } => intro + digits + seq![SEMICOLON],
        OscQueryScanState::Query { .. } => intro + digits + seq![SEMICOLON, QUESTION],
        OscQueryScanState::StEscape { .. } => intro + digits + seq![SEMICOLON, QUESTION, ESC],
    }
}

/// The number that was read is the one that `digits` write.
pub open spec fn osc_number_is(state: OscQueryScanState, digits: Seq<u8>) -> bool {
    match state {
        OscQueryScanState::Ps { value } => digits.len() > 0 && value == decimal::capped_value(
            digits,
        ),
        OscQueryScanState::AfterSemicolon { ps }
        | OscQueryScanState::Query { ps }
        | OscQueryScanState::StEscape { ps } => digits.len() > 0 && ps == decimal::capped_value(
            digits,
        ),
        _ => true,
    }
}

/// What the scanner has half seen of a colour query stands at the end of the
/// stream.
proof fn lemma_osc_half_seen(s: Seq<u8>) -> (digits: Seq<u8>)
    ensures
        all_digits(digits),
        osc_half(QueryScanState::idle().run(s).osc, digits).is_suffix_of(s),
        osc_number_is(QueryScanState::idle().run(s).osc, digits),
    decreases s.len(),
{
    let none = Seq::<u8>::empty();
    if s.len() == 0 {
        assert(s.subrange(0, 0) =~= none);
        none
    } else {
        let before = s.drop_last();
        let b = s.last();
        let state = QueryScanState::idle().run(before).osc;
        let next = state.next(b);
        let digits = lemma_osc_half_seen(before);
        let half = osc_half(state, digits);
        assert(s =~= before.push(b));
        lemma_suffix_push(half, before, b);
        let written = match next {
            OscQueryScanState::Ps { .. } => if state is Osc {
                seq![b]
            } else {
                digits.push(b)
            },
            _ => digits,
        };
        if next is Idle {
            assert(s.subrange(s.len() as int, s.len() as int) =~= none);
        } else if next is Esc {
            assert(s.subrange(s.len() - 1, s.len() as int) =~= seq![ESC]);
        } else {
            assert(half.push(b) =~= osc_half(next, written));
            if next is Ps && state is Ps {
                decimal::lemma_capped_push(digits, b);
            } else if next is Ps {
                decimal::lemma_capped_push(none, b);
                assert(none.push(b) =~= seq![b]);
                assert(decimal::capped_value(none) == 0);
            }
        }
        written
    }
}

/// A colour query is found only where one stands: the byte that completes it ends a
/// sequence `ESC ] digits ; ?` whose number is that of this query.
pub proof fn law_osc_query_stands_there(s: Seq<u8>, b: u8)
    requires
        QueryScanState::idle().run(s).osc.found(b) is Some,
    ensures
        exists|digits: Seq<u8>| #[trigger]
            all_digits(digits) && digits.len() > 0 && osc_sequence(digits, b == BEL).is_suffix_of(
                s.push(b),
            ) && OscQuery::numbered(decimal::capped_value(digits))
                == QueryScanState::idle().run(s).osc.found(b),
{
    let digits = lemma_osc_half_seen(s);
    let half = osc_half(QueryScanState::idle().run(s).osc, digits);
    lemma_suffix_push(half, s, b);
    assert(half.push(b) =~= osc_sequence(digits, b == BEL));
}

/// The first query ends the first segment: before it there is none, and the
/// rest of the stream holds the others.
pub proof fn law_segments_hold_queries(q: QueryScanState, bytes: Seq<u8>)
    requires
        bytes.len() > 0,
    ensures
        1 <= q.first_hit(bytes) <= bytes.len(),
        q.queries(bytes) == q.run(bytes.take(q.first_hit(bytes) - 1)).hits(
            bytes[q.first_hit(bytes) - 1],
        ) + q.run(bytes.take(q.first_hit(bytes))).queries(bytes.skip(q.first_hit(bytes))),
{
    let n = q.first_hit(bytes);
    lemma_first_hit(q, bytes);
    let head = bytes.take(n);
    law_queries_chunked(q, head, bytes.skip(n));
    assert(head + bytes.skip(n) =~= bytes);
    assert(head.drop_last() =~= bytes.take(n - 1));
    let before = bytes.take(n - 1);
    assert forall|i: int| 0 <= i < before.len() implies !(#[trigger] q.run(before.take(i))).hit(
        before[i],
    ) by {
        assert(before.take(i) =~= bytes.take(i));
    }
    lemma_no_queries(q, before);
    assert(Seq::<PtyQuery>::empty() + q.run(bytes.take(n - 1)).hits(bytes[n - 1]) =~= q.run(
        bytes.take(n - 1),
    ).hits(bytes[n - 1]));
}

/// What the first hit means, byte by byte.
pub proof fn lemma_first_hit(q: QueryScanState, bytes: Seq<u8>)
    requires
        bytes.len() > 0,
    ensures
        1 <= q.first_hit(bytes) <= bytes.len(),
        forall|i: int|
            0 <= i < q.first_hit(bytes) - 1 ==> !(#[trigger] q.run(bytes.take(i))).hit(bytes[i]),
        q.first_hit(bytes) < bytes.len() ==> q.run(bytes.take(q.first_hit(bytes) - 1)).hit(
            bytes[q.first_hit(bytes) - 1],
        ),
    decreases bytes.len(),
{
    assert(bytes.take(0) =~= Seq::<u8>::empty());
    if !q.hit(bytes[0]) && bytes.len() > 1 {
        let rest = bytes.drop_first();
        let q1 = q.next(bytes[0]);
        lemma_first_hit(q1, rest);
        assert forall|i: int| 0 < i < bytes.len() implies #[trigger] q.run(bytes.take(i)) == q1.run(
            rest.take(i - 1),
        ) by {
            let one = seq![bytes[0]];
            assert(one.drop_last() =~= Seq::<u8>::empty());
            assert(q.run(Seq::<u8>::empty()) == q);
            assert(bytes.take(i) =~= one + rest.take(i - 1));
            lemma_run_concat(q, one, rest.take(i - 1));
        }
        assert forall|i: int| 0 <= i < q.first_hit(bytes) - 1 implies !(#[trigger] q.run(
            bytes.take(i),
        )).hit(bytes[i]) by {
            if i > 0 {
                assert(!q1.run(rest.take(i - 1)).hit(rest[i - 1]));
            }
        }
    } else if bytes.len() == 1 && !q.hit(bytes[0]) {
        assert(q.next(bytes[0]).first_hit(bytes.drop_first()) == 0);
    }
}

proof fn lemma_no_queries(q: QueryScanState, bytes: Seq<u8>)
    requires
        forall|i: int| 0 <= i < bytes.len() ==> !(#[trigger] q.run(bytes.take(i))).hit(bytes[i]),
    ensures
        q.queries(bytes) == Seq::<PtyQuery>::empty(),
    decreases bytes.len(),
{
    if bytes.len() > 0 {
        let before = bytes.drop_last();
        assert forall|i: int| 0 <= i < before.len() implies !(#[trigger] q.run(
            before.take(i),
        )).hit(before[i]) by {
            assert(before.take(i) =~= bytes.take(i));
        }
        lemma_no_queries(q, before);
        assert(before =~= bytes.take(bytes.len() - 1));
        assert(q.queries(bytes) =~= Seq::<PtyQuery>::empty());
    }
}

/// A colour component as it stands in a reply: 8 bits widened to 16, so that
/// full stays full.
pub open spec fn widened(c: u8) -> u16 {
    (c * 0x0101) as u16
}

/// How a colour stands in a reply: `rgb:rrrr/gggg/bbbb`.
pub open spec fn color_text(r: u8, g: u8, b: u8) -> Seq<u8> {
    seq![0x72u8, 0x67, 0x62, 0x3a] + decimal::hex4(widened(r)) + seq![0x2f] + decimal::hex4(
        widened(g),
    ) + seq![0x2f] + decimal::hex4(widened(b))
}

/// The reply to a colour query: `ESC ] ps ; rgb:rrrr/gggg/bbbb ESC \`.
pub open spec fn color_reply(ps: u8, r: u8, g: u8, b: u8) -> Seq<u8> {
    seq![ESC, CLOSE_BRACKET] + decimal::decimal_digits(ps as nat) + seq![SEMICOLON] + color_text(
        r,
        g,
        b,
    ) + seq![ESC, BACKSLASH]
}

/// A colour is written in printable ASCII.
proof fn lemma_color_text(r: u8, g: u8, b: u8)
    ensures
        color_text(r, g, b).len() == 18,
        color_text(r, g, b)[0] == 0x72,
        forall|i: int| 0 <= i < 18 ==> 0x20 <= #[trigger] color_text(r, g, b)[i] < 0x7f,
{
}

fn push_color_text(out: &mut Vec<u8>, rgb: (u8, u8, u8))
    ensures
        final(out)@ == old(out)@ + color_text(rgb.0, rgb.1, rgb.2),
{
    out.push(0x72);
    out.push(0x67);
    out.push(0x62);
    out.push(0x3a);
    push_hex4(out, rgb.0 as u16 * 0x0101);
    out.push(0x2f);
    push_hex4(out, rgb.1 as u16 * 0x0101);
    out.push(0x2f);
    push_hex4(out, rgb.2 as u16 * 0x0101);
    assert(out@ =~= old(out)@ + color_text(rgb.0, rgb.1, rgb.2));
}

/// The reply to the query with number `ps`, as a string: its bytes are those of
/// the reply.
pub fn osc_color_response(ps: u8, rgb: (u8, u8, u8)) -> (s: String)
    ensures
        encode_utf8(s@) == color_reply(ps, rgb.0, rgb.1, rgb.2),
{
    let mut out: Vec<u8> = vec![ESC, CLOSE_BRACKET];
    push_decimal(&mut out, ps as u32);
    out.push(SEMICOLON);
    push_color_text(&mut out, rgb);
    out.push(ESC);
    out.push(BACKSLASH);
    proof {
        let digits = decimal::decimal_digits(ps as nat);
        let text = color_text(rgb.0, rgb.1, rgb.2);
        let n = digits.len() as int;
        assert(out@ =~= color_reply(ps, rgb.0, rgb.1, rgb.2));
        decimal::lemma_digits_value(ps as nat);
        lemma_color_text(rgb.0, rgb.1, rgb.2);
        assert forall|i: int| 0 <= i < out@.len() implies #[trigger] out@[i] < 0x80 by {
            if 2 <= i < 2 + n {
                assert(ascii::is_digit(digits[i - 2]));
            } else if 3 + n <= i < 3 + n + 18 {
                assert(out@[i] == text[i - 3 - n]);
            }
        }
    }
    ascii_string(out.as_slice())
}

/// The reply to a colour query.
pub fn osc_color_query_response(query: OscQuery, rgb: (u8, u8, u8)) -> (s: String)
    ensures
        encode_utf8(s@) == color_reply(query.number(), rgb.0, rgb.1, rgb.2),
{
    let ps: u8 = match query {
        OscQuery::Foreground => 10,
        OscQuery::Background => 11,
        OscQuery::Cursor => 12,
    };
    osc_color_response(ps, rgb)
}

/// A query that is answered is one that its own number finds.
pub proof fn law_osc_query_number(query: OscQuery)
    ensures
        OscQuery::numbered(query.number() as u32) == Some(query),
{
}

/// The reply to a CSI query. A cursor position is given as (column, row), both
/// 1-based, and reported row first; where it is not known the cursor counts as
/// being in the first cell. The primary attributes say a VT220 with colours.
pub open spec fn csi_reply(
    query: TerminalQuery,
    cursor: Option<(u16, u16)>,
    scheme: ColorScheme,
) -> Seq<u8> {
    match query {
        TerminalQuery::DeviceStatus => seq![ESC, OPEN_BRACKET, 0x30, LOWER_N],
        TerminalQuery::CursorPosition => {
            let (col, row) = match cursor {
                Some(at) => at,
                None => (1u16, 1u16),
            };
            seq![ESC, OPEN_BRACKET] + decimal::decimal_digits(row as nat) + seq![SEMICOLON]
                + decimal::decimal_digits(col as nat) + seq![0x52u8]
        },
        TerminalQuery::ColorScheme => scheme.report_bytes(),
        TerminalQuery::PrimaryDeviceAttributes => seq![
            ESC,
            OPEN_BRACKET,
            QUESTION,
            0x36,
            0x32,
            SEMICOLON,
            0x32,
            0x32,
            LOWER_C,
        ],
        TerminalQuery::SecondaryDeviceAttributes => seq![
            ESC,
            OPEN_BRACKET,
            GREATER,
            0x31,
            SEMICOLON,
            0x31,
            0x30,
            SEMICOLON,
            0x30,
            LOWER_C,
        ],
    }
}

/// The reply to a CSI query.
pub fn csi_query_response(
    query: TerminalQuery,
    cursor: Option<(u16, u16)>,
    scheme: ColorScheme,
) -> (out: Vec<u8>)
    ensures
        out@ == csi_reply(query, cursor, scheme),
{
    let out = match query {
        TerminalQuery::DeviceStatus => vec![ESC, OPEN_BRACKET, 0x30, LOWER_N],
        TerminalQuery::CursorPosition => {
            let (col, row): (u16, u16) = match cursor {
                Some(at) => at,
                None => (1, 1),
            };
            let mut out: Vec<u8> = vec![ESC, OPEN_BRACKET];
            push_decimal(&mut out, row as u32);
            out.push(SEMICOLON);
            push_decimal(&mut out, col as u32);
            out.push(0x52);
            out
        },
        TerminalQuery::ColorScheme => scheme.report(),
        TerminalQuery::PrimaryDeviceAttributes => vec![
            ESC,
            OPEN_BRACKET,
            QUESTION,
            0x36,
            0x32,
            SEMICOLON,
            0x32,
            0x32,
            LOWER_C,
        ],
        TerminalQuery::SecondaryDeviceAttributes => vec![
            ESC,
            OPEN_BRACKET,
            GREATER,
            0x31,
            SEMICOLON,
            0x31,
            0x30,
            SEMICOLON,
            0x30,
            LOWER_C,
        ],
    };
    assert(out@ =~= csi_reply(query, cursor, scheme));
    out
}

proof fn lemma_quiet_push(q: QueryScanState, s: Seq<u8>, b: u8)
    requires
        q.queries(s) == Seq::<PtyQuery>::empty(),
        !q.run(s).hit(b),
    ensures
        q.queries(s.push(b)) == Seq::<PtyQuery>::empty(),
        q.run(s.push(b)) == q.run(s).next(b),
{
    assert(s.push(b).drop_last() =~= s);
    assert(q.queries(s.push(b)) =~= Seq::<PtyQuery>::empty());
}

/// The digits of an OSC number complete no query.
proof fn lemma_osc_digits_quiet(q: QueryScanState, digits: Seq<u8>)
    requires
        q.csi is Idle,
        q.osc is Idle || q.osc is Osc || q.osc is Ps,
        forall|i: int| 0 <= i < digits.len() ==> ascii::is_digit(#[trigger] digits[i]),
    ensures
        q.run(digits).csi is Idle,
        q.run(digits).osc is Idle || q.run(digits).osc is Osc || q.run(digits).osc is Ps,
        q.queries(digits) == Seq::<PtyQuery>::empty(),
    decreases digits.len(),
{
    if digits.len() > 0 {
        let before = digits.drop_last();
        lemma_osc_digits_quiet(q, before);
        assert(ascii::is_digit(digits.last()));
        lemma_quiet_push(q, before, digits.last());
        assert(before.push(digits.last()) =~= digits);
    }
}

/// Outside a sequence only `ESC` begins one, and behind the number of a colour
/// query only a question mark asks.
proof fn lemma_plain_quiet(q: QueryScanState, s: Seq<u8>)
    requires
        q.csi is Idle,
        q.osc is Idle || q.osc is AfterSemicolon,
        s.len() > 0,
        s[0] != QUESTION,
        forall|i: int| 0 <= i < s.len() ==> #[trigger] s[i] != ESC,
    ensures
        q.run(s) == QueryScanState::idle(),
        q.queries(s) == Seq::<PtyQuery>::empty(),
    decreases s.len(),
{
    let before = s.drop_last();
    let last = s.last();
    assert(before.push(last) =~= s);
    assert(last != ESC);
    if before.len() > 0 {
        assert forall|i: int| 0 <= i < before.len() implies #[trigger] before[i] != ESC by {
            assert(before[i] == s[i]);
        }
        lemma_plain_quiet(q, before);
    } else {
        assert(before =~= Seq::<u8>::empty());
        assert(q.run(before) == q);
        assert(q.queries(before) =~= Seq::<PtyQuery>::empty());
    }
    lemma_quiet_push(q, before, last);
}

proof fn lemma_intro_quiet(q: QueryScanState, second: u8)
    requires
        second == OPEN_BRACKET || second == CLOSE_BRACKET,
    ensures
        q.queries(seq![ESC, second]) == Seq::<PtyQuery>::empty(),
        q.run(seq![ESC, second]) == q.next(ESC).next(second),
{
    let none = Seq::<u8>::empty();
    assert(q.run(none) == q);
    assert(q.queries(none) =~= Seq::<PtyQuery>::empty());
    lemma_quiet_push(q, none, ESC);
    lemma_quiet_push(q, none.push(ESC), second);
    assert(none.push(ESC).push(second) =~= seq![ESC, second]);
}

/// A reply that a program echoes back is not taken for a query, and leaves nothing
/// half seen.
pub proof fn law_csi_reply_is_no_query(
    q: QueryScanState,
    query: TerminalQuery,
    cursor: Option<(u16, u16)>,
    scheme: ColorScheme,
)
    ensures
        q.queries(csi_reply(query, cursor, scheme)) == Seq::<PtyQuery>::empty(),
        q.run(csi_reply(query, cursor, scheme)) == QueryScanState::idle(),
{
    let reply = csi_reply(query, cursor, scheme);
    let (marker, params, at): (u8, Seq<u8>, int) = match query {
        TerminalQuery::DeviceStatus => (0, seq![0x30u8], -1),
        TerminalQuery::CursorPosition => {
            let (col, row) = match cursor {
                Some(at) => at,
                None => (1u16, 1u16),
            };
            let rows = decimal::decimal_digits(row as nat);
            let cols = decimal::decimal_digits(col as nat);
            decimal::lemma_digits_value(row as nat);
            decimal::lemma_digits_value(col as nat);
            (0, rows + seq![SEMICOLON] + cols, rows.len() as int)
        },
        TerminalQuery::ColorScheme => {
            let number: u8 = match scheme {
                ColorScheme::Dark => 0x31,
                ColorScheme::Light => 0x32,
            };
            (QUESTION, seq![0x39u8, 0x39, 0x37, SEMICOLON, number], 3)
        },
        TerminalQuery::PrimaryDeviceAttributes => (
            QUESTION,
            seq![0x36u8, 0x32, SEMICOLON, 0x32, 0x32],
            2,
        ),
        TerminalQuery::SecondaryDeviceAttributes => (
            GREATER,
            seq![0x31u8, SEMICOLON, 0x31, 0x30, SEMICOLON, 0x30],
            1,
        ),
    };
    assert(reply =~= csi_sequence(marker, params, reply.last()));
    if query == TerminalQuery::DeviceStatus {
        law_csi_query_recognised(q, marker, params, LOWER_N);
    } else {
        assert(params[at] == SEMICOLON);
        law_multi_param_is_no_query(q, marker, params, reply.last());
    }
}

/// A colour reply that a program echoes back is not taken for a query, and leaves
/// nothing half seen.
pub proof fn law_color_reply_is_no_query(q: QueryScanState, ps: u8, r: u8, g: u8, b: u8)
    ensures
        q.queries(color_reply(ps, r, g, b)) == Seq::<PtyQuery>::empty(),
        q.run(color_reply(ps, r, g, b)) == QueryScanState::idle(),
{
    let intro = seq![ESC, CLOSE_BRACKET];
    let number = decimal::decimal_digits(ps as nat);
    decimal::lemma_digits_value(ps as nat);
    lemma_intro_quiet(q, CLOSE_BRACKET);
    lemma_osc_digits_quiet(q.run(intro), number);
    law_queries_chunked(q, intro, number);
    let head = intro + number;
    lemma_quiet_push(q, head, SEMICOLON);
    let open = head.push(SEMICOLON);
    let text = color_text(r, g, b);
    lemma_color_text(r, g, b);
    lemma_plain_quiet(q.run(open), text);
    law_queries_chunked(q, open, text);
    let all = open + text;
    lemma_quiet_push(q, all, ESC);
    lemma_quiet_push(q, all.push(ESC), BACKSLASH);
    assert(all.push(ESC).push(BACKSLASH) =~= color_reply(ps, r, g, b));
}

/// Which CSI sequences are queries, read from the answer: each query has the one
/// parameter, the final byte and the private markers that are listed here, and no
/// other.
pub proof fn law_csi_queries(marker: u8, value: u32, multi: bool, last: u8)
    ensures
        ({
            let found = csi_query_for(marker, value, multi, last);
            &&& found == Some(TerminalQuery::DeviceStatus) <==> !multi && last == 0x6e && value == 5
                && (marker == 0 || marker == 0x3f)
            &&& found == Some(TerminalQuery::CursorPosition) <==> !multi && last == 0x6e && value
                == 6 && (marker == 0 || marker == 0x3f)
            &&& found == Some(TerminalQuery::ColorScheme) <==> !multi && last == 0x6e && value
                == 996 && marker == 0x3f
            &&& found == Some(TerminalQuery::PrimaryDeviceAttributes) <==> !multi && last == 0x63
                && value == 0 && marker == 0
            &&& found == Some(TerminalQuery::SecondaryDeviceAttributes) <==> !multi && last == 0x63
                && value == 0 && marker == 0x3e
        }),
{
}

proof fn lemma_csi_query_behind(
    q: QueryScanState,
    before: Seq<u8>,
    marker: u8,
    digits: Seq<u8>,
    last: u8,
)
    requires
        marker == 0 || marker == QUESTION || marker == GREATER,
        all_digits(digits),
        0x40 <= last <= 0x7e,
    ensures
        q.queries(before + csi_sequence(marker, digits, last)) == match csi_query_for(
            marker,
            decimal::capped_value(digits),
            false,
            last,
        ) {
            Some(found) => q.queries(before).push(PtyQuery::Csi(found)),
            None => q.queries(before),
        },
{
    law_queries_chunked(q, before, csi_sequence(marker, digits, last));
    law_csi_query_recognised(q.run(before), marker, digits, last);
    let found = csi_query_for(marker, decimal::capped_value(digits), false, last);
    if let Some(f) = found {
        assert(q.queries(before) + seq![PtyQuery::Csi(f)] =~= q.queries(before).push(
            PtyQuery::Csi(f),
        ));
    } else {
        assert(q.queries(before) + Seq::<PtyQuery>::empty() =~= q.queries(before));
    }
}

/// `ESC [ 5 n` and `ESC [ ? 5 n` ask for the device's status, `ESC [ 6 n` and
/// `ESC [ ? 6 n` for the cursor's position, whatever came before.
pub proof fn law_status_queries(q: QueryScanState, before: Seq<u8>)
    ensures
        ({
            let status = q.queries(before).push(PtyQuery::Csi(TerminalQuery::DeviceStatus));
            let position = q.queries(before).push(PtyQuery::Csi(TerminalQuery::CursorPosition));
            &&& q.queries(before + seq![0x1bu8, 0x5b, 0x35, 0x6e]) == status
            &&& q.queries(before + seq![0x1bu8, 0x5b, 0x3f, 0x35, 0x6e]) == status
            &&& q.queries(before + seq![0x1bu8, 0x5b, 0x36, 0x6e]) == position
            &&& q.queries(before + seq![0x1bu8, 0x5b, 0x3f, 0x36, 0x6e]) == position
        }),
{
    decimal::lemma_one_digit(0x35);
    decimal::lemma_one_digit(0x36);
    lemma_csi_query_behind(q, before, 0, seq![0x35u8], 0x6e);
    lemma_csi_query_behind(q, before, 0x3f, seq![0x35u8], 0x6e);
    lemma_csi_query_behind(q, before, 0, seq![0x36u8], 0x6e);
    lemma_csi_query_behind(q, before, 0x3f, seq![0x36u8], 0x6e);
    assert(csi_sequence(0, seq![0x35u8], 0x6e) =~= seq![0x1bu8, 0x5b, 0x35, 0x6e]);
    assert(csi_sequence(0x3f, seq![0x35u8], 0x6e) =~= seq![0x1bu8, 0x5b, 0x3f, 0x35, 0x6e]);
    assert(csi_sequence(0, seq![0x36u8], 0x6e) =~= seq![0x1bu8, 0x5b, 0x36, 0x6e]);
    assert(csi_sequence(0x3f, seq![0x36u8], 0x6e) =~= seq![0x1bu8, 0x5b, 0x3f, 0x36, 0x6e]);
}

/// `ESC [ c` and `ESC [ 0 c` ask for the primary attributes, `ESC [ > c` and
/// `ESC [ > 0 c` for the secondary ones, and `ESC [ ? c` for nothing.
pub proof fn law_attribute_queries(q: QueryScanState, before: Seq<u8>)
    ensures
        ({
            let primary = q.queries(before).push(
                PtyQuery::Csi(TerminalQuery::PrimaryDeviceAttributes),
            );
            let secondary = q.queries(before).push(
                PtyQuery::Csi(TerminalQuery::SecondaryDeviceAttributes),
            );
            &&& q.queries(before + seq![0x1bu8, 0x5b, 0x63]) == primary
            &&& q.queries(before + seq![0x1bu8, 0x5b, 0x30, 0x63]) == primary
            &&& q.queries(before + seq![0x1bu8, 0x5b, 0x3e, 0x63]) == secondary
            &&& q.queries(before + seq![0x1bu8, 0x5b, 0x3e, 0x30, 0x63]) == secondary
            &&& q.queries(before + seq![0x1bu8, 0x5b, 0x3f, 0x63]) == q.queries(before)
        }),
{
    let none = Seq::<u8>::empty();
    assert(decimal::decimal_value(none) == 0);
    decimal::lemma_one_digit(0x30);
    lemma_csi_query_behind(q, before, 0, none, 0x63);
    lemma_csi_query_behind(q, before, 0, seq![0x30u8], 0x63);
    lemma_csi_query_behind(q, before, 0x3e, none, 0x63);
    lemma_csi_query_behind(q, before, 0x3e, seq![0x30u8], 0x63);
    lemma_csi_query_behind(q, before, 0x3f, none, 0x63);
    assert(csi_sequence(0, none, 0x63) =~= seq![0x1bu8, 0x5b, 0x63]);
    assert(csi_sequence(0, seq![0x30u8], 0x63) =~= seq![0x1bu8, 0x5b, 0x30, 0x63]);
    assert(csi_sequence(0x3e, none, 0x63) =~= seq![0x1bu8, 0x5b, 0x3e, 0x63]);
    assert(csi_sequence(0x3e, seq![0x30u8], 0x63) =~= seq![0x1bu8, 0x5b, 0x3e, 0x30, 0x63]);
    assert(csi_sequence(0x3f, none, 0x63) =~= seq![0x1bu8, 0x5b, 0x3f, 0x63]);
}

/// `ESC [ ? 996 n` asks for the colour scheme; without the `?` it asks for nothing.
pub proof fn law_color_scheme_query(q: QueryScanState, before: Seq<u8>)
    ensures
        q.queries(before + seq![0x1bu8, 0x5b, 0x3f, 0x39, 0x39, 0x36, 0x6e]) == q.queries(
            before,
        ).push(PtyQuery::Csi(TerminalQuery::ColorScheme)),
        q.queries(before + seq![0x1bu8, 0x5b, 0x39, 0x39, 0x36, 0x6e]) == q.queries(before),
{
    let digits = seq![0x39u8, 0x39, 0x36];
    decimal::lemma_two_digits(0x39, 0x39);
    assert(digits.drop_last() =~= seq![0x39u8, 0x39]);
    assert(decimal::decimal_value(digits) == 996);
    lemma_csi_query_behind(q, before, 0x3f, digits, 0x6e);
    lemma_csi_query_behind(q, before, 0, digits, 0x6e);
    assert(csi_sequence(0x3f, digits, 0x6e) =~= seq![
        0x1bu8,
        0x5b,
        0x3f,
        0x39,
        0x39,
        0x36,
        0x6e,
    ]);
    assert(csi_sequence(0, digits, 0x6e) =~= seq![0x1bu8, 0x5b, 0x39, 0x39, 0x36, 0x6e]);
}

/// `ESC ] 10 ; ?` asks for the foreground colour, 11 for the background and 12 for
/// the cursor's colour, ended by `BEL` or by `ESC \`; the reply goes by the same
/// number. Other numbers ask for nothing.
pub proof fn law_color_queries(q: QueryScanState, digits: Seq<u8>, end: Seq<u8>)
    requires
        !(q.osc is Query),
        digits.len() > 0,
        forall|i: int| 0 <= i < digits.len() ==> 0x30 <= #[trigger] digits[i] <= 0x39,
        end == seq![0x07u8] || end == seq![0x1bu8, 0x5c],
    ensures
        ({
            let asked = q.queries(
                seq![0x1bu8, 0x5d] + digits + seq![0x3bu8, 0x3f] + end,
            );
            let number = decimal::decimal_value(digits);
            &&& number == 10 ==> asked == seq![PtyQuery::Osc(OscQuery::Foreground)]
            &&& number == 11 ==> asked == seq![PtyQuery::Osc(OscQuery::Background)]
            &&& number == 12 ==> asked == seq![PtyQuery::Osc(OscQuery::Cursor)]
            &&& number < 10 || number > 12 ==> asked == Seq::<PtyQuery>::empty()
        }),
        OscQuery::Foreground.number() == 10,
        OscQuery::Background.number() == 11,
        OscQuery::Cursor.number() == 12,
{
    let bel = end == seq![0x07u8];
    assert(seq![0x07u8].len() != seq![0x1bu8, 0x5c].len());
    law_osc_query_recognised(q, digits, bel);
    assert(osc_sequence(digits, bel) =~= seq![0x1bu8, 0x5d] + digits + seq![0x3bu8, 0x3f] + end);
}

/// The device reports that it is well, and says what it is: a VT220 with colours,
/// and version 10 of terminal type 1.
pub proof fn law_fixed_replies(cursor: Option<(u16, u16)>, scheme: ColorScheme)
    ensures
        csi_reply(TerminalQuery::DeviceStatus, cursor, scheme) == seq![0x1bu8, 0x5b, 0x30, 0x6e],
        csi_reply(TerminalQuery::PrimaryDeviceAttributes, cursor, scheme) == seq![
            0x1bu8,
            0x5b,
            0x3f,
            0x36,
            0x32,
            0x3b,
            0x32,
            0x32,
            0x63,
        ],
        csi_reply(TerminalQuery::SecondaryDeviceAttributes, cursor, scheme) == seq![
            0x1bu8,
            0x5b,
            0x3e,
            0x31,
            0x3b,
            0x31,
            0x30,
            0x3b,
            0x30,
            0x63,
        ],
        csi_reply(TerminalQuery::ColorScheme, cursor, ColorScheme::Dark) == seq![
            0x1bu8,
            0x5b,
            0x3f,
            0x39,
            0x39,
            0x37,
            0x3b,
            0x31,
            0x6e,
        ],
        csi_reply(TerminalQuery::ColorScheme, cursor, ColorScheme::Light) == seq![
            0x1bu8,
            0x5b,
            0x3f,
            0x39,
            0x39,
            0x37,
            0x3b,
            0x32,
            0x6e,
        ],
{
}

/// The cursor's position reads back from its report, the row first and then the
/// column; an unknown position reads as the first cell.
pub proof fn law_position_reads_back(cursor: Option<(u16, u16)>, scheme: ColorScheme)
    ensures
        ({
            let reply = csi_reply(TerminalQuery::CursorPosition, cursor, scheme);
            let n = reply.len() as int;
            let numbers = modes::fields(reply.subrange(2, n - 1));
            &&& n > 3
            &&& reply[0] == 0x1b && reply[1] == 0x5b && reply[n - 1] == 0x52
            &&& numbers.len() == 2
            &&& cursor matches Some((col, row)) ==> decimal::decimal_value(numbers[0]) == row
                && decimal::decimal_value(numbers[1]) == col
            &&& cursor is None ==> decimal::decimal_value(numbers[0]) == 1
                && decimal::decimal_value(numbers[1]) == 1
        }),
{
    let (col, row) = match cursor {
        Some(at) => at,
        None => (1u16, 1u16),
    };
    let a = decimal::decimal_digits(row as nat);
    let b = decimal::decimal_digits(col as nat);
    decimal::lemma_digits_value(row as nat);
    decimal::lemma_digits_value(col as nat);
    let reply = csi_reply(TerminalQuery::CursorPosition, cursor, scheme);
    let n = reply.len() as int;
    assert(reply.subrange(2, n - 1) =~= a + seq![SEMICOLON] + b);
    modes::lemma_digits_one_field(a);
    modes::lemma_digits_one_field(b);
    modes::lemma_fields_concat(a, b);
    assert(modes::fields(reply.subrange(2, n - 1)) =~= seq![a, b]);
}

/// A colour reads back from its report, `rgb:` and red, green and blue with slashes
/// between them: four hexadecimal digits each, of which the first two write the
/// component and the last two repeat them.
pub proof fn law_color_reads_back(r: u8, g: u8, b: u8)
    ensures
        ({
            let t = color_text(r, g, b);
            &&& t.len() == 18
            &&& t[0] == 0x72 && t[1] == 0x67 && t[2] == 0x62 && t[3] == 0x3a
            &&& t[8] == 0x2f && t[13] == 0x2f
            &&& decimal::hex_value(t[4]) * 16 + decimal::hex_value(t[5]) == r
            &&& decimal::hex_value(t[9]) * 16 + decimal::hex_value(t[10]) == g
            &&& decimal::hex_value(t[14]) * 16 + decimal::hex_value(t[15]) == b
            &&& t[6] == t[4] && t[7] == t[5]
            &&& t[11] == t[9] && t[12] == t[10]
            &&& t[16] == t[14] && t[17] == t[15]
        }),
{
    decimal::lemma_doubled_hex4(r);
    decimal::lemma_doubled_hex4(g);
    decimal::lemma_doubled_hex4(b);
}

/// A colour report is `ESC ]`, the query's number, a semicolon, the colour, and
/// `ESC \`.
pub proof fn law_color_reply_parts(ps: u8, r: u8, g: u8, b: u8)
    ensures
        ({
            let reply = color_reply(ps, r, g, b);
            let k = reply.len() - 20;
            &&& k > 3
            &&& reply[0] == 0x1b && reply[1] == 0x5d && reply[k - 1] == 0x3b
            &&& decimal::decimal_value(reply.subrange(2, k - 1)) == ps
            &&& reply.subrange(k, k + 18) == color_text(r, g, b)
            &&& reply[k + 18] == 0x1b && reply[k + 19] == 0x5c
        }),
{
    lemma_color_text(r, g, b);
    decimal::lemma_digits_value(ps as nat);
    let reply = color_reply(ps, r, g, b);
    let k = reply.len() - 20;
    assert(reply.subrange(2, k - 1) =~= decimal::decimal_digits(ps as nat));
    assert(reply.subrange(k, k + 18) =~= color_text(r, g, b));
}

/// A colour query that waits for its end takes `BEL` or `ESC \` and nothing else: any
/// other byte drops it, and so does `ESC` with any other byte behind it, which begins
/// nothing itself unless it is another `ESC`.
pub proof fn law_color_query_takes_its_end_only(ps: u32, b: u8)
    ensures
        ({
            let waiting = OscQueryScanState::Query { ps };
            let escaped = waiting.next(0x1b);
            &&& waiting.found(b) is Some ==> b == 0x07
            &&& waiting.found(0x1b) is None
            &&& b != 0x1b ==> waiting.next(b) is Idle
            &&& escaped.found(b) is Some ==> b == 0x5c
            &&& b != 0x1b ==> escaped.next(b) is Idle
            &&& escaped.next(0x1b) is Esc
        }),
{
}

} // verus!
