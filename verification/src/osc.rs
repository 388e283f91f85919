//! The operating system commands in the output stream that the terminal acts
//! on: window titles and clipboard writes.
//!
//! A command is `ESC ] Ps ; text`, ended by `BEL` or by `ESC \`. Numbers 0 and
//! 2 set the title, number 52 writes the clipboard.
use vstd::prelude::*;
use crate::ascii;
use crate::ascii::{digit, BACKSLASH, BEL, CLOSE_BRACKET, ESC, SEMICOLON};
use crate::decimal;
use crate::decimal::push_digit;

verus! {

/// A complete command: its number and its text.
pub struct OscItem {
    pub ps: u32,
    pub payload: Seq<u8>,
}

/// How many digits `s` starts with.
pub open spec fn digits_len(s: Seq<u8>) -> nat
    decreases s.len(),
{
    if s.len() > 0 && ascii::is_digit(s[0]) {
        1 + digits_len(s.drop_first())
    } else {
        0
    }
}

/// `s` starts with `ESC ]`.
pub open spec fn starts_osc(s: Seq<u8>) -> bool {
    s.len() >= 2 && s[0] == ESC && s[1] == CLOSE_BRACKET
}

/// Where the number of a command ends.
pub open spec fn number_end(s: Seq<u8>) -> int {
    2 + digits_len(s.skip(2)) as int
}

/// Where the text of a command starts: after its number, and after the
/// semicolon where there is one.
pub open spec fn payload_start(s: Seq<u8>) -> int {
    let n = number_end(s);
    if n < s.len() && s[n] == SEMICOLON {
        n + 1
    } else {
        n
    }
}

/// `s` starts with a command whose number is there and whose text has begun.
pub open spec fn opens_osc(s: Seq<u8>) -> bool {
    starts_osc(s) && number_end(s) > 2 && payload_start(s) < s.len()
}

/// The text of a command ends at `t`.
pub open spec fn ends_at(s: Seq<u8>, t: int) -> bool {
    s[t] == BEL || (s[t] == ESC && t + 1 < s.len() && s[t + 1] == BACKSLASH)
}

/// The first end of text at or after `k`; the length of `s` if there is none.
pub open spec fn terminator(s: Seq<u8>, k: int) -> int
    decreases s.len() - k,
{
    if k < 0 || k >= s.len() {
        s.len() as int
    } else if ends_at(s, k) {
        k
    } else {
        terminator(s, k + 1)
    }
}

/// Where the command that `s` starts with ends its text.
pub open spec fn payload_end(s: Seq<u8>) -> int {
    terminator(s, payload_start(s))
}

/// The command that `s` starts with, if it is complete.
pub open spec fn osc_item(s: Seq<u8>) -> Option<OscItem> {
    if opens_osc(s) && payload_end(s) < s.len() {
        Some(
            OscItem {
                ps: decimal::capped_value(s.subrange(2, number_end(s))),
                payload: s.subrange(payload_start(s), payload_end(s)),
            },
        )
    } else {
        None
    }
}

/// How far the search for the next command moves on: past a complete command,
/// to the end of the stream past one whose text has no end, else by one byte.
pub open spec fn osc_step(s: Seq<u8>) -> int {
    if !opens_osc(s) {
        1
    } else if payload_end(s) >= s.len() {
        s.len() as int
    } else if s[payload_end(s)] == BEL {
        payload_end(s) + 1
    } else {
        payload_end(s) + 2
    }
}

/// The complete commands of a stream, from position `j` on, in order.
pub open spec fn osc_items(buf: Seq<u8>, j: int) -> Seq<OscItem>
    decreases buf.len() - j,
{
    if j < 0 || j >= buf.len() {
        Seq::empty()
    } else {
        let s = buf.skip(j);
        proof {
            lemma_step(s);
        }
        match osc_item(s) {
            Some(item) => seq![item] + osc_items(buf, j + osc_step(s)),
            None => osc_items(buf, j + osc_step(s)),
        }
    }
}

/// Those of the commands from position `j` on that end behind position `seen`: the
/// ones that were not complete yet when the stream was only `seen` bytes long.
pub open spec fn new_items(buf: Seq<u8>, j: int, seen: int) -> Seq<OscItem>
    decreases buf.len() - j,
{
    if j < 0 || j >= buf.len() {
        Seq::empty()
    } else {
        let s = buf.skip(j);
        proof {
            lemma_step(s);
        }
        let next = j + osc_step(s);
        match osc_item(s) {
            Some(item) => if next > seen {
                seq![item] + new_items(buf, next, seen)
            } else {
                new_items(buf, next, seen)
            },
            None => new_items(buf, next, seen),
        }
    }
}

/// The item sets the title.
pub open spec fn is_title(item: OscItem) -> bool {
    item.ps == 0 || item.ps == 2
}

/// The item writes the clipboard.
pub open spec fn is_clipboard(item: OscItem) -> bool {
    item.ps == 52
}

/// The text of the last command that sets the title.
pub open spec fn last_title(items: Seq<OscItem>) -> Option<Seq<u8>>
    decreases items.len(),
{
    if items.len() == 0 {
        None
    } else if is_title(items.last()) {
        Some(items.last().payload)
    } else {
        last_title(items.drop_last())
    }
}

/// The text of the last command that writes the clipboard.
pub open spec fn last_clipboard(items: Seq<OscItem>) -> Option<Seq<u8>>
    decreases items.len(),
{
    if items.len() == 0 {
        None
    } else if is_clipboard(items.last()) {
        Some(items.last().payload)
    } else {
        last_clipboard(items.drop_last())
    }
}

proof fn lemma_digits_len(s: Seq<u8>)
    ensures
        digits_len(s) <= s.len(),
        forall|i: int| 0 <= i < digits_len(s) ==> ascii::is_digit(#[trigger] s[i]),
        digits_len(s) < s.len() ==> !ascii::is_digit(s[digits_len(s) as int]),
    decreases s.len(),
{
    if s.len() > 0 && ascii::is_digit(s[0]) {
        let rest = s.drop_first();
        lemma_digits_len(rest);
        assert forall|i: int| 0 <= i < digits_len(s) implies ascii::is_digit(#[trigger] s[i]) by {
            if i > 0 {
                assert(s[i] == rest[i - 1]);
            }
        }
        if digits_len(s) < s.len() {
            assert(s[digits_len(s) as int] == rest[digits_len(rest) as int]);
        }
    }
}

proof fn lemma_digits_len_unique(s: Seq<u8>, n: nat)
    requires
        n <= s.len(),
        forall|i: int| 0 <= i < n ==> ascii::is_digit(#[trigger] s[i]),
        n < s.len() ==> !ascii::is_digit(s[n as int]),
    ensures
        digits_len(s) == n,
{
    lemma_digits_len(s);
    if digits_len(s) < n {
        assert(ascii::is_digit(s[digits_len(s) as int]));
    } else if n < digits_len(s) {
        assert(ascii::is_digit(s[n as int]));
    }
}

proof fn lemma_terminator(s: Seq<u8>, k: int)
    requires
        0 <= k <= s.len(),
    ensures
        k <= terminator(s, k) <= s.len(),
        terminator(s, k) < s.len() ==> ends_at(s, terminator(s, k)),
        forall|i: int| k <= i < terminator(s, k) ==> !#[trigger] ends_at(s, i),
    decreases s.len() - k,
{
    if k < s.len() && !ends_at(s, k) {
        lemma_terminator(s, k + 1);
    }
}

proof fn lemma_terminator_unique(s: Seq<u8>, k: int, t: int)
    requires
        0 <= k <= t <= s.len(),
        t < s.len() ==> ends_at(s, t),
        forall|i: int| k <= i < t ==> !#[trigger] ends_at(s, i),
    ensures
        terminator(s, k) == t,
    decreases t - k,
{
    if k < t {
        lemma_terminator_unique(s, k + 1, t);
    }
}

/// The search always moves on, and never past the end.
pub proof fn lemma_step(s: Seq<u8>)
    requires
        s.len() > 0,
    ensures
        1 <= osc_step(s) <= s.len(),
        starts_osc(s) ==> 2 <= number_end(s) <= payload_start(s) <= s.len(),
        starts_osc(s) ==> payload_start(s) <= payload_end(s) <= s.len(),
{
    if starts_osc(s) {
        lemma_digits_len(s.skip(2));
        lemma_terminator(s, payload_start(s));
    }
}

/// No command starts where there is no `ESC ]`.
proof fn lemma_no_items(buf: Seq<u8>, j: int, k: int)
    requires
        0 <= j <= k <= buf.len(),
        forall|i: int| j <= i < k ==> !starts_osc(#[trigger] buf.skip(i)),
    ensures
        osc_items(buf, j) == osc_items(buf, k),
        forall|seen: int| #[trigger] new_items(buf, j, seen) == new_items(buf, k, seen),
    decreases k - j,
{
    if j < k {
        assert(!starts_osc(buf.skip(j)));
        lemma_no_items(buf, j + 1, k);
        assert forall|seen: int| #[trigger] new_items(buf, j, seen) == new_items(buf, k, seen) by {
            assert(new_items(buf, j + 1, seen) == new_items(buf, k, seen));
        }
    }
}

/// Every command that starts at or behind `seen` ends behind it.
proof fn lemma_all_new(buf: Seq<u8>, j: int, seen: int)
    requires
        0 <= j <= buf.len(),
        seen <= j,
    ensures
        new_items(buf, j, seen) == osc_items(buf, j),
    decreases buf.len() - j,
{
    if j < buf.len() {
        let s = buf.skip(j);
        lemma_step(s);
        lemma_all_new(buf, j + osc_step(s), seen);
    }
}

proof fn lemma_last_push(items: Seq<OscItem>, item: OscItem)
    ensures
        last_title(items.push(item)) == if is_title(item) {
            Some(item.payload)
        } else {
            last_title(items)
        },
        last_clipboard(items.push(item)) == if is_clipboard(item) {
            Some(item.payload)
        } else {
            last_clipboard(items)
        },
{
    assert(items.push(item).drop_last() =~= items);
}

/// The last command of a concatenation.
pub proof fn lemma_last_concat(a: Seq<OscItem>, b: Seq<OscItem>)
    ensures
        last_title(a + b) == if last_title(b) is Some {
            last_title(b)
        } else {
            last_title(a)
        },
        last_clipboard(a + b) == if last_clipboard(b) is Some {
            last_clipboard(b)
        } else {
            last_clipboard(a)
        },
    decreases b.len(),
{
    if b.len() == 0 {
        assert(a + b =~= a);
    } else {
        assert((a + b).drop_last() =~= a + b.drop_last());
        lemma_last_concat(a, b.drop_last());
    }
}

/// Where in a stream the text of a command stands.
#[derive(Clone, Copy, Debug, PartialEq, Eq)]
pub struct PayloadRange {
    pub start: usize,
    pub end: usize,
}

impl PayloadRange {
    /// The bytes that the range covers.
    pub open spec fn of(r: Option<PayloadRange>, buf: Seq<u8>) -> Option<Seq<u8>> {
        match r {
            Some(p) => Some(buf.subrange(p.start as int, p.end as int)),
            None => None,
        }
    }

    /// The range lies inside a stream of `len` bytes.
    pub open spec fn fits(r: Option<PayloadRange>, len: nat) -> bool {
        r matches Some(p) ==> p.start <= p.end <= len
    }
}

/// The last title and the last clipboard write of a stream.
#[derive(Clone, Copy, Debug, PartialEq, Eq)]
pub struct OscScan {
    pub title: Option<PayloadRange>,
    pub clipboard: Option<PayloadRange>,
}

/// Reads the number that starts at `start`, and where it ends.
fn scan_number(buf: &[u8], start: usize) -> (r: (u32, usize))
    requires
        start <= buf@.len(),
    ensures
        r.1 == start + digits_len(buf@.skip(start as int)),
        r.1 <= buf@.len(),
        r.0 == decimal::capped_value(buf@.subrange(start as int, r.1 as int)),
{
    let mut k: usize = start;
    let mut ps: u32 = 0;
    assert(buf@.subrange(start as int, k as int) =~= Seq::<u8>::empty());
    while k < buf.len() && digit(buf[k])
        invariant
            start <= k <= buf@.len(),
            forall|i: int| start <= i < k ==> ascii::is_digit(#[trigger] buf@[i]),
            ps == decimal::capped_value(buf@.subrange(start as int, k as int)),
        decreases buf@.len() - k,
    {
        proof {
            let read = buf@.subrange(start as int, k as int);
            decimal::lemma_capped_push(read, buf@[k as int]);
            assert(buf@.subrange(start as int, k + 1) =~= read.push(buf@[k as int]));
        }
        ps = push_digit(ps, buf[k]);
        k = k + 1;
    }
    proof {
        let digits = buf@.skip(start as int);
        let n = (k - start) as nat;
        assert forall|i: int| 0 <= i < n implies ascii::is_digit(#[trigger] digits[i]) by {
            assert(digits[i] == buf@[start + i]);
        }
        if n < digits.len() {
            assert(digits[n as int] == buf@[k as int]);
        }
        lemma_digits_len_unique(digits, n);
    }
    (ps, k)
}

/// Finds where the text that starts at `start` ends, in the command that starts at
/// `j`.
fn scan_text(buf: &[u8], j: usize, start: usize) -> (k: usize)
    requires
        j <= start <= buf@.len(),
    ensures
        k == j + terminator(buf@.skip(j as int), start - j),
        start <= k <= buf@.len(),
        k < buf@.len() ==> ends_at(buf@.skip(j as int), k - j),
{
    let ghost s = buf@.skip(j as int);
    let mut k: usize = start;
    while k < buf.len() && buf[k] != BEL && !(buf[k] == ESC && buf.len() - k >= 2 && buf[k + 1]
        == BACKSLASH)
        invariant
            j <= start <= k <= buf@.len(),
            s == buf@.skip(j as int),
            forall|i: int| start - j <= i < k - j ==> !#[trigger] ends_at(s, i),
        decreases buf@.len() - k,
    {
        assert(s[k - j] == buf@[k as int]);
        assert(k + 1 < buf@.len() ==> s[k - j + 1] == buf@[k + 1]);
        assert(!ends_at(s, k - j));
        k = k + 1;
    }
    proof {
        if k < buf@.len() {
            assert(s[k - j] == buf@[k as int]);
            assert(ends_at(s, k - j));
        }
        lemma_terminator_unique(s, start - j, k - j);
    }
    k
}

/// Reads the command that starts at `j`, if one does and is complete: its number and
/// where its text stands. Also says where the search goes on.
fn scan_command(buf: &[u8], j: usize) -> (r: (Option<(u32, PayloadRange)>, usize))
    requires
        j < buf@.len(),
    ensures
        r.1 == j + osc_step(buf@.skip(j as int)),
        j < r.1 <= buf@.len(),
        r.0 is Some <==> osc_item(buf@.skip(j as int)) is Some,
        r.0 matches Some((ps, p)) ==> p.start <= p.end <= buf@.len() && osc_item(
            buf@.skip(j as int),
        ) == Some(OscItem { ps, payload: buf@.subrange(p.start as int, p.end as int) }),
{
    let ghost s = buf@.skip(j as int);
    proof {
        assert(forall|i: int| 0 <= i < s.len() ==> s[i] == buf@[j + i]);
        lemma_step(s);
    }
    if buf.len() - j < 2 || buf[j] != ESC || buf[j + 1] != CLOSE_BRACKET {
        return (None, j + 1);
    }
    assert(s.skip(2) =~= buf@.skip(j + 2));
    let (ps, number_stop): (u32, usize) = scan_number(buf, j + 2);
    let start: usize = if number_stop < buf.len() && buf[number_stop] == SEMICOLON {
        number_stop + 1
    } else {
        number_stop
    };
    assert(payload_start(s) == start - j);
    if number_stop == j + 2 || start >= buf.len() {
        return (None, j + 1);
    }
    let end: usize = scan_text(buf, j, start);
    if end >= buf.len() {
        return (None, end);
    }
    proof {
        assert(s.subrange(2, number_end(s)) =~= buf@.subrange(j + 2, number_stop as int));
        assert(s.subrange(start - j, end - j) =~= buf@.subrange(start as int, end as int));
    }
    let next: usize = if buf[end] == BEL {
        end + 1
    } else {
        end + 2
    };
    (Some((ps, PayloadRange { start, end })), next)
}

/// Finds the last title and the last clipboard write of a stream whose first `seen`
/// bytes had already been scanned; only what ends behind them counts.
pub fn scan_osc(buf: &[u8], seen: usize) -> (r: OscScan)
    ensures
        PayloadRange::fits(r.title, buf@.len()),
        PayloadRange::fits(r.clipboard, buf@.len()),
        PayloadRange::of(r.title, buf@) == last_title(new_items(buf@, 0, seen as int)),
        PayloadRange::of(r.clipboard, buf@) == last_clipboard(new_items(buf@, 0, seen as int)),
        seen == 0 ==> new_items(buf@, 0, seen as int) == osc_items(buf@, 0),
{
    let mut r = OscScan { title: None, clipboard: None };
    let mut j: usize = 0;
    let ghost mut found = Seq::<OscItem>::empty();
    assert(found + new_items(buf@, 0, seen as int) =~= new_items(buf@, 0, seen as int));
    while j < buf.len()
        invariant
            j <= buf@.len(),
            found + new_items(buf@, j as int, seen as int) == new_items(buf@, 0, seen as int),
            PayloadRange::fits(r.title, buf@.len()),
            PayloadRange::fits(r.clipboard, buf@.len()),
            PayloadRange::of(r.title, buf@) == last_title(found),
            PayloadRange::of(r.clipboard, buf@) == last_clipboard(found),
        decreases buf@.len() - j,
    {
        let (command, next): (Option<(u32, PayloadRange)>, usize) = scan_command(buf, j);
        if let Some((ps, text)) = command {
            if next > seen {
                proof {
                    let item = osc_item(buf@.skip(j as int)).unwrap();
                    let later = new_items(buf@, next as int, seen as int);
                    assert(found + (seq![item] + later) =~= found.push(item) + later);
                    lemma_last_push(found, item);
                    found = found.push(item);
                }
                if ps == 0 || ps == 2 {
                    r.title = Some(text);
                } else if ps == 52 {
                    r.clipboard = Some(text);
                }
            }
        }
        j = next;
    }
    proof {
        assert(found + Seq::<OscItem>::empty() =~= found);
        if seen == 0 {
            lemma_all_new(buf@, 0, 0);
        }
    }
    r
}

/// `s` is the beginning of a command that may still come to be complete, cut
/// off by the end of the stream.
pub open spec fn osc_unfinished(s: Seq<u8>) -> bool {
    ||| s =~= seq![ESC]
    ||| starts_osc(s) && number_end(s) >= s.len()
    ||| starts_osc(s) && number_end(s) > 2 && payload_start(s) >= s.len()
    ||| opens_osc(s) && payload_end(s) >= s.len()
}

/// The search for commands, from position `j` on, leaves no command unfinished
/// that starts before `n`, and where a command reaches over `n` its text holds
/// no `ESC ]` after `n`.
pub open spec fn clean_cut(buf: Seq<u8>, j: int, n: int) -> bool
    decreases buf.len() - j,
{
    if j >= n {
        forall|i: int| n <= i < j ==> !starts_osc(#[trigger] buf.skip(i))
    } else if j < 0 || j >= buf.len() || osc_unfinished(buf.skip(j)) {
        false
    } else {
        proof {
            lemma_step(buf.skip(j));
        }
        clean_cut(buf, j + osc_step(buf.skip(j)), n)
    }
}

/// A command that is complete stays what it is when more bytes follow, and
/// where none can start any more none appears.
proof fn lemma_item_extend(s: Seq<u8>, more: Seq<u8>)
    requires
        s.len() > 0,
        !osc_unfinished(s),
    ensures
        osc_item(s + more) == osc_item(s),
        osc_step(s + more) == osc_step(s),
        osc_step(s) > 1 ==> s[osc_step(s) - 1] != ESC,
{
    let t = s + more;
    assert(forall|i: int| 0 <= i < s.len() ==> t[i] == s[i]);
    if s.len() == 1 {
        if s[0] == ESC {
            assert(s =~= seq![ESC]);
        }
    } else if starts_osc(s) {
        let n = digits_len(s.skip(2));
        lemma_digits_len(s.skip(2));
        assert(t.skip(2) =~= s.skip(2) + more);
        assert(forall|i: int| 0 <= i <= n ==> t.skip(2)[i] == s.skip(2)[i]);
        lemma_digits_len_unique(t.skip(2), n);
        assert(number_end(t) == number_end(s));
        if n > 0 {
            let k = payload_start(s);
            assert(payload_start(t) == k);
            lemma_terminator(s, k);
            let e = payload_end(s);
            assert forall|i: int| k <= i < e implies !#[trigger] ends_at(t, i) by {
                assert(!ends_at(s, i));
            }
            assert(ends_at(s, e));
            assert(ends_at(t, e));
            lemma_terminator_unique(t, k, e);
            assert(t.subrange(2, number_end(t)) =~= s.subrange(2, number_end(s)));
            assert(t.subrange(k, e) =~= s.subrange(k, e));
        }
    }
}

/// An unfinished command is the last thing in the stream.
proof fn lemma_unfinished_last(buf: Seq<u8>, j: int)
    requires
        0 <= j < buf.len(),
        osc_unfinished(buf.skip(j)),
    ensures
        osc_items(buf, j) == Seq::<OscItem>::empty(),
{
    let s = buf.skip(j);
    let len = buf.len() as int;
    assert(forall|i: int| 0 <= i < s.len() ==> s[i] == buf[j + i]);
    lemma_step(s);
    if !opens_osc(s) {
        if starts_osc(s) {
            lemma_digits_len(s.skip(2));
            assert forall|i: int| j < i < len implies !starts_osc(#[trigger] buf.skip(i)) by {
                assert(buf.skip(i)[0] == s[i - j]);
                if 2 <= i - j < number_end(s) {
                    assert(s.skip(2)[i - j - 2] == s[i - j]);
                }
            }
        }
        lemma_no_items(buf, j + 1, len);
        assert(osc_items(buf, len) =~= Seq::<OscItem>::empty());
    } else {
        assert(j + osc_step(s) == len);
        assert(osc_items(buf, len) =~= Seq::<OscItem>::empty());
    }
}

/// Where the search goes on from a command that is unfinished: past the bytes that
/// are there, or past its first byte, behind which no command starts.
proof fn lemma_unfinished_step(s: Seq<u8>, more: Seq<u8>)
    requires
        s.len() > 0,
        osc_unfinished(s),
    ensures
        osc_item(s + more) is Some ==> osc_step(s + more) > s.len(),
        osc_step(s + more) >= s.len() || (osc_step(s + more) == 1 && forall|i: int|
            0 < i < s.len() ==> #[trigger] s[i] != ESC),
{
    let t = s + more;
    assert(forall|i: int| 0 <= i < s.len() ==> t[i] == s[i]);
    lemma_step(s);
    lemma_step(t);
    if starts_osc(s) {
        let n = digits_len(s.skip(2));
        lemma_digits_len(s.skip(2));
        lemma_digits_len(t.skip(2));
        assert(t.skip(2) =~= s.skip(2) + more);
        assert(forall|i: int| 0 <= i < s.len() - 2 ==> t.skip(2)[i] == s.skip(2)[i]);
        if digits_len(t.skip(2)) < n {
            assert(ascii::is_digit(s.skip(2)[digits_len(t.skip(2)) as int]));
        }
        if number_end(s) < s.len() {
            lemma_digits_len_unique(t.skip(2), n);
        }
        if opens_osc(s) {
            let k = payload_start(s);
            lemma_terminator(s, k);
            lemma_terminator(t, k);
            if payload_end(t) < s.len() - 1 {
                assert(ends_at(t, payload_end(t)));
                assert(!ends_at(s, payload_end(t)));
            } else if payload_end(t) == s.len() - 1 {
                assert(!ends_at(s, s.len() - 1));
            }
        } else {
            assert forall|i: int| 0 < i < s.len() implies #[trigger] s[i] != ESC by {
                if 2 <= i < number_end(s) {
                    assert(ascii::is_digit(s.skip(2)[i - 2]));
                }
            }
        }
    }
}

/// The commands of a stream stay as they are when more bytes follow; those that end
/// in the new bytes come after them.
pub proof fn lemma_items_extend(buf: Seq<u8>, more: Seq<u8>, j: int)
    requires
        0 <= j <= buf.len(),
    ensures
        osc_items(buf + more, j) == osc_items(buf, j) + new_items(
            buf + more,
            j,
            buf.len() as int,
        ),
    decreases buf.len() - j,
{
    let all = buf + more;
    let n = buf.len() as int;
    if j == n {
        lemma_all_new(all, j, n);
        assert(osc_items(all, j) =~= osc_items(buf, j) + osc_items(all, j));
    } else {
        let s = buf.skip(j);
        assert(all.skip(j) =~= s + more);
        lemma_step(s);
        if osc_unfinished(s) {
            lemma_unfinished_last(buf, j);
            lemma_unfinished_step(s, more);
            lemma_step(s + more);
            let next = j + osc_step(s + more);
            if next < n {
                assert forall|i: int| next <= i < n implies !starts_osc(#[trigger] all.skip(i)) by {
                    assert(all.skip(i)[0] == s[i - j]);
                }
                lemma_no_items(all, next, n);
                lemma_all_new(all, n, n);
                assert(new_items(all, next, n) == new_items(all, n, n));
            } else {
                lemma_all_new(all, next, n);
            }
            assert(new_items(all, j, n) == osc_items(all, j));
            assert(osc_items(all, j) =~= osc_items(buf, j) + osc_items(all, j));
        } else {
            lemma_item_extend(s, more);
            lemma_items_extend(buf, more, j + osc_step(s));
            assert(osc_items(all, j) =~= osc_items(buf, j) + new_items(all, j, n));
        }
    }
}

/// What a command says depends only on the bytes from its start on.
proof fn lemma_items_suffix(head: Seq<u8>, buf: Seq<u8>, j: int)
    requires
        0 <= j <= buf.len(),
    ensures
        osc_items(head + buf, head.len() + j) == osc_items(buf, j),
    decreases buf.len() - j,
{
    if j < buf.len() {
        assert((head + buf).skip(head.len() + j) =~= buf.skip(j));
        lemma_step(buf.skip(j));
        lemma_items_suffix(head, buf, j + osc_step(buf.skip(j)));
    }
}

/// Where no command starts between `head` and position `j`, nor at its last byte,
/// what follows `more` decides only about commands that start after `head`.
proof fn lemma_items_cut(head: Seq<u8>, rest: Seq<u8>, more: Seq<u8>, j: int)
    requires
        head.len() <= j <= (head + rest).len(),
        forall|i: int| head.len() <= i < j ==> !starts_osc(#[trigger] (head + rest).skip(i)),
        j > head.len() ==> (head + rest)[j - 1] != ESC,
    ensures
        osc_items(head + rest, j) == osc_items(rest, 0),
        osc_items(head + rest + more, j) == osc_items(rest + more, 0),
{
    let a = head + rest;
    let b = head + rest + more;
    let n = head.len() as int;
    lemma_no_items(a, n, j);
    assert forall|i: int| n <= i < j implies !starts_osc(#[trigger] b.skip(i)) by {
        assert(!starts_osc(a.skip(i)));
        assert(b.skip(i)[0] == a.skip(i)[0]);
        assert(a.skip(i)[0] == a[i]);
        if i + 1 < a.len() {
            assert(b.skip(i)[1] == a.skip(i)[1]);
        }
    }
    lemma_no_items(b, n, j);
    lemma_items_suffix(head, rest, 0);
    lemma_items_suffix(head, rest + more, 0);
    assert(head + (rest + more) =~= b);
}

proof fn lemma_items_head(head: Seq<u8>, rest: Seq<u8>, more: Seq<u8>, j: int) -> (first: Seq<
    OscItem,
>)
    requires
        0 <= j <= (head + rest).len(),
        clean_cut(head + rest, j, head.len() as int),
        j > head.len() ==> (head + rest)[j - 1] != ESC,
    ensures
        osc_items(head + rest, j) == first + osc_items(rest, 0),
        osc_items(head + rest + more, j) == first + osc_items(rest + more, 0),
    decreases (head + rest).len() - j,
{
    let a = head + rest;
    let b = head + rest + more;
    if j >= head.len() {
        lemma_items_cut(head, rest, more, j);
        let first = Seq::<OscItem>::empty();
        assert(first + osc_items(rest, 0) =~= osc_items(rest, 0));
        assert(first + osc_items(rest + more, 0) =~= osc_items(rest + more, 0));
        first
    } else {
        let s = a.skip(j);
        assert(b.skip(j) =~= s + more);
        lemma_item_extend(s, more);
        lemma_step(s);
        assert(s[osc_step(s) - 1] == a[j + osc_step(s) - 1]);
        let later = lemma_items_head(head, rest, more, j + osc_step(s));
        match osc_item(s) {
            Some(item) => {
                let first = seq![item] + later;
                assert(osc_items(a, j) =~= first + osc_items(rest, 0));
                assert(osc_items(b, j) =~= first + osc_items(rest + more, 0));
                first
            },
            None => later,
        }
    }
}

/// Cutting a stream in two does not change the commands it holds: those of the
/// whole stream are those of `head + rest`, followed by those that the bytes after
/// it complete, which `rest` is enough to tell.
pub proof fn law_osc_chunked(head: Seq<u8>, rest: Seq<u8>, more: Seq<u8>)
    requires
        clean_cut(head + rest, 0, head.len() as int),
    ensures
        osc_items(head + rest + more, 0) == osc_items(head + rest, 0) + new_items(
            rest + more,
            0,
            rest.len() as int,
        ),
{
    let first = lemma_items_head(head, rest, more, 0);
    let added = new_items(rest + more, 0, rest.len() as int);
    lemma_items_extend(rest, more, 0);
    assert(first + (osc_items(rest, 0) + added) =~= first + osc_items(rest, 0) + added);
}

/// What was scanned does not count again: output without `ESC` behind a stream in
/// which no command is left unfinished completes none.
pub proof fn law_nothing_counts_twice(buf: Seq<u8>, plain: Seq<u8>)
    requires
        clean_cut(buf, 0, buf.len() as int),
        forall|i: int| 0 <= i < plain.len() ==> #[trigger] plain[i] != ESC,
    ensures
        new_items(buf + plain, 0, buf.len() as int) == Seq::<OscItem>::empty(),
{
    let none = Seq::<u8>::empty();
    assert(buf + none =~= buf);
    assert(none + plain =~= plain);
    let first = lemma_items_head(buf, none, plain, 0);
    assert forall|i: int| 0 <= i < plain.len() implies !starts_osc(#[trigger] plain.skip(i)) by {
        assert(plain.skip(i)[0] == plain[i]);
    }
    lemma_no_items(plain, 0, plain.len() as int);
    lemma_items_extend(buf, plain, 0);
    assert(new_items(buf + plain, 0, buf.len() as int) =~= Seq::<OscItem>::empty());
}

/// The bytes of a command.
pub open spec fn osc_sequence(digits: Seq<u8>, payload: Seq<u8>, bel: bool) -> Seq<u8> {
    seq![ESC, CLOSE_BRACKET] + digits + seq![SEMICOLON] + payload + if bel {
        seq![BEL]
    } else {
        seq![ESC, BACKSLASH]
    }
}

/// A complete command is read with its number and exactly its text, whether
/// `BEL` or `ESC \` ends it.
pub proof fn law_command_is_read_back(digits: Seq<u8>, payload: Seq<u8>, bel: bool)
    requires
        digits.len() > 0,
        forall|i: int| 0 <= i < digits.len() ==> ascii::is_digit(#[trigger] digits[i]),
        forall|i: int|
            0 <= i < payload.len() ==> #[trigger] payload[i] != BEL && payload[i] != ESC,
    ensures
        osc_items(osc_sequence(digits, payload, bel), 0) == seq![
            OscItem { ps: decimal::capped_value(digits), payload },
        ],
{
    let s = osc_sequence(digits, payload, bel);
    let n = digits.len() as int;
    let k = n + 3;
    let e = k + payload.len();
    assert(s.skip(0) =~= s);
    assert(forall|i: int| 0 <= i < n ==> s.skip(2)[i] == digits[i]);
    assert(s.skip(2)[n] == SEMICOLON);
    lemma_digits_len_unique(s.skip(2), n as nat);
    assert(payload_start(s) == k);
    assert forall|i: int| k <= i < e implies !#[trigger] ends_at(s, i) by {
        assert(s[i] == payload[i - k]);
    }
    assert(ends_at(s, e));
    lemma_terminator_unique(s, k, e);
    assert(s.subrange(2, number_end(s)) =~= digits);
    assert(s.subrange(k, e) =~= payload);
    assert(osc_step(s) == s.len());
    let item = OscItem { ps: decimal::capped_value(digits), payload };
    assert(osc_item(s) == Some(item));
    assert(osc_items(s, s.len() as int) =~= Seq::<OscItem>::empty());
    assert(osc_items(s, 0) =~= seq![item]);
}

/// Where a stream leaves no command unfinished, what follows it is read by itself.
proof fn lemma_items_behind_clean(buf: Seq<u8>, more: Seq<u8>, j: int, seen: int)
    requires
        0 <= j <= buf.len(),
        0 <= seen <= buf.len(),
        clean_cut(buf, j, buf.len() as int),
    ensures
        new_items(buf + more, j, seen) == new_items(buf, j, seen) + osc_items(more, 0),
    decreases buf.len() - j,
{
    let all = buf + more;
    if j == buf.len() {
        lemma_all_new(all, j, seen);
        lemma_items_suffix(buf, more, 0);
        assert(new_items(buf, j, seen) + osc_items(more, 0) =~= osc_items(more, 0));
    } else {
        let s = buf.skip(j);
        assert(all.skip(j) =~= s + more);
        lemma_item_extend(s, more);
        lemma_step(s);
        lemma_items_behind_clean(buf, more, j + osc_step(s), seen);
        assert(new_items(all, j, seen) =~= new_items(buf, j, seen) + osc_items(more, 0));
    }
}

/// A command at the end of a stream is the last one of it, with the number that its
/// digits write and with all of its text: whatever lies between the first semicolon
/// and the first `BEL` or `ESC \`, be it semicolons or other `ESC`. Where no semicolon
/// follows the number, the text begins right behind it.
pub proof fn law_command_at_the_end(
    buf: Seq<u8>,
    seen: int,
    digits: Seq<u8>,
    sep: Seq<u8>,
    payload: Seq<u8>,
    end: Seq<u8>,
)
    requires
        0 <= seen <= buf.len(),
        clean_cut(buf, 0, buf.len() as int),
        digits.len() > 0,
        forall|i: int| 0 <= i < digits.len() ==> 0x30 <= #[trigger] digits[i] <= 0x39,
        forall|i: int|
            0 <= i < payload.len() ==> #[trigger] payload[i] != 0x07 && !(payload[i] == 0x1b && i
                + 1 < payload.len() && payload[i + 1] == 0x5c),
        sep == seq![0x3bu8] || (sep.len() == 0 && (payload.len() == 0 || (payload[0] != 0x3b
            && !(0x30 <= payload[0] <= 0x39)))),
        end == seq![0x07u8] || end == seq![0x1bu8, 0x5c],
    ensures
        new_items(
            buf + (seq![0x1bu8, 0x5d] + digits + sep + payload + end),
            0,
            seen,
        ) == new_items(buf, 0, seen).push(
            OscItem { ps: decimal::capped_value(digits), payload },
        ),
{
    let s = seq![0x1bu8, 0x5d] + digits + sep + payload + end;
    let n = digits.len() as int;
    let k = n + 2 + sep.len();
    let e = k + payload.len();
    assert(s.skip(0) =~= s);
    assert(forall|i: int| 0 <= i < n ==> s.skip(2)[i] == digits[i]);
    assert(s.skip(2)[n] == s[n + 2]);
    if sep.len() == 0 && payload.len() > 0 {
        assert(s[n + 2] == payload[0]);
    }
    assert(end[0] == 0x07 || end[0] == 0x1b);
    lemma_digits_len_unique(s.skip(2), n as nat);
    assert(payload_start(s) == k);
    assert(s[e] == end[0]);
    assert forall|i: int| k <= i < e implies !#[trigger] ends_at(s, i) by {
        assert(s[i] == payload[i - k]);
        if i + 1 < e {
            assert(s[i + 1] == payload[i + 1 - k]);
        }
    }
    if end.len() == 2 {
        assert(s[e + 1] == end[1]);
    }
    assert(ends_at(s, e));
    lemma_terminator_unique(s, k, e);
    assert(s.subrange(2, number_end(s)) =~= digits);
    assert(s.subrange(k, e) =~= payload);
    assert(osc_step(s) == s.len());
    let item = OscItem { ps: decimal::capped_value(digits), payload };
    assert(osc_item(s) == Some(item));
    assert(osc_items(s, s.len() as int) =~= Seq::<OscItem>::empty());
    assert(osc_items(s, 0) =~= seq![item]);
    lemma_items_behind_clean(buf, s, 0, seen);
    assert(new_items(buf, 0, seen) + seq![item] =~= new_items(buf, 0, seen).push(item));
}

/// Of several titles the last one counts, and of several clipboard writes: a command
/// 0 or 2 sets the title, a command 52 writes the clipboard, and every other command
/// does neither.
pub proof fn law_last_command_counts(items: Seq<OscItem>, item: OscItem)
    ensures
        item.ps == 0 || item.ps == 2 ==> last_title(items.push(item)) == Some(item.payload),
        item.ps == 52 ==> last_clipboard(items.push(item)) == Some(item.payload),
        item.ps != 0 && item.ps != 2 ==> last_title(items.push(item)) == last_title(items),
        item.ps != 52 ==> last_clipboard(items.push(item)) == last_clipboard(items),
        last_title(Seq::empty()) is None,
        last_clipboard(Seq::empty()) is None,
{
    lemma_last_push(items, item);
}

/// Without `ESC ]` a stream holds no command.
pub proof fn law_no_command_without_its_start(buf: Seq<u8>, seen: int)
    requires
        forall|i: int|
            0 <= i < buf.len() - 1 ==> !(#[trigger] buf[i] == 0x1b && buf[i + 1] == 0x5d),
    ensures
        new_items(buf, 0, seen) == Seq::<OscItem>::empty(),
        osc_items(buf, 0) == Seq::<OscItem>::empty(),
{
    assert forall|i: int| 0 <= i < buf.len() implies !starts_osc(#[trigger] buf.skip(i)) by {
        assert(buf.skip(i)[0] == buf[i]);
        if i + 1 < buf.len() {
            assert(buf.skip(i)[1] == buf[i + 1]);
        }
    }
    lemma_no_items(buf, 0, buf.len() as int);
    assert(new_items(buf, 0, seen) == new_items(buf, buf.len() as int, seen));
}

/// Output without `ESC` leaves no command unfinished.
pub proof fn law_plain_output_is_clean(buf: Seq<u8>, j: int)
    requires
        0 <= j <= buf.len(),
        forall|i: int| 0 <= i < buf.len() ==> #[trigger] buf[i] != 0x1b,
    ensures
        clean_cut(buf, j, buf.len() as int),
    decreases buf.len() - j,
{
    if j < buf.len() {
        let s = buf.skip(j);
        assert(s[0] == buf[j]);
        assert(seq![ESC][0] == ESC);
        assert(!osc_unfinished(s));
        assert(osc_step(s) == 1);
        law_plain_output_is_clean(buf, j + 1);
    }
}

/// Without a number `ESC ]` begins no command: what follows is read by itself.
pub proof fn law_command_needs_a_number(rest: Seq<u8>)
    requires
        rest.len() == 0 || !(0x30 <= rest[0] <= 0x39),
    ensures
        osc_items(seq![0x1bu8, 0x5d] + rest, 0) == osc_items(rest, 0),
{
    let s = seq![0x1bu8, 0x5d] + rest;
    assert(s.skip(0) =~= s);
    assert(s.skip(2) =~= rest);
    assert(number_end(s) == 2);
    assert(osc_step(s) == 1);
    assert(s.skip(1)[0] == 0x5d);
    assert(osc_step(s.skip(1)) == 1);
    lemma_items_suffix(seq![0x1bu8, 0x5d], rest, 0);
    assert(osc_items(s, 0) == osc_items(s, 1));
    assert(osc_items(s, 1) == osc_items(s, 2));
}

/// A command whose text has no end, and a lone beginning, do not count.
pub proof fn law_unfinished_command_does_not_count(digits: Seq<u8>, text: Seq<u8>)
    requires
        digits.len() > 0,
        forall|i: int| 0 <= i < digits.len() ==> 0x30 <= #[trigger] digits[i] <= 0x39,
        forall|i: int| 0 <= i < text.len() ==> #[trigger] text[i] != 0x07 && text[i] != 0x1b,
    ensures
        osc_items(seq![0x1bu8, 0x5d] + digits + seq![0x3bu8] + text, 0) == Seq::<OscItem>::empty(),
{
    let s = seq![0x1bu8, 0x5d] + digits + seq![0x3bu8] + text;
    let n = digits.len() as int;
    assert(s.skip(0) =~= s);
    assert(forall|i: int| 0 <= i < n ==> s.skip(2)[i] == digits[i]);
    assert(s.skip(2)[n] == SEMICOLON);
    lemma_digits_len_unique(s.skip(2), n as nat);
    assert(payload_start(s) == n + 3);
    assert forall|i: int| n + 3 <= i < s.len() implies !#[trigger] ends_at(s, i) by {
        assert(s[i] == text[i - n - 3]);
    }
    lemma_terminator_unique(s, n + 3, s.len() as int);
    if text.len() > 0 {
        assert(osc_step(s) == s.len());
        assert(osc_items(s, s.len() as int) =~= Seq::<OscItem>::empty());
    } else {
        assert(osc_step(s) == 1);
        assert forall|i: int| 1 <= i < s.len() implies !starts_osc(#[trigger] s.skip(i)) by {
            assert(s.skip(i)[0] == s[i]);
            if 2 <= i < n + 2 {
                assert(s[i] == digits[i - 2]);
            }
        }
        lemma_no_items(s, 1, s.len() as int);
    }
}

} // verus!
