//! Bytes that a paste sends to the shell.
//!
//! Where the foreground program asked for bracketed paste, the text is wrapped
//! in `ESC [200~` and `ESC [201~`, so that a block of several lines arrives as
//! one paste instead of submitting on the first line break. Otherwise the bytes
//! go through as typed.
use vstd::prelude::*;
use vstd::utf8::*;
use crate::ascii::{ESC, OPEN_BRACKET};

verus! {

/// `ESC [200~`
pub open spec fn bracket_start() -> Seq<u8> {
    seq![ESC, OPEN_BRACKET, 0x32, 0x30, 0x30, 0x7e]
}

/// `ESC [201~`
pub open spec fn bracket_end() -> Seq<u8> {
    seq![ESC, OPEN_BRACKET, 0x32, 0x30, 0x31, 0x7e]
}

/// The bytes that a paste of `text` sends.
pub fn paste_bytes(text: &str, bracketed: bool) -> (out: Vec<u8>)
    ensures
        out@ == if bracketed {
            bracket_start() + encode_utf8(text@) + bracket_end()
        } else {
            encode_utf8(text@)
        },
{
    if bracketed {
        let mut out: Vec<u8> = vec![ESC, OPEN_BRACKET, 0x32, 0x30, 0x30, 0x7e];
        assert(out@ =~= bracket_start());
        out.extend_from_slice(text.as_bytes());
        assert(out@ =~= bracket_start() + encode_utf8(text@));
        out.push(ESC);
        out.push(OPEN_BRACKET);
        out.push(0x32);
        out.push(0x30);
        out.push(0x31);
        out.push(0x7e);
        assert(out@ =~= bracket_start() + encode_utf8(text@) + bracket_end());
        out
    } else {
        vstd::slice::slice_to_vec(text.as_bytes())
    }
}

/// A bracketed paste is the text between `ESC [200~` and `ESC [201~`: taking off six
/// bytes at each end gives the text back.
pub proof fn law_brackets_come_off(text: Seq<char>)
    ensures
        ({
            let bytes = encode_utf8(text);
            let sent = bracket_start() + bytes + bracket_end();
            let n = sent.len() as int;
            &&& n == bytes.len() + 12
            &&& sent.subrange(0, 6) == seq![0x1bu8, 0x5b, 0x32, 0x30, 0x30, 0x7e]
            &&& sent.subrange(6, n - 6) == bytes
            &&& sent.subrange(n - 6, n) == seq![0x1bu8, 0x5b, 0x32, 0x30, 0x31, 0x7e]
        }),
{
    let bytes = encode_utf8(text);
    let sent = bracket_start() + bytes + bracket_end();
    let n = sent.len() as int;
    assert(sent.subrange(0, 6) =~= seq![0x1bu8, 0x5b, 0x32, 0x30, 0x30, 0x7e]);
    assert(sent.subrange(6, n - 6) =~= bytes);
    assert(sent.subrange(n - 6, n) =~= seq![0x1bu8, 0x5b, 0x32, 0x30, 0x31, 0x7e]);
}

} // verus!
