//! Clipboard writes that programs ask for (`OSC 52`).
use vstd::prelude::*;
use vstd::utf8::*;
use crate::ascii::{LOWER_C, SEMICOLON};
use crate::text;
use crate::text::lossy_string;

verus! {

/// What `base64`'s `STANDARD` engine decodes `data` to; `None` where it
/// reports an error.
pub uninterp spec fn base64_decoded(data: Seq<u8>) -> Option<Seq<u8>>;

/// `base64::engine::general_purpose::STANDARD.decode`. The result is a function
/// of the bytes alone: the decoded bytes, or nothing where they are no padded
/// base64 in the standard alphabet.
#[verifier::external_body]
fn decode_base64(data: &[u8]) -> (r: Option<Vec<u8>>)
    ensures
        text::bytes_of(r) == base64_decoded(data@),
{
    base64::Engine::decode(&base64::engine::general_purpose::STANDARD, data).ok()
}

/// The first semicolon at or after position `k`; the length of `s` if there is
/// none.
pub open spec fn semicolon_from(s: Seq<u8>, k: int) -> int
    decreases s.len() - k,
{
    if k < 0 || k >= s.len() {
        s.len() as int
    } else if s[k] == SEMICOLON {
        k
    } else {
        semicolon_from(s, k + 1)
    }
}

/// The data of a clipboard write `selection ; data`: what follows the first
/// semicolon, if it is not empty and the selection names the clipboard.
pub open spec fn clipboard_data(payload: Seq<u8>) -> Option<Seq<u8>> {
    let cut = semicolon_from(payload, 0);
    if cut < payload.len() && payload.take(cut).contains(LOWER_C) && cut + 1 < payload.len() {
        Some(payload.skip(cut + 1))
    } else {
        None
    }
}

/// The text that decoded clipboard data stands for.
pub open spec fn decoded_text(decoded: Option<Seq<u8>>) -> Option<Seq<char>> {
    match decoded {
        Some(bytes) => Some(text::lossy_text(bytes)),
        None => None,
    }
}

/// The text that a clipboard write puts on the clipboard; `None` where it is
/// ignored.
pub open spec fn clipboard_text(payload: Seq<u8>) -> Option<Seq<char>> {
    match clipboard_data(payload) {
        Some(data) => decoded_text(base64_decoded(data)),
        None => None,
    }
}

/// The data of a clipboard write, still encoded.
pub fn osc_52_data(payload: &[u8]) -> (r: Option<Vec<u8>>)
    ensures
        text::bytes_of(r) == clipboard_data(payload@),
{
    let mut i: usize = 0;
    let mut names_clipboard = false;
    while i < payload.len() && payload[i] != SEMICOLON
        invariant
            i <= payload@.len(),
            names_clipboard == payload@.take(i as int).contains(LOWER_C),
            semicolon_from(payload@, 0) == semicolon_from(payload@, i as int),
        decreases payload@.len() - i,
    {
        proof {
            let before = payload@.take(i as int);
            let after = payload@.take(i + 1);
            assert(after =~= before.push(payload@[i as int]));
            if before.contains(LOWER_C) {
                let j = choose|j: int| 0 <= j < before.len() && before[j] == LOWER_C;
                assert(after[j] == LOWER_C);
            }
            if payload@[i as int] == LOWER_C {
                assert(after[i as int] == LOWER_C);
            }
        }
        if payload[i] == LOWER_C {
            names_clipboard = true;
        }
        i = i + 1;
    }
    if i >= payload.len() || !names_clipboard || payload.len() - i < 2 {
        return None;
    }
    let data = vstd::slice::slice_subrange(payload, i + 1, payload.len());
    assert(data@ =~= payload@.skip(i + 1));
    Some(vstd::slice::slice_to_vec(data))
}

/// The text that decoded clipboard data stands for.
pub fn clipboard_string(decoded: Option<Vec<u8>>) -> (r: Option<String>)
    ensures
        text::text_of(r) == decoded_text(text::bytes_of(decoded)),
        decoded matches Some(v) ==> valid_utf8(v@) ==> text::text_of(r) == Some(decode_utf8(v@)),
{
    match decoded {
        Some(bytes) => Some(lossy_string(bytes.as_slice())),
        None => None,
    }
}

/// The text that the clipboard write `payload` puts on the clipboard.
pub fn decode_osc_52(payload: &[u8]) -> (r: Option<String>)
    ensures
        text::text_of(r) == clipboard_text(payload@),
        r matches Some(s) ==> ({
            let decoded = base64_decoded(clipboard_data(payload@).unwrap()).unwrap();
            valid_utf8(decoded) ==> s@ == decode_utf8(decoded)
        }),
{
    match osc_52_data(payload) {
        Some(data) => clipboard_string(decode_base64(data.as_slice())),
        None => None,
    }
}

proof fn lemma_semicolon_from(s: Seq<u8>, k: int, cut: int)
    requires
        0 <= k <= cut <= s.len(),
        cut < s.len() ==> s[cut] == SEMICOLON,
        forall|i: int| k <= i < cut ==> #[trigger] s[i] != SEMICOLON,
    ensures
        semicolon_from(s, k) == cut,
    decreases cut - k,
{
    if k < cut {
        lemma_semicolon_from(s, k + 1, cut);
    }
}

/// A clipboard write is a list of selections, a semicolon, and the data: all of what
/// follows the first semicolon. It counts where `c` is among the selections, wherever
/// it stands there, and the data is not empty.
pub proof fn law_clipboard_write(selections: Seq<u8>, data: Seq<u8>)
    requires
        !selections.contains(0x3b),
    ensures
        clipboard_data(selections + seq![0x3bu8] + data) == if selections.contains(0x63)
            && data.len() > 0 {
            Some(data)
        } else {
            None
        },
        clipboard_data(selections) is None,
{
    let payload = selections + seq![0x3bu8] + data;
    let n = selections.len() as int;
    assert forall|i: int| 0 <= i < n implies #[trigger] payload[i] != SEMICOLON by {
        assert(payload[i] == selections[i]);
        assert(selections.contains(selections[i]));
    }
    assert forall|i: int| 0 <= i < n implies #[trigger] selections[i] != SEMICOLON by {
        assert(selections.contains(selections[i]));
    }
    lemma_semicolon_from(payload, 0, n);
    lemma_semicolon_from(selections, 0, n);
    assert(payload.take(n) =~= selections);
    assert(payload.skip(n + 1) =~= data);
}

/// What goes on the clipboard is the text of the decoded data; where the data cannot
/// be decoded, nothing does.
pub proof fn law_clipboard_text(payload: Seq<u8>)
    ensures
        clipboard_data(payload) is None ==> clipboard_text(payload) is None,
        clipboard_data(payload) matches Some(data) ==> {
            &&& base64_decoded(data) is None ==> clipboard_text(payload) is None
            &&& base64_decoded(data) matches Some(bytes) ==> clipboard_text(payload) == Some(
                text::lossy_text(bytes),
            )
        },
{
}

} // verus!
