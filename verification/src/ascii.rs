//! Names of the bytes that the terminal's control sequences are made of.
use vstd::prelude::*;

verus! {

/// `BEL`, which may end an OSC string.
pub const BEL: u8 = 0x07;

/// `ESC`, which starts every control sequence.
pub const ESC: u8 = 0x1b;

pub const SEMICOLON: u8 = 0x3b;

pub const QUESTION: u8 = 0x3f;

pub const GREATER: u8 = 0x3e;

pub const OPEN_BRACKET: u8 = 0x5b;

pub const CLOSE_BRACKET: u8 = 0x5d;

pub const BACKSLASH: u8 = 0x5c;

pub const LOWER_C: u8 = 0x63;

pub const LOWER_H: u8 = 0x68;

pub const LOWER_L: u8 = 0x6c;

pub const LOWER_N: u8 = 0x6e;

/// `b` is one of the ten ASCII digits.
pub open spec fn is_digit(b: u8) -> bool {
    0x30 <= b <= 0x39
}

/// Whether `b` is one of the ten ASCII digits.
pub fn digit(b: u8) -> (r: bool)
    ensures
        r == is_digit(b),
{
    0x30 <= b && b <= 0x39
}

/// Whether two byte strings are equal.
pub fn same_bytes(a: &[u8], b: &[u8]) -> (r: bool)
    ensures
        r == (a@ == b@),
{
    if a.len() != b.len() {
        return false;
    }
    let mut i: usize = 0;
    while i < a.len()
        invariant
            a@.len() == b@.len(),
            i <= a@.len(),
            forall|j: int| 0 <= j < i ==> a@[j] == b@[j],
        decreases a@.len() - i,
    {
        if a[i] != b[i] {
            return false;
        }
        i = i + 1;
    }
    assert(a@ =~= b@);
    true
}

} // verus!
