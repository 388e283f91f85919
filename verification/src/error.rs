//! What can go wrong with the emulator.
use vstd::prelude::*;
use vstd::utf8::*;
use crate::ascii;
use crate::decimal;
use crate::decimal::push_decimal;
use crate::text;
use crate::text::ascii_string;

verus! {

/// A failure of the emulator. The codes are the emulator's own.
#[derive(Clone, Copy, Debug, PartialEq, Eq, Structural)]
pub enum Error {
    CreateFailed,
    FeedFailed(i32),
    ScrollFailed(i32),
    DumpFailed,
}

/// A number with a minus sign where it is negative.
pub open spec fn signed_digits(n: int) -> Seq<u8> {
    if n < 0 {
        seq![0x2du8] + decimal::decimal_digits((-n) as nat)
    } else {
        decimal::decimal_digits(n as nat)
    }
}

fn signed_string(n: i32) -> (s: String)
    ensures
        encode_utf8(s@) == signed_digits(n as int),
{
    let mut out: Vec<u8> = Vec::new();
    let size: u32 = if n < 0 {
        out.push(0x2d);
        (-(n as i64)) as u32
    } else {
        n as u32
    };
    push_decimal(&mut out, size);
    proof {
        assert(out@ =~= signed_digits(n as int));
        let digits = decimal::decimal_digits(size as nat);
        decimal::lemma_digits_value(size as nat);
        assert forall|i: int| 0 <= i < out@.len() implies #[trigger] out@[i] < 0x80 by {
            let k = if n < 0 {
                i - 1
            } else {
                i
            };
            if k >= 0 {
                assert(out@[i] == digits[k]);
                assert(ascii::is_digit(digits[k]));
            }
        }
    }
    ascii_string(out.as_slice())
}

impl Error {
    /// What the failure is, before its code.
    pub open spec fn prefix(self) -> Seq<char> {
        match self {
            Error::CreateFailed => "terminal create failed"@,
            Error::FeedFailed(_) => "terminal feed failed: "@,
            Error::ScrollFailed(_) => "terminal scroll failed: "@,
            Error::DumpFailed => "terminal dump failed"@,
        }
    }

    /// The emulator's code, as it is written.
    pub open spec fn code(self) -> Seq<u8> {
        match self {
            Error::FeedFailed(code) => signed_digits(code as int),
            Error::ScrollFailed(code) => signed_digits(code as int),
            _ => Seq::empty(),
        }
    }

    /// The failure in words, with its code where it has one.
    pub fn message(self) -> (s: String)
        ensures
            encode_utf8(s@) == encode_utf8(self.prefix()) + self.code(),
    {
        let mut s = match self {
            Error::CreateFailed => "terminal create failed".to_string(),
            Error::FeedFailed(_) => "terminal feed failed: ".to_string(),
            Error::ScrollFailed(_) => "terminal scroll failed: ".to_string(),
            Error::DumpFailed => "terminal dump failed".to_string(),
        };
        let ghost prefix = s@;
        assert(prefix == self.prefix());
        match self {
            Error::FeedFailed(code) | Error::ScrollFailed(code) => {
                let number = signed_string(code);
                proof {
                    text::lemma_encode_concat(prefix, number@);
                }
                s.append(number.as_str());
            },
            _ => {
                assert(encode_utf8(prefix) + Seq::<u8>::empty() =~= encode_utf8(prefix));
            },
        }
        s
    }
}

/// Whether the emulator came into being.
pub fn create_result(created: bool) -> (r: Result<(), Error>)
    ensures
        r == if created {
            Ok::<(), Error>(())
        } else {
            Err(Error::CreateFailed)
        },
{
    if created {
        Ok(())
    } else {
        Err(Error::CreateFailed)
    }
}

/// What the emulator's answer to being fed means.
pub fn feed_result(rc: i32) -> (r: Result<(), Error>)
    ensures
        r == if rc == 0 {
            Ok::<(), Error>(())
        } else {
            Err(Error::FeedFailed(rc))
        },
{
    if rc == 0 {
        Ok(())
    } else {
        Err(Error::FeedFailed(rc))
    }
}

/// What the emulator's answer to being scrolled or resized means.
pub fn scroll_result(rc: i32) -> (r: Result<(), Error>)
    ensures
        r == if rc == 0 {
            Ok::<(), Error>(())
        } else {
            Err(Error::ScrollFailed(rc))
        },
{
    if rc == 0 {
        Ok(())
    } else {
        Err(Error::ScrollFailed(rc))
    }
}

/// A number reads back from how it is written: its digits, behind a minus sign where
/// it is negative.
pub proof fn law_signed_digits_read_back(n: int)
    ensures
        n >= 0 ==> decimal::decimal_value(signed_digits(n)) == n && ascii::is_digit(
            signed_digits(n)[0],
        ),
        n < 0 ==> signed_digits(n)[0] == 0x2d && decimal::decimal_value(signed_digits(n).skip(1))
            == -n,
{
    if n < 0 {
        decimal::lemma_digits_value((-n) as nat);
        assert(signed_digits(n).skip(1) =~= decimal::decimal_digits((-n) as nat));
    } else {
        decimal::lemma_digits_value(n as nat);
        assert(ascii::is_digit(decimal::decimal_digits(n as nat)[0]));
    }
}

/// What each failure is called; feeding and scrolling name the emulator's code behind
/// it, and the other two have none.
pub proof fn law_messages(code: i32)
    ensures
        Error::CreateFailed.prefix() == "terminal create failed"@,
        Error::FeedFailed(code).prefix() == "terminal feed failed: "@,
        Error::ScrollFailed(code).prefix() == "terminal scroll failed: "@,
        Error::DumpFailed.prefix() == "terminal dump failed"@,
        Error::FeedFailed(code).code() == signed_digits(code as int),
        Error::ScrollFailed(code).code() == signed_digits(code as int),
        Error::CreateFailed.code().len() == 0,
        Error::DumpFailed.code().len() == 0,
{
}

} // verus!
