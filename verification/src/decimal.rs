//! Decimal parameters of control sequences, read and written.
use vstd::prelude::*;
use crate::ascii;

verus! {

/// The number that a string of ASCII digits writes.
pub open spec fn decimal_value(digits: Seq<u8>) -> nat
    decreases digits.len(),
{
    if digits.len() == 0 {
        0
    } else {
        (decimal_value(digits.drop_last()) * 10 + (digits.last() - 0x30)) as nat
    }
}

/// The number that a string of digits writes, or the largest `u32` where it
/// does not fit.
pub open spec fn capped_value(digits: Seq<u8>) -> u32 {
    if decimal_value(digits) <= u32::MAX {
        decimal_value(digits) as u32
    } else {
        u32::MAX
    }
}

/// Appending one more digit to a capped number.
pub open spec fn append_digit(value: u32, digit: u8) -> u32 {
    if value * 10 + (digit - 0x30) <= u32::MAX {
        (value * 10 + (digit - 0x30)) as u32
    } else {
        u32::MAX
    }
}

/// Reading a number digit by digit, capping as it goes, gives the capped
/// number.
pub proof fn lemma_capped_push(digits: Seq<u8>, digit: u8)
    requires
        ascii::is_digit(digit),
    ensures
        capped_value(digits.push(digit)) == append_digit(capped_value(digits), digit),
{
    assert(digits.push(digit).drop_last() =~= digits);
}

/// Appends `digit` to the number read so far, capping it at `u32::MAX`.
pub fn push_digit(value: u32, digit: u8) -> (r: u32)
    requires
        ascii::is_digit(digit),
    ensures
        r == append_digit(value, digit),
{
    match value.checked_mul(10) {
        Some(tenfold) => tenfold.saturating_add((digit - 0x30) as u32),
        None => u32::MAX,
    }
}

/// The digits of `n` in base ten, without leading zeros.
pub open spec fn decimal_digits(n: nat) -> Seq<u8>
    decreases n,
{
    if n < 10 {
        seq![(0x30 + n) as u8]
    } else {
        decimal_digits(n / 10).push((0x30 + n % 10) as u8)
    }
}

/// What is written as decimal digits reads back as the same number.
pub proof fn lemma_digits_value(n: nat)
    ensures
        decimal_value(decimal_digits(n)) == n,
        decimal_digits(n).len() > 0,
        forall|i: int|
            0 <= i < decimal_digits(n).len() ==> ascii::is_digit(#[trigger] decimal_digits(n)[i]),
    decreases n,
{
    if n < 10 {
        let d = decimal_digits(n);
        assert(d.drop_last() =~= Seq::<u8>::empty());
        assert(decimal_value(d.drop_last()) == 0);
    } else {
        lemma_digits_value(n / 10);
        let d = decimal_digits(n);
        assert(d.drop_last() =~= decimal_digits(n / 10));
    }
}

/// What one digit writes.
pub proof fn lemma_one_digit(a: u8)
    requires
        ascii::is_digit(a),
    ensures
        decimal_value(seq![a]) == a - 0x30,
{
    assert(seq![a].drop_last() =~= Seq::<u8>::empty());
    assert(decimal_value(Seq::<u8>::empty()) == 0);
}

/// What two digits write: the first counts tenfold.
pub proof fn lemma_two_digits(a: u8, b: u8)
    requires
        ascii::is_digit(a),
        ascii::is_digit(b),
    ensures
        decimal_value(seq![a, b]) == (a - 0x30) * 10 + (b - 0x30),
{
    lemma_one_digit(a);
    assert(seq![a, b].drop_last() =~= seq![a]);
}

/// What four digits write.
pub proof fn lemma_four_digits(a: u8, b: u8, c: u8, d: u8)
    requires
        ascii::is_digit(a),
        ascii::is_digit(b),
        ascii::is_digit(c),
        ascii::is_digit(d),
    ensures
        decimal_value(seq![a, b, c, d]) == (a - 0x30) * 1000 + (b - 0x30) * 100 + (c - 0x30) * 10
            + (d - 0x30),
{
    lemma_two_digits(a, b);
    let three = seq![a, b, c];
    let four = seq![a, b, c, d];
    assert(three.drop_last() =~= seq![a, b]);
    assert(decimal_value(three) == decimal_value(seq![a, b]) * 10 + (c - 0x30));
    assert(four.drop_last() =~= three);
    assert(decimal_value(four) == decimal_value(three) * 10 + (d - 0x30));
}

/// Digits are read from the left: each further one counts the number before it tenfold
/// and adds itself, zeros in front change nothing, and a number that does not fit into
/// 32 bits counts as the largest that does.
pub proof fn law_digits_are_read_from_the_left(digits: Seq<u8>, digit: u8)
    requires
        0x30 <= digit <= 0x39,
    ensures
        decimal_value(Seq::empty()) == 0,
        decimal_value(digits.push(digit)) == 10 * decimal_value(digits) + (digit - 0x30),
        decimal_value(seq![0x30u8] + digits) == decimal_value(digits),
        decimal_value(digits) < 0x1_0000_0000 ==> capped_value(digits) == decimal_value(digits),
        decimal_value(digits) >= 0x1_0000_0000 ==> capped_value(digits) == 0xffff_ffff,
    decreases digits.len(),
{
    assert(digits.push(digit).drop_last() =~= digits);
    let zeroed = seq![0x30u8] + digits;
    if digits.len() == 0 {
        lemma_one_digit(0x30);
        assert(zeroed =~= seq![0x30u8]);
    } else {
        law_digits_are_read_from_the_left(digits.drop_last(), digit);
        assert(zeroed.drop_last() =~= seq![0x30u8] + digits.drop_last());
    }
}

/// A number is written without zeros in front, and a single digit for less than ten.
pub proof fn law_no_leading_zero(n: nat)
    ensures
        n > 0 ==> decimal_digits(n)[0] != 0x30,
        n < 10 ==> decimal_digits(n).len() == 1,
    decreases n,
{
    if n >= 10 {
        law_no_leading_zero(n / 10);
        lemma_digits_value(n / 10);
    }
}

/// Appends the decimal digits of `n` to `out`.
pub fn push_decimal(out: &mut Vec<u8>, n: u32)
    ensures
        final(out)@ == old(out)@ + decimal_digits(n as nat),
    decreases n,
{
    if n >= 10 {
        push_decimal(out, n / 10);
    }
    let ghost before = out@;
    out.push(0x30 + (n % 10) as u8);
    assert(out@ =~= old(out)@ + decimal_digits(n as nat));
}

/// The lower-case hexadecimal digit of `n`.
pub open spec fn hex_digit(n: int) -> u8 {
    if n < 10 {
        (0x30 + n) as u8
    } else {
        (0x61 + n - 10) as u8
    }
}

/// `n` as four lower-case hexadecimal digits.
pub open spec fn hex4(n: u16) -> Seq<u8> {
    seq![
        hex_digit(n as int / 4096),
        hex_digit(n as int / 256 % 16),
        hex_digit(n as int / 16 % 16),
        hex_digit(n as int % 16),
    ]
}

/// What a lower-case hexadecimal digit stands for.
pub open spec fn hex_value(b: u8) -> int {
    if 0x30 <= b <= 0x39 {
        b - 0x30
    } else if 0x61 <= b <= 0x66 {
        b - 0x61 + 10
    } else {
        -1
    }
}

/// What is written as four hexadecimal digits reads back as the same number.
pub proof fn law_hex4_reads_back(n: u16)
    ensures
        hex4(n).len() == 4,
        forall|i: int| 0 <= i < 4 ==> 0 <= hex_value(#[trigger] hex4(n)[i]) < 16,
        ((hex_value(hex4(n)[0]) * 16 + hex_value(hex4(n)[1])) * 16 + hex_value(hex4(n)[2])) * 16
            + hex_value(hex4(n)[3]) == n,
{
    let h = hex4(n);
    assert(hex_value(h[0]) == n as int / 4096);
    assert(hex_value(h[1]) == n as int / 256 % 16);
    assert(hex_value(h[2]) == n as int / 16 % 16);
    assert(hex_value(h[3]) == n as int % 16);
}

/// A byte doubled to sixteen bits is its two hexadecimal digits twice.
pub proof fn lemma_doubled_hex4(c: u8)
    ensures
        ({
            let h = hex4((c * 0x0101) as u16);
            &&& hex_value(h[0]) * 16 + hex_value(h[1]) == c
            &&& h[2] == h[0]
            &&& h[3] == h[1]
        }),
{
    let n = (c * 0x0101) as u16;
    assert(n as int / 4096 == c as int / 16);
    assert(n as int / 256 % 16 == c as int % 16);
    assert(n as int / 16 % 16 == c as int / 16);
    assert(n as int % 16 == c as int % 16);
}

fn nibble(n: u16) -> (r: u8)
    requires
        n < 16,
    ensures
        r == hex_digit(n as int),
{
    if n < 10 {
        0x30 + n as u8
    } else {
        0x61 + (n - 10) as u8
    }
}

/// Appends `n` as four lower-case hexadecimal digits to `out`.
pub fn push_hex4(out: &mut Vec<u8>, n: u16)
    ensures
        final(out)@ == old(out)@ + hex4(n),
{
    out.push(nibble(n / 4096));
    out.push(nibble(n / 256 % 16));
    out.push(nibble(n / 16 % 16));
    out.push(nibble(n % 16));
    assert(out@ =~= old(out)@ + hex4(n));
}

} // verus!
