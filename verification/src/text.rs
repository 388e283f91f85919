//! Lengths and positions in text: characters, UTF-8 bytes and UTF-16 units.
use vstd::prelude::*;
use vstd::utf8::*;
use crate::ascii::same_bytes;

verus! {

/// `String::push` appends one character.
pub assume_specification[ String::push ](s: &mut String, c: char)
    ensures
        final(s)@ == old(s)@.push(c),
;

/// The text of a string that may be missing.
pub open spec fn text_of(s: Option<String>) -> Option<Seq<char>> {
    match s {
        Some(s) => Some(s@),
        None => None,
    }
}

/// The bytes of a vector that may be missing.
pub open spec fn bytes_of(v: Option<Vec<u8>>) -> Option<Seq<u8>> {
    match v {
        Some(v) => Some(v@),
        None => None,
    }
}

/// The text that `String::from_utf8_lossy` reads from `bytes`.
pub uninterp spec fn lossy_text(bytes: Seq<u8>) -> Seq<char>;

/// `String::from_utf8_lossy`. The result is a function of the bytes alone, and
/// where they are valid UTF-8 it is the text that they encode.
#[verifier::external_body]
pub(crate) fn lossy_string(bytes: &[u8]) -> (s: String)
    ensures
        s@ == lossy_text(bytes@),
        valid_utf8(bytes@) ==> s@ == decode_utf8(bytes@),
{
    String::from_utf8_lossy(bytes).into_owned()
}

/// The characters of a string, in order.
pub fn chars_of(s: &str) -> (v: Vec<char>)
    ensures
        v@ == s@,
{
    let mut v: Vec<char> = Vec::new();
    for c in it: s.chars()
        invariant
            v@ == it.seq().take(it.index() as int),
            it.seq() == s@,
    {
        v.push(c);
    }
    assert(v@ =~= s@);
    v
}

/// The number of bytes that a character takes in UTF-8.
pub open spec fn utf8_width(c: char) -> nat {
    encode_scalar(c as u32).len()
}

/// The number of bytes that `c` takes in UTF-8.
pub fn len_utf8(c: char) -> (n: usize)
    ensures
        n == utf8_width(c),
        1 <= n <= 4,
{
    proof {
        char_is_scalar(c);
    }
    let u = c as u32;
    if u < 0x80 {
        1
    } else if u < 0x800 {
        2
    } else if u < 0x10000 {
        3
    } else {
        4
    }
}

/// The number of 16-bit units that a character takes in UTF-16.
pub open spec fn utf16_width(c: char) -> nat {
    if c as u32 >= 0x10000 {
        2
    } else {
        1
    }
}

/// The number of 16-bit units that `c` takes in UTF-16.
pub fn len_utf16(c: char) -> (n: usize)
    ensures
        n == utf16_width(c),
{
    if c as u32 >= 0x10000 {
        2
    } else {
        1
    }
}

/// The encoding of a concatenation is the concatenation of the encodings.
pub proof fn lemma_encode_concat(a: Seq<char>, b: Seq<char>)
    ensures
        encode_utf8(a + b) == encode_utf8(a) + encode_utf8(b),
    decreases a.len(),
{
    if a.len() == 0 {
        assert(a + b =~= b);
        assert(encode_utf8(a) + encode_utf8(b) =~= encode_utf8(b));
    } else {
        lemma_encode_concat(a.drop_first(), b);
        assert((a + b).drop_first() =~= a.drop_first() + b);
        assert(encode_utf8(a + b) =~= encode_utf8(a) + encode_utf8(b));
    }
}

/// The encoding of a string with one more character.
pub proof fn lemma_encode_push(a: Seq<char>, c: char)
    ensures
        encode_utf8(a.push(c)) == encode_utf8(a) + encode_scalar(c as u32),
{
    let one = seq![c];
    lemma_encode_concat(a, one);
    assert(a.push(c) =~= a + one);
    assert(encode_utf8(one) == encode_scalar(c as u32)) by {
        assert(encode_utf8(one.drop_first()) =~= Seq::<u8>::empty());
        assert(one[0] == c);
    }
}

/// Strings with the same encoding are the same.
pub proof fn lemma_encode_injective(a: Seq<char>, b: Seq<char>)
    requires
        encode_utf8(a) == encode_utf8(b),
    ensures
        a == b,
{
    encode_utf8_decode_utf8(a);
    encode_utf8_decode_utf8(b);
}

/// The byte offset of the `k`-th character of a string.
pub open spec fn byte_offset(chars: Seq<char>, k: int) -> nat {
    encode_utf8(chars.take(k)).len()
}

/// Each character moves the byte offset on by its own width.
pub proof fn lemma_byte_offset_step(chars: Seq<char>, k: int)
    requires
        0 <= k < chars.len(),
    ensures
        byte_offset(chars, k + 1) == byte_offset(chars, k) + utf8_width(chars[k]),
        1 <= utf8_width(chars[k]) <= 4,
{
    lemma_encode_push(chars.take(k), chars[k]);
    assert(chars.take(k + 1) =~= chars.take(k).push(chars[k]));
    char_is_scalar(chars[k]);
}

/// Byte offsets grow with the character index, and none lies past the end.
pub proof fn lemma_byte_offset_mono(chars: Seq<char>, j: int, k: int)
    requires
        0 <= j <= k <= chars.len(),
    ensures
        byte_offset(chars, j) <= byte_offset(chars, k) <= encode_utf8(chars).len(),
        byte_offset(chars, 0) == 0,
        byte_offset(chars, chars.len() as int) == encode_utf8(chars).len(),
        k - j <= byte_offset(chars, k) - byte_offset(chars, j),
    decreases chars.len() - j,
{
    assert(chars.take(0) =~= Seq::<char>::empty());
    assert(chars.take(chars.len() as int) =~= chars);
    if j < k {
        lemma_byte_offset_step(chars, j);
        lemma_byte_offset_mono(chars, j + 1, k);
    } else if k < chars.len() {
        lemma_byte_offset_step(chars, k);
        lemma_byte_offset_mono(chars, k + 1, k + 1);
    }
}

/// In ASCII text the bytes are the characters.
pub proof fn lemma_ascii_offset(chars: Seq<char>, k: int)
    requires
        0 <= k <= chars.len(),
        forall|i: int| 0 <= i < k ==> (#[trigger] chars[i] as u32) < 0x80,
    ensures
        byte_offset(chars, k) == k,
    decreases k,
{
    if k > 0 {
        lemma_ascii_offset(chars, k - 1);
        lemma_byte_offset_step(chars, k - 1);
    } else {
        lemma_byte_offset_mono(chars, 0, 0);
    }
}

/// The encoding of the first `k` characters is the encoding cut at their byte
/// offset, and so for what follows.
pub proof fn lemma_encode_take(chars: Seq<char>, k: int)
    requires
        0 <= k <= chars.len(),
    ensures
        encode_utf8(chars.take(k)) == encode_utf8(chars).take(byte_offset(chars, k) as int),
        encode_utf8(chars.skip(k)) == encode_utf8(chars).skip(byte_offset(chars, k) as int),
        byte_offset(chars, k) <= encode_utf8(chars).len(),
{
    lemma_encode_concat(chars.take(k), chars.skip(k));
    assert(chars.take(k) + chars.skip(k) =~= chars);
    assert(encode_utf8(chars.take(k)) =~= encode_utf8(chars).take(byte_offset(chars, k) as int));
    assert(encode_utf8(chars.skip(k)) =~= encode_utf8(chars).skip(byte_offset(chars, k) as int));
}

/// The number of bytes of a string.
pub fn byte_len(s: &str) -> (n: usize)
    ensures
        n == encode_utf8(s@).len(),
{
    s.as_bytes().len()
}

/// Whether two strings are equal.
pub fn same_text(a: &str, b: &str) -> (r: bool)
    ensures
        r == (a@ == b@),
{
    let r = same_bytes(a.as_bytes(), b.as_bytes());
    proof {
        if r {
            lemma_encode_injective(a@, b@);
        }
    }
    r
}

/// All of `bytes` are ASCII.
pub open spec fn all_ascii(bytes: Seq<u8>) -> bool {
    forall|i: int| 0 <= i < bytes.len() ==> #[trigger] bytes[i] < 0x80
}

/// The string whose bytes are `bytes`.
pub fn ascii_string(bytes: &[u8]) -> (s: String)
    requires
        all_ascii(bytes@),
    ensures
        encode_utf8(s@) == bytes@,
{
    let mut s = String::new();
    let mut i: usize = 0;
    assert(encode_utf8(s@) =~= bytes@.take(0));
    while i < bytes.len()
        invariant
            i <= bytes@.len(),
            all_ascii(bytes@),
            encode_utf8(s@) == bytes@.take(i as int),
        decreases bytes@.len() - i,
    {
        let c = bytes[i] as char;
        proof {
            let u = c as u32;
            assert(u == bytes@[i as int]);
            lemma_encode_push(s@, c);
            assert(u < 0x80 ==> (u & 0x7F) as u8 == u) by (bit_vector);
            assert(encode_scalar(u) =~= seq![bytes@[i as int]]);
            assert(bytes@.take(i + 1) =~= bytes@.take(i as int) + seq![bytes@[i as int]]);
        }
        s.push(c);
        i = i + 1;
    }
    assert(bytes@.take(i as int) =~= bytes@);
    s
}

/// `n`, or the largest `usize` where it does not fit.
pub open spec fn capped(n: nat) -> usize {
    if n <= usize::MAX {
        n as usize
    } else {
        usize::MAX
    }
}

/// How many characters start before byte `b`.
pub open spec fn chars_before(chars: Seq<char>, b: int) -> int {
    chars_before_from(chars, 0, b)
}

/// The first character index at or after `k` whose byte offset reaches `b`.
pub open spec fn chars_before_from(chars: Seq<char>, k: int, b: int) -> int
    decreases chars.len() - k,
{
    if k < 0 || k >= chars.len() || byte_offset(chars, k) >= b {
        k
    } else {
        chars_before_from(chars, k + 1, b)
    }
}

/// Byte `b` is where a character starts, or the end of the text.
pub open spec fn is_boundary(chars: Seq<char>, b: int) -> bool {
    byte_offset(chars, chars_before(chars, b)) == b
}

/// The text between bytes `a` and `b`; nothing where they are out of order or
/// cut a character.
pub open spec fn sub_text(chars: Seq<char>, a: int, b: int) -> Option<Seq<char>> {
    if a <= b && is_boundary(chars, a) && is_boundary(chars, b) {
        Some(chars.subrange(chars_before(chars, a), chars_before(chars, b)))
    } else {
        None
    }
}

pub proof fn lemma_chars_before_from(chars: Seq<char>, k: int, b: int)
    requires
        0 <= k <= chars.len(),
    ensures
        k <= chars_before_from(chars, k, b) <= chars.len(),
        forall|j: int|
            k <= j < chars_before_from(chars, k, b) ==> #[trigger] byte_offset(chars, j) < b,
        chars_before_from(chars, k, b) < chars.len() ==> byte_offset(
            chars,
            chars_before_from(chars, k, b),
        ) >= b,
    decreases chars.len() - k,
{
    if k < chars.len() && byte_offset(chars, k) < b {
        lemma_chars_before_from(chars, k + 1, b);
    }
}

/// The offset of a character leads back to its index.
pub proof fn lemma_chars_before_offset(chars: Seq<char>, k: int)
    requires
        0 <= k <= chars.len(),
    ensures
        chars_before(chars, byte_offset(chars, k) as int) == k,
        is_boundary(chars, byte_offset(chars, k) as int),
{
    let b = byte_offset(chars, k) as int;
    let n = chars_before(chars, b);
    lemma_chars_before_from(chars, 0, b);
    if n < k {
        lemma_byte_offset_mono(chars, n, k);
    } else if k < n {
        assert(byte_offset(chars, k) < b);
    }
}

/// The characters before a later byte are no fewer.
pub proof fn lemma_chars_before_mono(chars: Seq<char>, a: int, b: int)
    requires
        a <= b,
    ensures
        0 <= chars_before(chars, a) <= chars_before(chars, b) <= chars.len(),
{
    lemma_chars_before_from(chars, 0, a);
    lemma_chars_before_from(chars, 0, b);
    let k = chars_before(chars, b);
    if k < chars_before(chars, a) {
        assert(byte_offset(chars, k) < a);
    }
}

/// The text between two bytes has the bytes between them.
pub proof fn law_sub_text_bytes(chars: Seq<char>, a: int, b: int)
    requires
        sub_text(chars, a, b) is Some,
    ensures
        0 <= a <= b <= encode_utf8(chars).len(),
        encode_utf8(sub_text(chars, a, b).unwrap()) == encode_utf8(chars).subrange(a, b),
{
    let i = chars_before(chars, a);
    let j = chars_before(chars, b);
    lemma_chars_before_mono(chars, a, b);
    lemma_byte_offset_mono(chars, i, j);
    lemma_encode_take(chars, j);
    let head = chars.take(j);
    assert(head.take(i) =~= chars.take(i));
    assert(head.skip(i) =~= chars.subrange(i, j));
    lemma_encode_take(head, i);
    assert(encode_utf8(chars).take(b).skip(a) =~= encode_utf8(chars).subrange(a, b));
}

/// The text between bytes `a` and `b` of `s`; nothing where they are out of
/// order, out of range or cut a character.
pub fn text_slice(s: &str, a: usize, b: usize) -> (r: Option<String>)
    ensures
        text_of(r) == sub_text(s@, a as int, b as int),
{
    let chars = chars_of(s);
    let bytes = byte_len(s);
    let mut out = String::new();
    let mut i: usize = 0;
    let mut at: usize = 0;
    proof {
        lemma_byte_offset_mono(s@, 0, 0);
        lemma_chars_before_from(s@, 0, a as int);
        lemma_chars_before_from(s@, 0, b as int);
    }
    if a > b {
        return None;
    }
    while i < chars.len() && at < a
        invariant
            chars@ == s@,
            i <= s@.len(),
            at == byte_offset(s@, i as int),
            chars_before(s@, a as int) == chars_before_from(s@, i as int, a as int),
            bytes == encode_utf8(s@).len(),
        decreases s@.len() - i,
    {
        proof {
            lemma_byte_offset_step(s@, i as int);
            lemma_byte_offset_mono(s@, i + 1, i + 1);
        }
        at = at + len_utf8(chars[i]);
        i = i + 1;
    }
    if at != a {
        return None;
    }
    let ghost first = i as int;
    proof {
        lemma_chars_before_mono(s@, a as int, b as int);
        assert(chars_before(s@, b as int) == chars_before_from(s@, first, b as int)) by {
            lemma_chars_before_from(s@, 0, b as int);
            lemma_chars_before_from(s@, first, b as int);
            let x = chars_before(s@, b as int);
            let y = chars_before_from(s@, first, b as int);
            if x < y {
                assert(byte_offset(s@, x) < b);
            } else if y < x {
                assert(byte_offset(s@, y) < b);
            }
        }
    }
    assert(out@ =~= s@.subrange(first, first));
    while i < chars.len() && at < b
        invariant
            chars@ == s@,
            0 <= first <= i <= s@.len(),
            at == byte_offset(s@, i as int),
            out@ == s@.subrange(first, i as int),
            chars_before(s@, b as int) == chars_before_from(s@, i as int, b as int),
            bytes == encode_utf8(s@).len(),
        decreases s@.len() - i,
    {
        proof {
            lemma_byte_offset_step(s@, i as int);
            lemma_byte_offset_mono(s@, i + 1, i + 1);
        }
        at = at + len_utf8(chars[i]);
        out.push(chars[i]);
        i = i + 1;
        assert(out@ =~= s@.subrange(first, i as int));
    }
    if at != b {
        return None;
    }
    Some(out)
}

/// The 16-bit units of the first `k` characters.
pub open spec fn utf16_offset(chars: Seq<char>, k: int) -> nat
    decreases k,
{
    if k <= 0 || k > chars.len() {
        0
    } else {
        utf16_offset(chars, k - 1) + utf16_width(chars[k - 1])
    }
}

/// A text has no more 16-bit units than bytes, and offsets grow.
pub proof fn lemma_utf16_offset(chars: Seq<char>, j: int, k: int)
    requires
        0 <= j <= k <= chars.len(),
    ensures
        utf16_offset(chars, k) <= byte_offset(chars, k) <= encode_utf8(chars).len(),
        utf16_offset(chars, j) + (k - j) <= utf16_offset(chars, k),
    decreases k,
{
    lemma_byte_offset_mono(chars, k, k);
    if k > 0 {
        lemma_byte_offset_step(chars, k - 1);
        char_is_scalar(chars[k - 1]);
        if j < k {
            lemma_utf16_offset(chars, j, k - 1);
        } else {
            lemma_utf16_offset(chars, k - 1, k - 1);
        }
    }
}

/// The number of 16-bit units of a text.
pub fn utf16_len(s: &str) -> (n: usize)
    ensures
        n == utf16_offset(s@, s@.len() as int),
        n <= encode_utf8(s@).len(),
{
    let chars = chars_of(s);
    let bytes = byte_len(s);
    let mut n: usize = 0;
    let mut i: usize = 0;
    while i < chars.len()
        invariant
            chars@ == s@,
            bytes == encode_utf8(s@).len(),
            i <= s@.len(),
            n == utf16_offset(s@, i as int),
        decreases s@.len() - i,
    {
        proof {
            lemma_utf16_offset(s@, i as int, i + 1);
        }
        n = n + len_utf16(chars[i]);
        i = i + 1;
    }
    proof {
        lemma_utf16_offset(s@, s@.len() as int, s@.len() as int);
    }
    n
}

/// The byte offset of the first character, from index `k` on, that starts at or
/// after 16-bit unit `u`; nothing where the text is shorter.
pub open spec fn utf16_to_utf8_from(chars: Seq<char>, k: int, u: int) -> Option<int>
    decreases chars.len() + 1 - k,
{
    if k < 0 || k > chars.len() {
        None
    } else if utf16_offset(chars, k) >= u {
        Some(byte_offset(chars, k) as int)
    } else {
        utf16_to_utf8_from(chars, k + 1, u)
    }
}

/// The byte offset that belongs to 16-bit unit `u`: that of the first character
/// that starts there or later; nothing where the text is shorter.
pub open spec fn utf16_to_utf8(chars: Seq<char>, u: int) -> Option<int> {
    utf16_to_utf8_from(chars, 0, u)
}

/// The byte offset that belongs to 16-bit unit `u`.
pub fn utf8_index_for_utf16(s: &str, u: usize) -> (r: Option<usize>)
    ensures
        r is Some <==> utf16_to_utf8(s@, u as int) is Some,
        r matches Some(b) ==> Some(b as int) == utf16_to_utf8(s@, u as int),
{
    let chars = chars_of(s);
    let bytes = byte_len(s);
    let mut units: usize = 0;
    let mut at: usize = 0;
    let mut i: usize = 0;
    proof {
        lemma_byte_offset_mono(s@, 0, 0);
    }
    loop
        invariant
            chars@ == s@,
            bytes == encode_utf8(s@).len(),
            i <= s@.len(),
            units == utf16_offset(s@, i as int),
            at == byte_offset(s@, i as int),
            utf16_to_utf8(s@, u as int) == utf16_to_utf8_from(s@, i as int, u as int),
        decreases s@.len() - i,
    {
        if units >= u {
            return Some(at);
        }
        if i >= chars.len() {
            assert(utf16_to_utf8_from(s@, i + 1, u as int) is None);
            return None;
        }
        proof {
            lemma_utf16_offset(s@, i as int, i + 1);
            lemma_byte_offset_step(s@, i as int);
        }
        units = units + len_utf16(chars[i]);
        at = at + len_utf8(chars[i]);
        i = i + 1;
    }
}

/// Every unit up to the length of a text has a byte offset.
pub proof fn lemma_utf16_to_utf8_some(chars: Seq<char>, u: int)
    requires
        u <= utf16_offset(chars, chars.len() as int),
    ensures
        utf16_to_utf8(chars, u) is Some,
{
    lemma_utf16_to_utf8_from_some(chars, 0, u);
}

proof fn lemma_utf16_to_utf8_from_some(chars: Seq<char>, k: int, u: int)
    requires
        0 <= k <= chars.len(),
        u <= utf16_offset(chars, chars.len() as int),
    ensures
        utf16_to_utf8_from(chars, k, u) is Some,
    decreases chars.len() - k,
{
    if utf16_offset(chars, k) < u {
        lemma_utf16_to_utf8_from_some(chars, k + 1, u);
    }
}

/// The byte range that belongs to a range of 16-bit units.
pub fn utf16_range_to_utf8(s: &str, range: std::ops::Range<usize>) -> (r: Option<
    std::ops::Range<usize>,
>)
    ensures
        r is Some <==> utf16_to_utf8(s@, range.start as int) is Some && utf16_to_utf8(
            s@,
            range.end as int,
        ) is Some,
        r matches Some(bytes) ==> Some(bytes.start as int) == utf16_to_utf8(
            s@,
            range.start as int,
        ) && Some(bytes.end as int) == utf16_to_utf8(s@, range.end as int),
{
    match utf8_index_for_utf16(s, range.start) {
        Some(start) => match utf8_index_for_utf16(s, range.end) {
            Some(end) => Some(start..end),
            None => None,
        },
        None => None,
    }
}

/// A character takes two 16-bit units exactly where it takes four bytes.
pub proof fn law_pairs_are_the_four_byte_chars(c: char)
    ensures
        utf16_width(c) == 1 || utf16_width(c) == 2,
        utf16_width(c) == 2 <==> utf8_width(c) == 4,
{
    char_is_scalar(c);
}

proof fn lemma_utf16_to_utf8_from(chars: Seq<char>, k: int, i: int, u: int)
    requires
        0 <= k <= i <= chars.len(),
        utf16_offset(chars, i) >= u,
        i > 0 ==> utf16_offset(chars, i - 1) < u,
    ensures
        utf16_to_utf8_from(chars, k, u) == Some(byte_offset(chars, i) as int),
    decreases i - k,
{
    if k < i {
        lemma_utf16_offset(chars, k, i - 1);
        lemma_utf16_to_utf8_from(chars, k + 1, i, u);
    }
}

/// The 16-bit unit at which a character starts belongs to the byte at which it starts,
/// and the second unit of a character of two belongs to the byte behind it. Past the
/// end of the text there is none.
pub proof fn law_units_and_bytes(chars: Seq<char>, k: int, u: int)
    requires
        0 <= k <= chars.len(),
    ensures
        utf16_to_utf8(chars, utf16_offset(chars, k) as int) == Some(byte_offset(chars, k) as int),
        k < chars.len() && utf16_width(chars[k]) == 2 ==> utf16_to_utf8(
            chars,
            utf16_offset(chars, k) as int + 1,
        ) == Some(byte_offset(chars, k + 1) as int),
        utf16_offset(chars, 0) == 0,
        k < chars.len() ==> utf16_offset(chars, k + 1) == utf16_offset(chars, k) + utf16_width(
            chars[k],
        ),
        u > utf16_offset(chars, chars.len() as int) ==> utf16_to_utf8(chars, u) is None,
{
    if k > 0 {
        lemma_utf16_offset(chars, k - 1, k);
    }
    lemma_utf16_to_utf8_from(chars, 0, k, utf16_offset(chars, k) as int);
    if k < chars.len() && utf16_width(chars[k]) == 2 {
        lemma_utf16_to_utf8_from(chars, 0, k + 1, utf16_offset(chars, k) as int + 1);
    }
    if u > utf16_offset(chars, chars.len() as int) {
        lemma_utf16_past_the_end(chars, 0, u);
    }
}

proof fn lemma_utf16_past_the_end(chars: Seq<char>, k: int, u: int)
    requires
        0 <= k <= chars.len() + 1,
        u > utf16_offset(chars, chars.len() as int),
    ensures
        utf16_to_utf8_from(chars, k, u) is None,
    decreases chars.len() + 1 - k,
{
    if k <= chars.len() {
        lemma_utf16_offset(chars, k, chars.len() as int);
        lemma_utf16_past_the_end(chars, k + 1, u);
    }
}

/// The text between the bytes at which two characters start is the characters between
/// them; a byte at which none starts cuts a character, and then there is none, as
/// where the end comes before the start.
pub proof fn law_sub_text_is_the_chars_between(chars: Seq<char>, i: int, j: int, a: int, b: int)
    requires
        0 <= i <= j <= chars.len(),
    ensures
        sub_text(chars, byte_offset(chars, i) as int, byte_offset(chars, j) as int) == Some(
            chars.subrange(i, j),
        ),
        a > b ==> sub_text(chars, a, b) is None,
        (forall|k: int| 0 <= k <= chars.len() ==> #[trigger] byte_offset(chars, k) != a)
            ==> sub_text(chars, a, b) is None && sub_text(chars, b, a) is None,
{
    lemma_chars_before_offset(chars, i);
    lemma_chars_before_offset(chars, j);
    lemma_byte_offset_mono(chars, i, j);
    lemma_chars_before_from(chars, 0, a);
    assert(0 <= chars_before(chars, a) <= chars.len());
}

/// A number that fits stays as it is, and a larger one becomes the largest that fits.
pub proof fn law_capped(n: nat, m: nat)
    ensures
        n <= usize::MAX ==> capped(n) == n,
        n >= usize::MAX ==> capped(n) == usize::MAX,
        n <= m ==> capped(n) <= capped(m),
{
}

} // verus!
