//! Text representations shared by the codecs: UTF-16 and UTF-32 code units,
//! their byte layouts, decimal and hexadecimal digits, and the few `std`
//! string operations that the codecs build on.

use vstd::prelude::*;
use vstd::utf8::*;

verus! {

broadcast use vstd::utf8::group_utf8_lib;

/// The character that lossy decoders put in place of malformed input.
pub const REPLACEMENT_CHARACTER: char = '\u{FFFD}';

// ---------------------------------------------------------------------------
// UTF-16
// ---------------------------------------------------------------------------

pub open spec fn is_surrogate(u: u16) -> bool {
    0xD800 <= u <= 0xDFFF
}

pub open spec fn is_high_surrogate(u: u16) -> bool {
    0xD800 <= u <= 0xDBFF
}

pub open spec fn is_low_surrogate(u: u16) -> bool {
    0xDC00 <= u <= 0xDFFF
}

/// The UTF-16 code units of one character.
pub open spec fn utf16_of_char(c: char) -> Seq<u16> {
    let v = c as u32;
    if v < 0x10000 {
        seq![v as u16]
    } else {
        let w = (v - 0x10000) as int;
        seq![(0xD800 + w / 0x400) as u16, (0xDC00 + w % 0x400) as u16]
    }
}

/// The UTF-16 encoding of a character sequence.
pub open spec fn encode_utf16(chars: Seq<char>) -> Seq<u16>
    decreases chars.len(),
{
    if chars.len() == 0 {
        seq![]
    } else {
        utf16_of_char(chars[0]) + encode_utf16(chars.drop_first())
    }
}

/// The scalar value that a surrogate pair stands for.
pub open spec fn surrogate_pair_value(high: u16, low: u16) -> u32 {
    (0x10000 + (high - 0xD800) * 0x400 + (low - 0xDC00)) as u32
}

/// Lossy UTF-16 decoding: a surrogate pair gives one character, an unpaired
/// surrogate gives `REPLACEMENT_CHARACTER`, and every other unit stands for itself.
pub open spec fn decode_utf16_lossy(units: Seq<u16>) -> Seq<char>
    decreases units.len(),
{
    if units.len() == 0 {
        seq![]
    } else if !is_surrogate(units[0]) {
        seq![(units[0] as u32) as char] + decode_utf16_lossy(units.drop_first())
    } else if is_high_surrogate(units[0]) && units.len() >= 2 && is_low_surrogate(units[1]) {
        seq![surrogate_pair_value(units[0], units[1]) as char] + decode_utf16_lossy(
            units.subrange(2, units.len() as int),
        )
    } else {
        seq![REPLACEMENT_CHARACTER] + decode_utf16_lossy(units.drop_first())
    }
}

/// One byte of a 16-bit unit: `k == 0` is the low byte, `k == 1` the high byte.
pub open spec fn byte_of_u16(u: u16, k: int) -> u8 {
    if k == 0 {
        (u % 256) as u8
    } else {
        (u / 256) as u8
    }
}

/// The little-endian bytes of a sequence of 16-bit units.
pub open spec fn u16s_to_le_bytes(units: Seq<u16>) -> Seq<u8> {
    Seq::new(2 * units.len(), |j: int| byte_of_u16(units[j / 2], j % 2))
}

/// The big-endian bytes of a sequence of 16-bit units.
pub open spec fn u16s_to_be_bytes(units: Seq<u16>) -> Seq<u8> {
    Seq::new(2 * units.len(), |j: int| byte_of_u16(units[j / 2], 1 - j % 2))
}

/// The 16-bit units read little-endian from whole pairs of bytes.
pub open spec fn le_bytes_to_u16s(bytes: Seq<u8>) -> Seq<u16> {
    Seq::new(bytes.len() / 2, |i: int| (bytes[2 * i] + 256 * bytes[2 * i + 1]) as u16)
}

/// The 16-bit units read big-endian from whole pairs of bytes.
pub open spec fn be_bytes_to_u16s(bytes: Seq<u8>) -> Seq<u16> {
    Seq::new(bytes.len() / 2, |i: int| (256 * bytes[2 * i] + bytes[2 * i + 1]) as u16)
}

// ---------------------------------------------------------------------------
// UTF-32
// ---------------------------------------------------------------------------

/// The scalar values of a character sequence.
pub open spec fn encode_utf32(chars: Seq<char>) -> Seq<u32> {
    chars.map_values(|c: char| c as u32)
}

/// Byte `k` (0 is the least significant) of a 32-bit unit.
pub open spec fn byte_of_u32(u: u32, k: int) -> u8 {
    if k == 0 {
        (u % 0x100) as u8
    } else if k == 1 {
        ((u / 0x100) % 0x100) as u8
    } else if k == 2 {
        ((u / 0x10000) % 0x100) as u8
    } else {
        (u / 0x1000000) as u8
    }
}

/// The little-endian bytes of a sequence of 32-bit units.
pub open spec fn u32s_to_le_bytes(units: Seq<u32>) -> Seq<u8> {
    Seq::new(4 * units.len(), |j: int| byte_of_u32(units[j / 4], j % 4))
}

/// The big-endian bytes of a sequence of 32-bit units.
pub open spec fn u32s_to_be_bytes(units: Seq<u32>) -> Seq<u8> {
    Seq::new(4 * units.len(), |j: int| byte_of_u32(units[j / 4], 3 - j % 4))
}

/// The value of four bytes, the first one the least significant.
pub open spec fn u32_of_le(b0: u8, b1: u8, b2: u8, b3: u8) -> u32 {
    (b0 + 0x100 * b1 + 0x10000 * b2 + 0x1000000 * b3) as u32
}

/// The 32-bit units read little-endian from whole groups of four bytes.
pub open spec fn le_bytes_to_u32s(bytes: Seq<u8>) -> Seq<u32> {
    Seq::new(
        bytes.len() / 4,
        |i: int| u32_of_le(bytes[4 * i], bytes[4 * i + 1], bytes[4 * i + 2], bytes[4 * i + 3]),
    )
}

/// The 32-bit units read big-endian from whole groups of four bytes.
pub open spec fn be_bytes_to_u32s(bytes: Seq<u8>) -> Seq<u32> {
    Seq::new(
        bytes.len() / 4,
        |i: int| u32_of_le(bytes[4 * i + 3], bytes[4 * i + 2], bytes[4 * i + 1], bytes[4 * i]),
    )
}

/// The character a 32-bit unit stands for, or `REPLACEMENT_CHARACTER`.
pub open spec fn char_or_replacement(u: u32) -> char {
    if is_scalar(u) {
        u as char
    } else {
        REPLACEMENT_CHARACTER
    }
}

/// Every character takes at least one byte in UTF-8.
pub proof fn lemma_chars_len_le_utf8_len(chars: Seq<char>)
    ensures
        chars.len() <= encode_utf8(chars).len(),
    decreases chars.len(),
{
    if chars.len() > 0 {
        lemma_chars_len_le_utf8_len(chars.drop_first());
    }
}

/// Every character takes at most two units in UTF-16.
pub proof fn lemma_utf16_len_le_twice(chars: Seq<char>)
    ensures
        encode_utf16(chars).len() <= 2 * chars.len(),
    decreases chars.len(),
{
    if chars.len() > 0 {
        lemma_utf16_len_le_twice(chars.drop_first());
    }
}

/// A pattern short enough that every encoding of it (at most eight bytes for
/// each of its UTF-8 bytes) has a length that fits in `usize`.
pub open spec fn pattern_fits(text: Seq<char>) -> bool {
    8 * encode_utf8(text).len() <= usize::MAX
}

// ---------------------------------------------------------------------------
// Digits
// ---------------------------------------------------------------------------

/// The ASCII decimal digits of `n`, without leading zeros.
pub open spec fn decimal_digits(n: nat) -> Seq<u8>
    decreases n,
{
    if n < 10 {
        seq![(48 + n) as u8]
    } else {
        decimal_digits(n / 10).push((48 + n % 10) as u8)
    }
}

proof fn lemma_u16_bytes(u: u16)
    ensures
        (u % 256) as u8 + 256 * ((u / 256) as u8) == u,
{
    assert((u % 256) as u8 + 256 * ((u / 256) as u8) == u) by (bit_vector);
}

proof fn lemma_u32_bytes_sum(u: u32)
    ensures
        (u % 0x100) as u8 + 0x100 * (((u / 0x100) % 0x100) as u8) + 0x10000 * (((u / 0x10000) % 0x100) as u8)
            + 0x1000000 * ((u / 0x1000000) as u8) == u,
{
    assert((u % 0x100) as u8 + 0x100 * (((u / 0x100) % 0x100) as u8) + 0x10000 * (((u / 0x10000)
        % 0x100) as u8) + 0x1000000 * ((u / 0x1000000) as u8) == u) by (bit_vector);
}

/// Little-endian bytes put the least significant byte of every unit first,
/// big-endian ones the most significant: two (or four) bytes per unit that,
/// weighted by their place, add up to the unit.
pub proof fn lemma_byte_orders(units: Seq<u16>, wide: Seq<u32>)
    ensures
        u16s_to_le_bytes(units).len() == 2 * units.len(),
        u16s_to_be_bytes(units).len() == 2 * units.len(),
        u32s_to_le_bytes(wide).len() == 4 * wide.len(),
        u32s_to_be_bytes(wide).len() == 4 * wide.len(),
        forall|i: int|
            0 <= i < units.len() ==> #[trigger] u16s_to_le_bytes(units)[2 * i] + 256 * u16s_to_le_bytes(units)[2 * i
                + 1] == units[i],
        forall|i: int|
            0 <= i < units.len() ==> 256 * #[trigger] u16s_to_be_bytes(units)[2 * i] + u16s_to_be_bytes(units)[2 * i
                + 1] == units[i],
        forall|i: int|
            0 <= i < wide.len() ==> #[trigger] u32s_to_le_bytes(wide)[4 * i] + 0x100 * u32s_to_le_bytes(wide)[4 * i + 1]
                + 0x10000 * u32s_to_le_bytes(wide)[4 * i + 2] + 0x1000000 * u32s_to_le_bytes(wide)[4 * i + 3]
                == wide[i],
        forall|i: int|
            0 <= i < wide.len() ==> 0x1000000 * #[trigger] u32s_to_be_bytes(wide)[4 * i] + 0x10000
                * u32s_to_be_bytes(wide)[4 * i + 1] + 0x100 * u32s_to_be_bytes(wide)[4 * i + 2]
                + u32s_to_be_bytes(wide)[4 * i + 3] == wide[i],
{
    assert forall|i: int| 0 <= i < units.len() implies #[trigger] u16s_to_le_bytes(units)[2 * i] + 256
        * u16s_to_le_bytes(units)[2 * i + 1] == units[i] by {
        assert((2 * i) / 2 == i && (2 * i) % 2 == 0 && (2 * i + 1) / 2 == i && (2 * i + 1) % 2 == 1);
        lemma_u16_bytes(units[i]);
    }
    assert forall|i: int| 0 <= i < units.len() implies 256 * #[trigger] u16s_to_be_bytes(units)[2 * i]
        + u16s_to_be_bytes(units)[2 * i + 1] == units[i] by {
        assert((2 * i) / 2 == i && (2 * i) % 2 == 0 && (2 * i + 1) / 2 == i && (2 * i + 1) % 2 == 1);
        lemma_u16_bytes(units[i]);
    }
    assert forall|i: int| 0 <= i < wide.len() implies #[trigger] u32s_to_le_bytes(wide)[4 * i] + 0x100
        * u32s_to_le_bytes(wide)[4 * i + 1] + 0x10000 * u32s_to_le_bytes(wide)[4 * i + 2] + 0x1000000
        * u32s_to_le_bytes(wide)[4 * i + 3] == wide[i] by {
        assert((4 * i) / 4 == i && (4 * i) % 4 == 0);
        assert((4 * i + 1) / 4 == i && (4 * i + 1) % 4 == 1);
        assert((4 * i + 2) / 4 == i && (4 * i + 2) % 4 == 2);
        assert((4 * i + 3) / 4 == i && (4 * i + 3) % 4 == 3);
        lemma_u32_bytes_sum(wide[i]);
    }
    assert forall|i: int| 0 <= i < wide.len() implies 0x1000000 * #[trigger] u32s_to_be_bytes(wide)[4 * i]
        + 0x10000 * u32s_to_be_bytes(wide)[4 * i + 1] + 0x100 * u32s_to_be_bytes(wide)[4 * i + 2]
        + u32s_to_be_bytes(wide)[4 * i + 3] == wide[i] by {
        assert((4 * i) / 4 == i && (4 * i) % 4 == 0);
        assert((4 * i + 1) / 4 == i && (4 * i + 1) % 4 == 1);
        assert((4 * i + 2) / 4 == i && (4 * i + 2) % 4 == 2);
        assert((4 * i + 3) / 4 == i && (4 * i + 3) % 4 == 3);
        lemma_u32_bytes_sum(wide[i]);
    }
}

/// UTF-16 writes a character below U+10000 as one unit equal to its code,
/// and any other as a high surrogate (0xD800 to 0xDBFF) then a low one
/// (0xDC00 to 0xDFFF) whose ten-bit halves, added to 0x10000, give its code.
/// A text's units are those of its characters, in order.
pub proof fn lemma_utf16_units(c: char, rest: Seq<char>)
    ensures
        encode_utf16(seq![c] + rest) == utf16_of_char(c) + encode_utf16(rest),
        (c as u32) < 0x10000 ==> utf16_of_char(c).len() == 1 && utf16_of_char(c)[0] == c as u32,
        (c as u32) >= 0x10000 ==> utf16_of_char(c).len() == 2 && 0xD800 <= utf16_of_char(c)[0] <= 0xDBFF
            && 0xDC00 <= utf16_of_char(c)[1] <= 0xDFFF && 0x10000 + (utf16_of_char(c)[0] - 0xD800) * 0x400 + (
        utf16_of_char(c)[1] - 0xDC00) == c as u32,
{
    assert((seq![c] + rest).drop_first() =~= rest);
    let v = c as u32;
    if v >= 0x10000 {
        assert(v <= 0x10FFFF);
        let w = (v - 0x10000) as int;
        assert(0 <= w / 0x400 < 0x400);
        assert(w == 0x400 * (w / 0x400) + w % 0x400);
    }
}

/// The number that decimal digits spell, the first digit the most significant.
pub open spec fn decimal_value(digits: Seq<u8>) -> int
    decreases digits.len(),
{
    if digits.len() == 0 {
        0
    } else {
        10 * decimal_value(digits.drop_last()) + (digits.last() - 48)
    }
}

/// The decimal digits of a number are ASCII digits that spell it, with no
/// leading zero.
pub proof fn lemma_decimal_digits_spell(n: nat)
    ensures
        decimal_digits(n).len() >= 1,
        forall|k: int| 0 <= k < decimal_digits(n).len() ==> 48 <= #[trigger] decimal_digits(n)[k] <= 57,
        decimal_value(decimal_digits(n)) == n,
        n > 0 ==> decimal_digits(n)[0] != 48,
    decreases n,
{
    if n < 10 {
        let d = decimal_digits(n);
        assert(d.drop_last() =~= Seq::<u8>::empty());
        assert(decimal_value(d.drop_last()) == 0);
        assert(d.last() == 48 + n);
        assert(decimal_value(d) == 10 * decimal_value(d.drop_last()) + (d.last() - 48));
    } else {
        lemma_decimal_digits_spell(n / 10);
        let d = decimal_digits(n);
        assert(d.drop_last() =~= decimal_digits(n / 10));
        assert(d.last() - 48 == n % 10);
        vstd::arithmetic::div_mod::lemma_fundamental_div_mod(n as int, 10);
        assert(decimal_value(d) == 10 * decimal_value(d.drop_last()) + (d.last() - 48));
        assert(decimal_value(d.drop_last()) == n / 10);
        assert forall|k: int| 0 <= k < d.len() implies 48 <= #[trigger] d[k] <= 57 by {
            if k < d.len() - 1 {
                assert(d[k] == decimal_digits(n / 10)[k]);
            }
        }
        assert(d[0] == decimal_digits(n / 10)[0]);
    }
}

/// The characters of a sequence of ASCII bytes.
pub open spec fn ascii_chars(bytes: Seq<u8>) -> Seq<char> {
    bytes.map_values(|b: u8| b as char)
}

/// The lowercase ASCII hexadecimal digit of a value below 16.
pub open spec fn hex_digit(v: int) -> u8 {
    if v < 10 {
        (48 + v) as u8
    } else {
        (87 + v) as u8
    }
}

/// The two lowercase hexadecimal digits of a byte.
pub open spec fn hex_pair(b: u8) -> Seq<u8> {
    seq![hex_digit((b / 16) as int), hex_digit((b % 16) as int)]
}

// ---------------------------------------------------------------------------
// std string operations
// ---------------------------------------------------------------------------

/// `String::push`: the string grows by the one character.
#[verifier::external_body]
pub(crate) fn push_char(s: &mut String, c: char)
    ensures
        final(s)@ == old(s)@.push(c),
{
    s.push(c)
}

/// `String::into_bytes`: a string's bytes are the UTF-8 encoding of its characters.
#[verifier::external_body]
pub(crate) fn into_utf8_bytes(s: String) -> (res: Vec<u8>)
    ensures
        res@ == encode_utf8(s@),
{
    s.into_bytes()
}

/// `String::from_utf8`: on valid UTF-8 it succeeds with the decoded characters.
#[verifier::external_body]
pub(crate) fn string_from_utf8(bytes: Vec<u8>) -> (res: String)
    requires
        valid_utf8(bytes@),
    ensures
        res@ == decode_utf8(bytes@),
{
    String::from_utf8(bytes).unwrap()
}

/// `std::str::from_utf8`: on valid UTF-8 it succeeds with the decoded characters.
#[verifier::external_body]
pub(crate) fn str_from_utf8(bytes: &[u8]) -> (res: &str)
    requires
        valid_utf8(bytes@),
    ensures
        res@ == decode_utf8(bytes@),
{
    std::str::from_utf8(bytes).unwrap()
}

/// `char::from_u32`: succeeds exactly on Unicode scalar values.
#[verifier::external_body]
pub(crate) fn char_from_u32(v: u32) -> (res: Option<char>)
    ensures
        res == (if is_scalar(v) { Some(v as char) } else { None::<char> }),
{
    char::from_u32(v)
}

/// `k` is the length of the longest prefix of `bytes` that is valid UTF-8.
pub open spec fn is_valid_utf8_up_to(bytes: Seq<u8>, k: int) -> bool {
    &&& 0 <= k <= bytes.len()
    &&& valid_utf8(bytes.take(k))
    &&& forall|j: int| k < j <= bytes.len() ==> !valid_utf8(#[trigger] bytes.take(j))
}

/// The length of the longest prefix of `bytes` that is valid UTF-8.
pub open spec fn utf8_valid_prefix_len(bytes: Seq<u8>) -> int {
    choose|k: int| is_valid_utf8_up_to(bytes, k)
}

/// Only one length is that of the longest valid prefix.
pub proof fn lemma_utf8_valid_prefix_len(bytes: Seq<u8>, k: int)
    requires
        is_valid_utf8_up_to(bytes, k),
    ensures
        utf8_valid_prefix_len(bytes) == k,
{
    let c = utf8_valid_prefix_len(bytes);
    assert(is_valid_utf8_up_to(bytes, c));
    if c < k {
        assert(!valid_utf8(bytes.take(k)));
    } else if k < c {
        assert(!valid_utf8(bytes.take(c)));
    }
}

/// `encoding_rs::Encoding::utf8_valid_up_to`: the index of the first byte
/// that makes the input malformed as UTF-8 (the start of the first malformed
/// or truncated sequence), or the length when all of it is valid; that is,
/// the length of the longest prefix that is valid UTF-8.
#[verifier::external_body]
pub(crate) fn utf8_valid_up_to(bytes: &[u8]) -> (res: usize)
    ensures
        is_valid_utf8_up_to(bytes@, res as int),
{
    encoding_rs::Encoding::utf8_valid_up_to(bytes)
}

/// The length of the longest prefix of `bytes` that is valid UTF-8.
pub fn valid_utf8_prefix_len(bytes: &[u8]) -> (res: usize)
    ensures
        res == utf8_valid_prefix_len(bytes@),
        valid_utf8(bytes@.take(res as int)),
        res <= bytes@.len(),
{
    let k = utf8_valid_up_to(bytes);
    proof {
        lemma_utf8_valid_prefix_len(bytes@, k as int);
    }
    k
}

// ---------------------------------------------------------------------------
// Verified helpers
// ---------------------------------------------------------------------------

/// Appends the decimal digits of `n` to `out`.
pub fn push_decimal_digits(out: &mut Vec<u8>, n: u32)
    ensures
        final(out)@ == old(out)@ + decimal_digits(n as nat),
    decreases n,
{
    if n >= 10 {
        push_decimal_digits(out, n / 10);
    }
    out.push(48 + (n % 10) as u8);
    proof {
        assert(final(out)@ =~= old(out)@ + decimal_digits(n as nat));
    }
}

/// The characters of a string slice, in order.
pub fn chars_of(data: &str) -> (res: Vec<char>)
    ensures
        res@ == data@,
{
    let mut res: Vec<char> = Vec::new();
    for c in it: data.chars()
        invariant
            res@ == it.seq().take(it.index() as int),
            it.seq() == data@,
    {
        res.push(c);
    }
    res
}

/// Appends the decimal digits of `n`, as characters, to `s`.
pub fn push_decimal_chars(s: &mut String, n: u64)
    ensures
        final(s)@ == old(s)@ + ascii_chars(decimal_digits(n as nat)),
    decreases n,
{
    if n >= 10 {
        push_decimal_chars(s, n / 10);
    }
    let d: u8 = 48 + (n % 10) as u8;
    push_char(s, d as char);
    proof {
        if n >= 10 {
            assert(ascii_chars(decimal_digits(n as nat)) =~= ascii_chars(
                decimal_digits((n / 10) as nat),
            ).push(d as char));
        } else {
            assert(ascii_chars(decimal_digits(n as nat)) =~= seq![d as char]);
        }
        assert(final(s)@ =~= old(s)@ + ascii_chars(decimal_digits(n as nat)));
    }
}

/// Appends the two lowercase hexadecimal digits of `b`, as characters, to `s`.
pub fn push_hex_pair_chars(s: &mut String, b: u8)
    ensures
        final(s)@ == old(s)@ + ascii_chars(hex_pair(b)),
{
    let hi = b / 16;
    let lo = b % 16;
    let h: u8 = if hi < 10 { 48 + hi } else { 87 + hi };
    let l: u8 = if lo < 10 { 48 + lo } else { 87 + lo };
    push_char(s, h as char);
    push_char(s, l as char);
    proof {
        assert(ascii_chars(hex_pair(b)) =~= seq![h as char, l as char]);
        assert(final(s)@ =~= old(s)@ + ascii_chars(hex_pair(b)));
    }
}

} // verus!
