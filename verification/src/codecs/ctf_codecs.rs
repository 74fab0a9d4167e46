//! The codecs that CTF challenges like to use: decimal character codes,
//! single-byte XOR, hexadecimal, binary digits, ROT13 and ROT47.

use vstd::prelude::*;
use vstd::string::*;
use vstd::utf8::*;
use crate::codecs::{codec_views, extend_codecs, opt_bytes, spec_decode, Codec, CodecView, Decoder};
use crate::text::{
    ascii_chars, hex_digit, hex_pair, pattern_fits, push_hex_pair_chars, chars_of, decimal_digits, into_utf8_bytes, push_char, push_decimal_chars,
    push_decimal_digits,
};

verus! {

broadcast use vstd::utf8::group_utf8_lib;

// ---------------------------------------------------------------------------
// Decimal character codes
// ---------------------------------------------------------------------------

pub open spec fn is_ascii_digit(b: u8) -> bool {
    48 <= b <= 57
}

fn ascii_digit(b: u8) -> (res: bool)
    ensures
        res == is_ascii_digit(b),
{
    b >= 48 && b <= 57
}

/// The characters that the decimal decoder produces from `buf[i..]` when it
/// has accumulated `cur`: digits are accumulated (in 8-bit arithmetic that
/// wraps around) until the value reaches 32, which is then emitted as a
/// character; the first byte that is no digit ends the decoding.
pub open spec fn base10_chars_from(buf: Seq<u8>, i: int, cur: u8) -> Seq<char>
    decreases buf.len() - i,
{
    if i < 0 || i >= buf.len() || !is_ascii_digit(buf[i]) {
        seq![]
    } else {
        let next = ((cur * 10) % 256 + (buf[i] - 48)) % 256;
        if next >= 32 {
            seq![(next as u8) as char] + base10_chars_from(buf, i + 1, 0)
        } else {
            base10_chars_from(buf, i + 1, next as u8)
        }
    }
}

/// What the decimal decoder gives for a buffer, as UTF-8.
pub open spec fn spec_base10_decoded(buf: Seq<u8>) -> Seq<u8> {
    encode_utf8(base10_chars_from(buf, 0, 0))
}

/// Decodes decimal character codes written one after the other.
pub fn base10_ascii_decoder(buf: Vec<u8>) -> (res: Option<Vec<u8>>)
    ensures
        opt_bytes(res) == Some(spec_base10_decoded(buf@)),
{
    let mut acc = String::new();
    let mut cur: u8 = 0;
    let mut i: usize = 0;
    while i < buf.len() && ascii_digit(buf[i])
        invariant
            i <= buf@.len(),
            acc@ + base10_chars_from(buf@, i as int, cur) == base10_chars_from(buf@, 0, 0),
        decreases buf@.len() - i,
    {
        let ghost before = acc@;
        let ghost old_cur = cur;
        let c = buf[i];
        cur = cur.wrapping_mul(10);
        cur = cur.wrapping_add(c - 48);
        assert(cur == ((old_cur * 10) % 256 + (c - 48)) % 256);
        if cur >= 32 {
            push_char(&mut acc, cur as char);
            cur = 0;
        }
        proof {
            assert(acc@ + base10_chars_from(buf@, i + 1, cur) =~= before + base10_chars_from(
                buf@,
                i as int,
                old_cur,
            ));
        }
        i = i + 1;
    }
    proof {
        assert(acc@ =~= base10_chars_from(buf@, 0, 0));
    }
    Some(into_utf8_bytes(acc))
}

/// The decimal codes of the characters, written one after the other.
pub open spec fn base10_encoded(chars: Seq<char>) -> Seq<u8>
    decreases chars.len(),
{
    if chars.len() == 0 {
        seq![]
    } else {
        base10_encoded(chars.drop_last()) + decimal_digits(chars.last() as u32 as nat)
    }
}

pub open spec fn spec_base10_ascii_codec(text: Seq<char>) -> CodecView {
    CodecView {
        encoded: base10_encoded(text),
        name: "base10-ascii"@,
        decoder: Decoder::Base10Ascii,
    }
}

/// The decimal codec: the code of every character in decimal.
pub fn base10_ascii_codec(data: &str) -> (res: Codec)
    ensures
        res@ == spec_base10_ascii_codec(data@),
{
    let chars = chars_of(data);
    let mut buf: Vec<u8> = Vec::new();
    let mut i: usize = 0;
    while i < chars.len()
        invariant
            i <= chars@.len(),
            chars@ == data@,
            buf@ == base10_encoded(chars@.take(i as int)),
        decreases chars@.len() - i,
    {
        push_decimal_digits(&mut buf, chars[i] as u32);
        proof {
            assert(chars@.take(i + 1).drop_last() =~= chars@.take(i as int));
        }
        i = i + 1;
    }
    proof {
        assert(chars@.take(chars@.len() as int) =~= chars@);
    }
    Codec { encoded: buf, name: String::from_str("base10-ascii"), decoder: Decoder::Base10Ascii }
}

// ---------------------------------------------------------------------------
// XOR with a constant byte
// ---------------------------------------------------------------------------

/// Every byte XORed with `key`.
pub open spec fn xor_all(bytes: Seq<u8>, key: u8) -> Seq<u8> {
    bytes.map_values(|b: u8| b ^ key)
}

fn xor_bytes(bytes: &[u8], key: u8) -> (res: Vec<u8>)
    ensures
        res@ == xor_all(bytes@, key),
{
    let mut out: Vec<u8> = Vec::new();
    let mut i: usize = 0;
    while i < bytes.len()
        invariant
            i <= bytes@.len(),
            out@ == xor_all(bytes@.take(i as int), key),
        decreases bytes@.len() - i,
    {
        out.push(bytes[i] ^ key);
        proof {
            assert(xor_all(bytes@.take(i + 1), key) =~= xor_all(bytes@.take(i as int), key).push(
                bytes@[i as int] ^ key,
            ));
        }
        i = i + 1;
    }
    proof {
        assert(bytes@.take(bytes@.len() as int) =~= bytes@);
    }
    out
}

/// XORs every byte with the key again.
pub fn xor_decoder(buf: Vec<u8>, key: u8) -> (res: Option<Vec<u8>>)
    ensures
        opt_bytes(res) == Some(xor_all(buf@, key)),
{
    Some(xor_bytes(buf.as_slice(), key))
}

/// The name of the XOR codec with a key: `XOR_` and the key in decimal.
pub open spec fn xor_name(key: u8) -> Seq<char> {
    "XOR_"@ + ascii_chars(decimal_digits(key as nat))
}

pub open spec fn spec_xor_codec(bytes: Seq<u8>, key: u8) -> CodecView {
    CodecView { encoded: xor_all(bytes, key), name: xor_name(key), decoder: Decoder::Xor(key) }
}

/// The XOR codecs, one for each key from 1 to 255.
pub open spec fn spec_xor_codecs(bytes: Seq<u8>) -> Seq<CodecView> {
    Seq::new(255, |i: int| spec_xor_codec(bytes, (i + 1) as u8))
}

fn xor_codec_name(key: u8) -> (res: String)
    ensures
        res@ == xor_name(key),
{
    let mut name = String::from_str("XOR_");
    push_decimal_chars(&mut name, key as u64);
    name
}

/// The table of XOR keys with the names of their codecs, in key order.
pub fn xor_constants() -> (res: Vec<(u8, String)>)
    ensures
        res@.len() == 255,
        forall|i: int| 0 <= i < 255 ==> (#[trigger] res@[i]).0 == i + 1 && res@[i].1@ == xor_name((i + 1) as u8),
{
    let mut table: Vec<(u8, String)> = Vec::new();
    let mut k: u32 = 1;
    while k <= 255
        invariant
            1 <= k <= 256,
            table@.len() == k - 1,
            forall|i: int| 0 <= i < k - 1 ==> (#[trigger] table@[i]).0 == i + 1 && table@[i].1@ == xor_name((i + 1) as u8),
        decreases 256 - k,
    {
        let key = k as u8;
        table.push((key, xor_codec_name(key)));
        k = k + 1;
    }
    table
}

/// One XOR codec for each key from 1 to 255, in key order.
pub fn xor_codecs(data: &str) -> (res: Vec<Codec>)
    ensures
        codec_views(res@) == spec_xor_codecs(data.spec_bytes()),
{
    let bytes = data.as_bytes();
    let table = xor_constants();
    let mut codecs: Vec<Codec> = Vec::new();
    let mut i: usize = 0;
    while i < table.len()
        invariant
            i <= 255,
            table@.len() == 255,
            bytes@ == data.spec_bytes(),
            forall|k: int| 0 <= k < 255 ==> (#[trigger] table@[k]).0 == k + 1 && table@[k].1@ == xor_name((k + 1) as u8),
            codecs@.len() == i,
            forall|j: int| 0 <= j < i ==> (#[trigger] codecs@[j])@ == spec_xor_codec(bytes@, (j + 1) as u8),
        decreases 255 - i,
    {
        let key = table[i].0;
        let name = table[i].1.clone();
        codecs.push(Codec { encoded: xor_bytes(bytes, key), name, decoder: Decoder::Xor(key) });
        i = i + 1;
    }
    proof {
        assert(codec_views(codecs@) =~= spec_xor_codecs(data.spec_bytes()));
    }
    codecs
}

// ---------------------------------------------------------------------------
// Rotations (ROT13 on letters, ROT47 on printable ASCII)
// ---------------------------------------------------------------------------

/// `c` moved `rot` places (with 8-bit wrap-around) within the `period`
/// values that start at `base`.
pub open spec fn spec_rotate_around(c: u8, base: u8, rot: u8, period: u8) -> u8 {
    (base + ((c - base + rot) % 256) % (period as int)) as u8
}

/// Rotates `c` by `rot` within the `period` values that start at `base`.
pub fn rotate_around(c: u8, base: u8, rot: u8, period: u8) -> (res: u8)
    requires
        base <= c,
        0 < period,
        base + period <= 256,
    ensures
        res == spec_rotate_around(c, base, rot, period),
{
    let off = c - base;
    let new_off = off.wrapping_add(rot) % period;
    base + new_off
}

pub open spec fn is_lowercase(c: u8) -> bool {
    97 <= c <= 122
}

pub open spec fn is_uppercase(c: u8) -> bool {
    65 <= c <= 90
}

/// ROT13 with rotation `rot`: letters move within their case, others stay.
pub open spec fn rot13_byte(c: u8, rot: u8) -> u8 {
    if is_lowercase(c) {
        spec_rotate_around(c, 97, rot, 26)
    } else if is_uppercase(c) {
        spec_rotate_around(c, 65, rot, 26)
    } else {
        c
    }
}

pub open spec fn rot13_all(bytes: Seq<u8>, rot: u8) -> Seq<u8> {
    bytes.map_values(|c: u8| rot13_byte(c, rot))
}

fn rot13_bytes(bytes: &[u8], rot: u8) -> (res: Vec<u8>)
    ensures
        res@ == rot13_all(bytes@, rot),
{
    let mut out: Vec<u8> = Vec::new();
    let mut i: usize = 0;
    while i < bytes.len()
        invariant
            i <= bytes@.len(),
            out@ == rot13_all(bytes@.take(i as int), rot),
        decreases bytes@.len() - i,
    {
        let c = bytes[i];
        let r = if c >= 97 && c <= 122 {
            rotate_around(c, 97, rot, 26)
        } else if c >= 65 && c <= 90 {
            rotate_around(c, 65, rot, 26)
        } else {
            c
        };
        out.push(r);
        proof {
            assert(rot13_all(bytes@.take(i + 1), rot) =~= rot13_all(bytes@.take(i as int), rot).push(
                r,
            ));
        }
        i = i + 1;
    }
    proof {
        assert(bytes@.take(bytes@.len() as int) =~= bytes@);
    }
    out
}

/// ROT13-encodes a pattern with the given rotation.
pub fn rot13_encode(data: &str, rot: u8) -> (res: Vec<u8>)
    ensures
        res@ == rot13_all(data.spec_bytes(), rot),
{
    rot13_bytes(data.as_bytes(), rot)
}

/// Undoes a ROT13 with the given rotation by rotating the rest of the way round.
pub fn rot13_decode(buf: Vec<u8>, rot: u8) -> (res: Option<Vec<u8>>)
    requires
        rot <= 26,
    ensures
        opt_bytes(res) == Some(rot13_all(buf@, (26 - rot) as u8)),
{
    Some(rot13_bytes(buf.as_slice(), 26 - rot))
}

/// ROT47 with rotation `rot`: printable ASCII other than space moves, others stay.
pub open spec fn rot47_byte(c: u8, rot: u8) -> u8 {
    if 33 <= c <= 126 {
        spec_rotate_around(c, 33, rot, 94)
    } else {
        c
    }
}

pub open spec fn rot47_all(bytes: Seq<u8>, rot: u8) -> Seq<u8> {
    bytes.map_values(|c: u8| rot47_byte(c, rot))
}

fn rot47_bytes(bytes: &[u8], rot: u8) -> (res: Vec<u8>)
    ensures
        res@ == rot47_all(bytes@, rot),
{
    let mut out: Vec<u8> = Vec::new();
    let mut i: usize = 0;
    while i < bytes.len()
        invariant
            i <= bytes@.len(),
            out@ == rot47_all(bytes@.take(i as int), rot),
        decreases bytes@.len() - i,
    {
        let c = bytes[i];
        let r = if c >= 33 && c <= 126 {
            rotate_around(c, 33, rot, 94)
        } else {
            c
        };
        out.push(r);
        proof {
            assert(rot47_all(bytes@.take(i + 1), rot) =~= rot47_all(bytes@.take(i as int), rot).push(
                r,
            ));
        }
        i = i + 1;
    }
    proof {
        assert(bytes@.take(bytes@.len() as int) =~= bytes@);
    }
    out
}

/// ROT47-encodes a pattern with the given rotation.
pub fn rot47_encode(data: &str, rot: u8) -> (res: Vec<u8>)
    ensures
        res@ == rot47_all(data.spec_bytes(), rot),
{
    rot47_bytes(data.as_bytes(), rot)
}

/// Undoes a ROT47 with the given rotation by rotating the rest of the way round.
pub fn rot47_decode(buf: Vec<u8>, rot: u8) -> (res: Option<Vec<u8>>)
    requires
        rot <= 94,
    ensures
        opt_bytes(res) == Some(rot47_all(buf@, (94 - rot) as u8)),
{
    Some(rot47_bytes(buf.as_slice(), 94 - rot))
}

/// The name of a ROT13 codec: `ROT-13-rot=` and the rotation in decimal.
pub open spec fn rot13_name(rot: u8) -> Seq<char> {
    "ROT-13-rot="@ + ascii_chars(decimal_digits(rot as nat))
}

/// The name of a ROT47 codec: `ROT-47-rot=` and the rotation in decimal.
pub open spec fn rot47_name(rot: u8) -> Seq<char> {
    "ROT-47-rot="@ + ascii_chars(decimal_digits(rot as nat))
}

pub open spec fn spec_rot13_codec(bytes: Seq<u8>, rot: u8) -> CodecView {
    CodecView { encoded: rot13_all(bytes, rot), name: rot13_name(rot), decoder: Decoder::Rot13(rot) }
}

pub open spec fn spec_rot47_codec(bytes: Seq<u8>, rot: u8) -> CodecView {
    CodecView { encoded: rot47_all(bytes, rot), name: rot47_name(rot), decoder: Decoder::Rot47(rot) }
}

/// The ROT13 codecs, one for each rotation from 1 to 25.
pub open spec fn spec_rot13_codecs(bytes: Seq<u8>) -> Seq<CodecView> {
    Seq::new(25, |i: int| spec_rot13_codec(bytes, (i + 1) as u8))
}

/// The ROT47 codecs, one for each rotation from 1 to 93.
pub open spec fn spec_rot47_codecs(bytes: Seq<u8>) -> Seq<CodecView> {
    Seq::new(93, |i: int| spec_rot47_codec(bytes, (i + 1) as u8))
}

/// One ROT13 codec for each rotation from 1 to 25, in order.
pub fn rot13_codecs(data: &str) -> (res: Vec<Codec>)
    ensures
        codec_views(res@) == spec_rot13_codecs(data.spec_bytes()),
{
    let mut codecs: Vec<Codec> = Vec::new();
    let mut rot: u8 = 1;
    while rot <= 25
        invariant
            1 <= rot <= 26,
            codecs@.len() == rot - 1,
            forall|j: int| 0 <= j < rot - 1 ==> (#[trigger] codecs@[j])@ == spec_rot13_codec(data.spec_bytes(), (j + 1) as u8),
        decreases 26 - rot,
    {
        let mut name = String::from_str("ROT-13-rot=");
        push_decimal_chars(&mut name, rot as u64);
        codecs.push(Codec { encoded: rot13_encode(data, rot), name, decoder: Decoder::Rot13(rot) });
        rot = rot + 1;
    }
    proof {
        assert(codec_views(codecs@) =~= spec_rot13_codecs(data.spec_bytes()));
    }
    codecs
}

/// One ROT47 codec for each rotation from 1 to 93, in order.
pub fn rot47_codecs(data: &str) -> (res: Vec<Codec>)
    ensures
        codec_views(res@) == spec_rot47_codecs(data.spec_bytes()),
{
    let mut codecs: Vec<Codec> = Vec::new();
    let mut rot: u8 = 1;
    while rot <= 93
        invariant
            1 <= rot <= 94,
            codecs@.len() == rot - 1,
            forall|j: int| 0 <= j < rot - 1 ==> (#[trigger] codecs@[j])@ == spec_rot47_codec(data.spec_bytes(), (j + 1) as u8),
        decreases 94 - rot,
    {
        let mut name = String::from_str("ROT-47-rot=");
        push_decimal_chars(&mut name, rot as u64);
        codecs.push(Codec { encoded: rot47_encode(data, rot), name, decoder: Decoder::Rot47(rot) });
        rot = rot + 1;
    }
    proof {
        assert(codec_views(codecs@) =~= spec_rot47_codecs(data.spec_bytes()));
    }
    codecs
}

// ---------------------------------------------------------------------------
// Hexadecimal
// ---------------------------------------------------------------------------

/// `i` with its lowest bit cleared.
pub fn round_down_to_even(i: usize) -> (res: usize)
    ensures
        res == i - i % 2,
{
    assert(i & !1usize == i - i % 2) by (bit_vector);
    i & !1usize
}

pub open spec fn is_hex_digit(b: u8) -> bool {
    (48 <= b <= 57) || (97 <= b <= 102) || (65 <= b <= 70)
}

/// The value of a hexadecimal digit (either case).
pub open spec fn hex_value(b: u8) -> int {
    if 48 <= b <= 57 {
        b - 48
    } else if 97 <= b <= 102 {
        b - 87
    } else if 65 <= b <= 70 {
        b - 55
    } else {
        0
    }
}

/// Every pair of hexadecimal digits read as one byte, the first digit the high half.
pub open spec fn hex_pairs(digits: Seq<u8>) -> Seq<u8> {
    Seq::new(
        digits.len() / 2,
        |i: int| (16 * hex_value(digits[2 * i]) + hex_value(digits[2 * i + 1])) as u8,
    )
}

/// The half-byte at position `j` of the bytes, high half first.
pub open spec fn nibble_at(bytes: Seq<u8>, j: int) -> u8 {
    if j % 2 == 0 {
        bytes[j / 2] / 16
    } else {
        bytes[j / 2] % 16
    }
}

/// The lowercase hexadecimal digits of the bytes, high half first.
pub open spec fn hex_lower(bytes: Seq<u8>) -> Seq<u8> {
    Seq::new(2 * bytes.len(), |j: int| hex_digit(nibble_at(bytes, j) as int))
}

/// The half-bytes of the bytes as raw values, high half first.
pub open spec fn raw_nibbles(bytes: Seq<u8>) -> Seq<u8> {
    Seq::new(2 * bytes.len(), |j: int| nibble_at(bytes, j))
}

/// `hex::encode`: two lowercase hexadecimal digits for every byte, high half
/// first; the bytes of the string it returns.
#[verifier::external_body]
fn hex_encode(data: &[u8]) -> (res: Vec<u8>)
    requires
        2 * data@.len() <= usize::MAX,
    ensures
        res@ == hex_lower(data@),
{
    hex::encode(data).into_bytes()
}

/// `hex::decode`: fails on an odd length or on a byte that is no hexadecimal
/// digit; otherwise gives one byte for every pair of digits.
#[verifier::external_body]
fn hex_decode(data: &[u8]) -> (res: Option<Vec<u8>>)
    ensures
        opt_bytes(res) == (if data@.len() % 2 == 0 && forall|i: int|
            0 <= i < data@.len() ==> is_hex_digit(#[trigger] data@[i]) {
            Some(hex_pairs(data@))
        } else {
            None::<Seq<u8>>
        }),
{
    hex::decode(data).ok()
}

fn hex_digit_byte(b: u8) -> (res: bool)
    ensures
        res == is_hex_digit(b),
{
    (b >= 48 && b <= 57) || (b >= 97 && b <= 102) || (b >= 65 && b <= 70)
}

/// The number of hexadecimal digits that `buf` starts with, counting from `i`.
pub open spec fn hex_run_end(buf: Seq<u8>, i: int) -> int
    decreases buf.len() - i,
{
    if i < 0 || i >= buf.len() || !is_hex_digit(buf[i]) {
        i
    } else {
        hex_run_end(buf, i + 1)
    }
}

/// What the hexadecimal decoder gives: the pairs of digits before the first
/// byte that is no digit (an odd digit at the end is left out).
pub open spec fn spec_hex_decoded(buf: Seq<u8>) -> Seq<u8> {
    let p = hex_run_end(buf, 0);
    hex_pairs(buf.take(p - p % 2))
}

/// Decodes the run of hexadecimal digits at the start of the buffer.
pub fn hex_decoder(buf: Vec<u8>) -> (res: Option<Vec<u8>>)
    ensures
        opt_bytes(res) == Some(spec_hex_decoded(buf@)),
{
    let mut i: usize = 0;
    while i < buf.len() && hex_digit_byte(buf[i])
        invariant
            i <= buf@.len(),
            hex_run_end(buf@, i as int) == hex_run_end(buf@, 0),
            forall|j: int| 0 <= j < i ==> is_hex_digit(#[trigger] buf@[j]),
        decreases buf@.len() - i,
    {
        i = i + 1;
    }
    let end = round_down_to_even(i);
    let digits = &buf.as_slice()[0..end];
    proof {
        assert(digits@ =~= buf@.take(end as int));
    }
    match hex_decode(digits) {
        Some(decoded) => Some(decoded),
        None => Some(Vec::new()),
    }
}

/// A raw half-byte value written as its lowercase hexadecimal digit.
pub open spec fn raw_to_hex_digit(b: u8) -> u8 {
    if b < 10 {
        (b + 48) as u8
    } else {
        (b + 87) as u8
    }
}

/// The number of bytes below 16 that `buf` starts with, counting from `i`.
pub open spec fn raw_run_end(buf: Seq<u8>, i: int) -> int
    decreases buf.len() - i,
{
    if i < 0 || i >= buf.len() || buf[i] >= 16 {
        i
    } else {
        raw_run_end(buf, i + 1)
    }
}

/// The buffer with its leading run of half-byte values turned into digits.
pub open spec fn raw_hex_digits(buf: Seq<u8>) -> Seq<u8> {
    let q = raw_run_end(buf, 0);
    Seq::new(buf.len(), |j: int| if j < q { raw_to_hex_digit(buf[j]) } else { buf[j] })
}

/// What the raw hexadecimal decoder gives.
pub open spec fn spec_raw_hex_decoded(buf: Seq<u8>) -> Seq<u8> {
    spec_hex_decoded(raw_hex_digits(buf))
}

/// Decodes raw half-byte values: the leading run of values below 16 is
/// turned into hexadecimal digits, and the result is decoded as hexadecimal.
pub fn raw_hex_decoder(buf: Vec<u8>) -> (res: Option<Vec<u8>>)
    ensures
        opt_bytes(res) == Some(spec_raw_hex_decoded(buf@)),
{
    let ghost target = raw_hex_digits(buf@);
    let mut out: Vec<u8> = Vec::new();
    let mut i: usize = 0;
    let mut in_run = true;
    while i < buf.len()
        invariant
            i <= buf@.len(),
            target == raw_hex_digits(buf@),
            in_run ==> raw_run_end(buf@, i as int) == raw_run_end(buf@, 0),
            !in_run ==> raw_run_end(buf@, 0) <= i,
            out@.len() == i,
            forall|j: int| 0 <= j < i ==> #[trigger] out@[j] == target[j],
        decreases buf@.len() - i,
    {
        let b = buf[i];
        if in_run && b < 16 {
            proof {
                lemma_raw_run_end_bounds(buf@, i + 1);
            }
            if b < 10 {
                out.push(b + 48);
            } else {
                out.push(b + 87);
            }
        } else {
            in_run = false;
            out.push(b);
        }
        assert(out@[i as int] == target[i as int]);
        i = i + 1;
    }
    proof {
        assert(out@ =~= raw_hex_digits(buf@));
    }
    hex_decoder(out)
}

proof fn lemma_raw_run_end_bounds(buf: Seq<u8>, i: int)
    requires
        0 <= i <= buf.len(),
    ensures
        i <= raw_run_end(buf, i) <= buf.len(),
    decreases buf.len() - i,
{
    if i < buf.len() && buf[i] < 16 {
        lemma_raw_run_end_bounds(buf, i + 1);
    }
}

pub open spec fn spec_hex_codecs(bytes: Seq<u8>) -> Seq<CodecView> {
    seq![
        CodecView { encoded: hex_lower(bytes), name: "hex-lower"@, decoder: Decoder::Hex },
        CodecView { encoded: hex_lower(bytes), name: "hex-upper"@, decoder: Decoder::Hex },
        CodecView { encoded: raw_nibbles(bytes), name: "raw-hex"@, decoder: Decoder::RawHex },
    ]
}

/// The hexadecimal codecs: lowercase digits (under two names, as both use
/// `hex::encode`) and raw half-byte values.
pub fn hex_codecs(data: &str) -> (res: Vec<Codec>)
    requires
        2 * data.spec_bytes().len() <= usize::MAX,
    ensures
        codec_views(res@) == spec_hex_codecs(data.spec_bytes()),
{
    let bytes = data.as_bytes();
    let lower_hex = hex_encode(bytes);
    let upper_hex = hex_encode(bytes);
    let mut raw_hex: Vec<u8> = Vec::new();
    let mut i: usize = 0;
    while i < lower_hex.len()
        invariant
            i <= lower_hex@.len(),
            lower_hex@ == hex_lower(bytes@),
            raw_hex@.len() == i,
            forall|j: int| 0 <= j < i ==> #[trigger] raw_hex@[j] == nibble_at(bytes@, j),
        decreases lower_hex@.len() - i,
    {
        let b = lower_hex[i];
        if b <= 57 {
            raw_hex.push(b - 48);
        } else {
            raw_hex.push(b - 87);
        }
        i = i + 1;
    }
    let mut codecs: Vec<Codec> = Vec::new();
    codecs.push(Codec { encoded: lower_hex, name: String::from_str("hex-lower"), decoder: Decoder::Hex });
    codecs.push(Codec { encoded: upper_hex, name: String::from_str("hex-upper"), decoder: Decoder::Hex });
    codecs.push(Codec { encoded: raw_hex, name: String::from_str("raw-hex"), decoder: Decoder::RawHex });
    proof {
        assert(codecs@[2].encoded@ =~= raw_nibbles(bytes@));
        assert(codec_views(codecs@) =~= spec_hex_codecs(data.spec_bytes()));
    }
    codecs
}

// ---------------------------------------------------------------------------
// Binary digits
// ---------------------------------------------------------------------------

pub open spec fn is_bit_digit(b: u8) -> bool {
    b == 48 || b == 49
}

/// The number that a sequence of binary digits stands for, most significant first.
pub open spec fn bits_value(digits: Seq<u8>) -> int
    decreases digits.len(),
{
    if digits.len() == 0 {
        0
    } else {
        2 * bits_value(digits.drop_last()) + (digits.last() - 48)
    }
}

pub open spec fn two_pow(k: nat) -> nat
    decreases k,
{
    if k == 0 {
        1
    } else {
        2 * two_pow((k - 1) as nat)
    }
}

/// The byte that eight binary digits stand for, or `None` if one of them is
/// no binary digit.
pub open spec fn block_value(block: Seq<u8>) -> Option<u8> {
    if forall|k: int| 0 <= k < block.len() ==> is_bit_digit(#[trigger] block[k]) {
        Some(bits_value(block) as u8)
    } else {
        None
    }
}

/// Decodes one block of eight binary digits into a byte.
pub fn decode_binary_block(block: &[u8; 8]) -> (res: Option<u8>)
    ensures
        res == block_value(block@),
{
    let mut byte: u8 = 0;
    let mut k: usize = 0;
    while k < 8
        invariant
            k <= 8,
            block@.len() == 8,
            byte == bits_value(block@.take(k as int)),
            byte < two_pow(k as nat),
            forall|j: int| 0 <= j < k ==> is_bit_digit(#[trigger] block@[j]),
        decreases 8 - k,
    {
        let b = block[k];
        if b != 48 && b != 49 {
            assert(!is_bit_digit(block@[k as int]));
            return None;
        }
        proof {
            assert(block@.take(k + 1).drop_last() =~= block@.take(k as int));
            assert(two_pow((k + 1) as nat) == 2 * two_pow(k as nat));
            assert(k < 8 ==> two_pow(k as nat) <= 128) by {
                reveal_with_fuel(two_pow, 9);
            }
        }
        byte = byte * 2 + (b - 48);
        k = k + 1;
    }
    proof {
        assert(block@.take(8) =~= block@);
    }
    Some(byte)
}

/// The bytes that whole blocks of eight binary digits stand for, up to the
/// first block that is not made of binary digits.
pub open spec fn binary_decoded(digits: Seq<u8>) -> Seq<u8>
    decreases digits.len(),
{
    if digits.len() < 8 {
        seq![]
    } else {
        match block_value(digits.take(8)) {
            None => seq![],
            Some(b) => seq![b] + binary_decoded(digits.skip(8)),
        }
    }
}

fn binary_decoder_inner(buf: &[u8]) -> (res: Option<Vec<u8>>)
    ensures
        opt_bytes(res) == Some(binary_decoded(buf@)),
{
    let mut out: Vec<u8> = Vec::new();
    let mut i: usize = 0;
    let mut done = false;
    proof {
        assert(buf@.skip(0) =~= buf@);
    }
    while !done && buf.len() - i >= 8
        invariant
            i <= buf@.len(),
            !done ==> out@ + binary_decoded(buf@.skip(i as int)) == binary_decoded(buf@),
            done ==> out@ == binary_decoded(buf@),
        decreases buf@.len() - i, (if done { 0int } else { 1int }),
    {
        let ghost rest = buf@.skip(i as int);
        let block: [u8; 8] = [
            buf[i],
            buf[i + 1],
            buf[i + 2],
            buf[i + 3],
            buf[i + 4],
            buf[i + 5],
            buf[i + 6],
            buf[i + 7],
        ];
        proof {
            assert(block@ =~= rest.take(8));
        }
        match decode_binary_block(&block) {
            Some(b) => {
                proof {
                    assert(rest.skip(8) =~= buf@.skip(i + 8));
                    assert(out@.push(b) + binary_decoded(buf@.skip(i + 8)) =~= out@
                        + binary_decoded(rest));
                }
                out.push(b);
                i = i + 8;
            },
            None => {
                proof {
                    assert(out@ =~= out@ + binary_decoded(rest));
                }
                done = true;
            },
        }
    }
    proof {
        if !done {
            assert(out@ =~= out@ + binary_decoded(buf@.skip(i as int)));
        }
    }
    Some(out)
}

/// Decodes blocks of eight binary digits.
pub fn binary_decoder(buf: Vec<u8>) -> (res: Option<Vec<u8>>)
    ensures
        opt_bytes(res) == Some(binary_decoded(buf@)),
{
    binary_decoder_inner(buf.as_slice())
}

/// The number of bytes from `i` on that are `zero` or `one`.
pub open spec fn bytewise_run_end(buf: Seq<u8>, zero: u8, one: u8, i: int) -> int
    decreases buf.len() - i,
{
    if i < 0 || i >= buf.len() || (buf[i] != zero && buf[i] != one) {
        i
    } else {
        bytewise_run_end(buf, zero, one, i + 1)
    }
}

/// The leading run of `zero` and `one` bytes as binary digits.
pub open spec fn bytewise_digits(buf: Seq<u8>, zero: u8, one: u8) -> Seq<u8> {
    Seq::new(
        bytewise_run_end(buf, zero, one, 0) as nat,
        |j: int| if buf[j] == zero { 48u8 } else { 49u8 },
    )
}

proof fn lemma_bytewise_run_end_bounds(buf: Seq<u8>, zero: u8, one: u8, i: int)
    requires
        0 <= i <= buf.len(),
    ensures
        i <= bytewise_run_end(buf, zero, one, i) <= buf.len(),
    decreases buf.len() - i,
{
    if i < buf.len() && (buf[i] == zero || buf[i] == one) {
        lemma_bytewise_run_end_bounds(buf, zero, one, i + 1);
    }
}

/// Decodes binary digits written with `zero` for 0 and `one` for 1: the
/// leading run of such bytes is decoded as binary digits.
pub fn bytewise_binary_decoder(buf: Vec<u8>, zero: u8, one: u8) -> (res: Option<Vec<u8>>)
    ensures
        opt_bytes(res) == Some(binary_decoded(bytewise_digits(buf@, zero, one))),
{
    let mut digits: Vec<u8> = Vec::new();
    let mut i: usize = 0;
    proof {
        lemma_bytewise_run_end_bounds(buf@, zero, one, 0);
    }
    while i < buf.len() && (buf[i] == zero || buf[i] == one)
        invariant
            i <= buf@.len(),
            bytewise_run_end(buf@, zero, one, i as int) == bytewise_run_end(buf@, zero, one, 0),
            digits@.len() == i,
            forall|j: int| 0 <= j < i ==> #[trigger] digits@[j] == (if buf@[j] == zero { 48u8 } else { 49u8 }),
        decreases buf@.len() - i,
    {
        if buf[i] == zero {
            digits.push(48);
        } else {
            digits.push(49);
        }
        assert(digits@[i as int] == (if buf@[i as int] == zero { 48u8 } else { 49u8 }));
        i = i + 1;
    }
    proof {
        assert(digits@ =~= bytewise_digits(buf@, zero, one));
    }
    binary_decoder_inner(digits.as_slice())
}

/// The `n` lowest binary digits of `b`, most significant first.
pub open spec fn binary_digits(b: nat, n: nat) -> Seq<u8>
    decreases n,
{
    if n == 0 {
        seq![]
    } else {
        binary_digits(b / 2, (n - 1) as nat).push((48 + b % 2) as u8)
    }
}

/// Every byte written as eight binary digits.
pub open spec fn binary_encoded(bytes: Seq<u8>) -> Seq<u8> {
    Seq::new(8 * bytes.len(), |j: int| binary_digits(bytes[j / 8] as nat, 8)[j % 8])
}

/// Binary digits with `zero` written for 0 and `one` for 1.
pub open spec fn bytewise_encoded(digits: Seq<u8>, zero: u8, one: u8) -> Seq<u8> {
    digits.map_values(|d: u8| if d == 48 { zero } else { one })
}

proof fn lemma_binary_digits_len(b: nat, n: nat)
    ensures
        binary_digits(b, n).len() == n,
    decreases n,
{
    if n > 0 {
        lemma_binary_digits_len(b / 2, (n - 1) as nat);
    }
}

fn push_binary_digits(out: &mut Vec<u8>, b: u8, n: u8)
    ensures
        final(out)@ == old(out)@ + binary_digits(b as nat, n as nat),
    decreases n,
{
    if n > 0 {
        push_binary_digits(out, b / 2, n - 1);
        out.push(48 + b % 2);
        proof {
            assert(final(out)@ =~= old(out)@ + binary_digits(b as nat, n as nat));
        }
    } else {
        proof {
            assert(final(out)@ =~= old(out)@ + binary_digits(b as nat, n as nat));
        }
    }
}

fn binary_of(bytes: &[u8]) -> (res: Vec<u8>)
    requires
        8 * bytes@.len() <= usize::MAX,
    ensures
        res@ == binary_encoded(bytes@),
{
    let mut out: Vec<u8> = Vec::new();
    let mut i: usize = 0;
    while i < bytes.len()
        invariant
            i <= bytes@.len(),
            out@.len() == 8 * i,
            forall|j: int| 0 <= j < 8 * i ==> #[trigger] out@[j] == binary_digits(bytes@[j / 8] as nat, 8)[j % 8],
        decreases bytes@.len() - i,
    {
        let ghost before = out@;
        push_binary_digits(&mut out, bytes[i], 8);
        proof {
            lemma_binary_digits_len(bytes@[i as int] as nat, 8);
            assert forall|j: int| 0 <= j < 8 * (i + 1) implies #[trigger] out@[j] == binary_digits(
                bytes@[j / 8] as nat,
                8,
            )[j % 8] by {
                if j >= 8 * i {
                    assert(j / 8 == i);
                    assert(out@[j] == binary_digits(bytes@[i as int] as nat, 8)[j - 8 * i]);
                } else {
                    assert(out@[j] == before[j]);
                }
            }
        }
        i = i + 1;
    }
    proof {
        assert(out@ =~= binary_encoded(bytes@));
    }
    out
}

/// The number of (zero, one) byte pairs that the bytewise binary codecs use:
/// every ordered pair of distinct bytes when gambling, only the first otherwise.
pub open spec fn bytewise_pair_count(gamble: bool) -> nat {
    if gamble {
        255 * 256
    } else {
        1
    }
}

/// The `i`-th pair of distinct bytes, ordered by the zero byte, then by the one byte.
pub open spec fn bytewise_pair(i: int) -> (u8, u8) {
    let zero = i / 255;
    let r = i % 255;
    (zero as u8, (if r < zero { r } else { r + 1 }) as u8)
}

/// The name of a bytewise binary codec, with both bytes in two hexadecimal digits.
pub open spec fn bytewise_name(zero: u8, one: u8) -> Seq<char> {
    "binary-0=0x"@ + ascii_chars(hex_pair(zero)) + "-1=0x"@ + ascii_chars(hex_pair(one))
}

pub open spec fn spec_bytewise_codec(binary: Seq<u8>, zero: u8, one: u8) -> CodecView {
    CodecView {
        encoded: bytewise_encoded(binary, zero, one),
        name: bytewise_name(zero, one),
        decoder: Decoder::BytewiseBinary(zero, one),
    }
}

/// The binary codec, then one bytewise binary codec per pair.
pub open spec fn spec_binary_codecs(bytes: Seq<u8>, gamble: bool) -> Seq<CodecView> {
    let binary = binary_encoded(bytes);
    seq![CodecView { encoded: binary, name: "binary"@, decoder: Decoder::Binary }] + Seq::new(
        bytewise_pair_count(gamble),
        |i: int| spec_bytewise_codec(binary, bytewise_pair(i).0, bytewise_pair(i).1),
    )
}

fn bytewise_name_of(zero: u8, one: u8) -> (res: String)
    ensures
        res@ == bytewise_name(zero, one),
{
    let mut name = String::from_str("binary-0=0x");
    push_hex_pair_chars(&mut name, zero);
    name.append("-1=0x");
    push_hex_pair_chars(&mut name, one);
    proof {
        assert(name@ =~= bytewise_name(zero, one));
    }
    name
}

fn map_binary_digits(binary: &Vec<u8>, zero: u8, one: u8) -> (res: Vec<u8>)
    ensures
        res@ == bytewise_encoded(binary@, zero, one),
{
    let mut out: Vec<u8> = Vec::new();
    let mut i: usize = 0;
    while i < binary.len()
        invariant
            i <= binary@.len(),
            out@ == bytewise_encoded(binary@.take(i as int), zero, one),
        decreases binary@.len() - i,
    {
        if binary[i] == 48 {
            out.push(zero);
        } else {
            out.push(one);
        }
        proof {
            assert(bytewise_encoded(binary@.take(i + 1), zero, one) =~= bytewise_encoded(
                binary@.take(i as int),
                zero,
                one,
            ).push(if binary@[i as int] == 48 { zero } else { one }));
        }
        i = i + 1;
    }
    proof {
        assert(binary@.take(binary@.len() as int) =~= binary@);
    }
    out
}

/// The binary codecs: every byte as eight binary digits, and the same digits
/// written with other bytes (only `0x00`/`0x01` unless gambling).
pub fn binary_codecs(data: &str, gamble: bool) -> (res: Vec<Codec>)
    requires
        8 * data.spec_bytes().len() <= usize::MAX,
    ensures
        codec_views(res@) == spec_binary_codecs(data.spec_bytes(), gamble),
{
    let binary = binary_of(data.as_bytes());
    let mut codecs: Vec<Codec> = Vec::new();
    codecs.push(Codec { encoded: binary.clone(), name: String::from_str("binary"), decoder: Decoder::Binary });
    let count: u32 = if gamble { 255 * 256 } else { 1 };
    let mut i: u32 = 0;
    while i < count
        invariant
            count == bytewise_pair_count(gamble),
            i <= count,
            binary@ == binary_encoded(data.spec_bytes()),
            codecs@.len() == i + 1,
            codecs@[0]@ == (CodecView { encoded: binary@, name: "binary"@, decoder: Decoder::Binary }),
            forall|j: int| 0 <= j < i ==> (#[trigger] codecs@[j + 1])@ == spec_bytewise_codec(
                binary@,
                bytewise_pair(j).0,
                bytewise_pair(j).1,
            ),
        decreases count - i,
    {
        let zero = i / 255;
        let r = i % 255;
        let one = if r < zero { r } else { r + 1 };
        let zero = zero as u8;
        let one = one as u8;
        assert(bytewise_pair(i as int) == (zero, one));
        codecs.push(Codec {
            encoded: map_binary_digits(&binary, zero, one),
            name: bytewise_name_of(zero, one),
            decoder: Decoder::BytewiseBinary(zero, one),
        });
        i = i + 1;
    }
    proof {
        let spec = spec_binary_codecs(data.spec_bytes(), gamble);
        assert forall|k: int| 0 <= k < codecs@.len() implies #[trigger] codecs@[k]@ == spec[k] by {
            if k > 0 {
                assert(codecs@[(k - 1) + 1] == codecs@[k]);
            }
        }
        assert(codec_views(codecs@) =~= spec);
    }
    codecs
}

// ---------------------------------------------------------------------------
// All CTF codecs
// ---------------------------------------------------------------------------

/// The CTF codecs, in the order decimal, XOR, hexadecimal, binary, ROT13, ROT47.
pub open spec fn spec_ctf_codecs(text: Seq<char>, gamble: bool) -> Seq<CodecView> {
    let bytes = encode_utf8(text);
    seq![spec_base10_ascii_codec(text)] + spec_xor_codecs(bytes) + spec_hex_codecs(bytes)
        + spec_binary_codecs(bytes, gamble) + spec_rot13_codecs(bytes) + spec_rot47_codecs(bytes)
}

/// All CTF codecs of a pattern.
pub fn ctf_codecs(data: &str, gamble: bool) -> (res: Vec<Codec>)
    requires
        pattern_fits(data@),
    ensures
        codec_views(res@) == spec_ctf_codecs(data@, gamble),
{
    let mut codecs: Vec<Codec> = Vec::new();
    codecs.push(base10_ascii_codec(data));
    proof {
        assert(codec_views(codecs@) =~= seq![spec_base10_ascii_codec(data@)]);
    }
    extend_codecs(&mut codecs, xor_codecs(data));
    extend_codecs(&mut codecs, hex_codecs(data));
    extend_codecs(&mut codecs, binary_codecs(data, gamble));
    extend_codecs(&mut codecs, rot13_codecs(data));
    extend_codecs(&mut codecs, rot47_codecs(data));
    codecs
}

// ---------------------------------------------------------------------------
// Round trips
// ---------------------------------------------------------------------------

/// XORing with the same key twice gives the bytes back.
pub proof fn lemma_xor_roundtrip(bytes: Seq<u8>, key: u8)
    ensures
        xor_all(xor_all(bytes, key), key) == bytes,
{
    assert forall|i: int| 0 <= i < bytes.len() implies #[trigger] xor_all(xor_all(bytes, key), key)[i] == bytes[i] by {
        let b = bytes[i];
        assert((b ^ key) ^ key == b) by (bit_vector);
    }
    assert(xor_all(xor_all(bytes, key), key) =~= bytes);
}

/// XOR decoding and the XOR codecs use the whole 8-bit key: every byte that
/// comes out differs from the byte that went in by exactly the key, and the
/// codec for key `k` (from 1 to 255) is the `k`-th, decoded with that key.
pub proof fn lemma_xor_uses_whole_key(bytes: Seq<u8>, key: u8)
    ensures
        spec_decode(Decoder::Xor(key), bytes) matches Some(out) && out.len() == bytes.len()
            && forall|i: int| 0 <= i < bytes.len() ==> #[trigger] out[i] ^ bytes[i] == key,
        1 <= key ==> spec_xor_codecs(bytes)[key - 1].decoder == Decoder::Xor(key),
        1 <= key ==> spec_xor_codecs(bytes)[key - 1].encoded.len() == bytes.len(),
        1 <= key ==> forall|i: int|
            0 <= i < bytes.len() ==> #[trigger] spec_xor_codecs(bytes)[key - 1].encoded[i] ^ bytes[i] == key,
{
    let out = xor_all(bytes, key);
    assert forall|i: int| 0 <= i < bytes.len() implies #[trigger] out[i] ^ bytes[i] == key by {
        let b = bytes[i];
        assert((b ^ key) ^ b == key) by (bit_vector);
    }
    if 1 <= key {
        assert(spec_xor_codecs(bytes)[key - 1] == spec_xor_codec(bytes, key));
    }
}

proof fn lemma_rotate_shifts(c: u8, base: u8, rot: u8, period: u8)
    requires
        base <= c < base + period,
        0 < period,
        rot <= period,
        base + period <= 256,
        2 * period <= 256,
    ensures
        base <= spec_rotate_around(c, base, rot, period) < base + period,
        (spec_rotate_around(c, base, rot, period) - c - rot) % (period as int) == 0,
{
    let x = c - base + rot;
    vstd::arithmetic::div_mod::lemma_small_mod(x as nat, 256);
    assert((x % 256) == x);
    let r = x % (period as int);
    assert(x - r == (period as int) * (x / (period as int))) by (nonlinear_arith)
        requires
            period > 0,
            r == x % (period as int),
    ;
    let q = x / (period as int);
    assert(r - x == (-q) * (period as int)) by (nonlinear_arith)
        requires
            x - r == (period as int) * q,
    ;
    vstd::arithmetic::div_mod::lemma_mod_multiples_basic(-q, period as int);
}

/// ROT13 with rotation `rot` moves every ASCII letter `rot` places forwards
/// within its case, around the alphabet, and leaves every other byte alone.
/// So the codec with rotation `r` (1 to 25) encodes by moving letters `r`
/// places forwards, and its decoder moves them `r` places back.
pub proof fn lemma_rot13_shifts_letters(bytes: Seq<u8>, rot: u8)
    requires
        rot <= 26,
    ensures
        rot13_all(bytes, rot).len() == bytes.len(),
        forall|i: int|
            0 <= i < bytes.len() && 97 <= bytes[i] <= 122 ==> 97 <= #[trigger] rot13_all(bytes, rot)[i] <= 122
                && (rot13_all(bytes, rot)[i] - bytes[i] - rot) % 26 == 0,
        forall|i: int|
            0 <= i < bytes.len() && 65 <= bytes[i] <= 90 ==> 65 <= #[trigger] rot13_all(bytes, rot)[i] <= 90
                && (rot13_all(bytes, rot)[i] - bytes[i] - rot) % 26 == 0,
        forall|i: int|
            0 <= i < bytes.len() && !(97 <= bytes[i] <= 122) && !(65 <= bytes[i] <= 90)
                ==> #[trigger] rot13_all(bytes, rot)[i] == bytes[i],
        1 <= rot <= 25 ==> spec_rot13_codecs(bytes)[rot - 1] == spec_rot13_codec(bytes, rot),
        1 <= rot <= 25 ==> spec_decode(Decoder::Rot13(rot), bytes) == Some(rot13_all(bytes, (26 - rot) as u8)),
{
    assert forall|i: int| 0 <= i < bytes.len() && 97 <= bytes[i] <= 122 implies 97 <= #[trigger] rot13_all(
        bytes,
        rot,
    )[i] <= 122 && (rot13_all(bytes, rot)[i] - bytes[i] - rot) % 26 == 0 by {
        lemma_rotate_shifts(bytes[i], 97, rot, 26);
    }
    assert forall|i: int| 0 <= i < bytes.len() && 65 <= bytes[i] <= 90 implies 65 <= #[trigger] rot13_all(
        bytes,
        rot,
    )[i] <= 90 && (rot13_all(bytes, rot)[i] - bytes[i] - rot) % 26 == 0 by {
        lemma_rotate_shifts(bytes[i], 65, rot, 26);
    }
}

/// ROT47 with rotation `rot` moves every printable ASCII byte (33 to 126)
/// `rot` places forwards among the printable ones, around, and leaves every
/// other byte alone. So the codec with rotation `r` (1 to 93) encodes by
/// moving `r` places forwards, and its decoder moves `r` places back.
pub proof fn lemma_rot47_shifts_printables(bytes: Seq<u8>, rot: u8)
    requires
        rot <= 94,
    ensures
        rot47_all(bytes, rot).len() == bytes.len(),
        forall|i: int|
            0 <= i < bytes.len() && 33 <= bytes[i] <= 126 ==> 33 <= #[trigger] rot47_all(bytes, rot)[i] <= 126
                && (rot47_all(bytes, rot)[i] - bytes[i] - rot) % 94 == 0,
        forall|i: int|
            0 <= i < bytes.len() && !(33 <= bytes[i] <= 126) ==> #[trigger] rot47_all(bytes, rot)[i] == bytes[i],
        1 <= rot <= 93 ==> spec_rot47_codecs(bytes)[rot - 1] == spec_rot47_codec(bytes, rot),
        1 <= rot <= 93 ==> spec_decode(Decoder::Rot47(rot), bytes) == Some(rot47_all(bytes, (94 - rot) as u8)),
{
    assert forall|i: int| 0 <= i < bytes.len() && 33 <= bytes[i] <= 126 implies 33 <= #[trigger] rot47_all(
        bytes,
        rot,
    )[i] <= 126 && (rot47_all(bytes, rot)[i] - bytes[i] - rot) % 94 == 0 by {
        lemma_rotate_shifts(bytes[i], 33, rot, 94);
    }
}

/// The number that binary digits (`0` and `1`) spell, the first digit the
/// most significant.
pub open spec fn msb_first_value(digits: Seq<u8>) -> nat
    decreases digits.len(),
{
    if digits.len() == 0 {
        0
    } else {
        2 * msb_first_value(digits.drop_last()) + (if digits.last() == 49 { 1nat } else { 0nat })
    }
}

/// Two to the power `n`.
pub open spec fn two_to(n: nat) -> nat
    decreases n,
{
    if n == 0 {
        1
    } else {
        2 * two_to((n - 1) as nat)
    }
}

proof fn lemma_binary_digits_msb(b: nat, n: nat)
    ensures
        msb_first_value(binary_digits(b, n)) == b % two_to(n),
        forall|k: int| 0 <= k < n ==> (#[trigger] binary_digits(b, n)[k] == 48 || binary_digits(b, n)[k] == 49),
    decreases n,
{
    lemma_binary_digits_len(b, n);
    if n == 0 {
    } else {
        let m = (n - 1) as nat;
        lemma_binary_digits_msb(b / 2, m);
        lemma_binary_digits_len(b / 2, m);
        let d = binary_digits(b, n);
        assert(d.drop_last() =~= binary_digits(b / 2, m));
        assert(two_to(m) > 0) by {
            lemma_two_to_pos(m);
        }
        vstd::arithmetic::div_mod::lemma_breakdown(b as int, 2, two_to(m) as int);
        assert(two_to(n) == 2 * two_to(m));
        assert forall|k: int| 0 <= k < n implies (#[trigger] d[k] == 48 || d[k] == 49) by {
            if k < m {
                assert(d[k] == binary_digits(b / 2, m)[k]);
            }
        }
    }
}

proof fn lemma_two_to_pos(n: nat)
    ensures
        two_to(n) > 0,
    decreases n,
{
    if n > 0 {
        lemma_two_to_pos((n - 1) as nat);
    }
}

/// The binary codec writes every byte as eight digits `0` and `1` which,
/// read most significant first, spell the byte.
pub proof fn lemma_binary_spells_bytes(bytes: Seq<u8>)
    ensures
        binary_encoded(bytes).len() == 8 * bytes.len(),
        forall|i: int|
            0 <= i < binary_encoded(bytes).len() ==> (#[trigger] binary_encoded(bytes)[i] == 48
                || binary_encoded(bytes)[i] == 49),
        forall|j: int|
            0 <= j < bytes.len() ==> msb_first_value(#[trigger] binary_encoded(bytes).subrange(8 * j, 8 * j + 8))
                == bytes[j],
{
    let enc = binary_encoded(bytes);
    assert(two_to(8) == 256) by {
        reveal_with_fuel(two_to, 9);
    }
    assert forall|j: int| 0 <= j < bytes.len() implies msb_first_value(
        #[trigger] enc.subrange(8 * j, 8 * j + 8),
    ) == bytes[j] by {
        lemma_binary_digits_len(bytes[j] as nat, 8);
        lemma_binary_digits_msb(bytes[j] as nat, 8);
        assert forall|k: int| 0 <= k < 8 implies #[trigger] enc.subrange(8 * j, 8 * j + 8)[k] == binary_digits(
            bytes[j] as nat,
            8,
        )[k] by {
            assert((8 * j + k) / 8 == j);
            assert((8 * j + k) % 8 == k);
        }
        assert(enc.subrange(8 * j, 8 * j + 8) =~= binary_digits(bytes[j] as nat, 8));
    }
    assert forall|i: int| 0 <= i < enc.len() implies (#[trigger] enc[i] == 48 || enc[i] == 49) by {
        let j = i / 8;
        lemma_binary_digits_len(bytes[j] as nat, 8);
        lemma_binary_digits_msb(bytes[j] as nat, 8);
        assert(0 <= i % 8 < 8);
        assert(binary_digits(bytes[j] as nat, 8)[i % 8] == 48 || binary_digits(bytes[j] as nat, 8)[i % 8] == 49);
    }
}

/// The value of a lowercase hexadecimal digit (-1 for any other byte).
pub open spec fn hex_digit_value(c: u8) -> int {
    if 48 <= c <= 57 {
        c - 48
    } else if 97 <= c <= 102 {
        c - 87
    } else {
        -1
    }
}

/// The hex codecs write every byte as two lowercase hexadecimal digits, the
/// high half first, that spell it; the raw-hex codec writes its two halves as
/// the byte values 0 to 15, the high half first.
pub proof fn lemma_hex_spells_bytes(bytes: Seq<u8>)
    ensures
        hex_lower(bytes).len() == 2 * bytes.len(),
        raw_nibbles(bytes).len() == 2 * bytes.len(),
        forall|i: int| 0 <= i < 2 * bytes.len() ==> 0 <= hex_digit_value(#[trigger] hex_lower(bytes)[i]) < 16,
        forall|i: int| 0 <= i < 2 * bytes.len() ==> #[trigger] raw_nibbles(bytes)[i] < 16,
        forall|j: int|
            0 <= j < bytes.len() ==> 16 * hex_digit_value(#[trigger] hex_lower(bytes)[2 * j]) + hex_digit_value(
                hex_lower(bytes)[2 * j + 1],
            ) == bytes[j],
        forall|j: int|
            0 <= j < bytes.len() ==> 16 * (#[trigger] raw_nibbles(bytes)[2 * j]) + raw_nibbles(bytes)[2 * j + 1]
                == bytes[j],
{
    assert forall|j: int| 0 <= j < bytes.len() implies 16 * hex_digit_value(#[trigger] hex_lower(bytes)[2 * j])
        + hex_digit_value(hex_lower(bytes)[2 * j + 1]) == bytes[j] by {
        assert((2 * j) / 2 == j && (2 * j) % 2 == 0);
        assert((2 * j + 1) / 2 == j && (2 * j + 1) % 2 == 1);
    }
    assert forall|j: int| 0 <= j < bytes.len() implies 16 * (#[trigger] raw_nibbles(bytes)[2 * j])
        + raw_nibbles(bytes)[2 * j + 1] == bytes[j] by {
        assert((2 * j) / 2 == j && (2 * j) % 2 == 0);
        assert((2 * j + 1) / 2 == j && (2 * j + 1) % 2 == 1);
    }
}

proof fn lemma_rotate_back(c: u8, base: u8, rot: u8, period: u8)
    requires
        base <= c < base + period,
        0 < period,
        base + period <= 256,
        rot <= period,
        period <= 94,
    ensures
        base <= spec_rotate_around(c, base, rot, period) < base + period,
        spec_rotate_around(spec_rotate_around(c, base, rot, period), base, (period - rot) as u8, period) == c,
{
    let off = c - base;
    let p = period as int;
    assert((off + rot) % 256 == off + rot);
    let d = spec_rotate_around(c, base, rot, period);
    assert(d == base + (off + rot) % p);
    let back = (p - rot) as u8;
    assert(((off + rot) % p + back) % 256 == (off + rot) % p + back);
    assert(((off + rot) % p + back) % p == off) by (nonlinear_arith)
        requires
            0 <= off < p,
            0 <= rot <= p,
            back == p - rot,
            p > 0,
    ;
}

/// Rotating letters by `rot` and then by `26 - rot` gives them back.
pub proof fn lemma_rot13_roundtrip(bytes: Seq<u8>, rot: u8)
    requires
        rot <= 26,
    ensures
        rot13_all(rot13_all(bytes, rot), (26 - rot) as u8) == bytes,
{
    assert forall|i: int| 0 <= i < bytes.len() implies #[trigger] rot13_all(rot13_all(bytes, rot), (26 - rot) as u8)[i] == bytes[i] by {
        let c = bytes[i];
        if is_lowercase(c) {
            lemma_rotate_back(c, 97, rot, 26);
        } else if is_uppercase(c) {
            lemma_rotate_back(c, 65, rot, 26);
        }
    }
    assert(rot13_all(rot13_all(bytes, rot), (26 - rot) as u8) =~= bytes);
}

/// Rotating printable ASCII by `rot` and then by `94 - rot` gives it back.
pub proof fn lemma_rot47_roundtrip(bytes: Seq<u8>, rot: u8)
    requires
        rot <= 94,
    ensures
        rot47_all(rot47_all(bytes, rot), (94 - rot) as u8) == bytes,
{
    assert forall|i: int| 0 <= i < bytes.len() implies #[trigger] rot47_all(rot47_all(bytes, rot), (94 - rot) as u8)[i] == bytes[i] by {
        let c = bytes[i];
        if 33 <= c <= 126 {
            lemma_rotate_back(c, 33, rot, 94);
        }
    }
    assert(rot47_all(rot47_all(bytes, rot), (94 - rot) as u8) =~= bytes);
}

proof fn lemma_hex_run_end_all(buf: Seq<u8>, i: int)
    requires
        0 <= i <= buf.len(),
        forall|j: int| i <= j < buf.len() ==> is_hex_digit(#[trigger] buf[j]),
    ensures
        hex_run_end(buf, i) == buf.len(),
    decreases buf.len() - i,
{
    if i < buf.len() {
        lemma_hex_run_end_all(buf, i + 1);
    }
}

/// Decoding lowercase hexadecimal digits gives the bytes back.
pub proof fn lemma_hex_roundtrip(bytes: Seq<u8>)
    ensures
        spec_hex_decoded(hex_lower(bytes)) == bytes,
{
    let h = hex_lower(bytes);
    assert forall|j: int| 0 <= j < h.len() implies is_hex_digit(#[trigger] h[j]) by {
        assert(nibble_at(bytes, j) < 16);
    }
    lemma_hex_run_end_all(h, 0);
    assert(h.take(h.len() as int) =~= h);
    assert forall|i: int| 0 <= i < bytes.len() implies #[trigger] hex_pairs(h)[i] == bytes[i] by {
        assert((2 * i) / 2 == i && (2 * i) % 2 == 0);
        assert((2 * i + 1) / 2 == i && (2 * i + 1) % 2 == 1);
        let b = bytes[i];
        assert(hex_value(h[2 * i]) == b / 16);
        assert(hex_value(h[2 * i + 1]) == b % 16);
    }
    assert(hex_pairs(h) =~= bytes);
}

proof fn lemma_raw_run_end_all(buf: Seq<u8>, i: int)
    requires
        0 <= i <= buf.len(),
        forall|j: int| i <= j < buf.len() ==> #[trigger] buf[j] < 16,
    ensures
        raw_run_end(buf, i) == buf.len(),
    decreases buf.len() - i,
{
    if i < buf.len() {
        lemma_raw_run_end_all(buf, i + 1);
    }
}

/// Decoding raw half-byte values gives the bytes back.
pub proof fn lemma_raw_hex_roundtrip(bytes: Seq<u8>)
    ensures
        spec_raw_hex_decoded(raw_nibbles(bytes)) == bytes,
{
    let r = raw_nibbles(bytes);
    lemma_raw_run_end_all(r, 0);
    assert(raw_hex_digits(r) =~= hex_lower(bytes));
    lemma_hex_roundtrip(bytes);
}

proof fn lemma_binary_digits_value(b: nat, n: nat)
    requires
        b < two_pow(n),
    ensures
        bits_value(binary_digits(b, n)) == b,
        forall|k: int| 0 <= k < n ==> is_bit_digit(#[trigger] binary_digits(b, n)[k]),
        binary_digits(b, n).len() == n,
    decreases n,
{
    lemma_binary_digits_len(b, n);
    if n > 0 {
        lemma_binary_digits_value(b / 2, (n - 1) as nat);
        let d = binary_digits(b, n);
        assert(d.drop_last() =~= binary_digits(b / 2, (n - 1) as nat));
    }
}

/// Decoding the binary digits of bytes gives the bytes back.
pub proof fn lemma_binary_roundtrip(bytes: Seq<u8>)
    ensures
        binary_decoded(binary_encoded(bytes)) == bytes,
    decreases bytes.len(),
{
    let e = binary_encoded(bytes);
    if bytes.len() > 0 {
        assert(two_pow(8) == 256) by {
            reveal_with_fuel(two_pow, 9);
        }
        lemma_binary_digits_value(bytes[0] as nat, 8);
        assert forall|k: int| 0 <= k < 8 implies #[trigger] e.take(8)[k] == binary_digits(bytes[0] as nat, 8)[k] by {
            assert(k / 8 == 0 && k % 8 == k);
        }
        assert(e.take(8) =~= binary_digits(bytes[0] as nat, 8));
        assert(block_value(e.take(8)) == Some(bytes[0]));
        lemma_binary_roundtrip(bytes.drop_first());
        assert forall|k: int| 0 <= k < e.skip(8).len() implies #[trigger] e.skip(8)[k] == binary_encoded(bytes.drop_first())[k] by {
            assert((k + 8) / 8 == k / 8 + 1 && (k + 8) % 8 == k % 8);
        }
        assert(e.skip(8) =~= binary_encoded(bytes.drop_first()));
        assert(binary_decoded(e) =~= bytes);
    } else {
        assert(binary_decoded(e) =~= bytes);
    }
}

proof fn lemma_bytewise_run_end_all(buf: Seq<u8>, zero: u8, one: u8, i: int)
    requires
        0 <= i <= buf.len(),
        forall|j: int| i <= j < buf.len() ==> (#[trigger] buf[j] == zero || buf[j] == one),
    ensures
        bytewise_run_end(buf, zero, one, i) == buf.len(),
    decreases buf.len() - i,
{
    if i < buf.len() {
        lemma_bytewise_run_end_all(buf, zero, one, i + 1);
    }
}

/// Binary digits written with two distinct bytes are read back as the digits.
pub proof fn lemma_bytewise_roundtrip(bytes: Seq<u8>, zero: u8, one: u8)
    requires
        zero != one,
    ensures
        bytewise_digits(bytewise_encoded(binary_encoded(bytes), zero, one), zero, one)
            == binary_encoded(bytes),
{
    let d = binary_encoded(bytes);
    let e = bytewise_encoded(d, zero, one);
    lemma_bytewise_run_end_all(e, zero, one, 0);
    assert(two_pow(8) == 256) by {
        reveal_with_fuel(two_pow, 9);
    }
    assert forall|j: int| 0 <= j < d.len() implies #[trigger] bytewise_digits(e, zero, one)[j] == d[j] by {
        lemma_binary_digits_value(bytes[j / 8] as nat, 8);
        assert(0 <= j % 8 < 8);
        assert(is_bit_digit(binary_digits(bytes[j / 8] as nat, 8)[j % 8]));
    }
    assert(bytewise_digits(e, zero, one) =~= d);
}

proof fn lemma_base10_shift(p: Seq<u8>, r: Seq<u8>, j: int, cur: u8)
    requires
        0 <= j,
    ensures
        base10_chars_from(p + r, p.len() + j, cur) == base10_chars_from(r, j, cur),
    decreases r.len() - j,
{
    if j < r.len() {
        assert((p + r)[p.len() + j] == r[j]);
        if is_ascii_digit(r[j]) {
            let next = ((cur * 10) % 256 + (r[j] - 48)) % 256;
            if next >= 32 {
                lemma_base10_shift(p, r, j + 1, 0);
            } else {
                lemma_base10_shift(p, r, j + 1, next as u8);
            }
        }
    }
}

proof fn lemma_base10_one_char(v: u32, r: Seq<u8>)
    requires
        32 <= v <= 255,
    ensures
        base10_chars_from(decimal_digits(v as nat) + r, 0, 0) == seq![(v as u8) as char]
            + base10_chars_from(r, 0, 0),
{
    let d = decimal_digits(v as nat);
    let s = d + r;
    let n = v as nat;
    assert(d == decimal_digits(n / 10).push((48 + n % 10) as u8));
    if v < 100 {
        assert(decimal_digits(n / 10) == seq![(48 + n / 10) as u8]);
        assert(d =~= seq![(48 + v / 10) as u8, (48 + v % 10) as u8]);
        assert(s[0] == (48 + v / 10) as u8 && s[1] == (48 + v % 10) as u8);
        assert(((0u8 * 10) % 256 + (s[0] - 48)) % 256 == v / 10);
        assert((((v / 10) as u8 * 10) % 256 + (s[1] - 48)) % 256 == v);
        lemma_base10_shift(d, r, 0, 0);
        assert(d.len() == 2);
        assert(base10_chars_from(s, 0, 0) == base10_chars_from(s, 1, (v / 10) as u8));
        assert(base10_chars_from(s, 1, (v / 10) as u8) == seq![(v as u8) as char]
            + base10_chars_from(s, 2, 0));
        assert(base10_chars_from(s, 2, 0) == base10_chars_from(r, 0, 0));
    } else {
        let m = n / 10;
        assert(decimal_digits(m) == decimal_digits(m / 10).push((48 + m % 10) as u8));
        assert(decimal_digits(m / 10) == seq![(48 + m / 10) as u8]);
        assert(m / 10 == n / 100);
        assert(decimal_digits((v / 10) as nat) =~= seq![(48 + v / 100) as u8, (48 + (v / 10) % 10) as u8]);
        assert(d =~= seq![(48 + v / 100) as u8, (48 + (v / 10) % 10) as u8, (48 + v % 10) as u8]);
        assert(s[0] == (48 + v / 100) as u8 && s[1] == (48 + (v / 10) % 10) as u8 && s[2] == (48 + v % 10) as u8);
        assert(((0u8 * 10) % 256 + (s[0] - 48)) % 256 == v / 100);
        assert((((v / 100) as u8 * 10) % 256 + (s[1] - 48)) % 256 == v / 10);
        assert((((v / 10) as u8 * 10) % 256 + (s[2] - 48)) % 256 == v);
        lemma_base10_shift(d, r, 0, 0);
        assert(d.len() == 3);
        assert(base10_chars_from(s, 0, 0) == base10_chars_from(s, 1, (v / 100) as u8));
        assert(base10_chars_from(s, 1, (v / 100) as u8) == base10_chars_from(s, 2, (v / 10) as u8));
        assert(base10_chars_from(s, 2, (v / 10) as u8) == seq![(v as u8) as char]
            + base10_chars_from(s, 3, 0));
        assert(base10_chars_from(s, 3, 0) == base10_chars_from(r, 0, 0));
    }
}

proof fn lemma_base10_encoded_front(chars: Seq<char>)
    requires
        chars.len() > 0,
    ensures
        base10_encoded(chars) == decimal_digits(chars[0] as u32 as nat) + base10_encoded(chars.drop_first()),
    decreases chars.len(),
{
    if chars.len() == 1 {
        assert(chars.drop_last() =~= Seq::<char>::empty());
        assert(chars.drop_first() =~= Seq::<char>::empty());
        assert(base10_encoded(chars) =~= decimal_digits(chars[0] as u32 as nat) + base10_encoded(chars.drop_first()));
    } else {
        lemma_base10_encoded_front(chars.drop_last());
        assert(chars.drop_last().drop_first() =~= chars.drop_first().drop_last());
        assert(chars.drop_first().last() == chars.last());
        assert(base10_encoded(chars) =~= decimal_digits(chars[0] as u32 as nat) + base10_encoded(chars.drop_first()));
    }
}

/// Every character has a code from 32 to 255, so that its decimal code is
/// decoded as soon as it is complete.
pub open spec fn base10_decodable(chars: Seq<char>) -> bool {
    forall|i: int| 0 <= i < chars.len() ==> 32 <= (#[trigger] chars[i]) as u32 <= 255
}

/// Decoding the decimal codes of characters from 32 to 255 gives the characters back.
pub proof fn lemma_base10_roundtrip(chars: Seq<char>)
    requires
        base10_decodable(chars),
    ensures
        spec_base10_decoded(base10_encoded(chars)) == encode_utf8(chars),
    decreases chars.len(),
{
    lemma_base10_chars(chars);
}

proof fn lemma_base10_chars(chars: Seq<char>)
    requires
        base10_decodable(chars),
    ensures
        base10_chars_from(base10_encoded(chars), 0, 0) == chars,
    decreases chars.len(),
{
    if chars.len() == 0 {
        assert(base10_chars_from(base10_encoded(chars), 0, 0) =~= chars);
    } else {
        let c = chars[0];
        let v = c as u32;
        assert(32 <= v <= 255);
        lemma_base10_encoded_front(chars);
        lemma_base10_chars(chars.drop_first());
        lemma_base10_one_char(v, base10_encoded(chars.drop_first()));
        char_u32_cast(c, v);
        assert((v as u8) as char == c);
        assert(base10_chars_from(base10_encoded(chars), 0, 0) =~= chars);
    }
}

} // verus!
