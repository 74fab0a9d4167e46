//! The Unicode encodings: UTF-8, UTF-16 and UTF-32 in both byte orders.

use vstd::prelude::*;
use vstd::string::*;
use vstd::utf8::*;
use crate::codecs::{opt_bytes, Codec, CodecView, Decoder};
use crate::text::{
    be_bytes_to_u16s, be_bytes_to_u32s, byte_of_u16, byte_of_u32, char_from_u32,
    char_or_replacement, chars_of, decode_utf16_lossy, encode_utf16, encode_utf32,
    into_utf8_bytes, is_high_surrogate, is_low_surrogate, is_surrogate,
    lemma_chars_len_le_utf8_len, lemma_utf16_len_le_twice, le_bytes_to_u16s, le_bytes_to_u32s,
    pattern_fits, push_char, surrogate_pair_value, u16s_to_be_bytes, u16s_to_le_bytes,
    u32_of_le, u32s_to_be_bytes, u32s_to_le_bytes, utf16_of_char, REPLACEMENT_CHARACTER,
};

verus! {

broadcast use vstd::utf8::group_utf8_lib;

/// `encode_utf16` of a sequence with one more character.
pub proof fn lemma_encode_utf16_push(s: Seq<char>, c: char)
    ensures
        encode_utf16(s.push(c)) == encode_utf16(s) + utf16_of_char(c),
    decreases s.len(),
{
    if s.len() == 0 {
        assert(s.push(c).drop_first() =~= seq![]);
        assert(encode_utf16(s.push(c)) =~= utf16_of_char(c) + encode_utf16(seq![]));
    } else {
        lemma_encode_utf16_push(s.drop_first(), c);
        assert(s.push(c).drop_first() =~= s.drop_first().push(c));
        assert(encode_utf16(s.push(c)) =~= encode_utf16(s) + utf16_of_char(c));
    }
}

/// The UTF-16 code units of a string.
pub fn utf16_units(data: &str) -> (res: Vec<u16>)
    ensures
        res@ == encode_utf16(data@),
{
    let chars = chars_of(data);
    let mut units: Vec<u16> = Vec::new();
    let mut i: usize = 0;
    while i < chars.len()
        invariant
            i <= chars@.len(),
            chars@ == data@,
            units@ == encode_utf16(chars@.take(i as int)),
        decreases chars@.len() - i,
    {
        let c = chars[i];
        let v = c as u32;
        proof {
            lemma_encode_utf16_push(chars@.take(i as int), c);
            assert(chars@.take(i + 1) =~= chars@.take(i as int).push(c));
        }
        if v < 0x10000 {
            units.push(v as u16);
        } else {
            let w = v - 0x10000;
            units.push((0xD800 + w / 0x400) as u16);
            units.push((0xDC00 + w % 0x400) as u16);
        }
        proof {
            assert(units@ =~= encode_utf16(chars@.take(i + 1)));
        }
        i = i + 1;
    }
    proof {
        assert(chars@.take(chars@.len() as int) =~= chars@);
    }
    units
}

/// The bytes of 16-bit units, little-endian (`big_endian == false`) or big-endian.
pub fn u16s_to_bytes(units: &Vec<u16>, big_endian: bool) -> (res: Vec<u8>)
    requires
        2 * units@.len() <= usize::MAX,
    ensures
        res@ == (if big_endian { u16s_to_be_bytes(units@) } else { u16s_to_le_bytes(units@) }),
{
    let mut out: Vec<u8> = Vec::new();
    let mut i: usize = 0;
    while i < units.len()
        invariant
            i <= units@.len(),
            2 * units@.len() <= usize::MAX,
            out@.len() == 2 * i,
            forall|j: int|
                0 <= j < 2 * i ==> #[trigger] out@[j] == (if big_endian {
                    byte_of_u16(units@[j / 2], 1 - j % 2)
                } else {
                    byte_of_u16(units@[j / 2], j % 2)
                }),
        decreases units@.len() - i,
    {
        let u = units[i];
        let lo = (u % 256) as u8;
        let hi = (u / 256) as u8;
        if big_endian {
            out.push(hi);
            out.push(lo);
        } else {
            out.push(lo);
            out.push(hi);
        }
        i = i + 1;
    }
    proof {
        if big_endian {
            assert(out@ =~= u16s_to_be_bytes(units@));
        } else {
            assert(out@ =~= u16s_to_le_bytes(units@));
        }
    }
    out
}

/// The 16-bit units read from whole pairs of bytes.
pub fn bytes_to_u16s(buf: &Vec<u8>, big_endian: bool) -> (res: Vec<u16>)
    ensures
        res@ == (if big_endian { be_bytes_to_u16s(buf@) } else { le_bytes_to_u16s(buf@) }),
{
    let mut out: Vec<u16> = Vec::new();
    let n = buf.len() / 2;
    let mut i: usize = 0;
    while i < n
        invariant
            n == buf@.len() / 2,
            buf@.len() <= usize::MAX,
            i <= n,
            out@.len() == i,
            forall|j: int|
                0 <= j < i ==> #[trigger] out@[j] == (if big_endian {
                    (256 * buf@[2 * j] + buf@[2 * j + 1]) as u16
                } else {
                    (buf@[2 * j] + 256 * buf@[2 * j + 1]) as u16
                }),
        decreases n - i,
    {
        assert(2 * i + 1 < buf@.len()) by (nonlinear_arith)
            requires
                i < n,
                n == buf@.len() / 2,
        ;
        let k: usize = 2 * i;
        let a = buf[k] as u16;
        let b = buf[k + 1] as u16;
        if big_endian {
            out.push(256 * a + b);
        } else {
            out.push(a + 256 * b);
        }
        i = i + 1;
    }
    proof {
        if big_endian {
            assert(out@ =~= be_bytes_to_u16s(buf@));
        } else {
            assert(out@ =~= le_bytes_to_u16s(buf@));
        }
    }
    out
}

/// Appends the lossy UTF-16 decoding of `units` to `s`.
pub fn push_utf16_lossy(units: &Vec<u16>, s: &mut String)
    ensures
        final(s)@ == old(s)@ + decode_utf16_lossy(units@),
{
    let n = units.len();
    let mut i: usize = 0;
    proof {
        assert(units@.subrange(0, n as int) =~= units@);
    }
    while i < n
        invariant
            n == units@.len(),
            i <= n,
            s@ + decode_utf16_lossy(units@.subrange(i as int, n as int)) == old(s)@
                + decode_utf16_lossy(units@),
        decreases n - i,
    {
        let ghost rest = units@.subrange(i as int, n as int);
        let ghost before = s@;
        let u = units[i];
        if u < 0xD800 || u > 0xDFFF {
            match char_from_u32(u as u32) {
                Some(c) => push_char(s, c),
                None => push_char(s, REPLACEMENT_CHARACTER),
            }
            proof {
                assert(rest.drop_first() =~= units@.subrange(i + 1, n as int));
                assert(s@ + decode_utf16_lossy(units@.subrange(i + 1, n as int)) =~= before
                    + decode_utf16_lossy(rest));
            }
            i = i + 1;
        } else if u <= 0xDBFF && i + 1 < n && units[i + 1] >= 0xDC00 && units[i + 1] <= 0xDFFF {
            let low = units[i + 1];
            let v: u32 = 0x10000 + ((u - 0xD800) as u32) * 0x400 + ((low - 0xDC00) as u32);
            proof {
                assert(v == surrogate_pair_value(u, low));
            }
            match char_from_u32(v) {
                Some(c) => push_char(s, c),
                None => push_char(s, REPLACEMENT_CHARACTER),
            }
            proof {
                assert(rest.subrange(2, rest.len() as int) =~= units@.subrange(i + 2, n as int));
                assert(s@ + decode_utf16_lossy(units@.subrange(i + 2, n as int)) =~= before
                    + decode_utf16_lossy(rest));
            }
            i = i + 2;
        } else {
            push_char(s, REPLACEMENT_CHARACTER);
            proof {
                assert(rest.drop_first() =~= units@.subrange(i + 1, n as int));
                assert(s@ + decode_utf16_lossy(units@.subrange(i + 1, n as int)) =~= before
                    + decode_utf16_lossy(rest));
            }
            i = i + 1;
        }
    }
    proof {
        assert(units@.subrange(n as int, n as int) =~= Seq::<u16>::empty());
        assert(s@ =~= old(s)@ + decode_utf16_lossy(units@));
    }
}

/// The 32-bit units read from whole groups of four bytes.
pub fn bytes_to_u32s(buf: &Vec<u8>, big_endian: bool) -> (res: Vec<u32>)
    ensures
        res@ == (if big_endian { be_bytes_to_u32s(buf@) } else { le_bytes_to_u32s(buf@) }),
{
    let mut out: Vec<u32> = Vec::new();
    let n = buf.len() / 4;
    let mut i: usize = 0;
    while i < n
        invariant
            n == buf@.len() / 4,
            buf@.len() <= usize::MAX,
            i <= n,
            out@.len() == i,
            forall|j: int|
                0 <= j < i ==> #[trigger] out@[j] == (if big_endian {
                    u32_of_le(buf@[4 * j + 3], buf@[4 * j + 2], buf@[4 * j + 1], buf@[4 * j])
                } else {
                    u32_of_le(buf@[4 * j], buf@[4 * j + 1], buf@[4 * j + 2], buf@[4 * j + 3])
                }),
        decreases n - i,
    {
        assert(4 * i + 3 < buf@.len()) by (nonlinear_arith)
            requires
                i < n,
                n == buf@.len() / 4,
        ;
        let k: usize = 4 * i;
        let (b0, b1, b2, b3) = if big_endian {
            (buf[k + 3], buf[k + 2], buf[k + 1], buf[k])
        } else {
            (buf[k], buf[k + 1], buf[k + 2], buf[k + 3])
        };
        let v: u32 = (b0 as u32) + 0x100 * (b1 as u32) + 0x10000 * (b2 as u32) + 0x1000000 * (
        b3 as u32);
        out.push(v);
        i = i + 1;
    }
    proof {
        if big_endian {
            assert(out@ =~= be_bytes_to_u32s(buf@));
        } else {
            assert(out@ =~= le_bytes_to_u32s(buf@));
        }
    }
    out
}

/// The bytes of 32-bit units, little-endian (`big_endian == false`) or big-endian.
pub fn u32s_to_bytes(units: &Vec<u32>, big_endian: bool) -> (res: Vec<u8>)
    requires
        4 * units@.len() <= usize::MAX,
    ensures
        res@ == (if big_endian { u32s_to_be_bytes(units@) } else { u32s_to_le_bytes(units@) }),
{
    let mut out: Vec<u8> = Vec::new();
    let mut i: usize = 0;
    while i < units.len()
        invariant
            i <= units@.len(),
            4 * units@.len() <= usize::MAX,
            out@.len() == 4 * i,
            forall|j: int|
                0 <= j < 4 * i ==> #[trigger] out@[j] == (if big_endian {
                    byte_of_u32(units@[j / 4], 3 - j % 4)
                } else {
                    byte_of_u32(units@[j / 4], j % 4)
                }),
        decreases units@.len() - i,
    {
        let u = units[i];
        let b0 = (u % 0x100) as u8;
        let b1 = ((u / 0x100) % 0x100) as u8;
        let b2 = ((u / 0x10000) % 0x100) as u8;
        let b3 = (u / 0x1000000) as u8;
        if big_endian {
            out.push(b3);
            out.push(b2);
            out.push(b1);
            out.push(b0);
        } else {
            out.push(b0);
            out.push(b1);
            out.push(b2);
            out.push(b3);
        }
        i = i + 1;
    }
    proof {
        if big_endian {
            assert(out@ =~= u32s_to_be_bytes(units@));
        } else {
            assert(out@ =~= u32s_to_le_bytes(units@));
        }
    }
    out
}

/// The scalar values of a string.
pub fn utf32_units(data: &str) -> (res: Vec<u32>)
    ensures
        res@ == encode_utf32(data@),
{
    let chars = chars_of(data);
    let mut units: Vec<u32> = Vec::new();
    let mut i: usize = 0;
    while i < chars.len()
        invariant
            i <= chars@.len(),
            chars@ == data@,
            units@.len() == i,
            forall|j: int| 0 <= j < i ==> #[trigger] units@[j] == chars@[j] as u32,
        decreases chars@.len() - i,
    {
        units.push(chars[i] as u32);
        i = i + 1;
    }
    proof {
        assert(units@ =~= encode_utf32(data@));
    }
    units
}

/// What the UTF-16 decoders give for a buffer: the lossy decoding of its whole
/// pairs of bytes, with one `REPLACEMENT_CHARACTER` for an odd last byte, as UTF-8.
pub open spec fn spec_utf16_decoded(buf: Seq<u8>, big_endian: bool) -> Seq<u8> {
    let units = if big_endian { be_bytes_to_u16s(buf) } else { le_bytes_to_u16s(buf) };
    let tail = if buf.len() % 2 == 1 { seq![REPLACEMENT_CHARACTER] } else { Seq::<char>::empty() };
    encode_utf8(decode_utf16_lossy(units) + tail)
}

/// What the UTF-32 decoders give for a buffer: one character per whole group of
/// four bytes (`REPLACEMENT_CHARACTER` where the value is no scalar), as UTF-8.
pub open spec fn spec_utf32_decoded(buf: Seq<u8>, big_endian: bool) -> Seq<u8> {
    let units = if big_endian { be_bytes_to_u32s(buf) } else { le_bytes_to_u32s(buf) };
    encode_utf8(units.map_values(|u: u32| char_or_replacement(u)))
}

fn utf16_decode(buf: Vec<u8>, big_endian: bool) -> (res: Vec<u8>)
    ensures
        res@ == spec_utf16_decoded(buf@, big_endian),
{
    let units = bytes_to_u16s(&buf, big_endian);
    let mut s = String::new();
    push_utf16_lossy(&units, &mut s);
    if buf.len() % 2 == 1 {
        push_char(&mut s, REPLACEMENT_CHARACTER);
    }
    proof {
        let tail = if buf@.len() % 2 == 1 {
            seq![REPLACEMENT_CHARACTER]
        } else {
            Seq::<char>::empty()
        };
        assert(s@ =~= decode_utf16_lossy(units@) + tail);
    }
    into_utf8_bytes(s)
}

fn utf32_decode(buf: Vec<u8>, big_endian: bool) -> (res: Vec<u8>)
    ensures
        res@ == spec_utf32_decoded(buf@, big_endian),
{
    let units = bytes_to_u32s(&buf, big_endian);
    let mut s = String::new();
    let mut i: usize = 0;
    while i < units.len()
        invariant
            i <= units@.len(),
            s@ =~= units@.take(i as int).map_values(|u: u32| char_or_replacement(u)),
        decreases units@.len() - i,
    {
        match char_from_u32(units[i]) {
            Some(c) => push_char(&mut s, c),
            None => push_char(&mut s, REPLACEMENT_CHARACTER),
        }
        proof {
            assert(units@.take(i + 1) =~= units@.take(i as int).push(units@[i as int]));
        }
        i = i + 1;
    }
    proof {
        assert(units@.take(units@.len() as int) =~= units@);
    }
    into_utf8_bytes(s)
}

/// The identity decoder: the bytes come back as they were found.
pub fn identity_decoder(buf: Vec<u8>) -> (res: Option<Vec<u8>>)
    ensures
        opt_bytes(res) == Some(buf@),
{
    Some(buf)
}

/// The identity codec: bytes stand for themselves, under the name `UTF8`.
pub fn identity_codec(data: &[u8]) -> (res: Codec)
    ensures
        res@ == (CodecView { encoded: data@, name: "UTF8"@, decoder: Decoder::Utf8 }),
{
    Codec {
        encoded: vstd::slice::slice_to_vec(data),
        name: String::from_str("UTF8"),
        decoder: Decoder::Utf8,
    }
}

/// The UTF-8 decoder hands the bytes back unchanged.
pub fn utf8_decoder(buf: Vec<u8>) -> (res: Option<Vec<u8>>)
    ensures
        opt_bytes(res) == Some(buf@),
{
    identity_decoder(buf)
}

/// Lossy little-endian UTF-16 decoding, as UTF-8.
pub fn utf16_le_decoder(buf: Vec<u8>) -> (res: Option<Vec<u8>>)
    ensures
        opt_bytes(res) == Some(spec_utf16_decoded(buf@, false)),
{
    Some(utf16_decode(buf, false))
}

/// Lossy big-endian UTF-16 decoding, as UTF-8.
pub fn utf16_be_decoder(buf: Vec<u8>) -> (res: Option<Vec<u8>>)
    ensures
        opt_bytes(res) == Some(spec_utf16_decoded(buf@, true)),
{
    Some(utf16_decode(buf, true))
}

/// Little-endian UTF-32 decoding, as UTF-8.
pub fn utf32_le_decoder(buf: Vec<u8>) -> (res: Option<Vec<u8>>)
    ensures
        opt_bytes(res) == Some(spec_utf32_decoded(buf@, false)),
{
    Some(utf32_decode(buf, false))
}

/// Big-endian UTF-32 decoding, as UTF-8.
pub fn utf32_be_decoder(buf: Vec<u8>) -> (res: Option<Vec<u8>>)
    ensures
        opt_bytes(res) == Some(spec_utf32_decoded(buf@, true)),
{
    Some(utf32_decode(buf, true))
}

pub open spec fn spec_utf8_codec(text: Seq<char>) -> CodecView {
    CodecView { encoded: encode_utf8(text), name: "UTF8"@, decoder: Decoder::Utf8 }
}

pub open spec fn spec_utf16_le_codec(text: Seq<char>) -> CodecView {
    CodecView {
        encoded: u16s_to_le_bytes(encode_utf16(text)),
        name: "UTF-16-LE"@,
        decoder: Decoder::Utf16Le,
    }
}

pub open spec fn spec_utf16_be_codec(text: Seq<char>) -> CodecView {
    CodecView {
        encoded: u16s_to_be_bytes(encode_utf16(text)),
        name: "UTF-16-BE"@,
        decoder: Decoder::Utf16Be,
    }
}

pub open spec fn spec_utf32_le_codec(text: Seq<char>) -> CodecView {
    CodecView {
        encoded: u32s_to_le_bytes(encode_utf32(text)),
        name: "UTF-32-LE"@,
        decoder: Decoder::Utf32Le,
    }
}

pub open spec fn spec_utf32_be_codec(text: Seq<char>) -> CodecView {
    CodecView {
        encoded: u32s_to_be_bytes(encode_utf32(text)),
        name: "UTF-32-BE"@,
        decoder: Decoder::Utf32Be,
    }
}

/// The UTF-8 codec: the pattern's own bytes.
pub fn utf8_codec(data: &str) -> (res: Codec)
    ensures
        res@ == spec_utf8_codec(data@),
{
    identity_codec(data.as_bytes())
}

fn utf16_codec(data: &str, big_endian: bool) -> (res: Vec<u8>)
    requires
        pattern_fits(data@),
    ensures
        res@ == (if big_endian {
            u16s_to_be_bytes(encode_utf16(data@))
        } else {
            u16s_to_le_bytes(encode_utf16(data@))
        }),
{
    let units = utf16_units(data);
    proof {
        lemma_utf16_len_le_twice(data@);
        lemma_chars_len_le_utf8_len(data@);
    }
    u16s_to_bytes(&units, big_endian)
}

fn utf32_codec(data: &str, big_endian: bool) -> (res: Vec<u8>)
    requires
        pattern_fits(data@),
    ensures
        res@ == (if big_endian {
            u32s_to_be_bytes(encode_utf32(data@))
        } else {
            u32s_to_le_bytes(encode_utf32(data@))
        }),
{
    let units = utf32_units(data);
    proof {
        lemma_chars_len_le_utf8_len(data@);
    }
    u32s_to_bytes(&units, big_endian)
}

/// The little-endian UTF-16 codec.
pub fn utf16_le_codec(data: &str) -> (res: Codec)
    requires
        pattern_fits(data@),
    ensures
        res@ == spec_utf16_le_codec(data@),
{
    Codec {
        encoded: utf16_codec(data, false),
        name: String::from_str("UTF-16-LE"),
        decoder: Decoder::Utf16Le,
    }
}

/// The big-endian UTF-16 codec.
pub fn utf16_be_codec(data: &str) -> (res: Codec)
    requires
        pattern_fits(data@),
    ensures
        res@ == spec_utf16_be_codec(data@),
{
    Codec {
        encoded: utf16_codec(data, true),
        name: String::from_str("UTF-16-BE"),
        decoder: Decoder::Utf16Be,
    }
}

/// The little-endian UTF-32 codec.
pub fn utf32_le_codec(data: &str) -> (res: Codec)
    requires
        pattern_fits(data@),
    ensures
        res@ == spec_utf32_le_codec(data@),
{
    Codec {
        encoded: utf32_codec(data, false),
        name: String::from_str("UTF-32-LE"),
        decoder: Decoder::Utf32Le,
    }
}

/// The big-endian UTF-32 codec.
pub fn utf32_be_codec(data: &str) -> (res: Codec)
    requires
        pattern_fits(data@),
    ensures
        res@ == spec_utf32_be_codec(data@),
{
    Codec {
        encoded: utf32_codec(data, true),
        name: String::from_str("UTF-32-BE"),
        decoder: Decoder::Utf32Be,
    }
}

/// The Unicode codecs, in the order UTF-8, UTF-16-LE, UTF-16-BE, UTF-32-LE, UTF-32-BE.
pub open spec fn spec_common_encodings(text: Seq<char>) -> Seq<CodecView> {
    seq![
        spec_utf8_codec(text),
        spec_utf16_le_codec(text),
        spec_utf16_be_codec(text),
        spec_utf32_le_codec(text),
        spec_utf32_be_codec(text),
    ]
}

/// All Unicode codecs of a pattern.
pub fn common_encodings(data: &str) -> (res: Vec<Codec>)
    requires
        pattern_fits(data@),
    ensures
        res@.map_values(|c: Codec| c@) == spec_common_encodings(data@),
{
    let mut v: Vec<Codec> = Vec::new();
    v.push(utf8_codec(data));
    v.push(utf16_le_codec(data));
    v.push(utf16_be_codec(data));
    v.push(utf32_le_codec(data));
    v.push(utf32_be_codec(data));
    proof {
        assert(v@.map_values(|c: Codec| c@) =~= spec_common_encodings(data@));
    }
    v
}

// ---------------------------------------------------------------------------
// Round trips
// ---------------------------------------------------------------------------

/// Lossy UTF-16 decoding undoes UTF-16 encoding.
pub proof fn lemma_decode_encode_utf16(chars: Seq<char>)
    ensures
        decode_utf16_lossy(encode_utf16(chars)) == chars,
    decreases chars.len(),
{
    if chars.len() > 0 {
        let c = chars[0];
        let v = c as u32;
        let tail = chars.drop_first();
        let units = encode_utf16(chars);
        lemma_decode_encode_utf16(tail);
        char_is_scalar(c);
        char_u32_cast(c, v);
        assert(is_scalar(v));
        if v < 0x10000 {
            assert(units.drop_first() =~= encode_utf16(tail));
            assert(((v as u16) as u32) == v);
            assert((v as char) == c);
        } else {
            let w = (v - 0x10000) as int;
            let hi = (0xD800 + w / 0x400) as u16;
            let lo = (0xDC00 + w % 0x400) as u16;
            assert(w / 0x400 * 0x400 + w % 0x400 == w) by (nonlinear_arith);
            assert(units[0] == hi && units[1] == lo);
            assert(surrogate_pair_value(hi, lo) == v);
            assert(units.subrange(2, units.len() as int) =~= encode_utf16(tail));
            assert((v as char) == c);
        }
        assert(decode_utf16_lossy(units) =~= chars);
    }
}

/// Reading 16-bit units back from their little-endian bytes gives the units.
pub proof fn lemma_le_u16s_roundtrip(units: Seq<u16>)
    ensures
        le_bytes_to_u16s(u16s_to_le_bytes(units)) == units,
        u16s_to_le_bytes(units).len() % 2 == 0,
{
    let b = u16s_to_le_bytes(units);
    assert forall|i: int| 0 <= i < units.len() implies #[trigger] le_bytes_to_u16s(b)[i] == units[i] by {
        assert((2 * i) / 2 == i && (2 * i) % 2 == 0);
        assert((2 * i + 1) / 2 == i && (2 * i + 1) % 2 == 1);
    }
    assert(le_bytes_to_u16s(b) =~= units);
}

/// Reading 16-bit units back from their big-endian bytes gives the units.
pub proof fn lemma_be_u16s_roundtrip(units: Seq<u16>)
    ensures
        be_bytes_to_u16s(u16s_to_be_bytes(units)) == units,
        u16s_to_be_bytes(units).len() % 2 == 0,
{
    let b = u16s_to_be_bytes(units);
    assert forall|i: int| 0 <= i < units.len() implies #[trigger] be_bytes_to_u16s(b)[i] == units[i] by {
        assert((2 * i) / 2 == i && (2 * i) % 2 == 0);
        assert((2 * i + 1) / 2 == i && (2 * i + 1) % 2 == 1);
    }
    assert(be_bytes_to_u16s(b) =~= units);
}

proof fn lemma_u32_bytes(u: u32)
    ensures
        u32_of_le(byte_of_u32(u, 0), byte_of_u32(u, 1), byte_of_u32(u, 2), byte_of_u32(u, 3)) == u,
{
    let x = u as int;
    assert(x % 0x100 + 0x100 * ((x / 0x100) % 0x100) + 0x10000 * ((x / 0x10000) % 0x100)
        + 0x1000000 * (x / 0x1000000) == x) by (nonlinear_arith)
        requires
            0 <= x < 0x100000000,
    ;
}

/// Reading 32-bit units back from their little-endian bytes gives the units.
pub proof fn lemma_le_u32s_roundtrip(units: Seq<u32>)
    ensures
        le_bytes_to_u32s(u32s_to_le_bytes(units)) == units,
{
    let b = u32s_to_le_bytes(units);
    assert forall|i: int| 0 <= i < units.len() implies #[trigger] le_bytes_to_u32s(b)[i] == units[i] by {
        assert((4 * i) / 4 == i && (4 * i) % 4 == 0);
        assert((4 * i + 1) / 4 == i && (4 * i + 1) % 4 == 1);
        assert((4 * i + 2) / 4 == i && (4 * i + 2) % 4 == 2);
        assert((4 * i + 3) / 4 == i && (4 * i + 3) % 4 == 3);
        lemma_u32_bytes(units[i]);
    }
    assert(le_bytes_to_u32s(b) =~= units);
}

/// Reading 32-bit units back from their big-endian bytes gives the units.
pub proof fn lemma_be_u32s_roundtrip(units: Seq<u32>)
    ensures
        be_bytes_to_u32s(u32s_to_be_bytes(units)) == units,
{
    let b = u32s_to_be_bytes(units);
    assert forall|i: int| 0 <= i < units.len() implies #[trigger] be_bytes_to_u32s(b)[i] == units[i] by {
        assert((4 * i) / 4 == i && (4 * i) % 4 == 0);
        assert((4 * i + 1) / 4 == i && (4 * i + 1) % 4 == 1);
        assert((4 * i + 2) / 4 == i && (4 * i + 2) % 4 == 2);
        assert((4 * i + 3) / 4 == i && (4 * i + 3) % 4 == 3);
        lemma_u32_bytes(units[i]);
    }
    assert(be_bytes_to_u32s(b) =~= units);
}

/// The UTF-16 decoders give back the UTF-8 of the text their codecs encoded.
pub proof fn lemma_utf16_roundtrip(text: Seq<char>, big_endian: bool)
    ensures
        spec_utf16_decoded(
            if big_endian {
                u16s_to_be_bytes(encode_utf16(text))
            } else {
                u16s_to_le_bytes(encode_utf16(text))
            },
            big_endian,
        ) == encode_utf8(text),
{
    lemma_decode_encode_utf16(text);
    lemma_le_u16s_roundtrip(encode_utf16(text));
    lemma_be_u16s_roundtrip(encode_utf16(text));
    assert(text + Seq::<char>::empty() =~= text);
}

/// The UTF-32 decoders give back the UTF-8 of the text their codecs encoded.
pub proof fn lemma_utf32_roundtrip(text: Seq<char>, big_endian: bool)
    ensures
        spec_utf32_decoded(
            if big_endian {
                u32s_to_be_bytes(encode_utf32(text))
            } else {
                u32s_to_le_bytes(encode_utf32(text))
            },
            big_endian,
        ) == encode_utf8(text),
{
    let units = encode_utf32(text);
    if big_endian {
        lemma_be_u32s_roundtrip(units);
    } else {
        lemma_le_u32s_roundtrip(units);
    }
    let chars = units.map_values(|u: u32| char_or_replacement(u));
    assert forall|i: int| 0 <= i < text.len() implies #[trigger] chars[i] == text[i] by {
        char_is_scalar(text[i]);
        char_u32_cast(text[i], units[i]);
    }
    assert(chars =~= text);
}

} // verus!
