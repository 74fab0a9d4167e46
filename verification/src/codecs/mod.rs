//! Codecs: each one turns a search pattern into the bytes it would look like
//! under some encoding, and carries the decoder that turns such bytes back.

pub mod base32_codecs;
pub mod base64_codecs;
pub mod common_encodings;
pub mod ctf_codecs;
pub mod encoding_rs_codecs;

use vstd::prelude::*;
use crate::codecs::base32_codecs::{base32_codecs, base32_decoder, spec_base32_codecs, spec_base32_decoded};
use crate::codecs::base64_codecs::{base64_codecs, base64_decoder, spec_base64_codecs, spec_base64_decoded};
use crate::codecs::common_encodings::{
    common_encodings, spec_common_encodings, spec_utf16_decoded, spec_utf32_decoded,
    utf16_be_decoder, utf16_le_decoder, utf32_be_decoder, utf32_le_decoder, utf8_decoder,
};
use crate::codecs::common_encodings::{lemma_utf16_roundtrip, lemma_utf32_roundtrip};
use crate::codecs::ctf_codecs::{
    base10_decodable, bytewise_pair, lemma_base10_roundtrip, lemma_binary_roundtrip,
    lemma_bytewise_roundtrip, lemma_hex_roundtrip, lemma_raw_hex_roundtrip, lemma_rot13_roundtrip,
    lemma_rot47_roundtrip, lemma_xor_roundtrip,
};
use crate::codecs::ctf_codecs::{
    base10_ascii_decoder, binary_decoded, binary_decoder, bytewise_binary_decoder,
    bytewise_digits, ctf_codecs, hex_decoder, raw_hex_decoder, rot13_all, rot13_decode,
    rot47_all, rot47_decode, spec_base10_decoded, spec_ctf_codecs, spec_hex_decoded,
    spec_raw_hex_decoded, xor_all, xor_decoder, spec_binary_codecs, spec_rot13_codecs,
    spec_rot47_codecs, spec_xor_codecs, spec_hex_codecs, spec_base10_ascii_codec,
    bytewise_pair_count,
};
use crate::codecs::encoding_rs_codecs::{
    encoding_rs_codecs, encoding_rs_decoder, spec_encoding_rs_codecs,
    spec_encoding_rs_codecs_upto, spec_encoding_rs_decoded, ENCODING_COUNT,
    lemma_encoding_rs_codecs_len,
};
use crate::text::pattern_fits;
use vstd::utf8::{encode_utf8, is_ascii_chars};

verus! {

/// The base64 alphabets that patterns are encoded with (all without padding
/// when encoding, and indifferent to padding when decoding).
#[derive(Clone, Copy, PartialEq, Eq, Debug, Structural)]
pub enum Base64Alphabet {
    Standard,
    UrlSafe,
    Bcrypt,
    BinHex,
    Crypt,
    ImapMutf7,
}

/// The base32 alphabets that patterns are encoded with (without padding).
#[derive(Clone, Copy, PartialEq, Eq, Debug, Structural)]
pub enum Base32Alphabet {
    Crockford,
    Rfc4648,
    Rfc4648Lower,
    Rfc4648Hex,
    Rfc4648HexLower,
    Z,
}

/// How bytes found in a haystack are decoded back into text, together with
/// what the decoding needs to know (a key, an alphabet, a rotation, ...).
#[derive(Clone, Copy, PartialEq, Eq, Debug, Structural)]
pub enum Decoder {
    Utf8,
    Utf16Le,
    Utf16Be,
    Utf32Le,
    Utf32Be,
    Base64(Base64Alphabet),
    Base32(Base32Alphabet),
    Base10Ascii,
    Xor(u8),
    Hex,
    RawHex,
    Binary,
    /// Binary digits written with the first byte for `0` and the second for `1`.
    BytewiseBinary(u8, u8),
    Rot13(u8),
    Rot47(u8),
    /// An encoding of `encoding_rs`, by its index in the table of encodings.
    EncodingRs(u8),
}

/// A pattern as it looks under one encoding, with the name of the encoding and
/// the decoder that undoes it.
pub struct Codec {
    pub encoded: Vec<u8>,
    pub name: String,
    pub decoder: Decoder,
}

/// The mathematical value of a `Codec`.
pub struct CodecView {
    pub encoded: Seq<u8>,
    pub name: Seq<char>,
    pub decoder: Decoder,
}

impl View for Codec {
    type V = CodecView;

    open spec fn view(&self) -> CodecView {
        CodecView { encoded: self.encoded@, name: self.name@, decoder: self.decoder }
    }
}

/// The value of an optional byte buffer.
pub open spec fn opt_bytes(o: Option<Vec<u8>>) -> Option<Seq<u8>> {
    match o {
        Some(v) => Some(v@),
        None => None,
    }
}

/// The decoding succeeds and gives the first bytes of `data`.
pub open spec fn decodes_to_prefix(decoded: Option<Seq<u8>>, data: Seq<u8>) -> bool {
    decoded matches Some(d) && d.len() <= data.len() && d == data.take(d.len() as int)
}

/// The values of a sequence of codecs.
pub open spec fn codec_views(v: Seq<Codec>) -> Seq<CodecView> {
    v.map_values(|c: Codec| c@)
}

/// The decoders that can run: a rotation is at most its period, and an
/// encoding index is within the table.
pub open spec fn decoder_wf(d: Decoder) -> bool {
    match d {
        Decoder::Rot13(rot) => rot <= 26,
        Decoder::Rot47(rot) => rot <= 94,
        Decoder::EncodingRs(index) => index < ENCODING_COUNT,
        _ => true,
    }
}

/// What a decoder makes of a buffer (`None` where the decoding fails).
pub open spec fn spec_decode(d: Decoder, buf: Seq<u8>) -> Option<Seq<u8>> {
    match d {
        Decoder::Utf8 => Some(buf),
        Decoder::Utf16Le => Some(spec_utf16_decoded(buf, false)),
        Decoder::Utf16Be => Some(spec_utf16_decoded(buf, true)),
        Decoder::Utf32Le => Some(spec_utf32_decoded(buf, false)),
        Decoder::Utf32Be => Some(spec_utf32_decoded(buf, true)),
        Decoder::Base64(alphabet) => spec_base64_decoded(alphabet, buf),
        Decoder::Base32(alphabet) => spec_base32_decoded(alphabet, buf),
        Decoder::Base10Ascii => Some(spec_base10_decoded(buf)),
        Decoder::Xor(key) => Some(xor_all(buf, key)),
        Decoder::Hex => Some(spec_hex_decoded(buf)),
        Decoder::RawHex => Some(spec_raw_hex_decoded(buf)),
        Decoder::Binary => Some(binary_decoded(buf)),
        Decoder::BytewiseBinary(zero, one) => Some(binary_decoded(bytewise_digits(buf, zero, one))),
        Decoder::Rot13(rot) => Some(rot13_all(buf, (26 - rot) as u8)),
        Decoder::Rot47(rot) => Some(rot47_all(buf, (94 - rot) as u8)),
        Decoder::EncodingRs(index) => spec_encoding_rs_decoded(index, buf),
    }
}

/// The metadata that a decoder was built with. Every codec of this library
/// carries what its decoder needs, so it is only asked for where it is there.
pub fn retrieve_metadata<T>(meta: Option<T>) -> (res: T)
    requires
        meta is Some,
    ensures
        meta == Some(res),
{
    meta.unwrap()
}

/// Runs a decoder on a buffer.
pub fn decode(decoder: Decoder, buf: Vec<u8>) -> (res: Option<Vec<u8>>)
    requires
        decoder_wf(decoder),
    ensures
        opt_bytes(res) == spec_decode(decoder, buf@),
{
    match decoder {
        Decoder::Utf8 => utf8_decoder(buf),
        Decoder::Utf16Le => utf16_le_decoder(buf),
        Decoder::Utf16Be => utf16_be_decoder(buf),
        Decoder::Utf32Le => utf32_le_decoder(buf),
        Decoder::Utf32Be => utf32_be_decoder(buf),
        Decoder::Base64(alphabet) => base64_decoder(buf, alphabet),
        Decoder::Base32(alphabet) => base32_decoder(buf, alphabet),
        Decoder::Base10Ascii => base10_ascii_decoder(buf),
        Decoder::Xor(key) => xor_decoder(buf, key),
        Decoder::Hex => hex_decoder(buf),
        Decoder::RawHex => raw_hex_decoder(buf),
        Decoder::Binary => binary_decoder(buf),
        Decoder::BytewiseBinary(zero, one) => bytewise_binary_decoder(buf, zero, one),
        Decoder::Rot13(rot) => rot13_decode(buf, rot),
        Decoder::Rot47(rot) => rot47_decode(buf, rot),
        Decoder::EncodingRs(index) => encoding_rs_decoder(buf, index),
    }
}

/// Every codec of a pattern, in the order Unicode, base64, base32, CTF,
/// legacy encodings (less likely codecs come later).
pub open spec fn spec_all_codecs(text: Seq<char>, gamble: bool) -> Seq<CodecView> {
    let bytes = encode_utf8(text);
    spec_common_encodings(text) + spec_base64_codecs(bytes) + spec_base32_codecs(bytes)
        + spec_ctf_codecs(text, gamble) + spec_encoding_rs_codecs(text)
}

/// The codecs whose decoding of their own encoding is promised to give back
/// the pattern's bytes, or their beginning: the legacy encodings for ASCII
/// patterns; the decimal codec where every character has a code from 32 to
/// 255; base64 unless the pattern is a single byte; all others always.
pub open spec fn roundtrip_promised(d: Decoder, text: Seq<char>) -> bool {
    &&& d is EncodingRs ==> is_ascii_chars(text)
    &&& d is Base10Ascii ==> base10_decodable(text)
    &&& d is Base64 ==> encode_utf8(text).len() != 1
}

/// Every codec of a pattern. Decoding what a codec made of the pattern gives
/// back the pattern's bytes, or their beginning (base64 and base32 drop a
/// partial last symbol), wherever `roundtrip_promised` holds.
pub fn all_codecs(data: &str, gamble: bool) -> (res: Vec<Codec>)
    requires
        pattern_fits(data@),
    ensures
        codec_views(res@) == spec_all_codecs(data@, gamble),
        forall|i: int|
            0 <= i < res@.len() && roundtrip_promised(#[trigger] res@[i].decoder, data@)
                ==> decodes_to_prefix(spec_decode(res@[i].decoder, res@[i].encoded@), encode_utf8(data@)),
{
    let mut codecs = common_encodings(data);
    let b64 = base64_codecs(data);
    let ghost v64 = b64@;
    extend_codecs(&mut codecs, b64);
    let b32 = base32_codecs(data);
    let ghost v32 = b32@;
    extend_codecs(&mut codecs, b32);
    extend_codecs(&mut codecs, ctf_codecs(data, gamble));
    let legacy = encoding_rs_codecs(data);
    let ghost vlegacy = legacy@;
    extend_codecs(&mut codecs, legacy);
    proof {
        lemma_all_codecs_roundtrip(data@, gamble, codecs@, v64, v32, vlegacy);
    }
    codecs
}

proof fn lemma_all_codecs_roundtrip(
    text: Seq<char>,
    gamble: bool,
    all: Seq<Codec>,
    v64: Seq<Codec>,
    v32: Seq<Codec>,
    vlegacy: Seq<Codec>,
)
    requires
        codec_views(all) == spec_all_codecs(text, gamble),
        codec_views(v64) == spec_base64_codecs(encode_utf8(text)),
        codec_views(v32) == spec_base32_codecs(encode_utf8(text)),
        encode_utf8(text).len() != 1 ==> forall|i: int|
            0 <= i < v64.len() ==> decodes_to_prefix(
                spec_decode(#[trigger] v64[i].decoder, v64[i].encoded@),
                encode_utf8(text),
            ),
        forall|i: int|
            0 <= i < v32.len() ==> decodes_to_prefix(
                spec_decode(#[trigger] v32[i].decoder, v32[i].encoded@),
                encode_utf8(text),
            ),
        codec_views(vlegacy) == spec_encoding_rs_codecs(text),
        is_ascii_chars(text) ==> forall|i: int|
            0 <= i < vlegacy.len() ==> spec_decode(#[trigger] vlegacy[i].decoder, vlegacy[i].encoded@)
                == Some(encode_utf8(text)),
    ensures
        forall|i: int|
            0 <= i < all.len() && roundtrip_promised(#[trigger] all[i].decoder, text)
                ==> decodes_to_prefix(spec_decode(all[i].decoder, all[i].encoded@), encode_utf8(text)),
{
    let bytes = encode_utf8(text);
    let common = spec_common_encodings(text);
    let b64 = spec_base64_codecs(bytes);
    let b32 = spec_base32_codecs(bytes);
    let ctf = spec_ctf_codecs(text, gamble);
    let enc = spec_encoding_rs_codecs(text);
    let views = spec_all_codecs(text, gamble);
    assert(views == common + b64 + b32 + ctf + enc);
    let n1 = common.len() as int;
    let n2 = n1 + b64.len();
    let n3 = n2 + b32.len();
    let n4 = n3 + ctf.len();
    lemma_encoding_rs_codecs_are_legacy(text, ENCODING_COUNT as int);
    lemma_ctf_codecs_proved(text, gamble);
    assert forall|i: int|
        0 <= i < all.len() && roundtrip_promised(#[trigger] all[i].decoder, text) implies decodes_to_prefix(
        spec_decode(all[i].decoder, all[i].encoded@),
        bytes,
    ) by {
        assert(all[i]@ == codec_views(all)[i]);
        let v = views[i];
        if i < n1 || (n3 <= i < n4) {
            if i < n1 {
                assert(v == common[i]);
            } else {
                assert(v == ctf[i - n3]);
            }
            lemma_codec_roundtrip(text, gamble, i);
            assert(bytes.take(bytes.len() as int) =~= bytes);
        } else if i < n2 {
            assert(v == b64[i - n1]);
            assert(v64[i - n1]@ == codec_views(v64)[i - n1]);
        } else if i < n3 {
            assert(v == b32[i - n2]);
            assert(v32[i - n2]@ == codec_views(v32)[i - n2]);
        } else {
            assert(v == enc[i - n4]);
            assert(vlegacy[i - n4]@ == codec_views(vlegacy)[i - n4]);
            assert(bytes.take(bytes.len() as int) =~= bytes);
        }
    }
}

proof fn lemma_ctf_codecs_proved(text: Seq<char>, gamble: bool)
    ensures
        forall|i: int|
            0 <= i < spec_ctf_codecs(text, gamble).len() ==> decoder_proved(
                #[trigger] spec_ctf_codecs(text, gamble)[i].decoder,
            ),
{
    let bytes = encode_utf8(text);
    let c = seq![spec_base10_ascii_codec(text)] + spec_xor_codecs(bytes) + spec_hex_codecs(bytes)
        + spec_binary_codecs(bytes, gamble);
    let r13 = spec_rot13_codecs(bytes);
    let r47 = spec_rot47_codecs(bytes);
    assert(spec_binary_codecs(bytes, gamble).len() == 1 + bytewise_pair_count(gamble));
    assert forall|i: int| 0 <= i < c.len() implies decoder_proved(#[trigger] c[i].decoder) by {}
    assert forall|i: int| 0 <= i < r13.len() implies decoder_proved(#[trigger] r13[i].decoder) by {}
    assert forall|i: int| 0 <= i < r47.len() implies decoder_proved(#[trigger] r47[i].decoder) by {}
    assert(spec_ctf_codecs(text, gamble) == c + r13 + r47);
}

proof fn lemma_encoding_rs_codecs_wf(text: Seq<char>, n: int)
    requires
        n <= ENCODING_COUNT,
    ensures
        forall|i: int|
            0 <= i < spec_encoding_rs_codecs_upto(text, n).len() ==> decoder_wf(
                #[trigger] spec_encoding_rs_codecs_upto(text, n)[i].decoder,
            ),
    decreases n,
{
    if n > 0 {
        lemma_encoding_rs_codecs_wf(text, n - 1);
    }
}

/// Every codec of a pattern carries a decoder that can run.
pub proof fn lemma_all_codecs_wf(text: Seq<char>, gamble: bool)
    ensures
        forall|i: int|
            0 <= i < spec_all_codecs(text, gamble).len() ==> decoder_wf(
                #[trigger] spec_all_codecs(text, gamble)[i].decoder,
            ),
{
    let bytes = encode_utf8(text);
    lemma_encoding_rs_codecs_wf(text, ENCODING_COUNT as int);
    let a = spec_common_encodings(text) + spec_base64_codecs(bytes) + spec_base32_codecs(bytes);
    let c = seq![spec_base10_ascii_codec(text)] + spec_xor_codecs(bytes) + spec_hex_codecs(bytes)
        + spec_binary_codecs(bytes, gamble);
    let r13 = spec_rot13_codecs(bytes);
    let r47 = spec_rot47_codecs(bytes);
    let e = spec_encoding_rs_codecs(text);
    assert(spec_binary_codecs(bytes, gamble).len() == 1 + bytewise_pair_count(gamble));
    assert forall|i: int| 0 <= i < c.len() implies decoder_wf(#[trigger] c[i].decoder) by {}
    assert forall|i: int| 0 <= i < r13.len() implies decoder_wf(#[trigger] r13[i].decoder) by {}
    assert forall|i: int| 0 <= i < r47.len() implies decoder_wf(#[trigger] r47[i].decoder) by {}
    assert forall|i: int| 0 <= i < a.len() implies decoder_wf(#[trigger] a[i].decoder) by {}
    assert(spec_ctf_codecs(text, gamble) == c + r13 + r47);
    assert(spec_all_codecs(text, gamble) == a + (c + r13 + r47) + e);
}

/// A pattern has 430 codecs besides its bytewise binary ones (one of those
/// without `gamble`, every pair of distinct bytes with it): 5 Unicode, 6
/// base64, 6 base32, 1 decimal, 255 XOR, 3 hex, 1 binary, 25 ROT13, 93 ROT47
/// and 35 legacy encodings.
pub proof fn lemma_all_codecs_len(text: Seq<char>, gamble: bool)
    ensures
        spec_all_codecs(text, gamble).len() == 430 + bytewise_pair_count(gamble),
{
    lemma_encoding_rs_codecs_len(text, ENCODING_COUNT as int);
    let bytes = encode_utf8(text);
    assert(spec_base64_codecs(bytes).len() == 6);
    assert(spec_base32_codecs(bytes).len() == 6);
    assert(spec_binary_codecs(bytes, gamble).len() == 1 + bytewise_pair_count(gamble));
    assert(spec_ctf_codecs(text, gamble).len() == 1 + 255 + 3 + 1 + bytewise_pair_count(gamble) + 25 + 93);
}

/// The decoders whose codecs are proved to round-trip from their
/// specifications alone. The base64, base32 and legacy-encoding decoders rest
/// on outside crates; their round trip is stated by `all_codecs` from what the
/// outside calls are known to give on the encodings that were made.
pub open spec fn decoder_proved(d: Decoder) -> bool {
    !(d is Base64 || d is Base32 || d is EncodingRs)
}

proof fn lemma_common_roundtrip(text: Seq<char>, k: int)
    requires
        0 <= k < spec_common_encodings(text).len(),
    ensures
        spec_decode(spec_common_encodings(text)[k].decoder, spec_common_encodings(text)[k].encoded)
            == Some(encode_utf8(text)),
{
    lemma_utf16_roundtrip(text, false);
    lemma_utf16_roundtrip(text, true);
    lemma_utf32_roundtrip(text, false);
    lemma_utf32_roundtrip(text, true);
}

proof fn lemma_ctf_roundtrip(text: Seq<char>, gamble: bool, k: int)
    requires
        0 <= k < spec_ctf_codecs(text, gamble).len(),
        spec_ctf_codecs(text, gamble)[k].decoder is Base10Ascii ==> base10_decodable(text),
    ensures
        spec_decode(spec_ctf_codecs(text, gamble)[k].decoder, spec_ctf_codecs(text, gamble)[k].encoded)
            == Some(encode_utf8(text)),
{
    let bytes = encode_utf8(text);
    let base10 = seq![spec_base10_ascii_codec(text)];
    let xor = spec_xor_codecs(bytes);
    let hex = spec_hex_codecs(bytes);
    let binary = spec_binary_codecs(bytes, gamble);
    let rot13 = spec_rot13_codecs(bytes);
    let rot47 = spec_rot47_codecs(bytes);
    let all = spec_ctf_codecs(text, gamble);
    assert(all == base10 + xor + hex + binary + rot13 + rot47);
    let n1 = 1int;
    let n2 = n1 + 255;
    let n3 = n2 + 3;
    let n4 = n3 + binary.len();
    let n5 = n4 + 25;
    if k < n1 {
        assert(all[k] == base10[k]);
        lemma_base10_roundtrip(text);
    } else if k < n2 {
        assert(all[k] == xor[k - n1]);
        lemma_xor_roundtrip(bytes, (k - n1 + 1) as u8);
    } else if k < n3 {
        assert(all[k] == hex[k - n2]);
        lemma_hex_roundtrip(bytes);
        lemma_raw_hex_roundtrip(bytes);
    } else if k < n4 {
        assert(all[k] == binary[k - n3]);
        lemma_binary_roundtrip(bytes);
        if k > n3 {
            let p = bytewise_pair(k - n3 - 1);
            lemma_bytewise_roundtrip(bytes, p.0, p.1);
        }
    } else if k < n5 {
        assert(all[k] == rot13[k - n4]);
        lemma_rot13_roundtrip(bytes, (k - n4 + 1) as u8);
    } else {
        assert(all[k] == rot47[k - n5]);
        lemma_rot47_roundtrip(bytes, (k - n5 + 1) as u8);
    }
}

/// Decoding what a codec made of a pattern gives back the pattern's UTF-8
/// bytes, for every codec whose decoder is this library's own (for the
/// decimal codec, when every character has a code from 32 to 255).
pub proof fn lemma_codec_roundtrip(text: Seq<char>, gamble: bool, i: int)
    requires
        0 <= i < spec_all_codecs(text, gamble).len(),
        decoder_proved(spec_all_codecs(text, gamble)[i].decoder),
        spec_all_codecs(text, gamble)[i].decoder is Base10Ascii ==> base10_decodable(text),
    ensures
        spec_decode(spec_all_codecs(text, gamble)[i].decoder, spec_all_codecs(text, gamble)[i].encoded)
            == Some(encode_utf8(text)),
{
    let bytes = encode_utf8(text);
    let common = spec_common_encodings(text);
    let b64 = spec_base64_codecs(bytes);
    let b32 = spec_base32_codecs(bytes);
    let ctf = spec_ctf_codecs(text, gamble);
    let enc = spec_encoding_rs_codecs(text);
    let all = spec_all_codecs(text, gamble);
    assert(all == common + b64 + b32 + ctf + enc);
    let n1 = common.len() as int;
    let n2 = n1 + b64.len();
    let n3 = n2 + b32.len();
    let n4 = n3 + ctf.len();
    if i < n1 {
        assert(all[i] == common[i]);
        lemma_common_roundtrip(text, i);
    } else if i < n2 {
        assert(all[i] == b64[i - n1]);
    } else if i < n3 {
        assert(all[i] == b32[i - n2]);
    } else if i < n4 {
        assert(all[i] == ctf[i - n3]);
        lemma_ctf_roundtrip(text, gamble, i - n3);
    } else {
        assert(all[i] == enc[i - n4]);
        lemma_encoding_rs_codecs_wf(text, ENCODING_COUNT as int);
        lemma_encoding_rs_codecs_are_legacy(text, ENCODING_COUNT as int);
    }
}

proof fn lemma_encoding_rs_codecs_are_legacy(text: Seq<char>, n: int)
    ensures
        forall|i: int|
            0 <= i < spec_encoding_rs_codecs_upto(text, n).len() ==> (
            #[trigger] spec_encoding_rs_codecs_upto(text, n)[i]).decoder is EncodingRs,
    decreases n,
{
    if n > 0 {
        lemma_encoding_rs_codecs_are_legacy(text, n - 1);
    }
}

/// Moves the codecs of `src` to the end of `dst`.
pub fn extend_codecs(dst: &mut Vec<Codec>, src: Vec<Codec>)
    ensures
        codec_views(final(dst)@) == codec_views(old(dst)@) + codec_views(src@),
{
    let ghost added = src@;
    let mut src = src;
    dst.append(&mut src);
    proof {
        assert(codec_views(final(dst)@) =~= codec_views(old(dst)@) + codec_views(added));
    }
}

} // verus!
