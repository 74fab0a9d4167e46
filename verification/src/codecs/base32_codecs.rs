//! The base32 codecs, one per alphabet, made with the `base32` crate.

use vstd::prelude::*;
use vstd::string::*;
use vstd::utf8::*;
use crate::codecs::{
    codec_views, decodes_to_prefix, opt_bytes, spec_decode, Base32Alphabet, Codec, CodecView,
    Decoder,
};
use crate::text::{
    is_valid_utf8_up_to, lemma_utf8_valid_prefix_len, str_from_utf8, utf8_valid_prefix_len,
    valid_utf8_prefix_len,
};

verus! {

/// What `base32::encode` makes of `data` with `alphabet` (without padding).
pub uninterp spec fn base32_encoded(alphabet: Base32Alphabet, data: Seq<u8>) -> Seq<u8>;

/// What `base32::decode` makes of `text` with `alphabet` (without padding),
/// or `None` where it fails.
pub uninterp spec fn base32_decoded(alphabet: Base32Alphabet, text: Seq<char>) -> Option<Seq<u8>>;

/// `base32::encode` with the crate's alphabet for `alphabet` and no padding;
/// the bytes of the string it returns. Its value is left to the name
/// `base32_encoded`. Of it the crate's source shows: it is made of the
/// alphabet's ASCII symbols, one per five bits of data, rounded up; and
/// `base32::decode` of its first `n` symbols, which all belong to the
/// alphabet, gives the first `5n/8` bytes of the data, since every symbol
/// carries five bits of the data in order.
#[verifier::external_body]
fn base32_encode(alphabet: Base32Alphabet, data: &[u8]) -> (res: Vec<u8>)
    requires
        2 * data@.len() <= usize::MAX,
    ensures
        res@ == base32_encoded(alphabet, data@),
        res@.len() == (8 * data@.len() + 4) / 5,
        forall|n: int| 0 <= n <= res@.len() ==> valid_utf8(#[trigger] res@.take(n)),
        forall|n: int|
            0 <= n <= res@.len() ==> #[trigger] base32_decoded(alphabet, decode_utf8(res@.take(n)))
                == Some(data@.take(n * 5 / 8)),
{
    let alphabet = match alphabet {
        Base32Alphabet::Crockford => base32::Alphabet::Crockford,
        Base32Alphabet::Rfc4648 => base32::Alphabet::Rfc4648 { padding: false },
        Base32Alphabet::Rfc4648Lower => base32::Alphabet::Rfc4648Lower { padding: false },
        Base32Alphabet::Rfc4648Hex => base32::Alphabet::Rfc4648Hex { padding: false },
        Base32Alphabet::Rfc4648HexLower => base32::Alphabet::Rfc4648HexLower { padding: false },
        Base32Alphabet::Z => base32::Alphabet::Z,
    };
    base32::encode(alphabet, data).into_bytes()
}

/// `base32::decode` with the crate's alphabet for `alphabet` and no padding.
/// Its value is left to the name `base32_decoded`.
#[verifier::external_body]
fn base32_decode(alphabet: Base32Alphabet, text: &str) -> (res: Option<Vec<u8>>)
    ensures
        opt_bytes(res) == base32_decoded(alphabet, text@),
{
    let alphabet = match alphabet {
        Base32Alphabet::Crockford => base32::Alphabet::Crockford,
        Base32Alphabet::Rfc4648 => base32::Alphabet::Rfc4648 { padding: false },
        Base32Alphabet::Rfc4648Lower => base32::Alphabet::Rfc4648Lower { padding: false },
        Base32Alphabet::Rfc4648Hex => base32::Alphabet::Rfc4648Hex { padding: false },
        Base32Alphabet::Rfc4648HexLower => base32::Alphabet::Rfc4648HexLower { padding: false },
        Base32Alphabet::Z => base32::Alphabet::Z,
    };
    base32::decode(alphabet, text)
}

/// What the base32 decoder gives: the base32 decoding of the longest prefix
/// of the buffer that is valid UTF-8.
pub open spec fn spec_base32_decoded(alphabet: Base32Alphabet, buf: Seq<u8>) -> Option<Seq<u8>> {
    base32_decoded(alphabet, decode_utf8(buf.take(utf8_valid_prefix_len(buf))))
}

/// Decodes the valid UTF-8 prefix of the buffer as base32.
pub fn base32_decoder(buf: Vec<u8>, alphabet: Base32Alphabet) -> (res: Option<Vec<u8>>)
    ensures
        opt_bytes(res) == spec_base32_decoded(alphabet, buf@),
{
    let valid_utf8_upto = valid_utf8_prefix_len(buf.as_slice());
    let prefix = &buf.as_slice()[0..valid_utf8_upto];
    proof {
        assert(prefix@ =~= buf@.take(valid_utf8_upto as int));
    }
    let to_decode = str_from_utf8(prefix);
    base32_decode(alphabet, to_decode)
}

/// The base32 alphabets in the order of their codecs.
pub open spec fn base32_alphabet_at(i: int) -> Base32Alphabet {
    if i == 0 {
        Base32Alphabet::Crockford
    } else if i == 1 {
        Base32Alphabet::Rfc4648
    } else if i == 2 {
        Base32Alphabet::Rfc4648Lower
    } else if i == 3 {
        Base32Alphabet::Rfc4648Hex
    } else if i == 4 {
        Base32Alphabet::Rfc4648HexLower
    } else {
        Base32Alphabet::Z
    }
}

/// The names of the base32 codecs, in order.
pub open spec fn base32_name_at(i: int) -> Seq<char> {
    if i == 0 {
        "base32-crockford"@
    } else if i == 1 {
        "base32-RFC-4648"@
    } else if i == 2 {
        "base32-RFC-4648-lower"@
    } else if i == 3 {
        "base32-RFC-4648-hex"@
    } else if i == 4 {
        "base32-RFC-4648-hex-lower"@
    } else {
        "base32-Z"@
    }
}

fn base32_alphabet_and_name(i: usize) -> (res: (Base32Alphabet, &'static str))
    ensures
        res.0 == base32_alphabet_at(i as int),
        res.1@ == base32_name_at(i as int),
{
    if i == 0 {
        (Base32Alphabet::Crockford, "base32-crockford")
    } else if i == 1 {
        (Base32Alphabet::Rfc4648, "base32-RFC-4648")
    } else if i == 2 {
        (Base32Alphabet::Rfc4648Lower, "base32-RFC-4648-lower")
    } else if i == 3 {
        (Base32Alphabet::Rfc4648Hex, "base32-RFC-4648-hex")
    } else if i == 4 {
        (Base32Alphabet::Rfc4648HexLower, "base32-RFC-4648-hex-lower")
    } else {
        (Base32Alphabet::Z, "base32-Z")
    }
}

/// An encoding without its last symbol when its length is not a multiple of seven.
pub open spec fn drop_partial_base32(encoded: Seq<u8>) -> Seq<u8> {
    if encoded.len() % 7 != 0 {
        encoded.drop_last()
    } else {
        encoded
    }
}

/// Drops the last symbol of an encoding whose length is not a multiple of seven.
pub fn trim_base32_pattern(encoded: Vec<u8>) -> (res: Vec<u8>)
    ensures
        res@ == drop_partial_base32(encoded@),
{
    let mut encoded = encoded;
    if encoded.len() % 7 != 0 {
        encoded.pop();
    }
    encoded
}

pub open spec fn spec_base32_codec(bytes: Seq<u8>, i: int) -> CodecView {
    CodecView {
        encoded: drop_partial_base32(base32_encoded(base32_alphabet_at(i), bytes)),
        name: base32_name_at(i),
        decoder: Decoder::Base32(base32_alphabet_at(i)),
    }
}

/// The base32 codecs, one per alphabet.
pub open spec fn spec_base32_codecs(bytes: Seq<u8>) -> Seq<CodecView> {
    Seq::new(6, |i: int| spec_base32_codec(bytes, i))
}

/// Decoding what a base32 codec made of `data` gives the first bytes of `data`.
proof fn lemma_base32_codec_prefix(alphabet: Base32Alphabet, enc: Seq<u8>, data: Seq<u8>)
    requires
        enc.len() == (8 * data.len() + 4) / 5,
        forall|n: int| 0 <= n <= enc.len() ==> valid_utf8(#[trigger] enc.take(n)),
        forall|n: int|
            0 <= n <= enc.len() ==> #[trigger] base32_decoded(alphabet, decode_utf8(enc.take(n)))
                == Some(data.take(n * 5 / 8)),
    ensures
        decodes_to_prefix(spec_base32_decoded(alphabet, drop_partial_base32(enc)), data),
{
    let trimmed = drop_partial_base32(enc);
    let m = trimmed.len() as int;
    assert(trimmed =~= enc.take(m));
    assert(trimmed.take(m) =~= trimmed);
    assert(valid_utf8(enc.take(m)));
    assert(is_valid_utf8_up_to(trimmed, m));
    lemma_utf8_valid_prefix_len(trimmed, m);
    assert(base32_decoded(alphabet, decode_utf8(enc.take(m))) == Some(data.take(m * 5 / 8)));
    assert(m * 5 / 8 <= data.len()) by (nonlinear_arith)
        requires
            0 <= m <= enc.len(),
            enc.len() == (8 * data.len() + 4) / 5,
    ;
}

/// One base32 codec per alphabet, in the order Crockford, RFC 4648, RFC 4648
/// lowercase, RFC 4648 hex, RFC 4648 hex lowercase, z-base-32. Decoding what
/// each made of the pattern gives the pattern's first bytes.
pub fn base32_codecs(data: &str) -> (res: Vec<Codec>)
    requires
        2 * data.spec_bytes().len() <= usize::MAX,
    ensures
        codec_views(res@) == spec_base32_codecs(data.spec_bytes()),
        forall|i: int|
            0 <= i < res@.len() ==> decodes_to_prefix(
                spec_decode(#[trigger] res@[i].decoder, res@[i].encoded@),
                data.spec_bytes(),
            ),
{
    let bytes = data.as_bytes();
    let mut codecs: Vec<Codec> = Vec::new();
    let mut i: usize = 0;
    while i < 6
        invariant
            i <= 6,
            bytes@ == data.spec_bytes(),
            2 * bytes@.len() <= usize::MAX,
            codecs@.len() == i,
            forall|j: int| 0 <= j < i ==> (#[trigger] codecs@[j])@ == spec_base32_codec(bytes@, j),
            forall|j: int|
                0 <= j < i ==> decodes_to_prefix(
                    spec_decode(#[trigger] codecs@[j].decoder, codecs@[j].encoded@),
                    bytes@,
                ),
        decreases 6 - i,
    {
        let (alphabet, name) = base32_alphabet_and_name(i);
        let full = base32_encode(alphabet, bytes);
        proof {
            lemma_base32_codec_prefix(alphabet, full@, bytes@);
        }
        let encoded = trim_base32_pattern(full);
        codecs.push(Codec { encoded, name: String::from_str(name), decoder: Decoder::Base32(alphabet) });
        i = i + 1;
    }
    proof {
        assert(codec_views(codecs@) =~= spec_base32_codecs(data.spec_bytes()));
    }
    codecs
}

} // verus!
