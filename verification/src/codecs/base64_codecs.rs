//! The base64 codecs, one per alphabet, made with the `base64` crate.

use base64::Engine;
use vstd::prelude::*;
use vstd::string::*;
use crate::codecs::{
    codec_views, decodes_to_prefix, opt_bytes, spec_decode, Base64Alphabet, Codec, CodecView,
    Decoder,
};

verus! {

/// What `base64`'s engine for `alphabet` (without padding when encoding) makes of `data`.
pub uninterp spec fn base64_encoded(alphabet: Base64Alphabet, data: Seq<u8>) -> Seq<u8>;

/// What `base64`'s engine for `alphabet` (indifferent to padding, strict about
/// trailing bits) decodes `data` into, or `None` where it reports an error.
pub uninterp spec fn base64_decoded(alphabet: Base64Alphabet, data: Seq<u8>) -> Option<Seq<u8>>;

/// `base64::Engine::encode` on the `GeneralPurpose` engine made of the
/// alphabet and `NO_PAD_INDIFFERENT` (the crate's own `STANDARD_NO_PAD_INDIFFERENT`
/// and `URL_SAFE_NO_PAD_INDIFFERENT` are made the same way); the bytes of the
/// string it returns. Its value is left to the name `base64_encoded`. Of it
/// the crate's source shows: unpadded, it has one symbol per six bits of
/// data, rounded up; its first `n` symbols decode, where they decode (always
/// when `n` is a multiple of four; never when it leaves one symbol over), to
/// the first `3n/4` bytes of the data, since every symbol carries six bits of
/// the data in order and the bits past the data are zero.
#[verifier::external_body]
fn base64_encode(alphabet: Base64Alphabet, data: &[u8]) -> (res: Vec<u8>)
    requires
        2 * data@.len() <= usize::MAX,
    ensures
        res@ == base64_encoded(alphabet, data@),
        res@.len() == (4 * data@.len() + 2) / 3,
        forall|n: int|
            0 <= n <= res@.len() && n % 4 == 0 ==> (#[trigger] base64_decoded(alphabet, res@.take(n))) is Some,
        forall|n: int|
            0 <= n <= res@.len() ==> (#[trigger] base64_decoded(alphabet, res@.take(n)) matches Some(d)
                ==> d == data@.take(n * 3 / 4)),
{
    let alphabet = match alphabet {
        Base64Alphabet::Standard => &base64::alphabet::STANDARD,
        Base64Alphabet::UrlSafe => &base64::alphabet::URL_SAFE,
        Base64Alphabet::Bcrypt => &base64::alphabet::BCRYPT,
        Base64Alphabet::BinHex => &base64::alphabet::BIN_HEX,
        Base64Alphabet::Crypt => &base64::alphabet::CRYPT,
        Base64Alphabet::ImapMutf7 => &base64::alphabet::IMAP_MUTF7,
    };
    let config = base64::engine::general_purpose::NO_PAD_INDIFFERENT;
    base64::engine::GeneralPurpose::new(alphabet, config).encode(data).into_bytes()
}

/// `base64::Engine::decode` on the same engine, with its error turned into
/// `None`. Its value is left to the name `base64_decoded`; the crate's source
/// shows that empty input decodes without error into nothing.
#[verifier::external_body]
fn base64_decode(alphabet: Base64Alphabet, data: &[u8]) -> (res: Option<Vec<u8>>)
    ensures
        opt_bytes(res) == base64_decoded(alphabet, data@),
        data@.len() == 0 ==> opt_bytes(res) == Some(Seq::<u8>::empty()),
{
    let alphabet = match alphabet {
        Base64Alphabet::Standard => &base64::alphabet::STANDARD,
        Base64Alphabet::UrlSafe => &base64::alphabet::URL_SAFE,
        Base64Alphabet::Bcrypt => &base64::alphabet::BCRYPT,
        Base64Alphabet::BinHex => &base64::alphabet::BIN_HEX,
        Base64Alphabet::Crypt => &base64::alphabet::CRYPT,
        Base64Alphabet::ImapMutf7 => &base64::alphabet::IMAP_MUTF7,
    };
    let config = base64::engine::general_purpose::NO_PAD_INDIFFERENT;
    base64::engine::GeneralPurpose::new(alphabet, config).decode(data).ok()
}

/// The first prefix of `buf` of length `t` or shorter, skipping lengths of
/// the form `4k + 1` (which no base64 text has), that decodes.
pub open spec fn base64_retry(alphabet: Base64Alphabet, buf: Seq<u8>, t: int) -> Option<Seq<u8>>
    decreases t + 1,
{
    if t < 0 {
        None
    } else if t % 4 == 1 {
        base64_retry(alphabet, buf, t - 1)
    } else {
        match base64_decoded(alphabet, buf.take(t)) {
            Some(d) => Some(d),
            None => base64_retry(alphabet, buf, t - 1),
        }
    }
}

/// What the base64 decoder gives: the decoding of the whole buffer, or else
/// of the longest shorter prefix (but one byte) that decodes.
pub open spec fn spec_base64_decoded(alphabet: Base64Alphabet, buf: Seq<u8>) -> Option<Seq<u8>> {
    match base64_decoded(alphabet, buf) {
        Some(d) => Some(d),
        None => base64_retry(alphabet, buf, buf.len() - 2),
    }
}

proof fn lemma_base64_retry_longest(alphabet: Base64Alphabet, buf: Seq<u8>, t: int)
    ensures
        base64_retry(alphabet, buf, t) matches Some(d) ==> exists|t0: int|
            0 <= t0 <= t && t0 % 4 != 1 && #[trigger] base64_decoded(alphabet, buf.take(t0)) == Some(d)
                && forall|u: int|
                t0 < u <= t && u % 4 != 1 ==> (#[trigger] base64_decoded(alphabet, buf.take(u))) is None,
        base64_retry(alphabet, buf, t) is None ==> forall|u: int|
            0 <= u <= t && u % 4 != 1 ==> (#[trigger] base64_decoded(alphabet, buf.take(u))) is None,
    decreases t + 1,
{
    if t < 0 {
    } else if t % 4 == 1 {
        lemma_base64_retry_longest(alphabet, buf, t - 1);
        if let Some(d) = base64_retry(alphabet, buf, t) {
            let t0 = choose|t0: int|
                0 <= t0 <= t - 1 && t0 % 4 != 1 && #[trigger] base64_decoded(alphabet, buf.take(t0)) == Some(d)
                    && forall|u: int|
                    t0 < u <= t - 1 && u % 4 != 1 ==> (#[trigger] base64_decoded(alphabet, buf.take(u))) is None;
            assert(base64_decoded(alphabet, buf.take(t0)) == Some(d));
        }
    } else {
        match base64_decoded(alphabet, buf.take(t)) {
            Some(d) => {
                assert(base64_decoded(alphabet, buf.take(t)) == Some(d));
            },
            None => {
                lemma_base64_retry_longest(alphabet, buf, t - 1);
                if let Some(d) = base64_retry(alphabet, buf, t) {
                    let t0 = choose|t0: int|
                        0 <= t0 <= t - 1 && t0 % 4 != 1 && #[trigger] base64_decoded(alphabet, buf.take(t0))
                            == Some(d) && forall|u: int|
                            t0 < u <= t - 1 && u % 4 != 1 ==> (#[trigger] base64_decoded(alphabet, buf.take(u))) is None;
                    assert(base64_decoded(alphabet, buf.take(t0)) == Some(d));
                }
            },
        }
    }
}

/// The base64 decoder gives the decoding of the whole buffer when it decodes;
/// otherwise the decoding of the longest prefix that decodes among those
/// shorter by at least two symbols whose length is not of the form `4k + 1`,
/// and nothing when none of them decodes.
pub proof fn lemma_base64_decoder_longest_prefix(alphabet: Base64Alphabet, buf: Seq<u8>)
    ensures
        base64_decoded(alphabet, buf) is Some ==> spec_base64_decoded(alphabet, buf) == base64_decoded(
            alphabet,
            buf,
        ),
        base64_decoded(alphabet, buf) is None ==> (spec_base64_decoded(alphabet, buf) matches Some(d)
            ==> exists|t: int|
            0 <= t <= buf.len() - 2 && t % 4 != 1 && #[trigger] base64_decoded(alphabet, buf.take(t)) == Some(d)
                && forall|u: int|
                t < u <= buf.len() - 2 && u % 4 != 1 ==> (#[trigger] base64_decoded(alphabet, buf.take(u))) is None),
        base64_decoded(alphabet, buf) is None ==> (spec_base64_decoded(alphabet, buf) is None <==> forall|u: int|
            0 <= u <= buf.len() - 2 && u % 4 != 1 ==> (#[trigger] base64_decoded(alphabet, buf.take(u))) is None),
{
    lemma_base64_retry_longest(alphabet, buf, buf.len() - 2);
    if base64_decoded(alphabet, buf) is None && spec_base64_decoded(alphabet, buf) is Some {
        let d = spec_base64_decoded(alphabet, buf)->0;
        let t0 = choose|t0: int|
            0 <= t0 <= buf.len() - 2 && t0 % 4 != 1 && #[trigger] base64_decoded(alphabet, buf.take(t0)) == Some(d)
                && forall|u: int|
                t0 < u <= buf.len() - 2 && u % 4 != 1 ==> (#[trigger] base64_decoded(alphabet, buf.take(u))) is None;
        assert(base64_decoded(alphabet, buf.take(t0)) == Some(d));
    }
}

/// Decodes base64, trimming the input progressively until a prefix decodes.
pub fn base64_decoder(buf: Vec<u8>, alphabet: Base64Alphabet) -> (res: Option<Vec<u8>>)
    ensures
        opt_bytes(res) == spec_base64_decoded(alphabet, buf@),
{
    if let Some(decoded) = base64_decode(alphabet, buf.as_slice()) {
        return Some(decoded);
    }
    let mut k: usize = buf.len() - 1;
    while k > 0
        invariant
            k < buf@.len(),
            base64_decoded(alphabet, buf@) is None,
            base64_retry(alphabet, buf@, k - 1) == base64_retry(alphabet, buf@, buf@.len() - 2),
        decreases k,
    {
        let trim_len = k - 1;
        if trim_len % 4 != 1 {
            let prefix = &buf.as_slice()[0..trim_len];
            proof {
                assert(prefix@ =~= buf@.take(trim_len as int));
            }
            if let Some(decoded) = base64_decode(alphabet, prefix) {
                return Some(decoded);
            }
        }
        k = trim_len;
    }
    None
}

/// The base64 alphabets in the order of their codecs.
pub open spec fn base64_alphabet_at(i: int) -> Base64Alphabet {
    if i == 0 {
        Base64Alphabet::Standard
    } else if i == 1 {
        Base64Alphabet::UrlSafe
    } else if i == 2 {
        Base64Alphabet::Bcrypt
    } else if i == 3 {
        Base64Alphabet::BinHex
    } else if i == 4 {
        Base64Alphabet::Crypt
    } else {
        Base64Alphabet::ImapMutf7
    }
}

/// The names of the base64 codecs, in order.
pub open spec fn base64_name_at(i: int) -> Seq<char> {
    if i == 0 {
        "base64"@
    } else if i == 1 {
        "base64-URL-safe"@
    } else if i == 2 {
        "base64-bcrypt"@
    } else if i == 3 {
        "base64-bin-hex"@
    } else if i == 4 {
        "base64-crypt"@
    } else {
        "base64-IMAP-modified-UTF7"@
    }
}

fn base64_alphabet_and_name(i: usize) -> (res: (Base64Alphabet, &'static str))
    ensures
        res.0 == base64_alphabet_at(i as int),
        res.1@ == base64_name_at(i as int),
{
    if i == 0 {
        (Base64Alphabet::Standard, "base64")
    } else if i == 1 {
        (Base64Alphabet::UrlSafe, "base64-URL-safe")
    } else if i == 2 {
        (Base64Alphabet::Bcrypt, "base64-bcrypt")
    } else if i == 3 {
        (Base64Alphabet::BinHex, "base64-bin-hex")
    } else if i == 4 {
        (Base64Alphabet::Crypt, "base64-crypt")
    } else {
        (Base64Alphabet::ImapMutf7, "base64-IMAP-modified-UTF7")
    }
}

/// An encoding without its last symbol when its length is not a multiple of
/// three (the length of the encoding is what is tested, not of the data).
pub open spec fn drop_partial_base64(encoded: Seq<u8>) -> Seq<u8> {
    if encoded.len() % 3 != 0 {
        encoded.drop_last()
    } else {
        encoded
    }
}

/// Drops the last symbol of an encoding whose length is not a multiple of three.
pub fn trim_base64_pattern(encoded: Vec<u8>) -> (res: Vec<u8>)
    ensures
        res@ == drop_partial_base64(encoded@),
{
    let mut encoded = encoded;
    if encoded.len() % 3 != 0 {
        encoded.pop();
    }
    encoded
}

pub open spec fn spec_base64_codec(bytes: Seq<u8>, i: int) -> CodecView {
    CodecView {
        encoded: drop_partial_base64(base64_encoded(base64_alphabet_at(i), bytes)),
        name: base64_name_at(i),
        decoder: Decoder::Base64(base64_alphabet_at(i)),
    }
}

/// The base64 codecs, one per alphabet.
pub open spec fn spec_base64_codecs(bytes: Seq<u8>) -> Seq<CodecView> {
    Seq::new(6, |i: int| spec_base64_codec(bytes, i))
}

/// What the retries of the base64 decoder give on the first `m` symbols of
/// an encoding of `data`: the first bytes of `data`.
proof fn lemma_base64_retry_prefix(
    alphabet: Base64Alphabet,
    enc: Seq<u8>,
    data: Seq<u8>,
    m: int,
    t: int,
)
    requires
        0 <= t <= m <= enc.len(),
        forall|n: int|
            0 <= n <= enc.len() && n % 4 == 0 ==> (#[trigger] base64_decoded(alphabet, enc.take(n))) is Some,
        forall|n: int|
            0 <= n <= enc.len() ==> (#[trigger] base64_decoded(alphabet, enc.take(n)) matches Some(d)
                ==> d == data.take(n * 3 / 4)),
        3 * enc.len() <= 4 * data.len() + 2,
    ensures
        decodes_to_prefix(base64_retry(alphabet, enc.take(m), t), data),
    decreases t,
{
    assert(enc.take(m).take(t) =~= enc.take(t));
    assert(t * 3 / 4 <= data.len()) by (nonlinear_arith)
        requires
            0 <= t <= enc.len(),
            3 * enc.len() <= 4 * data.len() + 2,
    ;
    if t % 4 == 1 {
        lemma_base64_retry_prefix(alphabet, enc, data, m, t - 1);
    } else {
        match base64_decoded(alphabet, enc.take(t)) {
            Some(d) => {},
            None => {
                lemma_base64_retry_prefix(alphabet, enc, data, m, t - 1);
            },
        }
    }
}

/// Decoding what a base64 codec made of `data` gives the first bytes of
/// `data` (unless `data` is a single byte, whose trimmed encoding is a single
/// symbol that no retry can decode).
proof fn lemma_base64_codec_prefix(alphabet: Base64Alphabet, enc: Seq<u8>, data: Seq<u8>)
    requires
        data.len() != 1,
        enc.len() == (4 * data.len() + 2) / 3,
        forall|n: int|
            0 <= n <= enc.len() && n % 4 == 0 ==> (#[trigger] base64_decoded(alphabet, enc.take(n))) is Some,
        forall|n: int|
            0 <= n <= enc.len() ==> (#[trigger] base64_decoded(alphabet, enc.take(n)) matches Some(d)
                ==> d == data.take(n * 3 / 4)),
    ensures
        decodes_to_prefix(spec_base64_decoded(alphabet, drop_partial_base64(enc)), data),
{
    let trimmed = drop_partial_base64(enc);
    let m = trimmed.len() as int;
    assert(trimmed =~= enc.take(m));
    assert(3 * enc.len() <= 4 * data.len() + 2);
    assert(m * 3 / 4 <= data.len()) by (nonlinear_arith)
        requires
            0 <= m <= enc.len(),
            3 * enc.len() <= 4 * data.len() + 2,
    ;
    match base64_decoded(alphabet, trimmed) {
        Some(d) => {},
        None => {
            if data.len() == 0 {
                assert(m == 0);
                assert(base64_decoded(alphabet, enc.take(0)) is Some);
            } else {
                assert(m >= 2);
                lemma_base64_retry_prefix(alphabet, enc, data, m, m - 2);
            }
        },
    }
}

/// One base64 codec per alphabet, in the order standard, URL-safe, bcrypt,
/// BinHex, crypt, IMAP. Decoding what each made of the pattern gives the
/// pattern's first bytes, unless the pattern is a single byte.
pub fn base64_codecs(data: &str) -> (res: Vec<Codec>)
    requires
        2 * data.spec_bytes().len() <= usize::MAX,
    ensures
        codec_views(res@) == spec_base64_codecs(data.spec_bytes()),
        data.spec_bytes().len() != 1 ==> forall|i: int|
            0 <= i < res@.len() ==> decodes_to_prefix(
                spec_decode(#[trigger] res@[i].decoder, res@[i].encoded@),
                data.spec_bytes(),
            ),
{
    let bytes = data.as_bytes();
    let mut codecs: Vec<Codec> = Vec::new();
    let mut i: usize = 0;
    while i < 6
        invariant
            i <= 6,
            bytes@ == data.spec_bytes(),
            2 * bytes@.len() <= usize::MAX,
            codecs@.len() == i,
            forall|j: int| 0 <= j < i ==> (#[trigger] codecs@[j])@ == spec_base64_codec(bytes@, j),
            bytes@.len() != 1 ==> forall|j: int|
                0 <= j < i ==> decodes_to_prefix(
                    spec_decode(#[trigger] codecs@[j].decoder, codecs@[j].encoded@),
                    bytes@,
                ),
        decreases 6 - i,
    {
        let (alphabet, name) = base64_alphabet_and_name(i);
        let full = base64_encode(alphabet, bytes);
        proof {
            if bytes@.len() != 1 {
                lemma_base64_codec_prefix(alphabet, full@, bytes@);
            }
        }
        let encoded = trim_base64_pattern(full);
        codecs.push(Codec { encoded, name: String::from_str(name), decoder: Decoder::Base64(alphabet) });
        i = i + 1;
    }
    proof {
        assert(codec_views(codecs@) =~= spec_base64_codecs(data.spec_bytes()));
    }
    codecs
}

} // verus!
