//! The codecs of the legacy encodings that `encoding_rs` implements.

use vstd::prelude::*;
use vstd::string::*;
use vstd::utf8::*;
use crate::codecs::{codec_views, opt_bytes, spec_decode, Codec, CodecView, Decoder};
use crate::text::into_utf8_bytes;

verus! {

/// The number of legacy encodings that have a codec.
pub const ENCODING_COUNT: u8 = 35;

/// The label by which `encoding_rs` finds the `i`-th encoding (its name).
pub open spec fn encoding_label_at(i: u8) -> Seq<char> {
    match i {
        0 => "Big5"@,
        1 => "EUC-JP"@,
        2 => "EUC-KR"@,
        3 => "gb18030"@,
        4 => "GBK"@,
        5 => "IBM866"@,
        6 => "ISO-8859-2"@,
        7 => "ISO-8859-3"@,
        8 => "ISO-8859-4"@,
        9 => "ISO-8859-5"@,
        10 => "ISO-8859-6"@,
        11 => "ISO-8859-7"@,
        12 => "ISO-8859-8"@,
        13 => "ISO-8859-8-I"@,
        14 => "ISO-8859-10"@,
        15 => "ISO-8859-13"@,
        16 => "ISO-8859-14"@,
        17 => "ISO-8859-15"@,
        18 => "ISO-8859-16"@,
        19 => "KOI8-R"@,
        20 => "KOI8-U"@,
        21 => "macintosh"@,
        22 => "Shift_JIS"@,
        23 => "windows-874"@,
        24 => "windows-1250"@,
        25 => "windows-1251"@,
        26 => "windows-1252"@,
        27 => "windows-1253"@,
        28 => "windows-1254"@,
        29 => "windows-1255"@,
        30 => "windows-1256"@,
        31 => "windows-1257"@,
        32 => "windows-1258"@,
        33 => "x-mac-cyrillic"@,
        34 => "x-user-defined"@,
        _ => Seq::<char>::empty(),
    }
}

/// The name of the codec of the `i`-th encoding.
pub open spec fn encoding_codec_name_at(i: u8) -> Seq<char> {
    match i {
        0 => "encoding-BIG5"@,
        1 => "encoding-EUC_JP"@,
        2 => "encoding-EUC_KR"@,
        3 => "encoding-GB18030"@,
        4 => "encoding-GBK"@,
        5 => "encoding-IBM866"@,
        6 => "encoding-ISO_8859_2"@,
        7 => "encoding-ISO_8859_3"@,
        8 => "encoding-ISO_8859_4"@,
        9 => "encoding-ISO_8859_5"@,
        10 => "encoding-ISO_8859_6"@,
        11 => "encoding-ISO_8859_7"@,
        12 => "encoding-ISO_8859_8"@,
        13 => "encoding-ISO_8859_8_I"@,
        14 => "encoding-ISO_8859_10"@,
        15 => "encoding-ISO_8859_13"@,
        16 => "encoding-ISO_8859_14"@,
        17 => "encoding-ISO_8859_15"@,
        18 => "encoding-ISO_8859_16"@,
        19 => "encoding-KOI8_R"@,
        20 => "encoding-KOI8_U"@,
        21 => "encoding-MACINTOSH"@,
        22 => "encoding-SHIFT_JIS"@,
        23 => "encoding-WINDOWS_874"@,
        24 => "encoding-WINDOWS_1250"@,
        25 => "encoding-WINDOWS_1251"@,
        26 => "encoding-WINDOWS_1252"@,
        27 => "encoding-WINDOWS_1253"@,
        28 => "encoding-WINDOWS_1254"@,
        29 => "encoding-WINDOWS_1255"@,
        30 => "encoding-WINDOWS_1256"@,
        31 => "encoding-WINDOWS_1257"@,
        32 => "encoding-WINDOWS_1258"@,
        33 => "encoding-X_MAC_CYRILLIC"@,
        34 => "encoding-X_USER_DEFINED"@,
        _ => Seq::<char>::empty(),
    }
}

/// The label and the codec name of the `i`-th encoding.
pub fn encoding_at(i: u8) -> (res: (&'static str, &'static str))
    requires
        i < ENCODING_COUNT,
    ensures
        res.0@ == encoding_label_at(i),
        res.1@ == encoding_codec_name_at(i),
{
    match i {
        0 => ("Big5", "encoding-BIG5"),
        1 => ("EUC-JP", "encoding-EUC_JP"),
        2 => ("EUC-KR", "encoding-EUC_KR"),
        3 => ("gb18030", "encoding-GB18030"),
        4 => ("GBK", "encoding-GBK"),
        5 => ("IBM866", "encoding-IBM866"),
        6 => ("ISO-8859-2", "encoding-ISO_8859_2"),
        7 => ("ISO-8859-3", "encoding-ISO_8859_3"),
        8 => ("ISO-8859-4", "encoding-ISO_8859_4"),
        9 => ("ISO-8859-5", "encoding-ISO_8859_5"),
        10 => ("ISO-8859-6", "encoding-ISO_8859_6"),
        11 => ("ISO-8859-7", "encoding-ISO_8859_7"),
        12 => ("ISO-8859-8", "encoding-ISO_8859_8"),
        13 => ("ISO-8859-8-I", "encoding-ISO_8859_8_I"),
        14 => ("ISO-8859-10", "encoding-ISO_8859_10"),
        15 => ("ISO-8859-13", "encoding-ISO_8859_13"),
        16 => ("ISO-8859-14", "encoding-ISO_8859_14"),
        17 => ("ISO-8859-15", "encoding-ISO_8859_15"),
        18 => ("ISO-8859-16", "encoding-ISO_8859_16"),
        19 => ("KOI8-R", "encoding-KOI8_R"),
        20 => ("KOI8-U", "encoding-KOI8_U"),
        21 => ("macintosh", "encoding-MACINTOSH"),
        22 => ("Shift_JIS", "encoding-SHIFT_JIS"),
        23 => ("windows-874", "encoding-WINDOWS_874"),
        24 => ("windows-1250", "encoding-WINDOWS_1250"),
        25 => ("windows-1251", "encoding-WINDOWS_1251"),
        26 => ("windows-1252", "encoding-WINDOWS_1252"),
        27 => ("windows-1253", "encoding-WINDOWS_1253"),
        28 => ("windows-1254", "encoding-WINDOWS_1254"),
        29 => ("windows-1255", "encoding-WINDOWS_1255"),
        30 => ("windows-1256", "encoding-WINDOWS_1256"),
        31 => ("windows-1257", "encoding-WINDOWS_1257"),
        32 => ("windows-1258", "encoding-WINDOWS_1258"),
        33 => ("x-mac-cyrillic", "encoding-X_MAC_CYRILLIC"),
        34 => ("x-user-defined", "encoding-X_USER_DEFINED"),
        _ => ("x-user-defined", "encoding-X_USER_DEFINED"),
    }
}

/// Whether `encoding_rs` knows an encoding by the label.
pub uninterp spec fn encoding_label_known(label: Seq<char>) -> bool;

/// The label is one of the table's.
pub open spec fn table_label(label: Seq<char>) -> bool {
    exists|i: u8| i < ENCODING_COUNT && #[trigger] encoding_label_at(i) == label
}

/// What `encoding_rs` encodes the text into with the encoding of the label.
pub uninterp spec fn encoding_rs_encoded(label: Seq<char>, text: Seq<char>) -> Seq<u8>;

/// What `encoding_rs` decodes the bytes into with the encoding of the label.
pub uninterp spec fn encoding_rs_decoded(label: Seq<char>, bytes: Seq<u8>) -> Seq<char>;

/// Every byte is ASCII.
pub open spec fn is_ascii_bytes(bytes: Seq<u8>) -> bool {
    forall|i: int| 0 <= i < bytes.len() ==> bytes[i] < 128
}

/// The decoding gives the characters whose codes are the bytes.
pub open spec fn ascii_decoded(bytes: Seq<u8>, decoded: Option<String>) -> bool {
    decoded matches Some(s) && encode_utf8(s@) == bytes
}

/// The encoding is the text's own bytes, and they decode back to the text.
pub open spec fn ascii_roundtrip(label: Seq<char>, text: Seq<char>, encoded: Option<Vec<u8>>) -> bool {
    encoded matches Some(v) && v@ == encode_utf8(text) && encoding_rs_decoded(label, v@) == text
}

/// `Encoding::for_label` turns the label into the encoding (`None` for a label
/// it does not know), then `Encoding::encode` encodes the text with it (with
/// HTML numeric character references for what the encoding cannot
/// represent). Its value is left to the names above. Every label of the
/// table is one that `encoding_rs`'s label table knows, and every encoding of
/// the table is ASCII-compatible (`Encoding::is_ascii_compatible`: the bytes
/// 0x00 to 0x7F stand for U+0000 to U+007F both ways), so ASCII text is
/// encoded as its own bytes, which decode back to it (no BOM is sniffed in
/// ASCII bytes).
#[verifier::external_body]
fn encoding_rs_encode(label: &str, text: &str) -> (res: Option<Vec<u8>>)
    ensures
        res is Some <==> encoding_label_known(label@),
        table_label(label@) ==> res is Some,
        res matches Some(v) ==> v@ == encoding_rs_encoded(label@, text@),
        table_label(label@) && is_ascii_chars(text@) ==> ascii_roundtrip(label@, text@, res),
{
    let encoding = encoding_rs::Encoding::for_label(label.as_bytes())?;
    Some(encoding.encode(text).0.into_owned())
}

/// `Encoding::for_label` turns the label into the encoding (`None` for a label
/// it does not know), then `Encoding::decode` decodes the bytes with it (BOM
/// sniffing and replacement of malformed sequences included). Its value is
/// left to the names above. Every label of the table is one that
/// `encoding_rs`'s label table knows, and its encoding is ASCII-compatible:
/// ASCII bytes decode to the characters of the same codes.
#[verifier::external_body]
fn encoding_rs_decode(label: &str, bytes: &[u8]) -> (res: Option<String>)
    ensures
        res is Some <==> encoding_label_known(label@),
        table_label(label@) ==> res is Some,
        res matches Some(s) ==> s@ == encoding_rs_decoded(label@, bytes@),
        table_label(label@) && is_ascii_bytes(bytes@) ==> ascii_decoded(bytes@, res),
{
    let encoding = encoding_rs::Encoding::for_label(label.as_bytes())?;
    Some(encoding.decode(bytes).0.into_owned())
}

/// What the decoder of the `i`-th encoding gives: the decoded text as UTF-8.
pub open spec fn spec_encoding_rs_decoded(i: u8, buf: Seq<u8>) -> Option<Seq<u8>> {
    Some(encode_utf8(encoding_rs_decoded(encoding_label_at(i), buf)))
}

/// Decodes the buffer with the `index`-th legacy encoding, as UTF-8.
pub fn encoding_rs_decoder(buf: Vec<u8>, index: u8) -> (res: Option<Vec<u8>>)
    requires
        index < ENCODING_COUNT,
    ensures
        opt_bytes(res) == spec_encoding_rs_decoded(index, buf@),
{
    let (label, _) = encoding_at(index);
    assert(table_label(label@));
    match encoding_rs_decode(label, buf.as_slice()) {
        Some(decoded) => Some(into_utf8_bytes(decoded)),
        None => None,
    }
}

pub open spec fn spec_encoding_rs_codec(text: Seq<char>, i: u8) -> CodecView {
    CodecView {
        encoded: encoding_rs_encoded(encoding_label_at(i), text),
        name: encoding_codec_name_at(i),
        decoder: Decoder::EncodingRs(i),
    }
}

/// The codecs of the first `n` legacy encodings.
pub open spec fn spec_encoding_rs_codecs_upto(text: Seq<char>, n: int) -> Seq<CodecView>
    decreases n,
{
    if n <= 0 {
        seq![]
    } else {
        spec_encoding_rs_codecs_upto(text, n - 1).push(spec_encoding_rs_codec(text, (n - 1) as u8))
    }
}

/// There is one legacy-encoding codec per table entry.
pub proof fn lemma_encoding_rs_codecs_len(text: Seq<char>, n: int)
    requires
        0 <= n,
    ensures
        spec_encoding_rs_codecs_upto(text, n).len() == n,
    decreases n,
{
    if n > 0 {
        lemma_encoding_rs_codecs_len(text, n - 1);
    }
}

pub open spec fn spec_encoding_rs_codecs(text: Seq<char>) -> Seq<CodecView> {
    spec_encoding_rs_codecs_upto(text, ENCODING_COUNT as int)
}

/// One codec per legacy encoding, in the order of the table. For ASCII
/// patterns, decoding what each made of the pattern gives back its bytes.
pub fn encoding_rs_codecs(data: &str) -> (res: Vec<Codec>)
    ensures
        codec_views(res@) == spec_encoding_rs_codecs(data@),
        res@.len() == ENCODING_COUNT,
        is_ascii_chars(data@) ==> forall|i: int|
            0 <= i < res@.len() ==> spec_decode(#[trigger] res@[i].decoder, res@[i].encoded@)
                == Some(encode_utf8(data@)),
{
    let mut codecs: Vec<Codec> = Vec::new();
    let mut i: u8 = 0;
    while i < ENCODING_COUNT
        invariant
            i <= ENCODING_COUNT,
            codec_views(codecs@) == spec_encoding_rs_codecs_upto(data@, i as int),
            is_ascii_chars(data@) ==> forall|j: int|
                0 <= j < codecs@.len() ==> spec_decode(#[trigger] codecs@[j].decoder, codecs@[j].encoded@)
                    == Some(encode_utf8(data@)),
        decreases ENCODING_COUNT - i,
    {
        let (label, name) = encoding_at(i);
        assert(table_label(label@));
        match encoding_rs_encode(label, data) {
            Some(encoded) => {
                let ghost before = codecs@;
                codecs.push(Codec { encoded, name: String::from_str(name), decoder: Decoder::EncodingRs(i) });
                proof {
                    assert(codec_views(codecs@) =~= spec_encoding_rs_codecs_upto(data@, i + 1));
                    if is_ascii_chars(data@) {
                        assert forall|j: int| 0 <= j < codecs@.len() implies spec_decode(
                            #[trigger] codecs@[j].decoder,
                            codecs@[j].encoded@,
                        ) == Some(encode_utf8(data@)) by {
                            if j < before.len() {
                                assert(codecs@[j] == before[j]);
                            }
                        }
                    }
                }
            },
            None => {},
        }
        i = i + 1;
    }
    proof {
        lemma_encoding_rs_codecs_len(data@, ENCODING_COUNT as int);
        assert(codecs@.len() == codec_views(codecs@).len());
    }
    codecs
}

} // verus!
