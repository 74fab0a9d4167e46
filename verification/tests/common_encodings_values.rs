use red_leicester_string::codecs::common_encodings::{
    common_encodings, utf16_be_codec, utf16_be_decoder, utf16_le_codec, utf16_le_decoder,
    identity_codec, identity_decoder, utf32_be_codec, utf32_le_codec, utf32_le_decoder,
    utf8_codec, utf8_decoder,
};
use red_leicester_string::codecs::{retrieve_metadata, Base64Alphabet, Decoder};

#[test]
fn utf8_codec_is_the_pattern_itself() {
    let codec = utf8_codec("flag{");
    assert_eq!(codec.encoded, b"flag{".to_vec());
    assert_eq!(codec.name, "UTF8");
    assert_eq!(utf8_decoder(b"abc".to_vec()), Some(b"abc".to_vec()));
}

#[test]
fn utf16_codecs_give_both_byte_orders() {
    assert_eq!(utf16_le_codec("fl").encoded, vec![b'f', 0, b'l', 0]);
    assert_eq!(utf16_be_codec("fl").encoded, vec![0, b'f', 0, b'l']);
    // U+1F600 is the surrogate pair D83D DE00
    assert_eq!(utf16_le_codec("\u{1F600}").encoded, vec![0x3D, 0xD8, 0x00, 0xDE]);
    assert_eq!(utf16_be_codec("\u{1F600}").encoded, vec![0xD8, 0x3D, 0xDE, 0x00]);
}

#[test]
fn utf16_decoders_are_lossy() {
    assert_eq!(utf16_le_decoder(vec![b'f', 0, b'l', 0]), Some(b"fl".to_vec()));
    assert_eq!(utf16_be_decoder(vec![0xD8, 0x3D, 0xDE, 0x00]), Some("\u{1F600}".as_bytes().to_vec()));
    // an unpaired high surrogate and an odd last byte both become U+FFFD
    assert_eq!(utf16_le_decoder(vec![0x3D, 0xD8, b'a', 0]), Some("\u{FFFD}a".as_bytes().to_vec()));
    assert_eq!(utf16_le_decoder(vec![b'a', 0, b'b']), Some("a\u{FFFD}".as_bytes().to_vec()));
    // a lone low surrogate
    assert_eq!(utf16_le_decoder(vec![0x00, 0xDC]), Some("\u{FFFD}".as_bytes().to_vec()));
}

#[test]
fn utf32_codecs_and_decoder() {
    assert_eq!(utf32_le_codec("f").encoded, vec![b'f', 0, 0, 0]);
    assert_eq!(utf32_be_codec("\u{1F600}").encoded, vec![0, 0x01, 0xF6, 0x00]);
    assert_eq!(utf32_le_decoder(vec![0x00, 0xF6, 0x01, 0x00, b'x']), Some("\u{1F600}".as_bytes().to_vec()));
    // a surrogate value and a value above U+10FFFF are replaced
    assert_eq!(utf32_le_decoder(vec![0x00, 0xD8, 0, 0, 0, 0, 0x11, 0]), Some("\u{FFFD}\u{FFFD}".as_bytes().to_vec()));
}

#[test]
fn common_encodings_come_in_order() {
    let names: Vec<String> = common_encodings("x").into_iter().map(|c| c.name).collect();
    assert_eq!(names, vec!["UTF8", "UTF-16-LE", "UTF-16-BE", "UTF-32-LE", "UTF-32-BE"]);
}

#[test]
fn identity_codec_keeps_bytes() {
    let codec = identity_codec(b"flag{\xff");
    assert_eq!(codec.encoded, b"flag{\xff".to_vec());
    assert_eq!(codec.name, "UTF8");
    assert_eq!(codec.decoder, Decoder::Utf8);
    assert_eq!(identity_decoder(b"\x00abc".to_vec()), Some(b"\x00abc".to_vec()));
}

#[test]
fn retrieve_metadata_gives_what_was_stored() {
    assert_eq!(retrieve_metadata(Some(Base64Alphabet::Crypt)), Base64Alphabet::Crypt);
    assert_eq!(retrieve_metadata(Some(7u8)), 7u8);
}
