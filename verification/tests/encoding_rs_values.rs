use red_leicester_string::codecs::encoding_rs_codecs::{encoding_at, encoding_rs_codecs, encoding_rs_decoder, ENCODING_COUNT};

#[test]
fn encoding_labels_name_the_intended_encodings() {
    let expected = [
        encoding_rs::BIG5, encoding_rs::EUC_JP, encoding_rs::EUC_KR, encoding_rs::GB18030,
        encoding_rs::GBK, encoding_rs::IBM866, encoding_rs::ISO_8859_2, encoding_rs::ISO_8859_3,
        encoding_rs::ISO_8859_4, encoding_rs::ISO_8859_5, encoding_rs::ISO_8859_6, encoding_rs::ISO_8859_7,
        encoding_rs::ISO_8859_8, encoding_rs::ISO_8859_8_I, encoding_rs::ISO_8859_10, encoding_rs::ISO_8859_13,
        encoding_rs::ISO_8859_14, encoding_rs::ISO_8859_15, encoding_rs::ISO_8859_16, encoding_rs::KOI8_R,
        encoding_rs::KOI8_U, encoding_rs::MACINTOSH, encoding_rs::SHIFT_JIS, encoding_rs::WINDOWS_874,
        encoding_rs::WINDOWS_1250, encoding_rs::WINDOWS_1251, encoding_rs::WINDOWS_1252, encoding_rs::WINDOWS_1253,
        encoding_rs::WINDOWS_1254, encoding_rs::WINDOWS_1255, encoding_rs::WINDOWS_1256, encoding_rs::WINDOWS_1257,
        encoding_rs::WINDOWS_1258, encoding_rs::X_MAC_CYRILLIC, encoding_rs::X_USER_DEFINED,
    ];
    assert_eq!(expected.len(), ENCODING_COUNT as usize);
    for i in 0..ENCODING_COUNT {
        let (label, _) = encoding_at(i);
        assert_eq!(encoding_rs::Encoding::for_label(label.as_bytes()), Some(expected[i as usize]), "{label}");
    }
    assert_eq!(encoding_at(0).1, "encoding-BIG5");
    assert_eq!(encoding_at(34).1, "encoding-X_USER_DEFINED");
}

#[test]
fn encoding_rs_codecs_values() {
    let codecs = encoding_rs_codecs("\u{20ac}");
    assert_eq!(codecs.len(), 35);
    assert_eq!(codecs[26].name, "encoding-WINDOWS_1252");
    assert_eq!(codecs[26].encoded, vec![0x80]);
    assert_eq!(encoding_rs_decoder(vec![0x80], 26), Some("\u{20ac}".as_bytes().to_vec()));
    assert_eq!(encoding_rs_decoder(vec![0xE9], 6), Some("\u{e9}".as_bytes().to_vec()));
}

#[test]
fn every_legacy_encoding_has_a_codec() {
    assert_eq!(red_leicester_string::codecs::encoding_rs_codecs::encoding_rs_codecs("flag{").len(), 35);
    assert_eq!(red_leicester_string::codecs::all_codecs("flag{", false).len(), 431);
}

#[test]
fn legacy_encodings_keep_ascii_patterns() {
    let pattern = "flag{ASCII stays ASCII ~!}";
    for codec in encoding_rs_codecs(pattern) {
        assert_eq!(codec.encoded, pattern.as_bytes().to_vec(), "{}", codec.name);
        let decoded = red_leicester_string::codecs::decode(codec.decoder, codec.encoded.clone());
        assert_eq!(decoded, Some(pattern.as_bytes().to_vec()), "{}", codec.name);
    }
}
