use red_leicester_string::codecs::base32_codecs::{base32_codecs, base32_decoder, trim_base32_pattern};
use red_leicester_string::codecs::base64_codecs::{base64_codecs, base64_decoder, trim_base64_pattern};
use red_leicester_string::codecs::{Base32Alphabet, Base64Alphabet};

#[test]
fn base64_codecs_values() {
    let codecs = base64_codecs("flag{");
    assert_eq!(codecs.len(), 6);
    assert_eq!(codecs[0].encoded, b"ZmxhZ3".to_vec());
    assert_eq!(codecs[0].name, "base64");
    assert_eq!(codecs[1].name, "base64-URL-safe");
    assert_eq!(codecs[5].name, "base64-IMAP-modified-UTF7");
    assert_eq!(trim_base64_pattern(b"ZmxhZ3s".to_vec()), b"ZmxhZ3".to_vec());
    assert_eq!(trim_base64_pattern(b"Zmxh".to_vec()), b"Zmx".to_vec());
    assert_eq!(trim_base64_pattern(b"ZmxhZ3".to_vec()), b"ZmxhZ3".to_vec());
}

#[test]
fn base64_decoder_trims_until_it_decodes() {
    assert_eq!(base64_decoder(b"ZmxhZ3tnaW1tZV90aGVfd2hvbGVfZmxhZ30=".to_vec(), Base64Alphabet::Standard),
        Some(b"flag{gimme_the_whole_flag}".to_vec()));
    assert_eq!(base64_decoder(b"ZmxhZ3s-dWhTKiR9".to_vec(), Base64Alphabet::Standard), Some(b"flag{".to_vec()));
    assert_eq!(base64_decoder(b"ZmxhZ3s-dWhTKiR9".to_vec(), Base64Alphabet::UrlSafe), Some(b"flag{>uhS*$}".to_vec()));
    assert_eq!(base64_decoder(b"".to_vec(), Base64Alphabet::Standard), Some(vec![]));
    assert_eq!(base64_decoder(b"!".to_vec(), Base64Alphabet::Standard), None);
}

#[test]
fn base32_codecs_values() {
    let codecs = base32_codecs("flag{");
    assert_eq!(codecs.len(), 6);
    assert_eq!(codecs[1].encoded, b"MZWGCZ3".to_vec());
    assert_eq!(codecs[1].name, "base32-RFC-4648");
    assert_eq!(codecs[0].name, "base32-crockford");
    assert_eq!(trim_base32_pattern(b"MZWGCZ33".to_vec()), b"MZWGCZ3".to_vec());
    assert_eq!(trim_base32_pattern(b"MZWGCZ3".to_vec()), b"MZWGCZ3".to_vec());
}

#[test]
fn base32_decoder_reads_the_valid_utf8_prefix() {
    assert_eq!(base32_decoder(b"MZWGCZ33".to_vec(), Base32Alphabet::Rfc4648), Some(b"flag{".to_vec()));
    assert_eq!(base32_decoder(b"MZWGCZ33\xFF\xFE".to_vec(), Base32Alphabet::Rfc4648), Some(b"flag{".to_vec()));
    assert_eq!(base32_decoder(b"mzwgcz33".to_vec(), Base32Alphabet::Rfc4648Lower), Some(b"flag{".to_vec()));
    assert_eq!(base32_decoder(b"MZWG!".to_vec(), Base32Alphabet::Rfc4648), None);
}

#[test]
fn base_codecs_decode_back_to_the_start_of_the_pattern() {
    for pattern in ["flag{", "flag{abc}", "CTF{0123456789}", "ab", ""] {
        for codec in base64_codecs(pattern).into_iter().chain(base32_codecs(pattern)) {
            let decoded = red_leicester_string::codecs::decode(codec.decoder, codec.encoded.clone()).unwrap();
            assert!(pattern.as_bytes().starts_with(&decoded), "{} of {pattern}", codec.name);
        }
    }
    // a single byte leaves a single base64 symbol, which nothing decodes
    let one = base64_codecs("f");
    assert_eq!(one[0].encoded, b"Z".to_vec());
    assert_eq!(base64_decoder(one[0].encoded.clone(), Base64Alphabet::Standard), None);
    // base32 keeps every whole byte of the pattern that its kept symbols cover
    let b32 = base32_codecs("flag{");
    assert_eq!(base32_decoder(b32[1].encoded.clone(), Base32Alphabet::Rfc4648), Some(b"flag".to_vec()));
}
