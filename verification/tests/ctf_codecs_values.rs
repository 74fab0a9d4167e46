use red_leicester_string::codecs::ctf_codecs::{
    base10_ascii_codec, base10_ascii_decoder, binary_codecs, binary_decoder,
    bytewise_binary_decoder, ctf_codecs, decode_binary_block, hex_codecs, hex_decoder,
    raw_hex_decoder, rot13_codecs, rot13_decode, rot13_encode, rot47_codecs, rot47_decode,
    rot47_encode, rotate_around, xor_codecs, xor_decoder,
};
use red_leicester_string::codecs::Decoder;

#[test]
fn base10_codec_writes_decimal_codes() {
    assert_eq!(base10_ascii_codec("flag{").encoded, b"10210897103123".to_vec());
    assert_eq!(base10_ascii_codec("flag{").name, "base10-ascii");
}

#[test]
fn base10_decoder_reads_decimal_codes() {
    assert_eq!(base10_ascii_decoder(b"10210897103123".to_vec()), Some(b"flag{".to_vec()));
    assert_eq!(base10_ascii_decoder(b"102108x97".to_vec()), Some(b"fl".to_vec()));
    // 8-bit accumulation wraps around: 3, 31, then (310 mod 256) + 9 = 63
    assert_eq!(base10_ascii_decoder(b"319".to_vec()), Some(b"?".to_vec()));
    // a code above 127 comes out as UTF-8
    assert_eq!(base10_ascii_decoder(b"233".to_vec()), Some("\u{e9}".as_bytes().to_vec()));
}

#[test]
fn xor_codecs_cover_every_key() {
    let codecs = xor_codecs("fl");
    assert_eq!(codecs.len(), 255);
    assert_eq!(codecs[0].encoded, vec![b'f' ^ 1, b'l' ^ 1]);
    assert_eq!(codecs[254].name, "XOR_255");
    assert_eq!(codecs[254].decoder, Decoder::Xor(255));
    assert_eq!(xor_decoder(vec![b'f' ^ 7, b'l' ^ 7], 7), Some(b"fl".to_vec()));
}

#[test]
fn hex_codecs_values() {
    let codecs = hex_codecs("fl{");
    assert_eq!(codecs[0].encoded, b"666c7b".to_vec());
    assert_eq!(codecs[0].name, "hex-lower");
    assert_eq!(codecs[1].encoded, b"666c7b".to_vec());
    assert_eq!(codecs[1].name, "hex-upper");
    assert_eq!(codecs[2].encoded, vec![6, 6, 6, 12, 7, 11]);
    assert_eq!(codecs[2].name, "raw-hex");
}

#[test]
fn hex_decoder_stops_at_the_first_non_digit() {
    assert_eq!(hex_decoder(b"666C6167".to_vec()), Some(b"flag".to_vec()));
    assert_eq!(hex_decoder(b"666c6zz".to_vec()), Some(b"fl".to_vec()));
    assert_eq!(hex_decoder(b"6".to_vec()), Some(vec![]));
    assert_eq!(raw_hex_decoder(vec![6, 6, 6, 12, 0xFF, 1]), Some(b"fl".to_vec()));
    // a byte of 16 or more ends the raw run but stays, and is read as hex if it is a digit
    assert_eq!(raw_hex_decoder(vec![6, b'6', b'c']), Some(b"f".to_vec()));
}

#[test]
fn binary_values() {
    let codecs = binary_codecs("f", false);
    assert_eq!(codecs.len(), 2);
    assert_eq!(codecs[0].encoded, b"01100110".to_vec());
    assert_eq!(codecs[0].name, "binary");
    assert_eq!(codecs[1].encoded, vec![0, 1, 1, 0, 0, 1, 1, 0]);
    assert_eq!(codecs[1].name, "binary-0=0x00-1=0x01");
    assert_eq!(decode_binary_block(b"01100110"), Some(0x66));
    assert_eq!(decode_binary_block(b"0110011x"), None);
    assert_eq!(binary_decoder(b"0110011001101100011x0000".to_vec()), Some(b"fl".to_vec()));
    assert_eq!(bytewise_binary_decoder(b"ABBAABBA!".to_vec(), b'A', b'B'), Some(b"f".to_vec()));
}

#[test]
fn binary_codecs_when_gambling() {
    let codecs = binary_codecs("f", true);
    assert_eq!(codecs.len(), 1 + 255 * 256);
    assert_eq!(codecs[2].name, "binary-0=0x00-1=0x02");
    assert_eq!(codecs[256].name, "binary-0=0x01-1=0x00");
    assert_eq!(codecs[257].name, "binary-0=0x01-1=0x02");
    assert_eq!(codecs[255 * 256].name, "binary-0=0xff-1=0xfe");
}

#[test]
fn rotations() {
    assert_eq!(rotate_around(b'z', b'a', 1, 26), b'a');
    assert_eq!(rot13_encode("flag{", 13), b"synt{".to_vec());
    assert_eq!(rot13_decode(b"synt{".to_vec(), 13), Some(b"flag{".to_vec()));
    assert_eq!(rot13_encode("Hello", 1), b"Ifmmp".to_vec());
    assert_eq!(rot47_encode("flag{", 47), b"7=28L".to_vec());
    assert_eq!(rot47_decode(b"7=28L".to_vec(), 47), Some(b"flag{".to_vec()));
    assert_eq!(rot13_codecs("a").len(), 25);
    assert_eq!(rot13_codecs("a")[24].name, "ROT-13-rot=25");
    assert_eq!(rot47_codecs("a").len(), 93);
    assert_eq!(rot47_codecs("a")[0].name, "ROT-47-rot=1");
}

#[test]
fn ctf_codecs_count() {
    assert_eq!(ctf_codecs("flag{", false).len(), 1 + 255 + 3 + 2 + 25 + 93);
}
