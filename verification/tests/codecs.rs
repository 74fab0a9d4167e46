use red_leicester_string::codecs::{all_codecs, decode, Codec};

#[test]
fn all_codecs_roundtrip_to_prefix() {
    let mut random_data = Vec::with_capacity(999);
    random_data.resize(random_data.capacity(), 0);
    for b in random_data.iter_mut() {
        *b = rand::random_range(b' '..=b'~');
    }
    // all data is valid ascii so this is fine
    let random_str = std::str::from_utf8(&random_data).unwrap();

    for codec in all_codecs(random_str, false) {
        let Codec {
            encoded,
            name,
            decoder,
        } = codec;
        let decoded = decode(decoder, encoded.clone()).unwrap();
        for (dec, cor) in decoded.iter().zip(&random_data) {
            assert_eq!(dec, cor, "Codec {} roundtrip failed", name);
        }
    }
}

#[test]
fn all_codecs_roundtrip_to_prefix_with_gamble() {
    let data: Vec<u8> = (0..16).map(|_| rand::random_range(b' '..=b'~')).collect();
    let text = std::str::from_utf8(&data).unwrap();
    let codecs = all_codecs(text, true);
    assert_eq!(codecs.len(), 430 + 255 * 256);
    for Codec { encoded, name, decoder } in codecs {
        let decoded = decode(decoder, encoded).unwrap();
        assert!(data.starts_with(&decoded), "Codec {} roundtrip failed", name);
    }
}
