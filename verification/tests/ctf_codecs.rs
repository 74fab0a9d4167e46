use red_leicester_string::codecs::ctf_codecs::{round_down_to_even, xor_constants};

#[test]
fn test_round_down_to_even() {
    assert_eq!(round_down_to_even(0), 0);
    assert_eq!(round_down_to_even(1), 0);
    assert_eq!(round_down_to_even(2), 2);
    assert_eq!(round_down_to_even(3), 2);
    assert_eq!(round_down_to_even(4), 4);
    assert_eq!(round_down_to_even(usize::MAX), usize::MAX - 1);
}

#[test]
fn test_xor_constant_table_is_correct() {
    for (i, (c, name)) in xor_constants().iter().enumerate() {
        assert_eq!(i + 1, *c as usize, "Constants are not in order");
        assert_eq!(format!("XOR_{c}"), *name, "Name doesn't match constant");
    }
}
