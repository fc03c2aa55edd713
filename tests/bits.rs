use topqueue::bits::{bit_string, encode_bits};

#[test]
fn bit_string_of_bytes() {
    assert_eq!(bit_string(0), b"00000000".to_vec());
    assert_eq!(bit_string(5), b"00000101".to_vec());
    assert_eq!(bit_string(128), b"10000000".to_vec());
    assert_eq!(bit_string(255), b"11111111".to_vec());
}

#[test]
fn bit_string_matches_formatting() {
    for b in 0..=255u8 {
        assert_eq!(bit_string(b), format!("{b:08b}").into_bytes());
    }
}

#[test]
fn encode_several_bytes() {
    assert_eq!(encode_bits(b"A\n"), b"0100000100001010".to_vec());
    assert_eq!(encode_bits(&[]), Vec::<u8>::new());
}
