use object_tree::hash;
use object_tree::hash::HashParseError;

#[test]
fn hash_of_empty_input_is_the_known_digest() {
    let h = hash::Hash::new(b"");
    assert_eq!(
        h.to_string(),
        "af1349b9f5f9a1a6a0404dea36dcc9499bcb25c9adc112b7cc9a93cae41f3262"
    );
}

#[test]
fn hash_short_string_is_first_eight_digits() {
    let h = hash::Hash::new(b"");
    assert_eq!(h.short_string(), "af1349b9");
}

#[test]
fn hash_from_str_round_trips() {
    let h = hash::Hash::new(b"abc");
    let parsed = hash::Hash::from_str(&h.to_string()).unwrap();
    assert_eq!(parsed, h);
    assert!(parsed.same_as(&h));
}

#[test]
fn hash_from_str_accepts_upper_case() {
    let h = hash::Hash::new(b"abc");
    let upper = h.to_string().to_uppercase();
    assert_eq!(hash::Hash::from_str(&upper), Ok(h));
}

#[test]
fn hash_from_str_rejects_wrong_length() {
    assert_eq!(hash::Hash::from_str("abcd"), Err(HashParseError::InvalidLen));
}

#[test]
fn hash_from_str_rejects_non_hex() {
    let text = "zf1349b9f5f9a1a6a0404dea36dcc9499bcb25c9adc112b7cc9a93cae41f3262";
    assert_eq!(hash::Hash::from_str(text), Err(HashParseError::InvalidByte));
}

#[test]
fn hash_of_known_input_is_the_known_digest() {
    // The digest of "abc" as the BLAKE3 test vectors give it
    let h = hash::Hash::new(b"abc");
    assert_eq!(
        h.to_string(),
        "6437b3ac38465133ffb63b75273a8db548c558465d79db03fd359c6cd5bd9d85"
    );
}

#[test]
fn hash_differs_from_its_input_and_between_inputs() {
    let input = [7u8; 32];
    let h = hash::Hash::new(&input);
    assert_ne!(h.as_bytes(), &input);
    assert_ne!(hash::Hash::new(b"a"), hash::Hash::new(b"b"));
    assert_eq!(hash::Hash::new(b"a"), hash::Hash::new(b"a"));
}

#[test]
fn hash_hex_bytes_are_lower_case_digits() {
    let h = hash::Hash::from_bytes([0xab; 32]);
    assert_eq!(h.to_hex_bytes(), "ab".repeat(32).into_bytes());
    assert_eq!(h.as_bytes(), &[0xab; 32]);
    let mixed = hash::Hash::from_bytes([0x0f; 32]);
    assert_eq!(mixed.to_string(), "0f".repeat(32));
    assert_eq!(mixed.short_string(), "0f0f0f0f");
}

#[test]
fn hash_from_hex_bytes_reads_each_pair() {
    let text = "00ff10a9".repeat(8);
    let h = hash::Hash::from_hex_bytes(text.as_bytes()).unwrap();
    let mut expected = [0u8; 32];
    for i in 0..8 {
        expected[4 * i] = 0x00;
        expected[4 * i + 1] = 0xff;
        expected[4 * i + 2] = 0x10;
        expected[4 * i + 3] = 0xa9;
    }
    assert_eq!(h.as_bytes(), &expected);
}

#[test]
fn hash_from_str_rejects_a_wide_character() {
    // 62 digits and one character of two bytes make 64 bytes
    let text = format!("{}\u{e9}", "0".repeat(62));
    assert_eq!(hash::Hash::from_str(&text), Err(HashParseError::InvalidByte));
}
