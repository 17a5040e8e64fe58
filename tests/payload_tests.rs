use stega::lsb::byte_to_bits;
use stega::payload::{END_OF_TEXT, START_OF_TEXT};
use stega::Payload;

const HASH_CHAR: char = '#';
const HASH_CHAR_PAYLOAD_LENGTH: usize = 24;
const HASH_CHAR_PAYLOAD_BITS: [bool; HASH_CHAR_PAYLOAD_LENGTH] = [
    false, false, false, false, false, false, true, false, false, false, true, false, false,
    false, true, true, false, false, false, false, false, false, true, true,
];

#[test]
fn create_new_payload() {
    let payload = Payload::new(&HASH_CHAR.to_string());

    let result = payload.length();
    assert_eq!(result, HASH_CHAR_PAYLOAD_LENGTH);

    let result = payload
        .bits()
        .into_iter()
        .zip(HASH_CHAR_PAYLOAD_BITS)
        .all(|(a, b)| a == b);
    assert!(result);
}

#[test]
fn verify_delimiters() {
    let byte = START_OF_TEXT;
    assert!(Payload::is_stx(&byte));
    assert!(Payload::not_etx(&byte));

    let byte = END_OF_TEXT;
    assert!(!Payload::is_stx(&byte));
    assert!(!Payload::not_etx(&byte));
}

#[test]
fn hash_payload_bits_exact() {
    let payload = Payload::new("#");
    assert_eq!(payload.bits(), HASH_CHAR_PAYLOAD_BITS.to_vec());
}

#[test]
fn empty_payload_is_two_delimiters() {
    let payload = Payload::new("");
    assert_eq!(payload.length(), 16);
    let mut expected = byte_to_bits(&START_OF_TEXT).to_vec();
    expected.extend(byte_to_bits(&END_OF_TEXT));
    assert_eq!(payload.bits(), expected);
}

#[test]
fn payload_bits_start_and_end_with_delimiters() {
    for text in ["", "a", "#!", "héllo", "🦀 crab"] {
        let payload = Payload::new(text);
        let bits = payload.bits();
        assert_eq!(bits.len(), payload.length());
        assert_eq!(payload.length(), (text.len() + 2) * 8);
        assert_eq!(bits[..8], byte_to_bits(&START_OF_TEXT));
        assert_eq!(bits[bits.len() - 8..], byte_to_bits(&END_OF_TEXT));
    }
}
