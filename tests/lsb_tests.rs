use stega::lsb::{byte_to_bits, decode, encode, BITS_PER_BYTE};

const ZERO_BYTE: u8 = 0b_0000_0000;
const ONE_BYTE: u8 = 0b_0000_0001;
const TWO_BYTE: u8 = 0b_0000_0010;
const THREE_BYTE: u8 = 0b_0000_0011;
const EMPTY_BYTE: u8 = 0b_0000_0000;

const EMPTY_BYTE_BITS: [bool; BITS_PER_BYTE] =
    [false, false, false, false, false, false, false, false];

const SET_BIT: bool = true;
const UNSET_BIT: bool = false;

const HASH_CHAR_BYTE: u8 = 0b_0010_0011;
const HASH_CHAR_CARRIER_BYTES: [u8; BITS_PER_BYTE] = [
    ZERO_BYTE, ZERO_BYTE, ONE_BYTE, ZERO_BYTE, ZERO_BYTE, ZERO_BYTE, ONE_BYTE, ONE_BYTE,
];

#[test]
fn encode_bytes() {
    let mut byte = TWO_BYTE;

    encode(&mut byte, SET_BIT);
    assert_eq!(byte, THREE_BYTE);

    encode(&mut byte, UNSET_BIT);
    assert_eq!(byte, TWO_BYTE);
}

#[test]
fn verify_bytes_to_bits() {
    let result = byte_to_bits(&EMPTY_BYTE)
        .into_iter()
        .zip(EMPTY_BYTE_BITS)
        .all(|(a, b)| a == b);
    assert!(result);
}

#[test]
fn verify_decode() {
    assert_eq!(decode(&HASH_CHAR_CARRIER_BYTES), HASH_CHAR_BYTE);
}

#[test]
fn bits_are_most_significant_first() {
    assert_eq!(
        byte_to_bits(&0b_1000_0001),
        [true, false, false, false, false, false, false, true]
    );
    assert_eq!(
        byte_to_bits(&HASH_CHAR_BYTE),
        [false, false, true, false, false, false, true, true]
    );
}

#[test]
fn encode_keeps_upper_bits() {
    let mut byte: u8 = 0b_1111_1111;
    encode(&mut byte, UNSET_BIT);
    assert_eq!(byte, 0b_1111_1110);
    encode(&mut byte, SET_BIT);
    assert_eq!(byte, 0b_1111_1111);
}

#[test]
fn decode_inverts_encode_for_every_byte() {
    for b in 0u8..=255 {
        let mut px: [u8; BITS_PER_BYTE] = [0xAA, 0x55, 0xFF, 0x00, 0x13, 0x80, 0x7F, 0x01];
        for (subpixel, bit) in px.iter_mut().zip(byte_to_bits(&b)) {
            encode(subpixel, bit);
        }
        assert_eq!(decode(&px), b);
    }
}
