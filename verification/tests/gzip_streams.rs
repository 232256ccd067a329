use gunzip::{decompress, Error};

fn gz(bytes: &[u8]) -> Vec<u8> {
    bytes.to_vec()
}

const EMPTY_MEMBER: [u8; 20] = [
    0x1f, 0x8b, 0x08, 0x00, 0x00, 0x00, 0x00, 0x00, 0x00, 0x03, 0x03, 0x00, 0x00, 0x00, 0x00,
    0x00, 0x00, 0x00, 0x00, 0x00,
];

const HELLO_FIXED: [u8; 25] = [
    0x1f, 0x8b, 0x08, 0x00, 0x00, 0x00, 0x00, 0x00, 0x00, 0x03, 0xf3, 0x48, 0xcd, 0xc9, 0xc9,
    0x07, 0x00, 0x82, 0x89, 0xd1, 0xf7, 0x05, 0x00, 0x00, 0x00,
];

const SINGLE_A_STORED: [u8; 24] = [
    0x1f, 0x8b, 0x08, 0x00, 0x00, 0x00, 0x00, 0x00, 0x00, 0x03, 0x01, 0x01, 0x00, 0xfe, 0xff,
    0x41, 0x8b, 0x9e, 0xd9, 0xd3, 0x01, 0x00, 0x00, 0x00,
];

const OVERLAP_RUN: [u8; 23] = [
    0x1f, 0x8b, 0x08, 0x00, 0x00, 0x00, 0x00, 0x00, 0x00, 0x03, 0x73, 0x74, 0x04, 0x01, 0x00,
    0x7e, 0xde, 0x1c, 0xaa, 0x06, 0x00, 0x00, 0x00,
];

const FOO: [u8; 23] = [
    0x1f, 0x8b, 0x08, 0x00, 0x00, 0x00, 0x00, 0x00, 0x00, 0x03, 0x4b, 0xcb, 0xcf, 0x07, 0x00,
    0x21, 0x65, 0x73, 0x8c, 0x03, 0x00, 0x00, 0x00,
];

const BAR: [u8; 23] = [
    0x1f, 0x8b, 0x08, 0x00, 0x00, 0x00, 0x00, 0x00, 0x00, 0x03, 0x4b, 0x4a, 0x2c, 0x02, 0x00,
    0xaa, 0x8c, 0xff, 0x76, 0x03, 0x00, 0x00, 0x00,
];

// a dynamic-Huffman member whose preamble uses the code-length codes 16, 17
// and 18 (verified against the RFC permutation when the vector was made)
const DYNAMIC: [u8; 111] = [
    0x1f, 0x8b, 0x08, 0x00, 0x00, 0x00, 0x00, 0x00, 0x00, 0x03, 0x2b, 0xc9, 0x48, 0x55, 0x28,
    0x2c, 0xcd, 0x4c, 0xce, 0x56, 0x48, 0x2a, 0xca, 0x2f, 0xcf, 0x53, 0x48, 0xcb, 0xaf, 0x50,
    0xc8, 0x2a, 0xcd, 0x2d, 0x28, 0x56, 0xc8, 0x2f, 0x4b, 0x2d, 0x52, 0x28, 0x01, 0x4a, 0xe7,
    0x24, 0x56, 0x55, 0x2a, 0xa4, 0xe4, 0xa7, 0xeb, 0x81, 0x79, 0xa3, 0x8a, 0xc9, 0x52, 0xcc,
    0xc0, 0xc8, 0xc4, 0xcc, 0xc2, 0xca, 0xc6, 0xce, 0xc1, 0xc9, 0xc5, 0xcd, 0xc3, 0xcb, 0xc7,
    0x2f, 0x20, 0x28, 0x24, 0x2c, 0x22, 0x2a, 0x26, 0x2e, 0x21, 0x29, 0x25, 0x2d, 0x23, 0x2b,
    0x27, 0xaf, 0xa0, 0xa8, 0xa4, 0xac, 0xa2, 0xaa, 0xa6, 0x4e, 0xac, 0x3a, 0x00, 0xa0, 0xe8,
    0xc6, 0xc5, 0xb8, 0x01, 0x00, 0x00,
];

fn dynamic_plaintext() -> Vec<u8> {
    let mut data = Vec::new();
    for _ in 0..8 {
        data.extend_from_slice(b"the quick brown fox jumps over the lazy dog. ");
    }
    for _ in 0..2 {
        for b in 0..40u8 {
            data.push(b);
        }
    }
    data
}

#[test]
fn empty_member() {
    let out = decompress(gz(&EMPTY_MEMBER)).0.unwrap();
    assert_eq!(out.len(), 0);
    // the trailer of an empty member carries CRC 0 and size 0
    assert_eq!(&EMPTY_MEMBER[12..16], &[0, 0, 0, 0]);
    assert_eq!(&EMPTY_MEMBER[16..20], &[0, 0, 0, 0]);
    assert_eq!(crc32fast::hash(b""), 0);
}

#[test]
fn single_byte_stored_block() {
    let out = decompress(gz(&SINGLE_A_STORED)).0.unwrap();
    assert_eq!(out, b"A".to_vec());
}

#[test]
fn fixed_huffman_hello() {
    let out = decompress(gz(&HELLO_FIXED)).0.unwrap();
    assert_eq!(out, b"Hello".to_vec());
}

#[test]
fn dynamic_huffman_rle_lengths() {
    let out = decompress(gz(&DYNAMIC)).0.unwrap();
    assert_eq!(out, dynamic_plaintext());
}

#[test]
fn overlapping_back_reference() {
    let out = decompress(gz(&OVERLAP_RUN)).0.unwrap();
    assert_eq!(out, b"AAAAAA".to_vec());
}

#[test]
fn multi_member_stream() {
    let mut input = gz(&FOO);
    input.extend_from_slice(&BAR);
    let out = decompress(input).0.unwrap();
    assert_eq!(out, b"foobar".to_vec());
}

#[test]
fn concatenation_matches_individual_outputs() {
    let out_foo = decompress(gz(&FOO)).0.unwrap();
    let out_bar = decompress(gz(&BAR)).0.unwrap();
    let mut input = gz(&FOO);
    input.extend_from_slice(&BAR);
    let both = decompress(input).0.unwrap();
    let mut joined = out_foo.clone();
    joined.extend_from_slice(&out_bar);
    assert_eq!(both, joined);
}

#[test]
fn corrupt_crc() {
    // flip a byte of the trailer's CRC field
    let mut input = gz(&HELLO_FIXED);
    let n = input.len();
    input[n - 5] ^= 0xFF;
    assert_eq!(decompress(input).0.unwrap_err(), Error::ChecksumMismatch);
}

#[test]
fn corrupt_isize() {
    // flip the very last byte: the high byte of ISIZE
    let mut input = gz(&HELLO_FIXED);
    let n = input.len();
    input[n - 1] ^= 0xFF;
    assert_eq!(decompress(input).0.unwrap_err(), Error::SizeMismatch);
}

#[test]
fn spec_trailer_with_wrong_crc_is_rejected() {
    // a stored-block member whose trailer CRC does not match its payload
    let input = vec![
        0x1f, 0x8b, 0x08, 0x00, 0x00, 0x00, 0x00, 0x00, 0x00, 0x03, 0x01, 0x01, 0x00, 0xfe,
        0xff, 0x41, 0x8e, 0xa9, 0x6c, 0x82, 0x01, 0x00, 0x00, 0x00,
    ];
    assert_eq!(decompress(input).0.unwrap_err(), Error::ChecksumMismatch);
}

#[test]
fn round_trip_crc_matches_external_hasher() {
    // the decompressed bytes hash to the value the trailer stores
    let out = decompress(gz(&DYNAMIC)).0.unwrap();
    let n = DYNAMIC.len();
    let stored = u32::from_le_bytes([
        DYNAMIC[n - 8],
        DYNAMIC[n - 7],
        DYNAMIC[n - 6],
        DYNAMIC[n - 5],
    ]);
    assert_eq!(crc32fast::hash(&out), stored);
}

#[test]
fn two_stored_blocks_stay_aligned() {
    // a non-final stored block followed by a final one: the second block
    // header must be read at a byte boundary
    let mut input = vec![
        0x1f, 0x8b, 0x08, 0x00, 0x00, 0x00, 0x00, 0x00, 0x00, 0x03,
        0x00, 0x01, 0x00, 0xfe, 0xff, 0x58, // stored, not final: "X"
        0x01, 0x01, 0x00, 0xfe, 0xff, 0x59, // stored, final: "Y"
    ];
    let crc = crc32fast::hash(b"XY");
    input.extend_from_slice(&crc.to_le_bytes());
    input.extend_from_slice(&2u32.to_le_bytes());
    let out = decompress(input).0.unwrap();
    assert_eq!(out, b"XY".to_vec());
}
