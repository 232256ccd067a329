use gunzip::{decompress, Error};

fn member_header() -> Vec<u8> {
    vec![0x1f, 0x8b, 0x08, 0x00, 0x00, 0x00, 0x00, 0x00, 0x00, 0x03]
}

/// Packs bits least-significant-first into bytes, as DEFLATE stores them.
struct BitSink {
    bytes: Vec<u8>,
    acc: u32,
    nbits: u32,
}

impl BitSink {
    fn new(bytes: Vec<u8>) -> Self {
        BitSink { bytes, acc: 0, nbits: 0 }
    }

    fn value(&mut self, v: u32, n: u32) {
        for i in 0..n {
            self.bit((v >> i) & 1);
        }
    }

    fn code(&mut self, c: u32, n: u32) {
        for i in 0..n {
            self.bit((c >> (n - 1 - i)) & 1);
        }
    }

    fn bit(&mut self, b: u32) {
        self.acc |= b << self.nbits;
        self.nbits += 1;
        if self.nbits == 8 {
            self.bytes.push(self.acc as u8);
            self.acc = 0;
            self.nbits = 0;
        }
    }

    fn finish(mut self) -> Vec<u8> {
        if self.nbits > 0 {
            self.bytes.push(self.acc as u8);
        }
        // room for the reader's four-byte look-ahead
        self.bytes.extend_from_slice(&[0, 0, 0, 0, 0, 0, 0, 0]);
        self.bytes
    }
}

#[test]
fn empty_input() {
    assert_eq!(decompress(Vec::new()).0.unwrap_err(), Error::EmptyInput);
}

#[test]
fn invalid_magic() {
    let mut input = member_header();
    input[0] = 0x1e;
    input.extend_from_slice(&[0; 16]);
    assert_eq!(decompress(input).0.unwrap_err(), Error::InvalidGzHeader);
}

#[test]
fn invalid_method() {
    let mut input = member_header();
    input[2] = 7;
    input.extend_from_slice(&[0; 16]);
    assert_eq!(decompress(input).0.unwrap_err(), Error::InvalidGzHeader);
}

#[test]
fn reserved_flag_bits() {
    let mut input = member_header();
    input[3] = 0x20;
    input.extend_from_slice(&[0; 16]);
    assert_eq!(decompress(input).0.unwrap_err(), Error::InvalidGzHeader);
}

#[test]
fn invalid_block_type() {
    let mut sink = BitSink::new(member_header());
    sink.value(0b111, 3); // final, BTYPE 11
    let input = sink.finish();
    assert_eq!(decompress(input).0.unwrap_err(), Error::InvalidBlockType);
}

#[test]
fn stored_len_mismatch() {
    let mut input = member_header();
    input.extend_from_slice(&[0x01, 0x01, 0x00, 0xfd, 0xff, 0x41]);
    input.extend_from_slice(&[0; 8]);
    assert_eq!(
        decompress(input).0.unwrap_err(),
        Error::BlockType0LenMismatch
    );
}

#[test]
fn truncated_stream() {
    let mut input = member_header();
    input.extend_from_slice(&[0x01, 0x01]);
    assert_eq!(decompress(input).0.unwrap_err(), Error::UnexpectedEof);
}

#[test]
fn dynamic_repeat_without_prior_length() {
    // a dynamic block whose first code-length symbol is 16: repeat with
    // nothing to repeat
    let mut sink = BitSink::new(member_header());
    sink.value(0b101, 3); // final, BTYPE 10
    sink.value(0, 5); // HLIT: 257 codes
    sink.value(0, 5); // HDIST: 1 code
    sink.value(0, 4); // HCLEN: 4 entries: symbols 16, 17, 18, 0
    sink.value(1, 3); // symbol 16: length 1
    sink.value(0, 3); // symbol 17: unused
    sink.value(0, 3); // symbol 18: unused
    sink.value(1, 3); // symbol 0: length 1
    // canonical codes: symbol 0 is 0, symbol 16 is 1
    sink.value(1, 1); // decode symbol 16 first
    let input = sink.finish();
    assert_eq!(decompress(input).0.unwrap_err(), Error::ReadDynamicCodebook);
}

#[test]
fn distance_before_output_start() {
    // a fixed block that opens with a back-reference: nothing to copy from
    let mut sink = BitSink::new(member_header());
    sink.value(0b011, 3); // final, BTYPE 01
    sink.code(0b0000001, 7); // length symbol 257: length 3
    sink.code(0b00000, 5); // distance symbol 0: distance 1
    let input = sink.finish();
    assert_eq!(decompress(input).0.unwrap_err(), Error::DistanceTooMuch);
}

#[test]
fn error_text_names_the_kind() {
    let e = Error::ChecksumMismatch;
    assert_eq!(format!("{:?}", e), "ChecksumMismatch");
}
