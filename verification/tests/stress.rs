use gunzip::{decompress, Produce, Producer};

/// Packs bits least-significant-first into bytes, as DEFLATE stores them.
struct Packer {
    bytes: Vec<u8>,
    acc: u32,
    nbits: u32,
}

impl Packer {
    fn new(bytes: Vec<u8>) -> Self {
        Packer { bytes, acc: 0, nbits: 0 }
    }

    fn value(&mut self, v: u32, n: u32) {
        for i in 0..n {
            self.bit((v >> i) & 1);
        }
    }

    fn code(&mut self, c: u32, n: u32) {
        for i in 0..n {
            self.bit((c >> (n - 1 - i)) & 1);
        }
    }

    fn bit(&mut self, b: u32) {
        self.acc |= b << self.nbits;
        self.nbits += 1;
        if self.nbits == 8 {
            self.bytes.push(self.acc as u8);
            self.acc = 0;
            self.nbits = 0;
        }
    }

    fn align(&mut self) {
        if self.nbits > 0 {
            self.bytes.push(self.acc as u8);
            self.acc = 0;
            self.nbits = 0;
        }
    }
}

fn member_header() -> Vec<u8> {
    vec![0x1f, 0x8b, 0x08, 0x00, 0x00, 0x00, 0x00, 0x00, 0x00, 0x03]
}

#[test]
fn long_run_slides_the_window() {
    // one literal 'a' and three hundred copies of the longest possible run
    // at distance one: far more than one window's write region holds, so
    // the output crosses several slides and data chunks
    let mut p = Packer::new(member_header());
    p.value(0b011, 3); // final, fixed Huffman
    p.code(0x30 + 0x61, 8); // literal 'a'
    for _ in 0..300 {
        p.code(0b11000101, 8); // length symbol 285: 258 bytes
        p.code(0b00000, 5); // distance symbol 0: distance 1
    }
    p.code(0, 7); // end of block
    p.align();
    let expected = vec![0x61u8; 1 + 300 * 258];
    let mut input = p.bytes;
    input.extend_from_slice(&crc32fast::hash(&expected).to_le_bytes());
    input.extend_from_slice(&(expected.len() as u32).to_le_bytes());

    let out = decompress(input).0.unwrap();
    assert_eq!(out, expected);
}

#[test]
fn far_back_reference_across_slides() {
    // write 40000 distinct-ish bytes as stored data, then a fixed block
    // referencing 30000 bytes back: the history must survive the slide
    let mut data = Vec::new();
    let mut x: u32 = 1;
    for _ in 0..40000 {
        x = x.wrapping_mul(1103515245).wrapping_add(12345);
        data.push((x >> 16) as u8);
    }
    let mut input = member_header();
    // one stored block, not final
    input.push(0x00);
    input.extend_from_slice(&(40000u16).to_le_bytes());
    input.extend_from_slice(&(!40000u16).to_le_bytes());
    input.extend_from_slice(&data);
    // fixed block: one run of length 258 at distance 30000, then end
    let mut p = Packer::new(input);
    p.value(0b011, 3);
    p.code(0b11000101, 8); // length 258
    p.code(0b11101, 5); // distance symbol 29: base 24577, 13 extra bits
    p.value(30000 - 24577, 13);
    p.code(0, 7);
    p.align();
    let mut expected = data.clone();
    for _ in 0..258 {
        let j = expected.len() - 30000;
        expected.push(expected[j]);
    }
    let mut input = p.bytes;
    input.extend_from_slice(&crc32fast::hash(&expected).to_le_bytes());
    input.extend_from_slice(&(expected.len() as u32).to_le_bytes());

    let out = decompress(input).0.unwrap();
    assert_eq!(out, expected);
}

#[test]
fn producer_emits_header_data_footer_in_order() {
    let mut p = Packer::new(member_header());
    p.value(0b011, 3);
    p.code(0x30 + 0x68, 8); // 'h'
    p.code(0x30 + 0x69, 8); // 'i'
    p.code(0, 7);
    p.align();
    let mut input = p.bytes;
    input.extend_from_slice(&crc32fast::hash(b"hi").to_le_bytes());
    input.extend_from_slice(&2u32.to_le_bytes());

    let mut producer = Producer::new(input);
    let mut kinds = Vec::new();
    loop {
        match producer.next() {
            None => break,
            Some(Produce::Header(_)) => kinds.push("header"),
            Some(Produce::Data(d)) => {
                if !d.is_empty() {
                    kinds.push("data");
                }
            }
            Some(Produce::Footer(f)) => {
                assert_eq!(f.crc32, crc32fast::hash(b"hi"));
                assert_eq!(f.size, 2);
                kinds.push("footer");
            }
            Some(Produce::Error(e)) => panic!("unexpected error {:?}", e),
        }
    }
    assert_eq!(kinds, vec!["header", "data", "footer"]);
}

#[test]
fn header_optional_fields() {
    // FEXTRA, FNAME, FCOMMENT and FHCRC all present before a stored block
    let mut input = vec![
        0x1f, 0x8b, 0x08, 0x02 | 0x04 | 0x08 | 0x10, 0x00, 0x00, 0x00, 0x00, 0x00, 0x03,
    ];
    input.extend_from_slice(&3u16.to_le_bytes()); // XLEN
    input.extend_from_slice(b"ex!");
    input.extend_from_slice(b"name\0");
    input.extend_from_slice(b"comment\0");
    input.extend_from_slice(&[0xAA, 0xBB]); // header CRC16, not checked
    input.extend_from_slice(&[0x01, 0x01, 0x00, 0xfe, 0xff, 0x51]); // stored "Q"
    input.extend_from_slice(&crc32fast::hash(b"Q").to_le_bytes());
    input.extend_from_slice(&1u32.to_le_bytes());

    let out = decompress(input.clone()).0.unwrap();
    assert_eq!(out, b"Q".to_vec());

    let mut producer = Producer::new(input);
    match producer.next() {
        Some(Produce::Header(h)) => {
            assert_eq!(h.extra_field.unwrap(), b"ex!".to_vec());
            assert_eq!(h.name.unwrap(), b"name\0".to_vec());
            assert_eq!(h.comment.unwrap(), b"comment\0".to_vec());
            assert_eq!(h.crc16.unwrap(), 0xBBAA);
            assert_eq!(h.size, 10 + 5 + 5 + 8 + 2);
        }
        _ => panic!("expected a header event"),
    }
}
