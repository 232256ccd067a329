use gunzip::{
    expand_dictionary, BitReader, Code, CodeBook, Error, HuffmanDecoder, SlidingWindow,
    MAX_DISTANCE, WINDOW_SIZE,
};

fn reverse16(mut bits: u32) -> u32 {
    bits = (bits & 0xFF00) >> 8 | (bits & 0x00FF) << 8;
    bits = (bits & 0xF0F0) >> 4 | (bits & 0x0F0F) << 4;
    bits = (bits & 0xCCCC) >> 2 | (bits & 0x3333) << 2;
    bits = (bits & 0xAAAA) >> 1 | (bits & 0x5555) << 1;
    bits
}

#[test]
fn bitreader_reads_lsb_first() {
    let mut r = BitReader::new(vec![0b1010_0110, 0xFF, 0x00, 0x01, 0x02]);
    assert_eq!(r.read_bits(3).unwrap(), 0b110);
    assert_eq!(r.read_bits(5).unwrap(), 0b10100);
    assert_eq!(r.read_bits(8).unwrap(), 0xFF);
}

#[test]
fn bitreader_byte_align() {
    let mut r = BitReader::new(vec![0xAB, 0xCD, 0x11, 0x22, 0x33]);
    assert_eq!(r.read_bits(3).unwrap(), 0xAB & 7);
    r.byte_align();
    assert_eq!(r.read_bits(8).unwrap(), 0xCD);
    r.byte_align();
    let rest = r.read_exact(3).unwrap();
    assert_eq!(rest, vec![0x11, 0x22, 0x33]);
}

#[test]
fn bitreader_peek_needs_four_bytes() {
    let mut r = BitReader::new(vec![1, 2, 3]);
    assert_eq!(r.read_bits(8).unwrap_err(), Error::UnexpectedEof);
}

#[test]
fn bitreader_read_until() {
    let mut r = BitReader::new(vec![b'a', b'b', 0, b'c', b'd']);
    let mut buf = Vec::new();
    let n = r.read_until(0, &mut buf);
    assert_eq!(n, 3);
    assert_eq!(buf, vec![b'a', b'b', 0]);
    let mut rest = Vec::new();
    let n = r.read_until(0, &mut rest);
    assert_eq!(n, 2);
    assert_eq!(rest, vec![b'c', b'd']);
}

#[test]
fn codebook_rfc_example() {
    // the worked example of RFC 1951 section 3.2.2
    let lengths = [3u32, 3, 3, 3, 3, 2, 4, 4];
    let cb = CodeBook::new(&lengths).unwrap();
    let expect = [
        (0b010u32, 3u32),
        (0b011, 3),
        (0b100, 3),
        (0b101, 3),
        (0b110, 3),
        (0b00, 2),
        (0b1110, 4),
        (0b1111, 4),
    ];
    for (s, e) in expect.iter().enumerate() {
        assert_eq!(cb.get(s), *e);
    }
    assert_eq!(cb.max_length(), 4);
}

#[test]
fn codebook_rejects_bad_lengths() {
    assert_eq!(CodeBook::new(&[]).err().unwrap(), Error::InvalidCodeLengths);
    assert_eq!(CodeBook::new(&[16]).err().unwrap(), Error::InvalidCodeLengths);
    let too_many = vec![1u32; 290];
    assert_eq!(
        CodeBook::new(too_many.as_slice()).err().unwrap(),
        Error::InvalidCodeLengths
    );
}

#[test]
fn huffman_roundtrip_fixed_ll() {
    // every symbol of the fixed literal/length book decodes back to itself
    // when its code is fed to the table reversed, first bit lowest
    let cb = CodeBook::default_ll();
    let mut codes = Vec::new();
    for s in 0..cb.len() {
        codes.push(cb.get(s));
    }
    let decoder = HuffmanDecoder::new(CodeBook::default_ll());
    for (s, (code, len)) in codes.iter().enumerate() {
        let stream = reverse16(*code) >> (16 - len);
        let (sym, l) = decoder.decode(stream).unwrap();
        assert_eq!(sym as usize, s);
        assert_eq!(l, *len);
    }
}

#[test]
fn huffman_roundtrip_two_level() {
    // a book with codes longer than nine bits exercises the secondary tables
    let mut lengths = vec![1u32];
    for _ in 0..4 {
        lengths.push(12);
    }
    // 1, 12, 12, 12, 12 is not complete; decode still finds each symbol
    let cb = CodeBook::new(lengths.as_slice()).unwrap();
    let mut codes = Vec::new();
    for s in 0..cb.len() {
        codes.push(cb.get(s));
    }
    let decoder = HuffmanDecoder::new(CodeBook::new(lengths.as_slice()).unwrap());
    for (s, (code, len)) in codes.iter().enumerate() {
        let stream = reverse16(*code) >> (16 - len);
        let (sym, l) = decoder.decode(stream).unwrap();
        assert_eq!(sym as usize, s);
        assert_eq!(l, *len);
    }
}

#[test]
fn huffman_unknown_code_fails() {
    let decoder = HuffmanDecoder::uninitialized();
    assert_eq!(
        decoder.decode(0).unwrap_err(),
        Error::HuffmanDecoderCodeNotFound
    );
}

#[test]
fn expand_overlapping_run() {
    // literal A then Dictionary{distance: 1, length: 5} spells AAAAAA
    let mut window = vec![0u8; 300];
    window[0] = b'A';
    let next = expand_dictionary(&mut window, 1, 1, 5).unwrap();
    assert_eq!(next, 6);
    assert_eq!(&window[0..6], b"AAAAAA");
}

#[test]
fn expand_plain_copy() {
    let mut window = vec![0u8; 300];
    window[0] = b'x';
    window[1] = b'y';
    window[2] = b'z';
    let next = expand_dictionary(&mut window, 3, 3, 3).unwrap();
    assert_eq!(next, 6);
    assert_eq!(&window[0..6], b"xyzxyz");
}

#[test]
fn expand_distance_too_far() {
    let mut window = vec![0u8; 300];
    assert_eq!(
        expand_dictionary(&mut window, 2, 3, 3).unwrap_err(),
        Error::DistanceTooMuch
    );
}

#[test]
fn window_slides_history_down() {
    let mut w = SlidingWindow::new();
    assert_eq!(w.boundary(), 0);
    let max = MAX_DISTANCE as usize;
    w.slide(max - 1);
    assert_eq!(w.boundary(), max - 1);
    // mark the byte just below the cursor and slide past the threshold
    w.data[max - 2] = 7;
    w.data[max + 1] = 9;
    w.slide(3);
    assert_eq!(w.boundary(), max);
    // the most recent 32 KiB was moved down by two
    assert_eq!(w.data[max - 4], 7);
    assert_eq!(w.data[max - 1], 9);
    assert_eq!(w.buffer().len(), WINDOW_SIZE);
}

#[test]
fn window_keeps_write_region() {
    let mut w = SlidingWindow::new();
    w.slide(20000);
    w.slide(20000);
    assert!(w.boundary() <= MAX_DISTANCE as usize);
    assert!(WINDOW_SIZE - w.boundary() >= 2 * MAX_DISTANCE as usize);
}

#[test]
fn decode_reads_codes_from_stream() {
    // fixed book, stream holding 'H' then end-of-block:
    // 'H' = 0x48 has the 8-bit code 0x30 + 0x48 = 0x78; EOB is 0000000
    let mut bits = Vec::new();
    let mut acc: u32 = 0;
    let mut nbits = 0;
    for (code, len) in [(0x78u32, 8u32), (0u32, 7u32)] {
        for i in 0..len {
            let bit = (code >> (len - 1 - i)) & 1;
            acc |= bit << nbits;
            nbits += 1;
            if nbits == 8 {
                bits.push(acc as u8);
                acc = 0;
                nbits = 0;
            }
        }
    }
    if nbits > 0 {
        bits.push(acc as u8);
    }
    bits.extend_from_slice(&[0, 0, 0, 0]);
    let mut reader = BitReader::new(bits);
    let ll = HuffmanDecoder::new(CodeBook::default_ll());
    let dist = HuffmanDecoder::new(CodeBook::default_dist());
    let code = gunzip::read_next_code(&mut reader, &ll, &dist).unwrap();
    assert_eq!(code, Code::Literal(b'H'));
    let code = gunzip::read_next_code(&mut reader, &ll, &dist).unwrap();
    assert_eq!(code, Code::EndOfBlock);
}
