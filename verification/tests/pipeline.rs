use gunzip::{consume_events, decompress, Consumer, Error, Produce, Producer};

const FOO: [u8; 23] = [
    0x1f, 0x8b, 0x08, 0x00, 0x00, 0x00, 0x00, 0x00, 0x00, 0x03, 0x4b, 0xcb, 0xcf, 0x07, 0x00,
    0x21, 0x65, 0x73, 0x8c, 0x03, 0x00, 0x00, 0x00,
];

const BAR: [u8; 23] = [
    0x1f, 0x8b, 0x08, 0x00, 0x00, 0x00, 0x00, 0x00, 0x00, 0x03, 0x4b, 0x4a, 0x2c, 0x02, 0x00,
    0xaa, 0x8c, 0xff, 0x76, 0x03, 0x00, 0x00, 0x00,
];

fn collect_events(input: Vec<u8>) -> Vec<Produce> {
    let mut producer = Producer::new(input);
    let mut events = Vec::new();
    loop {
        match producer.next() {
            None => return events,
            Some(e) => {
                let stop = matches!(e, Produce::Error(_));
                events.push(e);
                if stop {
                    return events;
                }
            }
        }
    }
}

#[test]
fn two_stage_equals_interleaved() {
    // running the producer to completion first and consuming afterwards
    // (what the two-thread mode amounts to) gives the same output as
    // consuming each event as it is produced
    let mut input = FOO.to_vec();
    input.extend_from_slice(&BAR);
    let interleaved = decompress(input.clone()).0.unwrap();
    let staged = consume_events(collect_events(input)).unwrap();
    assert_eq!(interleaved, staged);
}

#[test]
fn two_stage_equals_interleaved_on_errors() {
    let mut input = FOO.to_vec();
    let n = input.len();
    input[n - 6] ^= 0x10;
    let interleaved = decompress(input.clone()).0.unwrap_err();
    let staged = consume_events(collect_events(input)).unwrap_err();
    assert_eq!(interleaved, staged);
}

#[test]
fn consumer_verifies_crc_and_size() {
    let payload = b"some bytes".to_vec();
    let crc = crc32fast::hash(&payload);
    let len = payload.len() as u32;

    // a good member passes
    let events = vec![
        Produce::Data(payload.clone()),
        Produce::Footer(gunzip::Footer { crc32: crc, size: len }),
    ];
    assert_eq!(consume_events(events).unwrap(), payload);

    // a wrong checksum fails
    let events = vec![
        Produce::Data(payload.clone()),
        Produce::Footer(gunzip::Footer { crc32: crc ^ 1, size: len }),
    ];
    assert_eq!(consume_events(events).unwrap_err(), Error::ChecksumMismatch);

    // a wrong size fails
    let events = vec![
        Produce::Data(payload.clone()),
        Produce::Footer(gunzip::Footer { crc32: crc, size: len + 1 }),
    ];
    assert_eq!(consume_events(events).unwrap_err(), Error::SizeMismatch);
}

#[test]
fn consumer_resets_between_members() {
    let mut consumer = Consumer::new();
    let crc_a = crc32fast::hash(b"aa");
    let crc_b = crc32fast::hash(b"b");
    assert!(consumer.accept(Produce::Data(b"aa".to_vec())).is_ok());
    assert!(consumer
        .accept(Produce::Footer(gunzip::Footer { crc32: crc_a, size: 2 }))
        .is_ok());
    assert!(consumer.accept(Produce::Data(b"b".to_vec())).is_ok());
    assert!(consumer
        .accept(Produce::Footer(gunzip::Footer { crc32: crc_b, size: 1 }))
        .is_ok());
}

#[test]
fn producer_is_spent_after_an_error() {
    // an invalid header fails the first call; afterwards nothing follows
    let mut producer = Producer::new(vec![0u8; 24]);
    assert!(matches!(
        producer.next(),
        Some(Produce::Error(Error::InvalidGzHeader))
    ));
    assert!(producer.next().is_none());
    assert!(producer.next().is_none());
}

#[test]
fn consumer_surfaces_error_events() {
    let events = vec![Produce::Error(Error::InvalidBlockType)];
    assert_eq!(consume_events(events).unwrap_err(), Error::InvalidBlockType);
}

#[test]
fn checksum_wrapper_tracks_external_crc() {
    // the running checksum must match crc32fast fed the same bytes at once
    let mut c = gunzip::Crc32Checksum::new();
    c.update(b"hello ");
    c.update(b"world");
    assert_eq!(c.checksum(), crc32fast::hash(b"hello world"));
    assert_eq!(c.len(), 11);
}
