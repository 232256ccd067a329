//! A verified gzip (RFC 1952) decompressor for DEFLATE (RFC 1951) payloads.
//!
//! A `Producer` pulls bits from an in-memory stream and emits one event per
//! call: a member header, a chunk of decompressed bytes, or a trailer. A
//! `Consumer` folds those events into the output while checking each
//! member's CRC32 and size. `decompress` drives the two in one loop.
use vstd::prelude::*;

mod bitread;
mod checksum;
mod codebook;
mod error;
mod footer;
mod header;
mod huffman_decoder;
mod inflate;
mod lz77;
mod producer;
mod sliding_window;

pub use bitread::BitReader;
pub use checksum::{crc32_of, Crc32Checksum};
pub use codebook::{CodeBook, MAX_CODELENGTH, MAX_LL_SYMBOL};
pub use error::Error;
pub use footer::Footer;
pub use header::Header;
pub use huffman_decoder::{HuffmanDecoder, NUM_BITS_FIRST_LOOKUP};
pub use inflate::{read_dynamic_codebooks, Inflate};
pub use lz77::{decode, expand_dictionary, read_next_code, Code, DecodeResult, END_OF_BLOCK, MAX_LENGTH};
pub use producer::{
    block_owed_ok, data_event_ok, footer_event_ok, header_event_ok, huffman_owed_ok, produce_rest,
    Produce, Producer, State,
};
pub use sliding_window::{SlidingWindow, MAX_DISTANCE, WINDOW_SIZE};

verus! {

/// One step of the consumer, as a function on its state: the bytes of the
/// current member fed to the checksum so far, the byte count of the current
/// member, and the output written so far. A header changes nothing; a data
/// chunk extends all three; a trailer must carry the member's CRC32 and its
/// length modulo 2^32, and starts the next member; an error event surfaces.
pub open spec fn consume_step(
    bytes: Seq<u8>,
    counted: nat,
    out: Seq<u8>,
    event: Produce,
) -> Result<(Seq<u8>, nat, Seq<u8>), Error> {
    match event {
        Produce::Header(_) => Ok((bytes, counted, out)),
        Produce::Data(xs) => Ok((bytes + xs@, (counted + xs@.len()) as nat, out + xs@)),
        Produce::Footer(f) => if crc32_of(bytes) != f.crc32 {
            Err(Error::ChecksumMismatch)
        } else if counted % 0x1_0000_0000 != f.size {
            Err(Error::SizeMismatch)
        } else {
            Ok((Seq::empty(), 0nat, out))
        },
        Produce::Error(e) => Err(e),
    }
}

/// The consumer folded over a whole event sequence.
pub open spec fn consume_seq(
    events: Seq<Produce>,
    bytes: Seq<u8>,
    counted: nat,
    out: Seq<u8>,
) -> Result<(Seq<u8>, nat, Seq<u8>), Error>
    decreases events.len(),
{
    if events.len() == 0 {
        Ok((bytes, counted, out))
    } else {
        match consume_step(bytes, counted, out, events[0]) {
            Ok(st) => consume_seq(events.drop_first(), st.0, st.1, st.2),
            Err(e) => Err(e),
        }
    }
}

/// Consuming a stream of events in stages gives the same outcome as
/// consuming it at once: however a FIFO chunks the events in time — all at
/// once on one thread, or one by one across a channel — the result is the
/// same fold.
pub proof fn lemma_consume_split(
    first: Seq<Produce>,
    second: Seq<Produce>,
    bytes: Seq<u8>,
    counted: nat,
    out: Seq<u8>,
)
    ensures
        consume_seq(first + second, bytes, counted, out) == match consume_seq(
            first,
            bytes,
            counted,
            out,
        ) {
            Ok(st) => consume_seq(second, st.0, st.1, st.2),
            Err(e) => Err(e),
        },
    decreases first.len(),
{
    if first.len() == 0 {
        assert(first + second =~= second);
    } else {
        assert((first + second)[0] == first[0]);
        assert((first + second).drop_first() =~= first.drop_first() + second);
        match consume_step(bytes, counted, out, first[0]) {
            Ok(st) => {
                lemma_consume_split(first.drop_first(), second, st.0, st.1, st.2);
            },
            Err(_) => {},
        }
    }
}

/// The output a stream of events appends does not depend on what was
/// already written: consuming onto any prior output only appends what
/// consuming onto an empty output would produce, and fails the same way.
pub proof fn lemma_consume_appends(events: Seq<Produce>, bytes: Seq<u8>, counted: nat, out: Seq<u8>)
    ensures
        match (consume_seq(events, bytes, counted, out), consume_seq(
            events,
            bytes,
            counted,
            Seq::empty(),
        )) {
            (Ok(st), Ok(st0)) => st.0 == st0.0 && st.1 == st0.1 && st.2 == out + st0.2,
            (Err(e1), Err(e2)) => e1 == e2,
            _ => false,
        },
    decreases events.len(),
{
    if events.len() == 0 {
        assert(out + Seq::<u8>::empty() =~= out);
    } else {
        match events[0] {
            Produce::Header(_) => {
                lemma_consume_appends(events.drop_first(), bytes, counted, out);
            },
            Produce::Data(xs) => {
                lemma_consume_appends(
                    events.drop_first(),
                    bytes + xs@,
                    (counted + xs@.len()) as nat,
                    out + xs@,
                );
                lemma_consume_appends(
                    events.drop_first(),
                    bytes + xs@,
                    (counted + xs@.len()) as nat,
                    xs@,
                );
                match consume_seq(events.drop_first(), bytes + xs@, (counted + xs@.len()) as nat, xs@) {
                    Ok(st0) => {
                        assert((out + xs@) + st0.2.skip(xs@.len() as int) =~= out + st0.2);
                    },
                    Err(_) => {},
                }
            },
            Produce::Footer(f) => {
                if crc32_of(bytes) == f.crc32 && counted % 0x1_0000_0000 == f.size {
                    lemma_consume_appends(events.drop_first(), Seq::empty(), 0nat, out);
                }
            },
            Produce::Error(_) => {},
        }
    }
}

/// Concatenation: when the events of one stream end with every member
/// complete — nothing fed to the checksum and nothing counted since the
/// last trailer — consuming them followed by a second stream's events
/// yields the first output with the second appended, and fails exactly
/// when consuming the second stream alone fails.
pub proof fn lemma_concatenation(first: Seq<Produce>, second: Seq<Produce>)
    requires
        consume_seq(first, Seq::empty(), 0nat, Seq::empty()) matches Ok(st) && st.0
            == Seq::<u8>::empty() && st.1 == 0,
    ensures
        match (consume_seq(first + second, Seq::empty(), 0nat, Seq::empty()), consume_seq(
            first,
            Seq::empty(),
            0nat,
            Seq::empty(),
        ), consume_seq(second, Seq::empty(), 0nat, Seq::empty())) {
            (Ok(st), Ok(st1), Ok(st2)) => st.2 == st1.2 + st2.2,
            (Err(e), Ok(_), Err(e2)) => e == e2,
            (_, Err(_), _) => false,
            _ => false,
        },
{
    lemma_consume_split(first, second, Seq::empty(), 0nat, Seq::empty());
    let st1 = consume_seq(first, Seq::empty(), 0nat, Seq::empty())->Ok_0;
    lemma_consume_appends(second, Seq::empty(), 0nat, st1.2);
}

/// The checksum-verifying side of the pipeline: it feeds data chunks into a
/// running CRC32 and byte counter and holds each member's trailer to them.
pub struct Consumer {
    checksum: Crc32Checksum,
}

impl Consumer {
    /// The bytes of the current member consumed so far.
    pub closed spec fn bytes(self) -> Seq<u8> {
        self.checksum.bytes()
    }

    /// How many bytes of the current member were counted so far.
    pub closed spec fn counted(self) -> nat {
        self.checksum.counted()
    }

    pub closed spec fn wf(self) -> bool {
        self.checksum.wf()
    }

    pub fn new() -> (r: Self)
        ensures
            r.wf(),
            r.bytes() == Seq::<u8>::empty(),
            r.counted() == 0,
            crc32_of(Seq::<u8>::empty()) == 0,
    {
        Consumer { checksum: Crc32Checksum::new() }
    }

    /// Take one event. A data chunk comes back to be written to the output;
    /// a trailer that does not match the member's bytes fails with
    /// `ChecksumMismatch` or `SizeMismatch`; an error event surfaces as the
    /// error it carries.
    pub fn accept(&mut self, event: Produce) -> (r: Result<Option<Vec<u8>>, Error>)
        requires
            old(self).wf(),
        ensures
            final(self).wf(),
            match event {
                Produce::Header(_) => {
                    &&& r is Ok
                    &&& r->Ok_0 is None
                    &&& final(self).bytes() == old(self).bytes()
                    &&& final(self).counted() == old(self).counted()
                },
                Produce::Data(xs) => {
                    &&& r == Ok::<Option<Vec<u8>>, Error>(Some(xs))
                    &&& final(self).bytes() == old(self).bytes() + xs@
                    &&& final(self).counted() == old(self).counted() + xs@.len()
                },
                Produce::Footer(f) => {
                    &&& (crc32_of(old(self).bytes()) != f.crc32 <==> r == Err::<
                        Option<Vec<u8>>,
                        Error,
                    >(Error::ChecksumMismatch))
                    &&& (crc32_of(old(self).bytes()) == f.crc32 && old(self).counted()
                        % 0x1_0000_0000 != f.size <==> r == Err::<Option<Vec<u8>>, Error>(
                        Error::SizeMismatch,
                    ))
                    &&& (crc32_of(old(self).bytes()) == f.crc32 && old(self).counted()
                        % 0x1_0000_0000 == f.size ==> {
                        &&& r is Ok
                        &&& r->Ok_0 is None
                        &&& final(self).bytes() == Seq::<u8>::empty()
                        &&& final(self).counted() == 0
                    })
                },
                Produce::Error(e) => r == Err::<Option<Vec<u8>>, Error>(e),
            },
    {
        match event {
            Produce::Header(_) => Ok(None),
            Produce::Data(xs) => {
                self.checksum.update(xs.as_slice());
                Ok(Some(xs))
            },
            Produce::Footer(f) => {
                let c = self.checksum.checksum();
                if c != f.crc32 {
                    return Err(Error::ChecksumMismatch);
                }
                let n = self.checksum.len();
                if n != f.size as u64 {
                    return Err(Error::SizeMismatch);
                }
                self.checksum.reset_len();
                Ok(None)
            },
            Produce::Error(e) => Err(e),
        }
    }
}

/// Consume a whole event sequence: the result is exactly the fold
/// `consume_seq` over the events, starting from a fresh member.
pub fn consume_events(events: Vec<Produce>) -> (r: Result<Vec<u8>, Error>)
    ensures
        r is Ok ==> (consume_seq(events@, Seq::empty(), 0nat, Seq::empty()) matches Ok(st)
            && st.2 == r->Ok_0@),
        r is Err ==> consume_seq(events@, Seq::empty(), 0nat, Seq::empty()) == Err::<
            (Seq<u8>, nat, Seq<u8>),
            Error,
        >(r->Err_0),
{
    let ghost all = events@;
    let mut remaining = events;
    let mut consumer = Consumer::new();
    let mut out: Vec<u8> = Vec::new();
    loop
        invariant
            all == events@,
            consumer.wf(),
            consume_seq(all, Seq::empty(), 0nat, Seq::empty()) == consume_seq(
                remaining@,
                consumer.bytes(),
                consumer.counted(),
                out@,
            ),
        decreases remaining@.len(),
    {
        if remaining.len() == 0 {
            return Ok(out);
        }
        let event = remaining.remove(0);
        match consumer.accept(event) {
            Ok(Some(mut xs)) => {
                out.append(&mut xs);
            },
            Ok(None) => {},
            Err(e) => {
                return Err(e);
            },
        }
    }
}

/// Decompress a gzip stream held in memory, verifying each member's CRC32
/// and size. The ghost component is the event sequence the producer emitted;
/// the result is exactly its fold, so driving the same events through a
/// queue to another thread gives the same outcome.
#[verifier::rlimit(100)]
#[verifier::spinoff_prover]
pub fn decompress(input: Vec<u8>) -> (r: (Result<Vec<u8>, Error>, Ghost<Seq<Produce>>))
    ensures
        r.0 is Ok ==> (consume_seq(r.1@, Seq::empty(), 0nat, Seq::empty()) matches Ok(st) && st.2
            == r.0->Ok_0@),
        r.0 is Err ==> consume_seq(r.1@, Seq::empty(), 0nat, Seq::empty()) == Err::<
            (Seq<u8>, nat, Seq<u8>),
            Error,
        >(r.0->Err_0),
        input@.len() == 0 ==> r.0 == Err::<Vec<u8>, Error>(Error::EmptyInput),
        ({
            let pr = produce_rest(
                input@,
                State::Header,
                0,
                Seq::new(WINDOW_SIZE as nat, |i: int| 0u8),
                0,
                Seq::<(u32, u32)>::empty(),
                Seq::<(u32, u32)>::empty(),
                false,
                Seq::<u8>::empty(),
                Seq::<u8>::empty(),
            );
            pr matches Some(res) ==> match (res, r.0) {
                (Ok(o), Ok(v)) => v@ == o,
                (Err(e1), Err(e2)) => e1 == e2,
                _ => false,
            }
        }),
{
    let mut producer = Producer::new(input);
    let mut consumer = Consumer::new();
    let mut out: Vec<u8> = Vec::new();
    let ghost mut emitted: Seq<Produce> = Seq::empty();
    let ghost pr0 = produce_rest(
        input@,
        State::Header,
        0,
        Seq::new(WINDOW_SIZE as nat, |i: int| 0u8),
        0,
        Seq::<(u32, u32)>::empty(),
        Seq::<(u32, u32)>::empty(),
        false,
        Seq::<u8>::empty(),
        Seq::<u8>::empty(),
    );
    loop
        invariant
            producer.wf(),
            consumer.wf(),
            producer.input() == input@,
            emitted.len() == 0 ==> producer.state() is Header && producer.member_idx() == 0
                && producer.pos() == 0,
            input@.len() == 0 ==> emitted.len() == 0,
            consumer.counted() == consumer.bytes().len(),
            consume_seq(emitted, Seq::empty(), 0nat, Seq::empty()) == Ok::<
                (Seq<u8>, nat, Seq<u8>),
                Error,
            >((consumer.bytes(), consumer.counted(), out@)),
            pr0 == produce_rest(
                input@,
                State::Header,
                0,
                Seq::new(WINDOW_SIZE as nat, |i: int| 0u8),
                0,
                Seq::<(u32, u32)>::empty(),
                Seq::<(u32, u32)>::empty(),
                false,
                Seq::<u8>::empty(),
                Seq::<u8>::empty(),
            ),
            pr0 matches Some(_) ==> pr0 == crate::producer::rest_of(
                producer,
                consumer.bytes(),
                out@,
            ),
        decreases 8 * producer.input().len() - producer.pos(),
    {
        proof {
            producer.lemma_pos_bound();
        }
        let ghost ppre = producer;
        let ghost cb_pre = consumer.bytes();
        let ghost out_pre = out@;
        let event = match producer.next() {
            None => {
                proof {
                    if pr0 matches Some(_) {
                        crate::producer::lemma_none_step(ppre, cb_pre, out_pre);
                    }
                }
                return (Ok(out), Ghost(emitted));
            },
            Some(e) => e,
        };
        let ghost ppost = producer;
        let ghost ev = event;
        let ghost before = emitted;
        let ghost st = (consumer.bytes(), consumer.counted(), out@);
        proof {
            emitted = emitted + seq![event];
            lemma_consume_split(before, seq![event], Seq::empty(), 0nat, Seq::empty());
            ppost.lemma_pos_bound();
        }
        match consumer.accept(event) {
            Ok(Some(mut xs)) => {
                out.append(&mut xs);
            },
            Ok(None) => {},
            Err(e) => {
                proof {
                    if pr0 matches Some(_) {
                        match ev {
                            Produce::Error(e2) => {
                                crate::producer::lemma_error_step(ppre, e2, cb_pre, out_pre);
                            },
                            Produce::Footer(f) => {
                                crate::producer::lemma_footer_step(ppre, ppost, f, cb_pre, out_pre);
                            },
                            _ => {},
                        }
                        assert(pr0 == Some(Err::<Seq<u8>, Error>(e)));
                    }
                }
                return (Err(e), Ghost(emitted));
            },
        }
        proof {
            assert(consume_seq(seq![ev], st.0, st.1, st.2) == consume_seq(
                seq![ev].drop_first(),
                consumer.bytes(),
                consumer.counted(),
                out@,
            ));
            assert(seq![ev].drop_first() =~= Seq::<Produce>::empty());
            producer.lemma_pos_bound();
            if pr0 matches Some(_) {
                match ev {
                    Produce::Header(h) => {
                        crate::producer::lemma_header_step(ppre, ppost, h, cb_pre, out_pre);
                    },
                    Produce::Data(chunk) => {
                        crate::producer::lemma_data_step(ppre, ppost, chunk@, cb_pre, out_pre);
                        assert(out@ == out_pre + chunk@);
                    },
                    Produce::Footer(f) => {
                        crate::producer::lemma_footer_step(ppre, ppost, f, cb_pre, out_pre);
                    },
                    Produce::Error(_) => {},
                }
                assert(pr0 == crate::producer::rest_of(producer, consumer.bytes(), out@));
            }
        }
    }
}

} // verus!
