use vstd::prelude::*;
use crate::bitread::{byte_ceil, le32_at, low_mask, BitReader};
use crate::checksum::crc32_of;
use crate::header::{
    after_comment, after_extra, after_name, le16_at, lemma_header_offsets, valid_fixed_header,
    FCOMMENT, FEXTRA, FHCRC, FNAME,
};
use crate::codebook::{codebook_of, fixed_dist_lengths, fixed_ll_lengths, CodeBook};
use crate::error::Error;
use crate::footer::Footer;
use crate::header::Header;
use crate::huffman_decoder::{rev_prefix_free, HuffmanDecoder};

use crate::inflate::{cl_book_at, dynamic_books_at, slide_spec};
use crate::lz77::{bits_at, decode, lemma_run_codes_frame, run_codes, DecodeResult, MAX_LENGTH};
use crate::sliding_window::{SlidingWindow, WINDOW_SIZE};

verus! {

broadcast use crate::bitread::BitReader::lemma_pos_bounds;

/// What the producer expects to read next.
pub enum State {
    /// A gzip member header, or the end of the stream.
    Header,
    /// A DEFLATE block header.
    Block,
    /// More of a Huffman-coded block; the flag says whether it is the last.
    Inflate(bool),
    /// The eight-byte member trailer.
    Footer,
    /// A step failed; the producer emits nothing further.
    Spent,
}

/// What a header event says of the stream: the ten fixed bytes at the byte
/// position the call started at are a valid member opening, the parsed
/// fields are the bytes of the respective optional fields, and the stream
/// moved just past the header.
pub open spec fn header_event_ok(input: Seq<u8>, pos: int, h: Header, pos2: int) -> bool {
    let start = pos / 8;
    let flg = input[start + 3];
    &&& start + 10 <= input.len()
    &&& valid_fixed_header(input, start)
    &&& h.header@ == input.subrange(start, start + 10)
    &&& (h.extra_field is Some <==> flg & FEXTRA != 0)
    &&& (h.name is Some <==> flg & FNAME != 0)
    &&& (h.comment is Some <==> flg & FCOMMENT != 0)
    &&& (h.crc16 is Some <==> flg & FHCRC != 0)
    &&& (flg & FEXTRA != 0 ==> h.extra_field->Some_0@ == input.subrange(
        start + 12,
        after_extra(input, start),
    ))
    &&& (flg & FNAME != 0 ==> h.name->Some_0@ == input.subrange(
        after_extra(input, start),
        after_name(input, start),
    ))
    &&& (flg & FCOMMENT != 0 ==> h.comment->Some_0@ == input.subrange(
        after_name(input, start),
        after_comment(input, start),
    ))
    &&& (flg & FHCRC != 0 ==> h.crc16->Some_0 == le16_at(input, after_comment(input, start)))
    &&& (flg & FEXTRA != 0 ==> start + 12 + le16_at(input, start + 10) <= input.len())
    &&& (flg & FHCRC != 0 ==> after_comment(input, start) + 2 <= input.len())
    &&& h.size >= 10
    &&& pos2 == 8 * (start + h.size)
    &&& pos2 == 8 * (after_comment(input, start) + (if flg & FHCRC != 0 {
        2int
    } else {
        0int
    }))
}

/// What a footer event says of the stream: its two fields are the two
/// little-endian words at the next byte boundary, and the stream moved just
/// past them.
pub open spec fn footer_event_ok(input: Seq<u8>, pos: int, f: Footer, pos2: int) -> bool {
    let start = byte_ceil(pos);
    &&& start + 8 <= input.len()
    &&& f.crc32 == le32_at(input, start)
    &&& f.size == le32_at(input, start + 4)
    &&& pos2 == 8 * (start + 8)
}

/// One event of the decompression stream.
pub enum Produce {
    Header(Header),
    Footer(Footer),
    Data(Vec<u8>),
    Error(Error),
}

/// What one Huffman decoding round says of the stream: under prefix-free
/// books the bytes are exactly what `run_codes` writes past the window
/// cursor, the stream moved to where it stopped, the window slid past the
/// new bytes, and the state says whether the block ended.
pub open spec fn inflate_data_ok(
    input: Seq<u8>,
    pos: int,
    llc: Seq<(u32, u32)>,
    dc: Seq<(u32, u32)>,
    w: Seq<u8>,
    cur: int,
    is_final: bool,
    cont: State,
    bytes: Seq<u8>,
    post: Producer,
) -> bool {
    rev_prefix_free(llc) && rev_prefix_free(dc) ==> match run_codes(input, pos, llc, dc, w, cur) {
        Ok(st) => {
            &&& bytes == st.0.subrange(cur, st.1)
            &&& post.pos() == st.2
            &&& (post.window(), post.cur()) == slide_spec(st.0, st.1)
            &&& post.state() == (if st.3 {
                if is_final {
                    State::Footer
                } else {
                    State::Block
                }
            } else {
                cont
            })
        },
        Err(_) => false,
    }
}

/// What a stored block's bytes say of the stream: the LEN/NLEN words at the
/// next byte boundary after `pos` complement each other, the bytes are the
/// LEN bytes after them verbatim, the stream moved just past those, and
/// the window slid past a copy of them.
pub open spec fn stored_data_ok(
    input: Seq<u8>,
    pos: int,
    w: Seq<u8>,
    cur: int,
    bytes: Seq<u8>,
    post: Producer,
) -> bool {
    let b0 = byte_ceil(pos);
    let blen = (le32_at(input, b0) & low_mask(16)) as int;
    let bnlen = (le32_at(input, b0 + 2) & low_mask(16)) as int;
    let payload = input.subrange(b0 + 4, b0 + 4 + blen);
    &&& b0 + 6 <= input.len()
    &&& ((blen as u32) ^ (bnlen as u32)) == 0xFFFF
    &&& b0 + 4 + blen <= input.len()
    &&& bytes == payload
    &&& post.pos() == 8 * (b0 + 4 + blen)
    &&& (post.window(), post.cur()) == slide_spec(
        w.subrange(0, cur) + payload + w.skip(cur + blen),
        cur + blen,
    )
}

/// What a data event says of the stream: decoded at the position the call
/// started at — directly for a block in progress, or after the three-bit
/// block header, with the fixed or freshly read dynamic books, for a new
/// block — together with the state, window and books left behind.
pub open spec fn data_event_ok(pre: Producer, post: Producer, bytes: Seq<u8>) -> bool {
    let input = pre.input();
    let pos = pre.pos();
    if pre.state() is Inflate {
        let f = pre.state()->Inflate_0;
        &&& inflate_data_ok(
            input,
            pos,
            pre.ll_codes(),
            pre.dist_codes(),
            pre.window(),
            pre.cur(),
            f,
            pre.state(),
            bytes,
            post,
        )
        &&& post.ll_codes() == pre.ll_codes()
        &&& post.dist_codes() == pre.dist_codes()
    } else {
        let hdr = bits_at(input, pos) & 7;
        let bfinal = hdr & 1 == 1;
        let btype = hdr & 6;
        &&& pos / 8 + 4 <= input.len()
        &&& btype != 6
        &&& (btype == 0 ==> stored_data_ok(input, pos + 3, pre.window(), pre.cur(), bytes, post)
            && post.state() == (if bfinal {
            State::Footer
        } else {
            State::Block
        }) && post.ll_codes() == pre.ll_codes() && post.dist_codes() == pre.dist_codes())
        &&& (btype == 2 ==> inflate_data_ok(
            input,
            pos + 3,
            codebook_of(fixed_ll_lengths()),
            codebook_of(fixed_dist_lengths()),
            pre.window(),
            pre.cur(),
            bfinal,
            State::Inflate(bfinal),
            bytes,
            post,
        ) && post.ll_codes() == codebook_of(fixed_ll_lengths()) && post.dist_codes()
            == codebook_of(fixed_dist_lengths()))
        &&& (btype == 4 ==> (rev_prefix_free(cl_book_at(input, pos + 3)) ==> match dynamic_books_at(
            input,
            pos + 3,
        ) {
            Ok(b) => inflate_data_ok(
                input,
                b.2,
                codebook_of(b.0),
                codebook_of(b.1),
                pre.window(),
                pre.cur(),
                bfinal,
                State::Inflate(bfinal),
                bytes,
                post,
            ) && post.ll_codes() == codebook_of(b.0) && post.dist_codes() == codebook_of(b.1),
            Err(_) => false,
        }))
    }
}

/// The outcome a Huffman decoding round owes: under prefix-free books, a
/// data event when `run_codes` succeeds and exactly its error otherwise.
pub open spec fn huffman_owed_ok(
    input: Seq<u8>,
    pos: int,
    llc: Seq<(u32, u32)>,
    dc: Seq<(u32, u32)>,
    w: Seq<u8>,
    cur: int,
    r: Result<Produce, Error>,
) -> bool {
    rev_prefix_free(llc) && rev_prefix_free(dc) ==> match run_codes(input, pos, llc, dc, w, cur) {
        Ok(_) => (r matches Ok(p) && p is Data),
        Err(e) => r == Err::<Produce, Error>(e),
    }
}

/// The outcome the `Block` state owes once its three header bits can be
/// read: per block type, a data event on well-formed data and the exact
/// error kind otherwise.
pub open spec fn block_owed_ok(pre: Producer, r: Result<Produce, Error>) -> bool {
    let input = pre.input();
    let pos = pre.pos();
    let hdr = bits_at(input, pos) & 7;
    let btype = hdr & 6;
    &&& (btype == 0 ==> {
        let b0 = byte_ceil(pos + 3);
        let blen = (le32_at(input, b0) & low_mask(16)) as int;
        let bnlen = (le32_at(input, b0 + 2) & low_mask(16)) as int;
        &&& (b0 + 6 > input.len() ==> r == Err::<Produce, Error>(Error::UnexpectedEof))
        &&& (b0 + 6 <= input.len() && ((blen as u32) ^ (bnlen as u32)) != 0xFFFF ==> r == Err::<
            Produce,
            Error,
        >(Error::BlockType0LenMismatch))
        &&& (b0 + 6 <= input.len() && ((blen as u32) ^ (bnlen as u32)) == 0xFFFF && b0 + 4 + blen
            > input.len() ==> r == Err::<Produce, Error>(Error::UnexpectedEof))
        &&& (b0 + 6 <= input.len() && ((blen as u32) ^ (bnlen as u32)) == 0xFFFF && b0 + 4 + blen
            <= input.len() ==> (r matches Ok(p) && p is Data))
    })
    &&& (btype == 2 ==> huffman_owed_ok(
        input,
        pos + 3,
        codebook_of(fixed_ll_lengths()),
        codebook_of(fixed_dist_lengths()),
        pre.window(),
        pre.cur(),
        r,
    ))
    &&& (btype == 4 ==> (rev_prefix_free(cl_book_at(input, pos + 3)) ==> match dynamic_books_at(
        input,
        pos + 3,
    ) {
        Err(e) => r == Err::<Produce, Error>(e),
        Ok(b) => huffman_owed_ok(
            input,
            b.2,
            codebook_of(b.0),
            codebook_of(b.1),
            pre.window(),
            pre.cur(),
            r,
        ),
    }))
}

/// A whole gzip stream decoded to completion from a producer state: the
/// verified output bytes, or the first failure's kind — `None` where a book
/// met on the way is not prefix-free, so that nothing is claimed of it.
/// `mb` holds the bytes of the member in progress, against which its
/// trailer is checked.
pub open spec fn produce_rest(
    data: Seq<u8>,
    st: State,
    pos: int,
    w: Seq<u8>,
    cur: int,
    llc: Seq<(u32, u32)>,
    dc: Seq<(u32, u32)>,
    started: bool,
    mb: Seq<u8>,
    out: Seq<u8>,
) -> Option<Result<Seq<u8>, Error>>
    decreases 8 * data.len() - pos
        when 0 <= pos <= 8 * data.len() && w.len() == crate::sliding_window::WINDOW_SIZE && 0
            <= cur <= 32768 && crate::huffman_decoder::codes_wf(llc)
            && crate::huffman_decoder::codes_wf(dc) via produce_rest_dec
{
    match st {
        State::Spent => Some(Ok(out)),
        State::Header => {
            if pos >= 8 * data.len() {
                if started {
                    Some(Ok(out))
                } else {
                    Some(Err(Error::EmptyInput))
                }
            } else {
                let hstart = pos / 8;
                let flg = data[hstart + 3];
                if hstart + 10 > data.len() {
                    Some(Err(Error::UnexpectedEof))
                } else if !valid_fixed_header(data, hstart) {
                    Some(Err(Error::InvalidGzHeader))
                } else if !((flg & FEXTRA != 0 ==> hstart + 12 + le16_at(data, hstart + 10)
                    <= data.len()) && (flg & FHCRC != 0 ==> after_comment(data, hstart) + 2
                    <= data.len())) {
                    Some(Err(Error::UnexpectedEof))
                } else {
                    let hend = after_comment(data, hstart) + if flg & FHCRC != 0 {
                        2int
                    } else {
                        0int
                    };
                    produce_rest(data, State::Block, 8 * hend, w, 0, llc, dc, true, mb, out)
                }
            }
        },
        State::Block => {
            if pos / 8 + 4 > data.len() {
                Some(Err(Error::UnexpectedEof))
            } else {
                let hdr = bits_at(data, pos) & 7;
                let bfinal = hdr & 1 == 1;
                let btype = hdr & 6;
                if btype == 6 {
                    Some(Err(Error::InvalidBlockType))
                } else if btype == 0 {
                    let b0 = byte_ceil(pos + 3);
                    let blen = (le32_at(data, b0) & low_mask(16)) as int;
                    let bnlen = (le32_at(data, b0 + 2) & low_mask(16)) as int;
                    if b0 + 6 > data.len() {
                        Some(Err(Error::UnexpectedEof))
                    } else if ((blen as u32) ^ (bnlen as u32)) != 0xFFFF {
                        Some(Err(Error::BlockType0LenMismatch))
                    } else if b0 + 4 + blen > data.len() {
                        Some(Err(Error::UnexpectedEof))
                    } else {
                        let payload = data.subrange(b0 + 4, b0 + 4 + blen);
                        let slid = crate::inflate::slide_spec(
                            w.subrange(0, cur) + payload + w.skip(cur + blen),
                            cur + blen,
                        );
                        produce_rest(
                            data,
                            if bfinal {
                                State::Footer
                            } else {
                                State::Block
                            },
                            8 * (b0 + 4 + blen),
                            slid.0,
                            slid.1,
                            llc,
                            dc,
                            started,
                            mb + payload,
                            out + payload,
                        )
                    }
                } else if btype == 2 {
                    let fl = codebook_of(fixed_ll_lengths());
                    let fd = codebook_of(fixed_dist_lengths());
                    if !rev_prefix_free(fl) || !rev_prefix_free(fd) {
                        None
                    } else {
                        match run_codes(data, pos + 3, fl, fd, w, cur) {
                            Err(e) => Some(Err(e)),
                            Ok(rst) => {
                                let chunk = rst.0.subrange(cur, rst.1);
                                let slid = crate::inflate::slide_spec(rst.0, rst.1);
                                produce_rest(
                                    data,
                                    if rst.3 {
                                        if bfinal {
                                            State::Footer
                                        } else {
                                            State::Block
                                        }
                                    } else {
                                        State::Inflate(bfinal)
                                    },
                                    rst.2,
                                    slid.0,
                                    slid.1,
                                    fl,
                                    fd,
                                    started,
                                    mb + chunk,
                                    out + chunk,
                                )
                            },
                        }
                    }
                } else {
                    if !rev_prefix_free(cl_book_at(data, pos + 3)) {
                        None
                    } else {
                        match dynamic_books_at(data, pos + 3) {
                            Err(e) => Some(Err(e)),
                            Ok(b) => {
                                let l2 = codebook_of(b.0);
                                let d2 = codebook_of(b.1);
                                if !rev_prefix_free(l2) || !rev_prefix_free(d2) {
                                    None
                                } else {
                                    match run_codes(data, b.2, l2, d2, w, cur) {
                                        Err(e) => Some(Err(e)),
                                        Ok(rst) => {
                                            let chunk = rst.0.subrange(cur, rst.1);
                                            let slid = crate::inflate::slide_spec(rst.0, rst.1);
                                            produce_rest(
                                                data,
                                                if rst.3 {
                                                    if bfinal {
                                                        State::Footer
                                                    } else {
                                                        State::Block
                                                    }
                                                } else {
                                                    State::Inflate(bfinal)
                                                },
                                                rst.2,
                                                slid.0,
                                                slid.1,
                                                l2,
                                                d2,
                                                started,
                                                mb + chunk,
                                                out + chunk,
                                            )
                                        },
                                    }
                                }
                            },
                        }
                    }
                }
            }
        },
        State::Inflate(f) => {
            if !rev_prefix_free(llc) || !rev_prefix_free(dc) {
                None
            } else {
                match run_codes(data, pos, llc, dc, w, cur) {
                    Err(e) => Some(Err(e)),
                    Ok(rst) => {
                        let chunk = rst.0.subrange(cur, rst.1);
                        let slid = crate::inflate::slide_spec(rst.0, rst.1);
                        produce_rest(
                            data,
                            if rst.3 {
                                if f {
                                    State::Footer
                                } else {
                                    State::Block
                                }
                            } else {
                                State::Inflate(f)
                            },
                            rst.2,
                            slid.0,
                            slid.1,
                            llc,
                            dc,
                            started,
                            mb + chunk,
                            out + chunk,
                        )
                    },
                }
            }
        },
        State::Footer => {
            let b0 = byte_ceil(pos);
            if b0 + 8 > data.len() {
                Some(Err(Error::UnexpectedEof))
            } else {
                let fcrc = le32_at(data, b0);
                let fsize = le32_at(data, b0 + 4);
                if crc32_of(mb) != fcrc {
                    Some(Err(Error::ChecksumMismatch))
                } else if mb.len() % 0x1_0000_0000 != fsize {
                    Some(Err(Error::SizeMismatch))
                } else {
                    produce_rest(
                        data,
                        State::Header,
                        8 * (b0 + 8),
                        w,
                        cur,
                        llc,
                        dc,
                        started,
                        Seq::empty(),
                        out,
                    )
                }
            }
        },
    }
}

#[via_fn]
proof fn produce_rest_dec(
    data: Seq<u8>,
    st: State,
    pos: int,
    w: Seq<u8>,
    cur: int,
    llc: Seq<(u32, u32)>,
    dc: Seq<(u32, u32)>,
    started: bool,
    mb: Seq<u8>,
    out: Seq<u8>,
) {
    let len = data.len() as int;
    crate::bitread::lemma_shift_values();
    match st {
        State::Spent => {},
        State::Header => {
            if pos < 8 * len {
                let hstart = pos / 8;
                vstd::arithmetic::div_mod::lemma_fundamental_div_mod(pos, 8);
                if hstart + 10 <= len && valid_fixed_header(data, hstart) {
                    let flg = data[hstart + 3];
                    if (flg & FEXTRA != 0 ==> hstart + 12 + le16_at(data, hstart + 10) <= len) && (
                    flg & FHCRC != 0 ==> after_comment(data, hstart) + 2 <= len) {
                        lemma_header_offsets(data, hstart);
                    }
                }
            }
        },
        State::Block => {
            if pos / 8 + 4 <= len {
                crate::lz77::lemma_peek_pos_bound(pos, len);
                let hdr = bits_at(data, pos) & 7;
                let btype = hdr & 6;
                if btype == 0 {
                    let b0 = byte_ceil(pos + 3);
                    vstd::arithmetic::div_mod::lemma_fundamental_div_mod(pos + 3, 8);
                    assert(8 * b0 >= pos + 3);
                    let v = le32_at(data, b0);
                    assert(v & low_mask(16) <= 0xFFFF) by (bit_vector);
                    let blen = (v & low_mask(16)) as int;
                    if b0 + 6 <= len && b0 + 4 + blen <= len {
                        assert(cur + blen <= w.len());
                        let payload = data.subrange(b0 + 4, b0 + 4 + blen);
                        let spliced = w.subrange(0, cur) + payload + w.skip(cur + blen);
                        assert(spliced.len() == w.len());
                    }
                } else if btype == 2 {
                    let fl = codebook_of(fixed_ll_lengths());
                    let fd = codebook_of(fixed_dist_lengths());
                    assert(crate::huffman_decoder::codes_wf(fl));
                    assert(crate::huffman_decoder::codes_wf(fd));
                    lemma_run_codes_frame(data, pos + 3, fl, fd, w, cur);
                } else if btype != 6 {
                    if rev_prefix_free(cl_book_at(data, pos + 3)) {
                        match dynamic_books_at(data, pos + 3) {
                            Err(_) => {},
                            Ok(b) => {
                                crate::inflate::lemma_dynamic_books_pos(data, pos + 3);
                                lemma_run_codes_frame(
                                    data,
                                    b.2,
                                    codebook_of(b.0),
                                    codebook_of(b.1),
                                    w,
                                    cur,
                                );
                            },
                        }
                    }
                }
            }
        },
        State::Inflate(_) => {
            lemma_run_codes_frame(data, pos, llc, dc, w, cur);
        },
        State::Footer => {
            let b0 = byte_ceil(pos);
            vstd::arithmetic::div_mod::lemma_fundamental_div_mod(pos, 8);
            assert(8 * b0 >= pos);
        },
    }
}


/// A producer's spec-level run, from its own abstract state.
pub open spec fn rest_of(p: Producer, mb: Seq<u8>, out: Seq<u8>) -> Option<Result<Seq<u8>, Error>> {
    produce_rest(
        p.input(),
        p.state(),
        p.pos(),
        p.window(),
        p.cur(),
        p.ll_codes(),
        p.dist_codes(),
        p.member_idx() > 0,
        mb,
        out,
    )
}

/// A clean end of the stream finishes the spec-level run with the output.
pub proof fn lemma_none_step(pre: Producer, mb: Seq<u8>, out: Seq<u8>)
    requires
        pre.wf(),
        pre.state() is Header || pre.state() is Spent,
        pre.state() is Header ==> pre.pos() >= 8 * pre.input().len() && pre.member_idx() > 0,
    ensures
        rest_of(pre, mb, out) == Some(Ok::<Seq<u8>, Error>(out)),
{
    pre.lemma_pos_bound();
}

/// A header event advances the spec-level run by one step.
pub proof fn lemma_header_step(pre: Producer, post: Producer, h: Header, mb: Seq<u8>, out: Seq<u8>)
    requires
        pre.wf(),
        post.wf(),
        pre.state() is Header,
        post.state() is Block,
        post.cur() == 0,
        post.input() == pre.input(),
        post.window() == pre.window(),
        post.ll_codes() == pre.ll_codes(),
        post.dist_codes() == pre.dist_codes(),
        post.member_idx() >= 1,
        header_event_ok(pre.input(), pre.pos(), h, post.pos()),
    ensures
        rest_of(pre, mb, out) == rest_of(post, mb, out),
{
    pre.lemma_pos_bound();
    post.lemma_pos_bound();
}

/// A data event advances the spec-level run by one step, extending the
/// member's bytes and the output by the chunk.
pub proof fn lemma_data_step(pre: Producer, post: Producer, bytes: Seq<u8>, mb: Seq<u8>, out: Seq<u8>)
    requires
        pre.wf(),
        post.wf(),
        pre.state() is Block || pre.state() is Inflate,
        post.input() == pre.input(),
        post.member_idx() == pre.member_idx(),
        data_event_ok(pre, post, bytes),
    ensures
        rest_of(pre, mb, out) matches Some(_) ==> rest_of(pre, mb, out) == rest_of(
            post,
            mb + bytes,
            out + bytes,
        ),
{
    if rest_of(pre, mb, out) matches Some(_) {
        if pre.state() is Inflate {
            lemma_data_step_inflate(pre, post, bytes, mb, out);
        } else {
            let b = bits_at(pre.input(), pre.pos());
            assert((b & 7) & 6 == 0 || (b & 7) & 6 == 2 || (b & 7) & 6 == 4 || (b & 7) & 6 == 6)
                by (bit_vector);
            let hdr = bits_at(pre.input(), pre.pos()) & 7;
            let btype = hdr & 6;
            if btype == 0 {
                lemma_data_step_stored(pre, post, bytes, mb, out);
            } else if btype == 2 {
                lemma_data_step_fixed(pre, post, bytes, mb, out);
            } else {
                lemma_data_step_dynamic(pre, post, bytes, mb, out);
            }
        }
    }
}

#[verifier::rlimit(100)]
#[verifier::spinoff_prover]
proof fn lemma_data_step_inflate(
    pre: Producer,
    post: Producer,
    bytes: Seq<u8>,
    mb: Seq<u8>,
    out: Seq<u8>,
)
    requires
        pre.wf(),
        post.wf(),
        pre.state() is Inflate,
        post.input() == pre.input(),
        post.member_idx() == pre.member_idx(),
        data_event_ok(pre, post, bytes),
        rest_of(pre, mb, out) matches Some(_),
    ensures
        rest_of(pre, mb, out) == rest_of(post, mb + bytes, out + bytes),
{
    pre.lemma_pos_bound();
    post.lemma_pos_bound();
}

#[verifier::rlimit(100)]
#[verifier::spinoff_prover]
proof fn lemma_data_step_stored(
    pre: Producer,
    post: Producer,
    bytes: Seq<u8>,
    mb: Seq<u8>,
    out: Seq<u8>,
)
    requires
        pre.wf(),
        post.wf(),
        pre.state() is Block,
        (bits_at(pre.input(), pre.pos()) & 7) & 6 == 0,
        post.input() == pre.input(),
        post.member_idx() == pre.member_idx(),
        data_event_ok(pre, post, bytes),
        rest_of(pre, mb, out) matches Some(_),
    ensures
        rest_of(pre, mb, out) == rest_of(post, mb + bytes, out + bytes),
{
    pre.lemma_pos_bound();
    post.lemma_pos_bound();
}

#[verifier::rlimit(100)]
#[verifier::spinoff_prover]
proof fn lemma_data_step_fixed(
    pre: Producer,
    post: Producer,
    bytes: Seq<u8>,
    mb: Seq<u8>,
    out: Seq<u8>,
)
    requires
        pre.wf(),
        post.wf(),
        pre.state() is Block,
        (bits_at(pre.input(), pre.pos()) & 7) & 6 == 2,
        post.input() == pre.input(),
        post.member_idx() == pre.member_idx(),
        data_event_ok(pre, post, bytes),
        rest_of(pre, mb, out) matches Some(_),
    ensures
        rest_of(pre, mb, out) == rest_of(post, mb + bytes, out + bytes),
{
    pre.lemma_pos_bound();
    post.lemma_pos_bound();
}

#[verifier::rlimit(100)]
#[verifier::spinoff_prover]
proof fn lemma_data_step_dynamic(
    pre: Producer,
    post: Producer,
    bytes: Seq<u8>,
    mb: Seq<u8>,
    out: Seq<u8>,
)
    requires
        pre.wf(),
        post.wf(),
        pre.state() is Block,
        (bits_at(pre.input(), pre.pos()) & 7) & 6 == 4 || (bits_at(pre.input(), pre.pos()) & 7)
            & 6 == 6,
        post.input() == pre.input(),
        post.member_idx() == pre.member_idx(),
        data_event_ok(pre, post, bytes),
        rest_of(pre, mb, out) matches Some(_),
    ensures
        rest_of(pre, mb, out) == rest_of(post, mb + bytes, out + bytes),
{
    pre.lemma_pos_bound();
    post.lemma_pos_bound();
}

/// A footer event either fails its member's checks with the matching error
/// or advances the spec-level run into the next member.
pub proof fn lemma_footer_step(pre: Producer, post: Producer, f: Footer, mb: Seq<u8>, out: Seq<u8>)
    requires
        pre.wf(),
        post.wf(),
        pre.state() is Footer,
        post.state() is Header,
        post.input() == pre.input(),
        post.window() == pre.window(),
        post.cur() == pre.cur(),
        post.ll_codes() == pre.ll_codes(),
        post.dist_codes() == pre.dist_codes(),
        post.member_idx() == pre.member_idx(),
        footer_event_ok(pre.input(), pre.pos(), f, post.pos()),
    ensures
        crate::checksum::crc32_of(mb) != f.crc32 ==> rest_of(pre, mb, out) == Some(Err::<
            Seq<u8>,
            Error,
        >(Error::ChecksumMismatch)),
        crate::checksum::crc32_of(mb) == f.crc32 && mb.len() % 0x1_0000_0000 != f.size
            ==> rest_of(pre, mb, out) == Some(Err::<Seq<u8>, Error>(Error::SizeMismatch)),
        crate::checksum::crc32_of(mb) == f.crc32 && mb.len() % 0x1_0000_0000 == f.size
            ==> rest_of(pre, mb, out) == rest_of(post, Seq::empty(), out),
{
    pre.lemma_pos_bound();
    post.lemma_pos_bound();
}

/// An error event ends the spec-level run with exactly that error.
#[verifier::rlimit(100)]
#[verifier::spinoff_prover]
pub proof fn lemma_error_step(pre: Producer, e: Error, mb: Seq<u8>, out: Seq<u8>)
    requires
        pre.wf(),
        pre.state() is Header ==> {
            let input = pre.input();
            let pos = pre.pos();
            let start = pos / 8;
            &&& (pos >= 8 * input.len() ==> pre.member_idx() == 0 && e == Error::EmptyInput)
            &&& (pos < 8 * input.len() ==> {
                &&& (start + 10 > input.len() ==> e == Error::UnexpectedEof)
                &&& (start + 10 <= input.len() && !valid_fixed_header(input, start) ==> e
                    == Error::InvalidGzHeader)
                &&& (start + 10 <= input.len() && valid_fixed_header(input, start) ==> !((input[
                    start + 3] & FEXTRA != 0 ==> start + 12 + le16_at(input, start + 10)
                    <= input.len()) && (input[start + 3] & FHCRC != 0 ==> after_comment(
                    input,
                    start,
                ) + 2 <= input.len())) && e == Error::UnexpectedEof)
            })
        },
        pre.state() is Block ==> {
            let input = pre.input();
            let pos = pre.pos();
            &&& (pos / 8 + 4 > input.len() ==> e == Error::UnexpectedEof)
            &&& (pos / 8 + 4 <= input.len() && (bits_at(input, pos) & 7) & 6 == 6 ==> e
                == Error::InvalidBlockType)
            &&& (pos / 8 + 4 <= input.len() && (bits_at(input, pos) & 7) & 6 != 6
                ==> block_owed_ok(pre, Err(e)))
        },
        pre.state() is Inflate ==> huffman_owed_ok(
            pre.input(),
            pre.pos(),
            pre.ll_codes(),
            pre.dist_codes(),
            pre.window(),
            pre.cur(),
            Err(e),
        ),
        pre.state() is Footer ==> byte_ceil(pre.pos()) + 8 > pre.input().len() && e
            == Error::UnexpectedEof,
        !(pre.state() is Spent),
    ensures
        rest_of(pre, mb, out) matches Some(_) ==> rest_of(pre, mb, out) == Some(Err::<
            Seq<u8>,
            Error,
        >(e)),
{
    if rest_of(pre, mb, out) matches Some(_) {
        if pre.state() is Block {
            let b = bits_at(pre.input(), pre.pos());
            assert((b & 7) & 6 == 0 || (b & 7) & 6 == 2 || (b & 7) & 6 == 4 || (b & 7) & 6 == 6)
                by (bit_vector);
            lemma_error_step_block(pre, e, mb, out);
        } else {
            lemma_error_step_other(pre, e, mb, out);
        }
    }
}

#[verifier::rlimit(100)]
#[verifier::spinoff_prover]
proof fn lemma_error_step_block(pre: Producer, e: Error, mb: Seq<u8>, out: Seq<u8>)
    requires
        pre.wf(),
        pre.state() is Block,
        ({
            let input = pre.input();
            let pos = pre.pos();
            &&& (pos / 8 + 4 > input.len() ==> e == Error::UnexpectedEof)
            &&& (pos / 8 + 4 <= input.len() && (bits_at(input, pos) & 7) & 6 == 6 ==> e
                == Error::InvalidBlockType)
            &&& (pos / 8 + 4 <= input.len() && (bits_at(input, pos) & 7) & 6 != 6
                ==> block_owed_ok(pre, Err(e)))
        }),
        (bits_at(pre.input(), pre.pos()) & 7) & 6 == 0 || (bits_at(pre.input(), pre.pos()) & 7)
            & 6 == 2 || (bits_at(pre.input(), pre.pos()) & 7) & 6 == 4 || (bits_at(
            pre.input(),
            pre.pos(),
        ) & 7) & 6 == 6,
        rest_of(pre, mb, out) matches Some(_),
    ensures
        rest_of(pre, mb, out) == Some(Err::<Seq<u8>, Error>(e)),
{
    pre.lemma_pos_bound();
    let input = pre.input();
    let pos = pre.pos();
    if pos / 8 + 4 <= input.len() {
        let hdr = bits_at(input, pos) & 7;
        let btype = hdr & 6;
        if btype == 0 {
            assert(rest_of(pre, mb, out) == Some(Err::<Seq<u8>, Error>(e)));
        } else if btype == 2 {
            assert(rest_of(pre, mb, out) == Some(Err::<Seq<u8>, Error>(e)));
        } else if btype == 4 {
            assert(rest_of(pre, mb, out) == Some(Err::<Seq<u8>, Error>(e)));
        } else {
            assert(rest_of(pre, mb, out) == Some(Err::<Seq<u8>, Error>(e)));
        }
    }
}

#[verifier::rlimit(100)]
#[verifier::spinoff_prover]
proof fn lemma_error_step_other(pre: Producer, e: Error, mb: Seq<u8>, out: Seq<u8>)
    requires
        pre.wf(),
        !(pre.state() is Block),
        !(pre.state() is Spent),
        pre.state() is Header ==> {
            let input = pre.input();
            let pos = pre.pos();
            let start = pos / 8;
            &&& (pos >= 8 * input.len() ==> pre.member_idx() == 0 && e == Error::EmptyInput)
            &&& (pos < 8 * input.len() ==> {
                &&& (start + 10 > input.len() ==> e == Error::UnexpectedEof)
                &&& (start + 10 <= input.len() && !valid_fixed_header(input, start) ==> e
                    == Error::InvalidGzHeader)
                &&& (start + 10 <= input.len() && valid_fixed_header(input, start) ==> !((input[
                    start + 3] & FEXTRA != 0 ==> start + 12 + le16_at(input, start + 10)
                    <= input.len()) && (input[start + 3] & FHCRC != 0 ==> after_comment(
                    input,
                    start,
                ) + 2 <= input.len())) && e == Error::UnexpectedEof)
            })
        },
        pre.state() is Inflate ==> huffman_owed_ok(
            pre.input(),
            pre.pos(),
            pre.ll_codes(),
            pre.dist_codes(),
            pre.window(),
            pre.cur(),
            Err(e),
        ),
        pre.state() is Footer ==> byte_ceil(pre.pos()) + 8 > pre.input().len() && e
            == Error::UnexpectedEof,
        rest_of(pre, mb, out) matches Some(_),
    ensures
        rest_of(pre, mb, out) == Some(Err::<Seq<u8>, Error>(e)),
{
    pre.lemma_pos_bound();
}

/// The member state machine: each `next` call reads just enough of the
/// stream to emit one event — a member header, a chunk of decompressed
/// bytes, or a trailer — and `None` at the end of the stream.
pub struct Producer {
    reader: BitReader,
    state: State,
    member_idx: usize,
    window: SlidingWindow,
    ll_decoder: HuffmanDecoder,
    dist_decoder: HuffmanDecoder,
}

impl Producer {
    pub closed spec fn wf(self) -> bool {
        &&& self.reader.wf()
        &&& self.window.wf()
        &&& self.window.data@.len() == WINDOW_SIZE
        &&& self.ll_decoder.wf()
        &&& self.dist_decoder.wf()
        &&& (self.state is Header ==> self.reader.aligned())
    }

    /// The decoded history and write region.
    pub closed spec fn window(self) -> Seq<u8> {
        self.window.data@
    }

    /// The window's write cursor.
    pub closed spec fn cur(self) -> int {
        self.window.cur()
    }

    /// The literal/length book the next Huffman step decodes with.
    pub closed spec fn ll_codes(self) -> Seq<(u32, u32)> {
        self.ll_decoder.codebook()
    }

    /// The distance book the next Huffman step decodes with.
    pub closed spec fn dist_codes(self) -> Seq<(u32, u32)> {
        self.dist_decoder.codebook()
    }

    /// The state the next call will act in.
    pub closed spec fn state(self) -> State {
        self.state
    }

    /// How many members have been begun.
    pub closed spec fn member_idx(self) -> int {
        self.member_idx as int
    }

    /// The whole input stream.
    pub closed spec fn input(self) -> Seq<u8> {
        self.reader.input()
    }

    /// The position in the input, in bits.
    pub closed spec fn pos(self) -> int {
        self.reader.bit_pos()
    }

    /// A well-formed producer sits between the start and the end of its
    /// input, on a byte boundary when a member header is next, with a sound
    /// window and sound code books.
    pub proof fn lemma_pos_bound(self)
        requires
            self.wf(),
        ensures
            0 <= self.pos() <= 8 * self.input().len(),
            self.state() is Header ==> self.pos() % 8 == 0,
            self.window().len() == WINDOW_SIZE,
            0 <= self.cur() <= 32768,
            crate::huffman_decoder::codes_wf(self.ll_codes()),
            crate::huffman_decoder::codes_wf(self.dist_codes()),
    {
        self.reader.lemma_pos_split();
        self.ll_decoder.lemma_wf_codebook();
        self.dist_decoder.lemma_wf_codebook();
    }

    pub fn new(input: Vec<u8>) -> (r: Self)
        ensures
            r.wf(),
            r.state() is Header,
            r.member_idx() == 0,
            r.input() == input@,
            r.pos() == 0,
            r.cur() == 0,
            r.window() == Seq::new(WINDOW_SIZE as nat, |i: int| 0u8),
            r.ll_codes() == Seq::<(u32, u32)>::empty(),
            r.dist_codes() == Seq::<(u32, u32)>::empty(),
    {
        Producer {
            reader: BitReader::new(input),
            state: State::Header,
            member_idx: 0,
            window: SlidingWindow::new(),
            ll_decoder: HuffmanDecoder::uninitialized(),
            dist_decoder: HuffmanDecoder::uninitialized(),
        }
    }

    /// Emit the next event, or `None` at a clean end of the stream; any
    /// failure becomes an `Error` event and spends the producer, which then
    /// emits nothing further.
    pub fn next(&mut self) -> (r: Option<Produce>)
        requires
            old(self).wf(),
        ensures
            final(self).wf(),
            final(self).input() == old(self).input(),
            final(self).pos() >= old(self).pos(),
            r is Some && !(r->Some_0 is Error) ==> final(self).pos() > old(self).pos(),
            old(self).state() is Header && old(self).pos() >= 8 * old(self).input().len() ==> r
                == if old(self).member_idx() == 0 {
                Some(Produce::Error(Error::EmptyInput))
            } else {
                None::<Produce>
            },
            old(self).state() is Header && old(self).pos() < 8 * old(self).input().len() ==> {
                let input = old(self).input();
                let start = old(self).pos() / 8;
                &&& (start + 10 > input.len() ==> r == Some(Produce::Error(Error::UnexpectedEof)))
                &&& (start + 10 <= input.len() && !valid_fixed_header(input, start) ==> r == Some(
                    Produce::Error(Error::InvalidGzHeader),
                ))
                &&& (start + 10 <= input.len() && valid_fixed_header(input, start) && (input[start
                    + 3] & FEXTRA != 0 ==> start + 12 + le16_at(input, start + 10) <= input.len())
                    && (input[start + 3] & FHCRC != 0 ==> after_comment(input, start) + 2
                    <= input.len()) ==> r matches Some(Produce::Header(_)))
                &&& (start + 10 <= input.len() && valid_fixed_header(input, start) && !((input[
                    start + 3] & FEXTRA != 0 ==> start + 12 + le16_at(input, start + 10)
                    <= input.len()) && (input[start + 3] & FHCRC != 0 ==> after_comment(
                    input,
                    start,
                ) + 2 <= input.len())) ==> r == Some(Produce::Error(Error::UnexpectedEof)))
            },
            old(self).state() is Footer ==> {
                let input = old(self).input();
                let start = byte_ceil(old(self).pos());
                &&& (start + 8 <= input.len() ==> r matches Some(Produce::Footer(_)))
                &&& (start + 8 > input.len() ==> r == Some(Produce::Error(Error::UnexpectedEof)))
            },
            old(self).state() is Spent ==> r is None,
            old(self).state() is Block ==> {
                let input = old(self).input();
                let pos = old(self).pos();
                &&& (pos / 8 + 4 > input.len() ==> r == Some(Produce::Error(Error::UnexpectedEof)))
                &&& (pos / 8 + 4 <= input.len() && (bits_at(input, pos) & 7) & 6 == 6 ==> r
                    == Some(Produce::Error(Error::InvalidBlockType)))
                &&& (pos / 8 + 4 <= input.len() && (bits_at(input, pos) & 7) & 6 != 6 ==> match r {
                    Some(Produce::Error(e)) => block_owed_ok(*old(self), Err(e)),
                    Some(p) => block_owed_ok(*old(self), Ok(p)),
                    None => false,
                })
            },
            old(self).state() is Inflate ==> match r {
                Some(Produce::Error(e)) => huffman_owed_ok(
                    old(self).input(),
                    old(self).pos(),
                    old(self).ll_codes(),
                    old(self).dist_codes(),
                    old(self).window(),
                    old(self).cur(),
                    Err(e),
                ),
                Some(p) => huffman_owed_ok(
                    old(self).input(),
                    old(self).pos(),
                    old(self).ll_codes(),
                    old(self).dist_codes(),
                    old(self).window(),
                    old(self).cur(),
                    Ok(p),
                ),
                None => false,
            },
            match r {
                None => (old(self).state() is Header && old(self).member_idx() > 0) || old(self).state() is Spent,
                Some(p) => match p {
                    Produce::Header(h) => old(self).state() is Header && final(self).state()
                        is Block && final(self).cur() == 0 && header_event_ok(
                        old(self).input(),
                        old(self).pos(),
                        h,
                        final(self).pos(),
                    ) && final(self).window() == old(self).window() && final(self).ll_codes()
                        == old(self).ll_codes() && final(self).dist_codes() == old(self).dist_codes() && final(self).member_idx() >= 1 && (old(self).member_idx()
                        < usize::MAX ==> final(self).member_idx() == old(self).member_idx() + 1),
                    Produce::Data(chunk) => (old(self).state() is Block || old(self).state()
                        is Inflate) && (final(self).state() is Block || final(self).state()
                        is Inflate || final(self).state() is Footer) && final(self).member_idx()
                        == old(self).member_idx() && data_event_ok(
                        *old(self),
                        *final(self),
                        chunk@,
                    ),
                    Produce::Footer(f) => old(self).state() is Footer && final(self).state()
                        is Header && footer_event_ok(
                        old(self).input(),
                        old(self).pos(),
                        f,
                        final(self).pos(),
                    ) && final(self).window() == old(self).window() && final(self).cur() == old(self).cur() && final(self).ll_codes() == old(self).ll_codes() && final(self).dist_codes() == old(self).dist_codes() && final(self).member_idx() == old(self).member_idx(),
                    Produce::Error(_) => final(self).state() is Spent,
                },
            },
    {
        match self.next_helper() {
            Ok(o) => o,
            Err(e) => {
                self.state = State::Spent;
                Some(Produce::Error(e))
            },
        }
    }

    fn next_helper(&mut self) -> (r: Result<Option<Produce>, Error>)
        requires
            old(self).wf(),
        ensures
            final(self).wf(),
            final(self).input() == old(self).input(),
            final(self).pos() >= old(self).pos(),
            r is Ok && r->Ok_0 is Some ==> final(self).pos() > old(self).pos(),
            old(self).state() is Header && old(self).pos() >= 8 * old(self).input().len() ==> r
                == if old(self).member_idx() == 0 {
                Err::<Option<Produce>, Error>(Error::EmptyInput)
            } else {
                Ok::<Option<Produce>, Error>(None)
            },
            old(self).state() is Header && old(self).pos() < 8 * old(self).input().len() ==> {
                let input = old(self).input();
                let start = old(self).pos() / 8;
                &&& (start + 10 > input.len() ==> r == Err::<Option<Produce>, Error>(
                    Error::UnexpectedEof,
                ))
                &&& (start + 10 <= input.len() && !valid_fixed_header(input, start) ==> r == Err::<
                    Option<Produce>,
                    Error,
                >(Error::InvalidGzHeader))
                &&& (start + 10 <= input.len() && valid_fixed_header(input, start) && (input[start
                    + 3] & FEXTRA != 0 ==> start + 12 + le16_at(input, start + 10) <= input.len())
                    && (input[start + 3] & FHCRC != 0 ==> after_comment(input, start) + 2
                    <= input.len()) ==> r is Ok && r->Ok_0 matches Some(Produce::Header(_)))
                &&& (start + 10 <= input.len() && valid_fixed_header(input, start) && !((input[
                    start + 3] & FEXTRA != 0 ==> start + 12 + le16_at(input, start + 10)
                    <= input.len()) && (input[start + 3] & FHCRC != 0 ==> after_comment(
                    input,
                    start,
                ) + 2 <= input.len())) ==> r == Err::<Option<Produce>, Error>(
                    Error::UnexpectedEof,
                ))
            },
            old(self).state() is Footer ==> {
                let input = old(self).input();
                let start = byte_ceil(old(self).pos());
                &&& (start + 8 <= input.len() ==> r is Ok && r->Ok_0 matches Some(
                    Produce::Footer(_),
                ))
                &&& (start + 8 > input.len() ==> r == Err::<Option<Produce>, Error>(
                    Error::UnexpectedEof,
                ))
            },
            old(self).state() is Spent ==> r == Ok::<Option<Produce>, Error>(None)
                && final(self).state() is Spent,
            old(self).state() is Block ==> {
                let input = old(self).input();
                let pos = old(self).pos();
                &&& (pos / 8 + 4 > input.len() ==> r == Err::<Option<Produce>, Error>(
                    Error::UnexpectedEof,
                ))
                &&& (pos / 8 + 4 <= input.len() && (bits_at(input, pos) & 7) & 6 == 6 ==> r
                    == Err::<Option<Produce>, Error>(Error::InvalidBlockType))
                &&& (pos / 8 + 4 <= input.len() && (bits_at(input, pos) & 7) & 6 != 6 ==> match r {
                    Ok(o) => o matches Some(p) && block_owed_ok(*old(self), Ok(p)),
                    Err(e) => block_owed_ok(*old(self), Err(e)),
                })
            },
            old(self).state() is Inflate ==> match r {
                Ok(o) => o matches Some(p) && huffman_owed_ok(
                    old(self).input(),
                    old(self).pos(),
                    old(self).ll_codes(),
                    old(self).dist_codes(),
                    old(self).window(),
                    old(self).cur(),
                    Ok(p),
                ),
                Err(e) => huffman_owed_ok(
                    old(self).input(),
                    old(self).pos(),
                    old(self).ll_codes(),
                    old(self).dist_codes(),
                    old(self).window(),
                    old(self).cur(),
                    Err(e),
                ),
            },
            r == Ok::<Option<Produce>, Error>(None::<Produce>) ==> (old(self).state() is Header
                && old(self).member_idx() > 0) || old(self).state() is Spent,
            r is Ok && r->Ok_0 is Some ==> match r->Ok_0->0 {
                Produce::Header(h) => old(self).state() is Header && final(self).state()
                    is Block && final(self).cur() == 0 && header_event_ok(
                    old(self).input(),
                    old(self).pos(),
                    h,
                    final(self).pos(),
                ) && final(self).window() == old(self).window() && final(self).ll_codes() == old(self).ll_codes() && final(self).dist_codes() == old(self).dist_codes() && final(self).member_idx() >= 1 && (old(self).member_idx() < usize::MAX ==> final(self).member_idx() == old(self).member_idx() + 1),
                Produce::Data(chunk) => (old(self).state() is Block || old(self).state()
                    is Inflate) && (final(self).state() is Block || final(self).state()
                    is Inflate || final(self).state() is Footer) && final(self).member_idx()
                    == old(self).member_idx() && data_event_ok(
                    *old(self),
                    *final(self),
                    chunk@,
                ),
                Produce::Footer(f) => old(self).state() is Footer && final(self).state()
                    is Header && footer_event_ok(
                    old(self).input(),
                    old(self).pos(),
                    f,
                    final(self).pos(),
                ) && final(self).window() == old(self).window() && final(self).cur() == old(self).cur() && final(self).ll_codes() == old(self).ll_codes() && final(self).dist_codes() == old(self).dist_codes() && final(self).member_idx() == old(self).member_idx(),
                Produce::Error(_) => false,
            },
    {
        match self.state {
            State::Header => {
                proof {
                    self.reader.lemma_pos_split();
                }
                if !self.reader.has_data_left() {
                    if self.member_idx == 0 {
                        return Err(Error::EmptyInput);
                    } else {
                        return Ok(None);
                    }
                }
                self.state = State::Block;
                if self.member_idx < usize::MAX {
                    self.member_idx = self.member_idx + 1;
                }
                // a fresh member starts with an empty back-reference history
                self.window.cur = 0;
                let h = match Header::read(&mut self.reader) {
                    Ok(h) => h,
                    Err(e) => {
                        return Err(e);
                    },
                };
                proof {
                    self.reader.lemma_pos_split();
                }
                Ok(Some(Produce::Header(h)))
            },
            State::Block => {
                let ghost pos = self.reader.bit_pos();
                let ghost input = self.reader.input();
                let ghost pre = *self;
                proof {
                    self.reader.lemma_pos_split();
                    crate::bitread::lemma_shift_values();
                }
                let header = match self.reader.read_bits(3) {
                    Ok(x) => x,
                    Err(e) => {
                        return Err(e);
                    },
                };
                proof {
                    assert(header == bits_at(input, pos) & 7);
                }
                let is_final = header & 1 == 1;
                let btype = header & 0b110;
                if btype == 0b000 {
                    if is_final {
                        self.state = State::Footer;
                    }
                    proof {
                        self.reader.lemma_pos_split();
                    }
                    let p = match self.inflate_block0() {
                        Ok(p) => p,
                        Err(e) => {
                            return Err(e);
                        },
                    };
                    proof {
                        self.reader.lemma_pos_split();
                        assert(data_event_ok(pre, *self, p->Data_0@));
                    }
                    Ok(Some(p))
                } else if btype == 0b010 {
                    let ll_book = CodeBook::default_ll();
                    let dist_book = CodeBook::default_dist();
                    proof {
                        ll_book.lemma_wf_facts();
                        dist_book.lemma_wf_facts();
                    }
                    self.ll_decoder = HuffmanDecoder::new(ll_book);
                    self.dist_decoder = HuffmanDecoder::new(dist_book);
                    self.state = State::Inflate(is_final);
                    proof {
                        assert(self.ll_decoder.codebook() == codebook_of(fixed_ll_lengths()));
                        assert(self.dist_decoder.codebook() == codebook_of(fixed_dist_lengths()));
                    }
                    let p = match self.inflate(is_final) {
                        Ok(p) => p,
                        Err(e) => {
                            return Err(e);
                        },
                    };
                    proof {
                        assert(data_event_ok(pre, *self, p->Data_0@));
                    }
                    Ok(Some(p))
                } else if btype == 0b100 {
                    let (ll, dist) = match crate::inflate::read_dynamic_codebooks(
                        &mut self.reader,
                    ) {
                        Ok(p) => p,
                        Err(e) => {
                            return Err(e);
                        },
                    };
                    self.ll_decoder = ll;
                    self.dist_decoder = dist;
                    self.state = State::Inflate(is_final);
                    let p = match self.inflate(is_final) {
                        Ok(p) => p,
                        Err(e) => {
                            return Err(e);
                        },
                    };
                    proof {
                        if rev_prefix_free(cl_book_at(input, pos + 3)) {
                            assert(data_event_ok(pre, *self, p->Data_0@));
                        }
                    }
                    Ok(Some(p))
                } else {
                    Err(Error::InvalidBlockType)
                }
            },
            State::Inflate(is_final) => {
                let ghost pre = *self;
                let f = is_final;
                let p = match self.inflate(f) {
                    Ok(p) => p,
                    Err(e) => {
                        return Err(e);
                    },
                };
                proof {
                    assert(data_event_ok(pre, *self, p->Data_0@));
                }
                Ok(Some(p))
            },
            State::Footer => {
                self.state = State::Header;
                proof {
                    self.reader.lemma_pos_split();
                }
                let f = match Footer::read(&mut self.reader) {
                    Ok(f) => f,
                    Err(e) => {
                        return Err(e);
                    },
                };
                proof {
                    self.reader.lemma_pos_split();
                }
                Ok(Some(Produce::Footer(f)))
            },
            State::Spent => Ok(None),
        }
    }

    /// Read one stored block and emit its raw bytes as one data chunk: the
    /// LEN bytes after the four framing bytes at the next byte boundary.
    /// The reader is byte-aligned afterwards.
    fn inflate_block0(&mut self) -> (r: Result<Produce, Error>)
        requires
            old(self).wf(),
            old(self).state() is Block || old(self).state() is Footer,
        ensures
            final(self).wf(),
            final(self).input() == old(self).input(),
            final(self).pos() >= old(self).pos(),
            r is Ok ==> final(self).pos() > old(self).pos() && final(self).reader.aligned(),
            final(self).state() == old(self).state(),
            final(self).member_idx() == old(self).member_idx(),
            final(self).ll_decoder == old(self).ll_decoder,
            final(self).dist_decoder == old(self).dist_decoder,
            r is Ok ==> r->Ok_0 is Data,
            ({
                let data = old(self).reader.input();
                let b0 = if old(self).reader.aligned() {
                    old(self).reader.byte_pos()
                } else {
                    old(self).reader.byte_pos() + 1
                };
                let blen = (le32_at(data, b0) & low_mask(16)) as int;
                let bnlen = (le32_at(data, b0 + 2) & low_mask(16)) as int;
                &&& (r is Ok ==> (r->Ok_0 matches Produce::Data(chunk) && b0 + 6 <= data.len()
                    && ((blen as u32) ^ (bnlen as u32)) == 0xFFFF && b0 + 4 + blen <= data.len()
                    && chunk@ == data.subrange(b0 + 4, b0 + 4 + blen)
                    && final(self).reader.byte_pos() == b0 + 4 + blen))
                &&& (b0 + 6 > data.len() ==> r == Err::<Produce, Error>(Error::UnexpectedEof))
                &&& (b0 + 6 <= data.len() && (blen as u32) ^ (bnlen as u32) != 0xFFFF ==> r
                    == Err::<Produce, Error>(Error::BlockType0LenMismatch))
                &&& (b0 + 6 <= data.len() && (blen as u32) ^ (bnlen as u32) == 0xFFFF && b0 + 4
                    + blen > data.len() ==> r == Err::<Produce, Error>(Error::UnexpectedEof))
                &&& (b0 + 6 <= data.len() && (blen as u32) ^ (bnlen as u32) == 0xFFFF && b0 + 4
                    + blen <= data.len() ==> r is Ok)
                &&& (r is Ok ==> {
                    let payload = data.subrange(b0 + 4, b0 + 4 + blen);
                    let cur = old(self).window.cur();
                    let w = old(self).window.data@;
                    let slid = slide_spec(
                        w.subrange(0, cur) + payload + w.skip(cur + blen),
                        cur + blen,
                    );
                    &&& final(self).window.data@ == slid.0
                    &&& final(self).window.cur() == slid.1
                })
            }),
    {
        let ghost w0 = self.window.data@;
        let ghost cur0 = self.window.cur();
        self.reader.byte_align();
        proof {
            self.reader.lemma_pos_split();
            assert(forall|x: u32| #![auto] x >> 0u32 == x) by (bit_vector);
        }
        let len = match self.reader.read_bits(16) {
            Ok(x) => x,
            Err(e) => {
                return Err(e);
            },
        };
        let nlen = match self.reader.read_bits(16) {
            Ok(x) => x,
            Err(e) => {
                return Err(e);
            },
        };
        if len ^ nlen != 0xFFFF {
            return Err(Error::BlockType0LenMismatch);
        }
        proof {
            crate::bitread::lemma_shift_values();
        }
        let buf = match self.reader.read_exact(len as usize) {
            Ok(b) => b,
            Err(e) => {
                return Err(e);
            },
        };
        let boundary = self.window.boundary();
        let ghost r0 = self.reader;
        let mut i: usize = 0;
        while i < buf.len()
            invariant
                i <= buf@.len(),
                buf@.len() <= 0xFFFF,
                boundary + buf@.len() <= self.window.data@.len(),
                self.window.data@.len() == WINDOW_SIZE,
                boundary == self.window.cur(),
                boundary == cur0,
                self.window.wf(),
                self.reader == r0,
                self.state == old(self).state,
                self.member_idx == old(self).member_idx,
                self.ll_decoder == old(self).ll_decoder,
                self.dist_decoder == old(self).dist_decoder,
                self.ll_decoder.wf(),
                self.dist_decoder.wf(),
                forall|j: int| 0 <= j < boundary ==> self.window.data@[j] == w0[j],
                forall|j: int|
                    boundary <= j < boundary + i ==> self.window.data@[j] == buf@[j - boundary],
                forall|j: int|
                    boundary + i <= j < WINDOW_SIZE ==> self.window.data@[j] == w0[j],
            decreases buf@.len() - i,
        {
            let b = buf[i];
            self.window.data[boundary + i] = b;
            i = i + 1;
        }
        proof {
            assert(self.window.data@ =~= w0.subrange(0, cur0) + buf@ + w0.skip(
                cur0 + buf@.len(),
            ));
        }
        let ghost wpre = self.window.data@;
        self.window.slide(buf.len());
        proof {
            let end = cur0 + buf@.len();
            if end > 32768 {
                assert(self.window.data@ =~= wpre.subrange(end - 32768, end) + wpre.skip(32768));
            }
            assert((self.window.data@, self.window.cur()) == slide_spec(wpre, end));
        }
        Ok(Produce::Data(buf))
    }

    /// Run the LZ77 loop once: until the block ends or the window fills.
    /// The bytes written past the boundary travel out as one data chunk;
    /// under prefix-free books they are exactly the bytes `run_codes` puts
    /// between the old boundary and the index it reaches.
    fn inflate(&mut self, is_final: bool) -> (r: Result<Produce, Error>)
        requires
            old(self).wf(),
            old(self).state() is Inflate,
        ensures
            final(self).wf(),
            final(self).input() == old(self).input(),
            final(self).pos() >= old(self).pos(),
            r is Ok ==> final(self).pos() > old(self).pos(),
            final(self).member_idx() == old(self).member_idx(),
            final(self).ll_decoder == old(self).ll_decoder,
            final(self).dist_decoder == old(self).dist_decoder,
            final(self).state() is Block || final(self).state() is Inflate || final(self).state()
                is Footer,
            r is Ok ==> r->Ok_0 is Data,
            rev_prefix_free(old(self).ll_decoder.codebook()) && rev_prefix_free(
                old(self).dist_decoder.codebook(),
            ) ==> {
                let rc = run_codes(
                    old(self).reader.input(),
                    old(self).reader.bit_pos(),
                    old(self).ll_decoder.codebook(),
                    old(self).dist_decoder.codebook(),
                    old(self).window.data@,
                    old(self).window.cur(),
                );
                &&& (rc matches Ok(st) ==> r is Ok && (r->Ok_0 matches Produce::Data(chunk)
                    && chunk@ == st.0.subrange(old(self).window.cur(), st.1))
                    && final(self).reader.bit_pos() == st.2
                    && (final(self).window.data@, final(self).window.cur()) == slide_spec(
                    st.0,
                    st.1,
                ) && final(self).state() == (if st.3 {
                    if is_final {
                        State::Footer
                    } else {
                        State::Block
                    }
                } else {
                    old(self).state()
                }))
                &&& (rc matches Err(e) ==> r == Err::<Produce, Error>(e))
            },
    {
        let boundary = self.window.boundary();
        proof {
            assert(boundary + (MAX_LENGTH as int) < WINDOW_SIZE as int);
        }
        let result = match decode(
            &mut self.window.data,
            boundary,
            &mut self.reader,
            &self.ll_decoder,
            &self.dist_decoder,
        ) {
            Ok(x) => x,
            Err(e) => {
                return Err(e);
            },
        };
        let (n, done) = match result {
            DecodeResult::Done(n) => (n, true),
            DecodeResult::WindowIsFull(n) => (n, false),
            DecodeResult::Error(e) => {
                return Err(e);
            },
        };
        proof {
            if rev_prefix_free(old(self).ll_decoder.codebook()) && rev_prefix_free(
                old(self).dist_decoder.codebook(),
            ) {
                let rc = run_codes(
                    old(self).reader.input(),
                    old(self).reader.bit_pos(),
                    old(self).ll_decoder.codebook(),
                    old(self).dist_decoder.codebook(),
                    old(self).window.data@,
                    old(self).window.cur(),
                );
                assert(rc is Ok);
                let st = rc->Ok_0;
                assert(self.window.data@ == st.0);
                assert(st.1 == boundary + n);
                assert(self.reader.bit_pos() == st.2);
            }
        }
        if done {
            self.state = if is_final {
                State::Footer
            } else {
                State::Block
            };
        }
        let chunk = self.window.write_buffer(n);
        let ghost wpre = self.window.data@;
        self.window.slide(n);
        proof {
            if rev_prefix_free(old(self).ll_decoder.codebook()) && rev_prefix_free(
                old(self).dist_decoder.codebook(),
            ) {
                let end = boundary + n;
                if end > 32768 {
                    assert(self.window.data@ =~= wpre.subrange(end - 32768, end) + wpre.skip(
                        32768,
                    ));
                }
                assert((self.window.data@, self.window.cur()) == slide_spec(wpre, end));
            }
        }
        Ok(Produce::Data(chunk))
    }
}

} // verus!
