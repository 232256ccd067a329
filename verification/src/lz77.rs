use vstd::prelude::*;
use crate::bitread::{le32_at, low_mask, BitReader};
use crate::error::Error;
use crate::huffman_decoder::{code_matches, rev_prefix_free, HuffmanDecoder};

verus! {

broadcast use crate::bitread::BitReader::lemma_pos_bounds;

/// The 32 stream bits starting at bit position `pos` of `data`, of which
/// the low 24 are always meaningful.
pub open spec fn bits_at(data: Seq<u8>, pos: int) -> u32
    recommends
        0 <= pos,
        pos / 8 + 4 <= data.len(),
{
    (le32_at(data, pos / 8) >> ((pos % 8) as u32)) as u32
}

/// Some symbol of `codes` is spelled by the low bits of `b`.
pub open spec fn some_match(codes: Seq<(u32, u32)>, b: u32) -> bool {
    exists|s: int| code_matches(codes, s, b)
}

/// The symbol of `codes` spelled by the low bits of `b`; under a
/// prefix-free book it is unique.
pub open spec fn matched_symbol(codes: Seq<(u32, u32)>, b: u32) -> int {
    choose|s: int| code_matches(codes, s, b)
}

/// The code the two books decode at bit position `pos` of `data`, paired
/// with the bit position just past it: `UnexpectedEof` when the stream runs
/// out, `HuffmanDecoderCodeNotFound` when no code or no valid symbol is
/// spelled there.
pub open spec fn code_at(
    data: Seq<u8>,
    pos: int,
    llc: Seq<(u32, u32)>,
    dc: Seq<(u32, u32)>,
) -> Result<(Code, int), Error> {
    if pos / 8 + 4 > data.len() {
        Err(Error::UnexpectedEof)
    } else {
        let b0 = bits_at(data, pos);
        if !some_match(llc, b0) {
            Err(Error::HuffmanDecoderCodeNotFound)
        } else {
            let s = matched_symbol(llc, b0);
            let l = llc[s].1;
            if s < 256 {
                Ok((Code::Literal(s as u8), pos + l))
            } else if s == 256 {
                Ok((Code::EndOfBlock, pos + l))
            } else if s > 285 {
                Err(Error::HuffmanDecoderCodeNotFound)
            } else {
                let pair = length_spec((s - 256) as u32);
                if (pos + l) / 8 + 4 > data.len() {
                    Err(Error::UnexpectedEof)
                } else {
                    let length = pair.1 + (bits_at(data, pos + l) & low_mask(pair.0));
                    let pos1 = pos + l + pair.0;
                    if pos1 / 8 + 4 > data.len() {
                        Err(Error::UnexpectedEof)
                    } else {
                        let b1 = bits_at(data, pos1);
                        if !some_match(dc, b1) {
                            Err(Error::HuffmanDecoderCodeNotFound)
                        } else {
                            let t = matched_symbol(dc, b1);
                            let lt = dc[t].1;
                            if t > 29 {
                                Err(Error::HuffmanDecoderCodeNotFound)
                            } else {
                                let dpair = distance_spec(t as u32);
                                if (pos1 + lt) / 8 + 4 > data.len() {
                                    Err(Error::UnexpectedEof)
                                } else {
                                    let distance = dpair.1 + (bits_at(data, pos1 + lt) & low_mask(
                                        dpair.0,
                                    ));
                                    Ok(
                                        (
                                            Code::Dictionary {
                                                distance: distance as u16,
                                                length: length as u16,
                                            },
                                            pos1 + lt + dpair.0,
                                        ),
                                    )
                                }
                            }
                        }
                    }
                }
            }
        }
    }
}

/// The literal/length symbol that ends a block.
pub const END_OF_BLOCK: u32 = 256;

/// The longest back-reference run.
pub const MAX_LENGTH: u16 = 258;

/// One decoded DEFLATE item.
#[derive(Clone, Copy, PartialEq, Eq, Structural, Debug)]
pub enum Code {
    Literal(u8),
    EndOfBlock,
    Dictionary { distance: u16, length: u16 },
}

/// What a decode step ended with.
pub enum DecodeResult {
    /// The block's end-of-block symbol was reached; so many bytes were
    /// written past the boundary.
    Done(usize),
    /// The write region cannot hold another full run; so many bytes were
    /// written past the boundary.
    WindowIsFull(usize),
    Error(Error),
}


/// One code applied to the window at `idx`: a literal writes one byte, a
/// back-reference repeats the bytes `distance` back, the end-of-block mark
/// changes nothing. `None` when the back-reference reaches before the start.
pub open spec fn apply_code_spec(w: Seq<u8>, idx: int, c: Code) -> Option<(Seq<u8>, int)> {
    match c {
        Code::Literal(b) => Some((w.update(idx, b), idx + 1)),
        Code::EndOfBlock => Some((w, idx)),
        Code::Dictionary { distance, length } => if distance > idx {
            None
        } else {
            Some((expand_spec(w, idx, distance as int, length as int), idx + length))
        },
    }
}

/// The repeating copy of RFC 1951: each written byte repeats the byte `d`
/// positions before it, one position at a time.
pub open spec fn expand_spec(w: Seq<u8>, idx: int, d: int, n: int) -> Seq<u8>
    decreases n,
{
    if n <= 0 {
        w
    } else {
        expand_spec(w.update(idx, w[idx - d]), idx + 1, d, n - 1)
    }
}

/// Decode codes at `pos` into window `w` from `idx` on, until the block's
/// end or until fewer than a full run's worth of room is left: the window,
/// write index and bit position reached, and whether the block ended. A
/// back-reference past the start fails with `DistanceTooMuch`.
pub open spec fn run_codes(
    data: Seq<u8>,
    pos: int,
    llc: Seq<(u32, u32)>,
    dc: Seq<(u32, u32)>,
    w: Seq<u8>,
    idx: int,
) -> Result<(Seq<u8>, int, int, bool), Error>
    decreases 8 * data.len() - pos
        when 0 <= pos <= 8 * data.len() && crate::huffman_decoder::codes_wf(llc)
            && crate::huffman_decoder::codes_wf(dc) via run_codes_dec
{
    if idx + (MAX_LENGTH as int) >= w.len() {
        Ok((w, idx, pos, false))
    } else {
        match code_at(data, pos, llc, dc) {
            Err(e) => Err(e),
            Ok((c, pos2)) => match c {
                Code::EndOfBlock => Ok((w, idx, pos2, true)),
                _ => match apply_code_spec(w, idx, c) {
                    None => Err(Error::DistanceTooMuch),
                    Some((w2, idx2)) => run_codes(data, pos2, llc, dc, w2, idx2),
                },
            },
        }
    }
}

/// A position whose four look-ahead bytes are in bounds sits well before
/// the end of the bit stream.
pub(crate) proof fn lemma_peek_pos_bound(p: int, len: int)
    requires
        0 <= p,
        p / 8 + 4 <= len,
    ensures
        p <= 8 * len - 25,
{
    vstd::arithmetic::div_mod::lemma_fundamental_div_mod(p, 8);
}

/// A code the books decode sits strictly ahead of its position, within the
/// stream, and a back-reference code carries the ranges RFC 1951 fixes.
pub proof fn lemma_code_at_pos(data: Seq<u8>, pos: int, llc: Seq<(u32, u32)>, dc: Seq<(u32, u32)>)
    requires
        0 <= pos,
        crate::huffman_decoder::codes_wf(llc),
        crate::huffman_decoder::codes_wf(dc),
    ensures
        code_at(data, pos, llc, dc) matches Ok(cp) ==> {
            &&& pos < cp.1 <= 8 * data.len()
            &&& (cp.0 matches Code::Dictionary { distance, length } ==> 1 <= distance && 3
                <= length <= 258)
        },
{
    let len = data.len() as int;
    match code_at(data, pos, llc, dc) {
        Err(_) => {},
        Ok((c, pos2)) => {
            let b0 = bits_at(data, pos);
            let s = matched_symbol(llc, b0);
            assert(code_matches(llc, s, b0));
            let l = llc[s].1;
            assert(1 <= l <= 15);
            lemma_peek_pos_bound(pos, len);
            if s < 256 || s == 256 {
                assert(pos2 == pos + l);
            } else {
                let pair = length_spec((s - 256) as u32);
                crate::bitread::lemma_shift_values();
                assert(pair.0 <= 5 && 3 <= pair.1 <= 258);
                lemma_masked_add(bits_at(data, pos + l), pair.0);
                assert(pair.1 + (((1u32 << pair.0) - 1) as u32) <= 258);
                let pos1 = pos + l + pair.0;
                let b1 = bits_at(data, pos1);
                let t = matched_symbol(dc, b1);
                assert(code_matches(dc, t, b1));
                let lt = dc[t].1;
                assert(1 <= lt <= 15);
                let dpair = distance_spec(t as u32);
                assert(dpair.0 <= 13 && 1 <= dpair.1 <= 24577);
                lemma_masked_add(bits_at(data, pos1 + lt), dpair.0);
                assert(dpair.1 + (((1u32 << dpair.0) - 1) as u32) <= 32768);
                lemma_peek_pos_bound(pos1 + lt, len);
                assert(pos2 == pos1 + lt + dpair.0);
            }
            assert(pos < pos2 <= 8 * len);
        },
    }
}

#[via_fn]
proof fn run_codes_dec(
    data: Seq<u8>,
    pos: int,
    llc: Seq<(u32, u32)>,
    dc: Seq<(u32, u32)>,
    w: Seq<u8>,
    idx: int,
) {
    if idx + (MAX_LENGTH as int) < w.len() {
        lemma_code_at_pos(data, pos, llc, dc);
    }
}

/// Expanding a back-reference does not change the window's size.
proof fn lemma_expand_spec_len(w: Seq<u8>, idx: int, d: int, n: int)
    requires
        0 <= idx,
        idx + n <= w.len(),
    ensures
        expand_spec(w, idx, d, n).len() == w.len(),
    decreases n,
{
    if n > 0 {
        lemma_expand_spec_len(w.update(idx, w[idx - d]), idx + 1, d, n - 1);
    }
}

/// What a finished run of codes guarantees: the window keeps its size, the
/// write index only grows and stays inside it, the position only grows and
/// stays inside the stream — strictly, unless the window was full at entry.
pub proof fn lemma_run_codes_frame(
    data: Seq<u8>,
    pos: int,
    llc: Seq<(u32, u32)>,
    dc: Seq<(u32, u32)>,
    w: Seq<u8>,
    idx: int,
)
    requires
        0 <= pos <= 8 * data.len(),
        crate::huffman_decoder::codes_wf(llc),
        crate::huffman_decoder::codes_wf(dc),
        0 <= idx <= w.len(),
    ensures
        run_codes(data, pos, llc, dc, w, idx) matches Ok(st) ==> {
            &&& st.0.len() == w.len()
            &&& idx <= st.1 <= w.len()
            &&& pos <= st.2 <= 8 * data.len()
            &&& (idx + (MAX_LENGTH as int) < w.len() ==> st.2 > pos)
        },
    decreases 8 * data.len() - pos,
{
    if idx + (MAX_LENGTH as int) < w.len() {
        lemma_code_at_pos(data, pos, llc, dc);
        match code_at(data, pos, llc, dc) {
            Err(_) => {},
            Ok((c, pos2)) => {
                match c {
                    Code::EndOfBlock => {},
                    Code::Literal(_) => {
                        lemma_run_codes_frame(data, pos2, llc, dc, w.update(idx, c->Literal_0), idx + 1);
                    },
                    Code::Dictionary { distance, length } => {
                        if distance <= idx {
                            lemma_expand_spec_len(w, idx, distance as int, length as int);
                            lemma_run_codes_frame(
                                data,
                                pos2,
                                llc,
                                dc,
                                expand_spec(w, idx, distance as int, length as int),
                                idx + length,
                            );
                        }
                    },
                }
            },
        }
    }
}

/// The extra-bits count and base value of length symbol `257 + i`.
pub open spec fn length_spec(i: u32) -> (u32, u32) {
    if i == 1 { (0u32, 3u32) } else if i == 2 { (0u32, 4u32) } else if i == 3 { (0u32, 5u32) }
    else if i == 4 { (0u32, 6u32) } else if i == 5 { (0u32, 7u32) } else if i == 6 { (0u32, 8u32) }
    else if i == 7 { (0u32, 9u32) } else if i == 8 { (0u32, 10u32) } else if i == 9 { (1u32, 11u32) }
    else if i == 10 { (1u32, 13u32) } else if i == 11 { (1u32, 15u32) } else if i == 12 { (1u32, 17u32) }
    else if i == 13 { (2u32, 19u32) } else if i == 14 { (2u32, 23u32) } else if i == 15 { (2u32, 27u32) }
    else if i == 16 { (2u32, 31u32) } else if i == 17 { (3u32, 35u32) } else if i == 18 { (3u32, 43u32) }
    else if i == 19 { (3u32, 51u32) } else if i == 20 { (3u32, 59u32) } else if i == 21 { (4u32, 67u32) }
    else if i == 22 { (4u32, 83u32) } else if i == 23 { (4u32, 99u32) } else if i == 24 { (4u32, 115u32) }
    else if i == 25 { (5u32, 131u32) } else if i == 26 { (5u32, 163u32) } else if i == 27 { (5u32, 195u32) }
    else if i == 28 { (5u32, 227u32) } else if i == 29 { (0u32, 258u32) } else { (0u32, 0u32) }
}

/// The extra-bits count and base value of distance symbol `i`.
pub open spec fn distance_spec(i: u32) -> (u32, u32) {
    if i == 0 { (0u32, 1u32) } else if i == 1 { (0u32, 2u32) } else if i == 2 { (0u32, 3u32) }
    else if i == 3 { (0u32, 4u32) } else if i == 4 { (1u32, 5u32) } else if i == 5 { (1u32, 7u32) }
    else if i == 6 { (2u32, 9u32) } else if i == 7 { (2u32, 13u32) } else if i == 8 { (3u32, 17u32) }
    else if i == 9 { (3u32, 25u32) } else if i == 10 { (4u32, 33u32) } else if i == 11 { (4u32, 49u32) }
    else if i == 12 { (5u32, 65u32) } else if i == 13 { (5u32, 97u32) } else if i == 14 { (6u32, 129u32) }
    else if i == 15 { (6u32, 193u32) } else if i == 16 { (7u32, 257u32) } else if i == 17 { (7u32, 385u32) }
    else if i == 18 { (8u32, 513u32) } else if i == 19 { (8u32, 769u32) } else if i == 20 { (9u32, 1025u32) }
    else if i == 21 { (9u32, 1537u32) } else if i == 22 { (10u32, 2049u32) } else if i == 23 { (10u32, 3073u32) }
    else if i == 24 { (11u32, 4097u32) } else if i == 25 { (11u32, 6145u32) } else if i == 26 { (12u32, 8193u32) }
    else if i == 27 { (12u32, 12289u32) } else if i == 28 { (13u32, 16385u32) } else { (13u32, 24577u32) }
}

/// The extra-bits count and base length of the length symbol with table
/// index `i` (symbol minus 256).
fn symbol2bits_length(i: u32) -> (r: (u32, u32))
    requires
        1 <= i <= 29,
    ensures
        r == length_spec(i),
        r.0 <= 5,
        3 <= r.1 <= 258,
        r.1 + ((1u32 << r.0) - 1) <= 258,
{
    proof {
        assert((1u32 << 0u32) == 1 && (1u32 << 1u32) == 2 && (1u32 << 2u32) == 4 && (1u32 << 3u32)
            == 8 && (1u32 << 4u32) == 16 && (1u32 << 5u32) == 32) by (bit_vector);
    }
    if i == 1 { (0, 3) } else if i == 2 { (0, 4) } else if i == 3 { (0, 5) }
    else if i == 4 { (0, 6) } else if i == 5 { (0, 7) } else if i == 6 { (0, 8) }
    else if i == 7 { (0, 9) } else if i == 8 { (0, 10) } else if i == 9 { (1, 11) }
    else if i == 10 { (1, 13) } else if i == 11 { (1, 15) } else if i == 12 { (1, 17) }
    else if i == 13 { (2, 19) } else if i == 14 { (2, 23) } else if i == 15 { (2, 27) }
    else if i == 16 { (2, 31) } else if i == 17 { (3, 35) } else if i == 18 { (3, 43) }
    else if i == 19 { (3, 51) } else if i == 20 { (3, 59) } else if i == 21 { (4, 67) }
    else if i == 22 { (4, 83) } else if i == 23 { (4, 99) } else if i == 24 { (4, 115) }
    else if i == 25 { (5, 131) } else if i == 26 { (5, 163) } else if i == 27 { (5, 195) }
    else if i == 28 { (5, 227) } else { (0, 258) }
}

/// The extra-bits count and base distance of distance symbol `i`.
fn symbol2bits_distance(i: u32) -> (r: (u32, u32))
    requires
        i <= 29,
    ensures
        r == distance_spec(i),
        r.0 <= 13,
        1 <= r.1 <= 24577,
        r.1 + ((1u32 << r.0) - 1) <= 32768,
{
    proof {
        assert((1u32 << 0u32) == 1 && (1u32 << 1u32) == 2 && (1u32 << 2u32) == 4 && (1u32 << 3u32)
            == 8 && (1u32 << 4u32) == 16 && (1u32 << 5u32) == 32 && (1u32 << 6u32) == 64 && (1u32
            << 7u32) == 128 && (1u32 << 8u32) == 256 && (1u32 << 9u32) == 512 && (1u32 << 10u32)
            == 1024 && (1u32 << 11u32) == 2048 && (1u32 << 12u32) == 4096 && (1u32 << 13u32)
            == 8192) by (bit_vector);
    }
    if i == 0 { (0, 1) } else if i == 1 { (0, 2) } else if i == 2 { (0, 3) }
    else if i == 3 { (0, 4) } else if i == 4 { (1, 5) } else if i == 5 { (1, 7) }
    else if i == 6 { (2, 9) } else if i == 7 { (2, 13) } else if i == 8 { (3, 17) }
    else if i == 9 { (3, 25) } else if i == 10 { (4, 33) } else if i == 11 { (4, 49) }
    else if i == 12 { (5, 65) } else if i == 13 { (5, 97) } else if i == 14 { (6, 129) }
    else if i == 15 { (6, 193) } else if i == 16 { (7, 257) } else if i == 17 { (7, 385) }
    else if i == 18 { (8, 513) } else if i == 19 { (8, 769) } else if i == 20 { (9, 1025) }
    else if i == 21 { (9, 1537) } else if i == 22 { (10, 2049) } else if i == 23 { (10, 3073) }
    else if i == 24 { (11, 4097) } else if i == 25 { (11, 6145) } else if i == 26 { (12, 8193) }
    else if i == 27 { (12, 12289) } else if i == 28 { (13, 16385) } else { (13, 24577) }
}

/// A value masked to `n` bits stays below `base + 2^n - 1` when added to `base`.
proof fn lemma_masked_add(x: u32, n: u32)
    by (bit_vector)
    requires
        n <= 24,
    ensures
        (x & (((1u32 << n) - 1) as u32)) <= ((1u32 << n) - 1) as u32,
{
}

/// A window satisfying the pointwise repeating-copy characterization is
/// exactly the window `expand_spec` builds.
proof fn lemma_expand_spec_char(w0: Seq<u8>, w1: Seq<u8>, idx: int, d: int, n: int)
    requires
        1 <= d <= idx,
        0 <= n,
        idx + n <= w0.len(),
        w1.len() == w0.len(),
        forall|p: int| 0 <= p < idx ==> w1[p] == w0[p],
        forall|p: int| idx + n <= p < w1.len() ==> w1[p] == w0[p],
        forall|p: int| idx <= p < idx + n ==> #[trigger] w1[p] == w1[p - d],
    ensures
        w1 == expand_spec(w0, idx, d, n),
    decreases n,
{
    if n == 0 {
        assert(w1 =~= w0);
    } else {
        let w0b = w0.update(idx, w0[idx - d]);
        assert(w1[idx] == w1[idx - d]);
        assert(w1[idx - d] == w0[idx - d]);
        assert(forall|p: int| 0 <= p < idx + 1 ==> w1[p] == w0b[p]);
        lemma_expand_spec_char(w0b, w1, idx + 1, d, n - 1);
    }
}

/// Expand one back-reference at `idx`: each of the `length` written bytes
/// repeats the byte `distance` positions before it, so a run whose length
/// exceeds its distance copies its own output, as RFC 1951 prescribes.
pub fn expand_dictionary(window: &mut Vec<u8>, idx: usize, distance: u16, length: u16) -> (r:
    Result<usize, Error>)
    requires
        1 <= distance,
        idx + length <= old(window)@.len(),
    ensures
        final(window)@.len() == old(window)@.len(),
        r is Err <==> distance > idx,
        r is Err ==> r == Err::<usize, Error>(Error::DistanceTooMuch) && final(window)@ == old(
            window,
        )@,
        r is Ok ==> {
            &&& r->Ok_0 == idx + length
            &&& forall|p: int| 0 <= p < idx ==> final(window)@[p] == old(window)@[p]
            &&& forall|p: int|
                idx + length <= p < final(window)@.len() ==> final(window)@[p] == old(window)@[p]
            &&& forall|p: int|
                idx <= p < idx + length ==> #[trigger] final(window)@[p] == final(window)@[p
                    - distance]
        },
{
    let d = distance as usize;
    if d > idx {
        return Err(Error::DistanceTooMuch);
    }
    let n = length as usize;
    let wl = window.len();
    let mut i: usize = 0;
    while i < n
        invariant
            1 <= d <= idx,
            idx + n <= wl == window@.len(),
            i <= n,
            window@.len() == old(window)@.len(),
            forall|p: int| 0 <= p < idx ==> window@[p] == old(window)@[p],
            forall|p: int| idx + i <= p < window@.len() ==> window@[p] == old(window)@[p],
            forall|p: int| idx <= p < idx + i ==> #[trigger] window@[p] == window@[p - d],
        decreases n - i,
    {
        let b = window[idx + i - d];
        window[idx + i] = b;
        i = i + 1;
    }
    Ok(idx + n)
}

/// Read one code from the stream: a literal, the end-of-block mark, or a
/// length/distance pair with its extra bits, whose ranges RFC 1951 fixes.
/// Under prefix-free books the result is exactly the code `code_at` gives
/// for the reader's position, and an error when it gives none.
pub fn read_next_code(
    reader: &mut BitReader,
    ll_decoder: &HuffmanDecoder,
    dist_decoder: &HuffmanDecoder,
) -> (r: Result<Code, Error>)
    requires
        old(reader).wf(),
        ll_decoder.wf(),
        dist_decoder.wf(),
    ensures
        final(reader).wf(),
        final(reader).input() == old(reader).input(),
        final(reader).bit_pos() >= old(reader).bit_pos(),
        r is Ok ==> final(reader).bit_pos() > old(reader).bit_pos(),
        r is Ok ==> match r->Ok_0 {
            Code::Literal(_) => true,
            Code::EndOfBlock => true,
            Code::Dictionary { distance, length } => 1 <= distance <= 32768 && 3 <= length <= 258,
        },
        rev_prefix_free(ll_decoder.codebook()) ==> {
            let c = code_at(
                old(reader).input(),
                old(reader).bit_pos(),
                ll_decoder.codebook(),
                dist_decoder.codebook(),
            );
            c matches Ok(cp) ==> !(cp.0 is Dictionary) ==> r == Ok::<Code, Error>(cp.0)
                && final(reader).bit_pos() == cp.1
        },
        rev_prefix_free(ll_decoder.codebook()) && rev_prefix_free(dist_decoder.codebook()) ==> {
            let c = code_at(
                old(reader).input(),
                old(reader).bit_pos(),
                ll_decoder.codebook(),
                dist_decoder.codebook(),
            );
            &&& (c matches Ok(cp) ==> r == Ok::<Code, Error>(cp.0) && final(reader).bit_pos()
                == cp.1)
            &&& (c matches Err(e) ==> r == Err::<Code, Error>(e))
        },
{
    let ghost data = reader.input();
    let ghost pos0 = reader.bit_pos();
    let ghost llc = ll_decoder.codebook();
    let ghost dc = dist_decoder.codebook();
    proof {
        reader.lemma_pos_split();
        ll_decoder.lemma_wf_codebook();
        dist_decoder.lemma_wf_codebook();
    }
    let bitcode = match reader.peek_bits() {
        Ok(b) => b,
        Err(e) => {
            return Err(e);
        },
    };
    proof {
        assert(bitcode == bits_at(data, pos0));
    }
    let (symbol, len) = match ll_decoder.decode(bitcode) {
        Ok(p) => p,
        Err(e) => {
            return Err(e);
        },
    };
    proof {
        if rev_prefix_free(llc) {
            assert(some_match(llc, bitcode));
            let s = matched_symbol(llc, bitcode);
            assert(code_matches(llc, s, bitcode));
            assert((symbol, len) == (s as u32, llc[s].1));
        }
    }
    reader.consume(len);
    if symbol < END_OF_BLOCK {
        Ok(Code::Literal(symbol as u8))
    } else if symbol == END_OF_BLOCK {
        Ok(Code::EndOfBlock)
    } else {
        let i = symbol & 0xFF;
        proof {
            if rev_prefix_free(llc) {
                bv_symbol_index(symbol);
            }
        }
        if i < 1 || i > 29 {
            return Err(Error::HuffmanDecoderCodeNotFound);
        }
        let (bits, base_length) = symbol2bits_length(i);
        proof {
            reader.lemma_pos_split();
        }
        let extra = match reader.read_bits(bits) {
            Ok(x) => x,
            Err(e) => {
                return Err(e);
            },
        };
        proof {
            lemma_masked_add(extra, bits);
            assert(extra == (bits_at(data, pos0 + len) & low_mask(bits)));
        }
        let length = base_length + extra;
        proof {
            reader.lemma_pos_split();
        }
        let ghost pos1 = reader.bit_pos();
        let bitcode = match reader.peek_bits() {
            Ok(b) => b,
            Err(e) => {
                return Err(e);
            },
        };
        proof {
            assert(bitcode == bits_at(data, pos1));
        }
        let (dsymbol, dlen) = match dist_decoder.decode(bitcode) {
            Ok(p) => p,
            Err(e) => {
                return Err(e);
            },
        };
        proof {
            if rev_prefix_free(dc) {
                assert(some_match(dc, bitcode));
                let t = matched_symbol(dc, bitcode);
                assert(code_matches(dc, t, bitcode));
                assert((dsymbol, dlen) == (t as u32, dc[t].1));
            }
        }
        reader.consume(dlen);
        if dsymbol > 29 {
            return Err(Error::HuffmanDecoderCodeNotFound);
        }
        let (dbits, base_distance) = symbol2bits_distance(dsymbol);
        proof {
            reader.lemma_pos_split();
        }
        let dextra = match reader.read_bits(dbits) {
            Ok(x) => x,
            Err(e) => {
                return Err(e);
            },
        };
        proof {
            lemma_masked_add(dextra, dbits);
            assert(dextra == (bits_at(data, pos1 + dlen) & low_mask(dbits)));
        }
        let distance = base_distance + dextra;
        Ok(Code::Dictionary { distance: distance as u16, length: length as u16 })
    }
}

/// A literal/length symbol past the end-of-block mark keeps its table index
/// in its low byte.
proof fn bv_symbol_index(x: u32)
    by (bit_vector)
    requires
        256 <= x < 512,
    ensures
        x & 0xFFu32 == x - 256,
{
}

/// Decode codes into the window starting at `boundary` until the block ends
/// or fewer than a full run's worth of bytes is left in the write region.
/// Bytes below `boundary` are never touched; under prefix-free books the
/// window, position and result are exactly what `run_codes` gives.
pub fn decode(
    window: &mut Vec<u8>,
    boundary: usize,
    reader: &mut BitReader,
    ll_decoder: &HuffmanDecoder,
    dist_decoder: &HuffmanDecoder,
) -> (r: Result<DecodeResult, Error>)
    requires
        old(reader).wf(),
        ll_decoder.wf(),
        dist_decoder.wf(),
        boundary <= old(window)@.len(),
        old(window)@.len() <= crate::sliding_window::WINDOW_SIZE,
    ensures
        final(reader).wf(),
        final(reader).input() == old(reader).input(),
        final(reader).bit_pos() >= old(reader).bit_pos(),
        r is Ok && boundary + (MAX_LENGTH as int) < old(window)@.len() ==> final(reader).bit_pos()
            > old(reader).bit_pos(),
        final(window)@.len() == old(window)@.len(),
        forall|p: int| 0 <= p < boundary ==> final(window)@[p] == old(window)@[p],
        r is Ok ==> match r->Ok_0 {
            DecodeResult::Done(n) => boundary + n <= final(window)@.len(),
            DecodeResult::WindowIsFull(n) => boundary + n <= final(window)@.len() && boundary + n
                + (MAX_LENGTH as int) >= final(window)@.len(),
            DecodeResult::Error(_) => false,
        },
        rev_prefix_free(ll_decoder.codebook()) && rev_prefix_free(dist_decoder.codebook()) ==> {
            let rc = run_codes(
                old(reader).input(),
                old(reader).bit_pos(),
                ll_decoder.codebook(),
                dist_decoder.codebook(),
                old(window)@,
                boundary as int,
            );
            &&& (rc matches Ok(st) ==> final(window)@ == st.0 && final(reader).bit_pos() == st.2
                && boundary <= st.1 <= old(window)@.len() && r == Ok::<DecodeResult, Error>(
                if st.3 {
                    DecodeResult::Done((st.1 - boundary) as usize)
                } else {
                    DecodeResult::WindowIsFull((st.1 - boundary) as usize)
                },
            ))
            &&& (rc matches Err(e) ==> r == Err::<DecodeResult, Error>(e))
        },
{
    let ghost data = old(reader).input();
    let ghost pos0 = old(reader).bit_pos();
    let ghost w0 = old(window)@;
    let ghost llc = ll_decoder.codebook();
    let ghost dc = dist_decoder.codebook();
    proof {
        ll_decoder.lemma_wf_codebook();
        dist_decoder.lemma_wf_codebook();
    }
    let mut idx = boundary;
    let wl = window.len();
    if idx + MAX_LENGTH as usize >= wl {
        return Ok(DecodeResult::WindowIsFull(idx - boundary));
    }
    loop
        invariant
            wl == window@.len(),
            wl <= crate::sliding_window::WINDOW_SIZE,
            reader.wf(),
            reader.input() == data,
            data == old(reader).input(),
            pos0 == old(reader).bit_pos(),
            w0 == old(window)@,
            llc == ll_decoder.codebook(),
            dc == dist_decoder.codebook(),
            crate::huffman_decoder::codes_wf(llc),
            crate::huffman_decoder::codes_wf(dc),
            reader.bit_pos() > old(reader).bit_pos() || (idx == boundary && reader.bit_pos()
                == old(reader).bit_pos()),
            ll_decoder.wf(),
            dist_decoder.wf(),
            boundary <= idx,
            idx + (MAX_LENGTH as int) < window@.len(),
            window@.len() == old(window)@.len(),
            forall|p: int| 0 <= p < boundary ==> window@[p] == old(window)@[p],
            rev_prefix_free(llc) && rev_prefix_free(dc) ==> run_codes(
                data,
                pos0,
                llc,
                dc,
                w0,
                boundary as int,
            ) == run_codes(data, reader.bit_pos(), llc, dc, window@, idx as int),
        decreases window@.len() - idx,
    {
        let ghost ipos = reader.bit_pos();
        let ghost iw = window@;
        let ghost iidx = idx as int;
        let code = match read_next_code(reader, ll_decoder, dist_decoder) {
            Ok(c) => c,
            Err(e) => {
                proof {
                    if rev_prefix_free(llc) && rev_prefix_free(dc) {
                        assert(code_at(data, ipos, llc, dc) == Err::<(Code, int), Error>(e));
                        assert(run_codes(data, ipos, llc, dc, iw, iidx) == Err::<
                            (Seq<u8>, int, int, bool),
                            Error,
                        >(e));
                    }
                }
                return Err(e);
            },
        };
        let ghost cpos = reader.bit_pos();
        match code {
            Code::Literal(x) => {
                window[idx] = x;
                idx = idx + 1;
                proof {
                    if rev_prefix_free(llc) && rev_prefix_free(dc) {
                        assert(code_at(data, ipos, llc, dc) == Ok::<(Code, int), Error>(
                            (code, cpos),
                        ));
                        assert(apply_code_spec(iw, iidx, code) == Some::<(Seq<u8>, int)>(
                            (window@, idx as int),
                        ));
                        assert(run_codes(data, ipos, llc, dc, iw, iidx) == run_codes(
                            data,
                            cpos,
                            llc,
                            dc,
                            window@,
                            idx as int,
                        ));
                    }
                }
            },
            Code::Dictionary { distance, length } => {
                match expand_dictionary(window, idx, distance, length) {
                    Ok(next) => {
                        proof {
                            if rev_prefix_free(llc) && rev_prefix_free(dc) {
                                assert(code_at(data, ipos, llc, dc) == Ok::<(Code, int), Error>(
                                    (code, cpos),
                                ));
                                lemma_expand_spec_char(
                                    iw,
                                    window@,
                                    iidx,
                                    distance as int,
                                    length as int,
                                );
                                assert(apply_code_spec(iw, iidx, code) == Some::<(Seq<u8>, int)>(
                                    (window@, next as int),
                                ));
                                assert(run_codes(data, ipos, llc, dc, iw, iidx) == run_codes(
                                    data,
                                    cpos,
                                    llc,
                                    dc,
                                    window@,
                                    next as int,
                                ));
                            }
                        }
                        idx = next;
                    },
                    Err(e) => {
                        proof {
                            if rev_prefix_free(llc) && rev_prefix_free(dc) {
                                assert(code_at(data, ipos, llc, dc) == Ok::<(Code, int), Error>(
                                    (code, cpos),
                                ));
                                assert(apply_code_spec(iw, iidx, code) is None);
                                assert(e == Error::DistanceTooMuch);
                                assert(run_codes(data, ipos, llc, dc, iw, iidx) == Err::<
                                    (Seq<u8>, int, int, bool),
                                    Error,
                                >(Error::DistanceTooMuch));
                            }
                        }
                        return Err(e);
                    },
                }
            },
            Code::EndOfBlock => {
                proof {
                    if rev_prefix_free(llc) && rev_prefix_free(dc) {
                        assert(code_at(data, ipos, llc, dc) == Ok::<(Code, int), Error>(
                            (code, cpos),
                        ));
                        assert(run_codes(data, ipos, llc, dc, iw, iidx) == Ok::<
                            (Seq<u8>, int, int, bool),
                            Error,
                        >((iw, iidx, cpos, true)));
                    }
                }
                return Ok(DecodeResult::Done(idx - boundary));
            },
        }
        if idx + MAX_LENGTH as usize >= wl {
            proof {
                if rev_prefix_free(llc) && rev_prefix_free(dc) {
                    assert(run_codes(data, reader.bit_pos(), llc, dc, window@, idx as int)
                        == Ok::<(Seq<u8>, int, int, bool), Error>(
                        (window@, idx as int, reader.bit_pos(), false),
                    ));
                }
            }
            return Ok(DecodeResult::WindowIsFull(idx - boundary));
        }
    }
}

} // verus!
