use vstd::prelude::*;
use crate::bitread::BitReader;
use crate::codebook::{codebook_of, CodeBook};
use crate::error::Error;
use crate::huffman_decoder::{code_matches, codes_wf, rev_prefix_free, HuffmanDecoder};
use crate::lz77::{
    bits_at, decode, lemma_run_codes_frame, matched_symbol, run_codes, some_match, DecodeResult,
    MAX_LENGTH,
};
use crate::sliding_window::{SlidingWindow, WINDOW_SIZE};

verus! {

broadcast use crate::bitread::BitReader::lemma_pos_bounds;

/// The position of the `i`-th three-bit value of a dynamic preamble in the
/// nineteen-entry code-length length array, per RFC 1951.
pub open spec fn cl_perm_spec(i: int) -> int {
    if i == 0 { 16 } else if i == 1 { 17 } else if i == 2 { 18 } else if i == 3 { 0 }
    else if i == 4 { 8 } else if i == 5 { 7 } else if i == 6 { 9 } else if i == 7 { 6 }
    else if i == 8 { 10 } else if i == 9 { 5 } else if i == 10 { 11 } else if i == 11 { 4 }
    else if i == 12 { 12 } else if i == 13 { 3 } else if i == 14 { 13 } else if i == 15 { 2 }
    else if i == 16 { 14 } else if i == 17 { 1 } else { 15 }
}

/// The nineteen code-length code lengths after the first `k` three-bit
/// fields at `pos` are placed at their permuted positions.
pub open spec fn cl_build(data: Seq<u8>, pos: int, k: int) -> Seq<u32>
    decreases k,
{
    if k <= 0 {
        Seq::new(19, |i: int| 0u32)
    } else {
        cl_build(data, pos, k - 1).update(
            cl_perm_spec(k - 1),
            (bits_at(data, pos + 3 * (k - 1)) & 7) as u32,
        )
    }
}

/// The code-length code book a dynamic preamble at `pos` declares.
pub open spec fn cl_book_at(data: Seq<u8>, pos: int) -> Seq<(u32, u32)> {
    let hclen = ((bits_at(data, pos + 10) & 0xF) as int) + 4;
    codebook_of(cl_build(data, pos + 14, hclen))
}

/// The run-length-encoded length table read with the code-length book
/// `clc` at `pos` until `need` lengths exist: the lengths and the position
/// reached. `UnexpectedEof` when the stream ends; `ReadDynamicCodebook`
/// when a code is missing, a repeat has nothing to repeat, a symbol is out
/// of range, or the count overshoots.
pub open spec fn rle_at(
    data: Seq<u8>,
    pos: int,
    clc: Seq<(u32, u32)>,
    need: int,
    acc: Seq<u32>,
) -> Result<(Seq<u32>, int), Error>
    decreases 8 * data.len() - pos
        when 0 <= pos <= 8 * data.len() && codes_wf(clc) via rle_at_dec
{
    if acc.len() >= need {
        if acc.len() == need {
            Ok((acc, pos))
        } else {
            Err(Error::ReadDynamicCodebook)
        }
    } else if pos / 8 + 4 > data.len() {
        Err(Error::UnexpectedEof)
    } else {
        let b = bits_at(data, pos);
        if !some_match(clc, b) {
            Err(Error::ReadDynamicCodebook)
        } else {
            let s = matched_symbol(clc, b);
            let pos1 = pos + clc[s].1;
            if s <= 15 {
                rle_at(data, pos1, clc, need, acc.push(s as u32))
            } else if s == 16 {
                if acc.len() == 0 {
                    Err(Error::ReadDynamicCodebook)
                } else if pos1 / 8 + 4 > data.len() {
                    Err(Error::UnexpectedEof)
                } else {
                    let run = 3 + (bits_at(data, pos1) & 3);
                    rle_at(
                        data,
                        pos1 + 2,
                        clc,
                        need,
                        acc + Seq::new(run as nat, |i: int| acc.last()),
                    )
                }
            } else if s == 17 {
                if pos1 / 8 + 4 > data.len() {
                    Err(Error::UnexpectedEof)
                } else {
                    let run = 3 + (bits_at(data, pos1) & 7);
                    rle_at(data, pos1 + 3, clc, need, acc + Seq::new(run as nat, |i: int| 0u32))
                }
            } else if s == 18 {
                if pos1 / 8 + 4 > data.len() {
                    Err(Error::UnexpectedEof)
                } else {
                    let run = 11 + (bits_at(data, pos1) & 0x7F);
                    rle_at(data, pos1 + 7, clc, need, acc + Seq::new(run as nat, |i: int| 0u32))
                }
            } else {
                Err(Error::ReadDynamicCodebook)
            }
        }
    }
}

#[via_fn]
proof fn rle_at_dec(data: Seq<u8>, pos: int, clc: Seq<(u32, u32)>, need: int, acc: Seq<u32>) {
    if acc.len() < need && pos / 8 + 4 <= data.len() {
        let b = bits_at(data, pos);
        if some_match(clc, b) {
            let s = matched_symbol(clc, b);
            assert(code_matches(clc, s, b));
            assert(1 <= clc[s].1 <= 15);
            crate::lz77::lemma_peek_pos_bound(pos, data.len() as int);
            let pos1 = pos + clc[s].1;
            if s == 16 || s == 17 || s == 18 {
                if pos1 / 8 + 4 <= data.len() {
                    crate::lz77::lemma_peek_pos_bound(pos1, data.len() as int);
                }
            }
        }
    }
}

/// The literal/length and distance length vectors a dynamic preamble at
/// `pos` declares, with the position past them. Meaningful when the
/// code-length book it declares is prefix-free.
pub open spec fn dynamic_books_at(data: Seq<u8>, pos: int) -> Result<
    (Seq<u32>, Seq<u32>, int),
    Error,
> {
    if (pos + 10) / 8 + 4 > data.len() {
        Err(Error::UnexpectedEof)
    } else {
        let hlit = ((bits_at(data, pos) & 0x1F) as int) + 257;
        let hdist = ((bits_at(data, pos + 5) & 0x1F) as int) + 1;
        let hclen = ((bits_at(data, pos + 10) & 0xF) as int) + 4;
        let pos0 = pos + 14;
        if (pos0 + 3 * (hclen - 1)) / 8 + 4 > data.len() {
            Err(Error::UnexpectedEof)
        } else {
            let clc = codebook_of(cl_build(data, pos0, hclen));
            match rle_at(data, pos0 + 3 * hclen, clc, hlit + hdist, Seq::empty()) {
                Err(e) => Err(e),
                Ok((lens, pos2)) => Ok((lens.take(hlit), lens.skip(hlit), pos2)),
            }
        }
    }
}

/// The order in which the dynamic preamble stores code-length code lengths,
/// per RFC 1951.
fn cl_permutation(i: usize) -> (r: usize)
    requires
        i < 19,
    ensures
        r < 19,
        r == cl_perm_spec(i as int),
{
    if i == 0 { 16 } else if i == 1 { 17 } else if i == 2 { 18 } else if i == 3 { 0 }
    else if i == 4 { 8 } else if i == 5 { 7 } else if i == 6 { 9 } else if i == 7 { 6 }
    else if i == 8 { 10 } else if i == 9 { 5 } else if i == 10 { 11 } else if i == 11 { 4 }
    else if i == 12 { 12 } else if i == 13 { 3 } else if i == 14 { 13 } else if i == 15 { 2 }
    else if i == 16 { 14 } else if i == 17 { 1 } else { 15 }
}

/// Read the dynamic code-book preamble: the code-length code, then the
/// run-length-encoded literal/length and distance length vectors, and build
/// both decoders. A malformed preamble fails with `ReadDynamicCodebook`.
/// When the declared code-length book is prefix-free, the books built are
/// exactly the canonical codes of the length vectors `dynamic_books_at`
/// reads at the stream position, and reading fails exactly when it has none.
#[verifier::rlimit(100)]
pub fn read_dynamic_codebooks(reader: &mut BitReader) -> (r: Result<
    (HuffmanDecoder, HuffmanDecoder),
    Error,
>)
    requires
        old(reader).wf(),
    ensures
        final(reader).wf(),
        final(reader).input() == old(reader).input(),
        final(reader).bit_pos() >= old(reader).bit_pos(),
        r is Ok ==> r->Ok_0.0.wf() && r->Ok_0.1.wf(),
        rev_prefix_free(cl_book_at(old(reader).input(), old(reader).bit_pos())) ==> {
            let books = dynamic_books_at(old(reader).input(), old(reader).bit_pos());
            &&& (books matches Ok(b) ==> r is Ok && r->Ok_0.0.codebook() == codebook_of(b.0)
                && r->Ok_0.1.codebook() == codebook_of(b.1) && final(reader).bit_pos() == b.2)
            &&& (books matches Err(e) ==> r == Err::<(HuffmanDecoder, HuffmanDecoder), Error>(e))
        },
{
    let ghost data = reader.input();
    let ghost pos = reader.bit_pos();
    proof {
        crate::bitread::lemma_shift_values();
        reader.lemma_pos_split();
    }
    let hlit = match reader.read_bits(5) {
        Ok(x) => x as usize + 257,
        Err(e) => {
            proof {
                vstd::arithmetic::div_mod::lemma_div_is_ordered(pos, pos + 10, 8);
            }
            return Err(e);
        },
    };
    proof {
        reader.lemma_pos_split();
    }
    let hdist = match reader.read_bits(5) {
        Ok(x) => x as usize + 1,
        Err(e) => {
            proof {
                vstd::arithmetic::div_mod::lemma_div_is_ordered(pos + 5, pos + 10, 8);
            }
            return Err(e);
        },
    };
    proof {
        reader.lemma_pos_split();
    }
    let hclen = match reader.read_bits(4) {
        Ok(x) => x as usize + 4,
        Err(e) => {
            return Err(e);
        },
    };
    proof {
        assert(hlit as int == ((bits_at(data, pos) & 0x1F) as int) + 257);
        assert(hdist as int == ((bits_at(data, pos + 5) & 0x1F) as int) + 1);
        assert(hclen as int == ((bits_at(data, pos + 10) & 0xF) as int) + 4);
    }
    let ghost pos0 = pos + 14;
    let ghost clc = cl_book_at(data, pos);
    let mut cl_lengths: Vec<u32> = Vec::new();
    let mut z: usize = 0;
    while z < 19
        invariant
            z <= 19,
            cl_lengths@.len() == z,
            forall|j: int| 0 <= j < z ==> cl_lengths@[j] == 0,
        decreases 19 - z,
    {
        cl_lengths.push(0);
        z = z + 1;
    }
    proof {
        assert(cl_lengths@ =~= cl_build(data, pos0, 0));
    }
    let mut i: usize = 0;
    while i < hclen
        invariant
            4 <= hclen <= 19,
            i <= hclen,
            reader.wf(),
            reader.input() == data,
            data == old(reader).input(),
            pos == old(reader).bit_pos(),
            reader.bit_pos() == pos0 + 3 * i,
            pos0 == pos + 14,
            0 <= pos,
            (pos + 10) / 8 + 4 <= data.len(),
            hclen as int == ((bits_at(data, pos + 10) & 0xF) as int) + 4,
            i >= 1 ==> (pos0 + 3 * (i - 1)) / 8 + 4 <= data.len(),
            cl_lengths@.len() == 19,
            forall|j: int| 0 <= j < 19 ==> cl_lengths@[j] <= 15,
            cl_lengths@ == cl_build(data, pos0, i as int),
        decreases hclen - i,
    {
        let idx = cl_permutation(i);
        proof {
            reader.lemma_pos_split();
            crate::bitread::lemma_shift_values();
        }
        let v = match reader.read_bits(3) {
            Ok(x) => x,
            Err(e) => {
                proof {
                    vstd::arithmetic::div_mod::lemma_div_is_ordered(
                        pos0 + 3 * i,
                        pos0 + 3 * (hclen - 1),
                        8,
                    );
                }
                return Err(e);
            },
        };
        cl_lengths[idx] = v;
        i = i + 1;
        proof {
            assert(cl_lengths@ == cl_build(data, pos0, i as int));
        }
    }
    let ghost rpos0 = reader.bit_pos();
    proof {
        assert(rpos0 == pos0 + 3 * (hclen as int));
        if (pos0 + 3 * (hclen as int - 1)) / 8 + 4 > data.len() {
            reader.lemma_pos_split();
            vstd::arithmetic::div_mod::lemma_div_is_ordered(
                pos0 + 3 * (hclen as int - 1),
                rpos0,
                8,
            );
            assert(false);
        }
    }
    let cl_codes = match CodeBook::new(cl_lengths.as_slice()) {
        Ok(cb) => cb,
        Err(e) => {
            proof {
                assert(crate::codebook::valid_lengths(cl_lengths@));
                assert(false);
            }
            return Err(e);
        },
    };
    proof {
        cl_codes.lemma_wf_facts();
        assert(cl_codes.codes() == clc);
    }
    let cl_decoder = HuffmanDecoder::new(cl_codes);

    // the literal/length and distance lengths come as one run-length-encoded
    // table of `hlit + hdist` entries
    let num_codes = hlit + hdist;
    let ghost need = num_codes as int;
    let mut lengths: Vec<u32> = Vec::new();
    while lengths.len() < num_codes
        invariant
            need == num_codes as int,
            257 <= hlit <= 288,
            1 <= hdist <= 32,
            num_codes == hlit + hdist,
            num_codes <= 320,
            reader.wf(),
            reader.input() == data,
            data == old(reader).input(),
            pos == old(reader).bit_pos(),
            reader.bit_pos() >= rpos0,
            0 <= pos <= rpos0,
            (pos + 10) / 8 + 4 <= data.len(),
            hlit as int == ((bits_at(data, pos) & 0x1F) as int) + 257,
            hdist as int == ((bits_at(data, pos + 5) & 0x1F) as int) + 1,
            hclen as int == ((bits_at(data, pos + 10) & 0xF) as int) + 4,
            pos0 == pos + 14,
            rpos0 == pos0 + 3 * (hclen as int),
            (pos0 + 3 * (hclen as int - 1)) / 8 + 4 <= data.len(),
            clc == cl_book_at(data, pos),
            cl_decoder.wf(),
            cl_decoder.codebook() == clc,
            codes_wf(clc),
            forall|j: int| 0 <= j < lengths@.len() ==> lengths@[j] <= 15,
            lengths@.len() <= num_codes + 138,
            rev_prefix_free(clc) ==> rle_at(data, rpos0, clc, need, Seq::empty()) == rle_at(
                data,
                reader.bit_pos(),
                clc,
                need,
                lengths@,
            ),
        decreases 8 * reader.input().len() - reader.bit_pos(),
    {
        proof {
            crate::bitread::lemma_shift_values();
            reader.lemma_pos_split();
        }
        let ghost ipos = reader.bit_pos();
        let ghost len0 = lengths@;
        let bits = match reader.peek_bits() {
            Ok(b) => b,
            Err(e) => {
                proof {
                    if rev_prefix_free(clc) {
                        assert(rle_at(data, ipos, clc, need, len0) == Err::<(Seq<u32>, int), Error>(
                            Error::UnexpectedEof,
                        ));
                    }
                }
                return Err(e);
            },
        };
        proof {
            assert(bits == bits_at(data, ipos));
        }
        let (cl_code, len) = match cl_decoder.decode(bits) {
            Ok(p) => p,
            Err(_) => {
                proof {
                    if rev_prefix_free(clc) {
                        assert(rle_at(data, ipos, clc, need, len0) == Err::<(Seq<u32>, int), Error>(
                            Error::ReadDynamicCodebook,
                        ));
                    }
                }
                return Err(Error::ReadDynamicCodebook);
            },
        };
        proof {
            if rev_prefix_free(clc) {
                assert(some_match(clc, bits));
                let s = matched_symbol(clc, bits);
                assert(code_matches(clc, s, bits));
                assert((cl_code, len) == (s as u32, clc[s].1));
            }
        }
        reader.consume(len);
        if cl_code <= 15 {
            lengths.push(cl_code);
            proof {
                if rev_prefix_free(clc) {
                    assert(rle_at(data, ipos, clc, need, len0) == rle_at(
                        data,
                        reader.bit_pos(),
                        clc,
                        need,
                        lengths@,
                    ));
                }
            }
        } else if cl_code == 16 {
            if lengths.len() == 0 {
                proof {
                    if rev_prefix_free(clc) {
                        assert(rle_at(data, ipos, clc, need, len0) == Err::<(Seq<u32>, int), Error>(
                            Error::ReadDynamicCodebook,
                        ));
                    }
                }
                return Err(Error::ReadDynamicCodebook);
            }
            proof {
                reader.lemma_pos_split();
            }
            let extra = match reader.read_bits(2) {
                Ok(x) => x,
                Err(e) => {
                    proof {
                        if rev_prefix_free(clc) {
                            assert(rle_at(data, ipos, clc, need, len0) == Err::<
                                (Seq<u32>, int),
                                Error,
                            >(Error::UnexpectedEof));
                        }
                    }
                    return Err(e);
                },
            };
            let count = 3 + extra as usize;
            let x = lengths[lengths.len() - 1];
            let ghost mid = lengths@;
            let mut c: usize = 0;
            while c < count
                invariant
                    count <= 6,
                    c <= count,
                    x <= 15,
                    x == mid.last(),
                    mid.len() >= 1,
                    lengths@ == mid + Seq::new(c as nat, |q: int| x),
                    forall|j: int| 0 <= j < mid.len() ==> mid[j] <= 15,
                decreases count - c,
            {
                lengths.push(x);
                c = c + 1;
                proof {
                    assert(lengths@ =~= mid + Seq::new(c as nat, |q: int| x));
                }
            }
            proof {
                if rev_prefix_free(clc) {
                    assert(lengths@ =~= len0 + Seq::new(
                        (3 + (bits_at(data, ipos + clc[matched_symbol(clc, bits)].1) & 3)) as nat,
                        |q: int| len0.last(),
                    ));
                    assert(rle_at(data, ipos, clc, need, len0) == rle_at(
                        data,
                        reader.bit_pos(),
                        clc,
                        need,
                        lengths@,
                    ));
                }
            }
        } else if cl_code == 17 {
            proof {
                reader.lemma_pos_split();
            }
            let extra = match reader.read_bits(3) {
                Ok(x) => x,
                Err(e) => {
                    proof {
                        if rev_prefix_free(clc) {
                            assert(rle_at(data, ipos, clc, need, len0) == Err::<
                                (Seq<u32>, int),
                                Error,
                            >(Error::UnexpectedEof));
                        }
                    }
                    return Err(e);
                },
            };
            let count = 3 + extra as usize;
            let ghost mid = lengths@;
            let mut c: usize = 0;
            while c < count
                invariant
                    count <= 10,
                    c <= count,
                    lengths@ == mid + Seq::new(c as nat, |q: int| 0u32),
                    forall|j: int| 0 <= j < mid.len() ==> mid[j] <= 15,
                decreases count - c,
            {
                lengths.push(0);
                c = c + 1;
                proof {
                    assert(lengths@ =~= mid + Seq::new(c as nat, |q: int| 0u32));
                }
            }
            proof {
                if rev_prefix_free(clc) {
                    assert(lengths@ =~= len0 + Seq::new(
                        (3 + (bits_at(data, ipos + clc[matched_symbol(clc, bits)].1) & 7)) as nat,
                        |q: int| 0u32,
                    ));
                    assert(rle_at(data, ipos, clc, need, len0) == rle_at(
                        data,
                        reader.bit_pos(),
                        clc,
                        need,
                        lengths@,
                    ));
                }
            }
        } else if cl_code == 18 {
            proof {
                reader.lemma_pos_split();
            }
            let extra = match reader.read_bits(7) {
                Ok(x) => x,
                Err(e) => {
                    proof {
                        if rev_prefix_free(clc) {
                            assert(rle_at(data, ipos, clc, need, len0) == Err::<
                                (Seq<u32>, int),
                                Error,
                            >(Error::UnexpectedEof));
                        }
                    }
                    return Err(e);
                },
            };
            let count = 11 + extra as usize;
            let ghost mid = lengths@;
            let mut c: usize = 0;
            while c < count
                invariant
                    count <= 138,
                    c <= count,
                    lengths@ == mid + Seq::new(c as nat, |q: int| 0u32),
                    forall|j: int| 0 <= j < mid.len() ==> mid[j] <= 15,
                decreases count - c,
            {
                lengths.push(0);
                c = c + 1;
                proof {
                    assert(lengths@ =~= mid + Seq::new(c as nat, |q: int| 0u32));
                }
            }
            proof {
                if rev_prefix_free(clc) {
                    assert(lengths@ =~= len0 + Seq::new(
                        (11 + (bits_at(data, ipos + clc[matched_symbol(clc, bits)].1)
                            & 0x7F)) as nat,
                        |q: int| 0u32,
                    ));
                    assert(rle_at(data, ipos, clc, need, len0) == rle_at(
                        data,
                        reader.bit_pos(),
                        clc,
                        need,
                        lengths@,
                    ));
                }
            }
        } else {
            proof {
                if rev_prefix_free(clc) {
                    assert(rle_at(data, ipos, clc, need, len0) == Err::<(Seq<u32>, int), Error>(
                        Error::ReadDynamicCodebook,
                    ));
                }
            }
            return Err(Error::ReadDynamicCodebook);
        }
    }

    if lengths.len() != num_codes {
        proof {
            if rev_prefix_free(clc) {
                assert(rle_at(data, reader.bit_pos(), clc, need, lengths@) == Err::<
                    (Seq<u32>, int),
                    Error,
                >(Error::ReadDynamicCodebook));
            }
        }
        return Err(Error::ReadDynamicCodebook);
    }
    proof {
        if rev_prefix_free(clc) {
            assert(rle_at(data, reader.bit_pos(), clc, need, lengths@) == Ok::<(Seq<u32>, int), Error>(
                (lengths@, reader.bit_pos()),
            ));
        }
    }
    let mut ll_lengths: Vec<u32> = Vec::new();
    let mut j: usize = 0;
    while j < hlit
        invariant
            hlit <= lengths@.len(),
            j <= hlit,
            ll_lengths@.len() == j,
            forall|q: int| 0 <= q < lengths@.len() ==> lengths@[q] <= 15,
            forall|q: int| 0 <= q < j ==> ll_lengths@[q] == lengths@[q],
        decreases hlit - j,
    {
        ll_lengths.push(lengths[j]);
        j = j + 1;
    }
    let mut dist_lengths: Vec<u32> = Vec::new();
    while j < lengths.len()
        invariant
            hlit <= j <= lengths@.len(),
            dist_lengths@.len() == j - hlit,
            forall|q: int| 0 <= q < lengths@.len() ==> lengths@[q] <= 15,
            forall|q: int| 0 <= q < j - hlit ==> dist_lengths@[q] == lengths@[hlit + q],
        decreases lengths@.len() - j,
    {
        dist_lengths.push(lengths[j]);
        j = j + 1;
    }
    proof {
        assert(ll_lengths@ =~= lengths@.take(hlit as int));
        assert(dist_lengths@ =~= lengths@.skip(hlit as int));
    }
    let ll_codes = match CodeBook::new(ll_lengths.as_slice()) {
        Ok(cb) => cb,
        Err(e) => {
            proof {
                assert(crate::codebook::valid_lengths(ll_lengths@));
                assert(false);
            }
            return Err(e);
        },
    };
    let dist_codes = match CodeBook::new(dist_lengths.as_slice()) {
        Ok(cb) => cb,
        Err(e) => {
            proof {
                assert(crate::codebook::valid_lengths(dist_lengths@));
                assert(false);
            }
            return Err(e);
        },
    };
    proof {
        ll_codes.lemma_wf_facts();
        dist_codes.lemma_wf_facts();
    }
    Ok((HuffmanDecoder::new(ll_codes), HuffmanDecoder::new(dist_codes)))
}

/// The window after its cursor moved to `end`: past 32 KiB the most recent
/// 32 KiB is moved down to the front, as `SlidingWindow::slide` does it.
pub open spec fn slide_spec(w: Seq<u8>, end: int) -> (Seq<u8>, int) {
    if end <= 32768 {
        (w, end)
    } else {
        (w.subrange(end - 32768, end) + w.skip(32768), 32768)
    }
}

/// One Huffman block drained: rounds of `run_codes` and window slides until
/// the end-of-block symbol, every round's bytes appended to `out`.
pub open spec fn drain_at(
    data: Seq<u8>,
    pos: int,
    llc: Seq<(u32, u32)>,
    dc: Seq<(u32, u32)>,
    w: Seq<u8>,
    cur: int,
    out: Seq<u8>,
) -> Result<(Seq<u8>, int, int, Seq<u8>), Error>
    decreases 8 * data.len() - pos
        when 0 <= pos <= 8 * data.len() && codes_wf(llc) && codes_wf(dc) && w.len()
            == WINDOW_SIZE && 0 <= cur <= 32768 via drain_at_dec
{
    match run_codes(data, pos, llc, dc, w, cur) {
        Err(e) => Err(e),
        Ok(st) => {
            let out2 = out + st.0.subrange(cur, st.1);
            let slid = slide_spec(st.0, st.1);
            if st.3 {
                Ok((slid.0, slid.1, st.2, out2))
            } else {
                drain_at(data, st.2, llc, dc, slid.0, slid.1, out2)
            }
        },
    }
}

#[via_fn]
proof fn drain_at_dec(
    data: Seq<u8>,
    pos: int,
    llc: Seq<(u32, u32)>,
    dc: Seq<(u32, u32)>,
    w: Seq<u8>,
    cur: int,
    out: Seq<u8>,
) {
    lemma_run_codes_frame(data, pos, llc, dc, w, cur);
}

/// What a drained block guarantees: the window keeps its size, the cursor
/// lands at or below 32 KiB, the position only grows — strictly — and stays
/// inside the stream, and the old output is a prefix of the new one.
pub proof fn lemma_drain_frame(
    data: Seq<u8>,
    pos: int,
    llc: Seq<(u32, u32)>,
    dc: Seq<(u32, u32)>,
    w: Seq<u8>,
    cur: int,
    out: Seq<u8>,
)
    requires
        0 <= pos <= 8 * data.len(),
        codes_wf(llc),
        codes_wf(dc),
        w.len() == WINDOW_SIZE,
        0 <= cur <= 32768,
    ensures
        drain_at(data, pos, llc, dc, w, cur, out) matches Ok(st) ==> {
            &&& st.0.len() == WINDOW_SIZE
            &&& 0 <= st.1 <= 32768
            &&& pos < st.2 <= 8 * data.len()
            &&& out.is_prefix_of(st.3)
        },
    decreases 8 * data.len() - pos,
{
    lemma_run_codes_frame(data, pos, llc, dc, w, cur);
    match run_codes(data, pos, llc, dc, w, cur) {
        Err(_) => {},
        Ok(st) => {
            let out2 = out + st.0.subrange(cur, st.1);
            assert(out.is_prefix_of(out2));
            let slid = slide_spec(st.0, st.1);
            if !st.3 {
                lemma_drain_frame(data, st.2, llc, dc, slid.0, slid.1, out2);
            }
        },
    }
}

/// A whole DEFLATE stream decoded at `pos`: blocks in order until the one
/// marked final, each one's bytes appended to `out`, with the window, its
/// cursor and the bit position carried across blocks. `None` when a book
/// met on the way is not prefix-free, so that nothing is claimed of it.
pub open spec fn blocks_at(
    data: Seq<u8>,
    pos: int,
    w: Seq<u8>,
    cur: int,
    out: Seq<u8>,
) -> Option<Result<(Seq<u8>, int, int, Seq<u8>), Error>>
    decreases 8 * data.len() - pos
        when 0 <= pos <= 8 * data.len() && w.len() == WINDOW_SIZE && 0 <= cur <= 32768
            via blocks_at_dec
{
    if pos / 8 + 4 > data.len() {
        Some(Err(Error::UnexpectedEof))
    } else {
        let hdr = bits_at(data, pos) & 7;
        let bfinal = hdr & 1 == 1;
        let btype = hdr & 6;
        if btype == 6 {
            Some(Err(Error::InvalidBlockType))
        } else if btype == 0 {
            let b0 = crate::bitread::byte_ceil(pos + 3);
            let blen = (crate::bitread::le32_at(data, b0) & crate::bitread::low_mask(16)) as int;
            let bnlen = (crate::bitread::le32_at(data, b0 + 2) & crate::bitread::low_mask(
                16,
            )) as int;
            if b0 + 6 > data.len() {
                Some(Err(Error::UnexpectedEof))
            } else if ((blen as u32) ^ (bnlen as u32)) != 0xFFFF {
                Some(Err(Error::BlockType0LenMismatch))
            } else if b0 + 4 + blen > data.len() {
                Some(Err(Error::UnexpectedEof))
            } else {
                let payload = data.subrange(b0 + 4, b0 + 4 + blen);
                let slid = slide_spec(w.subrange(0, cur) + payload + w.skip(cur + blen), cur + blen);
                let pos2 = 8 * (b0 + 4 + blen);
                if bfinal {
                    Some(Ok((slid.0, slid.1, pos2, out + payload)))
                } else {
                    blocks_at(data, pos2, slid.0, slid.1, out + payload)
                }
            }
        } else if btype == 2 {
            let llc = codebook_of(crate::codebook::fixed_ll_lengths());
            let dc = codebook_of(crate::codebook::fixed_dist_lengths());
            if !rev_prefix_free(llc) || !rev_prefix_free(dc) {
                None
            } else {
                match drain_at(data, pos + 3, llc, dc, w, cur, out) {
                    Err(e) => Some(Err(e)),
                    Ok(st) => if bfinal {
                        Some(Ok(st))
                    } else {
                        blocks_at(data, st.2, st.0, st.1, st.3)
                    },
                }
            }
        } else {
            if !rev_prefix_free(cl_book_at(data, pos + 3)) {
                None
            } else {
                match dynamic_books_at(data, pos + 3) {
                    Err(e) => Some(Err(e)),
                    Ok(b) => {
                        let llc = codebook_of(b.0);
                        let dc = codebook_of(b.1);
                        if !rev_prefix_free(llc) || !rev_prefix_free(dc) {
                            None
                        } else {
                            match drain_at(data, b.2, llc, dc, w, cur, out) {
                                Err(e) => Some(Err(e)),
                                Ok(st) => if bfinal {
                                    Some(Ok(st))
                                } else {
                                    blocks_at(data, st.2, st.0, st.1, st.3)
                                },
                            }
                        }
                    },
                }
            }
        }
    }
}

#[via_fn]
proof fn blocks_at_dec(data: Seq<u8>, pos: int, w: Seq<u8>, cur: int, out: Seq<u8>) {
    let len = data.len() as int;
    if pos / 8 + 4 <= len {
        crate::lz77::lemma_peek_pos_bound(pos, len);
        crate::bitread::lemma_shift_values();
        let hdr = bits_at(data, pos) & 7;
        let btype = hdr & 6;
        if btype == 0 {
            let b0 = crate::bitread::byte_ceil(pos + 3);
            vstd::arithmetic::div_mod::lemma_fundamental_div_mod(pos + 3, 8);
            assert(8 * b0 >= pos + 3);
            let v = crate::bitread::le32_at(data, b0);
            assert(v & crate::bitread::low_mask(16) <= 0xFFFF) by (bit_vector);
            let blen = (v & crate::bitread::low_mask(16)) as int;
            if b0 + 6 <= len && b0 + 4 + blen <= len {
                assert(cur + blen <= w.len());
                let payload = data.subrange(b0 + 4, b0 + 4 + blen);
                let spliced = w.subrange(0, cur) + payload + w.skip(cur + blen);
                assert(spliced.len() == w.len());
            }
        } else if btype == 2 {
            let llc = codebook_of(crate::codebook::fixed_ll_lengths());
            let dc = codebook_of(crate::codebook::fixed_dist_lengths());
            if rev_prefix_free(llc) && rev_prefix_free(dc) {
                lemma_drain_frame(data, pos + 3, llc, dc, w, cur, out);
            }
        } else if btype != 6 {
            if rev_prefix_free(cl_book_at(data, pos + 3)) {
                match dynamic_books_at(data, pos + 3) {
                    Err(_) => {},
                    Ok(b) => {
                        lemma_dynamic_books_pos(data, pos + 3);
                        let llc = codebook_of(b.0);
                        let dc = codebook_of(b.1);
                        if rev_prefix_free(llc) && rev_prefix_free(dc) {
                            lemma_drain_frame(data, b.2, llc, dc, w, cur, out);
                        }
                    },
                }
            }
        }
    }
}

/// The code-length length array holds nineteen values of at most seven.
proof fn lemma_cl_build_wf(data: Seq<u8>, pos: int, k: int)
    ensures
        cl_build(data, pos, k).len() == 19,
        forall|j: int| 0 <= j < 19 ==> #[trigger] cl_build(data, pos, k)[j] <= 7,
    decreases k,
{
    crate::bitread::lemma_shift_values();
    if k > 0 {
        lemma_cl_build_wf(data, pos, k - 1);
        let v = bits_at(data, pos + 3 * (k - 1));
        assert(v & 7 <= 7) by (bit_vector);
    }
}

/// A finished run-length decoding ends at or past where it began, inside
/// the stream, with exactly the wanted count of lengths, none over 15.
proof fn lemma_rle_pos(data: Seq<u8>, pos: int, clc: Seq<(u32, u32)>, need: int, acc: Seq<u32>)
    requires
        0 <= pos <= 8 * data.len(),
        codes_wf(clc),
        forall|j: int| 0 <= j < acc.len() ==> acc[j] <= 15,
    ensures
        rle_at(data, pos, clc, need, acc) matches Ok(p) ==> pos <= p.1 <= 8 * data.len()
            && p.0.len() == need && (forall|j: int| 0 <= j < p.0.len() ==> p.0[j] <= 15),
    decreases 8 * data.len() - pos,
{
    let len = data.len() as int;
    if acc.len() < need && pos / 8 + 4 <= len {
        let b = bits_at(data, pos);
        if some_match(clc, b) {
            let s = matched_symbol(clc, b);
            assert(code_matches(clc, s, b));
            crate::lz77::lemma_peek_pos_bound(pos, len);
            let pos1 = pos + clc[s].1;
            if s <= 15 {
                let acc2 = acc.push(s as u32);
                assert(forall|j: int| 0 <= j < acc2.len() ==> acc2[j] <= 15);
                lemma_rle_pos(data, pos1, clc, need, acc2);
            } else if s == 16 {
                if acc.len() != 0 && pos1 / 8 + 4 <= len {
                    crate::lz77::lemma_peek_pos_bound(pos1, len);
                    let run = 3 + (bits_at(data, pos1) & 3);
                    let acc2 = acc + Seq::new(run as nat, |i: int| acc.last());
                    assert(forall|j: int| 0 <= j < acc2.len() ==> acc2[j] <= 15);
                    lemma_rle_pos(data, pos1 + 2, clc, need, acc2);
                }
            } else if s == 17 {
                if pos1 / 8 + 4 <= len {
                    crate::lz77::lemma_peek_pos_bound(pos1, len);
                    let run = 3 + (bits_at(data, pos1) & 7);
                    let acc2 = acc + Seq::new(run as nat, |i: int| 0u32);
                    assert(forall|j: int| 0 <= j < acc2.len() ==> acc2[j] <= 15);
                    lemma_rle_pos(data, pos1 + 3, clc, need, acc2);
                }
            } else if s == 18 {
                if pos1 / 8 + 4 <= len {
                    crate::lz77::lemma_peek_pos_bound(pos1, len);
                    let run = 11 + (bits_at(data, pos1) & 0x7F);
                    let acc2 = acc + Seq::new(run as nat, |i: int| 0u32);
                    assert(forall|j: int| 0 <= j < acc2.len() ==> acc2[j] <= 15);
                    lemma_rle_pos(data, pos1 + 7, clc, need, acc2);
                }
            }
        }
    }
}

/// A well-formed dynamic preamble's books end strictly past where it began,
/// inside the stream, and are well-formed code books.
pub proof fn lemma_dynamic_books_pos(data: Seq<u8>, pos: int)
    requires
        0 <= pos,
    ensures
        dynamic_books_at(data, pos) matches Ok(b) ==> pos < b.2 <= 8 * data.len() && codes_wf(
            codebook_of(b.0),
        ) && codes_wf(codebook_of(b.1)),
{
    let len = data.len() as int;
    if (pos + 10) / 8 + 4 <= len {
        crate::lz77::lemma_peek_pos_bound(pos + 10, len);
        let hclen = ((bits_at(data, pos + 10) & 0xF) as int) + 4;
        crate::bitread::lemma_shift_values();
        assert(bits_at(data, pos + 10) & 0xF <= 15) by {
            let v = bits_at(data, pos + 10);
            assert(v & 0xF <= 15) by (bit_vector);
        }
        let pos0 = pos + 14;
        if (pos0 + 3 * (hclen - 1)) / 8 + 4 <= len {
            crate::lz77::lemma_peek_pos_bound(pos0 + 3 * (hclen - 1), len);
            let hlit = ((bits_at(data, pos) & 0x1F) as int) + 257;
            let hdist = ((bits_at(data, pos + 5) & 0x1F) as int) + 1;
            let clc = codebook_of(cl_build(data, pos0, hclen));
            lemma_cl_build_wf(data, pos0, hclen);
            assert(codes_wf(clc));
            lemma_rle_pos(data, pos0 + 3 * hclen, clc, hlit + hdist, Seq::empty());
            match rle_at(data, pos0 + 3 * hclen, clc, hlit + hdist, Seq::empty()) {
                Err(_) => {},
                Ok(p) => {
                    let v0 = bits_at(data, pos);
                    let v5 = bits_at(data, pos + 5);
                    assert(v0 & 0x1F <= 31) by (bit_vector);
                    assert(v5 & 0x1F <= 31) by (bit_vector);
                    let ll = p.0.take(hlit);
                    let dd = p.0.skip(hlit);
                    assert forall|j: int| 0 <= j < codebook_of(ll).len() implies (
                    #[trigger] codebook_of(ll)[j]).1 <= 15 by {
                        assert(ll[j] == p.0[j]);
                    }
                    assert forall|j: int| 0 <= j < codebook_of(dd).len() implies (
                    #[trigger] codebook_of(dd)[j]).1 <= 15 by {
                        assert(dd[j] == p.0[hlit + j]);
                    }
                    assert(codes_wf(codebook_of(ll)));
                    assert(codes_wf(codebook_of(dd)));
                },
            }
        }
    }
}

/// A one-stream DEFLATE decoder/// A one-stream DEFLATE decoder: reads blocks from its reader until the
/// final one ends and collects the decompressed bytes.
pub struct Inflate {
    reader: BitReader,
    window: SlidingWindow,
    output: Vec<u8>,
}

impl Inflate {
    pub closed spec fn wf(self) -> bool {
        &&& self.reader.wf()
        &&& self.window.wf()
        &&& self.window.data@.len() == WINDOW_SIZE
    }

    /// The bytes decompressed so far.
    pub closed spec fn output(self) -> Seq<u8> {
        self.output@
    }

    /// The reader the blocks are read from.
    pub closed spec fn reader(self) -> BitReader {
        self.reader
    }

    /// The decoded history and write region.
    pub closed spec fn window_data(self) -> Seq<u8> {
        self.window.data@
    }

    /// The window's write cursor.
    pub closed spec fn window_cur(self) -> int {
        self.window.cur()
    }

    pub fn new(reader: BitReader) -> (r: Self)
        requires
            reader.wf(),
        ensures
            r.wf(),
            r.output() == Seq::<u8>::empty(),
            r.reader() == reader,
    {
        Inflate { reader, window: SlidingWindow::new(), output: Vec::new() }
    }

    /// Decode DEFLATE blocks until the one marked final ends; the collected
    /// bytes are the stream's decompressed output, after whatever the
    /// decoder held already.
    #[verifier::rlimit(100)]
    #[verifier::spinoff_prover]
    pub fn run(self) -> (r: Result<Vec<u8>, Error>)
        requires
            self.wf(),
        ensures
            r is Ok ==> r->Ok_0@.len() >= self.output().len() && r->Ok_0@.subrange(
                0,
                self.output().len() as int,
            ) == self.output(),
            ({
                let ba = blocks_at(
                    self.reader().input(),
                    self.reader().bit_pos(),
                    self.window_data(),
                    self.window_cur(),
                    self.output(),
                );
                &&& (ba matches Some(res) ==> match (res, r) {
                    (Ok(st), Ok(out)) => out@ == st.3,
                    (Err(e1), Err(e2)) => e1 == e2,
                    _ => false,
                })
            }),
    {
        let mut this = self;
        let ghost inp0 = this.reader.input();
        let ghost out0 = this.output@;
        let ghost pos_init = this.reader.bit_pos();
        let ghost w_init = this.window.data@;
        let ghost cur_init = this.window.cur();
        let ghost ba0 = blocks_at(inp0, pos_init, w_init, cur_init, out0);
        loop
            invariant
                this.wf(),
                this.reader.input() == inp0,
                inp0 == self.reader().input(),
                out0 == self.output(),
                pos_init == self.reader().bit_pos(),
                w_init == self.window_data(),
                cur_init == self.window_cur(),
                ba0 == blocks_at(inp0, pos_init, w_init, cur_init, out0),
                this.output@.len() >= out0.len(),
                this.output@.subrange(0, out0.len() as int) == out0,
                ba0 matches Some(_) ==> ba0 == blocks_at(
                    inp0,
                    this.reader.bit_pos(),
                    this.window.data@,
                    this.window.cur(),
                    this.output@,
                ),
            decreases 8 * this.reader.input().len() - this.reader.bit_pos(),
        {
            let ghost pos0 = this.reader.bit_pos();
            let ghost w0 = this.window.data@;
            let ghost cur0 = this.window.cur();
            let ghost outp = this.output@;
            proof {
                this.reader.lemma_pos_split();
                crate::bitread::lemma_shift_values();
            }
            let header = match this.reader.read_bits(3) {
                Ok(x) => x,
                Err(e) => {
                    return Err(e);
                },
            };
            proof {
                assert(header == bits_at(inp0, pos0) & 7);
            }
            let is_final = header & 1 == 1;
            let btype = header & 0b110;
            proof {
                let h = header;
                assert(h & 6 == 0 || h & 6 == 2 || h & 6 == 4 || h & 6 == 6) by (bit_vector);
            }
            let ghost cur_blocks = blocks_at(inp0, pos0, w0, cur0, outp);
            if btype == 0b000 {
                match this.inflate_block0() {
                    Ok(()) => {},
                    Err(e) => {
                        proof {
                            if ba0 matches Some(_) {
                                assert(cur_blocks == Some(Err::<
                                    (Seq<u8>, int, int, Seq<u8>),
                                    Error,
                                >(e)));
                            }
                        }
                        return Err(e);
                    },
                }
                proof {
                    if ba0 matches Some(_) && !is_final {
                        assert(cur_blocks == blocks_at(
                            inp0,
                            this.reader.bit_pos(),
                            this.window.data@,
                            this.window.cur(),
                            this.output@,
                        ));
                    }
                }
            } else if btype == 0b010 {
                let ll_book = CodeBook::default_ll();
                let dist_book = CodeBook::default_dist();
                proof {
                    ll_book.lemma_wf_facts();
                    dist_book.lemma_wf_facts();
                }
                let ll_decoder = HuffmanDecoder::new(ll_book);
                let dist_decoder = HuffmanDecoder::new(dist_book);
                proof {
                    assert(ll_decoder.codebook() == codebook_of(
                        crate::codebook::fixed_ll_lengths(),
                    ));
                    assert(dist_decoder.codebook() == codebook_of(
                        crate::codebook::fixed_dist_lengths(),
                    ));
                }
                match this.inflate(&ll_decoder, &dist_decoder) {
                    Ok(()) => {},
                    Err(e) => {
                        proof {
                            if ba0 matches Some(_) {
                                assert(cur_blocks == Some(Err::<
                                    (Seq<u8>, int, int, Seq<u8>),
                                    Error,
                                >(e)));
                            }
                        }
                        return Err(e);
                    },
                }
                proof {
                    if ba0 matches Some(_) && !is_final {
                        assert(cur_blocks == blocks_at(
                            inp0,
                            this.reader.bit_pos(),
                            this.window.data@,
                            this.window.cur(),
                            this.output@,
                        ));
                    }
                }
            } else if btype == 0b100 {
                let (ll_decoder, dist_decoder) = match read_dynamic_codebooks(&mut this.reader) {
                    Ok(p) => p,
                    Err(e) => {
                        proof {
                            if ba0 matches Some(_) {
                                assert(cur_blocks == Some(Err::<
                                    (Seq<u8>, int, int, Seq<u8>),
                                    Error,
                                >(e)));
                            }
                        }
                        return Err(e);
                    },
                };
                proof {
                    if ba0 matches Some(_) {
                        lemma_dynamic_books_pos(inp0, pos0 + 3);
                    }
                }
                match this.inflate(&ll_decoder, &dist_decoder) {
                    Ok(()) => {},
                    Err(e) => {
                        proof {
                            if ba0 matches Some(_) {
                                assert(cur_blocks == Some(Err::<
                                    (Seq<u8>, int, int, Seq<u8>),
                                    Error,
                                >(e)));
                            }
                        }
                        return Err(e);
                    },
                }
                proof {
                    if ba0 matches Some(_) && !is_final {
                        assert(cur_blocks == blocks_at(
                            inp0,
                            this.reader.bit_pos(),
                            this.window.data@,
                            this.window.cur(),
                            this.output@,
                        ));
                    }
                }
            } else {
                return Err(Error::InvalidBlockType);
            }
            if is_final {
                proof {
                    if ba0 matches Some(_) {
                        assert(cur_blocks matches Some(res) && res matches Ok(st) && st.3
                            == this.output@);
                    }
                }
                return Ok(this.output);
            }
            proof {
                assert(this.reader.bit_pos() > pos0);
            }
        }
    }

    /// Decode one stored block: align, check the LEN/NLEN complement, copy
    /// the LEN bytes after the four framing bytes verbatim through the
    /// window — which slides past them — to the output. The reader is
    /// byte-aligned afterwards.
    fn inflate_block0(&mut self) -> (r: Result<(), Error>)
        requires
            old(self).wf(),
        ensures
            final(self).wf(),
            final(self).reader.input() == old(self).reader.input(),
            final(self).reader.bit_pos() >= old(self).reader.bit_pos(),
            final(self).output().len() >= old(self).output().len(),
            final(self).output().subrange(0, old(self).output().len() as int) == old(
                self,
            ).output(),
            r is Ok ==> final(self).reader.aligned(),
            ({
                let data = old(self).reader.input();
                let b0 = crate::bitread::byte_ceil(old(self).reader.bit_pos());
                let blen = (crate::bitread::le32_at(data, b0) & crate::bitread::low_mask(
                    16,
                )) as int;
                let bnlen = (crate::bitread::le32_at(data, b0 + 2) & crate::bitread::low_mask(
                    16,
                )) as int;
                let cur = old(self).window.cur();
                let w = old(self).window.data@;
                &&& (b0 + 6 > data.len() ==> r == Err::<(), Error>(Error::UnexpectedEof))
                &&& (b0 + 6 <= data.len() && ((blen as u32) ^ (bnlen as u32)) != 0xFFFF ==> r
                    == Err::<(), Error>(Error::BlockType0LenMismatch))
                &&& (b0 + 6 <= data.len() && ((blen as u32) ^ (bnlen as u32)) == 0xFFFF && b0 + 4
                    + blen > data.len() ==> r == Err::<(), Error>(Error::UnexpectedEof))
                &&& (b0 + 6 <= data.len() && ((blen as u32) ^ (bnlen as u32)) == 0xFFFF && b0 + 4
                    + blen <= data.len() ==> r is Ok)
                &&& (r is Ok ==> {
                    let payload = data.subrange(b0 + 4, b0 + 4 + blen);
                    let slid = slide_spec(
                        w.subrange(0, cur) + payload + w.skip(cur + blen),
                        cur + blen,
                    );
                    &&& b0 + 6 <= data.len()
                    &&& ((blen as u32) ^ (bnlen as u32)) == 0xFFFF
                    &&& b0 + 4 + blen <= data.len()
                    &&& final(self).output() == old(self).output() + payload
                    &&& final(self).window.data@ == slid.0
                    &&& final(self).window.cur() == slid.1
                    &&& final(self).reader.bit_pos() == 8 * (b0 + 4 + blen)
                })
            }),
    {
        let ghost data = self.reader.input();
        let ghost pos0 = self.reader.bit_pos();
        let ghost w0 = self.window.data@;
        let ghost cur0 = self.window.cur();
        proof {
            self.reader.lemma_pos_split();
        }
        self.reader.byte_align();
        proof {
            self.reader.lemma_pos_split();
            assert(self.reader.byte_pos() == crate::bitread::byte_ceil(pos0));
            assert(forall|x: u32| #![auto] x >> 0u32 == x) by (bit_vector);
        }
        let len = match self.reader.read_bits(16) {
            Ok(x) => x,
            Err(e) => {
                return Err(e);
            },
        };
        proof {
            self.reader.lemma_pos_split();
        }
        let nlen = match self.reader.read_bits(16) {
            Ok(x) => x,
            Err(e) => {
                return Err(e);
            },
        };
        if len ^ nlen != 0xFFFF {
            return Err(Error::BlockType0LenMismatch);
        }
        proof {
            crate::bitread::lemma_shift_values();
            self.reader.lemma_pos_split();
        }
        let buf = match self.reader.read_exact(len as usize) {
            Ok(b) => b,
            Err(e) => {
                return Err(e);
            },
        };
        proof {
            self.reader.lemma_pos_split();
        }
        let boundary = self.window.boundary();
        let ghost r0 = self.reader;
        let ghost out0 = self.output@;
        let mut i: usize = 0;
        while i < buf.len()
            invariant
                i <= buf@.len(),
                buf@.len() <= 0xFFFF,
                boundary + buf@.len() <= self.window.data@.len(),
                self.window.data@.len() == WINDOW_SIZE,
                boundary == self.window.cur(),
                boundary == cur0,
                self.window.wf(),
                self.reader == r0,
                self.output@ == out0,
                forall|j: int| 0 <= j < boundary ==> self.window.data@[j] == w0[j],
                forall|j: int|
                    boundary <= j < boundary + i ==> self.window.data@[j] == buf@[j - boundary],
                forall|j: int|
                    boundary + i <= j < WINDOW_SIZE ==> self.window.data@[j] == w0[j],
            decreases buf@.len() - i,
        {
            let b = buf[i];
            self.window.data[boundary + i] = b;
            i = i + 1;
        }
        proof {
            assert(self.window.data@ =~= w0.subrange(0, cur0) + buf@ + w0.skip(
                cur0 + buf@.len(),
            ));
        }
        let ghost wpre = self.window.data@;
        self.window.slide(buf.len());
        proof {
            let end = cur0 + buf@.len();
            if end > 32768 {
                assert(self.window.data@ =~= wpre.subrange(end - 32768, end) + wpre.skip(32768));
            }
            assert((self.window.data@, self.window.cur()) == slide_spec(wpre, end));
        }
        let ghost before = self.output@;
        let mut chunk = buf;
        self.output.append(&mut chunk);
        proof {
            assert(self.output@.subrange(0, before.len() as int) =~= before);
            assert(before.subrange(0, old(self).output@.len() as int) == old(self).output@);
        }
        Ok(())
    }

    /// Run the LZ77 loop with the given decoders until the block ends,
    /// draining the window into the output whenever it fills. Under
    /// prefix-free books the window, cursor, position and output are exactly
    /// what `drain_at` gives, and failing exactly its error.
    fn inflate(&mut self, ll_decoder: &HuffmanDecoder, dist_decoder: &HuffmanDecoder) -> (r: Result<
        (),
        Error,
    >)
        requires
            old(self).wf(),
            ll_decoder.wf(),
            dist_decoder.wf(),
        ensures
            final(self).wf(),
            final(self).reader.input() == old(self).reader.input(),
            final(self).reader.bit_pos() >= old(self).reader.bit_pos(),
            final(self).output().len() >= old(self).output().len(),
            final(self).output().subrange(0, old(self).output().len() as int) == old(
                self,
            ).output(),
            r is Ok ==> final(self).reader.bit_pos() > old(self).reader.bit_pos(),
            rev_prefix_free(ll_decoder.codebook()) && rev_prefix_free(dist_decoder.codebook())
                ==> {
                let da = drain_at(
                    old(self).reader.input(),
                    old(self).reader.bit_pos(),
                    ll_decoder.codebook(),
                    dist_decoder.codebook(),
                    old(self).window.data@,
                    old(self).window.cur(),
                    old(self).output(),
                );
                &&& (da matches Ok(st) ==> r is Ok && final(self).window.data@ == st.0
                    && final(self).window.cur() == st.1 && final(self).reader.bit_pos() == st.2
                    && final(self).output() == st.3)
                &&& (da matches Err(e) ==> r == Err::<(), Error>(e))
            },
    {
        let ghost data = self.reader.input();
        let ghost pos0 = self.reader.bit_pos();
        let ghost llc = ll_decoder.codebook();
        let ghost dc = dist_decoder.codebook();
        proof {
            ll_decoder.lemma_wf_codebook();
            dist_decoder.lemma_wf_codebook();
        }
        loop
            invariant
                self.wf(),
                ll_decoder.wf(),
                dist_decoder.wf(),
                llc == ll_decoder.codebook(),
                dc == dist_decoder.codebook(),
                codes_wf(llc),
                codes_wf(dc),
                data == old(self).reader.input(),
                self.reader.input() == data,
                self.reader.bit_pos() >= pos0,
                pos0 == old(self).reader.bit_pos(),
                self.output@.len() >= old(self).output@.len(),
                self.output@.subrange(0, old(self).output@.len() as int) == old(self).output@,
                rev_prefix_free(llc) && rev_prefix_free(dc) ==> drain_at(
                    data,
                    pos0,
                    llc,
                    dc,
                    old(self).window.data@,
                    old(self).window.cur(),
                    old(self).output@,
                ) == drain_at(
                    data,
                    self.reader.bit_pos(),
                    llc,
                    dc,
                    self.window.data@,
                    self.window.cur(),
                    self.output@,
                ),
            decreases 8 * self.reader.input().len() - self.reader.bit_pos(),
        {
            let ghost ipos = self.reader.bit_pos();
            let ghost iw = self.window.data@;
            let ghost iout = self.output@;
            let boundary = self.window.boundary();
            proof {
                assert(boundary + (MAX_LENGTH as int) < WINDOW_SIZE as int);
            }
            let result = match decode(
                &mut self.window.data,
                boundary,
                &mut self.reader,
                ll_decoder,
                dist_decoder,
            ) {
                Ok(x) => x,
                Err(e) => {
                    return Err(e);
                },
            };
            let (n, done) = match result {
                DecodeResult::Done(n) => (n, true),
                DecodeResult::WindowIsFull(n) => (n, false),
                DecodeResult::Error(e) => {
                    return Err(e);
                },
            };
            proof {
                if rev_prefix_free(llc) && rev_prefix_free(dc) {
                    let rc = run_codes(data, ipos, llc, dc, iw, boundary as int);
                    assert(rc is Ok);
                    let st = rc->Ok_0;
                    assert(self.window.data@ == st.0);
                    assert(st.1 == boundary + n);
                    assert(self.reader.bit_pos() == st.2);
                }
            }
            let ghost before = self.output@;
            let mut chunk = self.window.write_buffer(n);
            self.output.append(&mut chunk);
            proof {
                assert(self.output@.subrange(0, before.len() as int) =~= before);
                assert(before.subrange(0, old(self).output@.len() as int) == old(self).output@);
            }
            let ghost wpre = self.window.data@;
            self.window.slide(n);
            proof {
                if rev_prefix_free(llc) && rev_prefix_free(dc) {
                    let end = boundary + n;
                    if end > 32768 {
                        assert(self.window.data@ =~= wpre.subrange(end - 32768, end) + wpre.skip(
                            32768,
                        ));
                    }
                    assert((self.window.data@, self.window.cur()) == slide_spec(wpre, end));
                    assert(self.output@ == iout + wpre.subrange(boundary as int, end));
                }
            }
            if done {
                return Ok(());
            }
        }
    }
}

} // verus!
