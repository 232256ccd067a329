use vstd::prelude::*;
use crate::bitread::low_mask;
use crate::codebook::CodeBook;
use crate::error::Error;

verus! {

/// How many bits the first lookup step consumes at most.
pub const NUM_BITS_FIRST_LOOKUP: u32 = 9;

/// The low 16 bits of `bits` in reverse order.
pub open spec fn rev16(bits: u32) -> u32 {
    let b1 = (((bits & 0xFF00) >> 8u32) | ((bits & 0x00FF) << 8u32)) as u32;
    let b2 = (((b1 & 0xF0F0) >> 4u32) | ((b1 & 0x0F0F) << 4u32)) as u32;
    let b3 = (((b2 & 0xCCCC) >> 2u32) | ((b2 & 0x3333) << 2u32)) as u32;
    ((((b3 & 0xAAAA) >> 1u32) | ((b3 & 0x5555) << 1u32))) as u32
}

/// Symbol `s`'s Huffman code read bit-reversed, as it appears in the stream
/// with its first bit in the lowest position.
pub open spec fn rev_code(codes: Seq<(u32, u32)>, s: int) -> u32
    recommends
        0 <= s < codes.len(),
        1 <= codes[s].1 <= 16,
{
    (rev16(codes[s].0) >> ((16 - codes[s].1) as u32)) as u32
}

/// The low bits of `bits` spell symbol `s`'s code.
pub open spec fn code_matches(codes: Seq<(u32, u32)>, s: int, bits: u32) -> bool {
    &&& 0 <= s < codes.len()
    &&& 1 <= codes[s].1
    &&& bits & low_mask(codes[s].1) == rev_code(codes, s)
}

/// No code, read bit-reversed, is an extension of another: the low bits of
/// one symbol's code never spell a different symbol's whole code.
pub open spec fn rev_prefix_free(codes: Seq<(u32, u32)>) -> bool {
    forall|s: int, t: int|
        #![trigger rev_code(codes, s), rev_code(codes, t)]
        0 <= s < codes.len() && 0 <= t < codes.len() && s != t && 1 <= codes[s].1 && 1
            <= codes[t].1 && codes[s].1 <= codes[t].1 ==> rev_code(codes, t) & low_mask(
            codes[s].1,
        ) != rev_code(codes, s)
}

/// The largest code length among the first `k` symbols.
pub open spec fn max_clen_upto(codes: Seq<(u32, u32)>, k: int) -> u32
    decreases k,
{
    if k <= 0 {
        0u32
    } else {
        let m = max_clen_upto(codes, k - 1);
        if codes[k - 1].1 > m {
            codes[k - 1].1
        } else {
            m
        }
    }
}

/// The largest code length of the book.
pub open spec fn max_clen(codes: Seq<(u32, u32)>) -> u32 {
    max_clen_upto(codes, codes.len() as int)
}

/// Every code length is at most 15 and the book is no larger than the
/// literal/length alphabet.
pub open spec fn codes_wf(codes: Seq<(u32, u32)>) -> bool {
    &&& codes.len() <= 289
    &&& forall|s: int| 0 <= s < codes.len() ==> (#[trigger] codes[s]).1 <= 15
}

/// How many bits the primary table is indexed by.
pub open spec fn prim_bits(codes: Seq<(u32, u32)>) -> u32 {
    if max_clen(codes) > 9 {
        9u32
    } else {
        max_clen(codes)
    }
}

/// Entries of the primary table.
pub open spec fn prim_size(codes: Seq<(u32, u32)>) -> int {
    (1u32 << prim_bits(codes)) as int
}

/// Entries of one secondary sub-table.
pub open spec fn sec_size(codes: Seq<(u32, u32)>) -> int {
    if max_clen(codes) > 9 {
        (1u32 << ((max_clen(codes) - 9) as u32)) as int
    } else {
        0int
    }
}

/// A two-level Huffman lookup table addressed by stream bits directly: a
/// primary table of `2^min(max_length, 9)` entries, and one appended
/// sub-table per group of codes longer than 9 bits that share their first
/// nine stream bits.
pub struct HuffmanDecoder {
    lookup: Vec<(u32, u32)>,
    primary_mask: u32,
    secondary_mask: u32,
    codes: Ghost<Seq<(u32, u32)>>,
}

impl HuffmanDecoder {
    /// The `(code, length)` pairs the table was built from.
    pub closed spec fn codebook(self) -> Seq<(u32, u32)> {
        self.codes@
    }

    /// The entry the two lookup steps reach for the stream bits `bits`.
    pub closed spec fn entry(self, bits: u32) -> (u32, u32) {
        let e = self.lookup@[(bits & self.primary_mask) as int];
        if e.1 <= 9 {
            e
        } else {
            self.lookup@[e.0 + ((bits >> 9u32) & self.secondary_mask)]
        }
    }

    pub closed spec fn structural(self) -> bool {
        let codes = self.codes@;
        &&& codes_wf(codes)
        &&& max_clen(codes) <= 15
        &&& self.primary_mask == low_mask(prim_bits(codes))
        &&& self.secondary_mask == if max_clen(codes) > 9 {
            low_mask((max_clen(codes) - 9) as u32)
        } else {
            0u32
        }
        &&& prim_size(codes) <= self.lookup@.len() <= prim_size(codes) + codes.len() * sec_size(
            codes,
        )
        &&& forall|x: int| 0 <= x < self.lookup@.len() ==> (#[trigger] self.lookup@[x]).1 <= 15
        &&& (max_clen(codes) > 9 ==> forall|i: int|
            0 <= i < prim_size(codes) ==> (#[trigger] self.lookup@[i]).0 + sec_size(codes)
                <= self.lookup@.len())
        &&& (max_clen(codes) <= 9 ==> forall|i: int|
            0 <= i < prim_size(codes) ==> (#[trigger] self.lookup@[i]).1 <= 9)
    }

    /// Looking up any stream bits lands on the matching symbol, and on an
    /// empty entry when no code matches.
    pub closed spec fn table_complete(self) -> bool {
        &&& forall|bits: u32, s: int|
            #[trigger] code_matches(self.codes@, s, bits) ==> self.entry(bits) == (
                s as u32,
                self.codes@[s].1,
            )
        &&& forall|bits: u32|
            (forall|s: int| !(#[trigger] code_matches(self.codes@, s, bits))) ==> (
            #[trigger] self.entry(bits)).1 == 0
    }

    pub open spec fn wf(self) -> bool {
        &&& self.structural()
        &&& rev_prefix_free(self.codebook()) ==> self.table_complete()
    }

    /// A well-formed decoder's book is no larger than the literal/length
    /// alphabet and holds no length over 15.
    pub proof fn lemma_wf_codebook(self)
        requires
            self.wf(),
        ensures
            self.codebook().len() <= 289,
            forall|s: int|
                0 <= s < self.codebook().len() ==> (#[trigger] self.codebook()[s]).1 <= 15,
    {
    }

    /// A decoder that knows no codes: every lookup fails.
    pub fn uninitialized() -> (r: Self)
        ensures
            r.wf(),
            r.codebook() == Seq::<(u32, u32)>::empty(),
    {
        let mut lookup: Vec<(u32, u32)> = Vec::new();
        lookup.push((0u32, 0u32));
        let r = HuffmanDecoder {
            lookup,
            primary_mask: 0,
            secondary_mask: 0,
            codes: Ghost(Seq::empty()),
        };
        proof {
            assert(low_mask(0) == 0) by (bit_vector);
            assert((1u32 << 0u32) == 1) by (bit_vector);
            assert forall|bits: u32| (bits & 0u32) == 0u32 by {
                assert(forall|b: u32| #![auto] (b & 0u32) == 0u32) by (bit_vector);
            }
        }
        r
    }

    /// Look up a code in `bits`, the next stream bits with the first in the
    /// lowest position. Returns the symbol and its code length.
    pub fn decode(&self, bits: u32) -> (r: Result<(u32, u32), Error>)
        requires
            self.wf(),
        ensures
            r is Err ==> r == Err::<(u32, u32), Error>(Error::HuffmanDecoderCodeNotFound),
            r is Ok ==> 1 <= r->Ok_0.1 <= 15,
            rev_prefix_free(self.codebook()) ==> {
                &&& (forall|s: int|
                    #[trigger] code_matches(self.codebook(), s, bits) ==> r == Ok::<
                        (u32, u32),
                        Error,
                    >((s as u32, self.codebook()[s].1)))
                &&& ((forall|s: int| !(#[trigger] code_matches(self.codebook(), s, bits))) ==> r
                    is Err)
            },
    {
        let ghost codes = self.codes@;
        let ll = self.lookup.len();
        proof {
            lemma_low_mask_bound_u32(bits, prim_bits(codes));
        }
        let i = (bits & self.primary_mask) as usize;
        let (symbol, len) = self.lookup[i];
        if len == 0 {
            Err(Error::HuffmanDecoderCodeNotFound)
        } else if len <= NUM_BITS_FIRST_LOOKUP {
            proof {
                assert(self.entry(bits) == (symbol, len));
            }
            Ok((symbol, len))
        } else {
            proof {
                assert(i < prim_size(codes));
                assert(max_clen(codes) > 9);
                lemma_low_mask_bound_u32(bits >> 9u32, (max_clen(codes) - 9) as u32);
                assert(symbol + sec_size(codes) <= ll);
            }
            let idx = ((bits >> NUM_BITS_FIRST_LOOKUP) & self.secondary_mask) as usize;
            let (s2, l2) = self.lookup[symbol as usize + idx];
            proof {
                assert(self.entry(bits) == (s2, l2));
            }
            if l2 == 0 {
                Err(Error::HuffmanDecoderCodeNotFound)
            } else {
                Ok((s2, l2))
            }
        }
    }
}


/// Filling index `r | (idx << l)` stays in the primary table, keeps the low
/// `l` bits `r`, and its high part recovers `idx`.
proof fn bv_fill_fwd(r: u32, l: u32, p: u32, idx: u32)
    by (bit_vector)
    requires
        r < (1u32 << l),
        1 <= l,
        l <= p,
        p <= 9,
        idx < (1u32 << ((p - l) as u32)),
    ensures
        (r | (idx << l)) < (1u32 << p),
        (r | (idx << l)) & (((1u32 << l) - 1) as u32) == r,
        (r | (idx << l)) >> l == idx,
{
}

/// Every primary index whose low `l` bits are `r` is of the filled form.
proof fn bv_fill_bwd(r: u32, l: u32, p: u32, i: u32)
    by (bit_vector)
    requires
        r < (1u32 << l),
        1 <= l,
        l <= p,
        p <= 9,
        i < (1u32 << p),
        i & (((1u32 << l) - 1) as u32) == r,
    ensures
        i >> l < (1u32 << ((p - l) as u32)),
        i == (r | ((i >> l) << l)),
{
}

/// Masking to `p` bits and then to `l <= p` bits masks to `l` bits.
proof fn bv_mask_mask(x: u32, l: u32, p: u32)
    by (bit_vector)
    requires
        l <= p,
        p <= 24,
    ensures
        (x & (((1u32 << p) - 1) as u32)) & (((1u32 << l) - 1) as u32) == x & (((1u32 << l)
            - 1) as u32),
{
}

/// A value below `2^l` is unchanged by the `l`-bit mask.
proof fn bv_self_mask(r: u32, l: u32)
    by (bit_vector)
    requires
        r < (1u32 << l),
        l <= 24,
    ensures
        r & (((1u32 << l) - 1) as u32) == r,
{
}

/// A full match of an over-nine-bit code splits into a nine-bit primary part
/// and a secondary part.
proof fn bv_sec_split(bits: u32, r: u32, l: u32, m: u32)
    by (bit_vector)
    requires
        9 < l,
        l <= m,
        m <= 15,
        r < (1u32 << l),
        bits & (((1u32 << l) - 1) as u32) == r,
    ensures
        bits & 0x1FFu32 == r & 0x1FFu32,
        ((bits >> 9u32) & (((1u32 << ((m - 9) as u32)) - 1) as u32)) & (((1u32 << ((l
            - 9) as u32)) - 1) as u32) == r >> 9u32,
{
}

/// The two split parts of a long code recombine into a full match.
proof fn bv_sec_join(bits: u32, r: u32, l: u32, m: u32)
    by (bit_vector)
    requires
        9 < l,
        l <= m,
        m <= 15,
        r < (1u32 << l),
        bits & 0x1FFu32 == r & 0x1FFu32,
        ((bits >> 9u32) & (((1u32 << ((m - 9) as u32)) - 1) as u32)) & (((1u32 << ((l
            - 9) as u32)) - 1) as u32) == r >> 9u32,
    ensures
        bits & (((1u32 << l) - 1) as u32) == r,
{
}

/// Combining a primary index and a secondary index into witness stream bits.
proof fn bv_combine(i: u32, j: u32, m: u32)
    by (bit_vector)
    requires
        9 < m,
        m <= 15,
        i < (1u32 << 9u32),
        j < (1u32 << ((m - 9) as u32)),
    ensures
        (i | (j << 9u32)) & 0x1FFu32 == i,
        ((i | (j << 9u32)) >> 9u32) & (((1u32 << ((m - 9) as u32)) - 1) as u32) == j,
{
}

/// The secondary fill index stays in its sub-table, keeps the secondary bits
/// of the code, and its high part recovers `idx`.
proof fn bv_sfill_fwd(r: u32, l: u32, m: u32, idx: u32)
    by (bit_vector)
    requires
        9 < l,
        l <= m,
        m <= 15,
        r < (1u32 << l),
        idx < (1u32 << ((m - l) as u32)),
    ensures
        ((r >> 9u32) & (((1u32 << ((m - 9) as u32)) - 1) as u32)) == r >> 9u32,
        (r >> 9u32) + (idx << ((l - 9) as u32)) < (1u32 << ((m - 9) as u32)),
        (((r >> 9u32) + (idx << ((l - 9) as u32))) as u32) < (1u32 << ((m - 9) as u32)),
        ((r >> 9u32) + (idx << ((l - 9) as u32))) as u32 == ((r >> 9u32) | (idx << ((l
            - 9) as u32))),
        (((r >> 9u32) + (idx << ((l - 9) as u32))) as u32) & (((1u32 << ((l - 9) as u32))
            - 1) as u32) == r >> 9u32,
        (((r >> 9u32) + (idx << ((l - 9) as u32))) as u32) >> ((l - 9) as u32) == idx,
{
}

/// Every sub-table slot whose low bits are the code's secondary bits is of
/// the filled form.
proof fn bv_sfill_bwd(r: u32, l: u32, m: u32, j: u32)
    by (bit_vector)
    requires
        9 < l,
        l <= m,
        m <= 15,
        r < (1u32 << l),
        j < (1u32 << ((m - 9) as u32)),
        j & (((1u32 << ((l - 9) as u32)) - 1) as u32) == r >> 9u32,
    ensures
        j >> ((l - 9) as u32) < (1u32 << ((m - l) as u32)),
        j == (((r >> 9u32) + ((j >> ((l - 9) as u32)) << ((l - 9) as u32))) as u32),
{
}

/// The bits of a long code beyond the first nine fit the sub-table index.
proof fn bv_sec_idx(r: u32, l: u32, m: u32)
    by (bit_vector)
    requires
        9 < l,
        l <= m,
        m <= 15,
        r < (1u32 << l),
    ensures
        (r >> 9u32) & (((1u32 << ((m - 9) as u32)) - 1) as u32) == r >> 9u32,
        (r >> 9u32) < (1u32 << ((m - 9) as u32)),
{
}

/// A reversed code fits in its own length.
proof fn bv_rev_bound(c: u32, l: u32)
    by (bit_vector)
    requires
        1 <= l,
        l <= 16,
    ensures
        (rev16(c) >> ((16 - l) as u32)) < (1u32 << l),
{
}

/// Code lengths never exceed the book's maximum.
proof fn lemma_clen_le_max_upto(codes: Seq<(u32, u32)>, j: int, k: int)
    requires
        0 <= j < k,
    ensures
        codes[j].1 <= max_clen_upto(codes, k),
    decreases k,
{
    if j < k - 1 {
        lemma_clen_le_max_upto(codes, j, k - 1);
    }
}

/// The maxima of a code book and of the length vector it was built from agree.
proof fn lemma_max_eq(codes: Seq<(u32, u32)>, lens: Seq<u32>, k: int)
    requires
        k <= codes.len(),
        codes.len() == lens.len(),
        forall|j: int| 0 <= j < codes.len() ==> (#[trigger] codes[j]).1 == lens[j],
    ensures
        max_clen_upto(codes, k) == crate::codebook::max_len_upto(lens, k),
    decreases k,
{
    if k > 0 {
        lemma_max_eq(codes, lens, k - 1);
    }
}

/// Under a prefix-free book, at most one symbol matches any stream bits:
/// together with `decode`'s contract, feeding any symbol's code to the
/// table, first bit lowest, decodes back to that symbol and nothing else.
pub proof fn lemma_match_unique(codes: Seq<(u32, u32)>, s: int, t: int, bits: u32)
    requires
        codes_wf(codes),
        rev_prefix_free(codes),
        code_matches(codes, s, bits),
        code_matches(codes, t, bits),
    ensures
        s == t,
{
    if s != t {
        if codes[s].1 <= codes[t].1 {
            bv_mask_mask(bits, codes[s].1, codes[t].1);
            assert(rev_code(codes, t) & low_mask(codes[s].1) == rev_code(codes, s));
        } else {
            bv_mask_mask(bits, codes[t].1, codes[s].1);
            assert(rev_code(codes, s) & low_mask(codes[t].1) == rev_code(codes, t));
        }
    }
}

/// Symbol `s`, already processed, has a short code whose stream form is the
/// low bits of primary index `i`.
spec fn short_at(codes: Seq<(u32, u32)>, k: int, i: u32, s: int) -> bool {
    &&& 0 <= s < k
    &&& 1 <= codes[s].1 <= prim_bits(codes)
    &&& i & low_mask(codes[s].1) == rev_code(codes, s)
}

spec fn some_short(codes: Seq<(u32, u32)>, k: int, i: u32) -> bool {
    exists|s: int| short_at(codes, k, i, s)
}

/// Symbol `s`, already processed, has a long code whose first nine stream
/// bits are the primary index `i`.
spec fn long_at(codes: Seq<(u32, u32)>, k: int, i: u32, s: int) -> bool {
    &&& 0 <= s < k
    &&& codes[s].1 > 9
    &&& rev_code(codes, s) & low_mask(9) == i
}

spec fn some_long(codes: Seq<(u32, u32)>, k: int, i: u32) -> bool {
    exists|s: int| long_at(codes, k, i, s)
}

/// Sub-table slot `j` carries the bits of symbol `s`'s code beyond the first
/// nine.
spec fn sec_match(codes: Seq<(u32, u32)>, s: int, j: u32) -> bool {
    j & low_mask((codes[s].1 - 9) as u32) == rev_code(codes, s) >> 9u32
}

/// Primary index `i` points at a sub-table.
spec fn indirect(codes: Seq<(u32, u32)>, k: int, i: u32) -> bool {
    !some_short(codes, k, i) && some_long(codes, k, i)
}

/// What the table looks like after the first `k` symbols are placed.
spec fn table_inv(codes: Seq<(u32, u32)>, lookup: Seq<(u32, u32)>, k: int) -> bool {
    let psize = prim_size(codes);
    let ssize = sec_size(codes);
    &&& (forall|i: u32, s: int|
        #[trigger] short_at(codes, k, i, s) && i < psize ==> lookup[i as int] == (
            s as u32,
            codes[s].1,
        ))
    &&& (forall|i: u32|
        i < psize && #[trigger] indirect(codes, k, i) ==> lookup[i as int].1 > 9 && psize <= lookup[
            i as int
        ].0 && lookup[i as int].0 + ssize <= lookup.len())
    &&& (forall|i: u32|
        i < psize && !(#[trigger] some_short(codes, k, i)) && !some_long(codes, k, i) ==> lookup[
            i as int
        ] == (0u32, 0u32))
    &&& (forall|i: u32, s: int, j: u32|
        #![trigger long_at(codes, k, i, s), sec_match(codes, s, j)]
        i < psize && long_at(codes, k, i, s) && !some_short(codes, k, i) && j < ssize && sec_match(
            codes,
            s,
            j,
        ) ==> lookup[lookup[i as int].0 + j] == (s as u32, codes[s].1))
    &&& (forall|i: u32, j: u32|
        #![trigger indirect(codes, k, i), slot_untouched(codes, k, i, j)]
        i < psize && indirect(codes, k, i) && j < ssize && slot_untouched(codes, k, i, j)
            ==> lookup[lookup[i as int].0 + j] == (0u32, 0u32))
    &&& (forall|i1: u32, i2: u32|
        #![trigger indirect(codes, k, i1), indirect(codes, k, i2)]
        i1 < psize && i2 < psize && i1 != i2 && indirect(codes, k, i1) && indirect(codes, k, i2)
            ==> lookup[i1 as int].0 + ssize <= lookup[i2 as int].0 || lookup[i2 as int].0 + ssize
            <= lookup[i1 as int].0)
}

/// No long code placed so far owns slot `j` of the sub-table at `i`.
spec fn slot_untouched(codes: Seq<(u32, u32)>, k: int, i: u32, j: u32) -> bool {
    forall|s: int| #[trigger] long_at(codes, k, i, s) ==> !sec_match(codes, s, j)
}

/// The low `n` bits of any value stay below `2^n`, for `n <= 24`.
proof fn lemma_low_mask_bound_u32(x: u32, n: u32)
    by (bit_vector)
    requires
        n <= 24,
    ensures
        (x & (((1u32 << n) - 1) as u32)) < (1u32 << n),
        1u32 << n >= 1,
{
}


/// `low_mask(9)` written out.
proof fn bv_mask9()
    by (bit_vector)
    ensures
        ((1u32 << 9u32) - 1) as u32 == 0x1FFu32,
        (1u32 << 9u32) == 512u32,
{
}

/// A symbol with a short code and a symbol with a long code cannot share a
/// primary index under a prefix-free book.
proof fn lemma_long_short_conflict(codes: Seq<(u32, u32)>, i: u32, s: int, t: int)
    requires
        codes_wf(codes),
        rev_prefix_free(codes),
        0 <= s < codes.len(),
        1 <= codes[s].1 <= 9,
        i & low_mask(codes[s].1) == rev_code(codes, s),
        0 <= t < codes.len(),
        codes[t].1 > 9,
        rev_code(codes, t) & low_mask(9) == i,
    ensures
        s == t,
{
    let b = rev_code(codes, t);
    bv_rev_bound(codes[t].0, codes[t].1);
    bv_self_mask(b, codes[t].1);
    assert(code_matches(codes, t, b));
    bv_mask_mask(b, codes[s].1, 9);
    assert(b & low_mask(codes[s].1) == rev_code(codes, s));
    assert(code_matches(codes, s, b));
    lemma_match_unique(codes, s, t, b);
}

/// Two symbols with long codes sharing a primary index cannot also share a
/// sub-table slot under a prefix-free book.
proof fn lemma_long_long_slot_conflict(codes: Seq<(u32, u32)>, i: u32, j: u32, s: int, t: int)
    requires
        codes_wf(codes),
        rev_prefix_free(codes),
        max_clen(codes) <= 15,
        0 <= s < codes.len(),
        codes[s].1 > 9,
        rev_code(codes, s) & low_mask(9) == i,
        0 <= t < codes.len(),
        codes[t].1 > 9,
        rev_code(codes, t) & low_mask(9) == i,
        j < (1u32 << ((max_clen(codes) - 9) as u32)),
        sec_match(codes, s, j),
        sec_match(codes, t, j),
    ensures
        s == t,
{
    let m = max_clen(codes);
    lemma_clen_le_max_upto(codes, s, codes.len() as int);
    lemma_clen_le_max_upto(codes, t, codes.len() as int);
    bv_mask9();
    lemma_low_mask_bound_u32(rev_code(codes, s), 9);
    let b = (i | (j << 9u32)) as u32;
    bv_combine(i, j, m);
    bv_rev_bound(codes[s].0, codes[s].1);
    bv_rev_bound(codes[t].0, codes[t].1);
    bv_mask_mask(b, 9, 9);
    assert(b & 0x1FFu32 == i);
    assert(rev_code(codes, s) & 0x1FFu32 == i);
    assert(rev_code(codes, t) & 0x1FFu32 == i);
    bv_sec_join(b, rev_code(codes, s), codes[s].1, m);
    bv_sec_join(b, rev_code(codes, t), codes[t].1, m);
    assert(code_matches(codes, s, b));
    assert(code_matches(codes, t, b));
    lemma_match_unique(codes, s, t, b);
}

/// Placing a symbol with code length zero leaves the table as it is.
proof fn lemma_skip_placed(codes: Seq<(u32, u32)>, lookup: Seq<(u32, u32)>, k: int)
    requires
        0 <= k < codes.len(),
        codes[k].1 == 0,
        table_inv(codes, lookup, k),
    ensures
        table_inv(codes, lookup, k + 1),
{
    assert forall|i: u32| #[trigger] some_short(codes, k + 1, i) implies some_short(codes, k, i) by {
        let s = choose|s: int| #[trigger] short_at(codes, k + 1, i, s);
        assert(short_at(codes, k, i, s));
    }
    assert forall|i: u32| #[trigger] some_short(codes, k, i) implies some_short(codes, k + 1, i) by {
        let s = choose|s: int| #[trigger] short_at(codes, k, i, s);
        assert(short_at(codes, k + 1, i, s));
    }
    assert forall|i: u32| #[trigger] some_long(codes, k + 1, i) implies some_long(codes, k, i) by {
        let s = choose|s: int| #[trigger] long_at(codes, k + 1, i, s);
        assert(long_at(codes, k, i, s));
    }
    assert forall|i: u32| #[trigger] some_long(codes, k, i) implies some_long(codes, k + 1, i) by {
        let s = choose|s: int| #[trigger] long_at(codes, k, i, s);
        assert(long_at(codes, k + 1, i, s));
    }
    assert forall|i: u32, j: u32| #[trigger] slot_untouched(codes, k + 1, i, j) implies slot_untouched(
        codes,
        k,
        i,
        j,
    ) by {
        assert forall|s: int| #[trigger] long_at(codes, k, i, s) implies !sec_match(codes, s, j) by {
            assert(long_at(codes, k + 1, i, s));
        }
    }
    assert forall|i: u32, s: int| #[trigger] short_at(codes, k + 1, i, s) && i < prim_size(codes)
        implies lookup[i as int] == (s as u32, codes[s].1) by {
        assert(short_at(codes, k, i, s));
    }
    assert forall|i: u32, s: int, j: u32|
        i < prim_size(codes) && #[trigger] long_at(codes, k + 1, i, s) && !some_short(
            codes,
            k + 1,
            i,
        ) && j < sec_size(codes) && #[trigger] sec_match(codes, s, j) implies lookup[lookup[
        i as int
    ].0 + j] == (s as u32, codes[s].1) by {
        assert(long_at(codes, k, i, s));
        assert(!some_short(codes, k, i));
    }
    assert forall|i: u32|
        i < prim_size(codes) && #[trigger] indirect(codes, k + 1, i) implies lookup[i as int].1 > 9
            && prim_size(codes) <= lookup[i as int].0 && lookup[i as int].0 + sec_size(codes)
            <= lookup.len() by {
        assert(indirect(codes, k, i));
    }
    assert forall|i: u32|
        i < prim_size(codes) && !(#[trigger] some_short(codes, k + 1, i)) && !some_long(
            codes,
            k + 1,
            i,
        ) implies lookup[i as int] == (0u32, 0u32) by {
        assert(!some_short(codes, k, i) && !some_long(codes, k, i));
    }
    assert forall|i: u32, j: u32|
        i < prim_size(codes) && #[trigger] indirect(codes, k + 1, i) && j < sec_size(codes) && (
        #[trigger] slot_untouched(codes, k + 1, i, j)) implies lookup[lookup[i as int].0 + j] == (
        0u32,
        0u32,
    ) by {
        assert(indirect(codes, k, i));
        assert(slot_untouched(codes, k, i, j));
    }
    assert forall|i1: u32, i2: u32|
        i1 < prim_size(codes) && i2 < prim_size(codes) && i1 != i2 && #[trigger] indirect(
            codes,
            k + 1,
            i1,
        ) && #[trigger] indirect(codes, k + 1, i2) implies lookup[i1 as int].0 + sec_size(codes)
            <= lookup[i2 as int].0 || lookup[i2 as int].0 + sec_size(codes) <= lookup[
        i1 as int
    ].0 by {
        assert(indirect(codes, k, i1) && indirect(codes, k, i2));
    }
}


/// Placing a symbol whose code fits the primary table fills exactly the
/// primary entries whose low bits spell its reversed code.
proof fn lemma_short_placed(
    codes: Seq<(u32, u32)>,
    old_t: Seq<(u32, u32)>,
    new_t: Seq<(u32, u32)>,
    k: int,
)
    requires
        codes_wf(codes),
        rev_prefix_free(codes),
        table_inv(codes, old_t, k),
        0 <= k < codes.len(),
        1 <= codes[k].1 <= prim_bits(codes),
        new_t.len() == old_t.len(),
        prim_size(codes) <= old_t.len(),
        forall|x: int|
            0 <= x < new_t.len() && !(x < prim_size(codes) && (x as u32) & low_mask(codes[k].1)
                == rev_code(codes, k)) ==> new_t[x] == old_t[x],
        forall|x: int|
            0 <= x < prim_size(codes) && (x as u32) & low_mask(codes[k].1) == rev_code(codes, k)
                ==> new_t[x] == (k as u32, codes[k].1),
    ensures
        table_inv(codes, new_t, k + 1),
{
    let psize = prim_size(codes);
    let l = codes[k].1;
    let rev = rev_code(codes, k);

    assert forall|i: u32| #[trigger] some_long(codes, k + 1, i) implies some_long(codes, k, i) by {
        let s = choose|s: int| #[trigger] long_at(codes, k + 1, i, s);
        assert(s != k);
        assert(long_at(codes, k, i, s));
    }
    assert forall|i: u32| #[trigger] some_long(codes, k, i) implies some_long(codes, k + 1, i) by {
        let s = choose|s: int| #[trigger] long_at(codes, k, i, s);
        assert(long_at(codes, k + 1, i, s));
    }

    assert forall|i: u32, s: int| #[trigger] short_at(codes, k + 1, i, s) && i < psize
        implies new_t[i as int] == (s as u32, codes[s].1) by {
        if s == k {
            assert(new_t[i as int] == (k as u32, codes[k].1));
        } else {
            assert(short_at(codes, k, i, s));
            if i & low_mask(l) == rev {
                assert(code_matches(codes, s, i));
                assert(code_matches(codes, k, i));
                lemma_match_unique(codes, s, k, i);
                assert(false);
            }
            assert(new_t[i as int] == old_t[i as int]);
        }
    }

    assert forall|i: u32|
        i < psize && #[trigger] indirect(codes, k + 1, i) implies new_t[i as int].1 > 9 && psize
        <= new_t[i as int].0 && new_t[i as int].0 + sec_size(codes) <= new_t.len() by {
        if i & low_mask(l) == rev {
            assert(short_at(codes, k + 1, i, k));
            assert(false);
        }
        assert forall|s: int| !(#[trigger] short_at(codes, k, i, s)) by {
            if short_at(codes, k, i, s) {
                assert(short_at(codes, k + 1, i, s));
            }
        }
        assert(indirect(codes, k, i));
        assert(new_t[i as int] == old_t[i as int]);
    }

    assert forall|i: u32|
        i < psize && !(#[trigger] some_short(codes, k + 1, i)) && !some_long(codes, k + 1, i)
        implies new_t[i as int] == (0u32, 0u32) by {
        if i & low_mask(l) == rev {
            assert(short_at(codes, k + 1, i, k));
            assert(false);
        }
        assert forall|s: int| !(#[trigger] short_at(codes, k, i, s)) by {
            if short_at(codes, k, i, s) {
                assert(short_at(codes, k + 1, i, s));
            }
        }
        assert(!some_short(codes, k, i));
        assert(!some_long(codes, k, i));
        assert(new_t[i as int] == old_t[i as int]);
        assert(old_t[i as int] == (0u32, 0u32));
    }

    assert forall|i: u32, s: int, j: u32|
        i < psize && #[trigger] long_at(codes, k + 1, i, s) && !some_short(codes, k + 1, i) && j
            < sec_size(codes) && #[trigger] sec_match(codes, s, j) implies new_t[new_t[i as int].0
        + j] == (s as u32, codes[s].1) by {
        assert(s != k);
        assert(long_at(codes, k, i, s));
        if i & low_mask(l) == rev {
            assert(short_at(codes, k + 1, i, k));
            assert(false);
        }
        assert forall|t: int| !(#[trigger] short_at(codes, k, i, t)) by {
            if short_at(codes, k, i, t) {
                assert(short_at(codes, k + 1, i, t));
            }
        }
        assert(indirect(codes, k, i));
        assert(new_t[i as int] == old_t[i as int]);
        let x = old_t[i as int].0 + j;
        assert(psize <= x);
        assert(new_t[x] == old_t[x]);
    }

    assert forall|i: u32, j: u32|
        i < psize && #[trigger] indirect(codes, k + 1, i) && j < sec_size(codes) && (
        #[trigger] slot_untouched(codes, k + 1, i, j)) implies new_t[new_t[i as int].0 + j] == (
        0u32,
        0u32,
    ) by {
        if i & low_mask(l) == rev {
            assert(short_at(codes, k + 1, i, k));
            assert(false);
        }
        assert forall|t: int| !(#[trigger] short_at(codes, k, i, t)) by {
            if short_at(codes, k, i, t) {
                assert(short_at(codes, k + 1, i, t));
            }
        }
        assert(indirect(codes, k, i));
        assert forall|t: int| #[trigger] long_at(codes, k, i, t) implies !sec_match(codes, t, j) by {
            assert(long_at(codes, k + 1, i, t));
        }
        assert(slot_untouched(codes, k, i, j));
        assert(new_t[i as int] == old_t[i as int]);
        let x = old_t[i as int].0 + j;
        assert(psize <= x);
        assert(new_t[x] == old_t[x]);
    }

    assert forall|i1: u32, i2: u32|
        i1 < psize && i2 < psize && i1 != i2 && #[trigger] indirect(codes, k + 1, i1) && (
        #[trigger] indirect(codes, k + 1, i2)) implies new_t[i1 as int].0 + sec_size(codes)
        <= new_t[i2 as int].0 || new_t[i2 as int].0 + sec_size(codes) <= new_t[i1 as int].0 by {
        assert forall|i: u32, t: int|
            (i == i1 || i == i2) && #[trigger] short_at(codes, k, i, t) implies false by {
            assert(short_at(codes, k + 1, i, t));
        }
        if i1 & low_mask(l) == rev {
            assert(short_at(codes, k + 1, i1, k));
            assert(false);
        }
        if i2 & low_mask(l) == rev {
            assert(short_at(codes, k + 1, i2, k));
            assert(false);
        }
        assert(indirect(codes, k, i1) && indirect(codes, k, i2));
        assert(new_t[i1 as int] == old_t[i1 as int] && new_t[i2 as int] == old_t[i2 as int]);
    }
}


/// Placing a symbol whose code needs a sub-table fills exactly the slots of
/// that sub-table whose low bits spell the code's bits beyond the first nine.
/// `old0` is the table before the symbol, `mid` after its primary entry and
/// sub-table exist, `post` after the fill.
proof fn lemma_long_placed(
    codes: Seq<(u32, u32)>,
    old0: Seq<(u32, u32)>,
    mid: Seq<(u32, u32)>,
    post: Seq<(u32, u32)>,
    k: int,
    base: u32,
    off: u32,
)
    requires
        codes_wf(codes),
        rev_prefix_free(codes),
        max_clen(codes) <= 15,
        table_inv(codes, old0, k),
        0 <= k < codes.len(),
        codes[k].1 > 9,
        base == rev_code(codes, k) & low_mask(9),
        !some_short(codes, k, base),
        prim_size(codes) <= old0.len(),
        old0.len() <= mid.len(),
        mid.len() == post.len(),
        forall|x: int| 0 <= x < old0.len() && x != base ==> #[trigger] mid[x] == old0[x],
        mid[base as int].1 > 9,
        mid[base as int].0 == off,
        prim_size(codes) <= off,
        off + sec_size(codes) <= mid.len(),
        some_long(codes, k, base) ==> off == old0[base as int].0 && mid.len() == old0.len()
            && mid[base as int] == old0[base as int],
        !some_long(codes, k, base) ==> off == old0.len() && mid.len() == old0.len() + sec_size(
            codes,
        ) && (forall|x: int| old0.len() <= x < mid.len() ==> #[trigger] mid[x] == (0u32, 0u32)),
        forall|x: int|
            0 <= x < post.len() && !(off <= x < off + sec_size(codes) && ((x - off) as u32)
                & low_mask((codes[k].1 - 9) as u32) == rev_code(codes, k) >> 9u32)
                ==> #[trigger] post[x] == mid[x],
        forall|x: int|
            off <= x < off + sec_size(codes) && ((x - off) as u32) & low_mask((codes[k].1
                - 9) as u32) == rev_code(codes, k) >> 9u32 ==> #[trigger] post[x] == (
            k as u32,
            codes[k].1,
        ),
    ensures
        table_inv(codes, post, k + 1),
{
    let psize = prim_size(codes);
    let ssize = sec_size(codes);
    let l = codes[k].1;
    let rev = rev_code(codes, k);
    let m = max_clen(codes);
    lemma_clen_le_max_upto(codes, k, codes.len() as int);
    assert(m > 9);
    bv_mask9();
    lemma_low_mask_bound_u32(rev, 9);
    assert(base < psize);
    assert(long_at(codes, k + 1, base, k));

    // primary entries are never in the fill region
    assert forall|x: int| 0 <= x < psize implies #[trigger] post[x] == mid[x] by {
        assert(x < off);
    }

    assert forall|i: u32| #[trigger] some_short(codes, k + 1, i) implies some_short(codes, k, i) by {
        let s = choose|s: int| #[trigger] short_at(codes, k + 1, i, s);
        assert(s != k);
        assert(short_at(codes, k, i, s));
    }
    assert forall|i: u32| #[trigger] some_short(codes, k, i) implies some_short(codes, k + 1, i) by {
        let s = choose|s: int| #[trigger] short_at(codes, k, i, s);
        assert(short_at(codes, k + 1, i, s));
    }
    assert forall|i: u32| i != base && #[trigger] some_long(codes, k + 1, i) implies some_long(
        codes,
        k,
        i,
    ) by {
        let s = choose|s: int| #[trigger] long_at(codes, k + 1, i, s);
        assert(s != k);
        assert(long_at(codes, k, i, s));
    }
    assert forall|i: u32| #[trigger] some_long(codes, k, i) implies some_long(codes, k + 1, i) by {
        let s = choose|s: int| #[trigger] long_at(codes, k, i, s);
        assert(long_at(codes, k + 1, i, s));
    }

    // T1: short codes are untouched
    assert forall|i: u32, s: int| #[trigger] short_at(codes, k + 1, i, s) && i < psize
        implies post[i as int] == (s as u32, codes[s].1) by {
        assert(s != k);
        assert(short_at(codes, k, i, s));
        assert(i != base);
        assert(post[i as int] == mid[i as int]);
        assert(mid[i as int] == old0[i as int]);
    }

    // T2: sub-table pointers
    assert forall|i: u32|
        i < psize && #[trigger] indirect(codes, k + 1, i) implies post[i as int].1 > 9 && psize
        <= post[i as int].0 && post[i as int].0 + ssize <= post.len() by {
        assert(post[i as int] == mid[i as int]);
        if i != base {
            assert(some_long(codes, k, i));
            assert(!some_short(codes, k, i));
            assert(indirect(codes, k, i));
            assert(mid[i as int] == old0[i as int]);
        }
    }

    // T3: untouched empty entries
    assert forall|i: u32|
        i < psize && !(#[trigger] some_short(codes, k + 1, i)) && !some_long(codes, k + 1, i)
        implies post[i as int] == (0u32, 0u32) by {
        assert(i != base);
        assert(!some_short(codes, k, i));
        assert(!some_long(codes, k, i));
        assert(post[i as int] == mid[i as int]);
        assert(mid[i as int] == old0[i as int]);
        assert(old0[i as int] == (0u32, 0u32));
    }

    // T4: sub-table slots of every long code
    assert forall|i: u32, s: int, j: u32|
        i < psize && #[trigger] long_at(codes, k + 1, i, s) && !some_short(codes, k + 1, i) && j
            < ssize && #[trigger] sec_match(codes, s, j) implies post[post[i as int].0 + j] == (
        s as u32,
        codes[s].1,
    ) by {
        assert(post[i as int] == mid[i as int]);
        if i == base {
            if s == k {
                let x = off + j;
                assert(((x - off) as u32) == j);
                assert(post[x as int] == (k as u32, codes[k].1));
            } else {
                assert(long_at(codes, k, base, s));
                assert(some_long(codes, k, base));
                assert(off == old0[base as int].0 && mid.len() == old0.len());
                let x = off + j;
                if ((x - off) as u32) & low_mask((l - 9) as u32) == rev >> 9u32 {
                    assert(sec_match(codes, k, j));
                    assert(j < (1u32 << ((m - 9) as u32)));
                    lemma_long_long_slot_conflict(codes, base, j, s, k);
                    assert(false);
                }
                assert(post[x as int] == mid[x as int]);
                assert(x != base);
                assert(mid[x as int] == old0[x as int]);
                assert(old0[old0[base as int].0 + j] == (s as u32, codes[s].1));
            }
        } else {
            assert(s != k);
            assert(long_at(codes, k, i, s));
            assert(!some_short(codes, k, i));
            assert(indirect(codes, k, i));
            assert(mid[i as int] == old0[i as int]);
            let offi = old0[i as int].0;
            assert(offi + ssize <= old0.len());
            let x = offi + j;
            if some_long(codes, k, base) {
                assert(indirect(codes, k, base));
                assert(old0[i as int].0 + ssize <= old0[base as int].0 || old0[base as int].0
                    + ssize <= old0[i as int].0);
                assert(!(off <= x < off + ssize));
            } else {
                assert(off == old0.len());
                assert(x < off);
            }
            assert(post[x as int] == mid[x as int]);
            assert(x != base);
            assert(mid[x as int] == old0[x as int]);
            assert(old0[x as int] == (s as u32, codes[s].1));
        }
    }

    // T5: sub-table slots no long code owns
    assert forall|i: u32, j: u32|
        i < psize && #[trigger] indirect(codes, k + 1, i) && j < ssize && (
        #[trigger] slot_untouched(codes, k + 1, i, j)) implies post[post[i as int].0 + j] == (
        0u32,
        0u32,
    ) by {
        assert(post[i as int] == mid[i as int]);
        if i == base {
            assert(!sec_match(codes, k, j));
            let x = off + j;
            assert(((x - off) as u32) == j);
            assert(post[x as int] == mid[x as int]);
            if some_long(codes, k, base) {
                assert(off == old0[base as int].0 && mid.len() == old0.len());
                assert(x != base);
                assert(mid[x as int] == old0[x as int]);
                assert(indirect(codes, k, base));
                assert forall|t: int| #[trigger] long_at(codes, k, base, t) implies !sec_match(
                    codes,
                    t,
                    j,
                ) by {
                    assert(long_at(codes, k + 1, base, t));
                }
                assert(slot_untouched(codes, k, base, j));
                assert(old0[old0[base as int].0 + j] == (0u32, 0u32));
            } else {
                assert(off == old0.len());
                assert(old0.len() <= x < mid.len());
                assert(mid[x as int] == (0u32, 0u32));
            }
        } else {
            assert(!some_short(codes, k, i));
            assert(some_long(codes, k, i));
            assert(indirect(codes, k, i));
            assert(mid[i as int] == old0[i as int]);
            let offi = old0[i as int].0;
            assert(offi + ssize <= old0.len());
            let x = offi + j;
            if some_long(codes, k, base) {
                assert(indirect(codes, k, base));
                assert(old0[i as int].0 + ssize <= old0[base as int].0 || old0[base as int].0
                    + ssize <= old0[i as int].0);
                assert(!(off <= x < off + ssize));
            } else {
                assert(off == old0.len());
                assert(x < off);
            }
            assert(post[x as int] == mid[x as int]);
            assert(x != base);
            assert(mid[x as int] == old0[x as int]);
            assert forall|t: int| #[trigger] long_at(codes, k, i, t) implies !sec_match(
                codes,
                t,
                j,
            ) by {
                assert(long_at(codes, k + 1, i, t));
            }
            assert(slot_untouched(codes, k, i, j));
            assert(old0[x as int] == (0u32, 0u32));
        }
    }

    // T6: sub-tables of distinct primary indices stay apart
    assert forall|i1: u32, i2: u32|
        i1 < psize && i2 < psize && i1 != i2 && #[trigger] indirect(codes, k + 1, i1) && (
        #[trigger] indirect(codes, k + 1, i2)) implies post[i1 as int].0 + ssize <= post[
        i2 as int
    ].0 || post[i2 as int].0 + ssize <= post[i1 as int].0 by {
        assert(post[i1 as int] == mid[i1 as int] && post[i2 as int] == mid[i2 as int]);
        if i1 != base && i2 != base {
            assert(indirect(codes, k, i1) && indirect(codes, k, i2));
            assert(mid[i1 as int] == old0[i1 as int] && mid[i2 as int] == old0[i2 as int]);
        } else {
            let io = if i1 == base {
                i2
            } else {
                i1
            };
            assert(io != base);
            assert(indirect(codes, k, io));
            assert(mid[io as int] == old0[io as int]);
            if some_long(codes, k, base) {
                assert(indirect(codes, k, base));
                assert(mid[base as int] == old0[base as int]);
                assert(old0[io as int].0 + ssize <= old0[base as int].0 || old0[base as int].0
                    + ssize <= old0[io as int].0);
            } else {
                assert(off == old0.len());
                assert(old0[io as int].0 + ssize <= old0.len());
            }
        }
    }
}


/// A fully built table decodes every matching bit pattern to its symbol and
/// leaves every other pattern on an empty entry.
proof fn lemma_inv_implies_complete(d: HuffmanDecoder)
    requires
        d.structural(),
        rev_prefix_free(d.codes@),
        prim_size(d.codes@) <= d.lookup@.len(),
        table_inv(d.codes@, d.lookup@, d.codes@.len() as int),
    ensures
        d.table_complete(),
{
    let codes = d.codes@;
    let n = codes.len() as int;
    let psize = prim_size(codes);
    let ssize = sec_size(codes);
    let m = max_clen(codes);
    let p = prim_bits(codes);

    assert forall|bits: u32, s: int| #[trigger] code_matches(codes, s, bits) implies d.entry(bits)
        == (s as u32, codes[s].1) by {
        let l = codes[s].1;
        lemma_clen_le_max_upto(codes, s, n);
        let i = (bits & low_mask(p)) as u32;
        lemma_low_mask_bound_u32(bits, p);
        if l <= p {
            bv_mask_mask(bits, l, p);
            assert(i & low_mask(l) == rev_code(codes, s));
            assert(short_at(codes, n, i, s));
            assert(d.lookup@[i as int] == (s as u32, l));
            assert(d.entry(bits) == (s as u32, l));
        } else {
            assert(m > 9 && p == 9);
            bv_mask9();
            bv_rev_bound(codes[s].0, l);
            bv_sec_split(bits, rev_code(codes, s), l, m);
            assert(bits & low_mask(9) == rev_code(codes, s) & low_mask(9));
            assert(rev_code(codes, s) & low_mask(9) == i);
            assert(long_at(codes, n, i, s));
            assert forall|t: int| !(#[trigger] short_at(codes, n, i, t)) by {
                if short_at(codes, n, i, t) {
                    lemma_long_short_conflict(codes, i, t, s);
                    assert(false);
                }
            }
            assert(!some_short(codes, n, i));
            assert(indirect(codes, n, i));
            let j = ((bits >> 9u32) & low_mask((m - 9) as u32)) as u32;
            lemma_low_mask_bound_u32(bits >> 9u32, (m - 9) as u32);
            assert(j & low_mask((l - 9) as u32) == rev_code(codes, s) >> 9u32);
            assert(sec_match(codes, s, j));
            assert(d.lookup@[d.lookup@[i as int].0 + j] == (s as u32, l));
            assert(d.lookup@[i as int].1 > 9);
            assert(d.entry(bits) == (s as u32, l));
        }
    }

    assert forall|bits: u32|
        (forall|s: int| !(#[trigger] code_matches(codes, s, bits))) implies (#[trigger] d.entry(
            bits,
        )).1 == 0 by {
        let i = (bits & low_mask(p)) as u32;
        lemma_low_mask_bound_u32(bits, p);
        assert forall|t: int| !(#[trigger] short_at(codes, n, i, t)) by {
            if short_at(codes, n, i, t) {
                bv_mask_mask(bits, codes[t].1, p);
                assert(bits & low_mask(codes[t].1) == rev_code(codes, t));
                assert(code_matches(codes, t, bits));
                assert(false);
            }
        }
        assert(!some_short(codes, n, i));
        if some_long(codes, n, i) {
            let t0 = choose|t: int| #[trigger] long_at(codes, n, i, t);
            lemma_clen_le_max_upto(codes, t0, n);
            assert(m > 9 && p == 9);
            bv_mask9();
            assert(indirect(codes, n, i));
            let j = ((bits >> 9u32) & low_mask((m - 9) as u32)) as u32;
            lemma_low_mask_bound_u32(bits >> 9u32, (m - 9) as u32);
            assert forall|t: int| #[trigger] long_at(codes, n, i, t) implies !sec_match(
                codes,
                t,
                j,
            ) by {
                if sec_match(codes, t, j) {
                    let lt = codes[t].1;
                    lemma_clen_le_max_upto(codes, t, n);
                    bv_rev_bound(codes[t].0, lt);
                    assert(rev_code(codes, t) & 0x1FFu32 == i);
                    assert(bits & 0x1FFu32 == i);
                    bv_sec_join(bits, rev_code(codes, t), lt, m);
                    assert(code_matches(codes, t, bits));
                    assert(false);
                }
            }
            assert(slot_untouched(codes, n, i, j));
            assert(d.lookup@[d.lookup@[i as int].0 + j] == (0u32, 0u32));
            assert(d.lookup@[i as int].1 > 9);
            assert(d.entry(bits) == (0u32, 0u32));
        } else {
            assert(d.lookup@[i as int] == (0u32, 0u32));
            assert(d.entry(bits) == (0u32, 0u32));
        }
    }
}

/// The low 16 bits of `bits`, reversed; bits 16 and above are cleared.
fn reverse_bits(mut bits: u32) -> (r: u32)
    ensures
        r == rev16(bits),
{
    bits = (bits & 0xFF00) >> 8 | (bits & 0x00FF) << 8;
    bits = (bits & 0xF0F0) >> 4 | (bits & 0x0F0F) << 4;
    bits = (bits & 0xCCCC) >> 2 | (bits & 0x3333) << 2;
    bits = (bits & 0xAAAA) >> 1 | (bits & 0x5555) << 1;
    bits
}


/// Table sizes are small: at most 512 primary entries and 64 per sub-table.
proof fn lemma_size_bounds(codes: Seq<(u32, u32)>)
    requires
        max_clen(codes) <= 15,
    ensures
        1 <= prim_size(codes) <= 512,
        0 <= sec_size(codes) <= 64,
        max_clen(codes) > 9 ==> prim_size(codes) == 512 && 1 <= sec_size(codes),
{
    let p = prim_bits(codes);
    let m = max_clen(codes);
    assert(p <= 9 ==> 1 <= (1u32 << p) <= 512) by (bit_vector);
    if m > 9 {
        bv_mask9();
        assert(9 < m <= 15 ==> 1 <= (1u32 << ((m - 9) as u32)) <= 64) by (bit_vector);
    }
}

impl HuffmanDecoder {
    /// Build the two-level lookup table of a code book: short codes fill
    /// every primary entry they match; longer codes share appended
    /// sub-tables keyed by their first nine stream bits.
    #[verifier::rlimit(60)]
    pub fn new(codebook: CodeBook) -> (r: Self)
        requires
            codebook.wf(),
        ensures
            r.wf(),
            r.codebook() == codebook.codes(),
    {
        let ghost codes = codebook.codes();
        proof {
            codebook.lemma_wf_facts();
            lemma_max_eq(codes, codebook.lens(), codes.len() as int);
            assert(codes_wf(codes));
        }
        let max_nbits = codebook.max_length();
        proof {
            assert(max_nbits == max_clen(codes));
            lemma_size_bounds(codes);
            lemma_low_mask_bound_u32(0, max_nbits);
            if max_nbits > 9 {
                lemma_low_mask_bound_u32(0, (max_nbits - 9) as u32);
            }
        }
        let (nbits, secondary_mask) = if max_nbits > NUM_BITS_FIRST_LOOKUP {
            (NUM_BITS_FIRST_LOOKUP, (1u32 << (max_nbits - NUM_BITS_FIRST_LOOKUP)) - 1)
        } else {
            (max_nbits, 0u32)
        };
        proof {
            lemma_low_mask_bound_u32(0, nbits);
            assert(nbits == prim_bits(codes));
        }
        let primary_mask = (1u32 << nbits) - 1;
        let psize = 1usize << nbits;
        proof {
            assert(nbits <= 9 ==> (1usize << nbits) == (1u32 << nbits) as usize) by (bit_vector);
            assert(psize as int == prim_size(codes));
        }
        let mut lookup: Vec<(u32, u32)> = Vec::new();
        let mut z: usize = 0;
        while z < psize
            invariant
                z <= psize,
                lookup@.len() == z,
                forall|x: int| 0 <= x < z ==> #[trigger] lookup@[x] == (0u32, 0u32),
            decreases psize - z,
        {
            lookup.push((0u32, 0u32));
            z = z + 1;
        }

        let n = codebook.len();
        let mut k: usize = 0;
        while k < n
            invariant
                codebook.wf(),
                codes == codebook.codes(),
                n == codes.len(),
                codes_wf(codes),
                max_nbits == max_clen(codes),
                max_nbits <= 15,
                nbits == prim_bits(codes),
                nbits <= 9,
                primary_mask == low_mask(nbits),
                secondary_mask == if max_clen(codes) > 9 {
                    low_mask((max_clen(codes) - 9) as u32)
                } else {
                    0u32
                },
                psize as int == prim_size(codes),
                psize <= 512,
                k <= n,
                prim_size(codes) <= lookup@.len(),
                lookup@.len() <= prim_size(codes) + k * sec_size(codes),
                forall|x: int| 0 <= x < lookup@.len() ==> (#[trigger] lookup@[x]).1 <= 15,
                max_clen(codes) <= 9 ==> lookup@.len() == prim_size(codes) && forall|x: int|
                    0 <= x < lookup@.len() ==> (#[trigger] lookup@[x]).1 <= 9,
                max_clen(codes) > 9 ==> forall|x: int|
                    0 <= x < prim_size(codes) ==> (#[trigger] lookup@[x]).0 + sec_size(codes)
                        <= lookup@.len(),
                rev_prefix_free(codes) ==> table_inv(codes, lookup@, k as int),
            decreases n - k,
        {
            let (code, len) = codebook.get(k);
            proof {
                assert(codes[k as int] == (code, len));
                lemma_clen_le_max_upto(codes, k as int, n as int);
                lemma_size_bounds(codes);
                assert(k * sec_size(codes) <= 289 * 64) by (nonlinear_arith)
                    requires
                        0 <= k <= 289,
                        0 <= sec_size(codes) <= 64,
                ;
            }
            if len != 0 {
                let bitcode = reverse_bits(code) >> (16 - len);
                proof {
                    assert(bitcode == rev_code(codes, k as int));
                    bv_rev_bound(code, len);
                }
                if len <= nbits {
                    let delta = nbits - len;
                    let top = 1u32 << delta;
                    let ghost old0 = lookup@;
                    let mut idx: u32 = 0;
                    while idx < top
                        invariant
                            codes_wf(codes),
                            0 <= k < codes.len(),
                            codes[k as int].1 == len,
                            1 <= len <= nbits <= 9,
                            bitcode == rev_code(codes, k as int),
                            bitcode < (1u32 << len),
                            top == (1u32 << ((nbits - len) as u32)),
                            idx <= top,
                            psize as int == prim_size(codes),
                            psize as int == (1u32 << nbits) as int,
                            prim_size(codes) <= lookup@.len(),
                            lookup@.len() == old0.len(),
                            forall|x: int|
                                0 <= x < lookup@.len() && !(x < prim_size(codes) && (x as u32)
                                    & low_mask(len) == bitcode && ((x as u32) >> len) < idx)
                                    ==> #[trigger] lookup@[x] == old0[x],
                            forall|x: int|
                                0 <= x < prim_size(codes) && (x as u32) & low_mask(len) == bitcode
                                    && ((x as u32) >> len) < idx ==> #[trigger] lookup@[x] == (
                                k as u32,
                                len,
                            ),
                        decreases top - idx,
                    {
                        proof {
                            bv_fill_fwd(bitcode, len, nbits, idx);
                        }
                        let tgt = (bitcode | (idx << len)) as usize;
                        lookup[tgt] = (k as u32, len);
                        idx = idx + 1;
                        proof {
                            assert forall|x: int|
                                0 <= x < prim_size(codes) && (x as u32) & low_mask(len) == bitcode
                                    && ((x as u32) >> len) < idx implies #[trigger] lookup@[x] == (
                                k as u32,
                                len,
                            ) by {
                                if (x as u32) >> len == idx - 1 {
                                    bv_fill_bwd(bitcode, len, nbits, x as u32);
                                }
                            }
                        }
                    }
                    proof {
                        assert forall|x: int|
                            0 <= x < prim_size(codes) && (x as u32) & low_mask(len) == bitcode
                            implies #[trigger] lookup@[x] == (k as u32, len) by {
                            bv_fill_bwd(bitcode, len, nbits, x as u32);
                        }
                        if rev_prefix_free(codes) {
                            lemma_short_placed(codes, old0, lookup@, k as int);
                        }
                    }
                } else {
                    proof {
                        assert(max_clen(codes) > 9);
                        assert(nbits == 9);
                        bv_mask9();
                        lemma_low_mask_bound_u32(bitcode, 9);
                    }
                    let base_u = bitcode & primary_mask;
                    let base = base_u as usize;
                    let e0 = lookup[base];
                    let ghost old0 = lookup@;
                    proof {
                        if rev_prefix_free(codes) {
                            assert forall|t: int| !(#[trigger] short_at(
                                codes,
                                k as int,
                                base_u,
                                t,
                            )) by {
                                if short_at(codes, k as int, base_u, t) {
                                    lemma_long_short_conflict(codes, base_u, t, k as int);
                                }
                            }
                            assert(!some_short(codes, k as int, base_u));
                        }
                    }
                    let offset: u32;
                    if e0.0 == 0 {
                        let off32 = lookup.len() as u32;
                        lookup[base] = (off32, len);
                        let add = 1usize << (max_nbits - nbits);
                        proof {
                            assert(9 < max_nbits <= 15 ==> (1usize << ((max_nbits - 9) as u32))
                                == (1u32 << ((max_nbits - 9) as u32)) as usize) by (bit_vector);
                            assert(add as int == sec_size(codes));
                        }
                        let ghost grown = lookup@;
                        let mut z: usize = 0;
                        while z < add
                            invariant
                                z <= add,
                                lookup@.len() == grown.len() + z,
                                lookup@.subrange(0, grown.len() as int) == grown,
                                forall|x: int|
                                    grown.len() <= x < lookup@.len() ==> #[trigger] lookup@[x] == (
                                    0u32,
                                    0u32,
                                ),
                            decreases add - z,
                        {
                            lookup.push((0u32, 0u32));
                            z = z + 1;
                            proof {
                                assert(lookup@.subrange(0, grown.len() as int) =~= grown);
                            }
                        }
                        proof {
                            assert forall|x: int| 0 <= x < grown.len() implies #[trigger] lookup@[x]
                                == grown[x] by {
                                assert(lookup@.subrange(0, grown.len() as int)[x] == lookup@[x]);
                            }
                        }
                        offset = off32;
                        proof {
                            if rev_prefix_free(codes) {
                                if some_long(codes, k as int, base_u) {
                                    assert(indirect(codes, k as int, base_u));
                                    assert(old0[base_u as int].0 >= prim_size(codes));
                                    assert(false);
                                }
                            }
                        }
                    } else {
                        offset = e0.0;
                        proof {
                            if rev_prefix_free(codes) {
                                if !some_long(codes, k as int, base_u) {
                                    assert(old0[base_u as int] == (0u32, 0u32));
                                    assert(false);
                                }
                                assert(indirect(codes, k as int, base_u));
                            }
                        }
                    }
                    let ghost mid = lookup@;
                    let secondary_len = len - nbits;
                    proof {
                        assert((k as int + 1) * sec_size(codes) == k as int * sec_size(codes)
                            + sec_size(codes)) by (nonlinear_arith);
                        assert(offset as int + sec_size(codes) <= lookup@.len());
                        assert(lookup@.len() <= prim_size(codes) + (k as int + 1) * sec_size(
                            codes,
                        ));
                        assert((k as int + 1) * sec_size(codes) <= 290 * 64) by (nonlinear_arith)
                            requires
                                0 <= k <= 289,
                                0 <= sec_size(codes) <= 64,
                        ;
                        assert(lookup@.len() <= 512 + 290 * 64);
                        bv_sec_idx(bitcode, len, max_nbits);
                        assert((bitcode >> 9u32) & low_mask((max_nbits - 9) as u32) == bitcode
                            >> 9u32);
                    }
                    let base2 = offset + ((bitcode >> nbits) & secondary_mask);
                    let top2 = 1u32 << (max_nbits - len);
                    let mut idx: u32 = 0;
                    while idx < top2
                        invariant
                            codes_wf(codes),
                            0 <= k < codes.len(),
                            codes[k as int].1 == len,
                            9 < len <= max_nbits == max_clen(codes) <= 15,
                            nbits == 9,
                            secondary_len == len - 9,
                            bitcode == rev_code(codes, k as int),
                            bitcode < (1u32 << len),
                            top2 == (1u32 << ((max_nbits - len) as u32)),
                            idx <= top2,
                            base2 == offset + (bitcode >> 9u32),
                            offset + sec_size(codes) <= lookup@.len(),
                            prim_size(codes) <= lookup@.len(),
                            lookup@.len() == mid.len(),
                            lookup@.len() <= 512 + 290 * 64,
                            sec_size(codes) == (1u32 << ((max_nbits - 9) as u32)) as int,
                            forall|x: int|
                                0 <= x < lookup@.len() && !(offset <= x < offset + sec_size(codes)
                                    && ((x - offset) as u32) & low_mask((len - 9) as u32) == (
                                bitcode >> 9u32) && ((x - offset) as u32) >> ((len - 9) as u32)
                                    < idx) ==> #[trigger] lookup@[x] == mid[x],
                            forall|x: int|
                                offset <= x < offset + sec_size(codes) && ((x - offset) as u32)
                                    & low_mask((len - 9) as u32) == (bitcode >> 9u32) && ((x
                                    - offset) as u32) >> ((len - 9) as u32) < idx
                                    ==> #[trigger] lookup@[x] == (k as u32, len),
                        decreases top2 - idx,
                    {
                        proof {
                            bv_sfill_fwd(bitcode, len, max_nbits, idx);
                        }
                        let tgt = (base2 + (idx << secondary_len)) as usize;
                        lookup[tgt] = (k as u32, len);
                        idx = idx + 1;
                        proof {
                            assert forall|x: int|
                                offset <= x < offset + sec_size(codes) && ((x - offset) as u32)
                                    & low_mask((len - 9) as u32) == (bitcode >> 9u32) && ((x
                                    - offset) as u32) >> ((len - 9) as u32) < idx implies #[trigger] lookup@[x]
                                == (k as u32, len) by {
                                if ((x - offset) as u32) >> ((len - 9) as u32) == idx - 1 {
                                    bv_sfill_bwd(bitcode, len, max_nbits, (x - offset) as u32);
                                }
                            }
                        }
                    }
                    proof {
                        assert forall|x: int|
                            offset <= x < offset + sec_size(codes) && ((x - offset) as u32)
                                & low_mask((len - 9) as u32) == (bitcode >> 9u32) implies #[trigger] lookup@[x]
                            == (k as u32, len) by {
                            bv_sfill_bwd(bitcode, len, max_nbits, (x - offset) as u32);
                        }
                        if rev_prefix_free(codes) {
                            lemma_long_placed(
                                codes,
                                old0,
                                mid,
                                lookup@,
                                k as int,
                                base_u,
                                offset,
                            );
                        }
                    }
                }
            } else {
                proof {
                    if rev_prefix_free(codes) {
                        lemma_skip_placed(codes, lookup@, k as int);
                    }
                }
            }
            proof {
                assert((k as int + 1) * sec_size(codes) == k as int * sec_size(codes) + sec_size(
                    codes,
                )) by (nonlinear_arith);
            }
            k = k + 1;
        }

        let r = HuffmanDecoder { lookup, primary_mask, secondary_mask, codes: Ghost(codes) };
        proof {
            if rev_prefix_free(codes) {
                lemma_inv_implies_complete(r);
            }
        }
        r
    }
}

} // verus!
