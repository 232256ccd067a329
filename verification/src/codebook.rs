use vstd::prelude::*;
use vstd::arithmetic::power2::*;
use crate::error::Error;

verus! {

/// The largest bit length a Huffman code may have.
pub const MAX_CODELENGTH: u32 = 15;

/// The largest symbol of the literal/length alphabet.
pub const MAX_LL_SYMBOL: u32 = 288;

/// How many of the first `k` entries of `lengths` equal `l`.
pub open spec fn count_len_upto(lengths: Seq<u32>, l: u32, k: int) -> int
    decreases k,
{
    if k <= 0 {
        0
    } else {
        count_len_upto(lengths, l, k - 1) + if lengths[k - 1] == l {
            1int
        } else {
            0int
        }
    }
}

/// How many entries of `lengths` equal `l`.
pub open spec fn count_len(lengths: Seq<u32>, l: u32) -> int {
    count_len_upto(lengths, l, lengths.len() as int)
}

/// The smallest code of bit length `l`, per the canonical construction of
/// RFC 1951: each length starts where the previous length's codes end,
/// shifted left once.
pub open spec fn first_code(lengths: Seq<u32>, l: nat) -> int
    decreases l,
{
    if l <= 1 {
        0
    } else {
        (first_code(lengths, (l - 1) as nat) + count_len(lengths, (l - 1) as u32)) * 2
    }
}

/// The canonical code of symbol `s`: the first code of its length, plus the
/// number of earlier symbols sharing that length.
pub open spec fn code_of(lengths: Seq<u32>, s: int) -> int {
    first_code(lengths, lengths[s] as nat) + count_len_upto(lengths, lengths[s], s)
}

/// The largest entry among the first `k` of `lengths`.
pub open spec fn max_len_upto(lengths: Seq<u32>, k: int) -> u32
    decreases k,
{
    if k <= 0 {
        0u32
    } else {
        let m = max_len_upto(lengths, k - 1);
        if lengths[k - 1] > m {
            lengths[k - 1]
        } else {
            m
        }
    }
}

/// The largest entry of `lengths`.
pub open spec fn max_len_of(lengths: Seq<u32>) -> u32 {
    max_len_upto(lengths, lengths.len() as int)
}

/// The code lengths of the fixed literal/length code book of RFC 1951.
pub open spec fn fixed_ll_lengths() -> Seq<u32> {
    Seq::new(
        288,
        |i: int|
            if i < 144 {
                8u32
            } else if i < 256 {
                9u32
            } else if i < 280 {
                7u32
            } else {
                8u32
            },
    )
}

/// The code lengths of the fixed distance code book: thirty five-bit codes.
pub open spec fn fixed_dist_lengths() -> Seq<u32> {
    Seq::new(30, |i: int| 5u32)
}

/// The whole canonical code assignment of a length vector, as `(code,
/// length)` pairs.
pub open spec fn codebook_of(lens: Seq<u32>) -> Seq<(u32, u32)> {
    Seq::new(
        lens.len(),
        |s: int|
            (
                if lens[s] == 0 {
                    0u32
                } else {
                    code_of(lens, s) as u32
                },
                lens[s],
            ),
    )
}

/// A length vector a code book can be built from.
pub open spec fn valid_lengths(lengths: Seq<u32>) -> bool {
    &&& 1 <= lengths.len() <= MAX_LL_SYMBOL + 1
    &&& forall|j: int| 0 <= j < lengths.len() ==> lengths[j] <= MAX_CODELENGTH
}

proof fn lemma_count_upto_range(lengths: Seq<u32>, l: u32, k: int)
    ensures
        0 <= count_len_upto(lengths, l, k) <= if k <= 0 {
            0int
        } else {
            k
        },
    decreases k,
{
    if k > 0 {
        lemma_count_upto_range(lengths, l, k - 1);
    }
}

proof fn lemma_count_upto_mono(lengths: Seq<u32>, l: u32, k1: int, k2: int)
    requires
        k1 <= k2,
    ensures
        count_len_upto(lengths, l, k1) <= count_len_upto(lengths, l, k2),
    decreases k2 - k1,
{
    if k1 < k2 {
        lemma_count_upto_mono(lengths, l, k1, k2 - 1);
    }
}

/// Codes stay well below 2^26 for any vector of at most 289 lengths.
proof fn lemma_first_code_bound(lengths: Seq<u32>, l: nat)
    requires
        lengths.len() <= MAX_LL_SYMBOL + 1,
    ensures
        0 <= first_code(lengths, l),
        first_code(lengths, l) + count_len(lengths, l as u32) <= 289 * (pow2(l + 1) - 1),
    decreases l,
{
    lemma_count_upto_range(lengths, l as u32, lengths.len() as int);
    lemma2_to64();
    if l <= 1 {
        lemma_pow2_unfold(l + 1);
        lemma_pow2_pos(l);
    } else {
        lemma_first_code_bound(lengths, (l - 1) as nat);
        lemma_count_upto_range(lengths, (l - 1) as u32, lengths.len() as int);
        lemma_pow2_unfold(l + 1);
        lemma_pow2_pos(l);
    }
}

proof fn lemma_max_upto(lengths: Seq<u32>, j: int, k: int)
    requires
        0 <= j < k,
    ensures
        lengths[j] <= max_len_upto(lengths, k),
    decreases k,
{
    if j < k - 1 {
        lemma_max_upto(lengths, j, k - 1);
    }
}

/// The canonical Huffman code assignment for a vector of code lengths:
/// one `(code, length)` pair per symbol, `code == 0` where `length == 0`.
pub struct CodeBook {
    tree: Vec<(u32, u32)>,
    max_length: u32,
    input_lens: Ghost<Seq<u32>>,
}

impl CodeBook {
    /// The length vector the book was built from.
    pub closed spec fn lens(self) -> Seq<u32> {
        self.input_lens@
    }

    /// The `(code, length)` pair of each symbol.
    pub closed spec fn codes(self) -> Seq<(u32, u32)> {
        self.tree@
    }

    pub closed spec fn wf(self) -> bool {
        &&& valid_lengths(self.input_lens@)
        &&& self.tree@.len() == self.input_lens@.len()
        &&& self.max_length == max_len_of(self.input_lens@)
        &&& forall|s: int|
            0 <= s < self.tree@.len() ==> (#[trigger] self.tree@[s]).1 == self.input_lens@[s]
        &&& forall|s: int|
            0 <= s < self.tree@.len() ==> (#[trigger] self.tree@[s]).0 as int == if self.input_lens@[s]
                == 0 {
                0int
            } else {
                code_of(self.input_lens@, s)
            }
    }

    /// Build the canonical code book of RFC 1951 from a length vector.
    pub fn new(lengths: &[u32]) -> (r: Result<Self, Error>)
        ensures
            r is Ok <==> valid_lengths(lengths@),
            r is Err ==> r == Err::<Self, Error>(Error::InvalidCodeLengths),
            r is Ok ==> {
                &&& r->Ok_0.wf()
                &&& r->Ok_0.lens() == lengths@
            },
    {
        let n = lengths.len();
        if n == 0 || n > (MAX_LL_SYMBOL as usize) + 1 {
            return Err(Error::InvalidCodeLengths);
        }
        let mut tree: Vec<(u32, u32)> = Vec::new();
        let mut bl_count: Vec<u32> = vec![0u32; 16];
        let mut max_len: u32 = 0;

        let mut i: usize = 0;
        while i < n
            invariant
                n == lengths@.len(),
                1 <= n <= 289,
                i <= n,
                tree@.len() == i,
                forall|j: int| 0 <= j < i ==> #[trigger] tree@[j] == (0u32, lengths@[j]),
                forall|j: int| 0 <= j < i ==> #[trigger] lengths@[j] <= 15,
                bl_count@.len() == 16,
                forall|l: int|
                    0 <= l < 16 ==> #[trigger] bl_count@[l] as int == count_len_upto(
                        lengths@,
                        l as u32,
                        i as int,
                    ),
                max_len == max_len_upto(lengths@, i as int),
                max_len <= 15,
            decreases n - i,
        {
            let l = lengths[i];
            if l > MAX_CODELENGTH {
                return Err(Error::InvalidCodeLengths);
            }
            proof {
                lemma_count_upto_range(lengths@, l, i as int);
            }
            bl_count[l as usize] = bl_count[l as usize] + 1;
            tree.push((0, l));
            if l > max_len {
                max_len = l;
            }
            i = i + 1;
        }

        proof {
            assert forall|j: int| 0 <= j < n implies lengths@[j] <= max_len by {
                lemma_max_upto(lengths@, j, n as int);
            }
        }

        bl_count[0] = 0;
        let mut next_code: Vec<u32> = vec![0u32; 16];
        let mut code: u32 = 0;
        let mut bits: u32 = 1;
        while bits <= max_len
            invariant
                n == lengths@.len(),
                1 <= n <= 289,
                max_len == max_len_of(lengths@),
                max_len <= 15,
                1 <= bits <= max_len + 1,
                bl_count@.len() == 16,
                bl_count@[0] == 0,
                forall|l: int|
                    1 <= l < 16 ==> #[trigger] bl_count@[l] as int == count_len(lengths@, l as u32),
                next_code@.len() == 16,
                forall|b: int|
                    1 <= b < bits ==> #[trigger] next_code@[b] as int == first_code(
                        lengths@,
                        b as nat,
                    ),
                code as int == first_code(lengths@, (bits - 1) as nat),
            decreases max_len + 1 - bits,
        {
            proof {
                lemma_first_code_bound(lengths@, (bits - 1) as nat);
                lemma_first_code_bound(lengths@, bits as nat);
                lemma_count_upto_range(lengths@, (bits - 1) as u32, n as int);
                lemma2_to64();
                if bits >= 2 {
                    lemma_pow2_strictly_increases(bits as nat, 16);
                }
            }
            let cnt = if bits == 1 {
                0u32
            } else {
                bl_count[(bits - 1) as usize]
            };
            code = (code + cnt) * 2;
            next_code[bits as usize] = code;
            bits = bits + 1;
        }

        let mut s: usize = 0;
        while s < n
            invariant
                n == lengths@.len(),
                1 <= n <= 289,
                max_len == max_len_of(lengths@),
                max_len <= 15,
                s <= n,
                tree@.len() == n,
                forall|j: int| 0 <= j < n ==> #[trigger] lengths@[j] <= max_len,
                forall|j: int| s <= j < n ==> #[trigger] tree@[j] == (0u32, lengths@[j]),
                forall|j: int|
                    0 <= j < s ==> (#[trigger] tree@[j]).1 == lengths@[j] && tree@[j].0 as int == (
                    if lengths@[j] == 0 {
                        0int
                    } else {
                        code_of(lengths@, j)
                    }),
                next_code@.len() == 16,
                forall|b: int|
                    1 <= b <= max_len ==> #[trigger] next_code@[b] as int == first_code(
                        lengths@,
                        b as nat,
                    ) + count_len_upto(lengths@, b as u32, s as int),
            decreases n - s,
        {
            let l = lengths[s];
            if l != 0 {
                proof {
                    lemma_first_code_bound(lengths@, l as nat);
                    lemma_count_upto_mono(lengths@, l, s as int + 1, n as int);
                    lemma_count_upto_range(lengths@, l, s as int);
                    lemma2_to64();
                }
                let c = next_code[l as usize];
                tree[s] = (c, l);
                next_code[l as usize] = c + 1;
            }
            s = s + 1;
        }

        Ok(CodeBook { tree, max_length: max_len, input_lens: Ghost(lengths@) })
    }

    /// The fixed literal/length code book of RFC 1951: lengths 8/9/7/8.
    pub fn default_ll() -> (r: Self)
        ensures
            r.wf(),
            r.lens() == fixed_ll_lengths(),
    {
        let mut lengths: Vec<u32> = Vec::new();
        let mut i: usize = 0;
        while i < 288
            invariant
                i <= 288,
                lengths@.len() == i,
                forall|j: int| 0 <= j < i ==> lengths@[j] == fixed_ll_lengths()[j],
            decreases 288 - i,
        {
            let l = if i < 144 {
                8u32
            } else if i < 256 {
                9u32
            } else if i < 280 {
                7u32
            } else {
                8u32
            };
            lengths.push(l);
            i = i + 1;
        }
        proof {
            assert(lengths@ =~= fixed_ll_lengths());
        }
        match Self::new(lengths.as_slice()) {
            Ok(cb) => cb,
            Err(_) => {
                proof {
                    assert(false);
                }
                CodeBook { tree: Vec::new(), max_length: 0, input_lens: Ghost(Seq::empty()) }
            },
        }
    }

    /// The fixed distance code book of RFC 1951: all thirty symbols length 5.
    pub fn default_dist() -> (r: Self)
        ensures
            r.wf(),
            r.lens() == fixed_dist_lengths(),
    {
        let mut lengths: Vec<u32> = Vec::new();
        let mut i: usize = 0;
        while i < 30
            invariant
                i <= 30,
                lengths@.len() == i,
                forall|j: int| 0 <= j < i ==> lengths@[j] == 5u32,
            decreases 30 - i,
        {
            lengths.push(5u32);
            i = i + 1;
        }
        proof {
            assert(lengths@ =~= fixed_dist_lengths());
        }
        match Self::new(lengths.as_slice()) {
            Ok(cb) => cb,
            Err(_) => {
                proof {
                    assert(false);
                }
                CodeBook { tree: Vec::new(), max_length: 0, input_lens: Ghost(Seq::empty()) }
            },
        }
    }

    /// What well-formedness guarantees of the book's entries: lengths match
    /// the input vector, stay at most 15, and codes are the canonical ones.
    pub proof fn lemma_wf_facts(self)
        requires
            self.wf(),
        ensures
            valid_lengths(self.lens()),
            self.codes().len() == self.lens().len(),
            1 <= self.codes().len() <= 289,
            forall|s: int|
                0 <= s < self.codes().len() ==> (#[trigger] self.codes()[s]).1 == self.lens()[s]
                    && self.codes()[s].1 <= 15,
            self.codes() == codebook_of(self.lens()),
    {
        assert(self.codes() =~= codebook_of(self.lens()));
    }

    /// How many symbols the book covers.
    pub fn len(&self) -> (r: usize)
        ensures
            r == self.codes().len(),
    {
        self.tree.len()
    }

    /// The `(code, length)` pair of symbol `s`.
    pub fn get(&self, s: usize) -> (r: (u32, u32))
        requires
            s < self.codes().len(),
        ensures
            r == self.codes()[s as int],
    {
        self.tree[s]
    }

    /// The largest code length in the book.
    pub fn max_length(&self) -> (r: u32)
        requires
            self.wf(),
        ensures
            r == max_len_of(self.lens()),
            r <= 15,
    {
        proof {
            if self.input_lens@.len() > 0 {
                lemma_max_is_some_len(self.input_lens@);
            }
        }
        self.max_length
    }
}

/// The maximum of a non-empty valid length vector is one of its entries.
proof fn lemma_max_is_some_len(lengths: Seq<u32>)
    requires
        lengths.len() > 0,
    ensures
        max_len_of(lengths) == 0 || exists|j: int|
            0 <= j < lengths.len() && lengths[j] == max_len_of(lengths),
    decreases lengths.len(),
{
    lemma_max_exists(lengths, lengths.len() as int);
}

proof fn lemma_max_exists(lengths: Seq<u32>, k: int)
    requires
        0 < k,
    ensures
        max_len_upto(lengths, k) == 0 || exists|j: int|
            0 <= j < k && lengths[j] == max_len_upto(lengths, k),
    decreases k,
{
    if k > 1 {
        lemma_max_exists(lengths, k - 1);
    }
    assert(max_len_upto(lengths, 0) == 0);
    let m = max_len_upto(lengths, k);
    if m != 0 && lengths[k - 1] == m {
        assert(0 <= k - 1 < k && lengths[k - 1] == m);
        assert(exists|j: int| 0 <= j < k && lengths[j] == max_len_upto(lengths, k));
    } else if m != 0 && k > 1 {
        assert(max_len_upto(lengths, k - 1) == m);
        let j = choose|j: int| 0 <= j < k - 1 && lengths[j] == max_len_upto(lengths, k - 1);
        assert(0 <= j < k && lengths[j] == m);
        assert(exists|j: int| 0 <= j < k && lengths[j] == max_len_upto(lengths, k));
    }
}

} // verus!
