use vstd::prelude::*;
use crate::error::Error;

verus! {

/// The 32-bit little-endian integer formed by the four bytes of `data`
/// starting at `i`.
pub open spec fn le32_at(data: Seq<u8>, i: int) -> u32
    recommends
        0 <= i,
        i + 4 <= data.len(),
{
    (data[i] as u32) | ((data[i + 1] as u32) << 8u32) | ((data[i + 2] as u32) << 16u32) | ((data[i
        + 3] as u32) << 24u32)
}

/// A mask keeping the low `n` bits, for `n <= 24`.
pub open spec fn low_mask(n: u32) -> u32
    recommends
        n <= 24,
{
    ((1u32 << n) - 1) as u32
}

/// The byte index of the next byte boundary at or after bit position `pos`.
pub open spec fn byte_ceil(pos: int) -> int {
    if pos % 8 == 0 {
        pos / 8
    } else {
        pos / 8 + 1
    }
}

/// The index of the first occurrence of `x` in `data` at or after `from`,
/// or the length of `data` if there is none.
pub open spec fn find_from(data: Seq<u8>, from: int, x: u8) -> int
    decreases data.len() - from,
{
    if from < 0 || from >= data.len() {
        data.len() as int
    } else if data[from] == x {
        from
    } else {
        find_from(data, from + 1, x)
    }
}

/// The small powers of two that bit-field widths in this crate produce.
pub proof fn lemma_shift_values()
    by (bit_vector)
    ensures
        (1u32 << 0u32) == 1,
        (1u32 << 1u32) == 2,
        (1u32 << 2u32) == 4,
        (1u32 << 3u32) == 8,
        (1u32 << 4u32) == 16,
        (1u32 << 5u32) == 32,
        (1u32 << 6u32) == 64,
        (1u32 << 7u32) == 128,
        (1u32 << 8u32) == 256,
        (1u32 << 9u32) == 512,
        (1u32 << 10u32) == 1024,
        (1u32 << 11u32) == 2048,
        (1u32 << 12u32) == 4096,
        (1u32 << 13u32) == 8192,
        (1u32 << 16u32) == 65536,
{
}

proof fn lemma_low_mask_bound(x: u32, n: u32)
    by (bit_vector)
    requires
        n <= 24,
    ensures
        1u32 << n >= 1,
        (x & ((1u32 << n) - 1) as u32) < (1u32 << n),
{
}

/// The first occurrence is never before `from` nor past the end.
pub proof fn lemma_find_from_range(data: Seq<u8>, from: int, x: u8)
    requires
        0 <= from,
    ensures
        find_from(data, from, x) <= data.len(),
        from <= data.len() ==> from <= find_from(data, from, x),
    decreases data.len() - from,
{
    if 0 <= from < data.len() && data[from] != x {
        lemma_find_from_range(data, from + 1, x);
    }
}

/// Bit-granular access to a byte stream held in memory, reading the bits of
/// each byte from least to most significant.
pub struct BitReader {
    data: Vec<u8>,
    begin: usize,
    nbits: u32,
}

impl BitReader {
    /// The whole input.
    pub closed spec fn input(self) -> Seq<u8> {
        self.data@
    }

    /// The byte offset of the next unread byte.
    pub closed spec fn byte_pos(self) -> int {
        self.begin as int
    }

    /// How many bits of the byte at `byte_pos` are already consumed.
    pub closed spec fn bit_off(self) -> nat {
        self.nbits as nat
    }

    /// The absolute position in the input, in bits.
    pub open spec fn bit_pos(self) -> int {
        self.byte_pos() * 8 + self.bit_off()
    }

    /// The reader sits on a byte boundary.
    pub open spec fn aligned(self) -> bool {
        self.bit_off() == 0
    }

    pub closed spec fn wf(self) -> bool {
        &&& self.nbits < 8
        &&& self.begin <= self.data@.len()
        &&& (self.nbits > 0 ==> self.begin < self.data@.len())
    }

    /// A well-formed reader sits between the start and the end of its input.
    pub broadcast proof fn lemma_pos_bounds(self)
        requires
            #[trigger] self.wf(),
        ensures
            0 <= self.byte_pos() <= self.input().len(),
            self.bit_off() < 8,
            self.bit_off() > 0 ==> self.byte_pos() < self.input().len(),
    {
    }

    /// The byte offset and the bit offset are the division of the bit
    /// position by eight.
    pub proof fn lemma_pos_split(self)
        requires
            self.wf(),
        ensures
            self.byte_pos() == self.bit_pos() / 8,
            self.bit_off() == self.bit_pos() % 8,
    {
        vstd::arithmetic::div_mod::lemma_fundamental_div_mod_converse(
            self.bit_pos(),
            8,
            self.byte_pos(),
            self.bit_off() as int,
        );
    }

    pub fn new(data: Vec<u8>) -> (r: Self)
        ensures
            r.wf(),
            r.input() == data@,
            r.byte_pos() == 0,
            r.aligned(),
    {
        BitReader { data, begin: 0, nbits: 0 }
    }

    /// The next 32 bits of the stream, of which the low 24 are valid
    /// whatever the bit offset; the stream does not advance.
    pub fn peek_bits(&self) -> (r: Result<u32, Error>)
        requires
            self.wf(),
        ensures
            self.byte_pos() + 4 <= self.input().len() ==> r == Ok::<u32, Error>(
                (le32_at(self.input(), self.byte_pos()) >> self.bit_off() as u32) as u32,
            ),
            self.byte_pos() + 4 > self.input().len() ==> r == Err::<u32, Error>(
                Error::UnexpectedEof,
            ),
    {
        if self.data.len() - self.begin < 4 {
            return Err(Error::UnexpectedEof);
        }
        let i = self.begin;
        let v = (self.data[i] as u32) | ((self.data[i + 1] as u32) << 8u32) | ((self.data[i
            + 2] as u32) << 16u32) | ((self.data[i + 3] as u32) << 24u32);
        Ok(v >> self.nbits)
    }

    /// Advance the stream by `n` bits; at least `n` bits must remain, which
    /// a successful `peek_bits` guarantees for any `n` up to 24.
    pub fn consume(&mut self, n: u32)
        requires
            old(self).wf(),
            n <= 24,
            old(self).bit_pos() + n <= 8 * old(self).input().len(),
        ensures
            final(self).wf(),
            final(self).input() == old(self).input(),
            final(self).bit_pos() == old(self).bit_pos() + n,
    {
        let l = self.data.len();
        self.nbits = self.nbits + n;
        let step = (self.nbits / 8) as usize;
        assert(self.begin + step <= l);
        self.begin = self.begin + step;
        self.nbits = self.nbits % 8;
    }

    /// Read and consume the low `n` bits of the stream.
    pub fn read_bits(&mut self, n: u32) -> (r: Result<u32, Error>)
        requires
            old(self).wf(),
            n <= 24,
        ensures
            final(self).wf(),
            final(self).input() == old(self).input(),
            old(self).byte_pos() + 4 <= old(self).input().len() ==> {
                &&& r == Ok::<u32, Error>(
                    (le32_at(old(self).input(), old(self).byte_pos())
                        >> old(self).bit_off() as u32) & low_mask(n),
                )
                &&& final(self).bit_pos() == old(self).bit_pos() + n
            },
            old(self).byte_pos() + 4 > old(self).input().len() ==> r == Err::<u32, Error>(
                Error::UnexpectedEof,
            ) && *final(self) == *old(self),
            r is Ok ==> r->Ok_0 < (1u32 << n),
    {
        let bits = match self.peek_bits() {
            Ok(b) => b,
            Err(e) => {
                return Err(e);
            },
        };
        proof {
            lemma_low_mask_bound(bits, n);
        }
        self.consume(n);
        Ok(bits & ((1u32 << n) - 1))
    }

    /// Discard any partly consumed byte so that the stream sits on a byte
    /// boundary.
    pub fn byte_align(&mut self)
        requires
            old(self).wf(),
        ensures
            final(self).wf(),
            final(self).input() == old(self).input(),
            final(self).aligned(),
            final(self).byte_pos() == if old(self).aligned() {
                old(self).byte_pos()
            } else {
                old(self).byte_pos() + 1
            },
    {
        if self.nbits > 0 {
            let l = self.data.len();
            assert(self.begin < l);
            self.nbits = 0;
            self.begin = self.begin + 1;
        }
    }

    /// The byte offset of the next unread byte.
    pub fn byte_position(&self) -> (r: usize)
        ensures
            r == self.byte_pos(),
    {
        self.begin
    }

    /// Whether any unread byte is left.
    pub fn has_data_left(&self) -> (r: bool)
        requires
            self.wf(),
        ensures
            r == (self.byte_pos() < self.input().len()),
    {
        self.begin < self.data.len()
    }

    /// Align, then read exactly `n` bytes.
    pub fn read_exact(&mut self, n: usize) -> (r: Result<Vec<u8>, Error>)
        requires
            old(self).wf(),
        ensures
            final(self).wf(),
            final(self).input() == old(self).input(),
            final(self).aligned(),
            ({
                let start = if old(self).aligned() {
                    old(self).byte_pos()
                } else {
                    old(self).byte_pos() + 1
                };
                if start + n <= old(self).input().len() {
                    &&& final(self).byte_pos() == start + n
                    &&& r is Ok
                    &&& r->Ok_0@ == old(self).input().subrange(start, start + n)
                } else {
                    &&& r == Err::<Vec<u8>, Error>(Error::UnexpectedEof)
                    &&& final(self).byte_pos() == start
                }
            }),
    {
        self.byte_align();
        if n > self.data.len() - self.begin {
            return Err(Error::UnexpectedEof);
        }
        let mut out: Vec<u8> = Vec::new();
        let start = self.begin;
        let l = self.data.len();
        let mut i: usize = 0;
        while i < n
            invariant
                self.wf(),
                start == self.begin,
                self.nbits == 0,
                i <= n,
                start + n <= l == self.data@.len(),
                out@ == self.data@.subrange(start as int, start + i),
            decreases n - i,
        {
            out.push(self.data[start + i]);
            i = i + 1;
            proof {
                assert(out@ == self.data@.subrange(start as int, start + i));
            }
        }
        self.begin = start + n;
        Ok(out)
    }

    /// Align, then append to `buf` every byte up to and including the first
    /// occurrence of `byte`, or all remaining bytes if it never occurs.
    /// Returns how many bytes were appended.
    pub fn read_until(&mut self, byte: u8, buf: &mut Vec<u8>) -> (r: usize)
        requires
            old(self).wf(),
        ensures
            final(self).wf(),
            final(self).input() == old(self).input(),
            final(self).aligned(),
            ({
                let start = if old(self).aligned() {
                    old(self).byte_pos()
                } else {
                    old(self).byte_pos() + 1
                };
                let f = find_from(old(self).input(), start, byte);
                let end = if f < old(self).input().len() {
                    f + 1
                } else {
                    old(self).input().len() as int
                };
                &&& final(self).byte_pos() == end
                &&& final(buf)@ == old(buf)@ + old(self).input().subrange(start, end)
                &&& r == end - start
            }),
    {
        self.byte_align();
        let start = self.begin;
        let ghost data = self.data@;
        let mut i: usize = start;
        while i < self.data.len() && self.data[i] != byte
            invariant
                self.wf(),
                self.data@ == data,
                start <= i <= data.len(),
                find_from(data, start as int, byte) == find_from(data, i as int, byte),
            decreases data.len() - i,
        {
            i = i + 1;
        }
        let end = if i < self.data.len() {
            i + 1
        } else {
            i
        };
        let mut j: usize = start;
        while j < end
            invariant
                self.wf(),
                self.data@ == data,
                start <= j <= end <= data.len(),
                buf@ == old(buf)@ + data.subrange(start as int, j as int),
            decreases end - j,
        {
            buf.push(self.data[j]);
            j = j + 1;
            proof {
                assert(buf@ == old(buf)@ + data.subrange(start as int, j as int));
            }
        }
        self.begin = end;
        end - start
    }
}

} // verus!
