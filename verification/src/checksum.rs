use vstd::prelude::*;

verus! {

/// The CRC32 (IEEE) checksum of a byte sequence, as the gzip trailer stores it.
pub uninterp spec fn crc32_of(bytes: Seq<u8>) -> u32;

/// Relies on crc32fast::Hasher::new and Hasher::finalize: a fresh hasher
/// holds the CRC32 of the empty byte sequence, which is zero (`new` seeds
/// the state with 0 and `finalize` returns it unchanged).
#[verifier::external_body]
fn crc32_begin() -> (r: u32)
    ensures
        r == crc32_of(Seq::<u8>::empty()),
        r == 0,
{
    crc32fast::Hasher::new().finalize()
}

/// Relies on crc32fast::Hasher::new_with_initial, Hasher::update and
/// Hasher::finalize: a hasher seeded with the CRC32 of some bytes `a` and fed
/// `xs` finalizes to the CRC32 of `a` followed by `xs`.
#[verifier::external_body]
fn crc32_extend(crc: u32, xs: &[u8]) -> (r: u32)
    ensures
        forall|a: Seq<u8>| crc == crc32_of(a) ==> r == crc32_of(a + xs@),
{
    let mut hasher = crc32fast::Hasher::new_with_initial(crc);
    hasher.update(xs);
    hasher.finalize()
}

/// A running CRC32 over the bytes fed so far, with a byte counter kept
/// modulo 2^32 for the trailer's ISIZE comparison.
pub struct Crc32Checksum {
    crc: u32,
    n: u64,
    bytes: Ghost<Seq<u8>>,
    m: Ghost<nat>,
}

impl Crc32Checksum {
    /// The bytes fed since the last `checksum` call.
    pub closed spec fn bytes(self) -> Seq<u8> {
        self.bytes@
    }

    /// The number of bytes counted since the last `reset_len` call.
    pub closed spec fn counted(self) -> nat {
        self.m@
    }

    pub closed spec fn wf(self) -> bool {
        &&& self.crc == crc32_of(self.bytes@)
        &&& self.n == self.m@ % 0x1_0000_0000
    }

    pub fn new() -> (r: Self)
        ensures
            r.wf(),
            r.bytes() == Seq::<u8>::empty(),
            r.counted() == 0,
            crc32_of(Seq::<u8>::empty()) == 0,
    {
        Crc32Checksum { crc: crc32_begin(), n: 0, bytes: Ghost(Seq::empty()), m: Ghost(0) }
    }

    /// Feed `xs` into the running checksum and the byte counter.
    pub fn update(&mut self, xs: &[u8])
        requires
            old(self).wf(),
        ensures
            final(self).wf(),
            final(self).bytes() == old(self).bytes() + xs@,
            final(self).counted() == old(self).counted() + xs@.len(),
    {
        self.crc = crc32_extend(self.crc, xs);
        let step: u64 = (xs.len() as u64) % 0x1_0000_0000;
        let n0 = self.n;
        self.n = (self.n + step) % 0x1_0000_0000;
        proof {
            let ghost m0 = self.m@;
            let ghost k = xs@.len();
            self.bytes@ = self.bytes@ + xs@;
            self.m@ = self.m@ + k;
            assert((n0 + (k as u64 % 0x1_0000_0000)) % 0x1_0000_0000 == (m0 + k) % 0x1_0000_0000)
                by (nonlinear_arith)
                requires
                    n0 == m0 % 0x1_0000_0000,
                    k <= u64::MAX,
            ;
        }
    }

    /// The checksum of the bytes fed so far; the running value starts over.
    pub fn checksum(&mut self) -> (r: u32)
        requires
            old(self).wf(),
        ensures
            final(self).wf(),
            r == crc32_of(old(self).bytes()),
            final(self).bytes() == Seq::<u8>::empty(),
            final(self).counted() == old(self).counted(),
    {
        let r = self.crc;
        self.crc = crc32_begin();
        proof {
            self.bytes@ = Seq::empty();
        }
        r
    }

    /// The number of bytes fed since the last reset, modulo 2^32.
    pub fn len(&self) -> (r: u64)
        requires
            self.wf(),
        ensures
            r == self.counted() % 0x1_0000_0000,
    {
        self.n
    }

    /// Start the byte counter over.
    pub fn reset_len(&mut self)
        requires
            old(self).wf(),
        ensures
            final(self).wf(),
            final(self).bytes() == old(self).bytes(),
            final(self).counted() == 0,
    {
        self.n = 0;
        proof {
            self.m@ = 0;
        }
    }
}

} // verus!
