use vstd::prelude::*;
use crate::bitread::{le32_at, BitReader};
use crate::error::Error;

verus! {

broadcast use BitReader::lemma_pos_bounds;

/// The eight-byte gzip trailer: the CRC32 of the member's uncompressed
/// bytes, then their count modulo 2^32, both little-endian.
pub struct Footer {
    pub crc32: u32,
    pub size: u32,
}

impl Footer {
    /// Read the trailer at the next byte boundary.
    pub fn read(reader: &mut BitReader) -> (r: Result<Self, Error>)
        requires
            old(reader).wf(),
        ensures
            final(reader).wf(),
            final(reader).input() == old(reader).input(),
            final(reader).bit_pos() >= old(reader).bit_pos(),
            final(reader).aligned(),
            ({
                let start = if old(reader).aligned() {
                    old(reader).byte_pos()
                } else {
                    old(reader).byte_pos() + 1
                };
                if start + 8 <= old(reader).input().len() {
                    &&& r is Ok
                    &&& r->Ok_0.crc32 == le32_at(old(reader).input(), start)
                    &&& r->Ok_0.size == le32_at(old(reader).input(), start + 4)
                    &&& final(reader).byte_pos() == start + 8
                    &&& final(reader).aligned()
                } else {
                    r == Err::<Footer, Error>(Error::UnexpectedEof)
                }
            }),
    {
        let buf = match reader.read_exact(8) {
            Ok(b) => b,
            Err(e) => {
                return Err(e);
            },
        };
        proof {
            assert(buf@.len() == 8);
        }
        let crc32 = (buf[0] as u32) | ((buf[1] as u32) << 8u32) | ((buf[2] as u32) << 16u32) | ((
        buf[3] as u32) << 24u32);
        let size = (buf[4] as u32) | ((buf[5] as u32) << 8u32) | ((buf[6] as u32) << 16u32) | ((
        buf[7] as u32) << 24u32);
        Ok(Footer { crc32, size })
    }
}

} // verus!
