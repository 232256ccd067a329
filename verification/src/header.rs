use vstd::prelude::*;
use crate::bitread::{find_from, BitReader};
use crate::error::Error;

verus! {

broadcast use BitReader::lemma_pos_bounds;

/// The first gzip member byte.
pub const ID1: u8 = 0x1f;

/// The second gzip member byte.
pub const ID2: u8 = 0x8b;

/// The only compression method gzip carries: DEFLATE.
pub const DEFLATE_METHOD: u8 = 8;

/// Flag bit: a CRC16 of the header follows the fixed fields.
pub const FHCRC: u8 = 2;

/// Flag bit: a length-prefixed extra field follows the fixed fields.
pub const FEXTRA: u8 = 4;

/// Flag bit: a NUL-terminated file name follows.
pub const FNAME: u8 = 8;

/// Flag bit: a NUL-terminated comment follows.
pub const FCOMMENT: u8 = 16;

/// The little-endian 16-bit value formed by the two bytes of `data` at `i`.
pub open spec fn le16_at(data: Seq<u8>, i: int) -> u16
    recommends
        0 <= i,
        i + 2 <= data.len(),
{
    (data[i] as u16) | ((data[i + 1] as u16) << 8u16)
}

/// The position just past a NUL-terminated field starting at `p`: past the
/// first NUL at or after `p`, or the end of the data if there is none.
pub open spec fn nul_end(data: Seq<u8>, p: int) -> int {
    let f = find_from(data, p, 0);
    if f < data.len() {
        f + 1
    } else {
        data.len() as int
    }
}

/// Where the optional extra field of a header at `start` ends.
pub open spec fn after_extra(data: Seq<u8>, start: int) -> int {
    if data[start + 3] & FEXTRA != 0 {
        start + 12 + le16_at(data, start + 10)
    } else {
        start + 10
    }
}

/// Where the optional file name of a header at `start` ends.
pub open spec fn after_name(data: Seq<u8>, start: int) -> int {
    if data[start + 3] & FNAME != 0 {
        nul_end(data, after_extra(data, start))
    } else {
        after_extra(data, start)
    }
}

/// Where the optional comment of a header at `start` ends.
pub open spec fn after_comment(data: Seq<u8>, start: int) -> int {
    if data[start + 3] & FCOMMENT != 0 {
        nul_end(data, after_name(data, start))
    } else {
        after_name(data, start)
    }
}

/// The ten fixed bytes at `start` open a well-formed gzip member: the two
/// magic bytes, the DEFLATE method, and no reserved flag bits.
pub open spec fn valid_fixed_header(data: Seq<u8>, start: int) -> bool {
    &&& data[start] == ID1
    &&& data[start + 1] == ID2
    &&& data[start + 2] == DEFLATE_METHOD
    &&& data[start + 3] & 0xE0u8 == 0
}

/// The optional-field offsets only grow and stay inside the data.
pub proof fn lemma_header_offsets(data: Seq<u8>, start: int)
    requires
        0 <= start,
        start + 10 <= data.len(),
        data[start + 3] & FEXTRA != 0 ==> start + 12 + le16_at(data, start + 10) <= data.len(),
    ensures
        start + 10 <= after_extra(data, start) <= data.len(),
        after_extra(data, start) <= after_name(data, start) <= data.len(),
        after_name(data, start) <= after_comment(data, start) <= data.len(),
{
    crate::bitread::lemma_find_from_range(data, after_extra(data, start), 0);
    crate::bitread::lemma_find_from_range(data, after_name(data, start), 0);
}

/// A parsed gzip member header: the ten fixed bytes, the optional fields
/// the flag byte announces, and the total size of the header in bytes.
pub struct Header {
    pub header: Vec<u8>,
    pub extra_field: Option<Vec<u8>>,
    pub name: Option<Vec<u8>>,
    pub comment: Option<Vec<u8>>,
    pub crc16: Option<u16>,
    pub size: usize,
}

impl Header {
    /// Read a member header at the next byte boundary, with whichever
    /// optional fields its flag byte announces.
    #[verifier::rlimit(80)]
    pub fn read(reader: &mut BitReader) -> (r: Result<Self, Error>)
        requires
            old(reader).wf(),
        ensures
            final(reader).wf(),
            final(reader).input() == old(reader).input(),
            final(reader).bit_pos() >= old(reader).bit_pos(),
            ({
                let data = old(reader).input();
                let start = if old(reader).aligned() {
                    old(reader).byte_pos()
                } else {
                    old(reader).byte_pos() + 1
                };
                &&& (start + 10 > data.len() ==> r == Err::<Header, Error>(Error::UnexpectedEof))
                &&& (start + 10 <= data.len() && !valid_fixed_header(data, start) ==> r == Err::<
                    Header,
                    Error,
                >(Error::InvalidGzHeader))
                &&& (start + 10 <= data.len() && valid_fixed_header(data, start) && (data[start
                    + 3] & FEXTRA != 0 ==> start + 12 + le16_at(data, start + 10) <= data.len())
                    && (data[start + 3] & FHCRC != 0 ==> after_comment(data, start) + 2
                    <= data.len()) ==> r is Ok)
                &&& (start + 10 <= data.len() && valid_fixed_header(data, start) && !((data[start
                    + 3] & FEXTRA != 0 ==> start + 12 + le16_at(data, start + 10) <= data.len())
                    && (data[start + 3] & FHCRC != 0 ==> after_comment(data, start) + 2
                    <= data.len())) ==> r == Err::<Header, Error>(Error::UnexpectedEof))
                &&& (r is Ok ==> {
                    let h = r->Ok_0;
                    let flg = data[start + 3];
                    &&& start + 10 <= data.len()
                    &&& valid_fixed_header(data, start)
                    &&& h.header@ == data.subrange(start, start + 10)
                    &&& (h.extra_field is Some <==> flg & FEXTRA != 0)
                    &&& (h.name is Some <==> flg & FNAME != 0)
                    &&& (h.comment is Some <==> flg & FCOMMENT != 0)
                    &&& (h.crc16 is Some <==> flg & FHCRC != 0)
                    &&& (flg & FEXTRA != 0 ==> start + 12 + le16_at(data, start + 10)
                        <= data.len() && h.extra_field->Some_0@ == data.subrange(
                        start + 12,
                        after_extra(data, start),
                    ))
                    &&& (flg & FNAME != 0 ==> h.name->Some_0@ == data.subrange(
                        after_extra(data, start),
                        after_name(data, start),
                    ))
                    &&& (flg & FCOMMENT != 0 ==> h.comment->Some_0@ == data.subrange(
                        after_name(data, start),
                        after_comment(data, start),
                    ))
                    &&& (flg & FHCRC != 0 ==> after_comment(data, start) + 2 <= data.len()
                        && h.crc16->Some_0 == le16_at(data, after_comment(data, start)))
                    &&& final(reader).aligned()
                    &&& final(reader).byte_pos() == after_comment(data, start) + if flg & FHCRC
                        != 0 {
                        2int
                    } else {
                        0int
                    }
                    &&& final(reader).byte_pos() == start + h.size
                    &&& h.size >= 10
                })
            }),
    {
        let ghost data = reader.input();
        let buf = match reader.read_exact(10) {
            Ok(b) => b,
            Err(e) => {
                return Err(e);
            },
        };
        let ghost start = reader.byte_pos() - 10;
        proof {
            assert(buf@.len() == 10);
        }
        if buf[0] != ID1 || buf[1] != ID2 || buf[2] != DEFLATE_METHOD || buf[3] & 0xE0 != 0 {
            return Err(Error::InvalidGzHeader);
        }
        let flg = buf[3];
        let p0 = reader.byte_position();
        let mut extra_field: Option<Vec<u8>> = None;
        let mut name: Option<Vec<u8>> = None;
        let mut comment: Option<Vec<u8>> = None;
        let mut crc16: Option<u16> = None;

        if flg & FEXTRA != 0 {
            let lenbuf = match reader.read_exact(2) {
                Ok(b) => b,
                Err(e) => {
                    return Err(e);
                },
            };
            let n = (lenbuf[0] as u16) | ((lenbuf[1] as u16) << 8u16);
            let field = match reader.read_exact(n as usize) {
                Ok(b) => b,
                Err(e) => {
                    return Err(e);
                },
            };
            extra_field = Some(field);
        }
        if flg & FNAME != 0 {
            let mut buf: Vec<u8> = Vec::new();
            let _n = reader.read_until(0, &mut buf);
            name = Some(buf);
        }
        if flg & FCOMMENT != 0 {
            let mut buf: Vec<u8> = Vec::new();
            let _n = reader.read_until(0, &mut buf);
            comment = Some(buf);
        }
        if flg & FHCRC != 0 {
            let crcbuf = match reader.read_exact(2) {
                Ok(b) => b,
                Err(e) => {
                    return Err(e);
                },
            };
            crc16 = Some((crcbuf[0] as u16) | ((crcbuf[1] as u16) << 8u16));
        }

        let size = 10 + (reader.byte_position() - p0);
        Ok(Header { header: buf, extra_field, name, comment, crc16, size })
    }
}

} // verus!
