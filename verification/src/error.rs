use vstd::prelude::*;

verus! {

/// The error kinds a gzip stream can fail with.
#[derive(Clone, Copy, Debug, PartialEq, Eq, Structural)]
pub enum Error {
    /// The input ended where more bytes were needed.
    UnexpectedEof,
    /// Zero bytes were available at the start of the stream.
    EmptyInput,
    /// Bad magic bytes, compression method, or reserved flag bits.
    InvalidGzHeader,
    /// A block header carried the reserved block type.
    InvalidBlockType,
    /// A stored block whose LEN and NLEN fields do not complement.
    BlockType0LenMismatch,
    /// A code-length vector that is empty, too long, or holds a length over 15.
    InvalidCodeLengths,
    /// A bit pattern that maps to no code of the Huffman table.
    HuffmanDecoderCodeNotFound,
    /// A malformed dynamic code-book preamble.
    ReadDynamicCodebook,
    /// A back-reference that reaches before the decoded output.
    DistanceTooMuch,
    /// The trailer checksum does not match the decompressed bytes.
    ChecksumMismatch,
    /// The trailer size does not match the decompressed length.
    SizeMismatch,
}

} // verus!
