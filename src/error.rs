//! Errors of the decoder.
use vstd::prelude::*;

verus! {

/// The ways decoding an MDX/MDD file can fail.
#[derive(Debug, Clone, Copy, PartialEq, Eq, Structural)]
pub enum MdictError {
    /// The file path is missing or its extension is neither `mdx` nor `mdd`.
    InvalidPath,
    /// A read went past the end of the available bytes.
    TruncatedInput,
    /// The underlying read failed.
    IoError,
    /// The header is not well formed, or a required attribute is missing.
    MalformedHeader,
    /// The header asks for an encryption mode other than 0 or 2.
    UnsupportedEncryption,
    /// A block header names a compression kind other than 0, 1 or 2.
    UnknownCompression,
    /// A decompressor rejected a block, or a block is shorter than its header.
    CorruptBlock,
    /// The index sizes or counts disagree with their summaries.
    CorruptIndex,
    /// A keyword offset falls outside the record index.
    OutOfRange,
    /// Text is not valid in the file's encoding.
    DecodeError,
}

} // verus!
