use vstd::prelude::*;

verus! {

/// Why a decode failed.
#[derive(Clone, Copy, Debug, PartialEq, Eq, Structural)]
pub enum GzError {
    /// The input is shorter than a header and a footer.
    TooShort,
    /// The input does not start with the gzip magic bytes.
    BadMagic,
    /// The compression method is not deflate.
    UnsupportedMethod,
    /// The header ends early or one of its fields is malformed.
    BadHeader,
    /// A block has the reserved type.
    BadBlockType,
    /// The compressed data is malformed or ends early.
    MalformedStream,
    /// The checksum of the output does not match the footer.
    BadChecksum,
    /// The output buffer could not be allocated.
    OutOfMemory,
}

} // verus!
