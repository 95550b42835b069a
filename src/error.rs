use vstd::prelude::*;

verus! {

/// Why a decode operation stopped. Every error is terminal for the stream.
#[derive(Clone, Copy, Debug, PartialEq, Eq, Structural)]
pub enum Lzma2Error {
    /// A malformed control byte, a missing reset, or an invalid properties byte.
    InvalidInput,
    /// An internal range or bounds violation.
    InvalidData,
    /// A back-reference beyond the available history, or a chunk that ended
    /// while the entropy decoder or a deferred repeat was still unfinished.
    CorruptStream,
    /// The input ended inside a header, a size field or a chunk body.
    UnexpectedEof,
}

} // verus!
