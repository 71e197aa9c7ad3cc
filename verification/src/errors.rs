use vstd::prelude::*;

verus! {

/// The failure taxonomy of the library.
///
/// - `InvalidParameters`: degenerate filter parameters (an empty word list,
///   or a bit-array size that does not fit the machine).
/// - `FormatError`: a malformed serialized record or a file name without the
///   expected extension.
/// - `IoError`: an unreadable or unwritable file; raised only by the glue
///   layer around the library, never by the verified core.
/// - `EncodingError`: non-text bytes where text was expected; likewise only
///   raised by the glue layer.
#[derive(Clone, Copy, Debug, PartialEq, Eq, Structural)]
pub enum SpellError {
    InvalidParameters,
    FormatError,
    IoError,
    EncodingError,
}

} // verus!
