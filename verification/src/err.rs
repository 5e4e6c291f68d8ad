//! Error kinds shared by every fallible operation of the library.

use vstd::prelude::*;

verus! {

/// Why an operation failed.  Every fallible function of the library reports
/// one of these kinds; all of them are fatal to the running command.
#[derive(Clone, Copy, Debug, PartialEq, Eq, Structural)]
pub enum GitError {
    /// Command-line arguments could not be understood.
    BadArgs,
    /// A filesystem operation failed.
    IoError,
    /// An object hash could not be resolved locally or in a pack map.
    NotFound,
    /// A loose object's framing could not be decoded.
    Malformed,
    /// A tree body could not be decoded.
    MalformedTree,
    /// A hex string had odd length or a non-hex digit.
    BadHex,
    /// An object kind was none of `blob`, `tree`, `commit`.
    BadKind,
    /// The HTTP transport failed.
    NetworkError,
    /// A pkt-line or packfile was structurally invalid.
    ProtocolError,
    /// A ref-delta named a base that did not precede it in the stream.
    MissingBase,
    /// An ofs-delta or an unknown pack object type was encountered.
    Unsupported,
    /// The remote advertised no `HEAD` ref.
    NoHead,
}

} // verus!
