use vstd::prelude::*;

verus! {

/// Why a read from a byte stream, a block source or a product receiver failed.
#[derive(Debug, Clone, Copy, PartialEq, Eq, Structural)]
pub enum StreamError {
    /// The source cannot deliver the requested number of bytes any more.
    EndOfStream,
    /// The underlying generator reported a failure.
    SourceFailed,
    /// The channel has no senders left.
    Disconnected,
    /// The channel holds no product right now.
    Empty,
    /// A buffer held fewer bytes than were asked of it.
    NotEnoughBytes,
}

} // verus!
