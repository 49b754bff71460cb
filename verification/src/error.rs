use vstd::prelude::*;

verus! {

/// Failures of the protocol layer and the keymap codec.
///
/// - `IoError`: a channel read or write failed; fatal for the current
///   operation, never retried.
/// - `ProtocolSizeError`: a response frame had the wrong length or a chunk
///   length byte was inconsistent; indicates a desynchronized channel.
/// - `StructureError`: a keymap text document fails the fixed
///   layer/scancode-count invariant.
/// - `PayloadTooLarge`: a write chunk exceeds the frame's payload capacity.
#[derive(Clone, Copy, Debug, PartialEq, Eq, Structural)]
pub enum Error {
    IoError,
    ProtocolSizeError,
    StructureError,
    PayloadTooLarge,
}

impl Error {
    /// A short human-readable description of the failure.
    pub fn describe(&self) -> (r: &'static str)
        ensures
            r@.len() > 0,
    {
        proof {
            reveal_strlit("channel read or write failed");
            reveal_strlit("response frame size or chunk length inconsistent");
            reveal_strlit("keymap document structure invalid");
            reveal_strlit("write chunk exceeds frame payload capacity");
        }
        match self {
            Error::IoError => "channel read or write failed",
            Error::ProtocolSizeError => "response frame size or chunk length inconsistent",
            Error::StructureError => "keymap document structure invalid",
            Error::PayloadTooLarge => "write chunk exceeds frame payload capacity",
        }
    }
}

} // verus!
