use vstd::prelude::*;

use crate::error::Error;
use crate::frame::Frame;

verus! {

/// A synchronous duplex byte channel to the device, exchanged in whole
/// frames: one request written, then its response read, one outstanding
/// request at a time. The channel records, as ghost state, the frames sent
/// and received so far, so that callers can state which requests an
/// operation put on the wire and in which order.
///
/// The channel is an exclusive resource: interleaving frames of two clients
/// would corrupt the protocol state, so a caller holds the channel for the
/// whole of any multi-frame operation. A failed read or write is fatal for
/// the operation in progress and leaves the transcript as it was: nothing
/// half-sent is recorded.
pub trait Channel: Sized {
    /// The frames written to the device so far, oldest first. The default
    /// is a placeholder: an implementation verified against this trait's
    /// contracts supplies its own transcript.
    open spec fn sent(&self) -> Seq<Seq<u8>> {
        Seq::empty()
    }

    /// The frames read from the device so far, oldest first. The default
    /// is a placeholder, as for `sent`.
    open spec fn received(&self) -> Seq<Seq<u8>> {
        Seq::empty()
    }

    /// Writes one whole frame.
    fn write_frame(&mut self, frame: &Frame) -> (r: Result<(), Error>)
        requires
            frame.wf(),
        ensures
            r is Ok ==> final(self).sent() == old(self).sent().push(frame@)
                && final(self).received() == old(self).received(),
            r is Err ==> r == Err::<(), Error>(Error::IoError)
                && final(self).sent() == old(self).sent()
                && final(self).received() == old(self).received(),
    ;

    /// Reads one whole frame, blocking until it is complete.
    fn read_frame(&mut self) -> (r: Result<Frame, Error>)
        ensures
            r matches Ok(f) ==> f.wf() && final(self).received() == old(self).received().push(f@)
                && final(self).sent() == old(self).sent(),
            r is Err ==> r == Err::<Frame, Error>(Error::IoError)
                && final(self).sent() == old(self).sent()
                && final(self).received() == old(self).received(),
    ;
}

} // verus!
