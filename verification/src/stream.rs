//! Sources of audio frames.

use vstd::prelude::*;

verus! {

/// A source of frames of `CH` channels at `SR` frames per second, pulled
/// from on demand.
///
/// Frames are handed over interleaved: the samples of one frame lie side by
/// side, one per channel.
pub trait Stream<T, const CH: usize, const SR: u32> {
    /// The source is in a state in which it can be pulled from.  A source
    /// that is always so need not say it.
    open spec fn wf(&self) -> bool {
        true
    }

    /// The source has `frames` frames to give.  A source that cannot tell
    /// need not say it.
    open spec fn supplies(&self, frames: nat) -> bool {
        false
    }

    /// Pulled from in this state, the source may hand over the samples
    /// `appended` and be left in the state `after`.  A source that does not
    /// model what it holds need not say it.
    open spec fn delivers(&self, after: &Self, appended: Seq<T>) -> bool {
        true
    }

    /// Appends the next frames of the stream to `buffer`, `frames` of them
    /// unless the stream runs short, and returns how many were appended.
    ///
    /// What the buffer held before stays as it was, and what was appended
    /// is what the source says it delivers.
    fn extend(&mut self, buffer: &mut Vec<T>, frames: usize) -> (pulled: usize)
        requires
            old(self).wf(),
        ensures
            final(self).wf(),
            pulled <= frames,
            old(self).supplies(frames as nat) ==> pulled == frames,
            final(buffer)@.len() == old(buffer)@.len() + pulled * CH,
            final(buffer)@.subrange(0, old(buffer)@.len() as int) == old(buffer)@,
            old(self).delivers(
                final(self),
                final(buffer)@.subrange(old(buffer)@.len() as int, final(buffer)@.len() as int),
            ),
    ;
}

} // verus!
