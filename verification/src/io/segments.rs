//! Sources of the segments of a file.

use std::sync::Arc;
use vstd::prelude::*;

use crate::io::assembly::ReadError;

verus! {

/// What became of an attempt to read without waiting.
#[derive(Debug, PartialEq, Eq)]
pub enum ReadAtNowait<R> {
    /// The bytes were there.
    Ready(R),
    /// They were not.
    WouldBlock,
    /// The source cannot tell.
    Unsupported,
}

/// A source of segments, each known by its number. A request is answered with a reply `Reply`,
/// which the bytes of the segment come from in time.
pub trait SegmentSource {
    /// What a request is answered with.
    type Reply;

    /// Whether a reply answers a request for a segment.
    spec fn answers(&self, id: u64, reply: Self::Reply) -> bool;

    /// Request a segment.
    fn request(&self, id: u64) -> (reply: Self::Reply)
        ensures
            self.answers(id, reply),
    ;

    /// The identity that correlates what is recorded by wrappers around this source. A source has
    /// none unless it gives one.
    fn diagnostic_instance_id(&self) -> (id: Option<u64>)
        default_ensures
            id is None,
    {
        None
    }

    /// Register a segment for reading in the background.
    ///
    /// Sources with their own queue of requests may make this eligible before the reply is asked
    /// for. Other sources read on demand.
    fn request_background(&self, id: u64) -> (reply: Self::Reply)
        ensures
            self.answers(id, reply),
        default_ensures
            call_ensures(Self::request, (self, id), reply),
    {
        self.request(id)
    }

    /// Register a batch of segments for reading in the background. The replies correspond
    /// positionally to the segments.
    fn request_background_batch(&self, ids: &[u64]) -> (replies: Vec<Self::Reply>)
        ensures
            replies@.len() == ids@.len(),
            forall|i: int|
                0 <= i < ids@.len() ==> self.answers(ids@[i], #[trigger] replies@[i]),
        default_ensures
            forall|i: int|
                0 <= i < ids@.len() ==> call_ensures(
                    Self::request_background,
                    (self, ids@[i]),
                    #[trigger] replies@[i],
                ),
    {
        let mut replies: Vec<Self::Reply> = Vec::new();
        let mut i: usize = 0;
        while i < ids.len()
            invariant
                i <= ids@.len(),
                replies@.len() == i,
                forall|j: int| 0 <= j < i ==> self.answers(ids@[j], #[trigger] replies@[j]),
                forall|j: int|
                    0 <= j < i ==> call_ensures(
                        Self::request_background,
                        (self, ids@[j]),
                        #[trigger] replies@[j],
                    ),
            decreases ids@.len() - i,
        {
            replies.push(self.request_background(ids[i]));
            i = i + 1;
        }
        replies
    }

    /// Attempt to resolve a segment without waiting. Sources that cannot guarantee that say so.
    fn request_nowait(&self, id: u64) -> (reply: Result<ReadAtNowait<Self::Reply>, ReadError>)
        ensures
            reply matches Ok(ReadAtNowait::Ready(reply)) ==> self.answers(id, reply),
        default_ensures
            reply matches Ok(ReadAtNowait::Unsupported),
    {
        Ok(ReadAtNowait::Unsupported)
    }

    /// Whether planned reads should be submitted to the background at once. Sources in memory are
    /// resolved inline instead.
    fn prefers_background_reads(&self) -> (background: bool)
        default_ensures
            !background,
    {
        false
    }
}

/// A shared source is the source: whatever it is asked, it answers what the source answers.
impl<S: SegmentSource> SegmentSource for Arc<S> {
    type Reply = S::Reply;

    open spec fn answers(&self, id: u64, reply: S::Reply) -> bool {
        (**self).answers(id, reply)
    }

    fn request(&self, id: u64) -> (reply: S::Reply)
        ensures
            call_ensures(S::request, (&**self, id), reply),
    {
        (**self).request(id)
    }

    fn diagnostic_instance_id(&self) -> (id: Option<u64>)
        ensures
            call_ensures(S::diagnostic_instance_id, (&**self,), id),
    {
        (**self).diagnostic_instance_id()
    }

    fn request_background(&self, id: u64) -> (reply: S::Reply)
        ensures
            call_ensures(S::request_background, (&**self, id), reply),
    {
        (**self).request_background(id)
    }

    fn request_background_batch(&self, ids: &[u64]) -> (replies: Vec<S::Reply>)
        ensures
            call_ensures(S::request_background_batch, (&**self, ids), replies),
    {
        (**self).request_background_batch(ids)
    }

    fn request_nowait(&self, id: u64) -> (reply: Result<ReadAtNowait<S::Reply>, ReadError>)
        ensures
            call_ensures(S::request_nowait, (&**self, id), reply),
    {
        (**self).request_nowait(id)
    }

    fn prefers_background_reads(&self) -> (background: bool)
        ensures
            call_ensures(S::prefers_background_reads, (&**self,), background),
    {
        (**self).prefers_background_reads()
    }
}

} // verus!
