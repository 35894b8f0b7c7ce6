//! The envelope that every operator consumes and produces.
use vstd::prelude::*;

verus! {

/// Event time attached to a record or carried by a watermark.
pub type Timestamp = i64;

/// A record or a control marker travelling through the operator chain.
pub enum StreamElement<T> {
    /// A regular payload record.
    Item(T),
    /// A payload carrying an event-time timestamp.
    Timestamped(T, Timestamp),
    /// No later element on this channel has a timestamp at or below this one.
    Watermark(Timestamp),
    /// Asks the batchers downstream to flush; never ends a stream.
    FlushBatch,
    /// End of an epoch: stateful operators emit their state and reset.
    FlushAndRestart,
    /// The stream is over.
    Terminate,
}

/// Values that can travel in a stream and be copied exactly, so that one
/// element can be handed to several destinations.
pub trait Data: Sized {
    fn duplicate(&self) -> (r: Self)
        ensures
            r == *self,
    ;
}

impl Data for () {
    fn duplicate(&self) -> (r: Self) {
        ()
    }
}

impl Data for bool {
    fn duplicate(&self) -> (r: Self) {
        *self
    }
}

impl Data for u8 {
    fn duplicate(&self) -> (r: Self) {
        *self
    }
}

impl Data for i32 {
    fn duplicate(&self) -> (r: Self) {
        *self
    }
}

impl Data for u64 {
    fn duplicate(&self) -> (r: Self) {
        *self
    }
}

impl Data for i64 {
    fn duplicate(&self) -> (r: Self) {
        *self
    }
}

impl Data for i128 {
    fn duplicate(&self) -> (r: Self) {
        *self
    }
}

impl Data for usize {
    fn duplicate(&self) -> (r: Self) {
        *self
    }
}

impl Data for String {
    fn duplicate(&self) -> (r: Self) {
        self.clone()
    }
}

impl<A: Data> Data for Option<A> {
    fn duplicate(&self) -> (r: Self) {
        match self {
            Some(a) => Some(a.duplicate()),
            None => None,
        }
    }
}

impl<A: Data, B: Data> Data for (A, B) {
    fn duplicate(&self) -> (r: Self) {
        (self.0.duplicate(), self.1.duplicate())
    }
}

impl<T: Data> Data for StreamElement<T> {
    fn duplicate(&self) -> (r: Self) {
        match self {
            StreamElement::Item(x) => StreamElement::Item(x.duplicate()),
            StreamElement::Timestamped(x, ts) => StreamElement::Timestamped(x.duplicate(), *ts),
            StreamElement::Watermark(w) => StreamElement::Watermark(*w),
            StreamElement::FlushBatch => StreamElement::FlushBatch,
            StreamElement::FlushAndRestart => StreamElement::FlushAndRestart,
            StreamElement::Terminate => StreamElement::Terminate,
        }
    }
}

impl<T> StreamElement<T> {
    /// The same marker with the payload removed.
    pub open spec fn spec_take(&self) -> StreamElement<()> {
        match self {
            StreamElement::Item(_) => StreamElement::Item(()),
            StreamElement::Timestamped(_, ts) => StreamElement::Timestamped((), *ts),
            StreamElement::Watermark(w) => StreamElement::Watermark(*w),
            StreamElement::FlushBatch => StreamElement::FlushBatch,
            StreamElement::FlushAndRestart => StreamElement::FlushAndRestart,
            StreamElement::Terminate => StreamElement::Terminate,
        }
    }

    /// Strips the payload, keeping the variant and its timestamp.
    pub fn take(&self) -> (r: StreamElement<()>)
        ensures
            r == self.spec_take(),
    {
        match self {
            StreamElement::Item(_) => StreamElement::Item(()),
            StreamElement::Timestamped(_, ts) => StreamElement::Timestamped((), *ts),
            StreamElement::Watermark(w) => StreamElement::Watermark(*w),
            StreamElement::FlushBatch => StreamElement::FlushBatch,
            StreamElement::FlushAndRestart => StreamElement::FlushAndRestart,
            StreamElement::Terminate => StreamElement::Terminate,
        }
    }

    /// Whether the element carries a payload.
    pub open spec fn is_payload(&self) -> bool {
        self is Item || self is Timestamped
    }

    /// Whether the element asks the batchers to flush.
    pub open spec fn is_flushing(&self) -> bool {
        self is FlushBatch || self is FlushAndRestart || self is Terminate
    }
}

/// The stream never shows a timestamped record at or below a watermark that
/// came before it.
pub open spec fn watermark_ordered<T>(s: Seq<StreamElement<T>>) -> bool {
    forall|i: int, j: int|
        0 <= i < j < s.len() && (#[trigger] s[i]) is Watermark && (#[trigger] s[j]) is Timestamped
            ==> s[i]->Watermark_0 < s[j]->Timestamped_1
}


/// Dropping elements from an ordered stream keeps it ordered: whatever
/// part of a stream a channel carries, in the stream's order, respects the
/// watermarks as the stream did.
pub proof fn subsequence_keeps_watermark_order<T>(s: Seq<StreamElement<T>>, t: Seq<StreamElement<T>>, idx: Seq<int>)
    requires
        watermark_ordered(s),
        idx.len() == t.len(),
        forall|i: int| 0 <= i < idx.len() ==> 0 <= #[trigger] idx[i] < s.len() && t[i] == s[idx[i]],
        forall|i: int, j: int| 0 <= i < j < idx.len() ==> #[trigger] idx[i] < #[trigger] idx[j],
    ensures
        watermark_ordered(t),
{
    assert forall|i: int, j: int|
        0 <= i < j < t.len() && (#[trigger] t[i]) is Watermark && (#[trigger] t[j]) is Timestamped implies t[i]->Watermark_0
            < t[j]->Timestamped_1 by {
        assert(idx[i] < idx[j]);
        assert(s[idx[i]] is Watermark && s[idx[j]] is Timestamped);
    }
}

} // verus!
