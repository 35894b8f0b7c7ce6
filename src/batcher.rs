//! Send-side buffering between two replicas.
use vstd::prelude::*;
use crate::element::StreamElement;

verus! {

/// How a sender groups elements before handing them to the channel.
#[derive(Clone, Copy, Debug, PartialEq, Eq, Structural)]
pub enum BatchMode {
    /// Send when the batch holds this many elements.
    Fixed(usize),
    /// Send when the batch holds this many elements, or when this many
    /// milliseconds have passed since the last send.
    Adaptive(usize, u64),
    /// Send every element on its own.
    Single,
}

impl BatchMode {
    /// Number of elements that makes a batch full.
    pub open spec fn spec_capacity(self) -> nat {
        match self {
            BatchMode::Fixed(n) => n as nat,
            BatchMode::Adaptive(n, _) => n as nat,
            BatchMode::Single => 1,
        }
    }

    /// A batch size of zero is meaningless.
    pub open spec fn valid(self) -> bool {
        self.spec_capacity() >= 1
    }

    pub fn fixed(n: usize) -> (r: BatchMode)
        requires
            n >= 1,
        ensures
            r == BatchMode::Fixed(n),
            r.valid(),
    {
        BatchMode::Fixed(n)
    }

    pub fn adaptive(n: usize, max_delay_ms: u64) -> (r: BatchMode)
        requires
            n >= 1,
        ensures
            r == BatchMode::Adaptive(n, max_delay_ms),
            r.valid(),
    {
        BatchMode::Adaptive(n, max_delay_ms)
    }

    pub fn single() -> (r: BatchMode)
        ensures
            r == BatchMode::Single,
            r.valid(),
    {
        BatchMode::Single
    }

    fn capacity(&self) -> (r: usize)
        ensures
            r as nat == self.spec_capacity(),
    {
        match self {
            BatchMode::Fixed(n) => *n,
            BatchMode::Adaptive(n, _) => *n,
            BatchMode::Single => 1,
        }
    }
}

/// Whether a sender whose last send was at `last_send` must send at `now`
/// because its deadline has passed.
pub open spec fn deadline_passed(mode: BatchMode, last_send: u64, now: u64) -> bool {
    match mode {
        BatchMode::Adaptive(_, delay) => now >= last_send && now - last_send > delay,
        _ => false,
    }
}

/// What a batcher hands to its channel at one step: a batch, or nothing.
pub open spec fn sent<T>(b: Option<Vec<StreamElement<T>>>) -> Seq<StreamElement<T>> {
    match b {
        Some(v) => v@,
        None => Seq::empty(),
    }
}

/// The buffer in front of one outgoing channel.
pub struct Batcher<T> {
    mode: BatchMode,
    buffer: Vec<StreamElement<T>>,
    last_send: u64,
}

impl<T> Batcher<T> {
    pub closed spec fn spec_mode(&self) -> BatchMode {
        self.mode
    }

    /// Elements waiting to be sent, oldest first.
    pub closed spec fn pending(&self) -> Seq<StreamElement<T>> {
        self.buffer@
    }

    /// Time of the last send, in milliseconds.
    pub closed spec fn spec_last_send(&self) -> u64 {
        self.last_send
    }

    /// A batcher never holds a full batch.
    pub closed spec fn wf(&self) -> bool {
        self.mode.valid() && self.buffer@.len() < self.mode.spec_capacity()
    }

    pub fn new(mode: BatchMode, now: u64) -> (r: Batcher<T>)
        requires
            mode.valid(),
        ensures
            r.wf(),
            r.spec_mode() == mode,
            r.pending() == Seq::<StreamElement<T>>::empty(),
            r.spec_last_send() == now,
    {
        Batcher { mode, buffer: Vec::new(), last_send: now }
    }

    /// Buffers `message`; sends the buffer when it is full or when the
    /// deadline has passed at `now`.
    pub fn enqueue(&mut self, message: StreamElement<T>, now: u64) -> (batch: Option<Vec<StreamElement<T>>>)
        requires
            old(self).wf(),
        ensures
            final(self).wf(),
            final(self).spec_mode() == old(self).spec_mode(),
            old(self).pending().push(message) == sent(batch) + final(self).pending(),
            batch is Some <==> (
                old(self).pending().len() + 1 >= old(self).spec_mode().spec_capacity()
                || deadline_passed(old(self).spec_mode(), old(self).spec_last_send(), now)),
            batch is Some ==> final(self).pending().len() == 0,
            batch is Some ==> final(self).spec_last_send() == now,
            batch is None ==> final(self).spec_last_send() == old(self).spec_last_send(),
    {
        self.buffer.push(message);
        let full = self.buffer.len() >= self.mode.capacity();
        let late = match self.mode {
            BatchMode::Adaptive(_, delay) => now >= self.last_send && now - self.last_send > delay,
            _ => false,
        };
        if full || late {
            let mut batch = Vec::new();
            std::mem::swap(&mut batch, &mut self.buffer);
            self.last_send = now;
            proof {
                assert(sent(Some(batch)) + self.buffer@ =~= batch@);
            }
            Some(batch)
        } else {
            proof {
                assert(sent::<T>(None) + self.buffer@ =~= self.buffer@);
            }
            None
        }
    }

    /// Sends whatever is buffered.
    pub fn flush(&mut self, now: u64) -> (batch: Option<Vec<StreamElement<T>>>)
        requires
            old(self).wf(),
        ensures
            final(self).wf(),
            final(self).spec_mode() == old(self).spec_mode(),
            final(self).pending().len() == 0,
            sent(batch) == old(self).pending(),
            batch is Some <==> old(self).pending().len() > 0,
            final(self).spec_last_send() == if batch is Some { now } else { old(self).spec_last_send() },
    {
        if self.buffer.len() > 0 {
            let mut batch = Vec::new();
            std::mem::swap(&mut batch, &mut self.buffer);
            self.last_send = now;
            Some(batch)
        } else {
            None
        }
    }

    /// Sends whatever is buffered and closes the batcher.
    pub fn end(self) -> (batch: Option<Vec<StreamElement<T>>>)
        ensures
            sent(batch) == self.pending(),
            batch is Some <==> self.pending().len() > 0,
    {
        if self.buffer.len() > 0 {
            Some(self.buffer)
        } else {
            None
        }
    }
}

} // verus!
