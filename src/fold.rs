//! The fold kernel: a stateful operator that accumulates records and emits
//! the accumulator at the end of each epoch.
use vstd::prelude::*;
use crate::element::{Data, StreamElement, Timestamp};

verus! {

/// `f` accepts every pair of arguments.
pub open spec fn total<A, B, R, F: Fn(A, B) -> R>(f: F) -> bool {
    forall|a: A, b: B| #[trigger] call_requires(f, (a, b))
}

/// `f` gives one result for each pair of arguments.
pub open spec fn functional<A, B, R, F: Fn(A, B) -> R>(f: F) -> bool {
    forall|a: A, b: B, r1: R, r2: R|
        #[trigger] call_ensures(f, (a, b), r1) && #[trigger] call_ensures(f, (a, b), r2) ==> r1 == r2
}

/// The result of a combining step `f` on `(a, b)`.
pub open spec fn apply<A, B, R, F: Fn(A, B) -> R>(f: F, a: A, b: B) -> R {
    choose|r: R| call_ensures(f, (a, b), r)
}

/// Calls a combining step supplied by the user of a fold or a reduce.
pub fn call_fn<A, B, R, F: Fn(A, B) -> R>(f: &F, a: A, b: B) -> (r: R)
    requires
        total(*f),
        functional(*f),
    ensures
        r == apply(*f, a, b),
{
    let ghost (ga, gb) = (a, b);
    let r = f(a, b);
    proof {
        assert(call_requires(*f, (ga, gb)));
        assert(call_ensures(*f, (ga, gb), r));
        let c = apply(*f, ga, gb);
        assert(call_ensures(*f, (ga, gb), c));
    }
    r
}

/// The accumulator after folding `s` into `acc`, from the left.
pub open spec fn fold_seq<Acc, In, F: Fn(Acc, In) -> Acc>(f: F, acc: Acc, s: Seq<In>) -> Acc
    decreases s.len(),
{
    if s.len() == 0 {
        acc
    } else {
        apply(f, fold_seq(f, acc, s.drop_last()), s.last())
    }
}

/// The larger of an optional timestamp and a new one.
pub open spec fn max_ts(cur: Option<Timestamp>, ts: Timestamp) -> Option<Timestamp> {
    match cur {
        Some(c) => Some(if c >= ts { c } else { ts }),
        None => Some(ts),
    }
}

/// What a fold emits when an epoch ends: the accumulator, timestamped with
/// the largest timestamp seen if there was one, then the largest watermark.
pub open spec fn emission<Acc>(
    acc: Option<Acc>,
    ts: Option<Timestamp>,
    wm: Option<Timestamp>,
) -> Seq<StreamElement<Acc>> {
    (match acc {
        Some(a) => match ts {
            Some(t) => seq![StreamElement::Timestamped(a, t)],
            None => seq![StreamElement::Item(a)],
        },
        None => Seq::empty(),
    }) + (match wm {
        Some(w) => seq![StreamElement::Watermark(w)],
        None => Seq::empty(),
    })
}

fn max_opt(cur: Option<Timestamp>, ts: Timestamp) -> (r: Option<Timestamp>)
    ensures
        r == max_ts(cur, ts),
{
    match cur {
        Some(c) => Some(if c >= ts { c } else { ts }),
        None => Some(ts),
    }
}

/// The fold operator of one replica.
pub struct Fold<Acc, F> {
    fold: F,
    init: Acc,
    accumulator: Option<Acc>,
    timestamp: Option<Timestamp>,
    max_watermark: Option<Timestamp>,
    received_end: bool,
}

impl<Acc: Data, F> Fold<Acc, F> {
    pub closed spec fn spec_fold(&self) -> F {
        self.fold
    }

    pub closed spec fn spec_init(&self) -> Acc {
        self.init
    }

    /// The accumulator of the current epoch; `None` before its first record.
    pub closed spec fn spec_accumulator(&self) -> Option<Acc> {
        self.accumulator
    }

    /// The largest timestamp of the current epoch's records.
    pub closed spec fn spec_timestamp(&self) -> Option<Timestamp> {
        self.timestamp
    }

    /// The largest watermark of the current epoch.
    pub closed spec fn spec_max_watermark(&self) -> Option<Timestamp> {
        self.max_watermark
    }

    /// Whether `Terminate` has gone through.
    pub closed spec fn terminated(&self) -> bool {
        self.received_end
    }

    pub fn new(init: Acc, fold: F) -> (r: Fold<Acc, F>)
        ensures
            r.spec_fold() == fold,
            r.spec_init() == init,
            r.spec_accumulator() is None,
            r.spec_timestamp() is None,
            r.spec_max_watermark() is None,
            !r.terminated(),
    {
        Fold { fold, init, accumulator: None, timestamp: None, max_watermark: None, received_end: false }
    }

    /// Takes one element from upstream and returns what the fold emits in
    /// response: nothing for a record or a watermark, which only update the
    /// state, nor for `FlushBatch`; at `FlushAndRestart` or `Terminate`, the
    /// emission of the epoch followed by the marker itself, and a fresh state.
    pub fn next<In>(&mut self, element: StreamElement<In>) -> (r: Vec<StreamElement<Acc>>)
        where
            F: Fn(Acc, In) -> Acc,
        requires
            total(old(self).spec_fold()),
            functional(old(self).spec_fold()),
        ensures
            final(self).spec_fold() == old(self).spec_fold(),
            final(self).spec_init() == old(self).spec_init(),
            final(self).terminated() == (old(self).terminated() || element is Terminate),
            old(self).terminated() ==> {
                &&& r@ == seq![StreamElement::<Acc>::Terminate]
                &&& final(self).spec_accumulator() == old(self).spec_accumulator()
                &&& final(self).spec_timestamp() == old(self).spec_timestamp()
                &&& final(self).spec_max_watermark() == old(self).spec_max_watermark()
            },
            !old(self).terminated() ==> ({
                let f = old(self).spec_fold();
                let base = match old(self).spec_accumulator() {
                    Some(a) => a,
                    None => old(self).spec_init(),
                };
                match element {
                    StreamElement::Item(x) => {
                        &&& r@.len() == 0
                        &&& final(self).spec_accumulator() == Some(apply(f, base, x))
                        &&& final(self).spec_timestamp() == old(self).spec_timestamp()
                        &&& final(self).spec_max_watermark() == old(self).spec_max_watermark()
                    },
                    StreamElement::Timestamped(x, ts) => {
                        &&& r@.len() == 0
                        &&& final(self).spec_accumulator() == Some(apply(f, base, x))
                        &&& final(self).spec_timestamp() == max_ts(old(self).spec_timestamp(), ts)
                        &&& final(self).spec_max_watermark() == old(self).spec_max_watermark()
                    },
                    StreamElement::Watermark(w) => {
                        &&& r@.len() == 0
                        &&& final(self).spec_accumulator() == old(self).spec_accumulator()
                        &&& final(self).spec_timestamp() == old(self).spec_timestamp()
                        &&& final(self).spec_max_watermark() == max_ts(old(self).spec_max_watermark(), w)
                    },
                    StreamElement::FlushBatch => {
                        &&& r@.len() == 0
                        &&& final(self).spec_accumulator() == old(self).spec_accumulator()
                        &&& final(self).spec_timestamp() == old(self).spec_timestamp()
                        &&& final(self).spec_max_watermark() == old(self).spec_max_watermark()
                    },
                    StreamElement::FlushAndRestart => {
                        &&& r@ == emission(
                            old(self).spec_accumulator(),
                            old(self).spec_timestamp(),
                            old(self).spec_max_watermark(),
                        ).push(StreamElement::FlushAndRestart)
                        &&& final(self).spec_accumulator() is None
                        &&& final(self).spec_timestamp() is None
                        &&& final(self).spec_max_watermark() is None
                    },
                    StreamElement::Terminate => {
                        &&& r@ == emission(
                            old(self).spec_accumulator(),
                            old(self).spec_timestamp(),
                            old(self).spec_max_watermark(),
                        ).push(StreamElement::Terminate)
                        &&& final(self).spec_accumulator() is None
                        &&& final(self).spec_timestamp() is None
                        &&& final(self).spec_max_watermark() is None
                    },
                }
            }),
    {
        if self.received_end {
            let mut out: Vec<StreamElement<Acc>> = Vec::new();
            out.push(StreamElement::Terminate);
            proof {
                assert(out@ =~= seq![StreamElement::<Acc>::Terminate]);
            }
            return out;
        }
        match element {
            StreamElement::Item(x) => {
                let base = match self.accumulator.take() {
                    Some(a) => a,
                    None => self.init.duplicate(),
                };
                self.accumulator = Some(call_fn(&self.fold, base, x));
                Vec::new()
            },
            StreamElement::Timestamped(x, ts) => {
                self.timestamp = max_opt(self.timestamp, ts);
                let base = match self.accumulator.take() {
                    Some(a) => a,
                    None => self.init.duplicate(),
                };
                self.accumulator = Some(call_fn(&self.fold, base, x));
                Vec::new()
            },
            StreamElement::Watermark(w) => {
                self.max_watermark = max_opt(self.max_watermark, w);
                Vec::new()
            },
            StreamElement::FlushBatch => Vec::new(),
            StreamElement::FlushAndRestart => {
                let mut out = self.emit();
                out.push(StreamElement::FlushAndRestart);
                out
            },
            StreamElement::Terminate => {
                self.received_end = true;
                let mut out = self.emit();
                out.push(StreamElement::Terminate);
                out
            },
        }
    }

    /// Emits the state of the epoch and resets it.
    fn emit(&mut self) -> (r: Vec<StreamElement<Acc>>)
        ensures
            r@ == emission(
                old(self).spec_accumulator(),
                old(self).spec_timestamp(),
                old(self).spec_max_watermark(),
            ),
            final(self).spec_accumulator() is None,
            final(self).spec_timestamp() is None,
            final(self).spec_max_watermark() is None,
            final(self).fold == old(self).fold,
            final(self).init == old(self).init,
            final(self).received_end == old(self).received_end,
    {
        let mut out: Vec<StreamElement<Acc>> = Vec::new();
        let ts = self.timestamp.take();
        if let Some(acc) = self.accumulator.take() {
            match ts {
                Some(t) => out.push(StreamElement::Timestamped(acc, t)),
                None => out.push(StreamElement::Item(acc)),
            }
        }
        if let Some(w) = self.max_watermark.take() {
            out.push(StreamElement::Watermark(w));
        }
        proof {
            assert(out@ =~= emission(
                old(self).spec_accumulator(),
                old(self).spec_timestamp(),
                old(self).spec_max_watermark(),
            ));
        }
        out
    }

    /// A copy of the operator and its state.
    pub fn duplicate(&self) -> (r: Fold<Acc, F>)
        where
            F: Copy,
        ensures
            r.spec_fold() == self.spec_fold(),
            r.spec_init() == self.spec_init(),
            r.spec_accumulator() == self.spec_accumulator(),
            r.spec_timestamp() == self.spec_timestamp(),
            r.spec_max_watermark() == self.spec_max_watermark(),
            r.terminated() == self.terminated(),
    {
        Fold {
            fold: self.fold,
            init: self.init.duplicate(),
            accumulator: self.accumulator.duplicate(),
            timestamp: self.timestamp,
            max_watermark: self.max_watermark,
            received_end: self.received_end,
        }
    }

    /// Describes the chain that ends here, given the description of the
    /// operators before it.
    /// `input` and `output` name the types of the records that come in and of
    /// the accumulator; the result is `prev -> Fold<input -> output>`.
    pub fn to_string(&self, prev: &str, input: &str, output: &str) -> (r: String)
        ensures
            r@ == prev@ + " -> Fold<"@ + input@ + " -> "@ + output@ + ">"@,
    {
        let mut r = String::from_str(prev);
        r.append(" -> Fold<");
        r.append(input);
        r.append(" -> ");
        r.append(output);
        r.append(">");
        proof {
            assert(r@ =~= prev@ + " -> Fold<"@ + input@ + " -> "@ + output@ + ">"@);
        }
        r
    }
}


/// `out` and `after` are what a `FlushAndRestart` makes of the state `before`.
pub open spec fn restarted<Acc: Data, F>(before: Fold<Acc, F>, after: Fold<Acc, F>, out: Seq<StreamElement<Acc>>) -> bool {
    &&& out == emission(
        before.spec_accumulator(),
        before.spec_timestamp(),
        before.spec_max_watermark(),
    ).push(StreamElement::FlushAndRestart)
    &&& after.spec_accumulator() is None
    &&& after.spec_timestamp() is None
    &&& after.spec_max_watermark() is None
}

/// Number of payload elements in a sequence.
pub open spec fn count_payloads<T>(s: Seq<StreamElement<T>>) -> nat
    decreases s.len(),
{
    if s.len() == 0 {
        0
    } else {
        count_payloads(s.drop_last()) + if s.last().is_payload() {
            1nat
        } else {
            0nat
        }
    }
}

/// Two restarts in a row with nothing in between emit the accumulator at
/// most once: the second emits the marker alone.
pub proof fn restart_twice_emits_once<Acc: Data, F>(
    s0: Fold<Acc, F>,
    s1: Fold<Acc, F>,
    s2: Fold<Acc, F>,
    r1: Seq<StreamElement<Acc>>,
    r2: Seq<StreamElement<Acc>>,
)
    requires
        restarted(s0, s1, r1),
        restarted(s1, s2, r2),
    ensures
        r2 == seq![StreamElement::<Acc>::FlushAndRestart],
        count_payloads(r1 + r2) <= 1,
{
    assert(r2 =~= seq![StreamElement::<Acc>::FlushAndRestart]);
    let e = emission(s0.spec_accumulator(), s0.spec_timestamp(), s0.spec_max_watermark());
    let all = r1 + r2;
    assert(all.drop_last() =~= r1);
    assert(r1.drop_last() =~= e);
    assert(all.last() == StreamElement::<Acc>::FlushAndRestart);
    assert(r1.last() == StreamElement::<Acc>::FlushAndRestart);
    assert(count_payloads(all) == count_payloads(r1));
    assert(count_payloads(r1) == count_payloads(e));
    if e.len() == 2 {
        let e1 = e.drop_last();
        assert(e1.len() == 1);
        assert(e1.drop_last() =~= Seq::<StreamElement<Acc>>::empty());
        assert(count_payloads(e1.drop_last()) == 0);
        assert(!e.last().is_payload());
        assert(count_payloads(e) == count_payloads(e1));
        assert(count_payloads(e1) <= 1);
    } else if e.len() == 1 {
        assert(e.drop_last() =~= Seq::<StreamElement<Acc>>::empty());
        assert(count_payloads(e) <= 1);
    } else {
        assert(e.len() == 0);
    }
}

} // verus!
