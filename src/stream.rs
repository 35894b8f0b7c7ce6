//! A stream split over the replicas of a block, and the two-stage
//! aggregations on it: a local stage on every replica, a shuffle, and a
//! global stage on the replicas downstream.
use vstd::prelude::*;
use crate::element::{Data, StreamElement, Timestamp};
use crate::fold::{apply, fold_seq, functional, total, Fold};
use crate::keyed::{call_keyer, key_of, keyer_ok, keys_of, reduce_by_key, reduced, Key};

verus! {

/// The records that each replica of a block holds, replica by replica.
pub struct Stream<T> {
    pub replicas: Vec<Vec<T>>,
}

/// The records of each replica, as sequences.
pub open spec fn replica_view<T>(reps: Seq<Vec<T>>) -> Seq<Seq<T>> {
    reps.map_values(|v: Vec<T>| v@)
}

/// The local results of a fold: one per replica that holds any record, in
/// replica order.
pub open spec fn partials<Acc, In, F: Fn(Acc, In) -> Acc>(f: F, init: Acc, reps: Seq<Seq<In>>) -> Seq<Acc>
    decreases reps.len(),
{
    if reps.len() == 0 {
        Seq::empty()
    } else {
        partials(f, init, reps.drop_last()) + if reps.last().len() == 0 {
            Seq::empty()
        } else {
            seq![fold_seq(f, init, reps.last())]
        }
    }
}

/// What a two-stage fold yields: nothing on an empty stream, else the global
/// fold of the local results.
pub open spec fn fold_result<Acc, In, L: Fn(Acc, In) -> Acc, G: Fn(Acc, Acc) -> Acc>(
    init: Acc,
    local: L,
    global: G,
    reps: Seq<Seq<In>>,
) -> Seq<Acc> {
    let p = partials(local, init, reps);
    if p.len() == 0 {
        Seq::empty()
    } else {
        seq![fold_seq(global, init, p)]
    }
}

/// Runs the local stage of a fold on the records of one replica: each
/// record goes in as an `Item`, then `Terminate`; the emitted accumulator,
/// if any, is returned.
fn run_local<T: Data, Acc: Data, L: Fn(Acc, T) -> Acc>(init: &Acc, local: L, items: &Vec<T>) -> (r: Option<Acc>)
    requires
        total(local),
        functional(local),
    ensures
        r == if items@.len() == 0 {
            None
        } else {
            Some(fold_seq(local, *init, items@))
        },
{
    let ghost f = local;
    let mut op = Fold::new(init.duplicate(), local);
    let mut i: usize = 0;
    while i < items.len()
        invariant
            i <= items@.len(),
            f == local,
            total(local),
            functional(local),
            op.spec_fold() == f,
            op.spec_init() == *init,
            op.spec_accumulator() == if i == 0 {
                None
            } else {
                Some(fold_seq(f, *init, items@.take(i as int)))
            },
            op.spec_timestamp() is None,
            op.spec_max_watermark() is None,
            !op.terminated(),
        decreases items@.len() - i,
    {
        proof {
            assert(items@.take(i + 1).drop_last() =~= items@.take(i as int));
            assert(items@.take(i + 1).last() == items@[i as int]);
            assert(items@.take(0) =~= Seq::<T>::empty());
            assert(fold_seq(f, *init, items@.take(0)) == *init);
        }
        let _ = op.next(StreamElement::Item(items[i].duplicate()));
        i = i + 1;
    }
    proof {
        assert(items@.take(items@.len() as int) =~= items@);
    }
    let ghost acc = op.spec_accumulator();
    let mut out = op.next(StreamElement::<T>::Terminate);
    if out.len() > 1 {
        proof {
            assert(acc is Some);
        }
        match out.remove(0) {
            StreamElement::Item(a) => Some(a),
            _ => None,
        }
    } else {
        None
    }
}

impl<T: Data> Stream<T> {
    pub fn new(replicas: Vec<Vec<T>>) -> (r: Stream<T>)
        ensures
            r.replicas@ == replicas@,
    {
        Stream { replicas }
    }

    /// Folds the whole stream: `local` folds the records of each replica
    /// into an accumulator that starts at `init`; the local results are
    /// shuffled to a single replica, where `global` folds them, again from
    /// `init`. The result stream has that one replica, holding the global
    /// result, or nothing if no replica held any record.
    pub fn fold<Acc: Data, L: Fn(Acc, T) -> Acc + Copy, G: Fn(Acc, Acc) -> Acc>(self, init: Acc, local: L, global: G) -> (r: Stream<Acc>)
        requires
            total(local),
            functional(local),
            total(global),
            functional(global),
        ensures
            replica_view(r.replicas@) == seq![fold_result(init, local, global, replica_view(self.replicas@))],
    {
        let ghost reps = replica_view(self.replicas@);
        let ghost g = global;
        let mut op = Fold::new(init.duplicate(), global);
        let mut k: usize = 0;
        while k < self.replicas.len()
            invariant
                total(local),
                functional(local),
                total(global),
                functional(global),
                k <= self.replicas@.len(),
                reps == replica_view(self.replicas@),
                g == global,
                op.spec_fold() == g,
                op.spec_init() == init,
                op.spec_accumulator() == if partials(local, init, reps.take(k as int)).len() == 0 {
                    None
                } else {
                    Some(fold_seq(g, init, partials(local, init, reps.take(k as int))))
                },
                op.spec_timestamp() is None,
                op.spec_max_watermark() is None,
                !op.terminated(),
            decreases self.replicas@.len() - k,
        {
            let ghost before = partials(local, init, reps.take(k as int));
            proof {
                assert(reps.take(k + 1).drop_last() =~= reps.take(k as int));
                assert(reps.take(k + 1).last() == self.replicas@[k as int]@);
            }
            let part = run_local(&init, local, &self.replicas[k]);
            match part {
                Some(a) => {
                    let _ = op.next(StreamElement::Item(a));
                    proof {
                        let now = partials(local, init, reps.take(k + 1));
                        assert(now == before.push(a));
                        assert(now.drop_last() =~= before);
                        if before.len() == 0 {
                            assert(fold_seq(g, init, before) == init);
                        }
                    }
                },
                None => {
                    proof {
                        assert(partials(local, init, reps.take(k + 1)) =~= before);
                    }
                },
            }
            k = k + 1;
        }
        proof {
            assert(reps.take(self.replicas@.len() as int) =~= reps);
        }
        let ghost acc = op.spec_accumulator();
        let mut out = op.next(StreamElement::<Acc>::Terminate);
        let mut result: Vec<Acc> = Vec::new();
        if out.len() > 1 {
            match out.remove(0) {
                StreamElement::Item(a) => result.push(a),
                _ => {},
            }
        }
        let mut replicas: Vec<Vec<Acc>> = Vec::new();
        replicas.push(result);
        proof {
            assert(replica_view(replicas@) =~= seq![fold_result(init, local, global, reps)]);
        }
        Stream { replicas }
    }
}


/// A stream whose records carry an event time, replica by replica.
pub struct TimedStream<T> {
    pub replicas: Vec<Vec<(T, Timestamp)>>,
}

/// The records of each replica without their timestamps.
pub open spec fn timed_values<T>(reps: Seq<Vec<(T, Timestamp)>>) -> Seq<Seq<T>> {
    reps.map_values(|v: Vec<(T, Timestamp)>| v@.map_values(|p: (T, Timestamp)| p.0))
}

/// `t` is the largest timestamp of the records `s`, which are not all empty.
pub open spec fn is_max_ts<T>(s: Seq<(T, Timestamp)>, t: Timestamp) -> bool {
    &&& forall|k: int| 0 <= k < s.len() ==> t >= (#[trigger] s[k]).1
    &&& exists|k: int| 0 <= k < s.len() && t == (#[trigger] s[k]).1
}

/// Runs the local stage of a fold on timestamped records: the accumulator
/// comes out with the largest timestamp of the replica.
fn run_local_timed<T: Data, Acc: Data, L: Fn(Acc, T) -> Acc>(init: &Acc, local: L, items: &Vec<(T, Timestamp)>) -> (r: Option<(Acc, Timestamp)>)
    requires
        total(local),
        functional(local),
    ensures
        r is None <==> items@.len() == 0,
        r matches Some(p) ==> p.0 == fold_seq(local, *init, items@.map_values(|q: (T, Timestamp)| q.0)) && is_max_ts(items@, p.1),
{
    let ghost f = local;
    let ghost vals = items@.map_values(|q: (T, Timestamp)| q.0);
    let mut op = Fold::new(init.duplicate(), local);
    let mut i: usize = 0;
    while i < items.len()
        invariant
            i <= items@.len(),
            f == local,
            total(local),
            functional(local),
            vals == items@.map_values(|q: (T, Timestamp)| q.0),
            op.spec_fold() == f,
            op.spec_init() == *init,
            op.spec_accumulator() == if i == 0 {
                None
            } else {
                Some(fold_seq(f, *init, vals.take(i as int)))
            },
            op.spec_timestamp() is Some <==> i > 0,
            op.spec_timestamp() matches Some(m) ==> is_max_ts(items@.take(i as int), m),
            op.spec_max_watermark() is None,
            !op.terminated(),
        decreases items@.len() - i,
    {
        proof {
            assert(vals.take(i + 1).drop_last() =~= vals.take(i as int));
            assert(vals.take(i + 1).last() == vals[i as int]);
            assert(vals.take(0) =~= Seq::<T>::empty());
            assert(fold_seq(f, *init, vals.take(0)) == *init);
        }
        let ghost old_ts = op.spec_timestamp();
        let x = items[i].0.duplicate();
        let ts = items[i].1;
        let _ = op.next(StreamElement::Timestamped(x, ts));
        proof {
            let pre = items@.take(i as int);
            let now = items@.take(i + 1);
            assert(now[i as int] == items@[i as int]);
            assert forall|k: int| 0 <= k < i implies now[k] == pre[k] by {}
            let m = op.spec_timestamp()->0;
            assert(forall|k: int| 0 <= k < now.len() ==> m >= (#[trigger] now[k]).1);
            if m == ts {
                assert(now[i as int].1 == m);
            } else {
                let k0 = choose|k: int| 0 <= k < pre.len() && old_ts->0 == (#[trigger] pre[k]).1;
                assert(now[k0].1 == m);
            }
        }
        i = i + 1;
    }
    proof {
        assert(vals.take(items@.len() as int) =~= vals);
        assert(items@.take(items@.len() as int) =~= items@);
    }
    let mut out = op.next(StreamElement::<T>::Terminate);
    if out.len() > 1 {
        match out.remove(0) {
            StreamElement::Timestamped(a, t) => Some((a, t)),
            _ => None,
        }
    } else {
        None
    }
}

impl<T: Data> TimedStream<T> {
    pub fn new(replicas: Vec<Vec<(T, Timestamp)>>) -> (r: TimedStream<T>)
        ensures
            r.replicas@ == replicas@,
    {
        TimedStream { replicas }
    }

    /// Folds the whole stream as `Stream::fold` does; the result carries the
    /// largest timestamp of all the records.
    pub fn fold<Acc: Data, L: Fn(Acc, T) -> Acc + Copy, G: Fn(Acc, Acc) -> Acc>(self, init: Acc, local: L, global: G) -> (r: TimedStream<Acc>)
        requires
            total(local),
            functional(local),
            total(global),
            functional(global),
        ensures
            r.replicas@.len() == 1,
            r.replicas@[0]@.len() == fold_result(init, local, global, timed_values(self.replicas@)).len(),
            forall|i: int| 0 <= i < r.replicas@[0]@.len() ==> {
                &&& (#[trigger] r.replicas@[0]@[i]).0 == fold_result(init, local, global, timed_values(self.replicas@))[i]
                &&& (forall|d: int, k: int|
                    0 <= d < self.replicas@.len() && 0 <= k < self.replicas@[d]@.len() ==> r.replicas@[0]@[i].1
                        >= (#[trigger] self.replicas@[d]@[k]).1)
                &&& (exists|d: int, k: int|
                    0 <= d < self.replicas@.len() && 0 <= k < self.replicas@[d]@.len() && r.replicas@[0]@[i].1
                        == (#[trigger] self.replicas@[d]@[k]).1)
            },
    {
        let ghost reps = timed_values(self.replicas@);
        let ghost g = global;
        let mut op = Fold::new(init.duplicate(), global);
        let mut k: usize = 0;
        while k < self.replicas.len()
            invariant
                total(local),
                functional(local),
                total(global),
                functional(global),
                k <= self.replicas@.len(),
                reps == timed_values(self.replicas@),
                g == global,
                op.spec_fold() == g,
                op.spec_init() == init,
                op.spec_accumulator() == if partials(local, init, reps.take(k as int)).len() == 0 {
                    None
                } else {
                    Some(fold_seq(g, init, partials(local, init, reps.take(k as int))))
                },
                op.spec_timestamp() is Some <==> partials(local, init, reps.take(k as int)).len() > 0,
                op.spec_timestamp() matches Some(m) ==> {
                    &&& forall|d: int, q: int| 0 <= d < k && 0 <= q < self.replicas@[d]@.len() ==> m >= (#[trigger] self.replicas@[d]@[q]).1
                    &&& exists|d: int, q: int| 0 <= d < k && 0 <= q < self.replicas@[d]@.len() && m == (#[trigger] self.replicas@[d]@[q]).1
                },
                op.spec_timestamp() is None ==> forall|d: int| 0 <= d < k ==> (#[trigger] self.replicas@[d])@.len() == 0,
                op.spec_max_watermark() is None,
                !op.terminated(),
            decreases self.replicas@.len() - k,
        {
            let ghost before = partials(local, init, reps.take(k as int));
            let ghost old_ts = op.spec_timestamp();
            proof {
                assert(reps.take(k + 1).drop_last() =~= reps.take(k as int));
                assert(reps.take(k + 1).last() == reps[k as int]);
                assert(reps[k as int] == self.replicas@[k as int]@.map_values(|q: (T, Timestamp)| q.0));
            }
            let part = run_local_timed(&init, local, &self.replicas[k]);
            match part {
                Some(p) => {
                    let ghost a = p.0;
                    let ghost t = p.1;
                    let _ = op.next(StreamElement::Timestamped(p.0, p.1));
                    proof {
                        let now = partials(local, init, reps.take(k + 1));
                        assert(now == before.push(a));
                        assert(now.drop_last() =~= before);
                        if before.len() == 0 {
                            assert(fold_seq(g, init, before) == init);
                        }
                        let m = op.spec_timestamp()->0;
                        let row = self.replicas@[k as int]@;
                        assert forall|d: int, q: int| 0 <= d < k + 1 && 0 <= q < self.replicas@[d]@.len() implies m >= (#[trigger] self.replicas@[d]@[q]).1 by {
                            if d == k {
                                assert(row[q] == self.replicas@[d]@[q]);
                            } else if old_ts is None {
                                assert(self.replicas@[d]@.len() == 0);
                            }
                        }
                        if m == t {
                            let q0 = choose|q: int| 0 <= q < row.len() && t == (#[trigger] row[q]).1;
                            assert(self.replicas@[k as int]@[q0].1 == m);
                        } else {
                            let (d0, q0) = choose|d: int, q: int| 0 <= d < k && 0 <= q < self.replicas@[d]@.len() && old_ts->0 == (#[trigger] self.replicas@[d]@[q]).1;
                            assert(self.replicas@[d0]@[q0].1 == m);
                        }
                    }
                },
                None => {
                    proof {
                        assert(partials(local, init, reps.take(k + 1)) =~= before);
                        assert(reps[k as int].len() == 0);
                    }
                },
            }
            k = k + 1;
        }
        proof {
            assert(reps.take(self.replicas@.len() as int) =~= reps);
        }
        let ghost acc = op.spec_accumulator();
        let ghost ts = op.spec_timestamp();
        let mut out = op.next(StreamElement::<Acc>::Terminate);
        let mut result: Vec<(Acc, Timestamp)> = Vec::new();
        if out.len() > 1 {
            match out.remove(0) {
                StreamElement::Timestamped(a, t) => result.push((a, t)),
                _ => {},
            }
        }
        let mut replicas: Vec<Vec<(Acc, Timestamp)>> = Vec::new();
        replicas.push(result);
        TimedStream { replicas }
    }
}

/// All the records of the stream, replica after replica.
pub open spec fn concat_all<T>(reps: Seq<Seq<T>>) -> Seq<T>
    decreases reps.len(),
{
    if reps.len() == 0 {
        Seq::empty()
    } else {
        concat_all(reps.drop_last()) + reps.last()
    }
}

/// `global` is associative and commutative with `init` as its identity, and
/// a local step is a global combination with the fold of one record.
pub open spec fn two_stage_compatible<Acc, In, L: Fn(Acc, In) -> Acc, G: Fn(Acc, Acc) -> Acc>(
    init: Acc,
    local: L,
    global: G,
) -> bool {
    &&& forall|a: Acc, b: Acc, c: Acc|
        #[trigger] apply(global, apply(global, a, b), c) == apply(global, a, apply(global, b, c))
    &&& forall|a: Acc, b: Acc| #[trigger] apply(global, a, b) == apply(global, b, a)
    &&& forall|a: Acc| #[trigger] apply(global, init, a) == a
    &&& forall|a: Acc, x: In| #[trigger] apply(local, a, x) == apply(global, a, apply(local, init, x))
}

proof fn lemma_local_shift<Acc, In, L: Fn(Acc, In) -> Acc, G: Fn(Acc, Acc) -> Acc>(init: Acc, local: L, global: G, a: Acc, s: Seq<In>)
    requires
        two_stage_compatible(init, local, global),
    ensures
        fold_seq(local, a, s) == apply(global, a, fold_seq(local, init, s)),
    decreases s.len(),
{
    if s.len() == 0 {
        assert(apply(global, init, a) == a);
        assert(apply(global, a, init) == apply(global, init, a));
    } else {
        lemma_local_shift(init, local, global, a, s.drop_last());
        let fa = fold_seq(local, a, s.drop_last());
        let fi = fold_seq(local, init, s.drop_last());
        let one = apply(local, init, s.last());
        assert(apply(local, fa, s.last()) == apply(global, fa, one));
        assert(apply(local, fi, s.last()) == apply(global, fi, one));
        assert(apply(global, apply(global, a, fi), one) == apply(global, a, apply(global, fi, one)));
    }
}

proof fn lemma_fold_append<Acc, In, L: Fn(Acc, In) -> Acc>(local: L, a: Acc, s: Seq<In>, t: Seq<In>)
    ensures
        fold_seq(local, a, s + t) == fold_seq(local, fold_seq(local, a, s), t),
    decreases t.len(),
{
    if t.len() == 0 {
        assert(s + t =~= s);
    } else {
        assert((s + t).drop_last() =~= s + t.drop_last());
        assert((s + t).last() == t.last());
        lemma_fold_append(local, a, s, t.drop_last());
    }
}

proof fn lemma_two_stage<Acc, In, L: Fn(Acc, In) -> Acc, G: Fn(Acc, Acc) -> Acc>(init: Acc, local: L, global: G, reps: Seq<Seq<In>>)
    requires
        two_stage_compatible(init, local, global),
    ensures
        (partials(local, init, reps).len() == 0) == (concat_all(reps).len() == 0),
        concat_all(reps).len() > 0 ==> fold_seq(global, init, partials(local, init, reps)) == fold_seq(
            local,
            init,
            concat_all(reps),
        ),
    decreases reps.len(),
{
    if reps.len() > 0 {
        let r = reps.drop_last();
        let p = reps.last();
        lemma_two_stage(init, local, global, r);
        let pr = partials(local, init, r);
        let c = concat_all(r);
        if p.len() == 0 {
            assert(pr + Seq::<Acc>::empty() =~= pr);
            assert(c + p =~= c);
        } else {
            let fp = fold_seq(local, init, p);
            let now = pr + seq![fp];
            assert(now.drop_last() =~= pr);
            lemma_fold_append(local, init, c, p);
            lemma_local_shift(init, local, global, fold_seq(local, init, c), p);
            if c.len() == 0 {
                assert(c + p =~= p);
                assert(fold_seq(global, init, pr) == init);
            }
        }
    }
}

proof fn lemma_fold_split<Acc, In, L: Fn(Acc, In) -> Acc, G: Fn(Acc, Acc) -> Acc>(init: Acc, local: L, global: G, s: Seq<In>, t: Seq<In>)
    requires
        two_stage_compatible(init, local, global),
    ensures
        fold_seq(local, init, s + t) == apply(global, fold_seq(local, init, s), fold_seq(local, init, t)),
{
    lemma_fold_append(local, init, s, t);
    lemma_local_shift(init, local, global, fold_seq(local, init, s), t);
}

proof fn lemma_fold_permutation<Acc, In, L: Fn(Acc, In) -> Acc, G: Fn(Acc, Acc) -> Acc>(init: Acc, local: L, global: G, s: Seq<In>, t: Seq<In>)
    requires
        two_stage_compatible(init, local, global),
        s.to_multiset() == t.to_multiset(),
    ensures
        fold_seq(local, init, s) == fold_seq(local, init, t),
    decreases s.len(),
{
    broadcast use vstd::seq_lib::group_to_multiset_ensures;

    if s.len() == 0 {
        s.to_multiset_ensures();
        t.to_multiset_ensures();
        assert(t.len() == 0);
        assert(t =~= s);
    } else {
        let x = s.last();
        let s2 = s.drop_last();
        assert(s2.push(x) =~= s);
        assert(s.to_multiset().count(x) > 0);
        assert(t.contains(x));
        let i = choose|i: int| 0 <= i < t.len() && t[i] == x;
        let t2 = t.remove(i);
        assert(t2.to_multiset() =~= s2.to_multiset());
        lemma_fold_permutation(init, local, global, s2, t2);
        let a = t.take(i);
        let b = t.subrange(i + 1, t.len() as int);
        assert(t =~= a.push(x) + b);
        assert(t2 =~= a + b);
        assert(a.push(x).drop_last() =~= a);
        lemma_fold_split(init, local, global, a.push(x), b);
        lemma_fold_split(init, local, global, a, b);
        let fa = fold_seq(local, init, a);
        let fb = fold_seq(local, init, b);
        let lx = apply(local, init, x);
        assert(apply(local, fa, x) == apply(global, fa, lx));
        assert(apply(local, fold_seq(local, init, s2), x) == apply(global, fold_seq(local, init, s2), lx));
        assert(apply(global, apply(global, fa, lx), fb) == apply(global, fa, apply(global, lx, fb)));
        assert(apply(global, lx, fb) == apply(global, fb, lx));
        assert(apply(global, apply(global, fa, fb), lx) == apply(global, fa, apply(global, fb, lx)));
    }
}

/// Under the same conditions, the result does not depend on which replica
/// each record starts on either: any two placements of the same records
/// (the same multiset) fold to the same result.
pub proof fn fold_independent_of_record_placement<Acc, In, L: Fn(Acc, In) -> Acc, G: Fn(Acc, Acc) -> Acc>(
    init: Acc,
    local: L,
    global: G,
    a: Seq<Seq<In>>,
    b: Seq<Seq<In>>,
)
    requires
        two_stage_compatible(init, local, global),
        concat_all(a).to_multiset() == concat_all(b).to_multiset(),
    ensures
        fold_result(init, local, global, a) == fold_result(init, local, global, b),
{
    broadcast use vstd::seq_lib::group_to_multiset_ensures;

    lemma_two_stage(init, local, global, a);
    lemma_two_stage(init, local, global, b);
    concat_all(a).to_multiset_ensures();
    concat_all(b).to_multiset_ensures();
    assert(concat_all(a).len() == concat_all(b).len());
    lemma_fold_permutation(init, local, global, concat_all(a), concat_all(b));
}

/// The result of a fold does not depend on how the records are spread over
/// the replicas of the local stage, as long as the global step is
/// associative and commutative with `init` as identity and agrees with the
/// local step.
pub proof fn fold_independent_of_parallelism<Acc, In, L: Fn(Acc, In) -> Acc, G: Fn(Acc, Acc) -> Acc>(
    init: Acc,
    local: L,
    global: G,
    a: Seq<Seq<In>>,
    b: Seq<Seq<In>>,
)
    requires
        two_stage_compatible(init, local, global),
        concat_all(a) == concat_all(b),
    ensures
        fold_result(init, local, global, a) == fold_result(init, local, global, b),
{
    lemma_two_stage(init, local, global, a);
    lemma_two_stage(init, local, global, b);
}


/// A stream of key-value pairs, spread over replicas by key.
pub struct KeyedStream<K, V> {
    pub replicas: Vec<Vec<(K, V)>>,
}

/// Each record paired with its key.
pub open spec fn keyed<T, K, KF: Fn(&T) -> K>(keyer: KF, s: Seq<T>) -> Seq<(K, T)> {
    s.map_values(|x: T| (key_of(keyer, x), x))
}

/// The pairs whose key's fingerprint, modulo `p`, is `d`, in order.
pub open spec fn to_replica<K: Key, V>(s: Seq<(K, V)>, p: nat, d: int) -> Seq<(K, V)>
    decreases s.len(),
{
    if s.len() == 0 {
        Seq::empty()
    } else if (s.last().0.spec_fingerprint() as int) % (p as int) == d {
        to_replica(s.drop_last(), p, d).push(s.last())
    } else {
        to_replica(s.drop_last(), p, d)
    }
}

/// What replica `d` of `p` receives from a key-partitioning shuffle of
/// `parts`: the pairs routed to it, sender after sender.
pub open spec fn inbox<K: Key, V>(parts: Seq<Seq<(K, V)>>, p: nat, d: int) -> Seq<(K, V)> {
    concat_all(parts.map_values(|s: Seq<(K, V)>| to_replica(s, p, d)))
}

/// The local stage of a grouped reduce: on each replica, one pair per key.
pub open spec fn local_reduced<T, K: Key, KF: Fn(&T) -> K, F: Fn(T, T) -> T>(
    keyer: KF,
    f: F,
    reps: Seq<Seq<T>>,
) -> Seq<Seq<(K, T)>> {
    reps.map_values(|s: Seq<T>| reduced(f, keyed(keyer, s)))
}

proof fn lemma_to_replica_fingerprint<K: Key, V>(s: Seq<(K, V)>, p: nat, d: int)
    ensures
        forall|i: int|
            0 <= i < to_replica(s, p, d).len() ==> ((#[trigger] to_replica(s, p, d)[i]).0.spec_fingerprint() as int) % (
            p as int) == d,
    decreases s.len(),
{
    if s.len() > 0 {
        lemma_to_replica_fingerprint(s.drop_last(), p, d);
        let t = to_replica(s.drop_last(), p, d);
        assert forall|i: int| 0 <= i < to_replica(s, p, d).len() implies ((#[trigger] to_replica(s, p, d)[i]).0.spec_fingerprint() as int) % (
            p as int) == d by {
            if i < t.len() {
                assert(to_replica(s, p, d)[i] == t[i]);
            }
        }
    }
}

proof fn lemma_concat_all_fingerprint<K: Key, V>(parts: Seq<Seq<(K, V)>>, p: nat, d: int)
    requires
        forall|r: int, i: int|
            0 <= r < parts.len() && 0 <= i < parts[r].len() ==> ((#[trigger] parts[r][i]).0.spec_fingerprint() as int)
                % (p as int) == d,
    ensures
        forall|i: int|
            0 <= i < concat_all(parts).len() ==> ((#[trigger] concat_all(parts)[i]).0.spec_fingerprint() as int) % (
            p as int) == d,
    decreases parts.len(),
{
    if parts.len() > 0 {
        lemma_concat_all_fingerprint(parts.drop_last(), p, d);
        let c = concat_all(parts.drop_last());
        assert forall|i: int| 0 <= i < concat_all(parts).len() implies ((#[trigger] concat_all(parts)[i]).0.spec_fingerprint() as int) % (
            p as int) == d by {
            if i < c.len() {
                assert(concat_all(parts)[i] == c[i]);
            } else {
                assert(concat_all(parts)[i] == parts.last()[i - c.len()]);
                assert(parts.last() == parts[parts.len() - 1]);
            }
        }
    }
}

proof fn lemma_keys_come_from_pairs<K: Key, V>(s: Seq<(K, V)>)
    ensures
        forall|i: int|
            0 <= i < keys_of(s).len() ==> exists|j: int| 0 <= j < s.len() && s[j].0 == #[trigger] keys_of(s)[i],
    decreases s.len(),
{
    if s.len() > 0 {
        let t = s.drop_last();
        lemma_keys_come_from_pairs(t);
        assert forall|i: int| 0 <= i < keys_of(s).len() implies exists|j: int| 0 <= j < s.len() && s[j].0 == #[trigger] keys_of(s)[i] by {
            if i < keys_of(t).len() {
                assert(keys_of(s)[i] == keys_of(t)[i]);
                let j = choose|j: int| 0 <= j < t.len() && t[j].0 == keys_of(t)[i];
                assert(s[j] == t[j]);
            } else {
                assert(keys_of(s)[i] == s.last().0);
                assert(s[s.len() - 1] == s.last());
            }
        }
    }
}

/// After a shuffle by key over `p` replicas, every key that replica `d`
/// holds has a fingerprint that picks `d`: all records of one key meet on
/// one replica.
pub proof fn group_by_key_placement<K: Key, V, F: Fn(V, V) -> V>(
    f: F,
    parts: Seq<Seq<(K, V)>>,
    p: nat,
    d: int,
    i: int,
)
    requires
        0 <= i < reduced(f, inbox(parts, p, d)).len(),
    ensures
        (reduced(f, inbox(parts, p, d))[i].0.spec_fingerprint() as int) % (p as int) == d,
{
    let routed = parts.map_values(|s: Seq<(K, V)>| to_replica(s, p, d));
    assert forall|r: int, k: int| 0 <= r < routed.len() && 0 <= k < routed[r].len() implies ((#[trigger] routed[r][k]).0.spec_fingerprint() as int)
        % (p as int) == d by {
        lemma_to_replica_fingerprint(parts[r], p, d);
    }
    lemma_concat_all_fingerprint(routed, p, d);
    let s = inbox(parts, p, d);
    lemma_keys_come_from_pairs(s);
    let j = choose|j: int| 0 <= j < s.len() && s[j].0 == #[trigger] keys_of(s)[i];
    assert(s[j].0 == keys_of(s)[i]);
}

impl<K: Key, V: Data> KeyedStream<K, V> {
    pub fn new(replicas: Vec<Vec<(K, V)>>) -> (r: KeyedStream<K, V>)
        ensures
            r.replicas@ == replicas@,
    {
        KeyedStream { replicas }
    }

    /// Reduces the values of each key with `f`, on the replica that holds
    /// the key: one pair per key, in order of first appearance.
    pub fn reduce<F: Fn(V, V) -> V>(self, f: F) -> (r: KeyedStream<K, V>)
        requires
            total(f),
            functional(f),
        ensures
            r.replicas@.len() == self.replicas@.len(),
            forall|d: int| 0 <= d < r.replicas@.len() ==> (#[trigger] r.replicas@[d])@ == reduced(f, self.replicas@[d]@),
    {
        let mut out: Vec<Vec<(K, V)>> = Vec::new();
        let mut d: usize = 0;
        while d < self.replicas.len()
            invariant
                total(f),
                functional(f),
                d <= self.replicas@.len(),
                out@.len() == d,
                forall|e: int| 0 <= e < d ==> (#[trigger] out@[e])@ == reduced(f, self.replicas@[e]@),
            decreases self.replicas@.len() - d,
        {
            out.push(reduce_by_key(&f, &self.replicas[d]));
            d = d + 1;
        }
        KeyedStream { replicas: out }
    }
}

impl<T: Data> Stream<T> {
    /// Groups the records by the key that `keyer` gives and reduces each
    /// group with `f`: each replica first reduces its own records key by
    /// key; the partial results are shuffled so that a key goes to the
    /// replica that its fingerprint picks (modulo the number of replicas);
    /// there the partial results of each key are reduced again.
    pub fn group_by_reduce<K: Key, KF: Fn(&T) -> K, F: Fn(T, T) -> T>(self, keyer: KF, f: F) -> (r: KeyedStream<K, T>)
        requires
            keyer_ok(keyer),
            total(f),
            functional(f),
        ensures
            r.replicas@.len() == self.replicas@.len(),
            forall|d: int|
                0 <= d < r.replicas@.len() ==> (#[trigger] r.replicas@[d])@ == reduced(
                    f,
                    inbox(local_reduced(keyer, f, replica_view(self.replicas@)), self.replicas@.len(), d),
                ),
    {
        let p = self.replicas.len();
        let ghost reps = replica_view(self.replicas@);
        let ghost parts = local_reduced(keyer, f, reps);
        let mut locals: Vec<Vec<(K, T)>> = Vec::new();
        let mut r: usize = 0;
        while r < p
            invariant
                keyer_ok(keyer),
                total(f),
                functional(f),
                r <= p,
                p == self.replicas@.len(),
                reps == replica_view(self.replicas@),
                parts == local_reduced(keyer, f, reps),
                locals@.len() == r,
                forall|e: int| 0 <= e < r ==> (#[trigger] locals@[e])@ == parts[e],
            decreases p - r,
        {
            let mut pairs: Vec<(K, T)> = Vec::new();
            let mut i: usize = 0;
            while i < self.replicas[r].len()
                invariant
                    keyer_ok(keyer),
                    total(f),
                    functional(f),
                    r < p,
                    p == self.replicas@.len(),
                    i <= self.replicas@[r as int]@.len(),
                    pairs@ == keyed(keyer, self.replicas@[r as int]@.take(i as int)),
                decreases self.replicas@[r as int]@.len() - i,
            {
                let x = self.replicas[r][i].duplicate();
                let k = call_keyer(&keyer, &x);
                pairs.push((k, x));
                proof {
                    assert(pairs@ =~= keyed(keyer, self.replicas@[r as int]@.take(i + 1)));
                }
                i = i + 1;
            }
            proof {
                assert(self.replicas@[r as int]@.take(i as int) =~= self.replicas@[r as int]@);
                assert(reps[r as int] == self.replicas@[r as int]@);
            }
            locals.push(reduce_by_key(&f, &pairs));
            r = r + 1;
        }
        let mut inboxes: Vec<Vec<(K, T)>> = Vec::new();
        let mut d: usize = 0;
        while d < p
            invariant
                keyer_ok(keyer),
                total(f),
                functional(f),
                d <= p,
                inboxes@.len() == d,
                forall|e: int| 0 <= e < d ==> (#[trigger] inboxes@[e])@ == Seq::<(K, T)>::empty(),
            decreases p - d,
        {
            inboxes.push(Vec::new());
            d = d + 1;
        }
        let mut r: usize = 0;
        while r < p
            invariant
                keyer_ok(keyer),
                total(f),
                functional(f),
                r <= p,
                p == self.replicas@.len(),
                parts.len() == p,
                locals@.len() == p,
                forall|e: int| 0 <= e < p ==> (#[trigger] locals@[e])@ == parts[e],
                inboxes@.len() == p,
                forall|e: int| 0 <= e < p ==> (#[trigger] inboxes@[e])@ == inbox(parts.take(r as int), p as nat, e),
            decreases p - r,
        {
            let ghost before = inboxes@;
            let mut i: usize = 0;
            while i < locals[r].len()
                invariant
                    keyer_ok(keyer),
                    total(f),
                    functional(f),
                    r < p,
                    p == self.replicas@.len(),
                    parts.len() == p,
                    locals@.len() == p,
                    forall|e: int| 0 <= e < p ==> (#[trigger] locals@[e])@ == parts[e],
                    i <= locals@[r as int]@.len(),
                    inboxes@.len() == p,
                    forall|e: int|
                        0 <= e < p ==> (#[trigger] inboxes@[e])@ == before[e]@ + to_replica(
                            locals@[r as int]@.take(i as int),
                            p as nat,
                            e,
                        ),
                decreases locals@[r as int]@.len() - i,
            {
                let pair = (locals[r][i].0.duplicate(), locals[r][i].1.duplicate());
                let fp = pair.0.fingerprint();
                let dest = (fp % (p as u64)) as usize;
                let ghost ib = inboxes@;
                inboxes[dest].push(pair);
                proof {
                    let seg = locals@[r as int]@.take(i + 1);
                    assert(seg.drop_last() =~= locals@[r as int]@.take(i as int));
                    assert(seg.last() == pair);
                    assert forall|e: int| 0 <= e < p implies (#[trigger] inboxes@[e])@ == before[e]@ + to_replica(
                        seg,
                        p as nat,
                        e,
                    ) by {
                        if e == dest as int {
                            assert(inboxes@[e]@ == ib[e]@.push(pair));
                            assert((before[e]@ + to_replica(locals@[r as int]@.take(i as int), p as nat, e)).push(pair)
                                =~= before[e]@ + to_replica(locals@[r as int]@.take(i as int), p as nat, e).push(pair));
                        } else {
                            assert(inboxes@[e] == ib[e]);
                        }
                    }
                }
                i = i + 1;
            }
            proof {
                assert(locals@[r as int]@.take(i as int) =~= parts[r as int]);
                assert forall|e: int| 0 <= e < p implies (#[trigger] inboxes@[e])@ == inbox(parts.take(r + 1), p as nat, e) by {
                    let m1 = parts.take(r + 1).map_values(|s: Seq<(K, T)>| to_replica(s, p as nat, e));
                    let m0 = parts.take(r as int).map_values(|s: Seq<(K, T)>| to_replica(s, p as nat, e));
                    assert(m1.drop_last() =~= m0);
                    assert(m1.last() == to_replica(parts[r as int], p as nat, e));
                }
            }
            r = r + 1;
        }
        proof {
            assert(parts.take(p as int) =~= parts);
        }
        let mut out: Vec<Vec<(K, T)>> = Vec::new();
        let mut d: usize = 0;
        while d < p
            invariant
                keyer_ok(keyer),
                total(f),
                functional(f),
                d <= p,
                p == self.replicas@.len(),
                inboxes@.len() == p,
                forall|e: int| 0 <= e < p ==> (#[trigger] inboxes@[e])@ == inbox(parts, p as nat, e),
                out@.len() == d,
                forall|e: int| 0 <= e < d ==> (#[trigger] out@[e])@ == reduced(f, inbox(parts, p as nat, e)),
            decreases p - d,
        {
            out.push(reduce_by_key(&f, &inboxes[d]));
            d = d + 1;
        }
        KeyedStream { replicas: out }
    }
}

} // verus!
