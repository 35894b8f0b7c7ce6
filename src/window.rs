//! Tumbling event-time windows over a keyed stream, and their sums.
use vstd::prelude::*;
use vstd::arithmetic::div_mod::{lemma_fundamental_div_mod, lemma_fundamental_div_mod_converse};
use crate::element::{Data, Timestamp};
use crate::keyed::{keys_of, lemma_keys_distinct, lemma_values_need_key, values_of, has_view, Key};
use crate::stream::KeyedStream;

verus! {

/// Index of the tumbling window of length `size` that holds time `ts`.
pub open spec fn window_of(ts: int, size: int) -> int {
    ts / size
}

/// The window of length `size` (positive) that holds `ts`, rounding down
/// for negative times too.
pub fn window_index(ts: Timestamp, size: Timestamp) -> (r: i64)
    requires
        size > 0,
    ensures
        r == window_of(ts as int, size as int),
{
    if ts >= 0 {
        let q = (ts as u64) / (size as u64);
        proof {
            lemma_fundamental_div_mod(ts as int, size as int);
            assert(q as int == (ts as int) / (size as int));
        }
        q as i64
    } else {
        let a = (-(ts + 1)) as u64;
        let q = a / (size as u64);
        let rem = a % (size as u64);
        proof {
            let (ai, si, qi, ri) = (a as int, size as int, q as int, rem as int);
            lemma_fundamental_div_mod(ai, si);
            assert(ai == si * qi + ri);
            assert(ts as int == (-qi - 1) * si + (si - ri - 1)) by (nonlinear_arith)
                requires
                    ai == si * qi + ri,
                    ai == -(ts as int + 1),
            ;
            lemma_fundamental_div_mod_converse(ts as int, si, -qi - 1, si - ri - 1);
        }
        -(q as i64) - 1
    }
}

/// A key together with the index of a window.
pub struct WindowKey<K> {
    pub key: K,
    pub window: i64,
}

impl<K: Key> Data for WindowKey<K> {
    fn duplicate(&self) -> (r: Self) {
        WindowKey { key: self.key.duplicate(), window: self.window }
    }
}

impl<K: Key> Key for WindowKey<K> {
    type View = (K::View, i64);

    open spec fn key_view(&self) -> (K::View, i64) {
        (self.key.key_view(), self.window)
    }

    open spec fn spec_fingerprint(&self) -> u64 {
        self.key.spec_fingerprint()
    }

    proof fn lemma_fingerprint_of_view(a: &Self, b: &Self) {
        K::lemma_fingerprint_of_view(&a.key, &b.key);
    }

    fn same_key(&self, other: &Self) -> (r: bool) {
        self.window == other.window && self.key.same_key(&other.key)
    }

    fn fingerprint(&self) -> (r: u64) {
        self.key.fingerprint()
    }
}

/// Each record keyed by its key and the window of its timestamp.
pub open spec fn windowed<K>(s: Seq<(K, (i64, Timestamp))>, size: int) -> Seq<(WindowKey<K>, i64)> {
    s.map_values(|p: (K, (i64, Timestamp))| (WindowKey { key: p.0, window: window_of(p.1.1 as int, size) as i64 }, p.1.0))
}

/// The sum of the values.
pub open spec fn sum_seq(vs: Seq<i64>) -> int
    decreases vs.len(),
{
    if vs.len() == 0 {
        0
    } else {
        sum_seq(vs.drop_last()) + vs.last()
    }
}

/// One pair per key and window, in order of the window's first record:
/// the key and the sum of the values that fall in that window.
pub open spec fn window_sums<K: Key>(s: Seq<(K, (i64, Timestamp))>, size: int) -> Seq<(K, i128)> {
    let ws = windowed(s, size);
    keys_of(ws).map_values(|wk: WindowKey<K>| (wk.key, sum_seq(values_of(ws, wk.key_view())) as i128))
}

/// Bound on a sum: no more than the count times the largest magnitude.
pub open spec fn sum_fits(vs: Seq<i64>) -> bool {
    -(vs.len() * 0x8000_0000_0000_0000) <= sum_seq(vs) <= vs.len() * 0x8000_0000_0000_0000
}

proof fn lemma_sum_bound(vs: Seq<i64>)
    ensures
        sum_fits(vs),
    decreases vs.len(),
{
    if vs.len() > 0 {
        lemma_sum_bound(vs.drop_last());
    }
}

proof fn lemma_values_len<K: Key, V>(s: Seq<(K, V)>, v: K::View)
    ensures
        values_of(s, v).len() <= s.len(),
    decreases s.len(),
{
    if s.len() > 0 {
        lemma_values_len(s.drop_last(), v);
    }
}

/// Sums the values of one replica per key and window.
fn sum_windows<K: Key>(items: &Vec<(K, (i64, Timestamp))>, size: Timestamp) -> (r: Vec<(K, i128)>)
    requires
        size > 0,
    ensures
        r@ == window_sums(items@, size as int),
{
    let ghost ws = windowed(items@, size as int);
    let mut acc: Vec<(WindowKey<K>, i128)> = Vec::new();
    let mut i: usize = 0;
    proof {
        assert(ws.take(0) =~= Seq::<(WindowKey<K>, i64)>::empty());
    }
    while i < items.len()
        invariant
            size > 0,
            i <= items@.len(),
            ws == windowed(items@, size as int),
            ({
                let pre = ws.take(i as int);
                &&& acc@.len() == keys_of(pre).len()
                &&& forall|m: int|
                    0 <= m < acc@.len() ==> (#[trigger] acc@[m]).0 == keys_of(pre)[m] && acc@[m].1 as int
                        == sum_seq(values_of(pre, keys_of(pre)[m].key_view()))
            }),
        decreases items@.len() - i,
    {
        let ghost pre = ws.take(i as int);
        let ghost now = ws.take(i + 1);
        proof {
            assert(now.drop_last() =~= pre);
            assert(now.last() == ws[i as int]);
            lemma_keys_distinct(pre);
        }
        let w = window_index(items[i].1.1, size);
        let k = WindowKey { key: items[i].0.duplicate(), window: w };
        let v = items[i].1.0;
        proof {
            assert(ws[i as int] == (k, v));
        }
        let mut j: usize = 0;
        let mut found = false;
        while j < acc.len() && !found
            invariant
                j <= acc@.len(),
                acc@.len() == keys_of(pre).len(),
                forall|m: int| 0 <= m < acc@.len() ==> (#[trigger] acc@[m]).0 == keys_of(pre)[m],
                forall|m: int| 0 <= m < j ==> (#[trigger] acc@[m]).0.key_view() != k.key_view(),
                found ==> j < acc@.len() && acc@[j as int].0.key_view() == k.key_view(),
            decreases acc@.len() - j + if found { 0int } else { 1int },
        {
            if acc[j].0.same_key(&k) {
                found = true;
            } else {
                j = j + 1;
            }
        }
        let ghost ks = keys_of(pre);
        if found {
            let ghost vals = values_of(pre, ks[j as int].key_view());
            proof {
                assert(ks[j as int].key_view() == k.key_view());
                assert(has_view(ks, k.key_view()));
                assert(keys_of(now) == ks);
                lemma_values_len(pre, ks[j as int].key_view());
                lemma_sum_bound(vals);
                assert(vals.push(v).drop_last() =~= vals);
                assert(sum_seq(vals.push(v)) == sum_seq(vals) + v);
                assert(vals.len() <= i);
                assert(-(vals.len() * 0x8000_0000_0000_0000) <= sum_seq(vals) <= vals.len() * 0x8000_0000_0000_0000);
                assert(i < 0x1_0000_0000_0000_0000);
                assert(vals.len() * 0x8000_0000_0000_0000 <= 0x1_0000_0000_0000_0000 * 0x8000_0000_0000_0000) by (nonlinear_arith)
                    requires vals.len() <= 0x1_0000_0000_0000_0000;
            }
            let cur = acc[j].1;
            let nk = acc[j].0.duplicate();
            acc.set(j, (nk, cur + v as i128));
            proof {
                assert forall|m: int| 0 <= m < ks.len() implies #[trigger] values_of(now, ks[m].key_view()) == if m == j {
                    values_of(pre, ks[m].key_view()).push(v)
                } else {
                    values_of(pre, ks[m].key_view())
                } by {}
                assert forall|m: int| 0 <= m < acc@.len() implies (#[trigger] acc@[m]).0 == keys_of(now)[m] && acc@[m].1 as int
                    == sum_seq(values_of(now, keys_of(now)[m].key_view())) by {
                    if m == j {
                        assert(values_of(now, ks[m].key_view()) == vals.push(v));
                    }
                }
            }
        } else {
            proof {
                assert forall|m: int| 0 <= m < ks.len() implies (#[trigger] ks[m]).key_view() != k.key_view() by {
                    assert(acc@[m].0 == ks[m]);
                }
                assert(!has_view(ks, k.key_view()));
                assert(keys_of(now) == ks.push(k));
                lemma_values_need_key(pre, k.key_view());
                assert(values_of(now, k.key_view()) =~= seq![v]);
                assert(seq![v].drop_last() =~= Seq::<i64>::empty());
                assert forall|m: int| 0 <= m < ks.len() implies #[trigger] values_of(now, ks[m].key_view())
                    == values_of(pre, ks[m].key_view()) by {}
            }
            acc.push((k, v as i128));
            proof {
                assert forall|m: int| 0 <= m < acc@.len() implies (#[trigger] acc@[m]).0 == keys_of(now)[m] && acc@[m].1 as int
                    == sum_seq(values_of(now, keys_of(now)[m].key_view())) by {
                    if m == ks.len() {
                        assert(sum_seq(seq![v]) == sum_seq(Seq::<i64>::empty()) + v);
                    }
                }
            }
        }
        i = i + 1;
    }
    proof {
        assert(ws.take(items@.len() as int) =~= ws);
    }
    let mut out: Vec<(K, i128)> = Vec::new();
    let mut m: usize = 0;
    while m < acc.len()
        invariant
            m <= acc@.len(),
            ws == windowed(items@, size as int),
            acc@.len() == keys_of(ws).len(),
            forall|q: int|
                0 <= q < acc@.len() ==> (#[trigger] acc@[q]).0 == keys_of(ws)[q] && acc@[q].1 as int
                    == sum_seq(values_of(ws, keys_of(ws)[q].key_view())),
            out@.len() == m,
            forall|q: int| 0 <= q < m ==> #[trigger] out@[q] == window_sums(items@, size as int)[q],
        decreases acc@.len() - m,
    {
        out.push((acc[m].0.key.duplicate(), acc[m].1));
        m = m + 1;
    }
    proof {
        assert(out@ =~= window_sums(items@, size as int));
    }
    out
}

/// A keyed stream cut into tumbling event-time windows of one length.
pub struct WindowedStream<K> {
    pub replicas: Vec<Vec<(K, (i64, Timestamp))>>,
    /// Length of every window.
    pub size: Timestamp,
}

impl<K: Key> WindowedStream<K> {
    /// Windows of length `size` over records `(key, (value, timestamp))`.
    pub fn new(replicas: Vec<Vec<(K, (i64, Timestamp))>>, size: Timestamp) -> (r: WindowedStream<K>)
        requires
            size > 0,
        ensures
            r.replicas@ == replicas@,
            r.size == size,
    {
        WindowedStream { replicas, size }
    }

    /// Sums the values of each key in each window, on the replica that
    /// holds the key.
    pub fn sum(self) -> (r: KeyedStream<K, i128>)
        requires
            self.size > 0,
        ensures
            r.replicas@.len() == self.replicas@.len(),
            forall|d: int|
                0 <= d < r.replicas@.len() ==> (#[trigger] r.replicas@[d])@ == window_sums(
                    self.replicas@[d]@,
                    self.size as int,
                ),
    {
        let mut out: Vec<Vec<(K, i128)>> = Vec::new();
        let mut d: usize = 0;
        while d < self.replicas.len()
            invariant
                self.size > 0,
                d <= self.replicas@.len(),
                out@.len() == d,
                forall|e: int| 0 <= e < d ==> (#[trigger] out@[e])@ == window_sums(self.replicas@[e]@, self.size as int),
            decreases self.replicas@.len() - d,
        {
            out.push(sum_windows(&self.replicas[d], self.size));
            d = d + 1;
        }
        KeyedStream::new(out)
    }
}

} // verus!
