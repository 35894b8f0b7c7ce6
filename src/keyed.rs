//! Keys, and per-key reduction on streams partitioned by key.
use vstd::prelude::*;
use crate::element::Data;
use crate::fold::{apply, call_fn, functional, total};

verus! {

/// A value by which records are grouped: it can be compared by its view and
/// has a 64-bit fingerprint, a function of that view, that picks a replica.
pub trait Key: Data {
    type View;

    spec fn key_view(&self) -> Self::View;

    spec fn spec_fingerprint(&self) -> u64;

    proof fn lemma_fingerprint_of_view(a: &Self, b: &Self)
        requires
            a.key_view() == b.key_view(),
        ensures
            a.spec_fingerprint() == b.spec_fingerprint(),
    ;

    fn same_key(&self, other: &Self) -> (r: bool)
        ensures
            r == (self.key_view() == other.key_view()),
    ;

    fn fingerprint(&self) -> (r: u64)
        ensures
            r == self.spec_fingerprint(),
    ;
}

impl Key for u64 {
    type View = u64;

    open spec fn key_view(&self) -> u64 {
        *self
    }

    open spec fn spec_fingerprint(&self) -> u64 {
        *self
    }

    proof fn lemma_fingerprint_of_view(a: &Self, b: &Self) {
    }

    fn same_key(&self, other: &Self) -> (r: bool) {
        *self == *other
    }

    fn fingerprint(&self) -> (r: u64) {
        *self
    }
}

impl Key for i32 {
    type View = i32;

    open spec fn key_view(&self) -> i32 {
        *self
    }

    open spec fn spec_fingerprint(&self) -> u64 {
        (*self as int + 0x8000_0000) as u64
    }

    proof fn lemma_fingerprint_of_view(a: &Self, b: &Self) {
    }

    fn same_key(&self, other: &Self) -> (r: bool) {
        *self == *other
    }

    fn fingerprint(&self) -> (r: u64) {
        (*self as i64 + 0x8000_0000) as u64
    }
}

/// Multiplier of the 64-bit FNV-1a hash.
pub const FNV_PRIME: u64 = 0x100000001b3;

/// Starting value of the 64-bit FNV-1a hash.
pub const FNV_OFFSET: u64 = 0xcbf29ce484222325;

/// FNV-1a over the code points of a text.
pub open spec fn fnv_chars(s: Seq<char>) -> u64
    decreases s.len(),
{
    if s.len() == 0 {
        FNV_OFFSET
    } else {
        (((fnv_chars(s.drop_last()) ^ (s.last() as u32 as u64)) as int * FNV_PRIME as int) % 0x1_0000_0000_0000_0000) as u64
    }
}

impl Key for String {
    type View = Seq<char>;

    open spec fn key_view(&self) -> Seq<char> {
        self@
    }

    open spec fn spec_fingerprint(&self) -> u64 {
        fnv_chars(self@)
    }

    proof fn lemma_fingerprint_of_view(a: &Self, b: &Self) {
    }

    fn same_key(&self, other: &Self) -> (r: bool) {
        self.eq(other)
    }

    fn fingerprint(&self) -> (r: u64) {
        let s = self.as_str();
        let n = s.unicode_len();
        let mut h: u64 = FNV_OFFSET;
        let mut i: usize = 0;
        while i < n
            invariant
                i <= n,
                n == s@.len(),
                s@ == self@,
                h == fnv_chars(s@.take(i as int)),
            decreases n - i,
        {
            proof {
                assert(s@.take(i + 1).drop_last() =~= s@.take(i as int));
            }
            let c = s.get_char(i);
            h = (h ^ (c as u32 as u64)).wrapping_mul(FNV_PRIME);
            i = i + 1;
        }
        proof {
            assert(s@.take(n as int) =~= s@);
        }
        h
    }
}

/// `keyer` accepts every record and gives one key for each.
pub open spec fn keyer_ok<T, K, KF: Fn(&T) -> K>(keyer: KF) -> bool {
    &&& forall|x: &T| #[trigger] call_requires(keyer, (x,))
    &&& forall|x: &T, k1: K, k2: K|
        #[trigger] call_ensures(keyer, (x,), k1) && #[trigger] call_ensures(keyer, (x,), k2) ==> k1 == k2
}

/// The key that `keyer` gives to `x`.
pub open spec fn key_of<T, K, KF: Fn(&T) -> K>(keyer: KF, x: T) -> K {
    choose|k: K| call_ensures(keyer, (&x,), k)
}

/// Calls the user's key extractor.
pub fn call_keyer<T, K, KF: Fn(&T) -> K>(keyer: &KF, x: &T) -> (r: K)
    requires
        keyer_ok(*keyer),
    ensures
        r == key_of(*keyer, *x),
{
    let r = keyer(x);
    proof {
        assert(call_requires(*keyer, (x,)));
        assert(call_ensures(*keyer, (x,), r));
        let c = key_of(*keyer, *x);
        assert(call_ensures(*keyer, (x,), c));
    }
    r
}

/// Some key in `ks` has view `v`.
pub open spec fn has_view<K: Key>(ks: Seq<K>, v: K::View) -> bool {
    exists|i: int| 0 <= i < ks.len() && (#[trigger] ks[i]).key_view() == v
}

/// The distinct keys of the pairs, by view, in order of first appearance.
pub open spec fn keys_of<K: Key, V>(s: Seq<(K, V)>) -> Seq<K>
    decreases s.len(),
{
    if s.len() == 0 {
        Seq::empty()
    } else if has_view(keys_of(s.drop_last()), s.last().0.key_view()) {
        keys_of(s.drop_last())
    } else {
        keys_of(s.drop_last()).push(s.last().0)
    }
}

/// The values paired with a key of view `v`, in order.
pub open spec fn values_of<K: Key, V>(s: Seq<(K, V)>, v: K::View) -> Seq<V>
    decreases s.len(),
{
    if s.len() == 0 {
        Seq::empty()
    } else if s.last().0.key_view() == v {
        values_of(s.drop_last(), v).push(s.last().1)
    } else {
        values_of(s.drop_last(), v)
    }
}

/// `f` applied from the left over a non-empty sequence of values.
pub open spec fn reduce_seq<V, F: Fn(V, V) -> V>(f: F, vs: Seq<V>) -> V
    decreases vs.len(),
{
    if vs.len() <= 1 {
        vs[0]
    } else {
        apply(f, reduce_seq(f, vs.drop_last()), vs.last())
    }
}

/// One pair per distinct key, in order of first appearance, with the
/// reduction of that key's values.
pub open spec fn reduced<K: Key, V, F: Fn(V, V) -> V>(f: F, s: Seq<(K, V)>) -> Seq<(K, V)> {
    keys_of(s).map_values(|k: K| (k, reduce_seq(f, values_of(s, k.key_view()))))
}

pub(crate) proof fn lemma_keys_distinct<K: Key, V>(s: Seq<(K, V)>)
    ensures
        forall|i: int, j: int|
            0 <= i < j < keys_of(s).len() ==> (#[trigger] keys_of(s)[i]).key_view() != (#[trigger] keys_of(s)[j]).key_view(),
    decreases s.len(),
{
    if s.len() > 0 {
        lemma_keys_distinct(s.drop_last());
        let ks = keys_of(s.drop_last());
        if !has_view(ks, s.last().0.key_view()) {
            let ks2 = keys_of(s);
            assert forall|i: int, j: int| 0 <= i < j < ks2.len() implies (#[trigger] ks2[i]).key_view() != (#[trigger] ks2[j]).key_view() by {
                if j == ks.len() {
                    assert(ks2[i] == ks[i]);
                } else {
                    assert(ks2[i] == ks[i]);
                    assert(ks2[j] == ks[j]);
                }
            }
        }
    }
}

pub(crate) proof fn lemma_values_need_key<K: Key, V>(s: Seq<(K, V)>, v: K::View)
    requires
        !has_view(keys_of(s), v),
    ensures
        values_of(s, v).len() == 0,
    decreases s.len(),
{
    if s.len() > 0 {
        let ks = keys_of(s.drop_last());
        if has_view(ks, v) {
            let i = choose|i: int| 0 <= i < ks.len() && (#[trigger] ks[i]).key_view() == v;
            if has_view(ks, s.last().0.key_view()) {
                assert(keys_of(s) == ks);
            } else {
                assert(keys_of(s)[i] == ks[i]);
            }
        } else {
            if s.last().0.key_view() == v {
                assert(keys_of(s) == ks.push(s.last().0));
                assert(keys_of(s)[ks.len() as int].key_view() == v);
            } else {
                if !has_view(ks, s.last().0.key_view()) {
                    assert forall|i: int| 0 <= i < keys_of(s).len() implies (#[trigger] keys_of(s)[i]).key_view() != v by {
                        if i < ks.len() {
                            assert(keys_of(s)[i] == ks[i]);
                        }
                    }
                }
            }
            lemma_values_need_key(s.drop_last(), v);
        }
    }
}

/// Reduces the pairs of one replica key by key.
pub fn reduce_by_key<K: Key, V: Data, F: Fn(V, V) -> V>(f: &F, items: &Vec<(K, V)>) -> (r: Vec<(K, V)>)
    requires
        total(*f),
        functional(*f),
    ensures
        r@ == reduced(*f, items@),
{
    let mut acc: Vec<(K, V)> = Vec::new();
    let mut i: usize = 0;
    proof {
        assert(items@.take(0) =~= Seq::<(K, V)>::empty());
        assert(acc@ =~= reduced(*f, items@.take(0)));
    }
    while i < items.len()
        invariant
            i <= items@.len(),
            total(*f),
            functional(*f),
            acc@ == reduced(*f, items@.take(i as int)),
        decreases items@.len() - i,
    {
        let ghost pre = items@.take(i as int);
        let ghost now = items@.take(i + 1);
        proof {
            assert(now.drop_last() =~= pre);
            assert(now.last() == items@[i as int]);
            lemma_keys_distinct(pre);
        }
        let k = items[i].0.duplicate();
        let v = items[i].1.duplicate();
        let mut j: usize = 0;
        let mut found = false;
        while j < acc.len() && !found
            invariant
                j <= acc@.len(),
                acc@ == reduced(*f, pre),
                forall|m: int| 0 <= m < j ==> (#[trigger] acc@[m]).0.key_view() != k.key_view(),
                found ==> j < acc@.len() && acc@[j as int].0.key_view() == k.key_view(),
            decreases acc@.len() - j + if found { 0int } else { 1int },
        {
            if acc[j].0.same_key(&k) {
                found = true;
            } else {
                j = j + 1;
            }
        }
        let ghost ks = keys_of(pre);
        if found {
            proof {
                assert(ks[j as int].key_view() == k.key_view());
                assert(has_view(ks, k.key_view()));
                assert(keys_of(now) == ks);
            }
            let cur = acc[j].1.duplicate();
            let nk = acc[j].0.duplicate();
            let nv = call_fn(f, cur, v);
            acc.set(j, (nk, nv));
            proof {
                assert forall|m: int| 0 <= m < ks.len() implies #[trigger] values_of(now, ks[m].key_view()) == if m == j {
                    values_of(pre, ks[m].key_view()).push(v)
                } else {
                    values_of(pre, ks[m].key_view())
                } by {}
                assert(values_of(pre, ks[j as int].key_view()).len() > 0) by {
                    if values_of(pre, ks[j as int].key_view()).len() == 0 {
                        lemma_values_nonempty_for_key(pre, j as int);
                    }
                }
                let vals = values_of(pre, ks[j as int].key_view());
                assert(vals.push(v).drop_last() =~= vals);
                assert(reduce_seq(*f, vals.push(v)) == apply(*f, reduce_seq(*f, vals), v));
                assert forall|m: int| 0 <= m < ks.len() implies #[trigger] acc@[m] == reduced(*f, now)[m] by {
                    if m == j {
                        assert(acc@[m] == (ks[m], apply(*f, reduce_seq(*f, vals), v)));
                    }
                }
                assert(acc@ =~= reduced(*f, now));
            }
        } else {
            proof {
                assert forall|m: int| 0 <= m < ks.len() implies (#[trigger] ks[m]).key_view() != k.key_view() by {
                    assert(acc@[m].0 == ks[m]);
                }
                assert(!has_view(ks, k.key_view()));
                assert(keys_of(now) == ks.push(k));
                lemma_values_need_key(pre, k.key_view());
                assert(values_of(now, k.key_view()) =~= seq![v]);
                assert forall|m: int| 0 <= m < ks.len() implies #[trigger] values_of(now, ks[m].key_view())
                    == values_of(pre, ks[m].key_view()) by {}
            }
            acc.push((k, v));
            proof {
                assert(acc@ =~= reduced(*f, now));
            }
        }
        i = i + 1;
    }
    proof {
        assert(items@.take(items@.len() as int) =~= items@);
    }
    acc
}

proof fn lemma_values_nonempty_for_key<K: Key, V>(s: Seq<(K, V)>, m: int)
    requires
        0 <= m < keys_of(s).len(),
    ensures
        values_of(s, keys_of(s)[m].key_view()).len() > 0,
    decreases s.len(),
{
    if s.len() > 0 {
        let ks = keys_of(s.drop_last());
        if m < ks.len() {
            assert(keys_of(s)[m] == ks[m]);
            lemma_values_nonempty_for_key(s.drop_last(), m);
        }
    }
}

} // verus!
