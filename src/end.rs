//! The tail of every block that is not a sink: routes records to the
//! replicas of the downstream blocks and forwards the control markers.
use vstd::prelude::*;
use crate::batcher::{sent, BatchMode, Batcher};
use crate::element::{Data, StreamElement};

verus! {

/// Dense identifier of a block of the pipeline.
pub type BlockId = u64;

/// Identity of one replica: its block, its host and its index on the host.
#[derive(Clone, Copy, Debug, PartialEq, Eq, Structural)]
pub struct Coord {
    pub block_id: BlockId,
    pub host_id: u64,
    pub replica_id: u64,
}

/// The receiving end of a channel: the replica that receives, and the block
/// that sends on it.
#[derive(Clone, Copy, Debug, PartialEq, Eq, Structural)]
pub struct ReceiverEndpoint {
    pub coord: Coord,
    pub prev_block_id: BlockId,
}

/// Lexicographic order on the sort key of an endpoint.
pub open spec fn key_le(a: (u64, u64, u64, u64), b: (u64, u64, u64, u64)) -> bool {
    a.0 < b.0 || (a.0 == b.0 && (a.1 < b.1 || (a.1 == b.1 && (a.2 < b.2 || (a.2 == b.2
        && a.3 <= b.3)))))
}

impl ReceiverEndpoint {
    pub open spec fn spec_sort_key(self) -> (u64, u64, u64, u64) {
        (self.coord.block_id, self.coord.host_id, self.coord.replica_id, self.prev_block_id)
    }

    /// The key by which the senders of an `End` are ordered.
    pub fn sort_key(&self) -> (r: (u64, u64, u64, u64))
        ensures
            r == self.spec_sort_key(),
    {
        (self.coord.block_id, self.coord.host_id, self.coord.replica_id, self.prev_block_id)
    }
}

/// Relies on glidesort::sort_by_key: the slice is permuted so that the keys
/// that the closure returns are in ascending order (tuples compare
/// lexicographically).
#[verifier::external_body]
fn sort_endpoints(v: &mut Vec<ReceiverEndpoint>)
    ensures
        final(v)@.to_multiset() == old(v)@.to_multiset(),
        forall|i: int, j: int|
            0 <= i < j < final(v)@.len() ==> key_le(
                #[trigger] final(v)@[i].spec_sort_key(),
                #[trigger] final(v)@[j].spec_sort_key(),
            ),
{
    glidesort::sort_by_key(v.as_mut_slice(), |e| e.sort_key())
}

/// How the records leaving a block are spread over the downstream replicas.
#[derive(Clone, Copy, Debug, PartialEq, Eq, Structural)]
pub enum NextStrategy {
    /// Every record goes to the single replica of each downstream block.
    OnlyOne,
    /// Every record goes to every downstream replica.
    All,
    /// The record's key fingerprint, modulo the number of replicas, picks one.
    GroupBy,
    /// A uniformly drawn number, modulo the number of replicas, picks one.
    Random,
}

/// The senders of `End` that lead to one downstream block (or, under
/// `NextStrategy::All`, to one downstream replica).
#[derive(Debug)]
pub struct BlockSenders {
    /// Indexes of the senders in the group.
    pub indexes: Vec<usize>,
}

impl BlockSenders {
    pub fn new(indexes: Vec<usize>) -> (r: BlockSenders)
        ensures
            r.indexes@ == indexes@,
    {
        BlockSenders { indexes }
    }
}

/// The endpoints that survive the ignore list, in the order given.
pub open spec fn kept(s: Seq<ReceiverEndpoint>, ignored: Seq<BlockId>) -> Seq<ReceiverEndpoint>
    decreases s.len(),
{
    if s.len() == 0 {
        Seq::empty()
    } else if ignored.contains(s.last().coord.block_id) {
        kept(s.drop_last(), ignored)
    } else {
        kept(s.drop_last(), ignored).push(s.last())
    }
}

/// No two endpoints lead to the same downstream block.
pub open spec fn unique_blocks(s: Seq<ReceiverEndpoint>) -> bool {
    forall|i: int, j: int|
        0 <= i < s.len() && 0 <= j < s.len() && i != j ==> #[trigger] s[i].coord.block_id
            != #[trigger] s[j].coord.block_id
}

/// Index of the first sender of group `g`: the sizes of the groups before it.
pub open spec fn group_start(gs: Seq<Seq<usize>>, g: int) -> int
    decreases g,
{
    if g <= 0 {
        0
    } else {
        group_start(gs, g - 1) + gs[g - 1].len()
    }
}

/// The groups are consecutive non-empty runs of sender indexes that cover
/// `0..n` exactly, in order.
pub open spec fn runs_cover(gs: Seq<Seq<usize>>, n: int) -> bool {
    &&& group_start(gs, gs.len() as int) == n
    &&& forall|g: int|
        0 <= g < gs.len() ==> (#[trigger] gs[g]).len() > 0 && forall|k: int|
            0 <= k < gs[g].len() ==> gs[g][k] == group_start(gs, g) + k
}

proof fn lemma_start_push(gs: Seq<Seq<usize>>, x: Seq<usize>, g: int)
    requires
        0 <= g <= gs.len(),
    ensures
        group_start(gs.push(x), g) == group_start(gs, g),
    decreases g,
{
    if g > 0 {
        lemma_start_push(gs, x, g - 1);
    }
}

proof fn lemma_start_mono(gs: Seq<Seq<usize>>, g1: int, g2: int)
    requires
        0 <= g1 <= g2 <= gs.len(),
    ensures
        group_start(gs, g1) <= group_start(gs, g2),
    decreases g2 - g1,
{
    if g1 < g2 {
        lemma_start_mono(gs, g1, g2 - 1);
    }
}

/// Each sender lies in the run of exactly one group.
proof fn lemma_run_unique(gs: Seq<Seq<usize>>, g1: int, g2: int, k: int)
    requires
        0 <= g1 < gs.len(),
        0 <= g2 < gs.len(),
        group_start(gs, g1) <= k < group_start(gs, g1 + 1),
        group_start(gs, g2) <= k < group_start(gs, g2 + 1),
    ensures
        g1 == g2,
{
    if g1 < g2 {
        lemma_start_mono(gs, g1 + 1, g2);
    } else if g2 < g1 {
        lemma_start_mono(gs, g2 + 1, g1);
    }
}

proof fn lemma_unique_blocks_permuted(s: Seq<ReceiverEndpoint>, t: Seq<ReceiverEndpoint>)
    requires
        s.to_multiset() == t.to_multiset(),
        unique_blocks(t),
    ensures
        unique_blocks(s),
{
    broadcast use vstd::seq_lib::group_to_multiset_ensures;

    assert(t.no_duplicates()) by {
        assert forall|i: int, j: int| 0 <= i < t.len() && 0 <= j < t.len() && i != j implies t[i]
            != t[j] by {
            assert(t[i].coord.block_id != t[j].coord.block_id);
        }
    }
    t.lemma_multiset_has_no_duplicates();
    s.lemma_multiset_has_no_duplicates_conv();
    assert forall|i: int, j: int| 0 <= i < s.len() && 0 <= j < s.len() && i != j implies #[trigger] s[i].coord.block_id
        != #[trigger] s[j].coord.block_id by {
        assert(s.contains(s[i]));
        assert(s.contains(s[j]));
        assert(s.to_multiset().count(s[i]) > 0);
        assert(t.to_multiset().count(s[i]) > 0);
        assert(s.to_multiset().count(s[j]) > 0);
        assert(t.to_multiset().count(s[j]) > 0);
        assert(t.contains(s[i]));
        assert(t.contains(s[j]));
        let p = choose|p: int| 0 <= p < t.len() && t[p] == s[i];
        let q = choose|q: int| 0 <= q < t.len() && t[q] == s[j];
        assert(s[i] != s[j]);
    }
}


/// Under every strategy but `All`, a group holds exactly the senders that
/// lead to one downstream block, and groups go to distinct blocks (in
/// ascending order of block id); under `All` each sender is its own group;
/// under `OnlyOne` every group has a single sender.
pub open spec fn grouped(eps: Seq<ReceiverEndpoint>, gs: Seq<Seq<usize>>, strategy: NextStrategy) -> bool {
    if strategy is All {
        forall|g: int| 0 <= g < gs.len() ==> (#[trigger] gs[g]).len() == 1
    } else {
        &&& forall|g: int, k: int|
            0 <= g < gs.len() && 0 <= k < gs[g].len() ==> eps[#[trigger] gs[g][k] as int].coord.block_id
                == eps[gs[g][0] as int].coord.block_id
        &&& forall|g1: int, g2: int|
            0 <= g1 < g2 < gs.len() ==> eps[(#[trigger] gs[g1])[0] as int].coord.block_id
                < eps[(#[trigger] gs[g2])[0] as int].coord.block_id
        &&& strategy is OnlyOne ==> forall|g: int| 0 <= g < gs.len() ==> (#[trigger] gs[g]).len() == 1
    }
}

/// The endpoints are in ascending order of their sort key.
pub open spec fn sorted_endpoints(eps: Seq<ReceiverEndpoint>) -> bool {
    forall|i: int, j: int|
        0 <= i < j < eps.len() ==> key_le(
            #[trigger] eps[i].spec_sort_key(),
            #[trigger] eps[j].spec_sort_key(),
        )
}

pub open spec fn group_view(bs: Seq<BlockSenders>) -> Seq<Seq<usize>> {
    bs.map_values(|b: BlockSenders| b.indexes@)
}

fn contains_block(v: &Vec<BlockId>, b: BlockId) -> (r: bool)
    ensures
        r == v@.contains(b),
{
    let mut i: usize = 0;
    while i < v.len()
        invariant
            i <= v.len(),
            forall|k: int| 0 <= k < i ==> v@[k] != b,
        decreases v.len() - i,
    {
        if v[i] == b {
            return true;
        }
        i = i + 1;
    }
    false
}

/// An edge of the block graph as `End` describes it.
#[derive(Clone, Copy, Debug, PartialEq, Eq, Structural)]
pub struct Connection {
    pub to_block_id: BlockId,
    pub strategy: NextStrategy,
}

/// A batch for the channel of one sender of an `End`.
pub struct Delivery<T> {
    /// Index of the sender, in the order of `End::endpoints`.
    pub sender: usize,
    /// Where the channel leads.
    pub endpoint: ReceiverEndpoint,
    /// The elements, oldest first.
    pub batch: Vec<StreamElement<T>>,
}

/// Everything that the deliveries hand to sender `j`'s channel, in order.
pub open spec fn sent_by<T>(out: Seq<Delivery<T>>, j: int) -> Seq<StreamElement<T>>
    decreases out.len(),
{
    if out.len() == 0 {
        Seq::empty()
    } else {
        sent_by(out.drop_last(), j) + if out.last().sender as int == j {
            out.last().batch@
        } else {
            Seq::empty()
        }
    }
}

/// Number of `Terminate` markers in a sequence.
pub open spec fn count_terminates<T>(s: Seq<StreamElement<T>>) -> nat
    decreases s.len(),
{
    if s.len() == 0 {
        0
    } else {
        count_terminates(s.drop_last()) + if s.last() is Terminate {
            1nat
        } else {
            0nat
        }
    }
}

/// The sender that group `g` picks for a record whose routing index is `index`.
pub open spec fn chosen(gs: Seq<Seq<usize>>, g: int, index: u64) -> int {
    gs[g][(index as int) % (gs[g].len() as int)] as int
}

/// Whether `End` hands `msg` to sender `j`: a record to the sender that
/// each group picks, a watermark or a restart to every sender, `Terminate`
/// to every sender but those of the feedback destination, `FlushBatch` to
/// none.
pub open spec fn routed<T>(
    msg: StreamElement<T>,
    index: u64,
    eps: Seq<ReceiverEndpoint>,
    gs: Seq<Seq<usize>>,
    feedback: Option<BlockId>,
    j: int,
) -> bool {
    match msg {
        StreamElement::Item(_) | StreamElement::Timestamped(_, _) => exists|g: int|
            0 <= g < gs.len() && #[trigger] chosen(gs, g, index) == j,
        StreamElement::Watermark(_) | StreamElement::FlushAndRestart => true,
        StreamElement::Terminate => feedback != Some(eps[j].coord.block_id),
        StreamElement::FlushBatch => false,
    }
}

/// The part of `msg` that sender `j` receives: the element itself or nothing.
pub open spec fn share<T>(
    msg: StreamElement<T>,
    index: u64,
    eps: Seq<ReceiverEndpoint>,
    gs: Seq<Seq<usize>>,
    feedback: Option<BlockId>,
    j: int,
) -> Seq<StreamElement<T>> {
    if routed(msg, index, eps, gs, feedback, j) {
        seq![msg]
    } else {
        Seq::empty()
    }
}

/// Whether a sender hands a batch to its channel when `msg` arrives: on a
/// flushing element whenever it has something to send; otherwise only when
/// it takes the element and its batch is then full or its deadline passed.
pub open spec fn sends<T>(
    msg: StreamElement<T>,
    takes: bool,
    pending_len: nat,
    mode: BatchMode,
    last_send: u64,
    now: u64,
) -> bool {
    if msg.is_flushing() {
        pending_len > 0 || takes
    } else {
        takes && (pending_len + 1 >= mode.spec_capacity() || crate::batcher::deadline_passed(mode, last_send, now))
    }
}

/// Every delivery names a sender that exists, and that sender's endpoint.
pub open spec fn deliveries_match<T>(out: Seq<Delivery<T>>, eps: Seq<ReceiverEndpoint>, bound: int) -> bool {
    forall|m: int|
        0 <= m < out.len() ==> (#[trigger] out[m]).sender < bound && out[m].endpoint
            == eps[out[m].sender as int]
}

proof fn lemma_count_no_terminate<T>(s: Seq<StreamElement<T>>)
    requires
        forall|k: int| 0 <= k < s.len() ==> !(#[trigger] s[k] is Terminate),
    ensures
        count_terminates(s) == 0,
    decreases s.len(),
{
    if s.len() > 0 {
        lemma_count_no_terminate(s.drop_last());
    }
}

/// Appends the batch, if any, as a delivery of sender `sender`.
fn deliver<T>(out: &mut Vec<Delivery<T>>, sender: usize, endpoint: ReceiverEndpoint, batch: Option<Vec<StreamElement<T>>>)
    ensures
        sent_by(final(out)@, sender as int) == sent_by(old(out)@, sender as int) + sent(batch),
        forall|j: int| j != sender as int ==> #[trigger] sent_by(final(out)@, j) == sent_by(old(out)@, j),
        forall|m: int| 0 <= m < old(out)@.len() ==> #[trigger] final(out)@[m] == old(out)@[m],
        forall|m: int|
            old(out)@.len() <= m < final(out)@.len() ==> (#[trigger] final(out)@[m]).sender == sender
                && final(out)@[m].endpoint == endpoint,
{
    match batch {
        Some(b) => {
            let ghost bv = b@;
            out.push(Delivery { sender, endpoint, batch: b });
            proof {
                assert(final(out)@.drop_last() =~= old(out)@);
                assert forall|j: int| #[trigger] sent_by(final(out)@, j) == sent_by(old(out)@, j) + if j == sender as int {
                    bv
                } else {
                    Seq::empty()
                } by {
                    assert(final(out)@.drop_last() =~= old(out)@);
                    if j != sender as int {
                        assert(sent_by(old(out)@, j) + Seq::<StreamElement<T>>::empty() =~= sent_by(old(out)@, j));
                    }
                }
            }
        },
        None => {
            proof {
                assert forall|j: int| #[trigger] sent_by(final(out)@, j) == sent_by(old(out)@, j) + if j == sender as int {
                    sent::<T>(None)
                } else {
                    Seq::empty()
                } by {
                    assert(sent_by(old(out)@, j) + Seq::<StreamElement<T>>::empty() =~= sent_by(old(out)@, j));
                }
            }
        },
    }
}

/// A record reaches exactly one sender of each group: the one that its
/// routing index picks, modulo the group's size. Two records with the same
/// index (under `GroupBy`, the same key fingerprint) reach the same senders.
pub proof fn record_reaches_one_sender_per_group<T>(
    x: StreamElement<T>,
    index: u64,
    eps: Seq<ReceiverEndpoint>,
    gs: Seq<Seq<usize>>,
    feedback: Option<BlockId>,
    n: int,
    g: int,
    k: int,
)
    requires
        runs_cover(gs, n),
        x.is_payload(),
        0 <= g < gs.len(),
        0 <= k < gs[g].len(),
    ensures
        routed(x, index, eps, gs, feedback, gs[g][k] as int) <==> gs[g][k] as int == chosen(gs, g, index),
        0 <= chosen(gs, g, index) < n,
{
    let j = gs[g][k] as int;
    lemma_start_mono(gs, g + 1, gs.len() as int);
    assert(group_start(gs, g + 1) == group_start(gs, g) + gs[g].len());
    let p = (index as int) % (gs[g].len() as int);
    assert(gs[g][p] == group_start(gs, g) + p);
    lemma_start_mono(gs, 0, g);
    if routed(x, index, eps, gs, feedback, j) && j != chosen(gs, g, index) {
        let g2 = choose|g2: int| 0 <= g2 < gs.len() && #[trigger] chosen(gs, g2, index) == j;
        let p2 = (index as int) % (gs[g2].len() as int);
        assert(gs[g2][p2] == group_start(gs, g2) + p2);
        lemma_start_mono(gs, g2 + 1, gs.len() as int);
        assert(group_start(gs, g2 + 1) == group_start(gs, g2) + gs[g2].len());
        lemma_run_unique(gs, g2, g, j);
    }
    if j == chosen(gs, g, index) {
        assert(chosen(gs, g, index) == j);
    }
}

/// Two orderings of the same endpoints that are both ascending are equal:
/// replicas of one block that are offered the same destinations, in any
/// order, number their senders alike.
pub proof fn sorted_endpoints_unique(s: Seq<ReceiverEndpoint>, t: Seq<ReceiverEndpoint>)
    requires
        sorted_endpoints(s),
        sorted_endpoints(t),
        s.to_multiset() == t.to_multiset(),
    ensures
        s == t,
    decreases s.len(),
{
    broadcast use vstd::seq_lib::group_to_multiset_ensures;

    s.to_multiset_ensures();
    t.to_multiset_ensures();
    if s.len() == 0 {
        assert(t.len() == 0);
        assert(s =~= t);
    } else {
        let x = s.last();
        let y = t.last();
        assert(s.to_multiset().count(x) > 0);
        assert(t.contains(x));
        assert(t.to_multiset().count(y) > 0);
        assert(s.contains(y));
        let i = choose|i: int| 0 <= i < t.len() && t[i] == x;
        let k = choose|k: int| 0 <= k < s.len() && s[k] == y;
        if i < t.len() - 1 {
            assert(key_le(t[i].spec_sort_key(), t[t.len() - 1].spec_sort_key()));
        }
        if k < s.len() - 1 {
            assert(key_le(s[k].spec_sort_key(), s[s.len() - 1].spec_sort_key()));
        }
        assert(x.spec_sort_key() == y.spec_sort_key());
        assert(x.coord == y.coord);
        assert(x == y);
        let s2 = s.drop_last();
        let t2 = t.drop_last();
        assert(s2.push(x) =~= s);
        assert(t2.push(y) =~= t);
        assert(s2.to_multiset() =~= t2.to_multiset()) by {
            broadcast use vstd::multiset::group_multiset_axioms;

            assert(s.to_multiset() == s2.to_multiset().insert(x));
            assert(t.to_multiset() == t2.to_multiset().insert(x));
            assert forall|e: ReceiverEndpoint| s2.to_multiset().count(e) == t2.to_multiset().count(e) by {
                assert(s2.to_multiset().insert(x).count(e) == t2.to_multiset().insert(x).count(e));
            }
        }
        sorted_endpoints_unique(s2, t2);
        assert(s =~= t);
    }
}

proof fn lemma_groups_agree(eps: Seq<ReceiverEndpoint>, gs: Seq<Seq<usize>>, hs: Seq<Seq<usize>>, strategy: NextStrategy, g: int)
    requires
        runs_cover(gs, eps.len() as int),
        runs_cover(hs, eps.len() as int),
        grouped(eps, gs, strategy),
        grouped(eps, hs, strategy),
        0 <= g <= gs.len(),
        g <= hs.len(),
    ensures
        group_start(gs, g) == group_start(hs, g),
        forall|h: int| 0 <= h < g ==> gs[h] == hs[h],
    decreases g,
{
    if g > 0 {
        let f = g - 1;
        lemma_groups_agree(eps, gs, hs, strategy, f);
        let p = group_start(gs, f);
        let a = gs[f].len() as int;
        let b = hs[f].len() as int;
        lemma_start_mono(gs, f + 1, gs.len() as int);
        lemma_start_mono(hs, f + 1, hs.len() as int);
        assert(group_start(gs, f + 1) == p + a);
        assert(group_start(hs, f + 1) == p + b);
        if a < b {
            let q = p + a;
            assert(hs[f][a] == q);
            if !(strategy is All) {
                assert(eps[hs[f][a] as int].coord.block_id == eps[hs[f][0] as int].coord.block_id);
                assert(hs[f][0] == p);
                assert(gs[f][0] == p);
                if f + 1 < gs.len() {
                    assert(gs[f + 1][0] == group_start(gs, f + 1));
                    assert(eps[gs[f][0] as int].coord.block_id < eps[gs[f + 1][0] as int].coord.block_id);
                } else {
                    assert(group_start(gs, gs.len() as int) == eps.len());
                }
            }
        } else if b < a {
            let q = p + b;
            assert(gs[f][b] == q);
            if !(strategy is All) {
                assert(eps[gs[f][b] as int].coord.block_id == eps[gs[f][0] as int].coord.block_id);
                assert(hs[f][0] == p);
                assert(gs[f][0] == p);
                if f + 1 < hs.len() {
                    assert(hs[f + 1][0] == group_start(hs, f + 1));
                    assert(eps[hs[f][0] as int].coord.block_id < eps[hs[f + 1][0] as int].coord.block_id);
                } else {
                    assert(group_start(hs, hs.len() as int) == eps.len());
                }
            }
        }
        assert(a == b);
        assert(gs[f] =~= hs[f]);
    }
}

/// Replicas of one block that are offered the same destinations, in any
/// order, end setup with the same senders in the same order and the same
/// groups: a routing index picks the same destination on every replica.
pub proof fn setup_agrees_across_replicas(
    e1: Seq<ReceiverEndpoint>,
    g1: Seq<Seq<usize>>,
    e2: Seq<ReceiverEndpoint>,
    g2: Seq<Seq<usize>>,
    strategy: NextStrategy,
)
    requires
        e1.to_multiset() == e2.to_multiset(),
        sorted_endpoints(e1),
        sorted_endpoints(e2),
        runs_cover(g1, e1.len() as int),
        runs_cover(g2, e2.len() as int),
        grouped(e1, g1, strategy),
        grouped(e2, g2, strategy),
    ensures
        e1 == e2,
        g1 == g2,
{
    sorted_endpoints_unique(e1, e2);
    if g1.len() < g2.len() {
        lemma_groups_agree(e1, g1, g2, strategy, g1.len() as int);
        lemma_start_mono(g2, g1.len() as int + 1, g2.len() as int);
        assert(g2[g1.len() as int].len() > 0);
    } else if g2.len() < g1.len() {
        lemma_groups_agree(e1, g1, g2, strategy, g2.len() as int);
        lemma_start_mono(g1, g2.len() as int + 1, g1.len() as int);
        assert(g1[g2.len() as int].len() > 0);
    } else {
        lemma_groups_agree(e1, g1, g2, strategy, g1.len() as int);
        assert(g1 =~= g2);
    }
}

/// The shuffle at the tail of a block.
pub struct End<T> {
    coord: Option<Coord>,
    next_strategy: NextStrategy,
    batch_mode: BatchMode,
    block_senders: Vec<BlockSenders>,
    senders: Vec<(ReceiverEndpoint, Batcher<T>)>,
    feedback_id: Option<BlockId>,
    ignore_block_ids: Vec<BlockId>,
}

impl<T> End<T> {
    /// The replica this operator runs on, once set up.
    pub closed spec fn spec_coord(&self) -> Option<Coord> {
        self.coord
    }

    pub closed spec fn strategy(&self) -> NextStrategy {
        self.next_strategy
    }

    pub closed spec fn mode(&self) -> BatchMode {
        self.batch_mode
    }

    /// The block that this `End` feeds back into, if any.
    pub closed spec fn feedback(&self) -> Option<BlockId> {
        self.feedback_id
    }

    /// Downstream blocks this `End` never sends to.
    pub closed spec fn ignored(&self) -> Seq<BlockId> {
        self.ignore_block_ids@
    }

    /// The destination of each sender, by sender index.
    pub closed spec fn endpoints(&self) -> Seq<ReceiverEndpoint> {
        self.senders@.map_values(|s: (ReceiverEndpoint, Batcher<T>)| s.0)
    }

    /// What sender `j` holds, not yet handed to its channel.
    pub closed spec fn pending(&self, j: int) -> Seq<StreamElement<T>> {
        self.senders@[j].1.pending()
    }

    /// When sender `j` last handed a batch to its channel.
    pub closed spec fn last_send(&self, j: int) -> u64 {
        self.senders@[j].1.spec_last_send()
    }

    /// The sender groups, as lists of sender indexes.
    pub closed spec fn groups(&self) -> Seq<Seq<usize>> {
        group_view(self.block_senders@)
    }

    pub closed spec fn wf(&self) -> bool {
        &&& self.senders_wf()
        &&& runs_cover(self.groups(), self.senders@.len() as int)
    }

    /// Every batcher is well formed, uses the mode of this `End`, and holds
    /// no `Terminate`.
    closed spec fn senders_wf(&self) -> bool {
        &&& self.batch_mode.valid()
        &&& forall|j: int|
            0 <= j < self.senders@.len() ==> {
                &&& (#[trigger] self.senders@[j]).1.wf()
                &&& self.senders@[j].1.spec_mode() == self.batch_mode
                &&& forall|k: int|
                    0 <= k < self.senders@[j].1.pending().len() ==> !(
                    #[trigger] self.senders@[j].1.pending()[k] is Terminate)
            }
    }

    pub fn new(next_strategy: NextStrategy, batch_mode: BatchMode) -> (r: End<T>)
        requires
            batch_mode.valid(),
        ensures
            r.wf(),
            r.spec_coord() is None,
            r.strategy() == next_strategy,
            r.mode() == batch_mode,
            r.feedback() is None,
            r.ignored() == Seq::<BlockId>::empty(),
            r.endpoints().len() == 0,
            r.groups().len() == 0,
    {
        let r = End {
            coord: None,
            next_strategy,
            batch_mode,
            block_senders: Vec::new(),
            senders: Vec::new(),
            feedback_id: None,
            ignore_block_ids: Vec::new(),
        };
        proof {
            assert(r.groups() =~= Seq::<Seq<usize>>::empty());
        }
        r
    }

    /// Marks this `End` as the end of a feedback loop into `block_id`: it will
    /// not send `Terminate` there, since that block has already left.
    pub fn mark_feedback(&mut self, block_id: BlockId)
        ensures
            final(self).feedback() == Some(block_id),
            final(self).spec_coord() == old(self).spec_coord(),
            final(self).strategy() == old(self).strategy(),
            final(self).mode() == old(self).mode(),
            final(self).ignored() == old(self).ignored(),
            final(self).endpoints() == old(self).endpoints(),
            final(self).groups() == old(self).groups(),
            forall|j: int| #[trigger] final(self).pending(j) == old(self).pending(j),
            forall|j: int| #[trigger] final(self).last_send(j) == old(self).last_send(j),
            old(self).wf() ==> final(self).wf(),
    {
        self.feedback_id = Some(block_id);
    }

    /// Cuts the edge towards `block_id`: setup will drop its senders.
    pub fn ignore_destination(&mut self, block_id: BlockId)
        ensures
            final(self).ignored() == old(self).ignored().push(block_id),
            final(self).feedback() == old(self).feedback(),
            final(self).spec_coord() == old(self).spec_coord(),
            final(self).strategy() == old(self).strategy(),
            final(self).mode() == old(self).mode(),
            final(self).endpoints() == old(self).endpoints(),
            final(self).groups() == old(self).groups(),
            forall|j: int| #[trigger] final(self).pending(j) == old(self).pending(j),
            forall|j: int| #[trigger] final(self).last_send(j) == old(self).last_send(j),
            old(self).wf() ==> final(self).wf(),
    {
        self.ignore_block_ids.push(block_id);
    }

    /// The destination of each sender, in sender order.
    pub fn destinations(&self) -> (r: Vec<ReceiverEndpoint>)
        ensures
            r@ == self.endpoints(),
    {
        let mut r: Vec<ReceiverEndpoint> = Vec::new();
        let mut j: usize = 0;
        while j < self.senders.len()
            invariant
                j <= self.senders@.len(),
                r@ == self.endpoints().take(j as int),
            decreases self.senders@.len() - j,
        {
            r.push(self.senders[j].0);
            proof {
                assert(r@ =~= self.endpoints().take(j + 1));
            }
            j = j + 1;
        }
        proof {
            assert(self.endpoints().take(j as int) =~= self.endpoints());
        }
        r
    }

    /// A copy for another replica, made before setup: the same routing
    /// settings, and no senders yet.
    pub fn duplicate(&self) -> (r: End<T>)
        requires
            self.wf(),
        ensures
            r.wf(),
            r.spec_coord() == self.spec_coord(),
            r.strategy() == self.strategy(),
            r.mode() == self.mode(),
            r.feedback() == self.feedback(),
            r.ignored() == self.ignored(),
            r.endpoints().len() == 0,
            r.groups().len() == 0,
    {
        let mut ignored: Vec<BlockId> = Vec::new();
        let mut i: usize = 0;
        while i < self.ignore_block_ids.len()
            invariant
                i <= self.ignore_block_ids@.len(),
                ignored@ == self.ignore_block_ids@.take(i as int),
            decreases self.ignore_block_ids@.len() - i,
        {
            ignored.push(self.ignore_block_ids[i]);
            proof {
                assert(ignored@ =~= self.ignore_block_ids@.take(i + 1));
            }
            i = i + 1;
        }
        proof {
            assert(self.ignore_block_ids@.take(i as int) =~= self.ignore_block_ids@);
        }
        let r = End {
            coord: self.coord,
            next_strategy: self.next_strategy,
            batch_mode: self.batch_mode,
            block_senders: Vec::new(),
            senders: Vec::new(),
            feedback_id: self.feedback_id,
            ignore_block_ids: ignored,
        };
        proof {
            assert(r.groups() =~= Seq::<Seq<usize>>::empty());
        }
        r
    }

    /// One connection per sender group: the block its first sender leads to,
    /// with the routing strategy.
    pub fn structure(&self) -> (r: Vec<Connection>)
        requires
            self.wf(),
        ensures
            r@.len() == self.groups().len(),
            forall|g: int|
                0 <= g < r@.len() ==> (#[trigger] r@[g]).to_block_id == self.endpoints()[self.groups()[g][0] as int].coord.block_id
                    && r@[g].strategy == self.strategy(),
    {
        let mut r: Vec<Connection> = Vec::new();
        let mut g: usize = 0;
        while g < self.block_senders.len()
            invariant
                g <= self.block_senders@.len(),
                self.wf(),
                r@.len() == g,
                forall|h: int|
                    0 <= h < g ==> (#[trigger] r@[h]).to_block_id == self.endpoints()[self.groups()[h][0] as int].coord.block_id
                        && r@[h].strategy == self.strategy(),
            decreases self.block_senders@.len() - g,
        {
            proof {
                let gs = self.groups();
                assert(gs[g as int] == self.block_senders@[g as int].indexes@);
                assert(gs[g as int].len() > 0);
                lemma_start_mono(gs, g as int + 1, gs.len() as int);
                assert(gs[g as int][0] == group_start(gs, g as int));
            }
            let first = self.block_senders[g].indexes[0];
            r.push(Connection { to_block_id: self.senders[first].0.coord.block_id, strategy: self.next_strategy });
            g = g + 1;
        }
        r
    }

    /// Describes the chain that ends here, given the description of the
    /// operators before it.
    pub fn to_string(&self, prev: &str) -> (r: String)
        ensures
            r@ == prev@ + match self.strategy() {
                NextStrategy::Random => " -> Shuffle"@,
                NextStrategy::OnlyOne => " -> OnlyOne"@,
                _ => Seq::<char>::empty(),
            },
    {
        let mut r = String::from_str(prev);
        match self.next_strategy {
            NextStrategy::Random => r.append(" -> Shuffle"),
            NextStrategy::OnlyOne => r.append(" -> OnlyOne"),
            _ => {
                proof {
                    assert(r@ + Seq::<char>::empty() =~= r@);
                }
            },
        }
        r
    }

    /// Groups the (sorted) senders by downstream block, or one group per
    /// sender under `All`.
    #[verifier::rlimit(40)]
    fn setup_senders(&mut self)
        requires
            old(self).senders_wf(),
            sorted_endpoints(old(self).endpoints()),
            old(self).strategy() is OnlyOne ==> unique_blocks(old(self).endpoints()),
        ensures
            final(self).wf(),
            final(self).senders@ == old(self).senders@,
            final(self).coord == old(self).coord,
            final(self).next_strategy == old(self).next_strategy,
            final(self).batch_mode == old(self).batch_mode,
            final(self).feedback_id == old(self).feedback_id,
            final(self).ignore_block_ids@ == old(self).ignore_block_ids@,
            grouped(final(self).endpoints(), final(self).groups(), final(self).strategy()),
    {
        let n = self.senders.len();
        let ghost eps = self.endpoints();
        let mut groups: Vec<BlockSenders> = Vec::new();
        if let NextStrategy::All = self.next_strategy {
            let mut i: usize = 0;
            while i < n
                invariant
                    i <= n,
                    n == self.senders@.len(),
                    group_view(groups@).len() == i,
                    forall|g: int| 0 <= g <= i ==> group_start(group_view(groups@), g) == g,
                    forall|g: int| 0 <= g < i ==> #[trigger] group_view(groups@)[g] == seq![g as usize],
                decreases n - i,
            {
                let ghost old_gs = group_view(groups@);
                let mut single: Vec<usize> = Vec::new();
                single.push(i);
                let b = BlockSenders::new(single);
                groups.push(b);
                proof {
                    let gs = group_view(groups@);
                    assert(b.indexes@ =~= seq![i]);
                    assert(gs =~= old_gs.push(seq![i]));
                    assert forall|g: int| 0 <= g <= i + 1 implies group_start(gs, g) == g by {
                        if g <= i {
                            lemma_start_push(old_gs, seq![i], g);
                        } else {
                            lemma_start_push(old_gs, seq![i], i as int);
                        }
                    }
                }
                i = i + 1;
            }
        } else {
            let mut current: Vec<usize> = Vec::new();
            let mut cur_bid: BlockId = 0;
            let mut i: usize = 0;
            while i < n
                invariant
                    i <= n,
                    n == self.senders@.len(),
                    eps == self.endpoints(),
                    eps.len() == n,
                    sorted_endpoints(eps),
                    self.next_strategy is OnlyOne ==> unique_blocks(eps),
                    !(self.next_strategy is All),
                    ({
                        let gs = group_view(groups@);
                        let cs = group_start(gs, gs.len() as int);
                        &&& current@.len() == i - cs
                        &&& forall|k: int| 0 <= k < current@.len() ==> current@[k] == cs + k
                        &&& forall|k: int| 0 <= k < current@.len() ==> eps[#[trigger] current@[k] as int].coord.block_id == cur_bid
                        &&& (i > 0 <==> current@.len() > 0)
                        &&& (gs.len() > 0 ==> current@.len() > 0)
                        &&& (self.next_strategy is OnlyOne ==> current@.len() <= 1)
                        &&& forall|g: int|
                            0 <= g < gs.len() ==> (#[trigger] gs[g]).len() > 0 && forall|k: int|
                                0 <= k < gs[g].len() ==> gs[g][k] == group_start(gs, g) + k
                        &&& grouped(eps, gs, self.next_strategy)
                        &&& forall|g: int| 0 <= g < gs.len() ==> eps[(#[trigger] gs[g])[0] as int].coord.block_id < cur_bid
                    }),
                decreases n - i,
            {
                let bid = self.senders[i].0.coord.block_id;
                proof {
                    if i > 0 {
                        let gs = group_view(groups@);
                        let cs = group_start(gs, gs.len() as int);
                        assert(current@[current@.len() - 1] == i - 1);
                        assert(eps[i - 1].coord.block_id == cur_bid);
                        assert(key_le(eps[i - 1].spec_sort_key(), eps[i as int].spec_sort_key()));
                    }
                }
                if current.len() > 0 && cur_bid != bid {
                    let ghost old_gs = group_view(groups@);
                    let ghost cur = current@;
                    let mut full: Vec<usize> = Vec::new();
                    std::mem::swap(&mut full, &mut current);
                    groups.push(BlockSenders::new(full));
                    proof {
                        let gs = group_view(groups@);
                        assert(gs =~= old_gs.push(cur));
                        lemma_start_push(old_gs, cur, old_gs.len() as int);
                        assert forall|g: int| 0 <= g < old_gs.len() implies group_start(gs, g) == group_start(old_gs, g) by {
                            lemma_start_push(old_gs, cur, g);
                        }
                        if self.next_strategy is OnlyOne {
                            assert(cur.len() == 1);
                        }
                    }
                }
                cur_bid = bid;
                current.push(i);
                proof {
                    let gs = group_view(groups@);
                    let cs = group_start(gs, gs.len() as int);
                    if self.next_strategy is OnlyOne && current@.len() > 1 {
                        assert(eps[i as int].coord.block_id == eps[i - 1].coord.block_id);
                        assert(false);
                    }
                }
                i = i + 1;
            }
            if current.len() > 0 {
                let ghost old_gs = group_view(groups@);
                let ghost cur = current@;
                groups.push(BlockSenders::new(current));
                proof {
                    let gs = group_view(groups@);
                    assert(gs =~= old_gs.push(cur));
                    lemma_start_push(old_gs, cur, old_gs.len() as int);
                    assert forall|g: int| 0 <= g < old_gs.len() implies group_start(gs, g) == group_start(old_gs, g) by {
                        lemma_start_push(old_gs, cur, g);
                    }
                }
            }
        }
        self.block_senders = groups;
    }

    /// Takes the senders that the network offers this replica: drops those
    /// towards ignored blocks, orders the rest by destination, gives each an
    /// empty batcher and groups them by downstream block.
    pub fn setup(&mut self, coord: Coord, senders: Vec<ReceiverEndpoint>, now: u64)
        requires
            old(self).wf(),
            old(self).strategy() is OnlyOne ==> unique_blocks(kept(senders@, old(self).ignored())),
        ensures
            final(self).wf(),
            final(self).spec_coord() == Some(coord),
            final(self).strategy() == old(self).strategy(),
            final(self).mode() == old(self).mode(),
            final(self).feedback() == old(self).feedback(),
            final(self).ignored() == old(self).ignored(),
            final(self).endpoints().to_multiset() == kept(senders@, old(self).ignored()).to_multiset(),
            sorted_endpoints(final(self).endpoints()),
            forall|j: int|
                0 <= j < final(self).endpoints().len() ==> #[trigger] final(self).pending(j)
                    == Seq::<StreamElement<T>>::empty(),
            forall|j: int| 0 <= j < final(self).endpoints().len() ==> #[trigger] final(self).last_send(j) == now,
            runs_cover(final(self).groups(), final(self).endpoints().len() as int),
            grouped(final(self).endpoints(), final(self).groups(), final(self).strategy()),
    {
        let ghost ign = self.ignore_block_ids@;
        let mut chosen: Vec<ReceiverEndpoint> = Vec::new();
        let mut i: usize = 0;
        while i < senders.len()
            invariant
                i <= senders.len(),
                ign == self.ignore_block_ids@,
                chosen@ == kept(senders@.take(i as int), ign),
            decreases senders.len() - i,
        {
            proof {
                assert(senders@.take(i + 1).drop_last() =~= senders@.take(i as int));
            }
            let e = senders[i];
            if !contains_block(&self.ignore_block_ids, e.coord.block_id) {
                chosen.push(e);
            }
            i = i + 1;
        }
        proof {
            assert(senders@.take(senders@.len() as int) =~= senders@);
        }
        let ghost before_sort = chosen@;
        sort_endpoints(&mut chosen);
        proof {
            if self.next_strategy is OnlyOne {
                lemma_unique_blocks_permuted(chosen@, before_sort);
            }
        }
        let mut with_batchers: Vec<(ReceiverEndpoint, Batcher<T>)> = Vec::new();
        let mut k: usize = 0;
        while k < chosen.len()
            invariant
                k <= chosen.len(),
                self.batch_mode.valid(),
                with_batchers@.len() == k,
                forall|j: int|
                    0 <= j < k ==> {
                        &&& (#[trigger] with_batchers@[j]).0 == chosen@[j]
                        &&& with_batchers@[j].1.wf()
                        &&& with_batchers@[j].1.spec_mode() == self.batch_mode
                        &&& with_batchers@[j].1.pending() == Seq::<StreamElement<T>>::empty()
                        &&& with_batchers@[j].1.spec_last_send() == now
                    },
            decreases chosen.len() - k,
        {
            with_batchers.push((chosen[k], Batcher::new(self.batch_mode, now)));
            k = k + 1;
        }
        self.senders = with_batchers;
        self.block_senders = Vec::new();
        proof {
            assert(self.endpoints() =~= chosen@);
            assert(self.groups() =~= Seq::<Seq<usize>>::empty());
        }
        self.setup_senders();
        self.coord = Some(coord);
    }
}


impl<T: Data> End<T> {
    /// Hands a control element to every sender it is routed to, then
    /// flushes every sender if the element asks for it.
    #[verifier::rlimit(60)]
    #[verifier::spinoff_prover]
    fn broadcast(&mut self, message: &StreamElement<T>, now: u64, out: &mut Vec<Delivery<T>>)
        requires
            old(self).wf(),
            !message.is_payload(),
            old(out)@.len() == 0,
        ensures
            final(self).wf(),
            final(self).endpoints() == old(self).endpoints(),
            final(self).groups() == old(self).groups(),
            final(self).coord == old(self).coord,
            final(self).next_strategy == old(self).next_strategy,
            final(self).batch_mode == old(self).batch_mode,
            final(self).feedback_id == old(self).feedback_id,
            final(self).ignore_block_ids@ == old(self).ignore_block_ids@,
            deliveries_match(final(out)@, old(self).endpoints(), old(self).endpoints().len() as int),
            forall|j: int|
                0 <= j < old(self).endpoints().len() ==> old(self).pending(j) + share(
                    *message,
                    0,
                    old(self).endpoints(),
                    old(self).groups(),
                    old(self).feedback(),
                    j,
                ) == sent_by(final(out)@, j) + #[trigger] final(self).pending(j),
            forall|j: int|
                0 <= j < old(self).endpoints().len() && message.is_flushing() ==> #[trigger] final(self).pending(j).len() == 0,
            forall|j: int|
                0 <= j < old(self).endpoints().len() ==> (#[trigger] sent_by(final(out)@, j).len() > 0) == sends(
                    *message,
                    routed(*message, 0, old(self).endpoints(), old(self).groups(), old(self).feedback(), j),
                    old(self).pending(j).len(),
                    old(self).mode(),
                    old(self).last_send(j),
                    now,
                ),
    {
        let n = self.senders.len();
        let ghost eps = self.endpoints();
        let ghost gs = self.groups();
        let ghost pre = Seq::new(n as nat, |k: int| self.pending(k));
        let ghost pre_last = Seq::new(n as nat, |k: int| self.last_send(k));
        let flushing = match message {
            StreamElement::FlushBatch | StreamElement::FlushAndRestart | StreamElement::Terminate => true,
            _ => false,
        };
        let mut j: usize = 0;
        while j < n
            invariant
                j <= n,
                n == self.senders@.len(),
                n == eps.len(),
                !message.is_payload(),
                flushing == message.is_flushing(),
                self.senders_wf(),
                eps == self.endpoints(),
                gs == self.groups(),
                runs_cover(gs, n as int),
                self.feedback_id == old(self).feedback_id,
                self.coord == old(self).coord,
                self.next_strategy == old(self).next_strategy,
                self.batch_mode == old(self).batch_mode,
                self.ignore_block_ids@ == old(self).ignore_block_ids@,
                deliveries_match(out@, eps, j as int),
                forall|k: int| 0 <= k < n ==> pre[k] == old(self).pending(k),
                forall|k: int|
                    0 <= k < j ==> pre[k] + share(*message, 0, eps, gs, self.feedback_id, k)
                        == sent_by(out@, k) + #[trigger] self.pending(k),
                forall|k: int| 0 <= k < j && flushing ==> #[trigger] self.pending(k).len() == 0,
                forall|k: int|
                    j <= k < n ==> #[trigger] self.pending(k) == pre[k] && sent_by(out@, k)
                        == Seq::<StreamElement<T>>::empty() && self.last_send(k) == pre_last[k],
                forall|k: int| 0 <= k < n ==> pre_last[k] == old(self).last_send(k),
                forall|k: int|
                    0 <= k < j ==> (#[trigger] sent_by(out@, k).len() > 0) == sends(
                        *message,
                        routed(*message, 0, eps, gs, self.feedback_id, k),
                        pre[k].len(),
                        self.batch_mode,
                        pre_last[k],
                        now,
                    ),
            decreases n - j,
        {
            let endpoint = self.senders[j].0;
            let to_this = match message {
                StreamElement::Terminate => match self.feedback_id {
                    Some(f) => f != endpoint.coord.block_id,
                    None => true,
                },
                StreamElement::FlushBatch => false,
                _ => true,
            };
            let ghost out0 = out@;
            let ghost pend0 = self.pending(j as int);
            let ghost s0 = self.senders@;
            let ghost e0: End<T> = *self;
            proof {
                assert(to_this == routed(*message, 0, eps, gs, self.feedback_id, j as int));
                assert(self.senders@[j as int].1.wf());
            }
            let ghost l0 = self.last_send(j as int);
            if to_this {
                let b = self.senders[j].1.enqueue(message.duplicate(), now);
                proof {
                    if b is Some {
                        assert(sent(b).len() == pend0.len() + 1);
                    }
                }
                deliver(out, j, endpoint, b);
            }
            let ghost out1 = out@;
            let ghost pend1 = self.pending(j as int);
            if flushing {
                let b = self.senders[j].1.flush(now);
                deliver(out, j, endpoint, b);
                proof {
                    assert(sent_by(out1, j as int) + pend1 == sent_by(out@, j as int) + self.pending(j as int));
                }
            }
            proof {
                assert forall|m: int| 0 <= m < out@.len() implies (#[trigger] out@[m]).sender < j + 1 && out@[m].endpoint
                    == eps[out@[m].sender as int] by {
                    if m < out1.len() {
                        assert(out@[m] == out1[m]);
                        if m < out0.len() {
                            assert(out1[m] == out0[m]);
                        }
                    }
                }
                let pf = self.pending(j as int);
                assert forall|k: int| 0 <= k < n && k != j implies #[trigger] self.pending(k) == e0.pending(k)
                    && sent_by(out@, k) == sent_by(out0, k) && self.last_send(k) == e0.last_send(k) by {
                    assert(self.senders@[k] == s0[k]);
                }
                assert forall|k: int| 0 <= k < j implies pre[k] + share(*message, 0, eps, gs, self.feedback_id, k)
                        == sent_by(out@, k) + #[trigger] self.pending(k) by {
                    assert(e0.pending(k) == self.pending(k));
                }
                assert forall|k: int| j < k < n implies #[trigger] self.pending(k) == pre[k] && sent_by(out@, k)
                        == Seq::<StreamElement<T>>::empty() && self.last_send(k) == pre_last[k] by {
                    assert(e0.pending(k) == self.pending(k));
                    assert(e0.pending(k) == pre[k]);
                    assert(e0.last_send(k) == pre_last[k]);
                    assert(e0.last_send(k) == self.last_send(k));
                }
                assert forall|k: int| 0 <= k < j implies (#[trigger] sent_by(out@, k).len() > 0) == sends(
                        *message,
                        routed(*message, 0, eps, gs, self.feedback_id, k),
                        pre[k].len(),
                        self.batch_mode,
                        pre_last[k],
                        now,
                    ) by {
                    assert(sent_by(out@, k) == sent_by(out0, k));
                }
                assert(pre[j as int] == pend0);
                assert(pre_last[j as int] == l0);
                if flushing {
                    assert(sent_by(out@, j as int) + pf =~= sent_by(out@, j as int));
                    assert((sent_by(out@, j as int).len() > 0) == (pend0.len() > 0 || to_this));
                }
                let sh = share(*message, 0, eps, gs, self.feedback_id, j as int);
                if to_this {
                    assert(pend0 + sh == sent_by(out1, j as int) + pend1);
                } else {
                    assert(sh =~= Seq::<StreamElement<T>>::empty());
                    assert(pend0 + sh =~= pend0);
                    assert(out1 == out0);
                    assert(sent_by(out1, j as int) + pend1 =~= pend1);
                }
                assert(pend0 + sh == sent_by(out@, j as int) + pf);
                if !flushing {
                    assert(to_this);
                    let all = pend0 + share(*message, 0, eps, gs, self.feedback_id, j as int);
                    let sb = sent_by(out1, j as int);
                    assert(all == sb + pend1);
                    assert(pend1 == pf);
                    assert forall|k: int| 0 <= k < pf.len() implies !(#[trigger] pf[k] is Terminate) by {
                        assert(all[sb.len() + k] == pf[k]);
                        if sb.len() + k < pend0.len() {
                            assert(all[sb.len() + k] == pend0[sb.len() + k]);
                        }
                    }
                }
            }
            j = j + 1;
        }
    }

    /// Hands a record to the sender that each group picks by `index`.
    #[verifier::rlimit(100)]
    #[verifier::spinoff_prover]
    fn route(&mut self, message: &StreamElement<T>, index: u64, now: u64, out: &mut Vec<Delivery<T>>)
        requires
            old(self).wf(),
            message.is_payload(),
            old(out)@.len() == 0,
        ensures
            final(self).wf(),
            final(self).endpoints() == old(self).endpoints(),
            final(self).groups() == old(self).groups(),
            final(self).coord == old(self).coord,
            final(self).next_strategy == old(self).next_strategy,
            final(self).batch_mode == old(self).batch_mode,
            final(self).feedback_id == old(self).feedback_id,
            final(self).ignore_block_ids@ == old(self).ignore_block_ids@,
            deliveries_match(final(out)@, old(self).endpoints(), old(self).endpoints().len() as int),
            forall|j: int|
                0 <= j < old(self).endpoints().len() ==> old(self).pending(j) + share(
                    *message,
                    index,
                    old(self).endpoints(),
                    old(self).groups(),
                    old(self).feedback(),
                    j,
                ) == sent_by(final(out)@, j) + #[trigger] final(self).pending(j),
            forall|j: int|
                0 <= j < old(self).endpoints().len() ==> (#[trigger] sent_by(final(out)@, j).len() > 0) == sends(
                    *message,
                    routed(*message, index, old(self).endpoints(), old(self).groups(), old(self).feedback(), j),
                    old(self).pending(j).len(),
                    old(self).mode(),
                    old(self).last_send(j),
                    now,
                ),
    {
        let n = self.senders.len();
        let ng = self.block_senders.len();
        let ghost eps = self.endpoints();
        let ghost gs = self.groups();
        let ghost pre = Seq::new(n as nat, |k: int| self.pending(k));
        let ghost pre_last = Seq::new(n as nat, |k: int| self.last_send(k));
        let mut g: usize = 0;
        while g < ng
            invariant
                g <= ng,
                ng == gs.len(),
                n == self.senders@.len(),
                n == eps.len(),
                message.is_payload(),
                self.senders_wf(),
                eps == self.endpoints(),
                gs == self.groups(),
                runs_cover(gs, n as int),
                self.feedback_id == old(self).feedback_id,
                self.coord == old(self).coord,
                self.next_strategy == old(self).next_strategy,
                self.batch_mode == old(self).batch_mode,
                self.ignore_block_ids@ == old(self).ignore_block_ids@,
                0 <= group_start(gs, g as int) <= n,
                deliveries_match(out@, eps, group_start(gs, g as int)),
                forall|k: int| 0 <= k < n ==> pre[k] == old(self).pending(k),
                forall|k: int|
                    0 <= k < group_start(gs, g as int) ==> pre[k] + share(*message, index, eps, gs, self.feedback_id, k)
                        == sent_by(out@, k) + #[trigger] self.pending(k),
                forall|k: int|
                    group_start(gs, g as int) <= k < n ==> #[trigger] self.pending(k) == pre[k] && sent_by(out@, k)
                        == Seq::<StreamElement<T>>::empty() && self.last_send(k) == pre_last[k],
                forall|k: int| 0 <= k < n ==> pre_last[k] == old(self).last_send(k),
                forall|k: int|
                    0 <= k < group_start(gs, g as int) ==> (#[trigger] sent_by(out@, k).len() > 0) == sends(
                        *message,
                        routed(*message, index, eps, gs, self.feedback_id, k),
                        pre[k].len(),
                        self.batch_mode,
                        pre_last[k],
                        now,
                    ),
            decreases ng - g,
        {
            let ghost st = group_start(gs, g as int);
            proof {
                assert(gs[g as int] == self.block_senders@[g as int].indexes@);
                lemma_start_mono(gs, g as int + 1, ng as int);
                assert(group_start(gs, g as int + 1) == st + gs[g as int].len());
            }
            let len = self.block_senders[g].indexes.len();
            let pos = (index % (len as u64)) as usize;
            let sidx = self.block_senders[g].indexes[pos];
            proof {
                assert(sidx == st + pos);
                assert(sidx == chosen(gs, g as int, index));
            }
            let endpoint = self.senders[sidx].0;
            let ghost out0 = out@;
            let ghost s0 = self.senders@;
            let ghost e0: End<T> = *self;
            let ghost pend0 = self.pending(sidx as int);
            proof {
                assert(self.senders@[sidx as int].1.wf());
            }
            let ghost l0 = self.last_send(sidx as int);
            let b = self.senders[sidx].1.enqueue(message.duplicate(), now);
            proof {
                if b is Some {
                    assert(sent(b).len() == pend0.len() + 1);
                }
            }
            deliver(out, sidx, endpoint, b);
            proof {
                let next = group_start(gs, g as int + 1);
                assert forall|k: int| 0 <= k < n && k != sidx implies #[trigger] self.pending(k) == e0.pending(k)
                    && sent_by(out@, k) == sent_by(out0, k) && self.last_send(k) == e0.last_send(k) by {
                    assert(self.senders@[k] == s0[k]);
                }
                assert(pre[sidx as int] == pend0);
                assert(pre_last[sidx as int] == l0);
                assert(sent_by(out0, sidx as int) + sent(b) =~= sent(b));
                assert forall|k: int| st <= k < next implies routed(*message, index, eps, gs, self.feedback_id, k)
                    == (k == sidx) by {
                    if k == sidx {
                        assert(chosen(gs, g as int, index) == k);
                    } else if routed(*message, index, eps, gs, self.feedback_id, k) {
                        let g2 = choose|g2: int| 0 <= g2 < gs.len() && #[trigger] chosen(gs, g2, index) == k;
                        let p2 = (index as int) % (gs[g2].len() as int);
                        assert(gs[g2][p2] == group_start(gs, g2) + p2);
                        lemma_start_mono(gs, g2 + 1, ng as int);
                        assert(group_start(gs, g2 + 1) == group_start(gs, g2) + gs[g2].len());
                        lemma_run_unique(gs, g2, g as int, k);
                    }
                }
                assert forall|k: int| 0 <= k < next implies pre[k] + share(*message, index, eps, gs, self.feedback_id, k)
                        == sent_by(out@, k) + #[trigger] self.pending(k) by {
                    if k < st {
                        assert(e0.pending(k) == self.pending(k));
                    } else if k == sidx {
                        assert(share(*message, index, eps, gs, self.feedback_id, k) == seq![*message]);
                        assert(sent_by(out0, k) + pend0 =~= pend0);
                    } else {
                        assert(e0.pending(k) == self.pending(k));
                        assert(share(*message, index, eps, gs, self.feedback_id, k) =~= Seq::<StreamElement<T>>::empty());
                        assert(pre[k] + Seq::<StreamElement<T>>::empty() =~= pre[k]);
                        assert(sent_by(out@, k) + self.pending(k) =~= self.pending(k));
                    }
                }
                assert forall|k: int| next <= k < n implies #[trigger] self.pending(k) == pre[k] && sent_by(out@, k)
                        == Seq::<StreamElement<T>>::empty() && self.last_send(k) == pre_last[k] by {
                    assert(k != sidx);
                    assert(sent_by(out@, k) == sent_by(out0, k));
                    assert(e0.pending(k) == self.pending(k));
                    assert(e0.pending(k) == pre[k]);
                    assert(e0.last_send(k) == pre_last[k]);
                    assert(self.last_send(k) == e0.last_send(k));
                }
                assert forall|k: int| 0 <= k < next implies (#[trigger] sent_by(out@, k).len() > 0) == sends(
                        *message,
                        routed(*message, index, eps, gs, self.feedback_id, k),
                        pre[k].len(),
                        self.batch_mode,
                        pre_last[k],
                        now,
                    ) by {
                    if k < st {
                        assert(sent_by(out@, k) == sent_by(out0, k));
                    } else if k != sidx {
                        assert(e0.pending(k) == pre[k]);
                        assert(sent_by(out@, k) == sent_by(out0, k));
                    }
                }
                assert forall|m: int| 0 <= m < out@.len() implies (#[trigger] out@[m]).sender < next && out@[m].endpoint
                    == eps[out@[m].sender as int] by {
                    if m < out0.len() {
                        assert(out@[m] == out0[m]);
                    }
                }
                let pf = self.pending(sidx as int);
                let all = pend0 + seq![*message];
                let sb = sent_by(out@, sidx as int);
                assert(all == sb + pf);
                assert forall|k: int| 0 <= k < pf.len() implies !(#[trigger] pf[k] is Terminate) by {
                    assert(all[sb.len() + k] == pf[k]);
                    if sb.len() + k < pend0.len() {
                        assert(all[sb.len() + k] == pend0[sb.len() + k]);
                    }
                }
            }
            g = g + 1;
        }
    }

    /// Handles one element from upstream: routes a record to one sender per
    /// group, broadcasts a watermark or a restart, broadcasts `Terminate`
    /// (except towards the feedback destination) and then closes every
    /// sender, and flushes every sender on a flushing element. Returns the
    /// element without its payload, and the batches to hand to the channels.
    ///
    /// `index` is the routing index of a record (the key fingerprint under
    /// `GroupBy`, a drawn number under `Random`); `now` is the time in
    /// milliseconds, against which adaptive batchers check their deadline.
    pub fn next(&mut self, message: StreamElement<T>, index: u64, now: u64) -> (r: (StreamElement<()>, Vec<Delivery<T>>))
        requires
            old(self).wf(),
        ensures
            final(self).wf(),
            runs_cover(final(self).groups(), final(self).endpoints().len() as int),
            r.0 == message.spec_take(),
            deliveries_match(r.1@, old(self).endpoints(), old(self).endpoints().len() as int),
            final(self).spec_coord() == old(self).spec_coord(),
            final(self).strategy() == old(self).strategy(),
            final(self).mode() == old(self).mode(),
            final(self).feedback() == old(self).feedback(),
            final(self).ignored() == old(self).ignored(),
            !(message is Terminate) ==> {
                &&& final(self).endpoints() == old(self).endpoints()
                &&& final(self).groups() == old(self).groups()
                &&& forall|j: int|
                    0 <= j < old(self).endpoints().len() ==> old(self).pending(j) + share(
                        message,
                        index,
                        old(self).endpoints(),
                        old(self).groups(),
                        old(self).feedback(),
                        j,
                    ) == sent_by(r.1@, j) + #[trigger] final(self).pending(j)
                &&& forall|j: int|
                    0 <= j < old(self).endpoints().len() && message.is_flushing() ==> #[trigger] final(self).pending(j).len() == 0
            },
            forall|j: int|
                0 <= j < old(self).endpoints().len() ==> (#[trigger] sent_by(r.1@, j).len() > 0) == sends(
                    message,
                    routed(message, index, old(self).endpoints(), old(self).groups(), old(self).feedback(), j),
                    old(self).pending(j).len(),
                    old(self).mode(),
                    old(self).last_send(j),
                    now,
                ),
            message is Terminate ==> {
                &&& final(self).endpoints().len() == 0
                &&& final(self).groups().len() == 0
                &&& forall|j: int|
                    0 <= j < old(self).endpoints().len() ==> #[trigger] sent_by(r.1@, j) == old(self).pending(j)
                        + share(message, index, old(self).endpoints(), old(self).groups(), old(self).feedback(), j)
                &&& forall|j: int|
                    0 <= j < old(self).endpoints().len() ==> #[trigger] count_terminates(sent_by(r.1@, j))
                        == if old(self).feedback() == Some(old(self).endpoints()[j].coord.block_id) {
                        0nat
                    } else {
                        1nat
                    }
            },
    {
        let to_return = message.take();
        let mut out: Vec<Delivery<T>> = Vec::new();
        let ghost e0: End<T> = *self;
        match message {
            StreamElement::Item(_) | StreamElement::Timestamped(_, _) => {
                self.route(&message, index, now, &mut out);
            },
            _ => {
                self.broadcast(&message, now, &mut out);
                proof {
                    assert forall|j: int| 0 <= j < e0.endpoints().len() implies share(message, 0, e0.endpoints(), e0.groups(), e0.feedback(), j)
                        == share(message, index, e0.endpoints(), e0.groups(), e0.feedback(), j) && routed(message, 0, e0.endpoints(), e0.groups(), e0.feedback(), j)
                        == routed(message, index, e0.endpoints(), e0.groups(), e0.feedback(), j) by {}
                }
            },
        }
        if let StreamElement::Terminate = message {
            let ghost e1: End<T> = *self;
            proof {
                assert forall|j: int| 0 <= j < e0.endpoints().len() implies #[trigger] sent_by(out@, j) == e0.pending(j)
                    + share(message, index, e0.endpoints(), e0.groups(), e0.feedback(), j)
                    && count_terminates(sent_by(out@, j)) == if e0.feedback() == Some(e0.endpoints()[j].coord.block_id) {
                        0nat
                    } else {
                        1nat
                    } by {
                    assert(e1.pending(j).len() == 0);
                    assert(sent_by(out@, j) + e1.pending(j) =~= sent_by(out@, j));
                    let p = e0.pending(j);
                    assert(e0.senders@[j].1.wf());
                    lemma_count_no_terminate(p);
                    if e0.feedback() == Some(e0.endpoints()[j].coord.block_id) {
                        assert(p + share(message, index, e0.endpoints(), e0.groups(), e0.feedback(), j) =~= p);
                    } else {
                        assert((p + seq![message]).drop_last() =~= p);
                    }
                }
            }
            self.senders = Vec::new();
            self.block_senders = Vec::new();
            proof {
                assert(self.groups() =~= Seq::<Seq<usize>>::empty());
            }
        }
        (to_return, out)
    }
}

} // verus!
