//! The grow-only counter: each node counts what it was asked to add under its
//! own name, and gossip spreads every node's count by taking maxima.

use crate::merge::{
    exchange_all, is_join, join_all, lemma_full_state_converges, lemma_merge_order_free, merge_all,
    merge_commutes, merge_idempotent,
};
use crate::message::{answers, reply, string_views, Body, Init, Message};
use crate::node::{other_nodes, others, Event, Node, NodeError, Tick};
use crate::str_map::StrMap;
use vstd::prelude::*;
use vstd::set::fold::{is_fun_commutative, lemma_fold_empty, lemma_fold_insert};

verus! {

/// What a counter node sends and receives.
pub enum CounterPayload {
    Add { delta: u64 },
    AddOk,
    Read,
    ReadOk { value: u128 },
    Gossip { latest_values: StrMap<u64> },
}

/// The count of `node` in `m`; zero for a node not in it.
pub open spec fn count_of(m: Map<Seq<char>, u64>, node: Seq<char>) -> int {
    if m.contains_key(node) {
        m[node] as int
    } else {
        0
    }
}

/// The counts of `m` raised by those of `remote`: every key of either, with
/// the larger count where both have it.
pub open spec fn merge_max(m: Map<Seq<char>, u64>, remote: Map<Seq<char>, u64>) -> Map<
    Seq<char>,
    u64,
> {
    Map::new(
        |k: Seq<char>| m.contains_key(k) || remote.contains_key(k),
        |k: Seq<char>|
            if !m.contains_key(k) {
                remote[k]
            } else if !remote.contains_key(k) {
                m[k]
            } else if m[k] >= remote[k] {
                m[k]
            } else {
                remote[k]
            },
    )
}

/// The sum of all counts of `m`.
pub open spec fn total(m: Map<Seq<char>, u64>) -> int {
    m.dom().fold(0int, |acc: int, k: Seq<char>| acc + m[k])
}

/// Folding over a set with two functions that agree on its elements gives
/// the same result.
proof fn lemma_fold_agrees(
    s: Set<Seq<char>>,
    f1: spec_fn(int, Seq<char>) -> int,
    f2: spec_fn(int, Seq<char>) -> int,
)
    requires
        s.finite(),
        is_fun_commutative(f1),
        is_fun_commutative(f2),
        forall|acc: int, k: Seq<char>| s.contains(k) ==> #[trigger] f1(acc, k) == f2(acc, k),
    ensures
        s.fold(0int, f1) == s.fold(0int, f2),
    decreases s.len(),
{
    if s.len() == 0 {
        assert(s =~= Set::<Seq<char>>::empty());
        lemma_fold_empty(0int, f1);
        lemma_fold_empty(0int, f2);
    } else {
        let a = s.choose();
        let rest = s.remove(a);
        lemma_fold_agrees(rest, f1, f2);
        lemma_fold_insert(rest, 0int, f1, a);
        lemma_fold_insert(rest, 0int, f2, a);
        assert(rest.insert(a) =~= s);
    }
}

/// The summing function of a map commutes.
proof fn lemma_sum_commutes(m: Map<Seq<char>, u64>)
    ensures
        is_fun_commutative(|acc: int, k: Seq<char>| acc + m[k]),
{
    let f = |acc: int, k: Seq<char>| acc + m[k];
    assert forall|a1: Seq<char>, a2: Seq<char>, b: int| #[trigger] f(f(b, a2), a1) == f(f(b, a1), a2) by {
    }
}

/// The total of the empty map is zero.
pub proof fn lemma_total_empty()
    ensures
        total(Map::<Seq<char>, u64>::empty()) == 0,
{
    let m = Map::<Seq<char>, u64>::empty();
    assert(m.dom() =~= Set::<Seq<char>>::empty());
    lemma_fold_empty(0int, |acc: int, k: Seq<char>| acc + m[k]);
}

/// Setting the count of a key changes the total by the difference.
pub proof fn lemma_total_insert(m: Map<Seq<char>, u64>, k: Seq<char>, v: u64)
    requires
        m.dom().finite(),
    ensures
        total(m.insert(k, v)) == total(m) - count_of(m, k) + v,
{
    let m2 = m.insert(k, v);
    let f = |acc: int, key: Seq<char>| acc + m[key];
    let f2 = |acc: int, key: Seq<char>| acc + m2[key];
    lemma_sum_commutes(m);
    lemma_sum_commutes(m2);
    let rest = m.dom().remove(k);
    lemma_fold_agrees(rest, f, f2);
    lemma_fold_insert(rest, 0int, f2, k);
    assert(rest.insert(k) =~= m2.dom());
    if m.contains_key(k) {
        lemma_fold_insert(rest, 0int, f, k);
        assert(rest.insert(k) =~= m.dom());
    } else {
        assert(rest =~= m.dom());
    }
}

/// The sum of all deltas of `adds`, a history of additions, each an
/// (issuing node, delta) pair.
pub open spec fn sum_deltas(adds: Seq<(Seq<char>, u64)>) -> int
    decreases adds.len(),
{
    if adds.len() == 0 {
        0
    } else {
        sum_deltas(adds.drop_last()) + adds.last().1
    }
}

/// The sum of the deltas of `adds` that `node` issued.
pub open spec fn contribution(adds: Seq<(Seq<char>, u64)>, node: Seq<char>) -> int
    decreases adds.len(),
{
    if adds.len() == 0 {
        0
    } else {
        contribution(adds.drop_last(), node) + if adds.last().0 == node {
            adds.last().1 as int
        } else {
            0
        }
    }
}

proof fn lemma_contribution_nonnegative(adds: Seq<(Seq<char>, u64)>, node: Seq<char>)
    ensures
        contribution(adds, node) >= 0,
    decreases adds.len(),
{
    if adds.len() > 0 {
        lemma_contribution_nonnegative(adds.drop_last(), node);
    }
}

/// A map of zero counts totals zero.
proof fn lemma_total_zero(m: Map<Seq<char>, u64>)
    requires
        m.dom().finite(),
        forall|k: Seq<char>| #[trigger] m.contains_key(k) ==> m[k] == 0,
    ensures
        total(m) == 0,
    decreases m.dom().len(),
{
    if m.dom().len() == 0 {
        assert(m =~= Map::<Seq<char>, u64>::empty());
        lemma_total_empty();
    } else {
        let k = m.dom().choose();
        let rest = m.remove(k);
        lemma_total_zero(rest);
        lemma_total_insert(rest, k, 0);
        assert(rest.insert(k, 0) =~= m);
    }
}

/// Counter correctness: once a node holds, for every node, exactly the sum
/// of the deltas that node issued, as gossip brings about whatever the order
/// or repetition of delivery, its counts total the sum of every delta ever
/// issued. Here `adds` is the whole history of additions and `m` the counts.
pub proof fn lemma_converged_total(m: Map<Seq<char>, u64>, adds: Seq<(Seq<char>, u64)>)
    requires
        m.dom().finite(),
        forall|i: int| 0 <= i < adds.len() ==> m.contains_key(#[trigger] adds[i].0),
        forall|k: Seq<char>| #[trigger] m.contains_key(k) ==> m[k] == contribution(adds, k),
    ensures
        total(m) == sum_deltas(adds),
    decreases adds.len(),
{
    if adds.len() == 0 {
        lemma_total_zero(m);
    } else {
        let rest = adds.drop_last();
        let (k, d) = adds.last();
        assert(m.contains_key(adds[adds.len() - 1].0));
        lemma_contribution_nonnegative(rest, k);
        let m2 = m.insert(k, (m[k] - d) as u64);
        lemma_total_insert(m, k, (m[k] - d) as u64);
        assert forall|i: int| 0 <= i < rest.len() implies m2.contains_key(#[trigger] rest[i].0) by {
            assert(rest[i] == adds[i]);
        }
        assert forall|j: Seq<char>| #[trigger] m2.contains_key(j) implies m2[j] == contribution(rest, j) by {}
        lemma_converged_total(m2, rest);
    }
}

/// Receiving the same counts twice leaves the counter as receiving them once.
pub proof fn lemma_counter_gossip_idempotent(m: Map<Seq<char>, u64>, g: Map<Seq<char>, u64>)
    ensures
        merge_max(merge_max(m, g), g) == merge_max(m, g),
{
    assert(merge_max(merge_max(m, g), g) =~= merge_max(m, g));
}

/// Two gossip payloads merged in either order give the same counts.
pub proof fn lemma_counter_gossip_commutes(
    m: Map<Seq<char>, u64>,
    a: Map<Seq<char>, u64>,
    b: Map<Seq<char>, u64>,
)
    ensures
        merge_max(merge_max(m, a), b) == merge_max(merge_max(m, b), a),
{
    assert(merge_max(merge_max(m, a), b) =~= merge_max(merge_max(m, b), a));
}

/// `merge_max` as a function value.
pub open spec fn max_join() -> spec_fn(Map<Seq<char>, u64>, Map<Seq<char>, u64>) -> Map<
    Seq<char>,
    u64,
> {
    |a: Map<Seq<char>, u64>, b: Map<Seq<char>, u64>| merge_max(a, b)
}

/// Taking maxima joins counts.
proof fn lemma_merge_max_joins()
    ensures
        is_join(max_join(), |m: Map<Seq<char>, u64>| true),
{
    let f = max_join();
    assert forall|a: Map<Seq<char>, u64>, b: Map<Seq<char>, u64>| #[trigger] f(a, b) == f(b, a) by {
        assert(merge_max(a, b) =~= merge_max(b, a));
    }
    assert forall|a: Map<Seq<char>, u64>, b: Map<Seq<char>, u64>, c: Map<Seq<char>, u64>|
        #[trigger] f(f(a, b), c) == f(a, f(b, c)) by {
        assert(merge_max(merge_max(a, b), c) =~= merge_max(a, merge_max(b, c)));
    }
    assert forall|a: Map<Seq<char>, u64>| #[trigger] f(a, a) == a by {
        assert(merge_max(a, a) =~= a);
    }
}

/// Convergence of the counter: once every node has gossiped its counts to
/// every other node, in any order, every node holds the same counts, the
/// pointwise maxima of all the counts the nodes started from.
pub proof fn lemma_counter_converges(nodes: Seq<Map<Seq<char>, u64>>, edges: Seq<(int, int)>)
    requires
        nodes.len() > 0,
        forall|i: int|
            0 <= i < edges.len() ==> 0 <= #[trigger] edges[i].0 < nodes.len() && 0 <= edges[i].1
                < nodes.len(),
        forall|a: int, b: int|
            0 <= a < nodes.len() && 0 <= b < nodes.len() && a != b ==> #[trigger] edges.contains(
                (a, b),
            ),
    ensures
        forall|b: int|
            0 <= b < nodes.len() ==> #[trigger] exchange_all(nodes, edges, max_join())[b] == join_all(
                nodes,
                max_join(),
            ),
{
    lemma_merge_max_joins();
    lemma_full_state_converges(nodes, edges, max_join(), |m: Map<Seq<char>, u64>| true);
}

/// Any two sequences of gossip payloads holding the same payloads, in
/// whatever order and repetition, bring a counter to the same counts.
pub proof fn lemma_counter_gossip_order_free(
    m: Map<Seq<char>, u64>,
    gs1: Seq<Map<Seq<char>, u64>>,
    gs2: Seq<Map<Seq<char>, u64>>,
)
    requires
        gs1.to_set() == gs2.to_set(),
    ensures
        merge_all(m, gs1, |s: Map<Seq<char>, u64>, g: Map<Seq<char>, u64>| merge_max(s, g))
            == merge_all(m, gs2, |s: Map<Seq<char>, u64>, g: Map<Seq<char>, u64>| merge_max(s, g)),
{
    let f = |s: Map<Seq<char>, u64>, g: Map<Seq<char>, u64>| merge_max(s, g);
    assert forall|a: Map<Seq<char>, u64>, b: Map<Seq<char>, u64>, s: Map<Seq<char>, u64>|
        #[trigger] f(f(s, b), a) == f(f(s, a), b) by {
        lemma_counter_gossip_commutes(s, a, b);
    }
    assert forall|s: Map<Seq<char>, u64>, a: Map<Seq<char>, u64>| #[trigger] f(f(s, a), a) == f(s, a) by {
        lemma_counter_gossip_idempotent(s, a);
    }
    assert(merge_commutes(f));
    assert(merge_idempotent(f));
    lemma_merge_order_free(m, gs1, gs2, f);
}

/// A node of the counter service.
pub struct CounterNode {
    node: String,
    next_id: usize,
    peers: Vec<String>,
    values: StrMap<u64>,
}

/// `m` is the gossip of `node` to its `i`-th peer, with id `id`: it carries
/// every count `node` holds.
pub open spec fn is_counter_gossip_to(m: Message<CounterPayload>, node: CounterNode, i: int, id: usize) -> bool {
    &&& m.src@ == node.node_id()
    &&& m.dest@ == node.peers()[i]
    &&& m.body.id == Some(id)
    &&& m.body.in_reply_to is None
    &&& m.body.payload matches CounterPayload::Gossip { latest_values }
    &&& latest_values.wf()
    &&& latest_values@ == node.counts()
}

/// The result `r` of one gossip round of `pre`, which left `post`: one
/// message per peer, in order, or a failure that changed nothing when the ids
/// would run out.
pub open spec fn counter_gossip_sent(
    pre: CounterNode,
    post: CounterNode,
    r: Result<Vec<Message<CounterPayload>>, NodeError>,
) -> bool {
    if pre.next_id() + pre.peers().len() > usize::MAX {
        r == Err::<Vec<Message<CounterPayload>>, NodeError>(NodeError::IdsExhausted) && post == pre
    } else {
        &&& post.counts() == pre.counts()
        &&& post.node_id() == pre.node_id()
        &&& post.peers() == pre.peers()
        &&& post.next_id() == pre.next_id() + pre.peers().len()
        &&& r is Ok
        &&& r->Ok_0@.len() == pre.peers().len()
        &&& forall|i: int|
            0 <= i < r->Ok_0@.len() ==> #[trigger] is_counter_gossip_to(
                r->Ok_0@[i],
                pre,
                i,
                (pre.next_id() + i) as usize,
            )
    }
}

/// `r` holds the one reply of `pre` to `m`, whose payload satisfies `ok`,
/// and `post` has used the id it carries.
pub open spec fn counter_replied(
    pre: CounterNode,
    post: CounterNode,
    m: Message<CounterPayload>,
    r: Result<Vec<Message<CounterPayload>>, NodeError>,
    ok: spec_fn(CounterPayload) -> bool,
) -> bool {
    &&& post.next_id() == pre.next_id() + 1
    &&& post.node_id() == pre.node_id()
    &&& post.peers() == pre.peers()
    &&& r is Ok
    &&& r->Ok_0@.len() == 1
    &&& answers(r->Ok_0@[0], m, pre.next_id())
    &&& ok(r->Ok_0@[0].body.payload)
}

/// How `pre` handles message `m`, leaving `post` and answering `r`.
pub open spec fn counter_message_handled(
    pre: CounterNode,
    post: CounterNode,
    m: Message<CounterPayload>,
    r: Result<Vec<Message<CounterPayload>>, NodeError>,
) -> bool {
    match m.body.payload {
        CounterPayload::Add { delta } => if pre.next_id() == usize::MAX {
            r == Err::<Vec<Message<CounterPayload>>, NodeError>(NodeError::IdsExhausted) && post
                == pre
        } else if count_of(pre.counts(), pre.node_id()) + delta > u64::MAX {
            r == Err::<Vec<Message<CounterPayload>>, NodeError>(NodeError::CounterOverflow) && post
                == pre
        } else {
            &&& counter_replied(pre, post, m, r, |p: CounterPayload| p is AddOk)
            &&& post.counts() == pre.counts().insert(
                pre.node_id(),
                (count_of(pre.counts(), pre.node_id()) + delta) as u64,
            )
        },
        CounterPayload::Read => if pre.next_id() == usize::MAX {
            r == Err::<Vec<Message<CounterPayload>>, NodeError>(NodeError::IdsExhausted) && post
                == pre
        } else {
            &&& counter_replied(
                pre,
                post,
                m,
                r,
                |p: CounterPayload|
                    p matches CounterPayload::ReadOk { value } && value == total(pre.counts()),
            )
            &&& post.counts() == pre.counts()
        },
        CounterPayload::Gossip { latest_values } => {
            &&& post.counts() == merge_max(pre.counts(), latest_values@)
            &&& post.node_id() == pre.node_id()
            &&& post.next_id() == pre.next_id()
            &&& post.peers() == pre.peers()
            &&& r is Ok
            &&& r->Ok_0@.len() == 0
        },
        _ => post == pre && r is Ok && r->Ok_0@.len() == 0,
    }
}

impl CounterNode {
    /// This node's identity.
    pub closed spec fn node_id(&self) -> Seq<char> {
        self.node@
    }

    /// The id the next message of this node will carry.
    pub closed spec fn next_id(&self) -> usize {
        self.next_id
    }

    /// The nodes this node gossips to, in order.
    pub closed spec fn peers(&self) -> Seq<Seq<char>> {
        string_views(self.peers@)
    }

    /// The count of each node, as far as this node knows.
    pub closed spec fn counts(&self) -> Map<Seq<char>, u64> {
        self.values@
    }

    /// The representation is sound.
    pub closed spec fn wf(&self) -> bool {
        self.values.wf()
    }

    /// What every well-formed node offers: finitely many counts.
    pub proof fn lemma_finite(&self)
        requires
            self.wf(),
        ensures
            self.counts().dom().finite(),
    {
        self.values.lemma_lists();
    }

    /// The node right after the handshake: a zero count for every node of
    /// the run, gossiping to every node but itself.
    pub fn new(init: Init) -> (r: CounterNode)
        ensures
            r.wf(),
            r.node_id() == init.node_id@,
            r.next_id() == 1,
            r.peers() == others(string_views(init.node_ids@), init.node_id@),
            r.counts().dom() == string_views(init.node_ids@).to_set(),
            forall|k: Seq<char>| #[trigger] r.counts().contains_key(k) ==> r.counts()[k] == 0,
    {
        let peers = other_nodes(&init.node_ids, &init.node_id);
        let mut values: StrMap<u64> = StrMap::new();
        let mut i: usize = 0;
        let ghost ids = string_views(init.node_ids@);
        while i < init.node_ids.len()
            invariant
                i <= init.node_ids@.len(),
                ids == string_views(init.node_ids@),
                values.wf(),
                values@.dom() == ids.subrange(0, i as int).to_set(),
                forall|k: Seq<char>| #[trigger] values@.contains_key(k) ==> values@[k] == 0,
            decreases init.node_ids@.len() - i,
        {
            proof {
                assert(ids.subrange(0, i + 1) =~= ids.subrange(0, i as int).push(ids[i as int]));
                ids.subrange(0, i as int).lemma_push_to_set_commute(ids[i as int]);
            }
            values.insert(init.node_ids[i].clone(), 0);
            i = i + 1;
        }
        assert(ids.subrange(0, ids.len() as int) =~= ids);
        CounterNode { node: init.node_id, next_id: 1, peers, values }
    }

    /// Adds `delta` to this node's own count; fails, changing nothing, when
    /// the count would exceed 64 bits.
    pub fn add(&mut self, delta: u64) -> (r: Result<(), NodeError>)
        requires
            old(self).wf(),
        ensures
            final(self).wf(),
            final(self).node_id() == old(self).node_id(),
            final(self).next_id() == old(self).next_id(),
            final(self).peers() == old(self).peers(),
            count_of(old(self).counts(), old(self).node_id()) + delta > u64::MAX ==> r == Err::<
                (),
                NodeError,
            >(NodeError::CounterOverflow) && *final(self) == *old(self),
            count_of(old(self).counts(), old(self).node_id()) + delta <= u64::MAX ==> r is Ok
                && final(self).counts() == old(self).counts().insert(
                old(self).node_id(),
                (count_of(old(self).counts(), old(self).node_id()) + delta) as u64,
            ),
    {
        let own: u64 = match self.values.get(&self.node) {
            Some(v) => *v,
            None => 0,
        };
        if own > u64::MAX - delta {
            return Err(NodeError::CounterOverflow);
        }
        self.values.insert(self.node.clone(), own + delta);
        Ok(())
    }

    /// The sum of all counts this node knows of.
    pub fn read(&self) -> (r: u128)
        requires
            self.wf(),
        ensures
            r == total(self.counts()),
    {
        let n = self.values.len();
        let mut sum: u128 = 0;
        let mut i: usize = 0;
        proof {
            self.values.lemma_prefix_map_ends();
            lemma_total_empty();
        }
        while i < n
            invariant
                self.wf(),
                n == self.values.key_list().len(),
                i <= n,
                self.values.prefix_map(0) == Map::<Seq<char>, u64>::empty(),
                sum == total(self.values.prefix_map(i as int)),
                sum <= i * 0xFFFF_FFFF_FFFF_FFFFu128,
            decreases n - i,
        {
            let v = *self.values.value_at(i);
            proof {
                self.values.lemma_prefix_map(i as int);
                self.values.lemma_lists();
                let p = self.values.prefix_map(i as int);
                assert(p.dom().finite()) by {
                    self.values.lemma_prefix_finite(i as int);
                }
                lemma_total_insert(p, self.values.key_list()[i as int], v);
                assert(i < 0x1_0000_0000_0000_0000);
            }
            sum = sum + v as u128;
            i = i + 1;
        }
        proof {
            self.values.lemma_prefix_map_ends();
        }
        sum
    }

    /// Raises each count to the one `remote` reports, where that is larger,
    /// and learns the counts of nodes it had not heard of.
    pub fn merge(&mut self, remote: &StrMap<u64>)
        requires
            old(self).wf(),
        ensures
            final(self).wf(),
            final(self).counts() == merge_max(old(self).counts(), remote@),
            final(self).node_id() == old(self).node_id(),
            final(self).next_id() == old(self).next_id(),
            final(self).peers() == old(self).peers(),
    {
        proof {
            use_type_invariant(remote);
            remote.lemma_prefix_map_ends();
            assert(merge_max(self.values@, Map::empty()) =~= self.values@);
        }
        let ghost start = self.values@;
        let n = remote.len();
        let mut i: usize = 0;
        while i < n
            invariant
                self.wf(),
                remote.wf(),
                n == remote.key_list().len(),
                i <= n,
                self.node == old(self).node,
                self.next_id == old(self).next_id,
                self.peers == old(self).peers,
                self.values@ == merge_max(start, remote.prefix_map(i as int)),
            decreases n - i,
        {
            let k = remote.key_at(i);
            let v = *remote.value_at(i);
            let raise = match self.values.get(k) {
                Some(own) => *own < v,
                None => true,
            };
            if raise {
                self.values.insert(k.clone(), v);
            }
            proof {
                remote.lemma_prefix_map(i as int);
                let p = remote.prefix_map(i as int);
                assert(self.values@ =~= merge_max(start, p.insert(k@, v)));
            }
            i = i + 1;
        }
    }

    /// One round of gossip: every count this node holds, to each peer in
    /// order. Each message takes the next id. Fails, changing nothing, when the
    /// ids would run out.
    pub fn gossip_tick(&mut self) -> (r: Result<Vec<Message<CounterPayload>>, NodeError>)
        requires
            old(self).wf(),
        ensures
            final(self).wf(),
            counter_gossip_sent(*old(self), *final(self), r),
    {
        let n = self.peers.len();
        if n > usize::MAX - self.next_id {
            return Err(NodeError::IdsExhausted);
        }
        let mut out: Vec<Message<CounterPayload>> = Vec::new();
        let mut i: usize = 0;
        let ghost start = self.next_id;
        while i < n
            invariant
                self.wf(),
                self.node == old(self).node,
                self.values == old(self).values,
                self.peers == old(self).peers,
                n == self.peers@.len(),
                i <= n,
                start == old(self).next_id,
                start + n <= usize::MAX,
                self.next_id == start + i,
                out@.len() == i,
                forall|j: int|
                    0 <= j < i ==> #[trigger] is_counter_gossip_to(
                        out@[j],
                        *old(self),
                        j,
                        (start + j) as usize,
                    ),
            decreases n - i,
        {
            let latest_values = self.values.copy();
            out.push(
                Message {
                    src: self.node.clone(),
                    dest: self.peers[i].clone(),
                    body: Body {
                        id: Some(self.next_id),
                        in_reply_to: None,
                        payload: CounterPayload::Gossip { latest_values },
                    },
                },
            );
            self.next_id = self.next_id + 1;
            i = i + 1;
        }
        Ok(out)
    }

    /// Handles one message: a client's addition or read, or a peer's gossip.
    /// Replies are ignored.
    pub fn handle_message(&mut self, m: Message<CounterPayload>) -> (r: Result<
        Vec<Message<CounterPayload>>,
        NodeError,
    >)
        requires
            old(self).wf(),
        ensures
            final(self).wf(),
            counter_message_handled(*old(self), *final(self), m, r),
    {
        match m.body.payload {
            CounterPayload::Add { delta } => {
                if self.next_id == usize::MAX {
                    return Err(NodeError::IdsExhausted);
                }
                match self.add(delta) {
                    Ok(()) => {
                        let out = reply(m.dest, m.src, m.body.id, &mut self.next_id, CounterPayload::AddOk);
                        Ok(vec![out])
                    },
                    Err(e) => Err(e),
                }
            },
            CounterPayload::Read => {
                if self.next_id == usize::MAX {
                    return Err(NodeError::IdsExhausted);
                }
                let value = self.read();
                let out = reply(m.dest, m.src, m.body.id, &mut self.next_id, CounterPayload::ReadOk { value });
                Ok(vec![out])
            },
            CounterPayload::Gossip { latest_values } => {
                self.merge(&latest_values);
                Ok(Vec::new())
            },
            _ => Ok(Vec::new()),
        }
    }

    /// Handles one event: a message, or the ticker's call to gossip.
    pub fn handle_event(&mut self, input: Event<CounterPayload, Tick>) -> (r: Result<
        Vec<Message<CounterPayload>>,
        NodeError,
    >)
        requires
            old(self).wf(),
        ensures
            final(self).wf(),
            match input {
                Event::Message(m) => counter_message_handled(*old(self), *final(self), m, r),
                Event::Injected(_) => counter_gossip_sent(*old(self), *final(self), r),
                Event::EOF => *final(self) == *old(self) && r is Ok && r->Ok_0@.len() == 0,
            },
    {
        match input {
            Event::Message(m) => self.handle_message(m),
            Event::Injected(Tick::Gossip) => self.gossip_tick(),
            Event::EOF => Ok(Vec::new()),
        }
    }
}

impl Node<(), CounterPayload, Tick> for CounterNode {
    closed spec fn inv(&self) -> bool {
        self.wf()
    }

    fn from_init(state: (), init: Init) -> (r: Result<Self, NodeError>)
        ensures
            r is Ok,
            r->Ok_0.wf(),
            r->Ok_0.node_id() == init.node_id@,
            r->Ok_0.next_id() == 1,
            r->Ok_0.peers() == others(string_views(init.node_ids@), init.node_id@),
            r->Ok_0.counts().dom() == string_views(init.node_ids@).to_set(),
            forall|k: Seq<char>| #[trigger] r->Ok_0.counts().contains_key(k) ==> r->Ok_0.counts()[k] == 0,
    {
        Ok(CounterNode::new(init))
    }

    fn gossip_period_ms() -> Option<u64> {
        Some(100)
    }

    fn handle_input(&mut self, input: Event<CounterPayload, Tick>) -> (r: Result<
        Vec<Message<CounterPayload>>,
        NodeError,
    >)
        ensures
            match input {
                Event::Message(m) => counter_message_handled(*old(self), *final(self), m, r),
                Event::Injected(_) => counter_gossip_sent(*old(self), *final(self), r),
                Event::EOF => *final(self) == *old(self) && r is Ok && r->Ok_0@.len() == 0,
            },
    {
        self.handle_event(input)
    }
}

/// The nodes' own handlers perform the exchanges of the convergence model:
/// when node `a`'s gossip round sends its `i`-th message to node `b`, and
/// `b` handles it, `b` joins in `a`'s whole state and `a` is unchanged.
pub proof fn lemma_handlers_exchange(
    nodes: Seq<Map<Seq<char>, u64>>,
    a: int,
    b: int,
    pre_a: CounterNode,
    post_a: CounterNode,
    sent: Result<Vec<Message<CounterPayload>>, NodeError>,
    i: int,
    pre_b: CounterNode,
    post_b: CounterNode,
    answered: Result<Vec<Message<CounterPayload>>, NodeError>,
)
    requires
        0 <= a < nodes.len(),
        0 <= b < nodes.len(),
        nodes[a] == pre_a.counts(),
        nodes[b] == pre_b.counts(),
        counter_gossip_sent(pre_a, post_a, sent),
        sent is Ok,
        0 <= i < sent->Ok_0@.len(),
        counter_message_handled(pre_b, post_b, sent->Ok_0@[i], answered),
    ensures
        post_a.counts() == pre_a.counts(),
        nodes.update(b, max_join()(nodes[b], nodes[a])) == nodes.update(b, post_b.counts()),
        answered is Ok && answered->Ok_0@.len() == 0,
{
    assert(is_counter_gossip_to(sent->Ok_0@[i], pre_a, i, (pre_a.next_id() + i) as usize));
}

} // verus!
