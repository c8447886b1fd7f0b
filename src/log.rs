//! The partitioned log: each key holds a set of appended integers, and key
//! `k` owns the global offsets from `k * STRIDE` up to `(k + 1) * STRIDE`.
//! Consumers poll from an offset and record the offsets they committed.
//! Gossip spreads every partition by set union.

use crate::log_key::{key_number, parse_key, STRIDE};
use crate::merge::{
    exchange_all, is_join, join_all, lemma_full_state_converges, lemma_merge_order_free, merge_all,
    merge_commutes, merge_idempotent,
};
use crate::message::{answers, reply, string_views, Body, Init, Message};
use crate::node::{other_nodes, others, Event, Node, NodeError, Tick};
use crate::str_map::StrMap;
use crate::value_set::{strictly_increasing, ValueSet};
use vstd::prelude::*;

verus! {

/// What a log node sends and receives.
pub enum LogPayload {
    Send { key: String, msg: u64 },
    SendOk { offset: u64 },
    Poll { offsets: Vec<(String, u64)> },
    PollOk { msgs: Vec<(String, Vec<(u64, u64)>)> },
    CommitOffsets { offsets: Vec<(String, u64)> },
    CommitOffsetsOk,
    ListCommittedOffsets { keys: Vec<String> },
    ListCommittedOffsetsOk { offsets: Vec<(String, u64)> },
    Gossip { history: StrMap<ValueSet> },
}

/// Whether value `v` under `key` has a global offset that fits in 64 bits.
pub open spec fn offset_fits(key: Seq<char>, v: u64) -> bool {
    key_number(key) matches Some(n) && n * STRIDE + v <= u64::MAX
}

/// The values under `key`; none for a key never written.
pub open spec fn partition_of(parts: Map<Seq<char>, Set<u64>>, key: Seq<char>) -> Set<u64> {
    if parts.contains_key(key) {
        parts[key]
    } else {
        Set::empty()
    }
}

/// The partitions `parts` after gossip carrying `remote`: under every key of
/// either side, the union of both sides.
pub open spec fn merge_parts(
    parts: Map<Seq<char>, Set<u64>>,
    remote: Map<Seq<char>, Set<u64>>,
) -> Map<Seq<char>, Set<u64>> {
    Map::new(
        |k: Seq<char>| parts.contains_key(k) || remote.contains_key(k),
        |k: Seq<char>| partition_of(parts, k).union(partition_of(remote, k)),
    )
}

/// Receiving the same partitions twice leaves a log as receiving them once.
pub proof fn lemma_log_gossip_idempotent(
    parts: Map<Seq<char>, Set<u64>>,
    g: Map<Seq<char>, Set<u64>>,
)
    ensures
        merge_parts(merge_parts(parts, g), g) == merge_parts(parts, g),
{
    let once = merge_parts(parts, g);
    let twice = merge_parts(once, g);
    assert forall|k: Seq<char>| #[trigger] twice.contains_key(k) implies twice[k] =~= once[k] by {}
    assert(twice =~= once);
}

/// Two gossip payloads merged in either order give the same partitions.
pub proof fn lemma_log_gossip_commutes(
    parts: Map<Seq<char>, Set<u64>>,
    a: Map<Seq<char>, Set<u64>>,
    b: Map<Seq<char>, Set<u64>>,
)
    ensures
        merge_parts(merge_parts(parts, a), b) == merge_parts(merge_parts(parts, b), a),
{
    let ab = merge_parts(merge_parts(parts, a), b);
    let ba = merge_parts(merge_parts(parts, b), a);
    assert forall|k: Seq<char>| #[trigger] ab.contains_key(k) implies ab[k] =~= ba[k] by {}
    assert(ab =~= ba);
}

/// `merge_parts` as a function value.
pub open spec fn parts_join() -> spec_fn(Map<Seq<char>, Set<u64>>, Map<Seq<char>, Set<u64>>) -> Map<
    Seq<char>,
    Set<u64>,
> {
    |a: Map<Seq<char>, Set<u64>>, b: Map<Seq<char>, Set<u64>>| merge_parts(a, b)
}

/// Merging partitions joins them.
proof fn lemma_merge_parts_joins()
    ensures
        is_join(parts_join(), |p: Map<Seq<char>, Set<u64>>| true),
{
    let f = parts_join();
    assert forall|a: Map<Seq<char>, Set<u64>>, b: Map<Seq<char>, Set<u64>>| #[trigger] f(a, b) == f(b, a) by {
        assert forall|k: Seq<char>| #[trigger] f(a, b).contains_key(k) implies f(a, b)[k] =~= f(b, a)[k] by {}
        assert(f(a, b) =~= f(b, a));
    }
    assert forall|a: Map<Seq<char>, Set<u64>>, b: Map<Seq<char>, Set<u64>>, c: Map<Seq<char>, Set<u64>>|
        #[trigger] f(f(a, b), c) == f(a, f(b, c)) by {
        assert forall|k: Seq<char>| #[trigger] f(f(a, b), c).contains_key(k) implies f(f(a, b), c)[k]
            =~= f(a, f(b, c))[k] by {}
        assert(f(f(a, b), c) =~= f(a, f(b, c)));
    }
    assert forall|a: Map<Seq<char>, Set<u64>>| #[trigger] f(a, a) == a by {
        assert forall|k: Seq<char>| #[trigger] f(a, a).contains_key(k) implies f(a, a)[k] =~= a[k] by {}
        assert(f(a, a) =~= a);
    }
}

/// Convergence of the log: once every node has gossiped its partitions to
/// every other node, in any order, every node holds the same partitions, the
/// union of the partitions the nodes started from.
pub proof fn lemma_log_converges(nodes: Seq<Map<Seq<char>, Set<u64>>>, edges: Seq<(int, int)>)
    requires
        nodes.len() > 0,
        forall|i: int|
            0 <= i < edges.len() ==> 0 <= #[trigger] edges[i].0 < nodes.len() && 0 <= edges[i].1
                < nodes.len(),
        forall|a: int, b: int|
            0 <= a < nodes.len() && 0 <= b < nodes.len() && a != b ==> #[trigger] edges.contains(
                (a, b),
            ),
    ensures
        forall|b: int|
            0 <= b < nodes.len() ==> #[trigger] exchange_all(nodes, edges, parts_join())[b]
                == join_all(nodes, parts_join()),
{
    lemma_merge_parts_joins();
    lemma_full_state_converges(nodes, edges, parts_join(), |p: Map<Seq<char>, Set<u64>>| true);
}

/// Any two sequences of gossip payloads holding the same payloads, in
/// whatever order and repetition, bring a log to the same partitions.
pub proof fn lemma_log_gossip_order_free(
    parts: Map<Seq<char>, Set<u64>>,
    gs1: Seq<Map<Seq<char>, Set<u64>>>,
    gs2: Seq<Map<Seq<char>, Set<u64>>>,
)
    requires
        gs1.to_set() == gs2.to_set(),
    ensures
        merge_all(
            parts,
            gs1,
            |s: Map<Seq<char>, Set<u64>>, g: Map<Seq<char>, Set<u64>>| merge_parts(s, g),
        ) == merge_all(
            parts,
            gs2,
            |s: Map<Seq<char>, Set<u64>>, g: Map<Seq<char>, Set<u64>>| merge_parts(s, g),
        ),
{
    let f = |s: Map<Seq<char>, Set<u64>>, g: Map<Seq<char>, Set<u64>>| merge_parts(s, g);
    assert forall|a: Map<Seq<char>, Set<u64>>, b: Map<Seq<char>, Set<u64>>, s: Map<Seq<char>, Set<u64>>|
        #[trigger] f(f(s, b), a) == f(f(s, a), b) by {
        lemma_log_gossip_commutes(s, a, b);
    }
    assert forall|s: Map<Seq<char>, Set<u64>>, a: Map<Seq<char>, Set<u64>>|
        #[trigger] f(f(s, a), a) == f(s, a) by {
        lemma_log_gossip_idempotent(s, a);
    }
    assert(merge_commutes(f));
    assert(merge_idempotent(f));
    lemma_merge_order_free(parts, gs1, gs2, f);
}

/// The views of a list of (key, number) pairs.
pub open spec fn pair_views(v: Seq<(String, u64)>) -> Seq<(Seq<char>, u64)> {
    v.map_values(|e: (String, u64)| (e.0@, e.1))
}

/// The requests of `reqs` whose key has a partition and reads as a number,
/// in order.
pub open spec fn served(reqs: Seq<(Seq<char>, u64)>, parts: Map<Seq<char>, Set<u64>>) -> Seq<
    (Seq<char>, u64),
>
    decreases reqs.len(),
{
    if reqs.len() == 0 {
        Seq::empty()
    } else {
        let rest = served(reqs.drop_last(), parts);
        if parts.contains_key(reqs.last().0) && key_number(reqs.last().0) is Some {
            rest.push(reqs.last())
        } else {
            rest
        }
    }
}

/// The least value a poll from `offset` returns: the offset within its
/// key's range, but never below 1.
pub open spec fn poll_floor(offset: u64) -> u64 {
    if offset % STRIDE >= 1 {
        (offset % STRIDE) as u64
    } else {
        1
    }
}

/// `e` answers the poll request `req`: under its key, every value of the
/// partition from the request's floor up that has a global offset within 64
/// bits, ascending, each with that offset.
pub open spec fn polled_entry(
    e: (String, Vec<(u64, u64)>),
    req: (Seq<char>, u64),
    parts: Map<Seq<char>, Set<u64>>,
) -> bool {
    &&& e.0@ == req.0
    &&& key_number(req.0) matches Some(n)
    &&& forall|i: int, j: int| 0 <= i < j < e.1@.len() ==> e.1@[i].1 < e.1@[j].1
    &&& forall|i: int| 0 <= i < e.1@.len() ==> #[trigger] e.1@[i].0 == n * STRIDE + e.1@[i].1
    &&& e.1@.map_values(|p: (u64, u64)| p.1).to_set() == parts[req.0].filter(
        |v: u64| v >= poll_floor(req.1) && offset_fits(req.0, v),
    )
}

/// The commits `reqs` applied to `m` in order: each sets its key's offset.
pub open spec fn apply_commits(m: Map<Seq<char>, u64>, reqs: Seq<(Seq<char>, u64)>) -> Map<
    Seq<char>,
    u64,
>
    decreases reqs.len(),
{
    if reqs.len() == 0 {
        m
    } else {
        apply_commits(m, reqs.drop_last()).insert(reqs.last().0, reqs.last().1)
    }
}

/// The keys of `keys` that have a commit in `m`, in order, each with it.
pub open spec fn listed(keys: Seq<Seq<char>>, m: Map<Seq<char>, u64>) -> Seq<(Seq<char>, u64)>
    decreases keys.len(),
{
    if keys.len() == 0 {
        Seq::empty()
    } else {
        let rest = listed(keys.drop_last(), m);
        if m.contains_key(keys.last()) {
            rest.push((keys.last(), m[keys.last()]))
        } else {
            rest
        }
    }
}

/// `m` is the gossip of `node` to its `i`-th peer, with id `id`: it carries
/// every partition of `node`.
pub open spec fn is_log_gossip_to(m: Message<LogPayload>, node: LogNode, i: int, id: usize) -> bool {
    &&& m.src@ == node.node_id()
    &&& m.dest@ == node.peers()[i]
    &&& m.body.id == Some(id)
    &&& m.body.in_reply_to is None
    &&& m.body.payload matches LogPayload::Gossip { history }
    &&& history@.map_values(|s: ValueSet| s@) == node.partitions()
}

/// The result `r` of one gossip round of `pre`, which left `post`: one
/// message per peer, in order, or a failure that changed nothing when the ids
/// would run out.
pub open spec fn log_gossip_sent(
    pre: LogNode,
    post: LogNode,
    r: Result<Vec<Message<LogPayload>>, NodeError>,
) -> bool {
    if pre.next_id() + pre.peers().len() > usize::MAX {
        r == Err::<Vec<Message<LogPayload>>, NodeError>(NodeError::IdsExhausted) && post == pre
    } else {
        &&& post.partitions() == pre.partitions()
        &&& post.commits() == pre.commits()
        &&& post.node_id() == pre.node_id()
        &&& post.peers() == pre.peers()
        &&& post.next_id() == pre.next_id() + pre.peers().len()
        &&& r is Ok
        &&& r->Ok_0@.len() == pre.peers().len()
        &&& forall|i: int|
            0 <= i < r->Ok_0@.len() ==> #[trigger] is_log_gossip_to(
                r->Ok_0@[i],
                pre,
                i,
                (pre.next_id() + i) as usize,
            )
    }
}

/// `r` holds the one reply of `pre` to `m`, whose payload satisfies `ok`,
/// and `post` has used the id it carries.
pub open spec fn log_replied(
    pre: LogNode,
    post: LogNode,
    m: Message<LogPayload>,
    r: Result<Vec<Message<LogPayload>>, NodeError>,
    ok: spec_fn(LogPayload) -> bool,
) -> bool {
    &&& post.next_id() == pre.next_id() + 1
    &&& post.node_id() == pre.node_id()
    &&& post.peers() == pre.peers()
    &&& r is Ok
    &&& r->Ok_0@.len() == 1
    &&& answers(r->Ok_0@[0], m, pre.next_id())
    &&& ok(r->Ok_0@[0].body.payload)
}

/// How `pre` handles message `m`, leaving `post` and answering `r`.
pub open spec fn log_message_handled(
    pre: LogNode,
    post: LogNode,
    m: Message<LogPayload>,
    r: Result<Vec<Message<LogPayload>>, NodeError>,
) -> bool {
    let exhausted = r == Err::<Vec<Message<LogPayload>>, NodeError>(NodeError::IdsExhausted)
        && post == pre;
    match m.body.payload {
        LogPayload::Send { key, msg } => if pre.next_id() == usize::MAX {
            exhausted
        } else {
            match key_number(key@) {
                None => r == Err::<Vec<Message<LogPayload>>, NodeError>(NodeError::InvalidLogKey)
                    && post == pre,
                Some(n) => if n * STRIDE + msg > u64::MAX {
                    r == Err::<Vec<Message<LogPayload>>, NodeError>(NodeError::OffsetOverflow) && post
                        == pre
                } else {
                    &&& log_replied(
                        pre,
                        post,
                        m,
                        r,
                        |p: LogPayload|
                            p matches LogPayload::SendOk { offset } && offset == n * STRIDE + msg,
                    )
                    &&& post.partitions() == pre.partitions().insert(
                        key@,
                        partition_of(pre.partitions(), key@).insert(msg),
                    )
                    &&& post.commits() == pre.commits()
                },
            }
        },
        LogPayload::Poll { offsets } => if pre.next_id() == usize::MAX {
            exhausted
        } else {
            &&& log_replied(
                pre,
                post,
                m,
                r,
                |p: LogPayload|
                    p matches LogPayload::PollOk { msgs } && msgs@.len() == served(
                        pair_views(offsets@),
                        pre.partitions(),
                    ).len() && forall|i: int|
                        0 <= i < msgs@.len() ==> #[trigger] polled_entry(
                            msgs@[i],
                            served(pair_views(offsets@), pre.partitions())[i],
                            pre.partitions(),
                        ),
            )
            &&& post.partitions() == pre.partitions()
            &&& post.commits() == pre.commits()
        },
        LogPayload::CommitOffsets { offsets } => if pre.next_id() == usize::MAX {
            exhausted
        } else {
            &&& log_replied(pre, post, m, r, |p: LogPayload| p is CommitOffsetsOk)
            &&& post.partitions() == pre.partitions()
            &&& post.commits() == apply_commits(pre.commits(), pair_views(offsets@))
        },
        LogPayload::ListCommittedOffsets { keys } => if pre.next_id() == usize::MAX {
            exhausted
        } else {
            &&& log_replied(
                pre,
                post,
                m,
                r,
                |p: LogPayload|
                    p matches LogPayload::ListCommittedOffsetsOk { offsets } && pair_views(offsets@)
                        == listed(string_views(keys@), pre.commits()),
            )
            &&& post.partitions() == pre.partitions()
            &&& post.commits() == pre.commits()
        },
        LogPayload::Gossip { history } => {
            &&& post.partitions() == merge_parts(
                pre.partitions(),
                history@.map_values(|s: ValueSet| s@),
            )
            &&& post.commits() == pre.commits()
            &&& post.node_id() == pre.node_id()
            &&& post.next_id() == pre.next_id()
            &&& post.peers() == pre.peers()
            &&& r is Ok
            &&& r->Ok_0@.len() == 0
        },
        _ => post == pre && r is Ok && r->Ok_0@.len() == 0,
    }
}

/// A node of the log service.
pub struct LogNode {
    node: String,
    next_id: usize,
    peers: Vec<String>,
    log: StrMap<ValueSet>,
    committed: StrMap<u64>,
}

impl LogNode {
    /// This node's identity.
    pub closed spec fn node_id(&self) -> Seq<char> {
        self.node@
    }

    /// The id the next message of this node will carry.
    pub closed spec fn next_id(&self) -> usize {
        self.next_id
    }

    /// The nodes this node gossips to, in order.
    pub closed spec fn peers(&self) -> Seq<Seq<char>> {
        string_views(self.peers@)
    }

    /// The values under each key.
    pub closed spec fn partitions(&self) -> Map<Seq<char>, Set<u64>> {
        self.log@.map_values(|s: ValueSet| s@)
    }

    /// The last offset committed under each key.
    pub closed spec fn commits(&self) -> Map<Seq<char>, u64> {
        self.committed@
    }

    /// The representation is sound.
    pub closed spec fn wf(&self) -> bool {
        self.log.wf() && self.committed.wf()
    }

    /// The node right after the handshake: no partitions and no commits,
    /// gossiping to every node but itself.
    pub fn new(init: Init) -> (r: LogNode)
        ensures
            r.wf(),
            r.node_id() == init.node_id@,
            r.next_id() == 1,
            r.peers() == others(string_views(init.node_ids@), init.node_id@),
            r.partitions() == Map::<Seq<char>, Set<u64>>::empty(),
            r.commits() == Map::<Seq<char>, u64>::empty(),
    {
        let peers = other_nodes(&init.node_ids, &init.node_id);
        let r = LogNode {
            node: init.node_id,
            next_id: 1,
            peers,
            log: StrMap::new(),
            committed: StrMap::new(),
        };
        assert(r.partitions() =~= Map::<Seq<char>, Set<u64>>::empty());
        r
    }

    /// Appends `msg` under `key` and gives its global offset,
    /// `key * STRIDE + msg`. Appending a value already there changes nothing
    /// and is not reported. Fails, changing nothing, when the key does not
    /// read as a number or the offset would not fit in 64 bits.
    pub fn send(&mut self, key: String, msg: u64) -> (r: Result<u64, NodeError>)
        requires
            old(self).wf(),
        ensures
            final(self).wf(),
            final(self).node_id() == old(self).node_id(),
            final(self).next_id() == old(self).next_id(),
            final(self).peers() == old(self).peers(),
            final(self).commits() == old(self).commits(),
            match key_number(key@) {
                None => r == Err::<u64, NodeError>(NodeError::InvalidLogKey) && *final(self) == *old(
                    self,
                ),
                Some(n) => if n * STRIDE + msg > u64::MAX {
                    r == Err::<u64, NodeError>(NodeError::OffsetOverflow) && *final(self) == *old(
                        self,
                    )
                } else {
                    &&& r == Ok::<u64, NodeError>((n * STRIDE + msg) as u64)
                    &&& final(self).partitions() == old(self).partitions().insert(
                        key@,
                        partition_of(old(self).partitions(), key@).insert(msg),
                    )
                },
            },
    {
        let n = match parse_key(&key) {
            Some(n) => n,
            None => return Err(NodeError::InvalidLogKey),
        };
        if n > (u64::MAX - msg) / STRIDE {
            let ghost q: int = (0xFFFF_FFFF_FFFF_FFFFint - msg as int) / 10000;
            assert((n as int) * 10000 + (msg as int) > 0xFFFF_FFFF_FFFF_FFFFint) by (nonlinear_arith)
                requires
                    (n as int) > q,
                    q == (0xFFFF_FFFF_FFFF_FFFFint - msg as int) / 10000,
            ;
            return Err(NodeError::OffsetOverflow);
        }
        let ghost q: int = (0xFFFF_FFFF_FFFF_FFFFint - msg as int) / 10000;
        assert((n as int) * 10000 + (msg as int) <= 0xFFFF_FFFF_FFFF_FFFFint) by (nonlinear_arith)
            requires
                (n as int) <= q,
                q == (0xFFFF_FFFF_FFFF_FFFFint - msg as int) / 10000,
                (msg as int) <= 0xFFFF_FFFF_FFFF_FFFFint,
        ;
        proof {
            use_type_invariant(&self.log);
        }
        let ghost before = self.partitions();
        let mut part = match self.log.get(&key) {
            Some(p) => p.copy(),
            None => ValueSet::new(),
        };
        assert(part@ == partition_of(before, key@));
        part.insert(msg);
        let ghost log_before = self.log@;
        self.log.insert(key, part);
        proof {
            assert(self.partitions() =~= before.insert(key@, partition_of(before, key@).insert(msg)));
        }
        Ok(n * STRIDE + msg)
    }

    /// Answers one poll request under `key`, which reads as `n`: the values
    /// from the floor of `offset` up whose global offset fits in 64 bits,
    /// ascending, each with that offset.
    fn poll_key(&self, key: &String, n: u64, offset: u64, part: &ValueSet) -> (r: (
        String,
        Vec<(u64, u64)>,
    ))
        requires
            self.wf(),
            key_number(key@) == Some(n),
            self.log@.contains_key(key@),
            self.log@[key@] == *part,
        ensures
            polled_entry(r, (key@, offset), self.partitions()),
    {
        let floor = if offset % STRIDE >= 1 {
            offset % STRIDE
        } else {
            1
        };
        let ghost keep = |x: u64| x >= floor && offset_fits(key@, x);
        let values: Vec<u64> = if n <= u64::MAX / STRIDE {
            assert(n * STRIDE <= u64::MAX) by (nonlinear_arith)
                requires
                    n <= u64::MAX / STRIDE,
                    STRIDE == 10000,
            ;
            let fitting = part.between(0, u64::MAX - n * STRIDE);
            let v = fitting.at_least(floor);
            assert(fitting@.filter(|x: u64| x >= floor) =~= part@.filter(keep));
            v
        } else {
            assert forall|x: u64| !offset_fits(key@, x) by {
                assert(n * STRIDE > u64::MAX) by (nonlinear_arith)
                    requires
                        n > u64::MAX / STRIDE,
                        STRIDE == 10000,
                ;
            }
            assert(Seq::<u64>::empty().to_set() =~= part@.filter(keep));
            Vec::new()
        };
        let ghost parts = self.partitions();
        assert(parts[key@] == part@);
        let mut pairs: Vec<(u64, u64)> = Vec::new();
        let mut i: usize = 0;
        while i < values.len()
            invariant
                key_number(key@) == Some(n),
                strictly_increasing(values@),
                values@.to_set() == part@.filter(keep),
                keep == (|x: u64| x >= floor && offset_fits(key@, x)),
                i <= values@.len(),
                pairs@.len() == i,
                forall|j: int|
                    0 <= j < i ==> (#[trigger] pairs@[j]).1 == values@[j] && pairs@[j].0 == n
                        * STRIDE + values@[j],
            decreases values@.len() - i,
        {
            let v = values[i];
            assert(values@.to_set().contains(v));
            assert(offset_fits(key@, v));
            pairs.push((n * STRIDE + v, v));
            i = i + 1;
        }
        proof {
            let seconds = pairs@.map_values(|p: (u64, u64)| p.1);
            assert(seconds =~= values@);
            assert(floor == poll_floor(offset));
            assert(part@.filter(keep) =~= parts[key@].filter(
                |v: u64| v >= poll_floor(offset) && offset_fits(key@, v),
            ));
            assert forall|a: int, b: int| 0 <= a < b < pairs@.len() implies pairs@[a].1 < pairs@[b].1 by {
                assert(pairs@[a].1 == values@[a]);
                assert(pairs@[b].1 == values@[b]);
            }
        }
        (key.clone(), pairs)
    }

    /// Answers a poll: for each requested key that has a partition and reads
    /// as a number, in request order, its values from the floor of the
    /// requested offset up. Other keys are left out, and so are values whose
    /// global offset would not fit in 64 bits.
    pub fn poll(&self, offsets: &Vec<(String, u64)>) -> (r: Vec<(String, Vec<(u64, u64)>)>)
        requires
            self.wf(),
        ensures
            r@.len() == served(pair_views(offsets@), self.partitions()).len(),
            forall|i: int|
                0 <= i < r@.len() ==> #[trigger] polled_entry(
                    r@[i],
                    served(pair_views(offsets@), self.partitions())[i],
                    self.partitions(),
                ),
            forall|i: int, j: int|
                0 <= i < r@.len() && 0 <= j < r@[i].1@.len() ==> #[trigger] r@[i].1@[j].1
                    >= served(pair_views(offsets@), self.partitions())[i].1 % STRIDE,
    {
        proof {
            use_type_invariant(&self.log);
        }
        let ghost reqs = pair_views(offsets@);
        let ghost parts = self.partitions();
        let mut out: Vec<(String, Vec<(u64, u64)>)> = Vec::new();
        let mut i: usize = 0;
        while i < offsets.len()
            invariant
                self.wf(),
                self.log.wf(),
                reqs == pair_views(offsets@),
                parts == self.partitions(),
                i <= offsets@.len(),
                out@.len() == served(reqs.subrange(0, i as int), parts).len(),
                forall|j: int|
                    0 <= j < out@.len() ==> #[trigger] polled_entry(
                        out@[j],
                        served(reqs.subrange(0, i as int), parts)[j],
                        parts,
                    ),
            decreases offsets@.len() - i,
        {
            let key = &offsets[i].0;
            let offset = offsets[i].1;
            proof {
                assert(reqs.subrange(0, i + 1).drop_last() =~= reqs.subrange(0, i as int));
                assert(reqs.subrange(0, i + 1).last() == (key@, offset));
            }
            match (self.log.get(key), parse_key(key)) {
                (Some(part), Some(n)) => {
                    let entry = self.poll_key(key, n, offset, part);
                    out.push(entry);
                    proof {
                        let prev = served(reqs.subrange(0, i as int), parts);
                        assert forall|j: int| 0 <= j < out@.len() implies #[trigger] polled_entry(
                            out@[j],
                            served(reqs.subrange(0, i + 1), parts)[j],
                            parts,
                        ) by {
                        }
                    }
                },
                _ => {},
            }
            i = i + 1;
        }
        proof {
            assert(reqs.subrange(0, reqs.len() as int) =~= reqs);
            let s = served(reqs, parts);
            assert forall|a: int, b: int|
                0 <= a < out@.len() && 0 <= b < out@[a].1@.len() implies #[trigger] out@[a].1@[b].1
                    >= s[a].1 % STRIDE by {
                assert(polled_entry(out@[a], s[a], parts));
                let seconds = out@[a].1@.map_values(|p: (u64, u64)| p.1);
                assert(seconds[b] == out@[a].1@[b].1);
                assert(seconds.to_set().contains(seconds[b]));
            }
        }
        out
    }

    /// Records each commit of `offsets` in order: the offset a key last
    /// committed replaces the one before, whatever their order.
    pub fn commit_offsets(&mut self, offsets: &Vec<(String, u64)>)
        requires
            old(self).wf(),
        ensures
            final(self).wf(),
            final(self).commits() == apply_commits(old(self).commits(), pair_views(offsets@)),
            final(self).partitions() == old(self).partitions(),
            final(self).node_id() == old(self).node_id(),
            final(self).next_id() == old(self).next_id(),
            final(self).peers() == old(self).peers(),
    {
        let ghost reqs = pair_views(offsets@);
        let ghost start = self.committed@;
        let mut i: usize = 0;
        while i < offsets.len()
            invariant
                self.wf(),
                reqs == pair_views(offsets@),
                i <= offsets@.len(),
                self.committed@ == apply_commits(start, reqs.subrange(0, i as int)),
                self.node == old(self).node,
                self.next_id == old(self).next_id,
                self.peers == old(self).peers,
                self.log == old(self).log,
            decreases offsets@.len() - i,
        {
            proof {
                use_type_invariant(&self.committed);
                assert(reqs.subrange(0, i + 1).drop_last() =~= reqs.subrange(0, i as int));
            }
            self.committed.insert(offsets[i].0.clone(), offsets[i].1);
            i = i + 1;
        }
        assert(reqs.subrange(0, reqs.len() as int) =~= reqs);
    }

    /// The recorded commit of each of `keys` that has one, in order.
    pub fn list_committed_offsets(&self, keys: &Vec<String>) -> (r: Vec<(String, u64)>)
        requires
            self.wf(),
        ensures
            pair_views(r@) == listed(string_views(keys@), self.commits()),
    {
        proof {
            use_type_invariant(&self.committed);
        }
        let ghost ks = string_views(keys@);
        let mut out: Vec<(String, u64)> = Vec::new();
        let mut i: usize = 0;
        while i < keys.len()
            invariant
                self.committed.wf(),
                ks == string_views(keys@),
                i <= keys@.len(),
                pair_views(out@) == listed(ks.subrange(0, i as int), self.commits()),
            decreases keys@.len() - i,
        {
            proof {
                assert(ks.subrange(0, i + 1).drop_last() =~= ks.subrange(0, i as int));
            }
            match self.committed.get(&keys[i]) {
                Some(v) => {
                    let ghost prev = out@;
                    out.push((keys[i].clone(), *v));
                    assert(pair_views(out@) =~= pair_views(prev).push((keys@[i as int]@, *v)));
                },
                None => {},
            }
            i = i + 1;
        }
        assert(ks.subrange(0, ks.len() as int) =~= ks);
        out
    }

    /// Merges gossip carrying a peer's partitions: under every key, the
    /// peer's values join this node's.
    pub fn merge(&mut self, remote: &StrMap<ValueSet>)
        requires
            old(self).wf(),
        ensures
            final(self).wf(),
            final(self).partitions() == merge_parts(
                old(self).partitions(),
                remote@.map_values(|s: ValueSet| s@),
            ),
            final(self).commits() == old(self).commits(),
            final(self).node_id() == old(self).node_id(),
            final(self).next_id() == old(self).next_id(),
            final(self).peers() == old(self).peers(),
    {
        proof {
            use_type_invariant(remote);
            remote.lemma_prefix_map_ends();
        }
        let ghost start = self.partitions();
        assert forall|k: Seq<char>| #[trigger] merge_parts(start, Map::empty()).contains_key(k)
            implies merge_parts(start, Map::empty())[k] =~= start[k] by {}
        assert(merge_parts(start, Map::empty()) =~= start);
        let n = remote.len();
        let mut i: usize = 0;
        while i < n
            invariant
                self.wf(),
                remote.wf(),
                n == remote.key_list().len(),
                i <= n,
                self.node == old(self).node,
                self.next_id == old(self).next_id,
                self.peers == old(self).peers,
                self.committed == old(self).committed,
                self.partitions() == merge_parts(
                    start,
                    remote.prefix_map(i as int).map_values(|s: ValueSet| s@),
                ),
                remote.prefix_map(n as int) == remote@,
            decreases n - i,
        {
            proof {
                use_type_invariant(&self.log);
                remote.lemma_prefix_map(i as int);
            }
            let key = remote.key_at(i);
            let incoming = remote.value_at(i);
            let ghost prefix = remote.prefix_map(i as int).map_values(|s: ValueSet| s@);
            let ghost before = self.partitions();
            let ghost log_before = self.log@;
            let mut part = match self.log.get(key) {
                Some(p) => p.copy(),
                None => ValueSet::new(),
            };
            part.union_with(incoming);
            self.log.insert(key.clone(), part);
            proof {
                let next = remote.prefix_map(i + 1).map_values(|s: ValueSet| s@);
                assert(next =~= prefix.insert(key@, incoming@));
                assert(!prefix.contains_key(key@));
                assert(before == merge_parts(start, prefix));
                assert forall|k: Seq<char>| #[trigger] self.partitions().contains_key(k)
                    <==> merge_parts(start, next).contains_key(k) by {
                    assert(self.partitions().contains_key(k) == (before.contains_key(k) || k == key@));
                }
                assert forall|k: Seq<char>| #[trigger] self.partitions().contains_key(k)
                    implies self.partitions()[k] =~= merge_parts(start, next)[k] by {
                    if k != key@ {
                        assert(self.partitions()[k] == before[k]);
                        assert(partition_of(next, k) == partition_of(prefix, k));
                    } else {
                        assert(partition_of(prefix, k) =~= Set::<u64>::empty());
                        assert(partition_of(before, k) =~= partition_of(start, k));
                        assert(self.partitions()[k] == part@);
                    }
                }
                assert(self.partitions() =~= merge_parts(start, next));
            }
            i = i + 1;
        }
    }

    /// One round of gossip: every partition, to each peer in order. Each
    /// message takes the next id. Fails, changing nothing, when the ids would
    /// run out.
    pub fn gossip_tick(&mut self) -> (r: Result<Vec<Message<LogPayload>>, NodeError>)
        requires
            old(self).wf(),
        ensures
            final(self).wf(),
            log_gossip_sent(*old(self), *final(self), r),
    {
        proof {
            use_type_invariant(&self.log);
        }
        let n = self.peers.len();
        if n > usize::MAX - self.next_id {
            return Err(NodeError::IdsExhausted);
        }
        let mut out: Vec<Message<LogPayload>> = Vec::new();
        let mut i: usize = 0;
        let ghost start = self.next_id;
        while i < n
            invariant
                self.wf(),
                self.log.wf(),
                self.node == old(self).node,
                self.log == old(self).log,
                self.committed == old(self).committed,
                self.peers == old(self).peers,
                n == self.peers@.len(),
                i <= n,
                start == old(self).next_id,
                start + n <= usize::MAX,
                self.next_id == start + i,
                out@.len() == i,
                forall|j: int|
                    0 <= j < i ==> #[trigger] is_log_gossip_to(out@[j], *old(self), j, (start + j) as usize),
            decreases n - i,
        {
            let history = self.log.copy();
            out.push(
                Message {
                    src: self.node.clone(),
                    dest: self.peers[i].clone(),
                    body: Body {
                        id: Some(self.next_id),
                        in_reply_to: None,
                        payload: LogPayload::Gossip { history },
                    },
                },
            );
            self.next_id = self.next_id + 1;
            i = i + 1;
        }
        Ok(out)
    }

    /// Handles one message: a client's send, poll, commit or listing, or a
    /// peer's gossip. Replies are ignored.
    pub fn handle_message(&mut self, m: Message<LogPayload>) -> (r: Result<
        Vec<Message<LogPayload>>,
        NodeError,
    >)
        requires
            old(self).wf(),
        ensures
            final(self).wf(),
            log_message_handled(*old(self), *final(self), m, r),
    {
        match m.body.payload {
            LogPayload::Send { key, msg } => {
                if self.next_id == usize::MAX {
                    return Err(NodeError::IdsExhausted);
                }
                match self.send(key, msg) {
                    Ok(offset) => {
                        let out = reply(m.dest, m.src, m.body.id, &mut self.next_id, LogPayload::SendOk { offset });
                        Ok(vec![out])
                    },
                    Err(e) => Err(e),
                }
            },
            LogPayload::Poll { offsets } => {
                if self.next_id == usize::MAX {
                    return Err(NodeError::IdsExhausted);
                }
                let msgs = self.poll(&offsets);
                let out = reply(m.dest, m.src, m.body.id, &mut self.next_id, LogPayload::PollOk { msgs });
                Ok(vec![out])
            },
            LogPayload::CommitOffsets { offsets } => {
                if self.next_id == usize::MAX {
                    return Err(NodeError::IdsExhausted);
                }
                self.commit_offsets(&offsets);
                let out = reply(m.dest, m.src, m.body.id, &mut self.next_id, LogPayload::CommitOffsetsOk);
                Ok(vec![out])
            },
            LogPayload::ListCommittedOffsets { keys } => {
                if self.next_id == usize::MAX {
                    return Err(NodeError::IdsExhausted);
                }
                let offsets = self.list_committed_offsets(&keys);
                let out = reply(
                    m.dest,
                    m.src,
                    m.body.id,
                    &mut self.next_id,
                    LogPayload::ListCommittedOffsetsOk { offsets },
                );
                Ok(vec![out])
            },
            LogPayload::Gossip { history } => {
                self.merge(&history);
                Ok(Vec::new())
            },
            _ => Ok(Vec::new()),
        }
    }

    /// Handles one event: a message, or the ticker's call to gossip.
    pub fn handle_event(&mut self, input: Event<LogPayload, Tick>) -> (r: Result<
        Vec<Message<LogPayload>>,
        NodeError,
    >)
        requires
            old(self).wf(),
        ensures
            final(self).wf(),
            match input {
                Event::Message(m) => log_message_handled(*old(self), *final(self), m, r),
                Event::Injected(_) => log_gossip_sent(*old(self), *final(self), r),
                Event::EOF => *final(self) == *old(self) && r is Ok && r->Ok_0@.len() == 0,
            },
    {
        match input {
            Event::Message(m) => self.handle_message(m),
            Event::Injected(Tick::Gossip) => self.gossip_tick(),
            Event::EOF => Ok(Vec::new()),
        }
    }
}

impl Node<(), LogPayload, Tick> for LogNode {
    closed spec fn inv(&self) -> bool {
        self.wf()
    }

    fn from_init(state: (), init: Init) -> (r: Result<Self, NodeError>)
        ensures
            r is Ok,
            r->Ok_0.wf(),
            r->Ok_0.node_id() == init.node_id@,
            r->Ok_0.next_id() == 1,
            r->Ok_0.peers() == others(string_views(init.node_ids@), init.node_id@),
            r->Ok_0.partitions() == Map::<Seq<char>, Set<u64>>::empty(),
            r->Ok_0.commits() == Map::<Seq<char>, u64>::empty(),
    {
        Ok(LogNode::new(init))
    }

    fn gossip_period_ms() -> Option<u64> {
        Some(250)
    }

    fn handle_input(&mut self, input: Event<LogPayload, Tick>) -> (r: Result<
        Vec<Message<LogPayload>>,
        NodeError,
    >)
        ensures
            match input {
                Event::Message(m) => log_message_handled(*old(self), *final(self), m, r),
                Event::Injected(_) => log_gossip_sent(*old(self), *final(self), r),
                Event::EOF => *final(self) == *old(self) && r is Ok && r->Ok_0@.len() == 0,
            },
    {
        self.handle_event(input)
    }
}


/// The nodes' own handlers perform the exchanges of the convergence model:
/// when node `a`'s gossip round sends its `i`-th message to node `b`, and
/// `b` handles it, `b` joins in `a`'s whole state and `a` is unchanged.
pub proof fn lemma_handlers_exchange(
    nodes: Seq<Map<Seq<char>, Set<u64>>>,
    a: int,
    b: int,
    pre_a: LogNode,
    post_a: LogNode,
    sent: Result<Vec<Message<LogPayload>>, NodeError>,
    i: int,
    pre_b: LogNode,
    post_b: LogNode,
    answered: Result<Vec<Message<LogPayload>>, NodeError>,
)
    requires
        0 <= a < nodes.len(),
        0 <= b < nodes.len(),
        nodes[a] == pre_a.partitions(),
        nodes[b] == pre_b.partitions(),
        log_gossip_sent(pre_a, post_a, sent),
        sent is Ok,
        0 <= i < sent->Ok_0@.len(),
        log_message_handled(pre_b, post_b, sent->Ok_0@[i], answered),
    ensures
        post_a.partitions() == pre_a.partitions(),
        nodes.update(b, parts_join()(nodes[b], nodes[a])) == nodes.update(b, post_b.partitions()),
        answered is Ok && answered->Ok_0@.len() == 0,
{
    assert(is_log_gossip_to(sent->Ok_0@[i], pre_a, i, (pre_a.next_id() + i) as usize));
}

} // verus!
