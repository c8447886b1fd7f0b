//! The set-union store: a broadcast service that disseminates integers over a
//! configured neighbour topology, sending each neighbour only what it is not
//! yet known to have.

use crate::merge::{lemma_merge_order_free, merge_all, merge_commutes, merge_idempotent};
use crate::message::{answers, copy_strings, reply, string_views, Body, Init, Message};
use crate::node::{Event, Node, NodeError, Tick};
use crate::str_map::StrMap;
use crate::value_set::ValueSet;
use vstd::prelude::*;

verus! {

/// What a broadcast node sends and receives.
pub enum BroadcastPayload {
    Broadcast { message: u64 },
    BroadcastOk,
    Read,
    ReadOk { messages: ValueSet },
    Topology { topology: Vec<(String, Vec<String>)> },
    TopologyOk,
    Gossip { seen: ValueSet },
}

/// The replicated state of a broadcast node: the values it holds, and for
/// each peer the values that peer is known to hold.
pub struct SetReplica {
    pub messages: Set<u64>,
    pub known: Map<Seq<char>, Set<u64>>,
}

/// What `peer` is known to hold; nothing for a peer never heard from.
pub open spec fn known_of(known: Map<Seq<char>, Set<u64>>, peer: Seq<char>) -> Set<u64> {
    if known.contains_key(peer) {
        known[peer]
    } else {
        Set::empty()
    }
}

/// The replica after gossip from `g.0` that carried the values `g.1`.
pub open spec fn merge_seen(r: SetReplica, g: (Seq<char>, Set<u64>)) -> SetReplica {
    SetReplica {
        messages: r.messages.union(g.1),
        known: r.known.insert(g.0, known_of(r.known, g.0).union(g.1)),
    }
}

/// Receiving the same gossip twice leaves the replica as receiving it once.
pub proof fn lemma_set_gossip_idempotent(r: SetReplica, g: (Seq<char>, Set<u64>))
    ensures
        merge_seen(merge_seen(r, g), g) == merge_seen(r, g),
{
    let once = merge_seen(r, g);
    let twice = merge_seen(once, g);
    assert(twice.messages =~= once.messages);
    assert(known_of(once.known, g.0).union(g.1) =~= known_of(once.known, g.0));
    assert(twice.known =~= once.known);
}

/// Two gossip payloads merged in either order give the same replica.
pub proof fn lemma_set_gossip_commutes(
    r: SetReplica,
    a: (Seq<char>, Set<u64>),
    b: (Seq<char>, Set<u64>),
)
    ensures
        merge_seen(merge_seen(r, a), b) == merge_seen(merge_seen(r, b), a),
{
    let ab = merge_seen(merge_seen(r, a), b);
    let ba = merge_seen(merge_seen(r, b), a);
    assert(ab.messages =~= ba.messages);
    if a.0 == b.0 {
        assert(known_of(r.known, a.0).union(a.1).union(b.1) =~= known_of(r.known, a.0).union(
            b.1,
        ).union(a.1));
    }
    assert(ab.known =~= ba.known);
}

/// Any two sequences of gossip payloads holding the same payloads, in
/// whatever order and repetition, bring a replica to the same state.
pub proof fn lemma_set_gossip_order_free(
    r: SetReplica,
    gs1: Seq<(Seq<char>, Set<u64>)>,
    gs2: Seq<(Seq<char>, Set<u64>)>,
)
    requires
        gs1.to_set() == gs2.to_set(),
    ensures
        merge_all(r, gs1, |s: SetReplica, g: (Seq<char>, Set<u64>)| merge_seen(s, g)) == merge_all(
            r,
            gs2,
            |s: SetReplica, g: (Seq<char>, Set<u64>)| merge_seen(s, g),
        ),
{
    let f = |s: SetReplica, g: (Seq<char>, Set<u64>)| merge_seen(s, g);
    assert forall|a: (Seq<char>, Set<u64>), b: (Seq<char>, Set<u64>), s: SetReplica|
        #[trigger] f(f(s, b), a) == f(f(s, a), b) by {
        lemma_set_gossip_commutes(s, a, b);
    }
    assert forall|s: SetReplica, a: (Seq<char>, Set<u64>)| #[trigger] f(f(s, a), a) == f(s, a) by {
        lemma_set_gossip_idempotent(s, a);
    }
    assert(merge_commutes(f));
    assert(merge_idempotent(f));
    lemma_merge_order_free(r, gs1, gs2, f);
}

/// The neighbours that a topology assigns to `node`: those of the first entry
/// for it.
pub open spec fn topology_entry(t: Seq<(String, Vec<String>)>, node: Seq<char>) -> Option<
    Seq<Seq<char>>,
>
    decreases t.len(),
{
    if t.len() == 0 {
        None
    } else if t[0].0@ == node {
        Some(string_views(t[0].1@))
    } else {
        topology_entry(t.drop_first(), node)
    }
}

/// `m` is the gossip of `node` to its `i`-th neighbour, with id `id`: it
/// carries the values that neighbour is not known to hold.
pub open spec fn is_gossip_to(m: Message<BroadcastPayload>, node: BroadcastNode, i: int, id: usize) -> bool {
    &&& m.src@ == node.node_id()
    &&& m.dest@ == node.neighbours()[i]
    &&& m.body.id == Some(id)
    &&& m.body.in_reply_to is None
    &&& m.body.payload matches BroadcastPayload::Gossip { seen }
    &&& seen@ == node.replica().messages.difference(known_of(node.replica().known, node.neighbours()[i]))
}

/// The result `r` of one gossip round of `pre`, which left `post`: one
/// message per neighbour, in order, or a failure that changed nothing when
/// the ids would run out.
pub open spec fn gossip_sent(
    pre: BroadcastNode,
    post: BroadcastNode,
    r: Result<Vec<Message<BroadcastPayload>>, NodeError>,
) -> bool {
    if pre.next_id() + pre.neighbours().len() > usize::MAX {
        r == Err::<Vec<Message<BroadcastPayload>>, NodeError>(NodeError::IdsExhausted) && post == pre
    } else {
        &&& post.replica() == pre.replica()
        &&& post.node_id() == pre.node_id()
        &&& post.neighbours() == pre.neighbours()
        &&& post.next_id() == pre.next_id() + pre.neighbours().len()
        &&& r is Ok
        &&& r->Ok_0@.len() == pre.neighbours().len()
        &&& forall|i: int|
            0 <= i < r->Ok_0@.len() ==> #[trigger] is_gossip_to(
                r->Ok_0@[i],
                pre,
                i,
                (pre.next_id() + i) as usize,
            )
    }
}

/// `r` holds the one reply of `pre` to `m`, whose payload satisfies `ok`,
/// and `post` has used the id it carries; or, when `pre` had no id left, `r`
/// says so and nothing changed.
pub open spec fn replied(
    pre: BroadcastNode,
    post: BroadcastNode,
    m: Message<BroadcastPayload>,
    r: Result<Vec<Message<BroadcastPayload>>, NodeError>,
    ok: spec_fn(BroadcastPayload) -> bool,
) -> bool {
    if pre.next_id() == usize::MAX {
        r == Err::<Vec<Message<BroadcastPayload>>, NodeError>(NodeError::IdsExhausted) && post == pre
    } else {
        &&& post.next_id() == pre.next_id() + 1
        &&& post.node_id() == pre.node_id()
        &&& r is Ok
        &&& r->Ok_0@.len() == 1
        &&& answers(r->Ok_0@[0], m, pre.next_id())
        &&& ok(r->Ok_0@[0].body.payload)
    }
}

/// How `pre` handles message `m`, leaving `post` and answering `r`.
pub open spec fn message_handled(
    pre: BroadcastNode,
    post: BroadcastNode,
    m: Message<BroadcastPayload>,
    r: Result<Vec<Message<BroadcastPayload>>, NodeError>,
) -> bool {
    match m.body.payload {
        BroadcastPayload::Broadcast { message } => {
            &&& replied(pre, post, m, r, |p: BroadcastPayload| p is BroadcastOk)
            &&& pre.next_id() < usize::MAX ==> post.replica() == (SetReplica {
                messages: pre.replica().messages.insert(message),
                ..pre.replica()
            }) && post.neighbours() == pre.neighbours()
        },
        BroadcastPayload::Read => {
            &&& replied(
                pre,
                post,
                m,
                r,
                |p: BroadcastPayload|
                    p matches BroadcastPayload::ReadOk { messages } && messages@
                        == pre.replica().messages,
            )
            &&& post.replica() == pre.replica()
            &&& post.neighbours() == pre.neighbours()
        },
        BroadcastPayload::Topology { topology } => match topology_entry(topology@, pre.node_id()) {
            None => r == Err::<Vec<Message<BroadcastPayload>>, NodeError>(
                NodeError::MissingTopology,
            ) && post == pre,
            Some(n) => {
                &&& replied(pre, post, m, r, |p: BroadcastPayload| p is TopologyOk)
                &&& post.replica() == pre.replica()
                &&& pre.next_id() < usize::MAX ==> post.neighbours() == n
            },
        },
        BroadcastPayload::Gossip { seen } => {
            &&& post.replica() == merge_seen(pre.replica(), (m.src@, seen@))
            &&& post.node_id() == pre.node_id()
            &&& post.next_id() == pre.next_id()
            &&& post.neighbours() == pre.neighbours()
            &&& r is Ok
            &&& r->Ok_0@.len() == 0
        },
        _ => post == pre && r is Ok && r->Ok_0@.len() == 0,
    }
}

/// A node of the broadcast service.
pub struct BroadcastNode {
    node: String,
    next_id: usize,
    messages: ValueSet,
    known: StrMap<ValueSet>,
    neighbourhood: Vec<String>,
}

impl BroadcastNode {
    /// This node's identity.
    pub closed spec fn node_id(&self) -> Seq<char> {
        self.node@
    }

    /// The id the next message of this node will carry.
    pub closed spec fn next_id(&self) -> usize {
        self.next_id
    }

    /// The neighbours this node gossips to, in order.
    pub closed spec fn neighbours(&self) -> Seq<Seq<char>> {
        string_views(self.neighbourhood@)
    }

    /// The replicated state.
    pub closed spec fn replica(&self) -> SetReplica {
        SetReplica {
            messages: self.messages@,
            known: self.known@.map_values(|s: ValueSet| s@),
        }
    }

    /// The representation is sound.
    pub closed spec fn wf(&self) -> bool {
        self.known.wf()
    }

    /// The node right after the handshake: no values, every node of the run
    /// known to hold nothing, no neighbours until a topology arrives.
    pub fn new(init: Init) -> (r: BroadcastNode)
        ensures
            r.wf(),
            r.node_id() == init.node_id@,
            r.next_id() == 1,
            r.neighbours() == Seq::<Seq<char>>::empty(),
            r.replica().messages == Set::<u64>::empty(),
            r.replica().known.dom() == string_views(init.node_ids@).to_set(),
            forall|k: Seq<char>| #[trigger]
                r.replica().known.contains_key(k) ==> r.replica().known[k] == Set::<u64>::empty(),
    {
        let mut known: StrMap<ValueSet> = StrMap::new();
        let mut i: usize = 0;
        while i < init.node_ids.len()
            invariant
                i <= init.node_ids@.len(),
                known.wf(),
                known@.dom() == string_views(init.node_ids@.subrange(0, i as int)).to_set(),
                forall|k: Seq<char>| #[trigger]
                    known@.contains_key(k) ==> known@[k]@ == Set::<u64>::empty(),
            decreases init.node_ids@.len() - i,
        {
            known.insert(init.node_ids[i].clone(), ValueSet::new());
            proof {
                let s = init.node_ids@;
                assert(string_views(s.subrange(0, i + 1)) =~= string_views(s.subrange(0, i as int)).push(s[i as int]@));
                string_views(s.subrange(0, i as int)).lemma_push_to_set_commute(s[i as int]@);
            }
            i = i + 1;
        }
        assert(init.node_ids@.subrange(0, init.node_ids@.len() as int) =~= init.node_ids@);
        let r = BroadcastNode {
            node: init.node_id,
            next_id: 1,
            messages: ValueSet::new(),
            known,
            neighbourhood: Vec::new(),
        };
        assert(r.neighbours() =~= Seq::<Seq<char>>::empty());
        assert(r.replica().known.dom() =~= known@.dom());
        r
    }

    /// The values this node holds.
    pub fn read(&self) -> (r: ValueSet)
        requires
            self.wf(),
        ensures
            r@ == self.replica().messages,
    {
        self.messages.copy()
    }

    /// Adds a value received from a client. Adding a value again changes nothing.
    pub fn insert(&mut self, value: u64)
        requires
            old(self).wf(),
        ensures
            final(self).wf(),
            final(self).replica() == (SetReplica {
                messages: old(self).replica().messages.insert(value),
                ..old(self).replica()
            }),
            final(self).node_id() == old(self).node_id(),
            final(self).next_id() == old(self).next_id(),
            final(self).neighbours() == old(self).neighbours(),
    {
        self.messages.insert(value);
    }

    /// Merges gossip from `from` that carried the values `seen`: they join
    /// this node's values and what `from` is known to hold.
    pub fn handle_gossip(&mut self, from: &String, seen: &ValueSet)
        requires
            old(self).wf(),
        ensures
            final(self).wf(),
            final(self).replica() == merge_seen(old(self).replica(), (from@, seen@)),
            final(self).node_id() == old(self).node_id(),
            final(self).next_id() == old(self).next_id(),
            final(self).neighbours() == old(self).neighbours(),
    {
        let ghost before = self.replica();
        self.messages.union_with(seen);
        let mut peer_known = match self.known.get(from) {
            Some(k) => k.copy(),
            None => ValueSet::new(),
        };
        assert(peer_known@ == known_of(before.known, from@));
        peer_known.union_with(seen);
        self.known.insert(from.clone(), peer_known);
        proof {
            let after = self.replica();
            let expected = merge_seen(before, (from@, seen@));
            assert(after.known =~= expected.known);
        }
    }

    /// The position of the first entry of `topology` for this node.
    fn topology_index(&self, topology: &Vec<(String, Vec<String>)>) -> (r: Option<usize>)
        ensures
            r is None <==> topology_entry(topology@, self.node_id()) is None,
            r matches Some(i) ==> i < topology@.len() && topology_entry(topology@, self.node_id())
                == Some(string_views(topology@[i as int].1@)),
    {
        let mut i: usize = 0;
        assert(topology@.subrange(0, topology@.len() as int) =~= topology@);
        while i < topology.len()
            invariant
                i <= topology@.len(),
                topology_entry(topology@, self.node@) == topology_entry(
                    topology@.subrange(i as int, topology@.len() as int),
                    self.node@,
                ),
            decreases topology@.len() - i,
        {
            let ghost rest = topology@.subrange(i as int, topology@.len() as int);
            assert(rest.drop_first() =~= topology@.subrange(i + 1, topology@.len() as int));
            assert(rest[0] == topology@[i as int]);
            if topology[i].0 == self.node {
                return Some(i);
            }
            i = i + 1;
        }
        assert(topology@.subrange(i as int, topology@.len() as int).len() == 0);
        None
    }

    /// Takes the neighbours that `topology` assigns to this node; fails,
    /// changing nothing, when it assigns none.
    pub fn configure_topology(&mut self, topology: &Vec<(String, Vec<String>)>) -> (r: Result<
        (),
        NodeError,
    >)
        requires
            old(self).wf(),
        ensures
            final(self).wf(),
            topology_entry(topology@, old(self).node_id()) is None ==> r == Err::<(), NodeError>(
                NodeError::MissingTopology,
            ) && *final(self) == *old(self),
            topology_entry(topology@, old(self).node_id()) matches Some(n) ==> r is Ok
                && final(self).neighbours() == n,
            final(self).replica() == old(self).replica(),
            final(self).node_id() == old(self).node_id(),
            final(self).next_id() == old(self).next_id(),
    {
        match self.topology_index(topology) {
            Some(i) => {
                self.neighbourhood = copy_strings(&topology[i].1);
                Ok(())
            },
            None => Err(NodeError::MissingTopology),
        }
    }

    /// One round of gossip: for each neighbour, in order, a message carrying
    /// the values that neighbour is not known to hold. Each message takes the
    /// next id. Fails, changing nothing, when the ids would run out.
    pub fn gossip_tick(&mut self) -> (r: Result<Vec<Message<BroadcastPayload>>, NodeError>)
        requires
            old(self).wf(),
        ensures
            final(self).wf(),
            gossip_sent(*old(self), *final(self), r),
    {
        let n = self.neighbourhood.len();
        if n > usize::MAX - self.next_id {
            return Err(NodeError::IdsExhausted);
        }
        let mut out: Vec<Message<BroadcastPayload>> = Vec::new();
        let mut i: usize = 0;
        let ghost start = self.next_id;
        while i < n
            invariant
                self.wf(),
                self.node == old(self).node,
                self.messages == old(self).messages,
                self.known == old(self).known,
                self.neighbourhood == old(self).neighbourhood,
                n == self.neighbourhood@.len(),
                i <= n,
                start + n <= usize::MAX,
                self.next_id == start + i,
                out@.len() == i,
                forall|j: int|
                    0 <= j < i ==> #[trigger] is_gossip_to(out@[j], *old(self), j, (start + j) as usize),
            decreases n - i,
        {
            let peer = &self.neighbourhood[i];
            let delta = match self.known.get(peer) {
                Some(k) => self.messages.difference(k),
                None => self.messages.difference(&ValueSet::new()),
            };
            out.push(
                Message {
                    src: self.node.clone(),
                    dest: peer.clone(),
                    body: Body {
                        id: Some(self.next_id),
                        in_reply_to: None,
                        payload: BroadcastPayload::Gossip { seen: delta },
                    },
                },
            );
            self.next_id = self.next_id + 1;
            i = i + 1;
        }
        Ok(out)
    }

    /// Handles one message: a client's value or read, the topology, or a
    /// peer's gossip. Replies are ignored.
    pub fn handle_message(&mut self, m: Message<BroadcastPayload>) -> (r: Result<
        Vec<Message<BroadcastPayload>>,
        NodeError,
    >)
        requires
            old(self).wf(),
        ensures
            final(self).wf(),
            message_handled(*old(self), *final(self), m, r),
    {
        let ghost pre = *self;
        match m.body.payload {
            BroadcastPayload::Broadcast { message } => {
                if self.next_id == usize::MAX {
                    return Err(NodeError::IdsExhausted);
                }
                self.insert(message);
                let out = reply(m.dest, m.src, m.body.id, &mut self.next_id, BroadcastPayload::BroadcastOk);
                Ok(vec![out])
            },
            BroadcastPayload::Read => {
                if self.next_id == usize::MAX {
                    return Err(NodeError::IdsExhausted);
                }
                let messages = self.read();
                let out = reply(m.dest, m.src, m.body.id, &mut self.next_id, BroadcastPayload::ReadOk { messages });
                Ok(vec![out])
            },
            BroadcastPayload::Topology { topology } => {
                match self.topology_index(&topology) {
                    None => Err(NodeError::MissingTopology),
                    Some(i) => {
                        if self.next_id == usize::MAX {
                            return Err(NodeError::IdsExhausted);
                        }
                        self.neighbourhood = copy_strings(&topology[i].1);
                        let out = reply(m.dest, m.src, m.body.id, &mut self.next_id, BroadcastPayload::TopologyOk);
                        Ok(vec![out])
                    },
                }
            },
            BroadcastPayload::Gossip { seen } => {
                self.handle_gossip(&m.src, &seen);
                Ok(Vec::new())
            },
            _ => Ok(Vec::new()),
        }
    }

    /// Handles one event: a message, or the ticker's call to gossip.
    pub fn handle_event(&mut self, input: Event<BroadcastPayload, Tick>) -> (r: Result<
        Vec<Message<BroadcastPayload>>,
        NodeError,
    >)
        requires
            old(self).wf(),
        ensures
            final(self).wf(),
            match input {
                Event::Message(m) => message_handled(*old(self), *final(self), m, r),
                Event::Injected(_) => gossip_sent(*old(self), *final(self), r),
                Event::EOF => *final(self) == *old(self) && r is Ok && r->Ok_0@.len() == 0,
            },
    {
        match input {
            Event::Message(m) => self.handle_message(m),
            Event::Injected(Tick::Gossip) => self.gossip_tick(),
            Event::EOF => Ok(Vec::new()),
        }
    }
}

impl Node<(), BroadcastPayload, Tick> for BroadcastNode {
    closed spec fn inv(&self) -> bool {
        self.wf()
    }

    fn from_init(state: (), init: Init) -> (r: Result<Self, NodeError>)
        ensures
            r is Ok,
            r->Ok_0.wf(),
            r->Ok_0.node_id() == init.node_id@,
            r->Ok_0.next_id() == 1,
            r->Ok_0.neighbours() == Seq::<Seq<char>>::empty(),
            r->Ok_0.replica().messages == Set::<u64>::empty(),
            r->Ok_0.replica().known.dom() == string_views(init.node_ids@).to_set(),
            forall|k: Seq<char>| #[trigger]
                r->Ok_0.replica().known.contains_key(k) ==> r->Ok_0.replica().known[k] == Set::<
                    u64,
                >::empty(),
    {
        Ok(BroadcastNode::new(init))
    }

    fn gossip_period_ms() -> Option<u64> {
        Some(300)
    }

    fn handle_input(&mut self, input: Event<BroadcastPayload, Tick>) -> (r: Result<
        Vec<Message<BroadcastPayload>>,
        NodeError,
    >)
        ensures
            match input {
                Event::Message(m) => message_handled(*old(self), *final(self), m, r),
                Event::Injected(_) => gossip_sent(*old(self), *final(self), r),
                Event::EOF => *final(self) == *old(self) && r is Ok && r->Ok_0@.len() == 0,
            },
    {
        self.handle_event(input)
    }
}

} // verus!
