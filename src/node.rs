//! What every node of the framework shares: the events it reacts to, its
//! failures, the handshake, and the interface a service implements.

use crate::message::{string_views, Body, Init, Message};
use vstd::prelude::*;

verus! {

/// What the runtime hands a node: a message from the network, an event that a
/// timer injected, or the end of input.
pub enum Event<Payload, Injected> {
    Message(Message<Payload>),
    Injected(Injected),
    EOF,
}

/// The event that the gossip ticker injects at each period.
pub enum Tick {
    Gossip,
}

/// Why a node cannot go on.
#[derive(PartialEq, Eq, Structural, Debug)]
pub enum NodeError {
    /// The topology assigned no neighbours to this node.
    MissingTopology,
    /// A log key does not read as a non-negative integer.
    InvalidLogKey,
    /// A global log offset would not fit in 64 bits.
    OffsetOverflow,
    /// A counter would exceed 64 bits.
    CounterOverflow,
    /// A node that needs no timer was handed an injected event.
    UnexpectedInjected,
    /// A reply that this node never asks for arrived as a request.
    UnexpectedReply,
    /// The node has used every message id.
    IdsExhausted,
}

/// The payload of the handshake.
pub enum InitPayload {
    Init(Init),
    InitOk,
}

/// The handshake: the first message must be an `Init` request. Gives its
/// content and the `InitOk` reply, which carries message id 0.
pub fn init_reply(init_msg: Message<InitPayload>) -> (r: Option<(Init, Message<InitPayload>)>)
    ensures
        r is Some <==> init_msg.body.payload is Init,
        r matches Some((init, reply)) ==> {
            &&& init_msg.body.payload == InitPayload::Init(init)
            &&& reply.src == init_msg.dest
            &&& reply.dest == init_msg.src
            &&& reply.body.id == Some(0usize)
            &&& reply.body.in_reply_to == init_msg.body.id
            &&& reply.body.payload is InitOk
        },
{
    match init_msg.body.payload {
        InitPayload::Init(init) => {
            let reply = Message {
                src: init_msg.dest,
                dest: init_msg.src,
                body: Body { id: Some(0), in_reply_to: init_msg.body.id, payload: InitPayload::InitOk },
            };
            Some((init, reply))
        },
        InitPayload::InitOk => None,
    }
}

/// The nodes of `ids` other than `node`, each once, in order of first
/// appearance.
pub open spec fn others(ids: Seq<Seq<char>>, node: Seq<char>) -> Seq<Seq<char>>
    decreases ids.len(),
{
    if ids.len() == 0 {
        Seq::empty()
    } else {
        let rest = others(ids.drop_last(), node);
        if ids.last() == node || rest.contains(ids.last()) {
            rest
        } else {
            rest.push(ids.last())
        }
    }
}

/// The nodes of `ids` other than `node`, each once, in order of first
/// appearance.
pub fn other_nodes(ids: &Vec<String>, node: &String) -> (r: Vec<String>)
    ensures
        string_views(r@) == others(string_views(ids@), node@),
{
    let ghost v = string_views(ids@);
    let mut r: Vec<String> = Vec::new();
    let mut i: usize = 0;
    while i < ids.len()
        invariant
            i <= ids@.len(),
            v == string_views(ids@),
            string_views(r@) == others(v.subrange(0, i as int), node@),
        decreases ids@.len() - i,
    {
        let id = &ids[i];
        proof {
            assert(v.subrange(0, i + 1).drop_last() =~= v.subrange(0, i as int));
            assert(v.subrange(0, i + 1).last() == id@);
        }
        let mut present = *id == *node;
        let mut j: usize = 0;
        while j < r.len() && !present
            invariant
                j <= r@.len(),
                present == (id@ == node@ || exists|l: int| 0 <= l < j && r@[l]@ == id@),
            decreases r@.len() - j,
        {
            if r[j] == *id {
                present = true;
            }
            j = j + 1;
        }
        proof {
            let rv = string_views(r@);
            if rv.contains(id@) && !present {
                let l = choose|l: int| 0 <= l < rv.len() && rv[l] == id@;
                assert(r@[l]@ == id@);
            }
            if present && id@ != node@ {
                let l = choose|l: int| 0 <= l < j && r@[l]@ == id@;
                assert(rv[l] == id@);
            }
        }
        if !present {
            r.push(id.clone());
            proof {
                assert(string_views(r@) =~= string_views(r@.drop_last()).push(id@));
                assert(r@.drop_last() =~= r@.subrange(0, r@.len() - 1));
            }
        }
        i = i + 1;
    }
    assert(v.subrange(0, v.len() as int) =~= v);
    r
}

/// A service run by the framework. The runtime builds it from the handshake,
/// then hands it every event in arrival order and sends what it returns.
pub trait Node<S, Payload, Injected>: Sized {
    /// The invariant the node keeps between events.
    spec fn inv(&self) -> bool;

    /// The node after the handshake.
    fn from_init(state: S, init: Init) -> (r: Result<Self, NodeError>)
        ensures
            r matches Ok(n) ==> n.inv(),
    ;

    /// The period of the gossip ticker in milliseconds, if the node gossips.
    fn gossip_period_ms() -> Option<u64>;

    /// Reacts to one event; gives the messages to send, or why the node
    /// cannot go on.
    fn handle_input(&mut self, input: Event<Payload, Injected>) -> (r: Result<
        Vec<Message<Payload>>,
        NodeError,
    >)
        requires
            old(self).inv(),
        ensures
            final(self).inv(),
    ;
}

} // verus!
