//! The echo service: every `echo` request is answered with its own text.

use crate::message::{answers, reply, Init, Message};
use crate::node::{Event, Node, NodeError};
use vstd::prelude::*;

verus! {

/// What an echo node sends and receives.
pub enum EchoPayload {
    Echo { echo: String },
    EchoOk { echo: String },
}

/// A node of the echo service.
pub struct EchoNode {
    next_id: usize,
}

impl EchoNode {
    /// The id the next message of this node will carry.
    pub closed spec fn next_id(&self) -> usize {
        self.next_id
    }

    /// The node right after the handshake.
    pub fn new() -> (r: EchoNode)
        ensures
            r.next_id() == 1,
    {
        EchoNode { next_id: 1 }
    }

    /// Answers an `echo` with an `echo_ok` carrying the same text; ignores
    /// replies and the end of input. The node has no timer, so an injected
    /// event is an error. Fails, changing nothing, when the ids ran out.
    pub fn handle_event(&mut self, input: Event<EchoPayload, ()>) -> (r: Result<
        Vec<Message<EchoPayload>>,
        NodeError,
    >)
        ensures
            match input {
                Event::Message(m) => match m.body.payload {
                    EchoPayload::Echo { echo } => if old(self).next_id() == usize::MAX {
                        r == Err::<Vec<Message<EchoPayload>>, NodeError>(NodeError::IdsExhausted)
                            && *final(self) == *old(self)
                    } else {
                        &&& final(self).next_id() == old(self).next_id() + 1
                        &&& r is Ok
                        &&& r->Ok_0@.len() == 1
                        &&& answers(r->Ok_0@[0], m, old(self).next_id())
                        &&& r->Ok_0@[0].body.payload == EchoPayload::EchoOk { echo }
                    },
                    EchoPayload::EchoOk { .. } => *final(self) == *old(self) && r is Ok
                        && r->Ok_0@.len() == 0,
                },
                Event::Injected(_) => r == Err::<Vec<Message<EchoPayload>>, NodeError>(
                    NodeError::UnexpectedInjected,
                ) && *final(self) == *old(self),
                Event::EOF => *final(self) == *old(self) && r is Ok && r->Ok_0@.len() == 0,
            },
    {
        match input {
            Event::Message(m) => match m.body.payload {
                EchoPayload::Echo { echo } => {
                    if self.next_id == usize::MAX {
                        return Err(NodeError::IdsExhausted);
                    }
                    let out = reply(m.dest, m.src, m.body.id, &mut self.next_id, EchoPayload::EchoOk { echo });
                    Ok(vec![out])
                },
                EchoPayload::EchoOk { .. } => Ok(Vec::new()),
            },
            Event::Injected(()) => Err(NodeError::UnexpectedInjected),
            Event::EOF => Ok(Vec::new()),
        }
    }
}

impl Node<(), EchoPayload, ()> for EchoNode {
    open spec fn inv(&self) -> bool {
        self.next_id() >= 1
    }

    fn from_init(state: (), init: Init) -> (r: Result<Self, NodeError>)
        ensures
            r is Ok,
            r->Ok_0.next_id() == 1,
    {
        Ok(EchoNode::new())
    }

    fn gossip_period_ms() -> Option<u64> {
        None
    }

    fn handle_input(&mut self, input: Event<EchoPayload, ()>) -> (r: Result<
        Vec<Message<EchoPayload>>,
        NodeError,
    >)
        ensures
            match input {
                Event::Message(m) => match m.body.payload {
                    EchoPayload::Echo { echo } => if old(self).next_id() == usize::MAX {
                        r == Err::<Vec<Message<EchoPayload>>, NodeError>(NodeError::IdsExhausted)
                            && *final(self) == *old(self)
                    } else {
                        &&& final(self).next_id() == old(self).next_id() + 1
                        &&& r is Ok
                        &&& r->Ok_0@.len() == 1
                        &&& answers(r->Ok_0@[0], m, old(self).next_id())
                        &&& r->Ok_0@[0].body.payload == EchoPayload::EchoOk { echo }
                    },
                    EchoPayload::EchoOk { .. } => *final(self) == *old(self) && r is Ok
                        && r->Ok_0@.len() == 0,
                },
                Event::Injected(_) => r == Err::<Vec<Message<EchoPayload>>, NodeError>(
                    NodeError::UnexpectedInjected,
                ) && *final(self) == *old(self),
                Event::EOF => *final(self) == *old(self) && r is Ok && r->Ok_0@.len() == 0,
            },
    {
        self.handle_event(input)
    }
}

} // verus!
