//! The unique-id service: a node names each id it hands out after itself and
//! its message counter, which never repeats.

use crate::message::{answers, reply, Init, Message};
use crate::node::{Event, Node, NodeError};
use vstd::prelude::*;
use vstd::string::StringExecFns;

verus! {

/// What a unique-id node sends and receives.
pub enum UniquePayload {
    Generate,
    GenerateOk { guid: String },
}

/// The character of decimal digit `d`.
pub open spec fn digit_char(d: nat) -> char {
    seq!['0', '1', '2', '3', '4', '5', '6', '7', '8', '9'][d as int]
}

/// The decimal digits of `n`, without leading zeros.
pub open spec fn decimal(n: nat) -> Seq<char>
    decreases n,
{
    if n < 10 {
        seq![digit_char(n)]
    } else {
        decimal(n / 10).push(digit_char(n % 10))
    }
}

/// The digit `d` as a string.
fn digit_str(d: usize) -> (r: &'static str)
    requires
        d < 10,
    ensures
        r@ == seq![digit_char(d as nat)],
{
    if d == 0 {
        proof {
            reveal_strlit("0");
        }
        return "0";
    }
    if d == 1 {
        proof {
            reveal_strlit("1");
        }
        return "1";
    }
    if d == 2 {
        proof {
            reveal_strlit("2");
        }
        return "2";
    }
    if d == 3 {
        proof {
            reveal_strlit("3");
        }
        return "3";
    }
    if d == 4 {
        proof {
            reveal_strlit("4");
        }
        return "4";
    }
    if d == 5 {
        proof {
            reveal_strlit("5");
        }
        return "5";
    }
    if d == 6 {
        proof {
            reveal_strlit("6");
        }
        return "6";
    }
    if d == 7 {
        proof {
            reveal_strlit("7");
        }
        return "7";
    }
    if d == 8 {
        proof {
            reveal_strlit("8");
        }
        return "8";
    }
    proof {
        reveal_strlit("9");
    }
    "9"
}

/// The decimal digits of `n`.
fn decimal_string(n: usize) -> (r: String)
    ensures
        r@ == decimal(n as nat),
    decreases n,
{
    if n < 10 {
        String::from_str(digit_str(n))
    } else {
        let mut s = decimal_string(n / 10);
        s.append(digit_str(n % 10));
        s
    }
}

/// The id that node `node` hands out with counter value `n`: its name, a
/// dash, and the counter in decimal.
pub open spec fn guid_of(node: Seq<char>, n: nat) -> Seq<char> {
    node + seq!['-'] + decimal(n)
}

proof fn lemma_decimal_nonempty(n: nat)
    ensures
        decimal(n).len() >= 1,
        n >= 10 ==> decimal(n).len() >= 2,
    decreases n,
{
    if n >= 10 {
        lemma_decimal_nonempty(n / 10);
    }
}

proof fn lemma_digit_char_injective(d: nat, e: nat)
    requires
        d < 10,
        e < 10,
        digit_char(d) == digit_char(e),
    ensures
        d == e,
{
    let s = seq!['0', '1', '2', '3', '4', '5', '6', '7', '8', '9'];
    assert(s[d as int] as u32 == '0' as u32 + d);
    assert(s[e as int] as u32 == '0' as u32 + e);
}

/// Different numbers have different decimal digits.
pub proof fn lemma_decimal_injective(n: nat, m: nat)
    requires
        decimal(n) == decimal(m),
    ensures
        n == m,
    decreases n,
{
    lemma_decimal_nonempty(n);
    lemma_decimal_nonempty(m);
    if n < 10 && m < 10 {
        assert(decimal(n) == seq![digit_char(n)]);
        assert(decimal(m) == seq![digit_char(m)]);
        assert(decimal(n)[0] == digit_char(n));
        assert(decimal(m)[0] == digit_char(m));
        lemma_digit_char_injective(n, m);
    } else if n >= 10 && m >= 10 {
        assert(decimal(n) == decimal(n / 10).push(digit_char(n % 10)));
        assert(decimal(m) == decimal(m / 10).push(digit_char(m % 10)));
        assert(decimal(n).last() == digit_char(n % 10));
        assert(decimal(m).last() == digit_char(m % 10));
        lemma_digit_char_injective(n % 10, m % 10);
        assert(decimal(n).drop_last() =~= decimal(n / 10));
        assert(decimal(m).drop_last() =~= decimal(m / 10));
        lemma_decimal_injective(n / 10, m / 10);
    }
}

/// A node never hands out the same id for two counter values.
pub proof fn lemma_guids_distinct(node: Seq<char>, n: nat, m: nat)
    requires
        n != m,
    ensures
        guid_of(node, n) != guid_of(node, m),
{
    if guid_of(node, n) == guid_of(node, m) {
        let k = node.len() + 1;
        assert(guid_of(node, n).subrange(k as int, guid_of(node, n).len() as int) =~= decimal(n));
        assert(guid_of(node, m).subrange(k as int, guid_of(node, m).len() as int) =~= decimal(m));
        lemma_decimal_injective(n, m);
    }
}

/// A node of the unique-id service.
pub struct UniqueNode {
    node: String,
    next_id: usize,
}

impl UniqueNode {
    /// This node's identity.
    pub closed spec fn node_id(&self) -> Seq<char> {
        self.node@
    }

    /// The id the next message of this node will carry.
    pub closed spec fn next_id(&self) -> usize {
        self.next_id
    }

    /// The node right after the handshake.
    pub fn new(init: Init) -> (r: UniqueNode)
        ensures
            r.node_id() == init.node_id@,
            r.next_id() == 1,
    {
        UniqueNode { node: init.node_id, next_id: 1 }
    }

    /// Answers a `generate` with an id made of this node's name and its
    /// counter after the reply took its own id; so no two answers of a node
    /// carry the same id. A `generate_ok` arriving as a request is an error,
    /// as is an injected event; the end of input changes nothing. Fails,
    /// changing nothing, when the ids ran out.
    pub fn handle_event(&mut self, input: Event<UniquePayload, ()>) -> (r: Result<
        Vec<Message<UniquePayload>>,
        NodeError,
    >)
        ensures
            final(self).node_id() == old(self).node_id(),
            match input {
                Event::Message(m) => match m.body.payload {
                    UniquePayload::Generate => if old(self).next_id() >= usize::MAX - 1 {
                        r == Err::<Vec<Message<UniquePayload>>, NodeError>(NodeError::IdsExhausted)
                            && *final(self) == *old(self)
                    } else {
                        &&& final(self).next_id() == old(self).next_id() + 1
                        &&& r is Ok
                        &&& r->Ok_0@.len() == 1
                        &&& answers(r->Ok_0@[0], m, old(self).next_id())
                        &&& r->Ok_0@[0].body.payload matches UniquePayload::GenerateOk { guid }
                        &&& guid@ == guid_of(old(self).node_id(), (old(self).next_id() + 1) as nat)
                    },
                    UniquePayload::GenerateOk { .. } => r == Err::<
                        Vec<Message<UniquePayload>>,
                        NodeError,
                    >(NodeError::UnexpectedReply) && *final(self) == *old(self),
                },
                Event::Injected(_) => r == Err::<Vec<Message<UniquePayload>>, NodeError>(
                    NodeError::UnexpectedInjected,
                ) && *final(self) == *old(self),
                Event::EOF => *final(self) == *old(self) && r is Ok && r->Ok_0@.len() == 0,
            },
    {
        match input {
            Event::Message(m) => match m.body.payload {
                UniquePayload::Generate => {
                    if self.next_id >= usize::MAX - 1 {
                        return Err(NodeError::IdsExhausted);
                    }
                    let id = self.next_id;
                    let mut guid = self.node.clone();
                    guid.append("-");
                    let digits = decimal_string(id + 1);
                    guid.append(digits.as_str());
                    proof {
                        reveal_strlit("-");
                        assert(guid@ =~= guid_of(self.node@, (id + 1) as nat));
                    }
                    let out = reply(m.dest, m.src, m.body.id, &mut self.next_id, UniquePayload::GenerateOk { guid });
                    Ok(vec![out])
                },
                UniquePayload::GenerateOk { .. } => Err(NodeError::UnexpectedReply),
            },
            Event::Injected(()) => Err(NodeError::UnexpectedInjected),
            Event::EOF => Ok(Vec::new()),
        }
    }
}

impl Node<(), UniquePayload, ()> for UniqueNode {
    open spec fn inv(&self) -> bool {
        self.next_id() >= 1
    }

    fn from_init(state: (), init: Init) -> (r: Result<Self, NodeError>)
        ensures
            r is Ok,
            r->Ok_0.node_id() == init.node_id@,
            r->Ok_0.next_id() == 1,
    {
        Ok(UniqueNode::new(init))
    }

    fn gossip_period_ms() -> Option<u64> {
        None
    }

    fn handle_input(&mut self, input: Event<UniquePayload, ()>) -> (r: Result<
        Vec<Message<UniquePayload>>,
        NodeError,
    >)
        ensures
            final(self).node_id() == old(self).node_id(),
            match input {
                Event::Message(m) => match m.body.payload {
                    UniquePayload::Generate => if old(self).next_id() >= usize::MAX - 1 {
                        r == Err::<Vec<Message<UniquePayload>>, NodeError>(NodeError::IdsExhausted)
                            && *final(self) == *old(self)
                    } else {
                        &&& final(self).next_id() == old(self).next_id() + 1
                        &&& r is Ok
                        &&& r->Ok_0@.len() == 1
                        &&& answers(r->Ok_0@[0], m, old(self).next_id())
                        &&& r->Ok_0@[0].body.payload matches UniquePayload::GenerateOk { guid }
                        &&& guid@ == guid_of(old(self).node_id(), (old(self).next_id() + 1) as nat)
                    },
                    UniquePayload::GenerateOk { .. } => r == Err::<
                        Vec<Message<UniquePayload>>,
                        NodeError,
                    >(NodeError::UnexpectedReply) && *final(self) == *old(self),
                },
                Event::Injected(_) => r == Err::<Vec<Message<UniquePayload>>, NodeError>(
                    NodeError::UnexpectedInjected,
                ) && *final(self) == *old(self),
                Event::EOF => *final(self) == *old(self) && r is Ok && r->Ok_0@.len() == 0,
            },
    {
        self.handle_event(input)
    }
}

} // verus!
