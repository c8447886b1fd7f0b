//! The message envelope and the correlation of replies with requests.

use vstd::prelude::*;

verus! {

/// The handshake request's content: this node's identity and every node of the run.
pub struct Init {
    pub node_id: String,
    pub node_ids: Vec<String>,
}

/// The header of a message: its own id, the id it answers, and what it carries.
pub struct Body<Payload> {
    pub id: Option<usize>,
    pub in_reply_to: Option<usize>,
    pub payload: Payload,
}

/// A message travelling from `src` to `dest`.
pub struct Message<Payload> {
    pub src: String,
    pub dest: String,
    pub body: Body<Payload>,
}

/// `out` answers `inbound`: the endpoints are swapped, `in_reply_to` echoes
/// the inbound id, and `out` carries the id `id`.
pub open spec fn answers<Payload>(out: Message<Payload>, inbound: Message<Payload>, id: usize) -> bool {
    &&& out.src == inbound.dest
    &&& out.dest == inbound.src
    &&& out.body.id == Some(id)
    &&& out.body.in_reply_to == inbound.body.id
}

/// A copy of a list of strings.
pub fn copy_strings(v: &Vec<String>) -> (r: Vec<String>)
    ensures
        r@ == v@,
{
    let mut r: Vec<String> = Vec::new();
    let mut i: usize = 0;
    while i < v.len()
        invariant
            i <= v@.len(),
            r@ == v@.subrange(0, i as int),
        decreases v@.len() - i,
    {
        r.push(v[i].clone());
        i = i + 1;
    }
    assert(r@ =~= v@);
    r
}

/// The views of a list of strings.
pub open spec fn string_views(v: Seq<String>) -> Seq<Seq<char>> {
    v.map_values(|s: String| s@)
}

/// The reply of `from` to `to`, answering the message with id `in_reply_to`
/// and carrying `payload`; it takes its id from `next_id`, which advances by one.
pub fn reply<Payload>(
    from: String,
    to: String,
    in_reply_to: Option<usize>,
    next_id: &mut usize,
    payload: Payload,
) -> (r: Message<Payload>)
    requires
        *old(next_id) < usize::MAX,
    ensures
        r.src == from,
        r.dest == to,
        r.body.id == Some(*old(next_id)),
        r.body.in_reply_to == in_reply_to,
        r.body.payload == payload,
        *final(next_id) == *old(next_id) + 1,
{
    let id = *next_id;
    *next_id = id + 1;
    Message { src: from, dest: to, body: Body { id: Some(id), in_reply_to, payload } }
}

impl<Payload> Message<Payload> {
    /// The skeleton of the reply to this message: the endpoints swapped,
    /// `in_reply_to` echoing this message's id, and a fresh id drawn from
    /// `next_id`, which advances by one. The payload is carried over for the
    /// caller to replace.
    pub fn derive_response(self, next_id: &mut usize) -> (r: Message<Payload>)
        requires
            *old(next_id) < usize::MAX,
        ensures
            answers(r, self, *old(next_id)),
            r.body.payload == self.body.payload,
            *final(next_id) == *old(next_id) + 1,
    {
        let id = *next_id;
        *next_id = id + 1;
        Message {
            src: self.dest,
            dest: self.src,
            body: Body { id: Some(id), in_reply_to: self.body.id, payload: self.body.payload },
        }
    }
}

} // verus!
