//! The totally-available key-value store: each node runs transactions of
//! reads and writes against its own copy at once, without coordination, and
//! raises its values to those that peers gossip.

use crate::message::{answers, reply, Init, Message};
use crate::node::{Event, Node, NodeError};
use std::collections::HashMap;
use vstd::prelude::*;
use vstd::string::StringExecFns;

verus! {

broadcast use vstd::std_specs::hash::group_hash_axioms;

#[allow(inconsistent_fields)]
/// What a transaction node sends and receives. An operation is a name (`r`
/// or `w`), a key and, for a write, a value.
pub enum TxnPayload {
    Txn { txn: Vec<(String, u64, Option<u64>)> },
    TxnOk { txn: Vec<(String, u64, u64)> },
    Gossip { gossiped_log: Vec<(u64, u64)> },
}

/// The value of `key` in `log`; zero for a key never written.
pub open spec fn value_of(log: Map<u64, u64>, key: u64) -> u64 {
    if log.contains_key(key) {
        log[key]
    } else {
        0
    }
}

/// The views of the operations of a transaction.
pub open spec fn op_views(ops: Seq<(String, u64, Option<u64>)>) -> Seq<(Seq<char>, u64, Option<u64>)> {
    ops.map_values(|o: (String, u64, Option<u64>)| (o.0@, o.1, o.2))
}

/// The views of the results of a transaction.
pub open spec fn result_views(rs: Seq<(String, u64, u64)>) -> Seq<(Seq<char>, u64, u64)> {
    rs.map_values(|o: (String, u64, u64)| (o.0@, o.1, o.2))
}

/// Runs the operations `ops` against `log` in order: a write with a value
/// sets its key and reports it; a read reports the key's value, recording a
/// zero for a key never written; anything else is skipped. Gives the new log
/// and the reports.
pub open spec fn run_txn(log: Map<u64, u64>, ops: Seq<(Seq<char>, u64, Option<u64>)>) -> (
    Map<u64, u64>,
    Seq<(Seq<char>, u64, u64)>,
)
    decreases ops.len(),
{
    if ops.len() == 0 {
        (log, Seq::empty())
    } else {
        let (l, out) = run_txn(log, ops.drop_last());
        let (name, key, msg) = ops.last();
        if name == seq!['w'] {
            match msg {
                Some(v) => (l.insert(key, v), out.push((name, key, v))),
                None => (l, out),
            }
        } else if name == seq!['r'] {
            (l.insert(key, value_of(l, key)), out.push((name, key, value_of(l, key))))
        } else {
            (l, out)
        }
    }
}

/// The log after gossip carrying `entries`, merged in order: each raises
/// its key to its value, and a key never written takes it.
pub open spec fn merge_entries(log: Map<u64, u64>, entries: Seq<(u64, u64)>) -> Map<u64, u64>
    decreases entries.len(),
{
    if entries.len() == 0 {
        log
    } else {
        let l = merge_entries(log, entries.drop_last());
        let (k, v) = entries.last();
        if l.contains_key(k) && l[k] >= v {
            l
        } else {
            l.insert(k, v)
        }
    }
}

/// A node of the transaction service.
pub struct TxnNode {
    next_id: usize,
    own_log: HashMap<u64, u64>,
}

impl TxnNode {
    /// The id the next message of this node will carry.
    pub closed spec fn next_id(&self) -> usize {
        self.next_id
    }

    /// The value of each key this node holds.
    pub closed spec fn log(&self) -> Map<u64, u64> {
        self.own_log@
    }

    /// The node right after the handshake, holding no keys.
    pub fn new() -> (r: TxnNode)
        ensures
            r.next_id() == 1,
            r.log() == Map::<u64, u64>::empty(),
    {
        TxnNode { next_id: 1, own_log: HashMap::new() }
    }

    /// Runs a transaction against this node's copy.
    pub fn run(&mut self, ops: &Vec<(String, u64, Option<u64>)>) -> (r: Vec<(String, u64, u64)>)
        ensures
            (final(self).log(), result_views(r@)) == run_txn(old(self).log(), op_views(ops@)),
            final(self).next_id() == old(self).next_id(),
    {
        let w = String::from_str("w");
        let rd = String::from_str("r");
        proof {
            reveal_strlit("w");
            reveal_strlit("r");
        }
        let ghost views = op_views(ops@);
        let ghost start = self.own_log@;
        let mut out: Vec<(String, u64, u64)> = Vec::new();
        let mut i: usize = 0;
        while i < ops.len()
            invariant
                i <= ops@.len(),
                views == op_views(ops@),
                w@ == seq!['w'],
                rd@ == seq!['r'],
                self.next_id == old(self).next_id,
                (self.own_log@, result_views(out@)) == run_txn(start, views.subrange(0, i as int)),
            decreases ops@.len() - i,
        {
            let name = &ops[i].0;
            let key = ops[i].1;
            proof {
                assert(views.subrange(0, i + 1).drop_last() =~= views.subrange(0, i as int));
                assert(views.subrange(0, i + 1).last() == views[i as int]);
            }
            let ghost prev = out@;
            if *name == w {
                match ops[i].2 {
                    Some(v) => {
                        self.own_log.insert(key, v);
                        out.push((name.clone(), key, v));
                        assert(result_views(out@) =~= result_views(prev).push((name@, key, v)));
                    },
                    None => {},
                }
            } else if *name == rd {
                let v: u64 = match self.own_log.get(&key) {
                    Some(v) => *v,
                    None => 0,
                };
                self.own_log.insert(key, v);
                out.push((name.clone(), key, v));
                assert(result_views(out@) =~= result_views(prev).push((name@, key, v)));
            }
            i = i + 1;
        }
        assert(views.subrange(0, views.len() as int) =~= views);
        out
    }

    /// Merges a peer's gossiped values.
    pub fn merge(&mut self, entries: &Vec<(u64, u64)>)
        ensures
            final(self).log() == merge_entries(old(self).log(), entries@),
            final(self).next_id() == old(self).next_id(),
    {
        let ghost start = self.own_log@;
        let mut i: usize = 0;
        while i < entries.len()
            invariant
                i <= entries@.len(),
                self.next_id == old(self).next_id,
                self.own_log@ == merge_entries(start, entries@.subrange(0, i as int)),
            decreases entries@.len() - i,
        {
            let (k, v) = entries[i];
            proof {
                assert(entries@.subrange(0, i + 1).drop_last() =~= entries@.subrange(0, i as int));
                assert(entries@.subrange(0, i + 1).last() == entries@[i as int]);
            }
            let keep = match self.own_log.get(&k) {
                Some(own) => *own >= v,
                None => false,
            };
            if !keep {
                self.own_log.insert(k, v);
            }
            i = i + 1;
        }
        assert(entries@.subrange(0, entries@.len() as int) =~= entries@);
    }

    /// Answers a transaction with its reports, and merges gossip; replies,
    /// injected events and the end of input change nothing. Fails, changing
    /// nothing, when the ids ran out.
    pub fn handle_event(&mut self, input: Event<TxnPayload, ()>) -> (r: Result<
        Vec<Message<TxnPayload>>,
        NodeError,
    >)
        ensures
            match input {
                Event::Message(m) => match m.body.payload {
                    TxnPayload::Txn { txn } => if old(self).next_id() == usize::MAX {
                        r == Err::<Vec<Message<TxnPayload>>, NodeError>(NodeError::IdsExhausted)
                            && *final(self) == *old(self)
                    } else {
                        &&& final(self).next_id() == old(self).next_id() + 1
                        &&& final(self).log() == run_txn(old(self).log(), op_views(txn@)).0
                        &&& r is Ok
                        &&& r->Ok_0@.len() == 1
                        &&& answers(r->Ok_0@[0], m, old(self).next_id())
                        &&& r->Ok_0@[0].body.payload matches TxnPayload::TxnOk { txn: results }
                        &&& result_views(results@) == run_txn(old(self).log(), op_views(txn@)).1
                    },
                    TxnPayload::Gossip { gossiped_log } => {
                        &&& final(self).log() == merge_entries(old(self).log(), gossiped_log@)
                        &&& final(self).next_id() == old(self).next_id()
                        &&& r is Ok
                        &&& r->Ok_0@.len() == 0
                    },
                    TxnPayload::TxnOk { .. } => *final(self) == *old(self) && r is Ok
                        && r->Ok_0@.len() == 0,
                },
                _ => *final(self) == *old(self) && r is Ok && r->Ok_0@.len() == 0,
            },
    {
        match input {
            Event::Message(m) => match m.body.payload {
                TxnPayload::Txn { txn } => {
                    if self.next_id == usize::MAX {
                        return Err(NodeError::IdsExhausted);
                    }
                    let results = self.run(&txn);
                    let out = reply(m.dest, m.src, m.body.id, &mut self.next_id, TxnPayload::TxnOk { txn: results });
                    Ok(vec![out])
                },
                TxnPayload::Gossip { gossiped_log } => {
                    self.merge(&gossiped_log);
                    Ok(Vec::new())
                },
                TxnPayload::TxnOk { .. } => Ok(Vec::new()),
            },
            _ => Ok(Vec::new()),
        }
    }
}

impl Node<(), TxnPayload, ()> for TxnNode {
    open spec fn inv(&self) -> bool {
        self.next_id() >= 1
    }

    fn from_init(state: (), init: Init) -> (r: Result<Self, NodeError>)
        ensures
            r is Ok,
            r->Ok_0.next_id() == 1,
            r->Ok_0.log() == Map::<u64, u64>::empty(),
    {
        Ok(TxnNode::new())
    }

    fn gossip_period_ms() -> Option<u64> {
        None
    }

    fn handle_input(&mut self, input: Event<TxnPayload, ()>) -> (r: Result<
        Vec<Message<TxnPayload>>,
        NodeError,
    >)
        ensures
            match input {
                Event::Message(m) => match m.body.payload {
                    TxnPayload::Txn { txn } => if old(self).next_id() == usize::MAX {
                        r == Err::<Vec<Message<TxnPayload>>, NodeError>(NodeError::IdsExhausted)
                            && *final(self) == *old(self)
                    } else {
                        &&& final(self).next_id() == old(self).next_id() + 1
                        &&& final(self).log() == run_txn(old(self).log(), op_views(txn@)).0
                        &&& r is Ok
                        &&& r->Ok_0@.len() == 1
                        &&& answers(r->Ok_0@[0], m, old(self).next_id())
                        &&& r->Ok_0@[0].body.payload matches TxnPayload::TxnOk { txn: results }
                        &&& result_views(results@) == run_txn(old(self).log(), op_views(txn@)).1
                    },
                    TxnPayload::Gossip { gossiped_log } => {
                        &&& final(self).log() == merge_entries(old(self).log(), gossiped_log@)
                        &&& final(self).next_id() == old(self).next_id()
                        &&& r is Ok
                        &&& r->Ok_0@.len() == 0
                    },
                    TxnPayload::TxnOk { .. } => *final(self) == *old(self) && r is Ok
                        && r->Ok_0@.len() == 0,
                },
                _ => *final(self) == *old(self) && r is Ok && r->Ok_0@.len() == 0,
            },
    {
        self.handle_event(input)
    }
}

} // verus!
