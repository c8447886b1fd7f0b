//! Convergence of the broadcast service: over a connected neighbour graph,
//! rounds of gossip bring every node to the union of all values.
//!
//! A run is modelled as the replicas of its nodes, indexed from 0, with
//! `ids[i]` naming node `i`. A delivery from `a` to `b` is what the broadcast
//! node's gossip round and gossip handling do together: `a` sends the values
//! it does not know `b` to hold, and `b` merges them.

use crate::broadcast::{gossip_sent, is_gossip_to, known_of, merge_seen, message_handled, BroadcastNode, SetReplica};
use crate::message::Message;
use crate::node::NodeError;
use crate::broadcast::BroadcastPayload;
use vstd::prelude::*;

verus! {

/// Node `b`'s replica after gossip from node `a` arrived.
pub open spec fn deliver(nodes: Seq<SetReplica>, ids: Seq<Seq<char>>, a: int, b: int) -> Seq<
    SetReplica,
> {
    let seen = nodes[a].messages.difference(known_of(nodes[a].known, ids[b]));
    nodes.update(b, merge_seen(nodes[b], (ids[a], seen)))
}

/// The replicas after the deliveries of `edges`, first to last.
pub open spec fn deliver_all(nodes: Seq<SetReplica>, ids: Seq<Seq<char>>, edges: Seq<(int, int)>) -> Seq<
    SetReplica,
>
    decreases edges.len(),
{
    if edges.len() == 0 {
        nodes
    } else {
        let before = deliver_all(nodes, ids, edges.drop_last());
        deliver(before, ids, edges.last().0, edges.last().1)
    }
}

/// The replicas after `k` rounds, each delivering along every edge.
pub open spec fn rounds(nodes: Seq<SetReplica>, ids: Seq<Seq<char>>, edges: Seq<(int, int)>, k: nat) -> Seq<
    SetReplica,
>
    decreases k,
{
    if k == 0 {
        nodes
    } else {
        deliver_all(rounds(nodes, ids, edges, (k - 1) as nat), ids, edges)
    }
}

/// Every edge joins two nodes of the run.
pub open spec fn edges_valid(n: int, edges: Seq<(int, int)>) -> bool {
    forall|i: int| 0 <= i < edges.len() ==> 0 <= #[trigger] edges[i].0 < n && 0 <= edges[i].1 < n
}

/// What any node believes another holds, that node does hold.
pub open spec fn sound(nodes: Seq<SetReplica>, ids: Seq<Seq<char>>) -> bool {
    forall|a: int, b: int|
        0 <= a < nodes.len() && 0 <= b < nodes.len() ==> #[trigger] known_of(
            nodes[a].known,
            ids[b],
        ).subset_of(nodes[b].messages)
}

/// Every node holds at least what it held in `before`.
pub open spec fn grown(before: Seq<SetReplica>, after: Seq<SetReplica>) -> bool {
    &&& after.len() == before.len()
    &&& forall|x: int| 0 <= x < before.len() ==> #[trigger] before[x].messages.subset_of(after[x].messages)
}

/// Every node holds only values of `u`.
pub open spec fn within(nodes: Seq<SetReplica>, u: Set<u64>) -> bool {
    forall|x: int| 0 <= x < nodes.len() ==> #[trigger] nodes[x].messages.subset_of(u)
}

/// The values that some node holds.
pub open spec fn all_values(nodes: Seq<SetReplica>) -> Set<u64> {
    Set::new(|v: u64| exists|x: int| 0 <= x < nodes.len() && #[trigger] nodes[x].messages.contains(v))
}

/// `p` is a path of the graph from `a` to `b`.
pub open spec fn is_path(edges: Seq<(int, int)>, p: Seq<int>, a: int, b: int) -> bool {
    &&& p.len() >= 1
    &&& p[0] == a
    &&& p.last() == b
    &&& forall|i: int| 0 <= i < p.len() - 1 ==> edges.contains((#[trigger] p[i], p[i + 1]))
}

/// Some path of the graph from `a` to `b` has at most `k` edges.
pub open spec fn reaches_within(edges: Seq<(int, int)>, a: int, b: int, k: nat) -> bool {
    exists|p: Seq<int>| #[trigger] is_path(edges, p, a, b) && p.len() <= k + 1
}

/// The nodes' own handlers perform the deliveries of the model: when node
/// `a`'s gossip round sends its `i`-th message to node `b`, and `b` handles
/// it, `b`'s replica becomes that of a delivery from `a` to `b`, and `a`'s
/// replica is unchanged.
pub proof fn lemma_handlers_deliver(
    nodes: Seq<SetReplica>,
    ids: Seq<Seq<char>>,
    a: int,
    b: int,
    pre_a: BroadcastNode,
    post_a: BroadcastNode,
    sent: Result<Vec<Message<BroadcastPayload>>, NodeError>,
    i: int,
    pre_b: BroadcastNode,
    post_b: BroadcastNode,
    answered: Result<Vec<Message<BroadcastPayload>>, NodeError>,
)
    requires
        ids.len() == nodes.len(),
        0 <= a < nodes.len(),
        0 <= b < nodes.len(),
        a != b,
        nodes[a] == pre_a.replica(),
        nodes[b] == pre_b.replica(),
        ids[a] == pre_a.node_id(),
        ids[b] == pre_b.node_id(),
        gossip_sent(pre_a, post_a, sent),
        sent is Ok,
        0 <= i < sent->Ok_0@.len(),
        pre_b.node_id() == sent->Ok_0@[i].dest@,
        message_handled(pre_b, post_b, sent->Ok_0@[i], answered),
    ensures
        post_a.replica() == pre_a.replica(),
        deliver(nodes, ids, a, b) == nodes.update(b, post_b.replica()),
        answered is Ok && answered->Ok_0@.len() == 0,
{
    assert(is_gossip_to(sent->Ok_0@[i], pre_a, i, (pre_a.next_id() + i) as usize));
}

/// One delivery keeps beliefs sound, only adds values the sender held, and
/// leaves the receiver holding everything the sender held.
pub proof fn lemma_deliver(nodes: Seq<SetReplica>, ids: Seq<Seq<char>>, a: int, b: int, u: Set<u64>)
    requires
        ids.len() == nodes.len(),
        ids.no_duplicates(),
        0 <= a < nodes.len(),
        0 <= b < nodes.len(),
        sound(nodes, ids),
        within(nodes, u),
    ensures
        sound(deliver(nodes, ids, a, b), ids),
        within(deliver(nodes, ids, a, b), u),
        grown(nodes, deliver(nodes, ids, a, b)),
        nodes[a].messages.subset_of(deliver(nodes, ids, a, b)[b].messages),
{
    let after = deliver(nodes, ids, a, b);
    let seen = nodes[a].messages.difference(known_of(nodes[a].known, ids[b]));
    assert(known_of(nodes[a].known, ids[b]).subset_of(nodes[b].messages));
    assert forall|x: int, y: int| 0 <= x < after.len() && 0 <= y < after.len() implies #[trigger] known_of(
        after[x].known,
        ids[y],
    ).subset_of(after[y].messages) by {
        assert(known_of(nodes[x].known, ids[y]).subset_of(nodes[y].messages));
        if x == b && y == a {
            assert(known_of(after[x].known, ids[y]) =~= known_of(nodes[x].known, ids[y]).union(seen));
        } else if x == b {
            if ids[y] == ids[a] {
                assert(y == a);
            }
            assert(known_of(after[x].known, ids[y]) == known_of(nodes[x].known, ids[y]));
        }
    }
    assert forall|x: int| 0 <= x < after.len() implies #[trigger] after[x].messages.subset_of(u) by {
        assert(nodes[x].messages.subset_of(u));
        assert(nodes[a].messages.subset_of(u));
    }
}

/// A sequence of deliveries keeps beliefs sound and values within `u`, and
/// only adds values.
pub proof fn lemma_deliver_all(nodes: Seq<SetReplica>, ids: Seq<Seq<char>>, edges: Seq<(int, int)>, u: Set<u64>)
    requires
        ids.len() == nodes.len(),
        ids.no_duplicates(),
        edges_valid(nodes.len() as int, edges),
        sound(nodes, ids),
        within(nodes, u),
    ensures
        sound(deliver_all(nodes, ids, edges), ids),
        within(deliver_all(nodes, ids, edges), u),
        grown(nodes, deliver_all(nodes, ids, edges)),
    decreases edges.len(),
{
    if edges.len() > 0 {
        let rest = edges.drop_last();
        assert(edges_valid(nodes.len() as int, rest)) by {
            assert forall|i: int| 0 <= i < rest.len() implies 0 <= #[trigger] rest[i].0 < nodes.len()
                && 0 <= rest[i].1 < nodes.len() by {
                assert(rest[i] == edges[i]);
            }
        }
        lemma_deliver_all(nodes, ids, rest, u);
        let before = deliver_all(nodes, ids, rest);
        assert(edges.last() == edges[edges.len() - 1]);
        lemma_deliver(before, ids, edges.last().0, edges.last().1, u);
        let after = deliver_all(nodes, ids, edges);
        assert forall|x: int| 0 <= x < nodes.len() implies #[trigger] nodes[x].messages.subset_of(
            after[x].messages,
        ) by {
            assert(nodes[x].messages.subset_of(before[x].messages));
            assert(before[x].messages.subset_of(after[x].messages));
        }
    }
}

/// A round carries along each of its edges at least what the sender held
/// when the round began.
pub proof fn lemma_round_carries(
    nodes: Seq<SetReplica>,
    ids: Seq<Seq<char>>,
    edges: Seq<(int, int)>,
    j: int,
    u: Set<u64>,
)
    requires
        ids.len() == nodes.len(),
        ids.no_duplicates(),
        edges_valid(nodes.len() as int, edges),
        sound(nodes, ids),
        within(nodes, u),
        0 <= j < edges.len(),
    ensures
        nodes[edges[j].0].messages.subset_of(deliver_all(nodes, ids, edges)[edges[j].1].messages),
    decreases edges.len(),
{
    let rest = edges.drop_last();
    assert(edges_valid(nodes.len() as int, rest)) by {
        assert forall|i: int| 0 <= i < rest.len() implies 0 <= #[trigger] rest[i].0 < nodes.len()
            && 0 <= rest[i].1 < nodes.len() by {
            assert(rest[i] == edges[i]);
        }
    }
    lemma_deliver_all(nodes, ids, rest, u);
    let before = deliver_all(nodes, ids, rest);
    let (a, b) = edges.last();
    assert(edges.last() == edges[edges.len() - 1]);
    lemma_deliver(before, ids, a, b, u);
    let after = deliver_all(nodes, ids, edges);
    if j == edges.len() - 1 {
        assert(nodes[a].messages.subset_of(before[a].messages));
    } else {
        assert(rest[j] == edges[j]);
        lemma_round_carries(nodes, ids, rest, j, u);
        assert(before[edges[j].1].messages.subset_of(after[edges[j].1].messages));
    }
}

/// Rounds keep beliefs sound and values within `u`, and only add values.
pub proof fn lemma_rounds(nodes: Seq<SetReplica>, ids: Seq<Seq<char>>, edges: Seq<(int, int)>, k: nat, u: Set<u64>)
    requires
        ids.len() == nodes.len(),
        ids.no_duplicates(),
        edges_valid(nodes.len() as int, edges),
        sound(nodes, ids),
        within(nodes, u),
    ensures
        sound(rounds(nodes, ids, edges, k), ids),
        within(rounds(nodes, ids, edges, k), u),
        grown(nodes, rounds(nodes, ids, edges, k)),
        forall|k2: nat| #![trigger rounds(nodes, ids, edges, k2)] k2 <= k ==> grown(
            rounds(nodes, ids, edges, k2),
            rounds(nodes, ids, edges, k),
        ),
    decreases k,
{
    if k > 0 {
        let k1 = (k - 1) as nat;
        lemma_rounds(nodes, ids, edges, k1, u);
        let prev = rounds(nodes, ids, edges, k1);
        lemma_deliver_all(prev, ids, edges, u);
        let cur = rounds(nodes, ids, edges, k);
        assert forall|k2: nat| #![trigger rounds(nodes, ids, edges, k2)] k2 <= k implies grown(
            rounds(nodes, ids, edges, k2),
            cur,
        ) by {
            if k2 < k {
                let mid = rounds(nodes, ids, edges, k2);
                assert forall|x: int| 0 <= x < mid.len() implies #[trigger] mid[x].messages.subset_of(
                    cur[x].messages,
                ) by {
                    assert(mid[x].messages.subset_of(prev[x].messages));
                    assert(prev[x].messages.subset_of(cur[x].messages));
                }
            }
        }
        assert forall|x: int| 0 <= x < nodes.len() implies #[trigger] nodes[x].messages.subset_of(
            cur[x].messages,
        ) by {
            assert(nodes[x].messages.subset_of(prev[x].messages));
            assert(prev[x].messages.subset_of(cur[x].messages));
        }
    }
}

/// After as many rounds as a path has edges, the path's last node holds
/// everything its first node held at the start.
pub proof fn lemma_path_carries(
    nodes: Seq<SetReplica>,
    ids: Seq<Seq<char>>,
    edges: Seq<(int, int)>,
    p: Seq<int>,
    a: int,
    b: int,
    u: Set<u64>,
)
    requires
        ids.len() == nodes.len(),
        ids.no_duplicates(),
        edges_valid(nodes.len() as int, edges),
        sound(nodes, ids),
        within(nodes, u),
        is_path(edges, p, a, b),
        0 <= a < nodes.len(),
    ensures
        nodes[a].messages.subset_of(rounds(nodes, ids, edges, (p.len() - 1) as nat)[b].messages),
    decreases p.len(),
{
    if p.len() == 1 {
    } else {
        let q = p.drop_last();
        let c = q.last();
        assert(q[q.len() - 1] == p[p.len() - 2]);
        assert forall|i: int| 0 <= i < q.len() - 1 implies edges.contains((#[trigger] q[i], q[i + 1])) by {
            assert(q[i] == p[i]);
            assert(q[i + 1] == p[i + 1]);
            assert(edges.contains((p[i], p[i + 1])));
        }
        assert(is_path(edges, q, a, c));
        assert(edges.contains((p[p.len() - 2], p[p.len() - 1])));
        let j = choose|j: int| 0 <= j < edges.len() && edges[j] == (p[p.len() - 2], p[p.len() - 1]);
        assert(edges[j].0 == c);
        lemma_path_carries(nodes, ids, edges, q, a, c, u);
        let k1 = (q.len() - 1) as nat;
        lemma_rounds(nodes, ids, edges, k1, u);
        let prev = rounds(nodes, ids, edges, k1);
        lemma_round_carries(prev, ids, edges, j, u);
    }
}

/// Convergence: on a graph where every node reaches every other by a path
/// of at most `k` edges, `k` rounds of gossip leave every node holding
/// exactly the values that some node held at the start, whatever it
/// believed of its peers, as long as those beliefs were true.
pub proof fn lemma_gossip_converges(
    nodes: Seq<SetReplica>,
    ids: Seq<Seq<char>>,
    edges: Seq<(int, int)>,
    k: nat,
)
    requires
        ids.len() == nodes.len(),
        ids.no_duplicates(),
        edges_valid(nodes.len() as int, edges),
        sound(nodes, ids),
        forall|a: int, b: int|
            0 <= a < nodes.len() && 0 <= b < nodes.len() ==> #[trigger] reaches_within(
                edges,
                a,
                b,
                k,
            ),
    ensures
        forall|b: int| 0 <= b < nodes.len() ==> #[trigger] rounds(nodes, ids, edges, k)[b].messages
            == all_values(nodes),
{
    let u = all_values(nodes);
    assert forall|x: int| 0 <= x < nodes.len() implies #[trigger] nodes[x].messages.subset_of(u) by {
        assert forall|v: u64| nodes[x].messages.contains(v) implies u.contains(v) by {}
    }
    lemma_rounds(nodes, ids, edges, k, u);
    let last = rounds(nodes, ids, edges, k);
    assert forall|b: int| 0 <= b < nodes.len() implies #[trigger] rounds(nodes, ids, edges, k)[b].messages
        == u by {
        assert forall|v: u64| u.contains(v) implies last[b].messages.contains(v) by {
            let a = choose|a: int| 0 <= a < nodes.len() && #[trigger] nodes[a].messages.contains(v);
            assert(reaches_within(edges, a, b, k));
            let p = choose|p: Seq<int>| #[trigger] is_path(edges, p, a, b) && p.len() <= k + 1;
            lemma_path_carries(nodes, ids, edges, p, a, b, u);
            let mid = rounds(nodes, ids, edges, (p.len() - 1) as nat);
            assert(grown(mid, last));
            assert(mid[b].messages.subset_of(last[b].messages));
        }
        assert(last[b].messages.subset_of(u));
        assert(last[b].messages =~= u);
    }
}

} // verus!
