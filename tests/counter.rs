use ds_challenge::counter::{CounterNode, CounterPayload};
use ds_challenge::message::{Body, Init, Message};
use ds_challenge::node::{Event, NodeError, Tick};
use ds_challenge::str_map::StrMap;

fn node(id: &str, all: &[&str]) -> CounterNode {
    CounterNode::new(Init {
        node_id: id.to_string(),
        node_ids: all.iter().map(|s| s.to_string()).collect(),
    })
}

fn counts(entries: &[(&str, u64)]) -> StrMap<u64> {
    let mut m = StrMap::new();
    for (k, v) in entries {
        m.insert(k.to_string(), *v);
    }
    m
}

#[test]
fn read_sums_all_counts() {
    let mut a = node("a", &["a", "b", "c"]);
    assert_eq!(a.read(), 0);
    a.add(5).unwrap();
    a.add(2).unwrap();
    assert_eq!(a.read(), 7);
    a.merge(&counts(&[("b", 10), ("c", 1)]));
    assert_eq!(a.read(), 18);
}

#[test]
fn counter_read_after_convergence_equals_all_deltas() {
    let ids = ["a", "b", "c"];
    let mut nodes: Vec<CounterNode> = ids.iter().map(|i| node(i, &ids)).collect();
    nodes[0].add(3).unwrap();
    nodes[1].add(4).unwrap();
    nodes[2].add(10).unwrap();
    nodes[0].add(1).unwrap();
    // Deliver every node's gossip to every peer, twice and in reverse order.
    for _ in 0..2 {
        for from in (0..3).rev() {
            let out = nodes[from].handle_event(Event::Injected(Tick::Gossip)).unwrap();
            for m in out {
                let to = ids.iter().position(|i| *i == m.dest).unwrap();
                nodes[to].handle_event(Event::Message(m)).unwrap();
            }
        }
    }
    for n in &nodes {
        assert_eq!(n.read(), 18);
    }
}

#[test]
fn counter_merge_takes_maxima_and_is_idempotent() {
    let mut a = node("a", &["a", "b"]);
    a.add(4).unwrap();
    let g = counts(&[("a", 2), ("b", 6), ("z", 1)]);
    a.merge(&g);
    assert_eq!(a.read(), 11);
    a.merge(&g);
    assert_eq!(a.read(), 11);
}

#[test]
fn counter_merge_order_does_not_matter() {
    let g1 = counts(&[("b", 6), ("c", 2)]);
    let g2 = counts(&[("b", 3), ("c", 9)]);
    let mut x = node("a", &["a"]);
    let mut y = node("a", &["a"]);
    x.merge(&g1);
    x.merge(&g2);
    y.merge(&g2);
    y.merge(&g1);
    assert_eq!(x.read(), y.read());
    assert_eq!(x.read(), 15);
}

#[test]
fn counter_overflow_is_refused() {
    let mut a = node("a", &["a"]);
    a.add(u64::MAX).unwrap();
    assert_eq!(a.add(1), Err(NodeError::CounterOverflow));
    assert_eq!(a.read(), u64::MAX as u128);
    a.merge(&counts(&[("b", u64::MAX)]));
    assert_eq!(a.read(), 2 * (u64::MAX as u128));
}

#[test]
fn counter_requests_through_events() {
    let mut a = node("a", &["a", "b", "a"]);
    let msg = |id: usize, payload: CounterPayload| {
        Event::Message(Message {
            src: "c1".to_string(),
            dest: "a".to_string(),
            body: Body { id: Some(id), in_reply_to: None, payload },
        })
    };
    let out = a.handle_event(msg(1, CounterPayload::Add { delta: 9 })).unwrap();
    assert!(matches!(out[0].body.payload, CounterPayload::AddOk));
    assert_eq!(out[0].body.id, Some(1));
    let out = a.handle_event(msg(2, CounterPayload::Read)).unwrap();
    assert!(matches!(out[0].body.payload, CounterPayload::ReadOk { value: 9 }));
    assert_eq!(out[0].body.id, Some(2));
    let out = a.handle_event(Event::Injected(Tick::Gossip)).unwrap();
    assert_eq!(out.len(), 1);
    assert_eq!(out[0].dest, "b");
    assert_eq!(out[0].body.id, Some(3));
}
