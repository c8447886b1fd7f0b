use ds_challenge::broadcast::{BroadcastNode, BroadcastPayload};
use ds_challenge::message::{Body, Init, Message};
use ds_challenge::node::{Event, Node, NodeError, Tick};
use ds_challenge::value_set::ValueSet;

fn init(node: &str, all: &[&str]) -> Init {
    Init {
        node_id: node.to_string(),
        node_ids: all.iter().map(|s| s.to_string()).collect(),
    }
}

fn request(src: &str, dest: &str, id: usize, payload: BroadcastPayload) -> Event<BroadcastPayload, Tick> {
    Event::Message(Message {
        src: src.to_string(),
        dest: dest.to_string(),
        body: Body { id: Some(id), in_reply_to: None, payload },
    })
}

fn topology(entries: &[(&str, &[&str])]) -> BroadcastPayload {
    BroadcastPayload::Topology {
        topology: entries
            .iter()
            .map(|(n, ns)| (n.to_string(), ns.iter().map(|s| s.to_string()).collect()))
            .collect(),
    }
}

fn read_values(node: &BroadcastNode) -> Vec<u64> {
    node.read().to_vec()
}

#[test]
fn gossip_reaches_neighbour_after_one_round() {
    let mut a = BroadcastNode::new(init("a", &["a", "b"]));
    let mut b = BroadcastNode::new(init("b", &["a", "b"]));
    let topo: &[(&str, &[&str])] = &[("a", &["b"]), ("b", &["a"])];
    a.handle_event(request("c0", "a", 1, topology(topo))).unwrap();
    b.handle_event(request("c0", "b", 1, topology(topo))).unwrap();

    let out = a.handle_event(request("c1", "a", 2, BroadcastPayload::Broadcast { message: 5 })).unwrap();
    assert_eq!(out.len(), 1);
    assert!(matches!(out[0].body.payload, BroadcastPayload::BroadcastOk));
    assert_eq!(out[0].body.in_reply_to, Some(2));
    assert_eq!(out[0].dest, "c1");
    assert_eq!(out[0].src, "a");

    let gossip = a.handle_event(Event::Injected(Tick::Gossip)).unwrap();
    assert_eq!(gossip.len(), 1);
    assert_eq!(gossip[0].dest, "b");
    assert_eq!(gossip[0].body.in_reply_to, None);
    for m in gossip {
        let replies = b.handle_event(Event::Message(m)).unwrap();
        assert!(replies.is_empty());
    }
    assert_eq!(read_values(&b), vec![5]);

    let out = b.handle_event(request("c2", "b", 9, BroadcastPayload::Read)).unwrap();
    match &out[0].body.payload {
        BroadcastPayload::ReadOk { messages } => assert_eq!(messages.to_vec(), vec![5]),
        _ => panic!("expected read_ok"),
    }
}

#[test]
fn gossip_sends_only_what_the_peer_lacks() {
    let mut a = BroadcastNode::new(init("a", &["a", "b"]));
    let topo: &[(&str, &[&str])] = &[("a", &["b"])];
    a.handle_event(request("c0", "a", 1, topology(topo))).unwrap();
    a.insert(1);
    a.insert(2);
    a.insert(3);
    // b told us it has 2 and 7.
    a.handle_gossip(&"b".to_string(), &ValueSet::from_values(&vec![2, 7]));
    assert_eq!(read_values(&a), vec![1, 2, 3, 7]);
    let out = a.gossip_tick().unwrap();
    assert_eq!(out.len(), 1);
    match &out[0].body.payload {
        BroadcastPayload::Gossip { seen } => assert_eq!(seen.to_vec(), vec![1, 3]),
        _ => panic!("expected gossip"),
    }
}

#[test]
fn gossip_ids_increase() {
    let mut a = BroadcastNode::new(init("a", &["a", "b", "c"]));
    let topo: &[(&str, &[&str])] = &[("a", &["b", "c"])];
    let r = a.handle_event(request("c0", "a", 1, topology(topo))).unwrap();
    assert_eq!(r[0].body.id, Some(1));
    let out = a.gossip_tick().unwrap();
    assert_eq!(out.len(), 2);
    assert_eq!(out[0].body.id, Some(2));
    assert_eq!(out[1].body.id, Some(3));
    assert_eq!(out[0].dest, "b");
    assert_eq!(out[1].dest, "c");
}

#[test]
fn missing_topology_is_fatal() {
    let mut a = BroadcastNode::new(init("a", &["a", "b"]));
    let topo: &[(&str, &[&str])] = &[("b", &["a"])];
    let r = a.handle_event(request("c0", "a", 1, topology(topo)));
    assert!(matches!(r, Err(NodeError::MissingTopology)));
    assert!(matches!(a.configure_topology(&vec![]), Err(NodeError::MissingTopology)));
}

#[test]
fn broadcast_gossip_merge_is_idempotent() {
    let mut a = BroadcastNode::new(init("a", &["a", "b"]));
    let seen = ValueSet::from_values(&vec![4, 8]);
    a.handle_gossip(&"b".to_string(), &seen);
    let once = read_values(&a);
    a.handle_gossip(&"b".to_string(), &seen);
    assert_eq!(read_values(&a), once);
    assert_eq!(once, vec![4, 8]);
}

#[test]
fn broadcast_gossip_merge_order_does_not_matter() {
    let g1 = ValueSet::from_values(&vec![1, 9]);
    let g2 = ValueSet::from_values(&vec![9, 3]);
    let mut x = BroadcastNode::new(init("x", &["x", "p", "q"]));
    let mut y = BroadcastNode::new(init("x", &["x", "p", "q"]));
    x.handle_gossip(&"p".to_string(), &g1);
    x.handle_gossip(&"q".to_string(), &g2);
    y.handle_gossip(&"q".to_string(), &g2);
    y.handle_gossip(&"p".to_string(), &g1);
    y.handle_gossip(&"p".to_string(), &g1);
    assert_eq!(read_values(&x), read_values(&y));
    assert_eq!(read_values(&x), vec![1, 3, 9]);
}

#[test]
fn broadcast_of_known_value_changes_nothing() {
    let mut a = BroadcastNode::new(init("a", &["a"]));
    a.insert(6);
    a.insert(6);
    assert_eq!(read_values(&a), vec![6]);
}

#[test]
fn broadcast_node_through_trait() {
    let mut a = <BroadcastNode as Node<(), BroadcastPayload, Tick>>::from_init((), init("a", &["a"])).unwrap();
    assert_eq!(<BroadcastNode as Node<(), BroadcastPayload, Tick>>::gossip_period_ms(), Some(300));
    let out = a.handle_input(Event::EOF).unwrap();
    assert!(out.is_empty());
    let out = a.handle_input(request("c", "a", 3, BroadcastPayload::BroadcastOk)).unwrap();
    assert!(out.is_empty());
}

#[test]
fn gossip_converges_on_a_line_topology() {
    let ids = ["a", "b", "c", "d"];
    let topo: &[(&str, &[&str])] = &[("a", &["b"]), ("b", &["a", "c"]), ("c", &["b", "d"]), ("d", &["c"])];
    let mut nodes: Vec<BroadcastNode> = ids.iter().map(|i| BroadcastNode::new(init(i, &ids))).collect();
    for (i, n) in nodes.iter_mut().enumerate() {
        n.handle_event(request("c0", ids[i], 1, topology(topo))).unwrap();
    }
    nodes[0].insert(10);
    nodes[3].insert(40);
    nodes[1].insert(20);
    for _ in 0..3 {
        for from in 0..ids.len() {
            let out = nodes[from].handle_event(Event::Injected(Tick::Gossip)).unwrap();
            for m in out {
                let to = ids.iter().position(|i| *i == m.dest).unwrap();
                nodes[to].handle_event(Event::Message(m)).unwrap();
            }
        }
    }
    for n in &nodes {
        assert_eq!(read_values(n), vec![10, 20, 40]);
    }
}
