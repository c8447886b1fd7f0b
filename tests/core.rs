use ds_challenge::echo::{EchoNode, EchoPayload};
use ds_challenge::message::{Body, Init, Message};
use ds_challenge::node::{init_reply, other_nodes, Event, InitPayload, Node, NodeError};
use ds_challenge::str_map::StrMap;
use ds_challenge::unique::{UniqueNode, UniquePayload};
use ds_challenge::value_set::ValueSet;

#[test]
fn handshake_replies_with_id_zero() {
    let msg = Message {
        src: "c0".to_string(),
        dest: "n1".to_string(),
        body: Body {
            id: Some(17),
            in_reply_to: None,
            payload: InitPayload::Init(Init { node_id: "n1".to_string(), node_ids: vec!["n1".to_string()] }),
        },
    };
    let (init, reply) = init_reply(msg).unwrap();
    assert_eq!(init.node_id, "n1");
    assert_eq!(reply.src, "n1");
    assert_eq!(reply.dest, "c0");
    assert_eq!(reply.body.id, Some(0));
    assert_eq!(reply.body.in_reply_to, Some(17));
    assert!(matches!(reply.body.payload, InitPayload::InitOk));
}

#[test]
fn handshake_without_init_is_refused() {
    let msg = Message {
        src: "c0".to_string(),
        dest: "n1".to_string(),
        body: Body { id: None, in_reply_to: None, payload: InitPayload::InitOk },
    };
    assert!(init_reply(msg).is_none());
}

#[test]
fn derive_response_swaps_endpoints_and_takes_an_id() {
    let msg = Message {
        src: "c1".to_string(),
        dest: "n1".to_string(),
        body: Body { id: Some(4), in_reply_to: None, payload: 11u8 },
    };
    let mut next = 7usize;
    let r = msg.derive_response(&mut next);
    assert_eq!(next, 8);
    assert_eq!(r.src, "n1");
    assert_eq!(r.dest, "c1");
    assert_eq!(r.body.id, Some(7));
    assert_eq!(r.body.in_reply_to, Some(4));
    assert_eq!(r.body.payload, 11);
}

#[test]
fn echo_answers_with_the_same_text() {
    let mut n = EchoNode::from_init((), Init { node_id: "n1".to_string(), node_ids: vec![] }).unwrap();
    let out = n
        .handle_input(Event::Message(Message {
            src: "c1".to_string(),
            dest: "n1".to_string(),
            body: Body { id: Some(1), in_reply_to: None, payload: EchoPayload::Echo { echo: "hi".to_string() } },
        }))
        .unwrap();
    assert_eq!(out.len(), 1);
    assert_eq!(out[0].body.id, Some(1));
    assert_eq!(out[0].body.in_reply_to, Some(1));
    match &out[0].body.payload {
        EchoPayload::EchoOk { echo } => assert_eq!(echo, "hi"),
        _ => panic!("expected echo_ok"),
    }
    assert!(matches!(n.handle_input(Event::Injected(())), Err(NodeError::UnexpectedInjected)));
    assert!(n.handle_input(Event::EOF).unwrap().is_empty());
}

#[test]
fn other_nodes_skips_self_and_repeats() {
    let ids: Vec<String> = ["a", "b", "a", "c", "b"].iter().map(|s| s.to_string()).collect();
    assert_eq!(other_nodes(&ids, &"a".to_string()), vec!["b".to_string(), "c".to_string()]);
}

#[test]
fn value_set_keeps_ascending_unique_elements() {
    let mut s = ValueSet::from_values(&vec![5, 1, 5, 3]);
    assert_eq!(s.to_vec(), vec![1, 3, 5]);
    assert_eq!(s.len(), 3);
    assert!(s.insert(4));
    assert!(!s.insert(4));
    assert!(s.contains(4));
    assert!(!s.contains(2));
    let other = ValueSet::from_values(&vec![3, 9]);
    assert_eq!(s.difference(&other).to_vec(), vec![1, 4, 5]);
    assert_eq!(s.at_least(4), vec![4, 5]);
    assert_eq!(s.between(2, 4).to_vec(), vec![3, 4]);
    s.union_with(&other);
    assert_eq!(s.to_vec(), vec![1, 3, 4, 5, 9]);
    assert_eq!(s.copy().to_vec(), s.to_vec());
    assert!(ValueSet::new().to_vec().is_empty());
}

#[test]
fn str_map_replaces_values_and_keeps_first_insertion_order() {
    let mut m: StrMap<u64> = StrMap::new();
    m.insert("b".to_string(), 1);
    m.insert("a".to_string(), 2);
    m.insert("b".to_string(), 3);
    assert_eq!(m.len(), 2);
    assert_eq!(m.key_at(0), "b");
    assert_eq!(*m.value_at(0), 3);
    assert_eq!(m.get(&"a".to_string()), Some(&2));
    assert_eq!(m.get(&"z".to_string()), None);
    assert_eq!(m.find(&"a".to_string()), Some(1));
    assert_eq!(m.replace_at(1, 8), 2);
    assert_eq!(m.copy().get(&"a".to_string()), Some(&8));
}

#[test]
fn unique_ids_name_the_node_and_counter() {
    let mut n = UniqueNode::new(Init { node_id: "n3".to_string(), node_ids: vec!["n3".to_string()] });
    let gen = |id: usize| {
        Event::Message(Message {
            src: "c1".to_string(),
            dest: "n3".to_string(),
            body: Body { id: Some(id), in_reply_to: None, payload: UniquePayload::Generate },
        })
    };
    let mut seen = Vec::new();
    for i in 0..12 {
        let out = n.handle_event(gen(i)).unwrap();
        assert_eq!(out.len(), 1);
        assert_eq!(out[0].body.in_reply_to, Some(i));
        match &out[0].body.payload {
            UniquePayload::GenerateOk { guid } => seen.push(guid.clone()),
            _ => panic!("expected generate_ok"),
        }
    }
    assert_eq!(seen[0], "n3-2");
    assert_eq!(seen[9], "n3-11");
    let mut sorted = seen.clone();
    sorted.sort();
    sorted.dedup();
    assert_eq!(sorted.len(), seen.len());
    let r = n.handle_event(Event::Message(Message {
        src: "c1".to_string(),
        dest: "n3".to_string(),
        body: Body { id: None, in_reply_to: None, payload: UniquePayload::GenerateOk { guid: "x".to_string() } },
    }));
    assert!(matches!(r, Err(NodeError::UnexpectedReply)));
}
