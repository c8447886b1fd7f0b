use ds_challenge::log::{LogNode, LogPayload};
use ds_challenge::log_key::parse_key;
use ds_challenge::message::{Body, Init, Message};
use ds_challenge::node::{Event, NodeError, Tick};
use ds_challenge::str_map::StrMap;
use ds_challenge::value_set::ValueSet;

fn node(id: &str, all: &[&str]) -> LogNode {
    LogNode::new(Init {
        node_id: id.to_string(),
        node_ids: all.iter().map(|s| s.to_string()).collect(),
    })
}

fn req(key: &str, offset: u64) -> (String, u64) {
    (key.to_string(), offset)
}

#[test]
fn send_then_poll_from_range_start() {
    let mut n = node("n1", &["n1"]);
    assert_eq!(n.send("3".to_string(), 7), Ok(30007));
    let polled = n.poll(&vec![req("3", 30000)]);
    assert_eq!(polled, vec![("3".to_string(), vec![(30007, 7)])]);
}

#[test]
fn poll_never_returns_below_requested_offset() {
    let mut n = node("n1", &["n1"]);
    for v in [1u64, 2, 5, 9, 4] {
        n.send("12".to_string(), v).unwrap();
    }
    let polled = n.poll(&vec![req("12", 120004)]);
    assert_eq!(polled, vec![("12".to_string(), vec![(120004, 4), (120005, 5), (120009, 9)])]);
    for (_, pairs) in &polled {
        for (_, v) in pairs {
            assert!(*v >= 120004 % 10000);
        }
    }
    // Offset zero starts from value 1.
    n.send("12".to_string(), 0).unwrap();
    let polled = n.poll(&vec![req("12", 0)]);
    assert_eq!(polled[0].1[0], (120001, 1));
}

#[test]
fn poll_omits_unknown_keys_and_keeps_request_order() {
    let mut n = node("n1", &["n1"]);
    n.send("1".to_string(), 3).unwrap();
    n.send("2".to_string(), 4).unwrap();
    let polled = n.poll(&vec![req("2", 0), req("9", 0), req("1", 0)]);
    assert_eq!(
        polled,
        vec![("2".to_string(), vec![(20004, 4)]), ("1".to_string(), vec![(10003, 3)])]
    );
}

#[test]
fn duplicate_send_collapses_silently() {
    let mut n = node("n1", &["n1"]);
    assert_eq!(n.send("5".to_string(), 2), Ok(50002));
    assert_eq!(n.send("5".to_string(), 2), Ok(50002));
    let polled = n.poll(&vec![req("5", 0)]);
    assert_eq!(polled, vec![("5".to_string(), vec![(50002, 2)])]);
}

#[test]
fn send_with_non_numeric_key_fails() {
    let mut n = node("n1", &["n1"]);
    assert_eq!(n.send("k".to_string(), 1), Err(NodeError::InvalidLogKey));
    assert_eq!(n.send("".to_string(), 1), Err(NodeError::InvalidLogKey));
    assert_eq!(n.send("-1".to_string(), 1), Err(NodeError::InvalidLogKey));
    assert!(n.poll(&vec![req("k", 0)]).is_empty());
}

#[test]
fn send_whose_offset_overflows_fails() {
    let mut n = node("n1", &["n1"]);
    assert_eq!(n.send("18446744073709551615".to_string(), 1), Err(NodeError::OffsetOverflow));
    assert_eq!(n.send("1844674407370955".to_string(), 0), Ok(18446744073709550000));
    assert_eq!(n.send("1844674407370955".to_string(), 1615), Ok(u64::MAX));
    assert_eq!(n.send("1844674407370955".to_string(), 1616), Err(NodeError::OffsetOverflow));
}

#[test]
fn commits_overwrite_and_list_in_request_order() {
    let mut n = node("n1", &["n1"]);
    n.commit_offsets(&vec![req("1", 10005), req("2", 20001)]);
    n.commit_offsets(&vec![req("1", 10002)]);
    let listed = n.list_committed_offsets(&vec!["2".to_string(), "7".to_string(), "1".to_string()]);
    assert_eq!(listed, vec![req("2", 20001), req("1", 10002)]);
}

#[test]
fn log_gossip_merge_unions_and_is_idempotent() {
    let mut a = node("a", &["a", "b"]);
    a.send("1".to_string(), 1).unwrap();
    let mut remote = StrMap::new();
    remote.insert("1".to_string(), ValueSet::from_values(&vec![2, 3]));
    remote.insert("x".to_string(), ValueSet::from_values(&vec![1]));
    a.merge(&remote);
    let once = a.poll(&vec![req("1", 0), req("x", 0)]);
    assert_eq!(once, vec![("1".to_string(), vec![(10001, 1), (10002, 2), (10003, 3)])]);
    a.merge(&remote);
    assert_eq!(a.poll(&vec![req("1", 0), req("x", 0)]), once);
}

#[test]
fn log_gossip_reaches_every_other_node() {
    let mut a = node("a", &["a", "b", "c", "b"]);
    let mut b = node("b", &["a", "b", "c"]);
    a.send("4".to_string(), 8).unwrap();
    let out = a.handle_event(Event::Injected(Tick::Gossip)).unwrap();
    let dests: Vec<&str> = out.iter().map(|m| m.dest.as_str()).collect();
    assert_eq!(dests, vec!["b", "c"]);
    for m in out {
        if m.dest == "b" {
            b.handle_event(Event::Message(m)).unwrap();
        }
    }
    assert_eq!(b.poll(&vec![req("4", 0)]), vec![("4".to_string(), vec![(40008, 8)])]);
}

#[test]
fn log_requests_through_events() {
    let mut n = node("n1", &["n1"]);
    let msg = |id: usize, payload: LogPayload| {
        Event::Message(Message {
            src: "c".to_string(),
            dest: "n1".to_string(),
            body: Body { id: Some(id), in_reply_to: None, payload },
        })
    };
    let out = n.handle_event(msg(1, LogPayload::Send { key: "3".to_string(), msg: 7 })).unwrap();
    assert!(matches!(out[0].body.payload, LogPayload::SendOk { offset: 30007 }));
    assert_eq!(out[0].body.in_reply_to, Some(1));
    let out = n.handle_event(msg(2, LogPayload::Poll { offsets: vec![req("3", 30000)] })).unwrap();
    match &out[0].body.payload {
        LogPayload::PollOk { msgs } => assert_eq!(msgs, &vec![("3".to_string(), vec![(30007, 7)])]),
        _ => panic!("expected poll_ok"),
    }
    let r = n.handle_event(msg(3, LogPayload::Send { key: "x".to_string(), msg: 7 }));
    assert!(matches!(r, Err(NodeError::InvalidLogKey)));
}

#[test]
fn log_keys_read_as_decimal_numbers() {
    assert_eq!(parse_key(&"0".to_string()), Some(0));
    assert_eq!(parse_key(&"42".to_string()), Some(42));
    assert_eq!(parse_key(&"+7".to_string()), Some(7));
    assert_eq!(parse_key(&"007".to_string()), Some(7));
    assert_eq!(parse_key(&"18446744073709551615".to_string()), Some(u64::MAX));
    assert_eq!(parse_key(&"18446744073709551616".to_string()), None);
    assert_eq!(parse_key(&"+".to_string()), None);
    assert_eq!(parse_key(&"".to_string()), None);
    assert_eq!(parse_key(&"1a".to_string()), None);
    assert_eq!(parse_key(&" 1".to_string()), None);
}

#[test]
fn gossip_keeps_values_without_an_offset_but_poll_leaves_them_out() {
    let mut a = node("a", &["a", "b"]);
    let mut remote = StrMap::new();
    remote.insert("1844674407370955".to_string(), ValueSet::from_values(&vec![1615, 1616]));
    remote.insert("x".to_string(), ValueSet::from_values(&vec![3]));
    a.merge(&remote);
    assert_eq!(
        a.poll(&vec![req("1844674407370955", 0), req("x", 0)]),
        vec![("1844674407370955".to_string(), vec![(u64::MAX, 1615)])]
    );
    // The kept partitions travel on with the next gossip round.
    let out = a.gossip_tick().unwrap();
    match &out[0].body.payload {
        LogPayload::Gossip { history } => {
            assert_eq!(history.get(&"x".to_string()).map(|s| s.to_vec()), Some(vec![3]));
            assert_eq!(
                history.get(&"1844674407370955".to_string()).map(|s| s.to_vec()),
                Some(vec![1615, 1616])
            );
        }
        _ => panic!("expected gossip"),
    }
}
