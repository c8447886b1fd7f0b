use ds_challenge::message::{Body, Message};
use ds_challenge::node::Event;
use ds_challenge::txn::{TxnNode, TxnPayload};

fn op(name: &str, key: u64, value: Option<u64>) -> (String, u64, Option<u64>) {
    (name.to_string(), key, value)
}

#[test]
fn transaction_reads_its_own_writes() {
    let mut n = TxnNode::new();
    let out = n.run(&vec![op("r", 1, None), op("w", 1, Some(6)), op("r", 1, None), op("x", 2, Some(3)), op("w", 2, None)]);
    assert_eq!(
        out,
        vec![("r".to_string(), 1, 0), ("w".to_string(), 1, 6), ("r".to_string(), 1, 6)]
    );
    let out = n.run(&vec![op("r", 1, None), op("r", 2, None)]);
    assert_eq!(out, vec![("r".to_string(), 1, 6), ("r".to_string(), 2, 0)]);
}

#[test]
fn transaction_gossip_raises_values() {
    let mut n = TxnNode::new();
    n.run(&vec![op("w", 1, Some(5)), op("w", 2, Some(5))]);
    n.merge(&vec![(1, 3), (2, 9), (3, 4)]);
    let out = n.run(&vec![op("r", 1, None), op("r", 2, None), op("r", 3, None)]);
    assert_eq!(
        out,
        vec![("r".to_string(), 1, 5), ("r".to_string(), 2, 9), ("r".to_string(), 3, 4)]
    );
}

#[test]
fn transaction_reply_through_events() {
    let mut n = TxnNode::new();
    let out = n
        .handle_event(Event::Message(Message {
            src: "c1".to_string(),
            dest: "n1".to_string(),
            body: Body { id: Some(4), in_reply_to: None, payload: TxnPayload::Txn { txn: vec![op("w", 7, Some(1))] } },
        }))
        .unwrap();
    assert_eq!(out.len(), 1);
    assert_eq!(out[0].body.in_reply_to, Some(4));
    assert_eq!(out[0].body.id, Some(1));
    match &out[0].body.payload {
        TxnPayload::TxnOk { txn } => assert_eq!(txn, &vec![("w".to_string(), 7, 1)]),
        _ => panic!("expected txn_ok"),
    }
}
