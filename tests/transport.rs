use std::collections::HashMap;

use ddbb_omni::messages::{Ballot, Message, PaxosMessage, PaxosMsg, Prepare};
use ddbb_omni::transport::{quorum_size, OmniSIMO, SenderAction};

fn proposal(from: u64, to: u64, tag: u8) -> Message {
    Message::SequencePaxos(PaxosMessage { from, to, msg: PaxosMsg::ProposalForward(vec![vec![tag]]) })
}

fn simo(peers: &[(u64, &str)]) -> OmniSIMO {
    let mut table: HashMap<u64, String> = HashMap::new();
    for (id, addr) in peers {
        table.insert(*id, addr.to_string());
    }
    OmniSIMO::new("127.0.0.1:5661".to_string(), table)
}

fn tag_of(m: &Message) -> u8 {
    match m {
        Message::SequencePaxos(PaxosMessage { msg: PaxosMsg::ProposalForward(v), .. }) => v[0][0],
        _ => panic!("unexpected message"),
    }
}

#[test]
fn quorum_threshold_formula() {
    assert_eq!(quorum_size(0), 1);
    assert_eq!(quorum_size(1), 2);
    assert_eq!(quorum_size(2), 2);
    assert_eq!(quorum_size(3), 3);
    assert_eq!(quorum_size(4), 3);
    assert_eq!(quorum_size(6), 4);
    assert_eq!(quorum_size(usize::MAX), usize::MAX / 2 + 2);
}

#[test]
fn quorum_reached_exactly_at_threshold() {
    let mut s = simo(&[(2, "a"), (3, "b"), (4, "c"), (5, "d")]);
    assert!(!s.quorum_reached());
    s.mark_connected(2);
    s.mark_connected(3);
    assert!(!s.quorum_reached());
    s.mark_connected(3);
    assert!(!s.quorum_reached());
    s.mark_connected(4);
    assert!(s.quorum_reached());
    s.mark_disconnected(2);
    assert!(!s.quorum_reached());
}

#[test]
fn connected_set_membership() {
    let mut s = simo(&[(2, "a"), (3, "b")]);
    s.mark_connected(2);
    s.mark_connected(3);
    s.mark_connected(2);
    assert_eq!(s.connected.len(), 2);
    assert!(s.is_connected(2) && s.is_connected(3));
    s.mark_disconnected(2);
    assert!(!s.is_connected(2));
    assert!(s.is_connected(3));
    assert_eq!(s.connected, vec![3]);
}

#[test]
fn offline_receiver_message_is_discarded() {
    let mut a = simo(&[(2, "127.0.0.1:5660")]);
    a.send_message(proposal(1, 2, 1));
    assert_eq!(a.outgoing_buffer.len(), 1);
    match a.sender_step(2) {
        SenderAction::Discard(m) => assert_eq!(m.get_receiver(), 2),
        other => panic!("expected a discard, got {:?}", other),
    }
    assert!(a.outgoing_buffer.is_empty());
    assert!(matches!(a.sender_step(2), SenderAction::Wait));
}

#[test]
fn dead_letter_does_not_block_others() {
    let mut a = simo(&[(2, "x"), (3, "y")]);
    a.mark_connected(3);
    a.send_message(proposal(1, 2, 1));
    a.send_message(proposal(1, 3, 2));
    // the sender for peer 3 sweeps the message for the absent peer 2
    assert!(matches!(a.sender_step(3), SenderAction::Discard(_)));
    match a.sender_step(3) {
        SenderAction::Send(m) => assert_eq!(tag_of(&m), 2),
        other => panic!("expected a send, got {:?}", other),
    }
    assert!(a.outgoing_buffer.is_empty());
}

#[test]
fn head_for_another_connected_peer_waits() {
    let mut a = simo(&[(2, "x"), (3, "y")]);
    a.mark_connected(2);
    a.mark_connected(3);
    a.send_message(proposal(1, 2, 1));
    assert!(matches!(a.sender_step(3), SenderAction::Wait));
    assert_eq!(a.outgoing_buffer.len(), 1);
    assert!(matches!(a.sender_step(2), SenderAction::Send(_)));
}

#[test]
fn prepare_reaches_receiver_unchanged() {
    let mut a = simo(&[(2, "b")]);
    let mut b = simo(&[(1, "a")]);
    a.mark_connected(2);
    let prepare = Prepare { n: Ballot::new(1, 1), decided_idx: 0, n_accepted: Ballot::new(0, 0), accepted_idx: 0 };
    let sent = Message::SequencePaxos(PaxosMessage { from: 1, to: 2, msg: PaxosMsg::Prepare(prepare) });
    a.send_message(sent.clone());
    let out = match a.sender_step(2) {
        SenderAction::Send(m) => m,
        other => panic!("expected a send, got {:?}", other),
    };
    let wire = ddbb_omni::codec::encode_frame(&out);
    let (got, _) = ddbb_omni::codec::decode_frame(&wire).unwrap();
    b.deliver(got);
    let received = b.receive_message().unwrap();
    assert_eq!(format!("{:?}", received), format!("{:?}", sent));
    assert!(b.receive_message().is_none());
}

#[test]
fn queued_messages_survive_reconnect_in_order() {
    let mut a = simo(&[(2, "b")]);
    a.mark_connected(2);
    a.send_message(proposal(1, 2, 1));
    a.send_message(proposal(1, 2, 2));
    a.send_message(proposal(1, 2, 3));
    let mut delivered = Vec::new();
    match a.sender_step(2) {
        SenderAction::Send(m) => delivered.push(tag_of(&m)),
        other => panic!("expected a send, got {:?}", other),
    }
    // the write of the next message fails: the link drops and comes back
    // before the queue is polled again
    a.mark_disconnected(2);
    a.mark_connected(2);
    while let SenderAction::Send(m) = a.sender_step(2) {
        delivered.push(tag_of(&m));
    }
    assert_eq!(delivered, vec![1, 2, 3]);
}

#[test]
fn incoming_queue_is_fifo() {
    let mut b = simo(&[(1, "a")]);
    assert!(b.receive_message().is_none());
    b.deliver(proposal(1, 2, 5));
    b.deliver(proposal(1, 2, 6));
    assert_eq!(tag_of(&b.receive_message().unwrap()), 5);
    assert_eq!(tag_of(&b.receive_message().unwrap()), 6);
    assert!(b.receive_message().is_none());
}

#[test]
fn new_starts_empty() {
    let s = simo(&[(2, "127.0.0.1:5660")]);
    assert_eq!(s.self_addr(), "127.0.0.1:5661");
    assert_eq!(s.peers().get(&2).map(|a| a.as_str()), Some("127.0.0.1:5660"));
    assert!(s.connected.is_empty());
    assert!(s.outgoing_buffer.is_empty());
    assert!(s.incoming_buffer.is_empty());
}
