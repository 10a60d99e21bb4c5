use ddbb_omni::codec::{decode, decode_frame, encode, encode_frame};
use ddbb_omni::messages::{
    AcceptDecide, AcceptStopSign, AcceptSync, Accepted, AcceptedStopSign, BLEMessage, Ballot,
    Compaction, Decide, DecideStopSign, FirstAccept, HeartbeatMsg, HeartbeatReply,
    HeartbeatRequest, Message, PaxosMessage, PaxosMsg, Prepare, Promise, SnapshotType, StopSign,
};

fn paxos(from: u64, to: u64, msg: PaxosMsg) -> Message {
    Message::SequencePaxos(PaxosMessage { from, to, msg })
}

fn stopsign() -> StopSign {
    StopSign { config_id: 3, nodes: vec![1, 2, 3], metadata: Some(vec![9, 8]) }
}

fn all_variants() -> Vec<Message> {
    let b = Ballot::new(4, 2);
    vec![
        paxos(1, 2, PaxosMsg::PrepareReq),
        paxos(1, 2, PaxosMsg::Prepare(Prepare { n: b, decided_idx: 7, n_accepted: Ballot::new(3, 1), accepted_idx: 9 })),
        paxos(2, 1, PaxosMsg::Promise(Promise {
            n: b,
            n_accepted: Ballot::new(0, 0),
            decided_snapshot: Some(SnapshotType::Complete(vec![1, 2, 3])),
            suffix: vec![vec![10], vec![], vec![11, 12]],
            decided_idx: 5,
            accepted_idx: 8,
            stopsign: Some(stopsign()),
        })),
        paxos(1, 3, PaxosMsg::AcceptSync(AcceptSync {
            n: b,
            decided_snapshot: Some(SnapshotType::Delta(vec![4])),
            suffix: vec![vec![5, 6]],
            sync_idx: 2,
            decided_idx: 1,
            stopsign: None,
        })),
        paxos(1, 2, PaxosMsg::FirstAccept(FirstAccept { n: b })),
        paxos(1, 2, PaxosMsg::AcceptDecide(AcceptDecide { n: b, decided_idx: 6, entries: vec![vec![7, 7, 7]] })),
        paxos(2, 1, PaxosMsg::Accepted(Accepted { n: b, accepted_idx: 11 })),
        paxos(1, 2, PaxosMsg::Decide(Decide { n: b, decided_idx: 10 })),
        paxos(3, 1, PaxosMsg::ProposalForward(vec![b"tempValue".to_vec()])),
        paxos(1, 2, PaxosMsg::Compaction(Compaction::Trim(4))),
        paxos(1, 2, PaxosMsg::Compaction(Compaction::Snapshot(None))),
        paxos(1, 2, PaxosMsg::Compaction(Compaction::Snapshot(Some(12)))),
        paxos(1, 2, PaxosMsg::AcceptStopSign(AcceptStopSign { n: b, ss: stopsign() })),
        paxos(2, 1, PaxosMsg::AcceptedStopSign(AcceptedStopSign { n: b })),
        paxos(1, 2, PaxosMsg::DecideStopSign(DecideStopSign { n: b })),
        paxos(2, 1, PaxosMsg::ForwardStopSign(StopSign { config_id: 1, nodes: vec![], metadata: None })),
        Message::BLE(BLEMessage { from: 1, to: 2, msg: HeartbeatMsg::Request(HeartbeatRequest { round: 17 }) }),
        Message::BLE(BLEMessage {
            from: 2,
            to: 1,
            msg: HeartbeatMsg::Reply(HeartbeatReply { round: 17, ballot: b, quorum_connected: true }),
        }),
    ]
}

#[test]
fn every_variant_round_trips() {
    for m in all_variants() {
        let bytes = encode(&m);
        let back = decode(&bytes).expect("decodes");
        assert_eq!(format!("{:?}", back), format!("{:?}", m));
    }
}

#[test]
fn every_variant_round_trips_through_a_frame() {
    for m in all_variants() {
        let mut bytes = encode_frame(&m);
        let len = bytes.len();
        bytes.extend_from_slice(&[0xAA, 0xBB]);
        let (back, used) = decode_frame(&bytes).expect("decodes");
        assert_eq!(used, len);
        assert_eq!(format!("{:?}", back), format!("{:?}", m));
    }
}

#[test]
fn partial_frame_is_not_data() {
    let m = all_variants().remove(2);
    let bytes = encode_frame(&m);
    for cut in 0..bytes.len() {
        assert!(decode_frame(&bytes[..cut].to_vec()).is_none());
    }
}

#[test]
fn trailing_bytes_are_rejected() {
    let mut bytes = encode(&paxos(1, 2, PaxosMsg::PrepareReq));
    bytes.push(0);
    assert!(decode(&bytes).is_none());
    assert!(decode(&vec![]).is_none());
    assert!(decode(&vec![7]).is_none());
}

#[test]
fn prepare_encoding_is_exact() {
    let m = paxos(1, 2, PaxosMsg::Prepare(Prepare {
        n: Ballot::new(1, 1),
        decided_idx: 0,
        n_accepted: Ballot::new(0, 0),
        accepted_idx: 0,
    }));
    let bytes = encode(&m);
    let mut expected = vec![0u8];
    expected.extend_from_slice(&1u64.to_le_bytes());
    expected.extend_from_slice(&2u64.to_le_bytes());
    expected.push(1);
    expected.extend_from_slice(&1u64.to_le_bytes());
    expected.extend_from_slice(&1u64.to_le_bytes());
    expected.extend_from_slice(&[0u8; 32]);
    assert_eq!(bytes, expected);
    let framed = encode_frame(&m);
    assert_eq!(&framed[..8], &(expected.len() as u64).to_le_bytes());
    assert_eq!(&framed[8..], &expected[..]);
}

#[test]
fn accessors_return_envelope_fields() {
    for m in all_variants() {
        let (from, to) = match &m {
            Message::SequencePaxos(p) => (p.from, p.to),
            Message::BLE(b) => (b.from, b.to),
        };
        assert_eq!(m.get_sender(), from);
        assert_eq!(m.get_receiver(), to);
    }
    let m = paxos(7, 9, PaxosMsg::PrepareReq);
    assert_eq!(m.get_sender(), 7);
    assert_eq!(m.get_receiver(), 9);
}

#[test]
fn ballots_order_by_round_then_proposer() {
    assert!(Ballot::new(1, 5).less_than(&Ballot::new(2, 0)));
    assert!(Ballot::new(2, 1).less_than(&Ballot::new(2, 3)));
    assert!(!Ballot::new(2, 3).less_than(&Ballot::new(2, 3)));
    assert!(!Ballot::new(3, 0).less_than(&Ballot::new(2, 9)));
}
