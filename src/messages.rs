use vstd::prelude::*;

verus! {

/// Identity of a cluster member.
pub type NodeId = u64;

/// One unit of replicated log content, held as the application's encoded bytes.
pub type Entry = Vec<u8>;

/// Leader epoch token: a round number, ties broken by the proposer's id.
#[derive(Clone, Copy, Debug, PartialEq, Eq, Structural)]
pub struct Ballot {
    /// The round number.
    pub n: u32,
    /// The proposing node.
    pub pid: NodeId,
}

impl Ballot {
    /// Strict order on ballots: by round, then by proposer id.
    pub open spec fn spec_lt(self, other: Ballot) -> bool {
        self.n < other.n || (self.n == other.n && self.pid < other.pid)
    }

    pub fn new(n: u32, pid: NodeId) -> (r: Ballot)
        ensures
            r.n == n,
            r.pid == pid,
    {
        Ballot { n, pid }
    }

    /// Whether `self` is older than `other`.
    pub fn less_than(&self, other: &Ballot) -> (r: bool)
        ensures
            r == self.spec_lt(*other),
    {
        self.n < other.n || (self.n == other.n && self.pid < other.pid)
    }
}

/// Compacted application state covering a prefix of the log.
#[derive(Clone, Debug)]
pub enum SnapshotType {
    /// A snapshot of the whole state.
    Complete(Vec<u8>),
    /// The changes since an earlier snapshot.
    Delta(Vec<u8>),
}

/// Reconfiguration marker: once decided, the current configuration's log is sealed.
#[derive(Clone, Debug)]
pub struct StopSign {
    /// Identifier of the next configuration.
    pub config_id: u32,
    /// Members of the next configuration.
    pub nodes: Vec<NodeId>,
    /// Application metadata attached to the reconfiguration.
    pub metadata: Option<Vec<u8>>,
}

/// Sent by a newly elected leader to start the prepare phase.
#[derive(Clone, Copy, Debug, PartialEq, Eq, Structural)]
pub struct Prepare {
    /// The current round.
    pub n: Ballot,
    /// The decided index of this leader.
    pub decided_idx: u64,
    /// The latest round in which an entry was accepted.
    pub n_accepted: Ballot,
    /// The log length of this leader.
    pub accepted_idx: u64,
}

/// A follower's answer to a [`Prepare`].
#[derive(Clone, Debug)]
pub struct Promise {
    /// The current round.
    pub n: Ballot,
    /// The latest round in which an entry was accepted.
    pub n_accepted: Ballot,
    /// The decided snapshot.
    pub decided_snapshot: Option<SnapshotType>,
    /// The log suffix.
    pub suffix: Vec<Entry>,
    /// The decided index of this follower.
    pub decided_idx: u64,
    /// The log length of this follower.
    pub accepted_idx: u64,
    /// The stop sign accepted by this follower.
    pub stopsign: Option<StopSign>,
}

/// Sent by the leader to bring a follower's log in line during the prepare phase.
#[derive(Clone, Debug)]
pub struct AcceptSync {
    /// The current round.
    pub n: Ballot,
    /// The decided snapshot.
    pub decided_snapshot: Option<SnapshotType>,
    /// The log suffix.
    pub suffix: Vec<Entry>,
    /// The log index at which `suffix` applies, or the compacted index.
    pub sync_idx: u64,
    /// The decided index.
    pub decided_idx: u64,
    /// The stop sign to be accepted.
    pub stopsign: Option<StopSign>,
}

/// First accept of a leader elected in advance by a reconfiguration.
#[derive(Clone, Copy, Debug, PartialEq, Eq, Structural)]
pub struct FirstAccept {
    /// The current round.
    pub n: Ballot,
}

/// New entries and the latest decided index, sent in the accept phase.
#[derive(Clone, Debug)]
pub struct AcceptDecide {
    /// The current round.
    pub n: Ballot,
    /// The decided index.
    pub decided_idx: u64,
    /// Entries to be replicated.
    pub entries: Vec<Entry>,
}

/// A follower's acknowledgement of accepted entries.
#[derive(Clone, Copy, Debug, PartialEq, Eq, Structural)]
pub struct Accepted {
    /// The current round.
    pub n: Ballot,
    /// The accepted index.
    pub accepted_idx: u64,
}

/// The leader's new commit watermark.
#[derive(Clone, Copy, Debug, PartialEq, Eq, Structural)]
pub struct Decide {
    /// The current round.
    pub n: Ballot,
    /// The decided index.
    pub decided_idx: u64,
}

/// Asks followers to accept a stop sign.
#[derive(Clone, Debug)]
pub struct AcceptStopSign {
    /// The current round.
    pub n: Ballot,
    /// The stop sign.
    pub ss: StopSign,
}

/// A follower's acknowledgement of an accepted stop sign.
#[derive(Clone, Copy, Debug, PartialEq, Eq, Structural)]
pub struct AcceptedStopSign {
    /// The current round.
    pub n: Ballot,
}

/// Decides a stop sign.
#[derive(Clone, Copy, Debug, PartialEq, Eq, Structural)]
pub struct DecideStopSign {
    /// The current round.
    pub n: Ballot,
}

/// Request to discard a prefix of the log.
#[derive(Clone, Copy, Debug, PartialEq, Eq, Structural)]
pub enum Compaction {
    /// Trim the log up to the index.
    Trim(u64),
    /// Replace a prefix of the log by a snapshot, up to the index if one is given.
    Snapshot(Option<u64>),
}

/// Payload of a log-replication message.
#[derive(Clone, Debug)]
pub enum PaxosMsg {
    /// Asks the leader to send a [`Prepare`] again.
    PrepareReq,
    Prepare(Prepare),
    Promise(Promise),
    AcceptSync(AcceptSync),
    FirstAccept(FirstAccept),
    AcceptDecide(AcceptDecide),
    Accepted(Accepted),
    Decide(Decide),
    /// Client proposals forwarded to the leader.
    ProposalForward(Vec<Entry>),
    Compaction(Compaction),
    AcceptStopSign(AcceptStopSign),
    AcceptedStopSign(AcceptedStopSign),
    DecideStopSign(DecideStopSign),
    ForwardStopSign(StopSign),
}

/// Log-replication message with its sender and receiver.
#[derive(Clone, Debug)]
pub struct PaxosMessage {
    /// Sender of `msg`.
    pub from: NodeId,
    /// Receiver of `msg`.
    pub to: NodeId,
    /// The message content.
    pub msg: PaxosMsg,
}

/// A probe sent to all other replicas.
#[derive(Clone, Copy, Debug, PartialEq, Eq, Structural)]
pub struct HeartbeatRequest {
    /// Number of the current round.
    pub round: u32,
}

/// Answer to a [`HeartbeatRequest`].
#[derive(Clone, Copy, Debug, PartialEq, Eq, Structural)]
pub struct HeartbeatReply {
    /// Number of the probing round.
    pub round: u32,
    /// Ballot of the replying replica.
    pub ballot: Ballot,
    /// Whether the replying replica sees a connected quorum.
    pub quorum_connected: bool,
}

/// Payload of a leader-election message.
#[derive(Clone, Copy, Debug, PartialEq, Eq, Structural)]
pub enum HeartbeatMsg {
    Request(HeartbeatRequest),
    Reply(HeartbeatReply),
}

/// Leader-election message with its sender and receiver.
#[derive(Clone, Copy, Debug, PartialEq, Eq, Structural)]
pub struct BLEMessage {
    /// Sender of `msg`.
    pub from: NodeId,
    /// Receiver of `msg`.
    pub to: NodeId,
    /// The message content.
    pub msg: HeartbeatMsg,
}

/// A message of either protocol.
#[derive(Clone, Debug)]
pub enum Message {
    SequencePaxos(PaxosMessage),
    BLE(BLEMessage),
}

impl Message {
    /// The node that sent the message.
    pub open spec fn sender(self) -> NodeId {
        match self {
            Message::SequencePaxos(p) => p.from,
            Message::BLE(b) => b.from,
        }
    }

    /// The node the message is addressed to.
    pub open spec fn receiver(self) -> NodeId {
        match self {
            Message::SequencePaxos(p) => p.to,
            Message::BLE(b) => b.to,
        }
    }

    /// Get the sender id of the message.
    pub fn get_sender(&self) -> (r: NodeId)
        ensures
            r == self.sender(),
    {
        match self {
            Message::SequencePaxos(p) => p.from,
            Message::BLE(b) => b.from,
        }
    }

    /// Get the receiver id of the message.
    pub fn get_receiver(&self) -> (r: NodeId)
        ensures
            r == self.receiver(),
    {
        match self {
            Message::SequencePaxos(p) => p.to,
            Message::BLE(b) => b.to,
        }
    }
}

/// The envelope fields are what the accessors return: a message built from a
/// sender, a receiver and any payload reports exactly that sender and receiver.
pub proof fn lemma_envelope_accessors(from: NodeId, to: NodeId, pm: PaxosMsg, hm: HeartbeatMsg)
    ensures
        (Message::SequencePaxos(PaxosMessage { from, to, msg: pm })).sender() == from,
        (Message::SequencePaxos(PaxosMessage { from, to, msg: pm })).receiver() == to,
        (Message::BLE(BLEMessage { from, to, msg: hm })).sender() == from,
        (Message::BLE(BLEMessage { from, to, msg: hm })).receiver() == to,
{
}

} // verus!
