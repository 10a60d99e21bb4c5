use std::collections::HashMap;
use std::collections::VecDeque;
use vstd::prelude::*;

use crate::messages::{Message, NodeId};

verus! {

/// Number of connected peers that a node with `peer_count` configured peers
/// needs before it is live: (peer_count + 1) / 2, rounded down, plus one.
pub open spec fn quorum(peer_count: nat) -> nat {
    (peer_count + 1) / 2 + 1
}

/// Computes [`quorum`] for `peer_count` configured peers.
pub fn quorum_size(peer_count: usize) -> (r: usize)
    ensures
        r == quorum(peer_count as nat),
{
    peer_count / 2 + peer_count % 2 + 1
}

/// What a per-peer sender does after one look at the head of the outgoing queue.
#[derive(Debug)]
pub enum SenderAction {
    /// The head is for another connected peer, or the queue is empty.
    Wait,
    /// The head was addressed to a peer that is not connected; it was dropped.
    Discard(Message),
    /// The head is for this sender's peer; it was taken to be written out.
    Send(Message),
}

/// The action the sender for `peer` takes on the queue `q`, given the
/// reachable peers `connected`.
pub open spec fn step_action_is(
    q: Seq<Message>,
    connected: Seq<NodeId>,
    peer: NodeId,
    a: SenderAction,
) -> bool {
    if q.len() == 0 {
        a is Wait
    } else if !connected.contains(q[0].receiver()) {
        a == SenderAction::Discard(q[0])
    } else if q[0].receiver() == peer {
        a == SenderAction::Send(q[0])
    } else {
        a is Wait
    }
}

/// The outgoing queue after the sender for `peer` has looked at its head.
pub open spec fn step_queue(q: Seq<Message>, connected: Seq<NodeId>, peer: NodeId) -> Seq<Message> {
    if q.len() == 0 {
        q
    } else if !connected.contains(q[0].receiver()) || q[0].receiver() == peer {
        q.drop_first()
    } else {
        q
    }
}

/// The messages an action takes out of the queue, in order.
pub open spec fn taken(a: SenderAction) -> Seq<Message> {
    match a {
        SenderAction::Wait => Seq::empty(),
        SenderAction::Discard(m) => seq![m],
        SenderAction::Send(m) => seq![m],
    }
}

/// A quorum is more than half of the cluster's `peer_count + 1` members, so
/// any two quorums of the same cluster share a member.
pub proof fn lemma_quorum_is_majority(peer_count: nat)
    ensures
        2 * quorum(peer_count) > peer_count + 1,
        quorum(peer_count) == (peer_count + 1) / 2 + 1,
{
}

/// A head addressed to a peer that is not connected leaves the queue
/// undelivered at the next poll of any sender, and the message behind it
/// becomes the head.
pub proof fn lemma_dead_letter_discarded(
    q: Seq<Message>,
    connected: Seq<NodeId>,
    peer: NodeId,
    a: SenderAction,
)
    requires
        q.len() > 0,
        !connected.contains(q[0].receiver()),
        step_action_is(q, connected, peer, a),
    ensures
        a == SenderAction::Discard(q[0]),
        !(a is Send),
        step_queue(q, connected, peer) == q.drop_first(),
        q.len() > 1 ==> step_queue(q, connected, peer)[0] == q[1],
{
}

/// One poll takes messages only from the front of the queue: what it takes,
/// followed by what is left, is the queue as it was. A message is sent only
/// by the sender of its receiver, and dropped only when its receiver is not
/// connected.
pub proof fn lemma_step_takes_front(
    q: Seq<Message>,
    connected: Seq<NodeId>,
    peer: NodeId,
    a: SenderAction,
)
    requires
        step_action_is(q, connected, peer, a),
    ensures
        q == taken(a) + step_queue(q, connected, peer),
        a matches SenderAction::Send(m) ==> m.receiver() == peer && connected.contains(peer),
        a matches SenderAction::Discard(m) ==> !connected.contains(m.receiver()),
        sends(q, connected, seq![peer]) == (if a is Send {
            taken(a)
        } else {
            Seq::<Message>::empty()
        }),
{
    assert(seq![peer].drop_first() =~= Seq::<NodeId>::empty());
    assert(seq![peer][0] == peer);
    assert(sends(step_queue(q, connected, peer), connected, Seq::<NodeId>::empty()) == Seq::<Message>::empty());
    if q.len() > 0 {
        assert(seq![q[0]] + Seq::<Message>::empty() =~= seq![q[0]]);
    }
    if q.len() > 0 && (!connected.contains(q[0].receiver()) || q[0].receiver() == peer) {
        assert(q =~= seq![q[0]] + q.drop_first());
    } else {
        assert(q =~= Seq::<Message>::empty() + q);
    }
}

/// The messages taken out of `q` when the senders in `polls` look at it in
/// turn, in the order they leave the queue.
pub open spec fn emitted(q: Seq<Message>, connected: Seq<NodeId>, polls: Seq<NodeId>) -> Seq<Message>
    decreases polls.len(),
{
    if polls.len() == 0 {
        Seq::empty()
    } else {
        let q1 = step_queue(q, connected, polls[0]);
        q.take(q.len() - q1.len()) + emitted(q1, connected, polls.drop_first())
    }
}

/// The outgoing queue after the senders in `polls` have looked at it in turn.
pub open spec fn remaining(q: Seq<Message>, connected: Seq<NodeId>, polls: Seq<NodeId>) -> Seq<Message>
    decreases polls.len(),
{
    if polls.len() == 0 {
        q
    } else {
        remaining(step_queue(q, connected, polls[0]), connected, polls.drop_first())
    }
}

/// Over any run of polls, messages leave the outgoing queue in the order they
/// were enqueued: those taken, followed by those left, are the queue as it
/// was. So messages for one receiver reach its link in the order they were
/// sent, and while the connected set holds, a message for a connected peer
/// leaves only through that peer's sender.
pub proof fn lemma_run_preserves_order(q: Seq<Message>, connected: Seq<NodeId>, polls: Seq<NodeId>)
    ensures
        emitted(q, connected, polls) + remaining(q, connected, polls) == q,
    decreases polls.len(),
{
    if polls.len() > 0 {
        let q1 = step_queue(q, connected, polls[0]);
        lemma_run_preserves_order(q1, connected, polls.drop_first());
        assert(q1 == q || q1 == q.drop_first());
        assert(q == q.take(q.len() - q1.len()) + q1);
        assert(emitted(q, connected, polls) + remaining(q, connected, polls) =~= q);
    }
}

/// The messages written out, in order, when the senders in `polls` look at
/// the queue in turn.
pub open spec fn sends(q: Seq<Message>, connected: Seq<NodeId>, polls: Seq<NodeId>) -> Seq<Message>
    decreases polls.len(),
{
    if polls.len() == 0 {
        Seq::empty()
    } else {
        let rest = sends(step_queue(q, connected, polls[0]), connected, polls.drop_first());
        if q.len() > 0 && connected.contains(q[0].receiver()) && q[0].receiver() == polls[0] {
            seq![q[0]] + rest
        } else {
            rest
        }
    }
}

/// The receivers of the messages of `q`, in order.
pub open spec fn receivers(q: Seq<Message>) -> Seq<NodeId> {
    q.map_values(|m: Message| m.receiver())
}

/// While every queued message is addressed to a connected peer, none is
/// dropped: when the sender of each head's receiver gets its turn, every
/// message is written out, in the order it was enqueued, and the queue
/// empties.
pub proof fn lemma_connected_receivers_get_everything(q: Seq<Message>, connected: Seq<NodeId>)
    requires
        forall|i: int| 0 <= i < q.len() ==> connected.contains(#[trigger] q[i].receiver()),
    ensures
        sends(q, connected, receivers(q)) == q,
        remaining(q, connected, receivers(q)) == Seq::<Message>::empty(),
    decreases q.len(),
{
    if q.len() > 0 {
        let polls = receivers(q);
        assert(polls[0] == q[0].receiver());
        assert(polls.drop_first() =~= receivers(q.drop_first()));
        assert(step_queue(q, connected, polls[0]) == q.drop_first());
        assert forall|i: int| 0 <= i < q.drop_first().len() implies connected.contains(
            #[trigger] q.drop_first()[i].receiver(),
        ) by {
            assert(q.drop_first()[i] == q[i + 1]);
        }
        lemma_connected_receivers_get_everything(q.drop_first(), connected);
        assert(seq![q[0]] + q.drop_first() =~= q);
    } else {
        assert(receivers(q).len() == 0);
    }
}

/// Single incoming and multiple outgoing links of one node: the queues and
/// the set of reachable peers that its tasks share.
#[derive(Debug)]
pub struct OmniSIMO {
    pub self_addr: String,
    /// Address of each peer, e.g. node 6 at "127.0.0.1:25536".
    pub peers: HashMap<NodeId, String>,
    /// Peers reachable at present, each once.
    pub connected: Vec<NodeId>,
    /// Messages waiting to be sent, oldest first.
    pub outgoing_buffer: VecDeque<Message>,
    /// Messages received and not yet handed out, oldest first.
    pub incoming_buffer: VecDeque<Message>,
}

impl OmniSIMO {
    /// The connected set holds no peer twice.
    pub open spec fn wf(&self) -> bool {
        self.connected@.no_duplicates()
    }

    pub fn new(self_addr: String, peers: HashMap<NodeId, String>) -> (r: Self)
        ensures
            r.wf(),
            r.self_addr@ == self_addr@,
            r.peers@ == peers@,
            r.connected@ == Seq::<NodeId>::empty(),
            r.outgoing_buffer@ == Seq::<Message>::empty(),
            r.incoming_buffer@ == Seq::<Message>::empty(),
    {
        OmniSIMO {
            outgoing_buffer: VecDeque::new(),
            incoming_buffer: VecDeque::new(),
            connected: Vec::new(),
            self_addr,
            peers,
        }
    }

    /// The local address the listener binds.
    pub fn self_addr(&self) -> (r: &String)
        ensures
            r@ == self.self_addr@,
    {
        &self.self_addr
    }

    /// The static peer table.
    pub fn peers(&self) -> (r: &HashMap<NodeId, String>)
        ensures
            r@ == self.peers@,
    {
        &self.peers
    }

    /// Appends a message to the outgoing queue.
    pub fn send_message(&mut self, omni_message: Message)
        ensures
            final(self).outgoing_buffer@ == old(self).outgoing_buffer@.push(omni_message),
            final(self).incoming_buffer@ == old(self).incoming_buffer@,
            final(self).connected@ == old(self).connected@,
            final(self).peers@ == old(self).peers@,
            final(self).self_addr@ == old(self).self_addr@,
    {
        self.outgoing_buffer.push_back(omni_message);
    }

    /// Whether enough peers are reachable for the node to be live: true
    /// exactly when the number of connected peers has reached [`quorum`].
    pub fn quorum_reached(&self) -> (r: bool)
        ensures
            r == (self.connected@.len() >= quorum(self.peers@.len())),
    {
        broadcast use vstd::std_specs::hash::group_hash_axioms;

        self.connected.len() >= quorum_size(self.peers.len())
    }

    /// One poll of the outgoing queue by the sender for `peer`: a head
    /// addressed to an unreachable peer is dropped, whichever sender sees it;
    /// a head for `peer` is taken to be written out; any other head waits.
    pub fn sender_step(&mut self, peer: NodeId) -> (r: SenderAction)
        ensures
            step_action_is(old(self).outgoing_buffer@, old(self).connected@, peer, r),
            final(self).outgoing_buffer@ == step_queue(
                old(self).outgoing_buffer@,
                old(self).connected@,
                peer,
            ),
            final(self).incoming_buffer@ == old(self).incoming_buffer@,
            final(self).connected@ == old(self).connected@,
            final(self).peers@ == old(self).peers@,
            final(self).self_addr@ == old(self).self_addr@,
    {
        if self.outgoing_buffer.len() == 0 {
            return SenderAction::Wait;
        }
        let to = self.outgoing_buffer[0].get_receiver();
        let reachable = self.is_connected(to);
        if !reachable || to == peer {
            let head = self.outgoing_buffer.pop_front();
            match head {
                Some(m) => {
                    proof {
                        assert(self.outgoing_buffer@ =~= old(self).outgoing_buffer@.drop_first());
                    }
                    if !reachable {
                        SenderAction::Discard(m)
                    } else {
                        SenderAction::Send(m)
                    }
                },
                None => SenderAction::Wait,
            }
        } else {
            SenderAction::Wait
        }
    }

    /// Appends a message read from a connection to the incoming queue.
    pub fn deliver(&mut self, omni_message: Message)
        ensures
            final(self).incoming_buffer@ == old(self).incoming_buffer@.push(omni_message),
            final(self).outgoing_buffer@ == old(self).outgoing_buffer@,
            final(self).connected@ == old(self).connected@,
            final(self).peers@ == old(self).peers@,
            final(self).self_addr@ == old(self).self_addr@,
    {
        self.incoming_buffer.push_back(omni_message);
    }

    /// Takes the oldest received message, if there is one.
    pub fn receive_message(&mut self) -> (r: Option<Message>)
        ensures
            old(self).incoming_buffer@.len() == 0 ==> r is None
                && final(self).incoming_buffer@ == old(self).incoming_buffer@,
            old(self).incoming_buffer@.len() > 0 ==> r == Some(old(self).incoming_buffer@[0])
                && final(self).incoming_buffer@ == old(self).incoming_buffer@.drop_first(),
            final(self).outgoing_buffer@ == old(self).outgoing_buffer@,
            final(self).connected@ == old(self).connected@,
            final(self).peers@ == old(self).peers@,
            final(self).self_addr@ == old(self).self_addr@,
    {
        let r = self.incoming_buffer.pop_front();
        proof {
            if old(self).incoming_buffer@.len() > 0 {
                assert(self.incoming_buffer@ =~= old(self).incoming_buffer@.drop_first());
            }
        }
        r
    }

    /// Whether `id` is among the reachable peers.
    pub fn is_connected(&self, id: NodeId) -> (r: bool)
        ensures
            r == self.connected@.contains(id),
    {
        let mut i: usize = 0;
        while i < self.connected.len()
            invariant
                i <= self.connected@.len(),
                forall|j: int| 0 <= j < i ==> self.connected@[j] != id,
            decreases self.connected@.len() - i,
        {
            if self.connected[i] == id {
                return true;
            }
            i += 1;
        }
        false
    }

    /// Records that the link to `id` is up.
    pub fn mark_connected(&mut self, id: NodeId)
        requires
            old(self).wf(),
        ensures
            final(self).wf(),
            final(self).connected@.to_set() == old(self).connected@.to_set().insert(id),
            old(self).connected@.contains(id) ==> final(self).connected@ == old(self).connected@,
            !old(self).connected@.contains(id) ==> final(self).connected@ == seq![id] + old(
                self,
            ).connected@,
            final(self).outgoing_buffer@ == old(self).outgoing_buffer@,
            final(self).incoming_buffer@ == old(self).incoming_buffer@,
            final(self).peers@ == old(self).peers@,
            final(self).self_addr@ == old(self).self_addr@,
    {
        if !self.is_connected(id) {
            self.connected.insert(0, id);
            proof {
                let o = old(self).connected@;
                assert(self.connected@ =~= seq![id] + o);
                assert forall|x: NodeId| #[trigger] self.connected@.contains(x) <==> (x == id || o.contains(x)) by {
                    if self.connected@.contains(x) {
                        let j = choose|j: int| 0 <= j < self.connected@.len() && self.connected@[j] == x;
                        if j > 0 {
                            assert(o[j - 1] == x);
                        }
                    }
                    if o.contains(x) {
                        let j = choose|j: int| 0 <= j < o.len() && o[j] == x;
                        assert(self.connected@[j + 1] == x);
                    }
                    if x == id {
                        assert(self.connected@[0] == x);
                    }
                }
                assert(self.connected@.to_set() =~= o.to_set().insert(id));
                assert(self.connected@.no_duplicates());
            }
        } else {
            proof {
                assert(self.connected@.to_set() =~= old(self).connected@.to_set().insert(id));
            }
        }
    }

    /// Records that the link to `id` is down.
    pub fn mark_disconnected(&mut self, id: NodeId)
        requires
            old(self).wf(),
        ensures
            final(self).wf(),
            final(self).connected@.to_set() == old(self).connected@.to_set().remove(id),
            final(self).outgoing_buffer@ == old(self).outgoing_buffer@,
            final(self).incoming_buffer@ == old(self).incoming_buffer@,
            final(self).peers@ == old(self).peers@,
            final(self).self_addr@ == old(self).self_addr@,
    {
        let ghost o = self.connected@;
        let mut kept: Vec<NodeId> = Vec::new();
        let mut i: usize = 0;
        while i < self.connected.len()
            invariant
                self.connected@ == o,
                o.no_duplicates(),
                i <= o.len(),
                kept@.no_duplicates(),
                forall|x: NodeId| #[trigger] kept@.contains(x) <==> (x != id && o.take(i as int).contains(x)),
            decreases o.len() - i,
        {
            let x = self.connected[i];
            proof {
                assert forall|y: NodeId| #[trigger] o.take(i + 1).contains(y) <==> (y == x || o.take(i as int).contains(y)) by {
                    if o.take(i + 1).contains(y) {
                        let j = choose|j: int| 0 <= j < i + 1 && #[trigger] o.take(i + 1)[j] == y;
                        if j < i {
                            assert(o.take(i as int)[j] == y);
                        }
                    }
                    if o.take(i as int).contains(y) {
                        let j = choose|j: int| 0 <= j < i && #[trigger] o.take(i as int)[j] == y;
                        assert(o.take(i + 1)[j] == y);
                    }
                    if y == x {
                        assert(o.take(i + 1)[i as int] == y);
                    }
                }
                if x != id {
                    assert(!o.take(i as int).contains(x)) by {
                        if o.take(i as int).contains(x) {
                            let j = choose|j: int| 0 <= j < i && #[trigger] o.take(i as int)[j] == x;
                            assert(o[j] == o[i as int]);
                        }
                    }
                }
            }
            let ghost before = kept@;
            if x != id {
                kept.push(x);
                proof {
                    assert(!before.contains(x));
                    assert(kept@.drop_last() =~= before);
                    assert forall|a: int, b: int| 0 <= a < b < kept@.len() implies kept@[a] != kept@[b] by {
                        if b == kept@.len() - 1 {
                            assert(before[a] == kept@[a]);
                        }
                    }
                    assert forall|y: NodeId| #[trigger] kept@.contains(y) <==> (y == x || kept@.drop_last().contains(y)) by {
                        if kept@.contains(y) {
                            let j = choose|j: int| 0 <= j < kept@.len() && kept@[j] == y;
                            if j < kept@.len() - 1 {
                                assert(kept@.drop_last()[j] == y);
                            }
                        }
                        if kept@.drop_last().contains(y) {
                            let j = choose|j: int| 0 <= j < kept@.len() - 1 && #[trigger] kept@.drop_last()[j] == y;
                            assert(kept@[j] == y);
                        }
                        if y == x {
                            assert(kept@[kept@.len() - 1] == y);
                        }
                    }
                }
            }
            i += 1;
        }
        proof {
            assert(o.take(o.len() as int) =~= o);
            assert(kept@.to_set() =~= o.to_set().remove(id));
        }
        self.connected = kept;
    }
}

} // verus!
