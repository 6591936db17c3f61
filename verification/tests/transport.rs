use belka_chain::framing::{encode_framed, FrameBuffer, ReadEvent};
use belka_chain::handler::{dispatch, InboundAction};
use belka_chain::peer::{Endpoint, Peer};
use belka_chain::protocol::Message;
use belka_chain::queue::OutboundQueue;
use belka_chain::registry::PeerRegistry;

#[test]
fn ping_elicits_exactly_one_pong() {
    assert_eq!(dispatch(Message::Ping), InboundAction::Reply(Message::Pong));
}

#[test]
fn pong_produces_no_reply() {
    assert_eq!(dispatch(Message::Pong), InboundAction::RecordLiveness);
}

#[test]
fn other_messages_are_forwarded_unchanged() {
    let m = Message::NewBlock { block: vec![1, 2, 3] };
    assert_eq!(dispatch(m.clone()), InboundAction::Forward(m));
    assert_eq!(
        dispatch(Message::GetTransactions),
        InboundAction::Forward(Message::GetTransactions)
    );
}

#[test]
fn queue_delivers_in_enqueue_order() {
    let a = Message::Ping;
    let b = Message::GetTransactions;
    let c = Message::NewTransaction { transaction: vec![9] };
    let mut q = OutboundQueue::new();
    q.push_back(a.clone());
    q.push_back(b.clone());
    q.push_back(c.clone());
    assert_eq!(q.len(), 3);
    assert_eq!(q.pop_front(), Some(a));
    assert_eq!(q.pop_front(), Some(b));
    assert_eq!(q.pop_front(), Some(c));
    assert_eq!(q.pop_front(), None);
    assert!(q.is_empty());
}

#[test]
fn sends_to_other_peers_do_not_reorder_a_queue() {
    let mut q1 = OutboundQueue::new();
    let mut q2 = OutboundQueue::new();
    q1.push_back(Message::Ping);
    q2.push_back(Message::Pong);
    q1.push_back(Message::GetTransactions);
    q2.push_back(Message::Ping);
    q1.push_back(Message::Pong);
    assert_eq!(q1.pop_front(), Some(Message::Ping));
    assert_eq!(q1.pop_front(), Some(Message::GetTransactions));
    assert_eq!(q1.pop_front(), Some(Message::Pong));
    assert_eq!(q2.pop_front(), Some(Message::Pong));
    assert_eq!(q2.pop_front(), Some(Message::Ping));
}

#[test]
fn liveness_deadline_runs_from_the_oldest_unanswered_probe() {
    let mut t = belka_chain::liveness::LivenessTracker::new();
    assert!(!t.is_overdue(100, 10));
    t.probe_sent(100);
    assert!(!t.is_overdue(105, 10));
    t.probe_sent(108); // a second probe does not reset the deadline
    assert!(!t.is_overdue(110, 10));
    assert!(t.is_overdue(111, 10));
    t.pong_received();
    assert!(!t.is_overdue(1000, 10));
    t.probe_sent(1000);
    assert!(t.is_overdue(2000, 10));
    // A clock that moved backwards is not overdue.
    assert!(!t.is_overdue(0, 10));
}

/// One node side: its registry and its reassembly buffer.
struct Node {
    registry: PeerRegistry<OutboundQueue>,
    inbound: FrameBuffer,
}

impl Node {
    fn new() -> Self {
        Node { registry: PeerRegistry::new(), inbound: FrameBuffer::new() }
    }

    /// Registers a live connection to `addr` with a fresh outbound queue.
    fn register(&mut self, addr: Endpoint) {
        let mut peer = Peer::new(addr, vec![]);
        peer.connect();
        assert!(self.registry.insert(addr, peer, OutboundQueue::new()));
    }
}

#[test]
fn end_to_end_ping_pong_session() {
    // Two endpoints: e1 listens, e2 dials.
    let e1 = Endpoint { ip: 1, port: 8080 };
    let e2 = Endpoint { ip: 2, port: 8081 };
    let mut n1 = Node::new();
    let mut n2 = Node::new();

    // Connection established: each side registers the other.
    n1.register(e2);
    n2.register(e1);
    assert_eq!(n1.registry.peer_count(), 1);
    assert_eq!(n2.registry.peer_count(), 1);

    // e2 sends Ping: framed bytes cross the wire into e1's buffer.
    let ping_bytes = encode_framed(&Message::Ping).unwrap();
    n1.inbound.push_chunk(&ping_bytes);
    let received = match n1.inbound.next_event() {
        ReadEvent::Message(m) => m,
        _ => panic!("expected the Ping"),
    };

    // e1's policy answers with exactly one Pong.
    let reply = match dispatch(received) {
        InboundAction::Reply(r) => r,
        _ => panic!("Ping must be answered"),
    };
    assert_eq!(reply, Message::Pong);

    // The Pong crosses back and e2 records liveness without replying.
    let pong_bytes = encode_framed(&reply).unwrap();
    n2.inbound.push_chunk(&pong_bytes);
    let received2 = match n2.inbound.next_event() {
        ReadEvent::Message(m) => m,
        _ => panic!("expected the Pong"),
    };
    assert_eq!(dispatch(received2), InboundAction::RecordLiveness);

    // e2 closes: both sides tear the entry down; counts return to zero.
    n1.registry.remove(e2);
    n2.registry.remove(e1);
    assert_eq!(n1.registry.peer_count(), 0);
    assert_eq!(n2.registry.peer_count(), 0);
    assert!(n1.registry.connected_addresses().is_empty());
}
