use starlink::gossip::{GossipMessage, TopicState};

const A: [u8; 32] = [0xa; 32];
const B: [u8; 32] = [0xb; 32];
const C: [u8; 32] = [0xc; 32];

#[test]
fn passive_join_dials_nobody() {
    let (t, dial) = TopicState::join(A, &Vec::new());
    assert!(dial.is_empty());
    assert_eq!(t.member_count(), 0);
}

#[test]
fn join_skips_self_and_repeats() {
    let (t, dial) = TopicState::join(A, &vec![B, A, C, B]);
    assert_eq!(dial, vec![B, C]);
    assert!(t.is_member(&B));
    assert!(t.is_member(&C));
    assert!(!t.is_member(&A));
}

#[test]
fn transitive_delivery_through_middle_node() {
    // C waits passively, A bootstraps from C, B bootstraps from C only.
    let (mut c, _) = TopicState::join(C, &Vec::new());
    let (mut a, dial_a) = TopicState::join(A, &vec![C]);
    let (mut b, dial_b) = TopicState::join(B, &vec![C]);
    assert_eq!(dial_a, vec![C]);
    assert_eq!(dial_b, vec![C]);
    assert!(c.learn(&A));
    assert!(c.learn(&B));
    assert!(!b.is_member(&A));

    let (msg, targets) = a.broadcast(b"M".to_vec());
    assert_eq!(targets, vec![C]);
    let at_c = c.on_message(&A, &msg);
    assert_eq!(at_c.delivered, vec![(0, b"M".to_vec())]);
    assert_eq!(at_c.forward_to, vec![B]);
    let at_b = b.on_message(&C, &msg);
    assert_eq!(at_b.delivered, vec![(0, b"M".to_vec())]);
    assert_eq!(msg.origin, A);
    assert_eq!(msg.payload, b"M".to_vec());
    assert!(b.is_member(&A));
    // B sends it on to C only; C has seen it and stops it there.
    assert!(at_b.forward_to.is_empty());
    let again = c.on_message(&B, &msg);
    assert!(again.delivered.is_empty());
    assert!(again.forward_to.is_empty());
}

#[test]
fn per_sender_order_and_no_duplicates() {
    let (mut a, _) = TopicState::join(A, &vec![B]);
    let (mut b, _) = TopicState::join(B, &vec![A]);
    let (m0, _) = a.broadcast(b"first".to_vec());
    let (m1, _) = a.broadcast(b"second".to_vec());
    let (m2, _) = a.broadcast(b"third".to_vec());
    let (m3, _) = a.broadcast(b"fourth".to_vec());
    assert_eq!(m0.seq, 0);
    assert_eq!(m1.seq, 1);
    assert_eq!(a.next_seq(), 4);
    // the first message from A starts the stream
    assert_eq!(b.on_message(&A, &m0).delivered, vec![(0, b"first".to_vec())]);
    // two and three arrive ahead of one: held back, then released in order
    let early = b.on_message(&A, &m2);
    assert!(early.delivered.is_empty());
    assert_eq!(early.forward_to.len(), 0);
    assert!(b.on_message(&A, &m3).delivered.is_empty());
    assert!(b.on_message(&A, &m2).delivered.is_empty());
    assert_eq!(
        b.on_message(&A, &m1).delivered,
        vec![(1, b"second".to_vec()), (2, b"third".to_vec()), (3, b"fourth".to_vec())]
    );
    // nothing twice
    assert!(b.on_message(&A, &m1).delivered.is_empty());
    assert!(b.on_message(&A, &m3).delivered.is_empty());
}

#[test]
fn own_message_is_not_delivered_back() {
    let (mut a, _) = TopicState::join(A, &vec![B]);
    let (m, _) = a.broadcast(b"echo".to_vec());
    let d = a.on_message(&B, &m);
    assert!(d.delivered.is_empty());
    assert!(d.forward_to.is_empty());
}

#[test]
fn departure_removes_member_only() {
    let (mut t, _) = TopicState::join(A, &vec![B, C]);
    assert!(t.depart(&B));
    assert!(!t.is_member(&B));
    assert!(t.is_member(&C));
    assert!(!t.depart(&B));
    assert_eq!(t.member_count(), 1);
}

#[test]
fn learn_all_adds_each_once() {
    let (mut t, _) = TopicState::join(A, &Vec::new());
    t.learn_all(&vec![B, B, A, C]);
    assert_eq!(t.member_count(), 2);
    assert!(!t.learn(&A));
}

#[test]
fn wire_form_round_trip() {
    let m = GossipMessage { origin: A, seq: 0x0102030405060708, payload: b"hi".to_vec() };
    let bytes = m.to_bytes();
    assert_eq!(bytes.len(), 42);
    assert_eq!(&bytes[32..40], &[1, 2, 3, 4, 5, 6, 7, 8]);
    assert_eq!(&bytes[40..], b"hi");
    assert_eq!(GossipMessage::from_bytes(&bytes), Some(m));
    assert_eq!(GossipMessage::from_bytes(&bytes[..39].to_vec()), None);
    let empty = GossipMessage { origin: B, seq: 0, payload: Vec::new() };
    assert_eq!(GossipMessage::from_bytes(&empty.to_bytes()), Some(empty));
}
