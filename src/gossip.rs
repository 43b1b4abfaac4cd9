//! Topic-scoped gossip: who a node knows in a topic, and what it does with
//! each message that reaches it.
//!
//! Membership grows when a node joins with bootstrap peers, when a neighbour
//! connects, and transitively when a message reveals its origin; it shrinks
//! only when a peer departs. It never holds the local identity.
//!
//! Each message carries its origin and a per-origin sequence number. From
//! the first message a node receives of an origin on, it delivers that
//! origin's numbers each once and in order: a message that arrives ahead of
//! a gap is held back until the gap fills, a number already delivered or
//! held is dropped. Every message new to the node is forwarded to every
//! member but its origin and the neighbour it came from.
use vstd::prelude::*;
use crate::digest::same_key;
use crate::ticket::NodeId;

verus! {

/// An opaque 32-byte topic selector.
pub type TopicId = [u8; 32];

/// A message as it travels through a topic's mesh.
#[derive(Clone, Debug, PartialEq, Eq)]
pub struct GossipMessage {
    pub origin: NodeId,
    pub seq: u64,
    pub payload: Vec<u8>,
}

/// The wire form of a message: origin (32 bytes), number (8 bytes,
/// big-endian), payload.
pub open spec fn message_bytes(origin: Seq<u8>, seq: u64, payload: Seq<u8>) -> Seq<u8> {
    origin + u64_be(seq) + payload
}

pub open spec fn u64_be(x: u64) -> Seq<u8> {
    seq![
        (x >> 56u64) as u8,
        (x >> 48u64) as u8,
        (x >> 40u64) as u8,
        (x >> 32u64) as u8,
        (x >> 24u64) as u8,
        (x >> 16u64) as u8,
        (x >> 8u64) as u8,
        x as u8,
    ]
}

pub open spec fn read_u64(b: Seq<u8>, at: int) -> u64 {
    ((b[at] as u64) << 56u64) | ((b[at + 1] as u64) << 48u64) | ((b[at + 2] as u64) << 40u64) | ((
    b[at + 3] as u64) << 32u64) | ((b[at + 4] as u64) << 24u64) | ((b[at + 5] as u64) << 16u64) | ((
    b[at + 6] as u64) << 8u64) | (b[at + 7] as u64)
}

/// The message a wire form holds: any 40 bytes or more are one.
pub open spec fn message_of(b: Seq<u8>) -> Option<(Seq<u8>, u64, Seq<u8>)> {
    if b.len() < 40 {
        None
    } else {
        Some((b.subrange(0, 32), read_u64(b, 32), b.subrange(40, b.len() as int)))
    }
}

proof fn lemma_u64_round_trip(x: u64)
    ensures
        read_u64(u64_be(x), 0) == x,
{
    let b = u64_be(x);
    let (b0, b1, b2, b3, b4, b5, b6, b7) = (b[0], b[1], b[2], b[3], b[4], b[5], b[6], b[7]);
    assert(b0 == (x >> 56u64) as u8 && b1 == (x >> 48u64) as u8 && b2 == (x >> 40u64) as u8 && b3 == (x
        >> 32u64) as u8 && b4 == (x >> 24u64) as u8 && b5 == (x >> 16u64) as u8 && b6 == (x >> 8u64) as u8
        && b7 == x as u8);
    assert(((b0 as u64) << 56u64) | ((b1 as u64) << 48u64) | ((b2 as u64) << 40u64) | ((b3 as u64)
        << 32u64) | ((b4 as u64) << 24u64) | ((b5 as u64) << 16u64) | ((b6 as u64) << 8u64) | (b7 as u64)
        == x) by (bit_vector)
        requires
            b0 == (x >> 56u64) as u8 && b1 == (x >> 48u64) as u8 && b2 == (x >> 40u64) as u8 && b3 == (x
                >> 32u64) as u8 && b4 == (x >> 24u64) as u8 && b5 == (x >> 16u64) as u8 && b6 == (x
                >> 8u64) as u8 && b7 == x as u8,
    ;
}

/// A message's wire form reads back as that message.
pub proof fn lemma_message_round_trip(origin: Seq<u8>, seq: u64, payload: Seq<u8>)
    requires
        origin.len() == 32,
    ensures
        message_of(message_bytes(origin, seq, payload)) == Some((origin, seq, payload)),
{
    let b = message_bytes(origin, seq, payload);
    lemma_u64_round_trip(seq);
    assert(b.subrange(0, 32) =~= origin);
    assert(b.subrange(40, b.len() as int) =~= payload);
    assert(b.subrange(32, 40) =~= u64_be(seq));
    assert(read_u64(b, 32) == read_u64(b.subrange(32, 40), 0));
}

impl GossipMessage {
    /// The wire form of the message.
    pub fn to_bytes(&self) -> (r: Vec<u8>)
        ensures
            r@ == message_bytes(self.origin@, self.seq, self.payload@),
    {
        let mut r: Vec<u8> = Vec::new();
        let mut i: usize = 0;
        while i < 32
            invariant
                i <= 32,
                r@ == self.origin@.subrange(0, i as int),
            decreases 32 - i,
        {
            r.push(self.origin[i]);
            i = i + 1;
            assert(r@ =~= self.origin@.subrange(0, i as int));
        }
        let ghost head = r@;
        let x = self.seq;
        r.push((x >> 56u64) as u8);
        r.push((x >> 48u64) as u8);
        r.push((x >> 40u64) as u8);
        r.push((x >> 32u64) as u8);
        r.push((x >> 24u64) as u8);
        r.push((x >> 16u64) as u8);
        r.push((x >> 8u64) as u8);
        r.push(x as u8);
        assert(head =~= self.origin@);
        assert(r@ =~= head + u64_be(x));
        let ghost with_seq = r@;
        let mut j: usize = 0;
        while j < self.payload.len()
            invariant
                j <= self.payload@.len(),
                r@ == with_seq + self.payload@.subrange(0, j as int),
            decreases self.payload@.len() - j,
        {
            r.push(self.payload[j]);
            j = j + 1;
            assert(r@ =~= with_seq + self.payload@.subrange(0, j as int));
        }
        assert(self.payload@.subrange(0, j as int) =~= self.payload@);
        r
    }

    /// The message a wire form holds; `None` for fewer than 40 bytes.
    pub fn from_bytes(b: &Vec<u8>) -> (r: Option<GossipMessage>)
        ensures
            match r {
                Some(m) => message_of(b@) == Some((m.origin@, m.seq, m.payload@)),
                None => message_of(b@) is None,
            },
    {
        let len = b.len();
        if len < 40 {
            return None;
        }
        let mut origin: [u8; 32] = [0u8; 32];
        let mut k: usize = 0;
        while k < 32
            invariant
                k <= 32,
                40 <= b@.len(),
                forall|j: int| 0 <= j < k ==> origin@[j] == b@[j],
            decreases 32 - k,
        {
            origin[k] = b[k];
            k = k + 1;
        }
        assert(origin@ =~= b@.subrange(0, 32));
        let seq = ((b[32] as u64) << 56u64) | ((b[33] as u64) << 48u64) | ((b[34] as u64) << 40u64) | ((
        b[35] as u64) << 32u64) | ((b[36] as u64) << 24u64) | ((b[37] as u64) << 16u64) | ((b[38] as u64)
            << 8u64) | (b[39] as u64);
        let mut payload: Vec<u8> = Vec::new();
        let mut j: usize = 40;
        while j < len
            invariant
                40 <= j <= len,
                len == b@.len(),
                payload@ == b@.subrange(40, j as int),
            decreases len - j,
        {
            payload.push(b[j]);
            j = j + 1;
            assert(payload@ =~= b@.subrange(40, j as int));
        }
        Some(GossipMessage { origin, seq, payload })
    }
}

/// What a node does with a message that reached it.
#[derive(Clone, Debug, PartialEq, Eq)]
pub struct Delivery {
    /// Hand these (number, payload) pairs of the message's origin to the
    /// local receiver, in this order.
    pub delivered: Vec<(u64, Vec<u8>)>,
    /// Send the message on to these members.
    pub forward_to: Vec<NodeId>,
}

pub open spec fn ids(v: Seq<[u8; 32]>) -> Seq<Seq<u8>> {
    v.map_values(|a: [u8; 32]| a@)
}

/// The members after learning of `p`.
pub open spec fn add_peer(peers: Seq<Seq<u8>>, local: Seq<u8>, p: Seq<u8>) -> Seq<Seq<u8>> {
    if p == local || peers.contains(p) {
        peers
    } else {
        peers.push(p)
    }
}

/// The members after learning of each of `ps` in turn.
pub open spec fn add_peers(peers: Seq<Seq<u8>>, local: Seq<u8>, ps: Seq<Seq<u8>>) -> Seq<Seq<u8>>
    decreases ps.len(),
{
    if ps.len() == 0 {
        peers
    } else {
        add_peer(add_peers(peers, local, ps.drop_last()), local, ps.last())
    }
}

/// The number expected next from `origin`, if any of its messages arrived.
pub open spec fn next_expected(log: Seq<(Seq<u8>, u64)>, origin: Seq<u8>) -> Option<u64>
    decreases log.len(),
{
    if log.len() == 0 {
        None
    } else if log.last().0 == origin {
        Some(log.last().1)
    } else {
        next_expected(log.drop_last(), origin)
    }
}

/// The index of the held message from `origin` numbered `n`, searching from
/// the latest.
pub open spec fn find_held(held: Seq<(Seq<u8>, u64, Seq<u8>)>, origin: Seq<u8>, n: u64) -> Option<int>
    decreases held.len(),
{
    if held.len() == 0 {
        None
    } else if held.last().0 == origin && held.last().1 == n {
        Some(held.len() - 1)
    } else {
        find_held(held.drop_last(), origin, n)
    }
}

/// Whether a message from `origin` numbered `seq` is new to this node: not
/// its own, not yet delivered, not held.
pub open spec fn is_new(t: TopicView, origin: Seq<u8>, seq: u64) -> bool {
    &&& origin != t.local
    &&& seq < u64::MAX
    &&& match next_expected(t.seen, origin) {
        Some(n) => n <= seq,
        None => true,
    }
    &&& find_held(t.held, origin, seq) is None
}

/// Releases the held messages of `origin` numbered `n`, `n + 1`, ... while
/// they are there: what is delivered, what stays held, and the number
/// expected after them.
pub open spec fn release(held: Seq<(Seq<u8>, u64, Seq<u8>)>, origin: Seq<u8>, n: u64) -> (
    Seq<(u64, Seq<u8>)>,
    Seq<(Seq<u8>, u64, Seq<u8>)>,
    u64,
)
    decreases held.len(),
{
    match find_held(held, origin, n) {
        Some(i) => if 0 <= i < held.len() && n < u64::MAX {
            let rest = release(held.remove(i), origin, (n + 1) as u64);
            (seq![(n, held[i].2)] + rest.0, rest.1, rest.2)
        } else {
            (Seq::empty(), held, n)
        },
        None => (Seq::empty(), held, n),
    }
}

pub struct TopicView {
    pub local: Seq<u8>,
    pub peers: Seq<Seq<u8>>,
    pub seen: Seq<(Seq<u8>, u64)>,
    pub held: Seq<(Seq<u8>, u64, Seq<u8>)>,
    pub next_seq: u64,
}

/// The topic state after a message from neighbour `from` arrives, and the
/// (number, payload) pairs of its origin delivered, in order.
pub open spec fn receive(t: TopicView, from: Seq<u8>, origin: Seq<u8>, seq: u64, payload: Seq<u8>) -> (
    TopicView,
    Seq<(u64, Seq<u8>)>,
) {
    if !is_new(t, origin, seq) {
        (t, Seq::empty())
    } else {
        let peers = add_peer(add_peer(t.peers, t.local, from), t.local, origin);
        let expected = match next_expected(t.seen, origin) {
            Some(n) => n,
            None => seq,
        };
        if seq == expected {
            let r = release(t.held, origin, (seq + 1) as u64);
            (TopicView { peers, seen: t.seen.push((origin, r.2)), held: r.1, ..t }, seq![(seq, payload)] + r.0)
        } else {
            (TopicView { peers, held: t.held.push((origin, seq, payload)), ..t }, Seq::empty())
        }
    }
}

/// The members a message new to the node is sent on to.
pub open spec fn forwards_to(t: TopicView, from: Seq<u8>, origin: Seq<u8>, seq: u64, p: Seq<u8>) -> bool {
    is_new(t, origin, seq) && receive(t, from, origin, seq, Seq::empty()).0.peers.contains(p) && p
        != from && p != origin
}

pub open spec fn held_view(held: Seq<(NodeId, u64, Vec<u8>)>) -> Seq<(Seq<u8>, u64, Seq<u8>)> {
    held.map_values(|e: (NodeId, u64, Vec<u8>)| (e.0@, e.1, e.2@))
}

pub open spec fn delivered_view(d: Seq<(u64, Vec<u8>)>) -> Seq<(u64, Seq<u8>)> {
    d.map_values(|e: (u64, Vec<u8>)| (e.0, e.1@))
}

/// A node's state in one topic.
pub struct TopicState {
    local: NodeId,
    peers: Vec<NodeId>,
    seen: Vec<(NodeId, u64)>,
    held: Vec<(NodeId, u64, Vec<u8>)>,
    next_seq: u64,
}

impl View for TopicState {
    type V = TopicView;

    closed spec fn view(&self) -> TopicView {
        TopicView {
            local: self.local@,
            peers: ids(self.peers@),
            seen: self.seen@.map_values(|e: (NodeId, u64)| (e.0@, e.1)),
            held: held_view(self.held@),
            next_seq: self.next_seq,
        }
    }
}

/// No member twice, and never the local identity.
pub open spec fn members_wf(local: Seq<u8>, peers: Seq<Seq<u8>>) -> bool {
    &&& !peers.contains(local)
    &&& forall|i: int, j: int| 0 <= i < j < peers.len() ==> peers[i] != peers[j]
}

fn contains_id(v: &Vec<NodeId>, p: &NodeId) -> (r: bool)
    ensures
        r == ids(v@).contains(p@),
{
    let mut i: usize = 0;
    while i < v.len()
        invariant
            i <= v@.len(),
            forall|j: int| 0 <= j < i ==> v@[j]@ != p@,
        decreases v@.len() - i,
    {
        if same_key(&v[i], p) {
            assert(ids(v@)[i as int] == p@);
            return true;
        }
        i = i + 1;
    }
    assert forall|j: int| 0 <= j < ids(v@).len() implies ids(v@)[j] != p@ by {
        assert(ids(v@)[j] == v@[j]@);
    }
    false
}

proof fn lemma_contains_push(s: Seq<Seq<u8>>, x: Seq<u8>)
    ensures
        forall|y: Seq<u8>| #[trigger] s.push(x).contains(y) <==> (s.contains(y) || y == x),
{
    assert forall|y: Seq<u8>| #[trigger] s.push(x).contains(y) <==> (s.contains(y) || y == x) by {
        if s.contains(y) {
            let k = choose|k: int| 0 <= k < s.len() && s[k] == y;
            assert(s.push(x)[k] == y);
        }
        if y == x {
            assert(s.push(x)[s.len() as int] == y);
        }
        if s.push(x).contains(y) && y != x {
            let k = choose|k: int| 0 <= k < s.push(x).len() && s.push(x)[k] == y;
            assert(s[k] == y);
        }
    }
}

/// Mesh transitivity. In one topic A and C know each other, and B joined
/// through C alone, which accepted it. A message that A broadcasts is sent to
/// C; C delivers it and sends it on to B; B delivers it and learns of A,
/// though A was never among B's bootstrap peers. Neither B nor C may be
/// expecting a later number of A's, nor hold this one already.
pub proof fn lemma_mesh_transitivity(a: TopicView, b: TopicView, c: TopicView, m: Seq<u8>)
    requires
        a.local != b.local,
        a.local != c.local,
        b.local != c.local,
        a.next_seq < u64::MAX,
        a.peers.contains(c.local),
        c.peers.contains(b.local),
        next_expected(c.seen, a.local) is Some ==> next_expected(c.seen, a.local).unwrap() == a.next_seq,
        next_expected(b.seen, a.local) is Some ==> next_expected(b.seen, a.local).unwrap() == a.next_seq,
        find_held(c.held, a.local, a.next_seq) is None,
        find_held(b.held, a.local, a.next_seq) is None,
    ensures
        receive(c, a.local, a.local, a.next_seq, m).1.len() >= 1,
        receive(c, a.local, a.local, a.next_seq, m).1[0] == (a.next_seq, m),
        forwards_to(c, a.local, a.local, a.next_seq, b.local),
        receive(b, c.local, a.local, a.next_seq, m).1.len() >= 1,
        receive(b, c.local, a.local, a.next_seq, m).1[0] == (a.next_seq, m),
        receive(b, c.local, a.local, a.next_seq, m).0.peers.contains(a.local),
{
    let c2 = receive(c, a.local, a.local, a.next_seq, Seq::empty());
    lemma_contains_push(c.peers, a.local);
    assert(c2.0.peers.contains(b.local));
    let mid = add_peer(b.peers, b.local, c.local);
    lemma_contains_push(mid, a.local);
}

proof fn lemma_find_held_in_range(held: Seq<(Seq<u8>, u64, Seq<u8>)>, origin: Seq<u8>, n: u64)
    ensures
        find_held(held, origin, n) is Some ==> {
            let i = find_held(held, origin, n).unwrap();
            0 <= i < held.len() && held[i].0 == origin && held[i].1 == n
        },
        find_held(held, origin, n) is None ==> forall|i: int|
            0 <= i < held.len() ==> !(#[trigger] held[i].0 == origin && held[i].1 == n),
    decreases held.len(),
{
    if held.len() > 0 {
        lemma_find_held_in_range(held.drop_last(), origin, n);
        assert forall|i: int| 0 <= i < held.len() - 1 implies #[trigger] held[i] == held.drop_last()[i] by {}
    }
}

proof fn lemma_release_in_order(held: Seq<(Seq<u8>, u64, Seq<u8>)>, origin: Seq<u8>, n: u64)
    ensures
        release(held, origin, n).2 == n + release(held, origin, n).0.len(),
        forall|k: int| 0 <= k < release(held, origin, n).0.len() ==> #[trigger] release(held, origin, n).0[k].0 == n + k,
    decreases held.len(),
{
    lemma_find_held_in_range(held, origin, n);
    match find_held(held, origin, n) {
        Some(i) => if 0 <= i < held.len() && n < u64::MAX {
            lemma_release_in_order(held.remove(i), origin, (n + 1) as u64);
            let rest = release(held.remove(i), origin, (n + 1) as u64);
            let all = release(held, origin, n);
            assert forall|k: int| 0 <= k < all.0.len() implies #[trigger] all.0[k].0 == n + k by {
                if k > 0 {
                    assert(all.0[k] == rest.0[k - 1]);
                }
            }
        },
        None => {},
    }
}

/// Each origin's numbers are delivered once and in order. The pairs a
/// message releases carry consecutive numbers starting at its own; the node
/// then expects the number after the last of them, and no number below that
/// is new to it any more.
pub proof fn lemma_delivery_in_send_order(
    t: TopicView,
    from: Seq<u8>,
    origin: Seq<u8>,
    seq: u64,
    payload: Seq<u8>,
    later: u64,
)
    ensures
        forall|k: int|
            0 <= k < receive(t, from, origin, seq, payload).1.len() ==> #[trigger] receive(t, from, origin, seq, payload).1[k].0 == seq + k,
        receive(t, from, origin, seq, payload).1.len() > 0 ==> next_expected(
            receive(t, from, origin, seq, payload).0.seen,
            origin,
        ) == Some((seq + receive(t, from, origin, seq, payload).1.len()) as u64),
        receive(t, from, origin, seq, payload).1.len() > 0 && later < seq + receive(t, from, origin, seq, payload).1.len()
            ==> !is_new(receive(t, from, origin, seq, payload).0, origin, later),
{
    if is_new(t, origin, seq) {
        let expected = match next_expected(t.seen, origin) {
            Some(n) => n,
            None => seq,
        };
        if seq == expected {
            lemma_release_in_order(t.held, origin, (seq + 1) as u64);
            let r = release(t.held, origin, (seq + 1) as u64);
            let d = receive(t, from, origin, seq, payload).1;
            assert(d == seq![(seq, payload)] + r.0);
            assert forall|k: int| 0 <= k < d.len() implies #[trigger] d[k].0 == seq + k by {
                if k > 0 {
                    assert(d[k] == r.0[k - 1]);
                }
            }
        }
    }
}

fn copy_payload(v: &Vec<u8>) -> (r: Vec<u8>)
    ensures
        r@ == v@,
{
    let r = v.clone();
    assert(r@ =~= v@);
    r
}

impl TopicState {
    pub open spec fn wf(&self) -> bool {
        members_wf(self@.local, self@.peers)
    }

    /// Joins a topic. With no bootstrap peers the node waits for inbound
    /// peers; otherwise the listed peers (without the local identity, each
    /// once) seed the membership and are returned to be dialled.
    pub fn join(local: NodeId, bootstrap: &Vec<NodeId>) -> (r: (TopicState, Vec<NodeId>))
        ensures
            r.0.wf(),
            r.0@.local == local@,
            r.0@.peers == add_peers(Seq::empty(), local@, ids(bootstrap@)),
            r.0@.seen == Seq::<(Seq<u8>, u64)>::empty(),
            r.0@.held == Seq::<(Seq<u8>, u64, Seq<u8>)>::empty(),
            r.0@.next_seq == 0,
            ids(r.1@) == r.0@.peers,
    {
        let mut t = TopicState { local, peers: Vec::new(), seen: Vec::new(), held: Vec::new(), next_seq: 0 };
        assert(t@.seen =~= Seq::<(Seq<u8>, u64)>::empty());
        assert(t@.held =~= Seq::<(Seq<u8>, u64, Seq<u8>)>::empty());
        assert(t@.peers =~= Seq::<Seq<u8>>::empty());
        t.learn_all(bootstrap);
        let dial = t.peers.clone();
        assert(ids(dial@) =~= ids(t.peers@));
        (t, dial)
    }

    /// Learns of a member: a neighbour connected, or a peer was announced.
    /// Returns whether it was new.
    pub fn learn(&mut self, p: &NodeId) -> (r: bool)
        requires
            old(self).wf(),
        ensures
            final(self).wf(),
            final(self)@ == (TopicView { peers: add_peer(old(self)@.peers, old(self)@.local, p@), ..old(self)@ }),
            r == (final(self)@.peers != old(self)@.peers),
    {
        if same_key(p, &self.local) || contains_id(&self.peers, p) {
            return false;
        }
        let ghost before = self@;
        self.peers.push(*p);
        proof {
            assert(ids(self.peers@) =~= before.peers.push(p@));
            assert(self@.seen =~= before.seen);
            assert(!ids(self.peers@).contains(self@.local)) by {
                if ids(self.peers@).contains(self@.local) {
                    let k = choose|k: int| 0 <= k < ids(self.peers@).len() && ids(self.peers@)[k] == self@.local;
                    if k < before.peers.len() {
                        assert(before.peers[k] == self@.local);
                    }
                }
            }
            assert(self@.peers.len() == before.peers.len() + 1);
        }
        true
    }

    /// Forgets a member that departed.
    pub fn depart(&mut self, p: &NodeId) -> (r: bool)
        requires
            old(self).wf(),
        ensures
            final(self).wf(),
            final(self)@.local == old(self)@.local,
            final(self)@.seen == old(self)@.seen,
            final(self)@.next_seq == old(self)@.next_seq,
            forall|q: Seq<u8>| final(self)@.peers.contains(q) <==> (old(self)@.peers.contains(q) && q != p@),
            r == old(self)@.peers.contains(p@),
    {
        let ghost before = self@;
        let mut i: usize = 0;
        while i < self.peers.len()
            invariant
                i <= self.peers@.len(),
                self@ == before,
                before == old(self)@,
                members_wf(before.local, before.peers),
                forall|j: int| 0 <= j < i ==> self.peers@[j]@ != p@,
            decreases self.peers@.len() - i,
        {
            if same_key(&self.peers[i], p) {
                self.peers.remove(i);
                proof {
                    let old_ids = before.peers;
                    assert(ids(self.peers@) =~= old_ids.remove(i as int));
                    assert(old_ids[i as int] == p@);
                    assert forall|q: Seq<u8>| self@.peers.contains(q) <==> (old_ids.contains(q) && q != p@) by {
                        if old_ids.contains(q) && q != p@ {
                            let k = choose|k: int| 0 <= k < old_ids.len() && old_ids[k] == q;
                            if k < i {
                                assert(self@.peers[k] == q);
                            } else {
                                assert(k != i);
                                assert(self@.peers[k - 1] == q);
                            }
                        }
                        if self@.peers.contains(q) {
                            let k = choose|k: int| 0 <= k < self@.peers.len() && self@.peers[k] == q;
                            if k < i {
                                assert(old_ids[k] == q);
                                assert(old_ids[k] != old_ids[i as int]);
                            } else {
                                assert(old_ids[k + 1] == q);
                                assert(old_ids[i as int] != old_ids[k + 1]);
                            }
                        }
                    }
                    assert forall|a: int, b: int| 0 <= a < b < self@.peers.len() implies self@.peers[a] != self@.peers[b] by {
                        let a2 = if a < i { a } else { a + 1 };
                        let b2 = if b < i { b } else { b + 1 };
                        assert(self@.peers[a] == old_ids[a2]);
                        assert(self@.peers[b] == old_ids[b2]);
                    }
                    assert(!self@.peers.contains(self@.local)) by {
                        if self@.peers.contains(self@.local) {
                            assert(old_ids.contains(self@.local));
                        }
                    }
                    assert(self@.seen == before.seen);
                }
                return true;
            }
            i = i + 1;
        }
        proof {
            assert forall|j: int| 0 <= j < before.peers.len() implies before.peers[j] != p@ by {
                assert(before.peers[j] == self.peers@[j]@);
            }
        }
        false
    }

    /// The number expected next from `origin`.
    fn expected_from(&self, origin: &NodeId) -> (r: Option<u64>)
        ensures
            r == next_expected(self@.seen, origin@),
    {
        let ghost log = self@.seen;
        let mut i: usize = self.seen.len();
        assert(log.subrange(0, i as int) =~= log);
        while i > 0
            invariant
                i <= self.seen@.len(),
                log == self@.seen,
                next_expected(log, origin@) == next_expected(log.subrange(0, i as int), origin@),
            decreases i,
        {
            let ghost prefix = log.subrange(0, i as int);
            assert(prefix.last() == log[i - 1]);
            let entry = self.seen[i - 1];
            if same_key(&entry.0, origin) {
                return Some(entry.1);
            }
            assert(prefix.drop_last() =~= log.subrange(0, i - 1));
            i = i - 1;
        }
        None
    }

    /// Publishes a payload: the message to send, numbered after the
    /// previous one, and the members to send it to.
    pub fn broadcast(&mut self, payload: Vec<u8>) -> (r: (GossipMessage, Vec<NodeId>))
        requires
            old(self)@.next_seq < u64::MAX,
        ensures
            final(self)@ == (TopicView { next_seq: (old(self)@.next_seq + 1) as u64, ..old(self)@ }),
            r.0.origin@ == old(self)@.local,
            r.0.seq == old(self)@.next_seq,
            r.0.payload@ == payload@,
            ids(r.1@) == old(self)@.peers,
    {
        let msg = GossipMessage { origin: self.local, seq: self.next_seq, payload };
        self.next_seq = self.next_seq + 1;
        let targets = self.peers.clone();
        assert(ids(targets@) =~= ids(self.peers@));
        (msg, targets)
    }

    /// The index of the held message from `origin` numbered `n`.
    fn held_index(&self, origin: &NodeId, n: u64) -> (r: Option<usize>)
        ensures
            r is None <==> find_held(self@.held, origin@, n) is None,
            r is Some ==> find_held(self@.held, origin@, n) == Some(r.unwrap() as int),
            r is Some ==> r.unwrap() < self@.held.len(),
    {
        let ghost all = self@.held;
        let mut i: usize = self.held.len();
        assert(all.subrange(0, i as int) =~= all);
        while i > 0
            invariant
                i <= self.held@.len(),
                all == self@.held,
                find_held(all, origin@, n) == find_held(all.subrange(0, i as int), origin@, n),
            decreases i,
        {
            let ghost prefix = all.subrange(0, i as int);
            assert(prefix.last() == all[i - 1]);
            if same_key(&self.held[i - 1].0, origin) && self.held[i - 1].1 == n {
                return Some(i - 1);
            }
            assert(prefix.drop_last() =~= all.subrange(0, i - 1));
            i = i - 1;
        }
        None
    }

    /// Moves the held messages of `origin` numbered `n`, `n + 1`, ... onto
    /// `out` while they are there; returns the number expected after them.
    fn release_from(&mut self, origin: &NodeId, n: u64, out: &mut Vec<(u64, Vec<u8>)>) -> (r: u64)
        ensures
            delivered_view(final(out)@) == delivered_view(old(out)@) + release(old(self)@.held, origin@, n).0,
            final(self)@ == (TopicView { held: release(old(self)@.held, origin@, n).1, ..old(self)@ }),
            r == release(old(self)@.held, origin@, n).2,
        decreases old(self)@.held.len(),
    {
        let ghost before = self@;
        let ghost out_before = delivered_view(out@);
        proof {
            lemma_find_held_in_range(before.held, origin@, n);
        }
        if n == u64::MAX {
            assert(out_before + Seq::<(u64, Seq<u8>)>::empty() =~= out_before);
            return n;
        }
        match self.held_index(origin, n) {
            None => {
                assert(out_before + Seq::<(u64, Seq<u8>)>::empty() =~= out_before);
                n
            },
            Some(i) => {
                let e = self.held.remove(i);
                proof {
                    assert(held_view(self.held@) =~= before.held.remove(i as int));
                    assert(self@ == (TopicView { held: before.held.remove(i as int), ..before }));
                }
                out.push((n, e.2));
                assert(delivered_view(out@) =~= out_before.push((n, before.held[i as int].2)));
                let r = self.release_from(origin, n + 1, out);
                proof {
                    let rest = release(before.held.remove(i as int), origin@, (n + 1) as u64);
                    assert(find_held(before.held, origin@, n) == Some(i as int));
                    assert(release(before.held, origin@, n) == (seq![(n, before.held[i as int].2)] + rest.0, rest.1, rest.2));
                    assert(delivered_view(out@) =~= out_before + (seq![(n, before.held[i as int].2)] + rest.0));
                }
                r
            },
        }
    }

    /// Handles a message that neighbour `from` sent. A message new to the
    /// node teaches it of `from` and of the origin and is forwarded to every
    /// other member; it is delivered, with any held messages it unblocks, if
    /// it carries the number expected next (or is the first of its origin),
    /// and held back otherwise.
    pub fn on_message(&mut self, from: &NodeId, msg: &GossipMessage) -> (r: Delivery)
        requires
            old(self).wf(),
        ensures
            final(self).wf(),
            final(self)@ == receive(old(self)@, from@, msg.origin@, msg.seq, msg.payload@).0,
            delivered_view(r.delivered@) == receive(old(self)@, from@, msg.origin@, msg.seq, msg.payload@).1,
            forall|p: Seq<u8>|
                ids(r.forward_to@).contains(p) <==> forwards_to(old(self)@, from@, msg.origin@, msg.seq, p),
    {
        let ghost start = self@;
        let expected = self.expected_from(&msg.origin);
        let new = !same_key(&msg.origin, &self.local) && msg.seq < u64::MAX && match expected {
            Some(n) => n <= msg.seq,
            None => true,
        } && self.held_index(&msg.origin, msg.seq).is_none();
        if !new {
            let r = Delivery { delivered: Vec::new(), forward_to: Vec::new() };
            assert(delivered_view(r.delivered@) =~= Seq::<(u64, Seq<u8>)>::empty());
            assert forall|p: Seq<u8>| ids(r.forward_to@).contains(p) <==> forwards_to(start, from@, msg.origin@, msg.seq, p) by {
                if ids(r.forward_to@).contains(p) {
                    let k = choose|k: int| 0 <= k < ids(r.forward_to@).len() && ids(r.forward_to@)[k] == p;
                }
            }
            return r;
        }
        self.learn(from);
        self.learn(&msg.origin);
        let ghost learned = self@;
        let start_at = match expected {
            Some(n) => n,
            None => msg.seq,
        };
        let mut delivered: Vec<(u64, Vec<u8>)> = Vec::new();
        if msg.seq == start_at {
            delivered.push((msg.seq, copy_payload(&msg.payload)));
            let after = self.release_from(&msg.origin, msg.seq + 1, &mut delivered);
            let ghost released = self@;
            self.seen.push((msg.origin, after));
            proof {
                assert(self@.seen =~= released.seen.push((msg.origin@, after)));
                assert(self@ == receive(start, from@, msg.origin@, msg.seq, msg.payload@).0);
                assert(delivered_view(delivered@) =~= receive(start, from@, msg.origin@, msg.seq, msg.payload@).1);
            }
        } else {
            self.held.push((msg.origin, msg.seq, copy_payload(&msg.payload)));
            proof {
                assert(held_view(self.held@) =~= learned.held.push((msg.origin@, msg.seq, msg.payload@)));
                assert(self@ == receive(start, from@, msg.origin@, msg.seq, msg.payload@).0);
                assert(delivered_view(delivered@) =~= Seq::<(u64, Seq<u8>)>::empty());
            }
        }
        let ghost settled = self@;
        assert(settled.peers == receive(start, from@, msg.origin@, msg.seq, Seq::empty()).0.peers);
        let mut out: Vec<NodeId> = Vec::new();
        let mut i: usize = 0;
        while i < self.peers.len()
            invariant
                i <= self.peers@.len(),
                self@ == settled,
                settled.peers == receive(start, from@, msg.origin@, msg.seq, Seq::empty()).0.peers,
                is_new(start, msg.origin@, msg.seq),
                forall|q: Seq<u8>|
                    ids(out@).contains(q) <==> (ids(self.peers@).subrange(0, i as int).contains(q) && q
                        != from@ && q != msg.origin@),
            decreases self.peers@.len() - i,
        {
            let q = self.peers[i];
            let ghost pre = ids(self.peers@).subrange(0, i as int);
            let ghost next = ids(self.peers@).subrange(0, i + 1);
            let ghost out_before = ids(out@);
            assert(next =~= pre.push(q@));
            if !same_key(&q, from) && !same_key(&q, &msg.origin) {
                out.push(q);
                assert(ids(out@) =~= out_before.push(q@));
            }
            proof {
                lemma_contains_push(pre, q@);
                lemma_contains_push(out_before, q@);
            }
            i = i + 1;
        }
        assert(ids(self.peers@).subrange(0, i as int) =~= ids(self.peers@));
        Delivery { delivered, forward_to: out }
    }

    /// Learns of each of `ps` in turn.
    pub fn learn_all(&mut self, ps: &Vec<NodeId>)
        requires
            old(self).wf(),
        ensures
            final(self).wf(),
            final(self)@ == (TopicView { peers: add_peers(old(self)@.peers, old(self)@.local, ids(ps@)), ..old(self)@ }),
    {
        let ghost start = self@;
        let mut i: usize = 0;
        while i < ps.len()
            invariant
                i <= ps@.len(),
                self.wf(),
                self@ == (TopicView { peers: add_peers(start.peers, start.local, ids(ps@).subrange(0, i as int)), ..start }),
            decreases ps@.len() - i,
        {
            self.learn(&ps[i]);
            i = i + 1;
            assert(ids(ps@).subrange(0, i as int).drop_last() =~= ids(ps@).subrange(0, i - 1));
        }
        assert(ids(ps@).subrange(0, i as int) =~= ids(ps@));
    }

    /// The number the next broadcast message will carry.
    pub fn next_seq(&self) -> (r: u64)
        ensures
            r == self@.next_seq,
    {
        self.next_seq
    }

    /// Whether `p` is a member.
    pub fn is_member(&self, p: &NodeId) -> (r: bool)
        ensures
            r == self@.peers.contains(p@),
    {
        contains_id(&self.peers, p)
    }

    /// The number of members.
    pub fn member_count(&self) -> (r: usize)
        ensures
            r == self@.peers.len(),
    {
        self.peers.len()
    }
}

} // verus!
