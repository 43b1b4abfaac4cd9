//! The session: one node's identity, protocol table, topics, blob store and
//! address book, behind the entry points the presentation layer calls.
//!
//! The session holds no transport. Whoever drives it performs the network
//! work (binding the endpoint, dialling, streaming) and hands the results in:
//! the addresses the endpoint bound, the messages and chunks that arrived.
use vstd::prelude::*;
use crate::digest::{blake3_of, same_key, BlobHash};
use crate::discovery::{copy_bytes, copy_endpoints, deadline_of, Resolution, ResolutionView};
use crate::error::SessionError;
use crate::fetch::{fetch_start, held_fetch, progress_of, step_fetch, step_store, DownloadProgress, Fetch, FetchEvent};
use crate::gossip::{
    add_peer, add_peers, delivered_view, forwards_to, ids, members_wf, receive, Delivery, GossipMessage,
    TopicId, TopicState, TopicView,
};
use crate::router::{bound_handler, Handler, ProtocolTable};
use crate::store::{export_result, lookup, put_records, BlobFormat, BlobRecord, BlobStore};
use crate::ticket::{
    relay_view, ticket_fits, EndpointAddr, NodeAddress, NodeAddressView, NodeId, Ticket, TicketView,
    endpoint_views,
};

verus! {

/// The state of one topic the session is subscribed to, found from the
/// latest subscription.
pub open spec fn topic_of(topics: Seq<(Seq<u8>, TopicView)>, t: Seq<u8>) -> Option<TopicView>
    decreases topics.len(),
{
    if topics.len() == 0 {
        None
    } else if topics.last().0 == t {
        Some(topics.last().1)
    } else {
        topic_of(topics.drop_last(), t)
    }
}

/// The latest address recorded for a node.
pub open spec fn address_of(book: Seq<NodeAddressView>, id: Seq<u8>) -> Option<NodeAddressView>
    decreases book.len(),
{
    if book.len() == 0 {
        None
    } else if book.last().id == id {
        Some(book.last())
    } else {
        address_of(book.drop_last(), id)
    }
}

pub struct SessionView {
    pub id: Seq<u8>,
    pub router: Seq<(Seq<u8>, Handler)>,
    pub store: Seq<BlobRecord>,
    pub tags: Seq<(Seq<char>, Seq<u8>)>,
    pub topics: Seq<(Seq<u8>, TopicView)>,
    pub book: Seq<NodeAddressView>,
    pub local: NodeAddressView,
}

/// One node's session.
pub struct Starlink {
    id: NodeId,
    router: ProtocolTable,
    store: BlobStore,
    topics: Vec<(TopicId, TopicState)>,
    book: Vec<NodeAddress>,
    local_relay: Option<Vec<u8>>,
    local_direct: Vec<EndpointAddr>,
}

pub open spec fn topics_view(topics: Seq<(TopicId, TopicState)>) -> Seq<(Seq<u8>, TopicView)> {
    topics.map_values(|e: (TopicId, TopicState)| (e.0@, e.1@))
}

impl View for Starlink {
    type V = SessionView;

    closed spec fn view(&self) -> SessionView {
        SessionView {
            id: self.id@,
            router: self.router@,
            store: self.store@,
            tags: self.store.tags(),
            topics: topics_view(self.topics@),
            book: self.book@.map_values(|a: NodeAddress| a@),
            local: NodeAddressView {
                id: self.id@,
                relay: relay_view(self.local_relay),
                direct: endpoint_views(self.local_direct@),
            },
        }
    }
}

proof fn lemma_topic_of_remove(s: Seq<(Seq<u8>, TopicView)>, i: int, t: Seq<u8>)
    requires
        0 <= i < s.len(),
        forall|a: int, b: int| 0 <= a < b < s.len() ==> s[a].0 != s[b].0,
    ensures
        t != s[i].0 ==> topic_of(s.remove(i), t) == topic_of(s, t),
        topic_of(s.remove(i), s[i].0) is None,
    decreases s.len(),
{
    if i == s.len() - 1 {
        assert(s.remove(i) =~= s.drop_last());
        lemma_topic_absent(s.drop_last(), s[i].0);
    } else {
        assert(s.remove(i).drop_last() =~= s.drop_last().remove(i));
        assert(s.remove(i).last() == s.last());
        lemma_topic_of_remove(s.drop_last(), i, t);
        assert(s.drop_last()[i] == s[i]);
    }
}

proof fn lemma_topic_absent(s: Seq<(Seq<u8>, TopicView)>, t: Seq<u8>)
    requires
        forall|k: int| 0 <= k < s.len() ==> s[k].0 != t,
    ensures
        topic_of(s, t) is None,
    decreases s.len(),
{
    if s.len() > 0 {
        assert(s.last() == s[s.len() - 1]);
        lemma_topic_absent(s.drop_last(), t);
    }
}

proof fn lemma_topic_found(s: Seq<(Seq<u8>, TopicView)>, i: int)
    requires
        0 <= i < s.len(),
        forall|a: int, b: int| 0 <= a < b < s.len() ==> s[a].0 != s[b].0,
    ensures
        topic_of(s, s[i].0) == Some(s[i].1),
    decreases s.len(),
{
    if i < s.len() - 1 {
        assert(s.drop_last()[i] == s[i]);
        lemma_topic_found(s.drop_last(), i);
    }
}

/// Every other topic reads as before.
pub open spec fn others_unchanged(
    before: Seq<(Seq<u8>, TopicView)>,
    after: Seq<(Seq<u8>, TopicView)>,
    topic: Seq<u8>,
) -> bool {
    forall|t: Seq<u8>| t != topic ==> #[trigger] topic_of(after, t) == topic_of(before, t)
}

pub open spec fn topics_unique(s: Seq<(Seq<u8>, TopicView)>) -> bool {
    forall|a: int, b: int| 0 <= a < b < s.len() ==> s[a].0 != s[b].0
}

/// The state a subscription starts from: the topic's current state, or a
/// fresh one.
pub open spec fn topic_or_fresh(topics: Seq<(Seq<u8>, TopicView)>, topic: Seq<u8>, id: Seq<u8>) -> TopicView {
    match topic_of(topics, topic) {
        Some(t) => t,
        None => TopicView { local: id, peers: Seq::empty(), seen: Seq::empty(), held: Seq::empty(), next_seq: 0 },
    }
}

proof fn lemma_topic_replaced(s: Seq<(Seq<u8>, TopicView)>, i: int, x: (Seq<u8>, TopicView))
    requires
        topics_unique(s),
        0 <= i < s.len(),
        s[i].0 == x.0,
    ensures
        topics_unique(s.remove(i).push(x)),
        topic_of(s.remove(i).push(x), x.0) == Some(x.1),
        others_unchanged(s, s.remove(i).push(x), x.0),
        topic_of(s, x.0) == Some(s[i].1),
        forall|k: int| 0 <= k < s.len() - 1 ==> #[trigger] s.remove(i).push(x)[k] == s[if k < i { k } else { k + 1 }],
{
    lemma_topic_found(s, i);
    let n = s.remove(i).push(x);
    assert(n.drop_last() =~= s.remove(i));
    assert forall|t: Seq<u8>| t != x.0 implies #[trigger] topic_of(n, t) == topic_of(s, t) by {
        lemma_topic_of_remove(s, i, t);
    }
    assert forall|a: int, b: int| 0 <= a < b < n.len() implies n[a].0 != n[b].0 by {
        let a2 = if a < i { a } else { a + 1 };
        if b == n.len() - 1 {
            assert(n[a] == s[a2]);
        } else {
            let b2 = if b < i { b } else { b + 1 };
            assert(n[a] == s[a2]);
            assert(n[b] == s[b2]);
        }
    }
}

proof fn lemma_topic_added(s: Seq<(Seq<u8>, TopicView)>, x: (Seq<u8>, TopicView))
    requires
        topics_unique(s),
        forall|k: int| 0 <= k < s.len() ==> s[k].0 != x.0,
    ensures
        topics_unique(s.push(x)),
        topic_of(s.push(x), x.0) == Some(x.1),
        others_unchanged(s, s.push(x), x.0),
        topic_of(s, x.0) is None,
{
    lemma_topic_absent(s, x.0);
    assert(s.push(x).drop_last() =~= s);
}

fn copy_address(a: &NodeAddress) -> (r: NodeAddress)
    ensures
        r@ == a@,
{
    let relay = match &a.relay {
        Some(u) => Some(copy_bytes(u)),
        None => None,
    };
    NodeAddress { id: a.id, relay, direct: copy_endpoints(&a.direct) }
}

impl Starlink {
    pub open spec fn wf(&self) -> bool {
        &&& self@.local.id == self@.id
        &&& crate::router::bindings_unique(self@.router)
        &&& crate::store::store_wf(self@.store, self@.tags)
        &&& forall|a: int, b: int|
            0 <= a < b < self@.topics.len() ==> self@.topics[a].0 != self@.topics[b].0
        &&& forall|k: int|
            0 <= k < self@.topics.len() ==> (#[trigger] self@.topics[k]).1.local == self@.id
                && members_wf(self@.id, self@.topics[k].1.peers)
    }

    /// Starts a session for identity `id`, binding the gossip protocol and
    /// the blob protocol to their identifiers; `Protocol` if the two are the
    /// same.
    pub fn new(id: NodeId, gossip_alpn: Vec<u8>, blobs_alpn: Vec<u8>) -> (r: Result<Starlink, SessionError>)
        ensures
            match r {
                Ok(s) => s.wf() && s@ == (SessionView {
                    id: id@,
                    router: seq![(gossip_alpn@, Handler::Gossip), (blobs_alpn@, Handler::Blobs)],
                    store: Seq::empty(),
                    tags: Seq::empty(),
                    topics: Seq::empty(),
                    book: Seq::empty(),
                    local: NodeAddressView { id: id@, relay: None, direct: Seq::empty() },
                }),
                Err(e) => e == SessionError::Protocol && gossip_alpn@ == blobs_alpn@,
            },
    {
        let ghost g = gossip_alpn@;
        let ghost b = blobs_alpn@;
        let mut bindings: Vec<(Vec<u8>, Handler)> = Vec::new();
        bindings.push((gossip_alpn, Handler::Gossip));
        bindings.push((blobs_alpn, Handler::Blobs));
        let ghost want = bindings@.map_values(|e: (Vec<u8>, Handler)| (e.0@, e.1));
        assert(want =~= seq![(g, Handler::Gossip), (b, Handler::Blobs)]);
        match ProtocolTable::build(bindings) {
            Ok(router) => {
                let s = Starlink {
                    id,
                    router,
                    store: BlobStore::new(),
                    topics: Vec::new(),
                    book: Vec::new(),
                    local_relay: None,
                    local_direct: Vec::new(),
                };
                assert(s@.topics =~= Seq::<(Seq<u8>, TopicView)>::empty());
                assert(s@.book =~= Seq::<NodeAddressView>::empty());
                assert(s@.local.direct =~= Seq::empty());
                Ok(s)
            },
            Err(e) => {
                assert(want[0].0 == want[1].0);
                Err(e)
            },
        }
    }

    /// Records the addresses the transport endpoint is reachable at.
    pub fn set_local_addresses(&mut self, relay: Option<Vec<u8>>, direct: Vec<EndpointAddr>)
        requires
            old(self).wf(),
        ensures
            final(self).wf(),
            final(self)@ == (SessionView {
                local: NodeAddressView { id: old(self)@.id, relay: relay_view(relay), direct: endpoint_views(direct@) },
                ..old(self)@
            }),
    {
        self.local_relay = relay;
        self.local_direct = direct;
    }

    /// This node's own address: its identity, with the endpoint candidates
    /// last recorded.
    pub fn node_addr(&self) -> (r: NodeAddress)
        ensures
            r@ == self@.local,
            r@.id == self@.id,
    {
        let relay = match &self.local_relay {
            Some(u) => Some(copy_bytes(u)),
            None => None,
        };
        NodeAddress { id: self.id, relay, direct: copy_endpoints(&self.local_direct) }
    }

    /// Records how to reach a node.
    pub fn add_node_addr(&mut self, addr: NodeAddress)
        requires
            old(self).wf(),
        ensures
            final(self).wf(),
            final(self)@ == (SessionView { book: old(self)@.book.push(addr@), ..old(self)@ }),
    {
        let ghost before = self@;
        self.book.push(addr);
        assert(self@.book =~= before.book.push(addr@));
    }

    /// The latest address recorded for `id`.
    pub fn known_addr(&self, id: &NodeId) -> (r: Option<NodeAddress>)
        ensures
            match r {
                Some(a) => address_of(self@.book, id@) == Some(a@),
                None => address_of(self@.book, id@) is None,
            },
    {
        let ghost all = self@.book;
        let mut i: usize = self.book.len();
        assert(all.subrange(0, i as int) =~= all);
        while i > 0
            invariant
                i <= self.book@.len(),
                all == self@.book,
                address_of(all, id@) == address_of(all.subrange(0, i as int), id@),
            decreases i,
        {
            let ghost prefix = all.subrange(0, i as int);
            assert(prefix.last() == all[i - 1]);
            if same_key(&self.book[i - 1].id, id) {
                return Some(copy_address(&self.book[i - 1]));
            }
            assert(prefix.drop_last() =~= all.subrange(0, i - 1));
            i = i - 1;
        }
        None
    }

    /// The handler for an inbound connection; `None` refuses it.
    pub fn dispatch(&self, alpn: &[u8]) -> (r: Option<Handler>)
        requires
            self.wf(),
        ensures
            r == bound_handler(self@.router, alpn@),
    {
        self.router.dispatch(alpn)
    }

    /// Puts a topic's state back after it was taken out at `i`.
    fn put_back_topic(&mut self, tid: TopicId, st: TopicState, Ghost(taken): Ghost<Seq<(TopicId, TopicState)>>, Ghost(i): Ghost<int>)
        requires
            0 <= i < taken.len(),
            old(self).topics@ == taken.remove(i),
            taken[i].0 == tid,
            topics_unique(topics_view(taken)),
            st.wf(),
            st@.local == old(self)@.id,
            forall|k: int| 0 <= k < taken.len() ==> (#[trigger] taken[k]).1@.local == old(self)@.id
                && members_wf(old(self)@.id, taken[k].1@.peers),
            crate::router::bindings_unique(old(self)@.router),
            crate::store::store_wf(old(self)@.store, old(self)@.tags),
        ensures
            final(self).wf(),
            final(self)@ == (SessionView { topics: topics_view(taken).remove(i).push((tid@, st@)), ..old(self)@ }),
            topic_of(final(self)@.topics, tid@) == Some(st@),
            others_unchanged(topics_view(taken), final(self)@.topics, tid@),
            topic_of(topics_view(taken), tid@) == Some(taken[i].1@),
    {
        let ghost before = self@;
        self.topics.push((tid, st));
        proof {
            let tv = topics_view(taken);
            assert(topics_view(taken.remove(i)) =~= tv.remove(i));
            assert(self@.topics =~= tv.remove(i).push((tid@, st@)));
            lemma_topic_replaced(tv, i, (tid@, st@));
            assert forall|k: int| 0 <= k < self@.topics.len() implies (#[trigger] self@.topics[k]).1.local == self@.id
                && members_wf(self@.id, self@.topics[k].1.peers) by {
                if k < self@.topics.len() - 1 {
                    let k2 = if k < i { k } else { k + 1 };
                    assert(self@.topics[k] == tv[k2]);
                    assert(tv[k2] == (taken[k2].0@, taken[k2].1@));
                }
            }
        }
    }

    /// Adds a topic's state that the session did not hold.
    fn add_topic(&mut self, tid: TopicId, st: TopicState)
        requires
            old(self).wf(),
            forall|k: int| 0 <= k < old(self)@.topics.len() ==> old(self)@.topics[k].0 != tid@,
            st.wf(),
            st@.local == old(self)@.id,
        ensures
            final(self).wf(),
            final(self)@ == (SessionView { topics: old(self)@.topics.push((tid@, st@)), ..old(self)@ }),
            topic_of(final(self)@.topics, tid@) == Some(st@),
            others_unchanged(old(self)@.topics, final(self)@.topics, tid@),
            topic_of(old(self)@.topics, tid@) is None,
    {
        let ghost before = self@;
        self.topics.push((tid, st));
        proof {
            assert(self@.topics =~= before.topics.push((tid@, st@)));
            lemma_topic_added(before.topics, (tid@, st@));
            assert forall|k: int| 0 <= k < self@.topics.len() implies (#[trigger] self@.topics[k]).1.local == self@.id
                && members_wf(self@.id, self@.topics[k].1.peers) by {
                if k < before.topics.len() {
                    assert(self@.topics[k] == before.topics[k]);
                }
            }
        }
    }

    /// Subscribes to a topic, seeding it with the given peers: their
    /// addresses are recorded, they join the topic's membership, and their
    /// identities (without this node's own, each once) are returned to be
    /// dialled. With no peers the topic waits for inbound ones. Subscribing
    /// again to a topic adds the peers to the membership it already has.
    pub fn subscribe_topic(&mut self, topic: TopicId, peer_node_addrs: Vec<NodeAddress>) -> (r: Vec<NodeId>)
        requires
            old(self).wf(),
        ensures
            final(self).wf(),
            final(self)@.id == old(self)@.id,
            final(self)@.router == old(self)@.router,
            final(self)@.store == old(self)@.store,
            final(self)@.local == old(self)@.local,
            final(self)@.book == old(self)@.book + peer_node_addrs@.map_values(|a: NodeAddress| a@),
            topic_of(final(self)@.topics, topic@) == Some(
                (TopicView {
                    peers: add_peers(
                        topic_or_fresh(old(self)@.topics, topic@, old(self)@.id).peers,
                        old(self)@.id,
                        peer_node_addrs@.map_values(|a: NodeAddress| a.id@),
                    ),
                    ..topic_or_fresh(old(self)@.topics, topic@, old(self)@.id)
                }),
            ),
            others_unchanged(old(self)@.topics, final(self)@.topics, topic@),
            ids(r@) == add_peers(Seq::empty(), old(self)@.id, peer_node_addrs@.map_values(|a: NodeAddress| a.id@)),
    {
        let ghost start = self@;
        let mut peer_ids: Vec<NodeId> = Vec::new();
        let mut i: usize = 0;
        while i < peer_node_addrs.len()
            invariant
                i <= peer_node_addrs@.len(),
                self.wf(),
                self@ == (SessionView {
                    book: start.book + peer_node_addrs@.subrange(0, i as int).map_values(|a: NodeAddress| a@),
                    ..start
                }),
                ids(peer_ids@) == peer_node_addrs@.subrange(0, i as int).map_values(|a: NodeAddress| a.id@),
            decreases peer_node_addrs@.len() - i,
        {
            let ghost ids_before = ids(peer_ids@);
            peer_ids.push(peer_node_addrs[i].id);
            assert(ids(peer_ids@) =~= ids_before.push(peer_node_addrs@[i as int].id@));
            self.add_node_addr(copy_address(&peer_node_addrs[i]));
            i = i + 1;
            proof {
                let sub = peer_node_addrs@.subrange(0, i as int);
                let sub0 = peer_node_addrs@.subrange(0, i - 1);
                assert(sub.map_values(|a: NodeAddress| a@) =~= sub0.map_values(|a: NodeAddress| a@).push(peer_node_addrs@[i - 1]@));
                assert(start.book + sub.map_values(|a: NodeAddress| a@) =~= (start.book + sub0.map_values(|a: NodeAddress| a@)).push(peer_node_addrs@[i - 1]@));
                assert(ids(peer_ids@) =~= sub.map_values(|a: NodeAddress| a.id@));
            }
        }
        assert(peer_node_addrs@.subrange(0, i as int) =~= peer_node_addrs@);
        let (fresh, dial) = TopicState::join(self.id, &peer_ids);
        assert(add_peers(Seq::empty(), start.id, ids(peer_ids@)) == fresh@.peers);
        match self.topic_index(&topic) {
            Some(k) => {
                let ghost taken = self.topics@;
                proof {
                    assert forall|j: int| 0 <= j < taken.len() implies (#[trigger] taken[j]).1@.local == start.id
                        && members_wf(start.id, taken[j].1@.peers) by {
                        assert(self@.topics[j] == (taken[j].0@, taken[j].1@));
                    }
                }
                let (tid, mut st) = self.topics.remove(k);
                proof {
                    assert(taken[k as int].1 == st);
                    assert(topics_view(taken)[k as int] == (tid@, st@));
                    assert((#[trigger] topics_view(taken)[k as int]).1.local == start.id);
                    assert(st@.local == start.id);
                    assert(st.wf());
                }
                st.learn_all(&peer_ids);
                self.put_back_topic(tid, st, Ghost(taken), Ghost(k as int));
            },
            None => {
                self.add_topic(topic, fresh);
            },
        }
        dial
    }

    /// Takes the state of the topic at `k` out of the session.
    fn take_topic(&mut self, k: usize) -> (r: (TopicId, TopicState))
        requires
            old(self).wf(),
            k < old(self)@.topics.len(),
        ensures
            final(self).topics@ == old(self).topics@.remove(k as int),
            r == old(self).topics@[k as int],
            r.1.wf(),
            r.1@.local == old(self)@.id,
            final(self)@ == (SessionView { topics: final(self)@.topics, ..old(self)@ }),
            topics_unique(topics_view(old(self).topics@)),
            topics_view(old(self).topics@) == old(self)@.topics,
            forall|j: int| 0 <= j < old(self).topics@.len() ==> (#[trigger] old(self).topics@[j]).1@.local
                == old(self)@.id && members_wf(old(self)@.id, old(self).topics@[j].1@.peers),
            crate::router::bindings_unique(final(self)@.router),
            crate::store::store_wf(final(self)@.store, final(self)@.tags),
    {
        let ghost taken = self.topics@;
        proof {
            assert forall|j: int| 0 <= j < taken.len() implies (#[trigger] taken[j]).1@.local == self@.id
                && members_wf(self@.id, taken[j].1@.peers) by {
                assert(self@.topics[j] == (taken[j].0@, taken[j].1@));
            }
            assert(self@.topics[k as int] == (taken[k as int].0@, taken[k as int].1@));
        }
        self.topics.remove(k)
    }

    /// Leaves a topic: its state is dropped and no other topic changes.
    /// Returns whether the session was subscribed to it.
    pub fn leave_topic(&mut self, topic: &TopicId) -> (r: bool)
        requires
            old(self).wf(),
        ensures
            final(self).wf(),
            final(self)@ == (SessionView { topics: final(self)@.topics, ..old(self)@ }),
            topic_of(final(self)@.topics, topic@) is None,
            others_unchanged(old(self)@.topics, final(self)@.topics, topic@),
            r == topic_of(old(self)@.topics, topic@) is Some,
    {
        match self.topic_index(topic) {
            None => {
                proof {
                    lemma_topic_absent(self@.topics, topic@);
                }
                false
            },
            Some(k) => {
                let ghost before = self@;
                let ghost taken = self.topics@;
                let _ = self.take_topic(k);
                proof {
                    let tv = topics_view(taken);
                    assert(self@.topics =~= tv.remove(k as int));
                    lemma_topic_found(tv, k as int);
                    lemma_topic_of_remove(tv, k as int, topic@);
                    assert forall|t: Seq<u8>| t != topic@ implies #[trigger] topic_of(self@.topics, t) == topic_of(before.topics, t) by {
                        lemma_topic_of_remove(tv, k as int, t);
                    }
                    assert forall|a: int, b: int| 0 <= a < b < self@.topics.len() implies self@.topics[a].0 != self@.topics[b].0 by {
                        let a2 = if a < k { a } else { a + 1 };
                        let b2 = if b < k { b } else { b + 1 };
                        assert(self@.topics[a] == tv[a2]);
                        assert(self@.topics[b] == tv[b2]);
                    }
                    assert forall|j: int| 0 <= j < self@.topics.len() implies (#[trigger] self@.topics[j]).1.local == self@.id
                        && members_wf(self@.id, self@.topics[j].1.peers) by {
                        let j2 = if j < k { j } else { j + 1 };
                        assert(self@.topics[j] == tv[j2]);
                        assert(tv[j2] == (taken[j2].0@, taken[j2].1@));
                    }
                }
                true
            },
        }
    }

    /// Publishes a payload in a topic: the message and the members to send
    /// it to. `None` when the session is not subscribed to the topic, or the
    /// topic's message numbers are used up.
    pub fn broadcast(&mut self, topic: &TopicId, payload: Vec<u8>) -> (r: Option<(GossipMessage, Vec<NodeId>)>)
        requires
            old(self).wf(),
        ensures
            final(self).wf(),
            final(self)@ == (SessionView { topics: final(self)@.topics, ..old(self)@ }),
            match topic_of(old(self)@.topics, topic@) {
                None => r is None && final(self)@ == old(self)@,
                Some(t) => if t.next_seq == u64::MAX {
                    r is None && final(self)@ == old(self)@
                } else {
                    &&& r is Some
                    &&& r.unwrap().0.origin@ == old(self)@.id
                    &&& r.unwrap().0.seq == t.next_seq
                    &&& r.unwrap().0.payload@ == payload@
                    &&& ids(r.unwrap().1@) == t.peers
                    &&& topic_of(final(self)@.topics, topic@) == Some(TopicView { next_seq: (t.next_seq + 1) as u64, ..t })
                    &&& others_unchanged(old(self)@.topics, final(self)@.topics, topic@)
                },
            },
    {
        match self.topic_index(topic) {
            None => {
                proof {
                    lemma_topic_absent(self@.topics, topic@);
                }
                None
            },
            Some(k) => {
                proof {
                    lemma_topic_found(self@.topics, k as int);
                }
                if self.topics[k].1.next_seq() == u64::MAX {
                    return None;
                }
                let ghost taken = self.topics@;
                let (tid, mut st) = self.take_topic(k);
                let sent = st.broadcast(payload);
                self.put_back_topic(tid, st, Ghost(taken), Ghost(k as int));
                Some(sent)
            },
        }
    }

    /// Handles a message that neighbour `from` sent in a topic. `None` when
    /// the session is not subscribed to the topic.
    pub fn on_gossip(&mut self, topic: &TopicId, from: &NodeId, msg: &GossipMessage) -> (r: Option<Delivery>)
        requires
            old(self).wf(),
        ensures
            final(self).wf(),
            final(self)@ == (SessionView { topics: final(self)@.topics, ..old(self)@ }),
            match topic_of(old(self)@.topics, topic@) {
                None => r is None && final(self)@ == old(self)@,
                Some(t) => {
                    &&& r is Some
                    &&& delivered_view(r.unwrap().delivered@) == receive(t, from@, msg.origin@, msg.seq, msg.payload@).1
                    &&& forall|p: Seq<u8>| ids(r.unwrap().forward_to@).contains(p) <==> forwards_to(t, from@, msg.origin@, msg.seq, p)
                    &&& topic_of(final(self)@.topics, topic@) == Some(receive(t, from@, msg.origin@, msg.seq, msg.payload@).0)
                    &&& others_unchanged(old(self)@.topics, final(self)@.topics, topic@)
                },
            },
    {
        match self.topic_index(topic) {
            None => {
                proof {
                    lemma_topic_absent(self@.topics, topic@);
                }
                None
            },
            Some(k) => {
                let ghost taken = self.topics@;
                let (tid, mut st) = self.take_topic(k);
                let d = st.on_message(from, msg);
                self.put_back_topic(tid, st, Ghost(taken), Ghost(k as int));
                Some(d)
            },
        }
    }

    /// A neighbour connected in a topic and becomes a member. Returns
    /// `None` when the session is not subscribed to the topic, else whether
    /// the member is new.
    pub fn on_neighbor_up(&mut self, topic: &TopicId, peer: &NodeId) -> (r: Option<bool>)
        requires
            old(self).wf(),
        ensures
            final(self).wf(),
            final(self)@ == (SessionView { topics: final(self)@.topics, ..old(self)@ }),
            match topic_of(old(self)@.topics, topic@) {
                None => r is None && final(self)@ == old(self)@,
                Some(t) => {
                    &&& r is Some
                    &&& topic_of(final(self)@.topics, topic@) == Some(TopicView { peers: add_peer(t.peers, t.local, peer@), ..t })
                    &&& others_unchanged(old(self)@.topics, final(self)@.topics, topic@)
                },
            },
    {
        match self.topic_index(topic) {
            None => {
                proof {
                    lemma_topic_absent(self@.topics, topic@);
                }
                None
            },
            Some(k) => {
                let ghost taken = self.topics@;
                let (tid, mut st) = self.take_topic(k);
                let added = st.learn(peer);
                self.put_back_topic(tid, st, Ghost(taken), Ghost(k as int));
                Some(added)
            },
        }
    }

    /// A member of a topic departed. Returns `None` when the session is not
    /// subscribed to the topic, else whether it was a member.
    pub fn on_neighbor_down(&mut self, topic: &TopicId, peer: &NodeId) -> (r: Option<bool>)
        requires
            old(self).wf(),
        ensures
            final(self).wf(),
            final(self)@ == (SessionView { topics: final(self)@.topics, ..old(self)@ }),
            match topic_of(old(self)@.topics, topic@) {
                None => r is None && final(self)@ == old(self)@,
                Some(t) => {
                    &&& r == Some(t.peers.contains(peer@))
                    &&& topic_of(final(self)@.topics, topic@) is Some
                    &&& forall|q: Seq<u8>| topic_of(final(self)@.topics, topic@).unwrap().peers.contains(q)
                        <==> (t.peers.contains(q) && q != peer@)
                    &&& others_unchanged(old(self)@.topics, final(self)@.topics, topic@)
                },
            },
    {
        match self.topic_index(topic) {
            None => {
                proof {
                    lemma_topic_absent(self@.topics, topic@);
                }
                None
            },
            Some(k) => {
                let ghost taken = self.topics@;
                let (tid, mut st) = self.take_topic(k);
                let was = st.depart(peer);
                self.put_back_topic(tid, st, Ghost(taken), Ghost(k as int));
                Some(was)
            },
        }
    }

    /// Stores content and issues a ticket for it, naming this node as its
    /// owner. Adding content that is already held stores nothing new.
    /// `Protocol` when this node's address is too long for a ticket; the
    /// content is stored either way.
    pub fn shared_file(&mut self, content: Vec<u8>) -> (r: Result<Ticket, SessionError>)
        requires
            old(self).wf(),
        ensures
            final(self).wf(),
            final(self)@ == (SessionView { store: put_records(old(self)@.store, content@, BlobFormat::Raw), ..old(self)@ }),
            match r {
                Ok(t) => t@ == (TicketView { owner: old(self)@.local, hash: blake3_of(content@), format: BlobFormat::Raw })
                    && ticket_fits(t@),
                Err(e) => e == SessionError::Protocol && !ticket_fits(
                    TicketView { owner: old(self)@.local, hash: blake3_of(content@), format: BlobFormat::Raw },
                ),
            },
    {
        let hash = self.store.put(content, BlobFormat::Raw);
        let owner = self.node_addr();
        Ticket::new(owner, hash, BlobFormat::Raw)
    }

    /// Issues a ticket for a blob this node holds, with the format it was
    /// stored with. `NotFound` when the blob is not held; `Protocol` when
    /// this node's address is too long for a ticket.
    pub fn issue_ticket(&self, hash: &BlobHash) -> (r: Result<Ticket, SessionError>)
        ensures
            match lookup(self@.store, hash@) {
                None => r == Err::<Ticket, SessionError>(SessionError::NotFound),
                Some(rec) => match r {
                    Ok(t) => t@ == (TicketView { owner: self@.local, hash: hash@, format: rec.format })
                        && ticket_fits(t@),
                    Err(e) => e == SessionError::Protocol && !ticket_fits(
                        TicketView { owner: self@.local, hash: hash@, format: rec.format },
                    ),
                },
            },
    {
        match self.store.format_of(hash) {
            None => Err(SessionError::NotFound),
            Some(format) => Ticket::new(self.node_addr(), *hash, format),
        }
    }

    /// Stores content under its digest, as the blob store's `put` does: a
    /// blob already held is not stored again. Used to restore the blobs that
    /// persistent storage kept across a restart.
    pub fn put(&mut self, content: Vec<u8>, format: BlobFormat) -> (r: BlobHash)
        requires
            old(self).wf(),
        ensures
            final(self).wf(),
            r@ == blake3_of(content@),
            final(self)@ == (SessionView { store: put_records(old(self)@.store, content@, format), ..old(self)@ }),
    {
        self.store.put(content, format)
    }

    /// Points tag `name` at the blob under `hash`; `NotFound` when no blob
    /// is held under it.
    pub fn set_tag(&mut self, name: String, hash: &BlobHash) -> (r: Result<(), SessionError>)
        requires
            old(self).wf(),
        ensures
            final(self).wf(),
            match lookup(old(self)@.store, hash@) {
                None => r == Err::<(), SessionError>(SessionError::NotFound) && final(self)@ == old(self)@,
                Some(_) => r is Ok && final(self)@ == (SessionView { tags: old(self)@.tags.push((name@, hash@)), ..old(self)@ }),
            },
    {
        self.store.set_tag(name, hash)
    }

    /// The hash tag `name` points at.
    pub fn tagged_blob(&self, name: &String) -> (r: Option<BlobHash>)
        ensures
            match r {
                Some(h) => crate::store::tagged(self@.tags, name@) == Some(h@),
                None => crate::store::tagged(self@.tags, name@) is None,
            },
    {
        self.store.tag(name)
    }

    /// Whether a blob is held under `hash`.
    pub fn has_blob(&self, hash: &BlobHash) -> (r: bool)
        ensures
            r == lookup(self@.store, hash@) is Some,
    {
        self.store.contains(hash)
    }

    /// Begins fetching the blob a ticket points at, and begins resolving its
    /// owner with `strategies` lookup strategies, seeded with the address the
    /// ticket carries. A blob that is already held needs no transfer: its
    /// fetch is complete from the start and the store is left as it is.
    /// The fetch's bytes enter the store only through `finish_download`.
    pub fn download_file(&mut self, ticket: &Ticket, strategies: usize, now: u64, timeout: u64) -> (r: (
        Fetch,
        Resolution,
    ))
        requires
            old(self).wf(),
        ensures
            final(self).wf(),
            final(self)@ == old(self)@,
            r.0@ == (if lookup(old(self)@.store, ticket@.hash) is Some {
                held_fetch(ticket@)
            } else {
                fetch_start(ticket@)
            }),
            r.1@ == (ResolutionView {
                id: ticket@.owner.id,
                deadline: deadline_of(now, timeout),
                reported: Seq::new(strategies as nat, |i: int| false),
                relay: ticket@.owner.relay,
                direct: ticket@.owner.direct,
            }),
    {
        let fetch = if self.store.contains(&ticket.hash) {
            Fetch::start_held(ticket)
        } else {
            Fetch::start(ticket)
        };
        let resolution = Resolution::begin_from(&ticket.owner, strategies, now, timeout);
        (fetch, resolution)
    }

    /// The owner's address as resolved: the ticket's candidates with those
    /// every succeeding strategy found, each once. It is recorded in the
    /// address book and returned to be dialled. Resolution never fails here:
    /// with no candidates at all, the dial that follows does.
    pub fn dial_owner(&mut self, resolution: &Resolution) -> (r: NodeAddress)
        requires
            old(self).wf(),
        ensures
            final(self).wf(),
            r@ == (NodeAddressView { id: resolution@.id, relay: resolution@.relay, direct: resolution@.direct }),
            final(self)@ == (SessionView { book: old(self)@.book.push(r@), ..old(self)@ }),
    {
        let addr = resolution.address();
        self.add_node_addr(copy_address(&addr));
        addr
    }

    /// The owner has sent everything: the fetch's bytes are stored if their
    /// digest is the one the ticket named.
    pub fn finish_download(&mut self, fetch: &mut Fetch) -> (r: DownloadProgress)
        requires
            old(self).wf(),
        ensures
            final(self).wf(),
            final(self)@ == (SessionView {
                store: step_store(old(fetch)@, old(self)@.store, FetchEvent::Finished),
                ..old(self)@
            }),
            final(fetch)@ == step_fetch(old(fetch)@, FetchEvent::Finished),
            r == progress_of(final(fetch)@),
    {
        fetch.on_finished(&mut self.store)
    }

    /// The bytes of the blob a ticket points at, from local storage only;
    /// `NotFound` when they are not held here.
    pub fn save_file(&self, ticket: &Ticket) -> (r: Result<Vec<u8>, SessionError>)
        ensures
            match r {
                Ok(v) => export_result(self@.store, ticket@.hash) == Ok::<Seq<u8>, SessionError>(v@),
                Err(e) => export_result(self@.store, ticket@.hash) == Err::<Seq<u8>, SessionError>(e),
            },
    {
        self.store.export(&ticket.hash)
    }

    /// The index of a topic's entry.
    fn topic_index(&self, topic: &TopicId) -> (r: Option<usize>)
        requires
            self.wf(),
        ensures
            match r {
                Some(i) => i < self@.topics.len() && self@.topics[i as int].0 == topic@,
                None => forall|k: int| 0 <= k < self@.topics.len() ==> self@.topics[k].0 != topic@,
            },
    {
        let mut i: usize = 0;
        while i < self.topics.len()
            invariant
                i <= self.topics@.len(),
                forall|k: int| 0 <= k < i ==> self@.topics[k].0 != topic@,
            decreases self.topics@.len() - i,
        {
            if same_key(&self.topics[i].0, topic) {
                return Some(i);
            }
            i = i + 1;
        }
        None
    }
}

} // verus!
