//! A fetch of one blob from a remote node: the transfer's lifecycle, the
//! progress events it emits, and when its bytes enter local storage.
//!
//! Bytes received are staged in the fetch and enter the store only when the
//! transfer finishes and their digest equals the requested hash. A fetch
//! that is dropped, fails, or delivers other bytes leaves the store as it was.
use vstd::prelude::*;
use crate::digest::{blake3_of, content_digest, same_key, BlobHash};
use crate::error::SessionError;
use crate::store::{
    export_result, lemma_put_twice, lookup, put_records, records_wf, BlobFormat, BlobRecord, BlobStore,
};
use crate::ticket::{NodeAddressView, Ticket, TicketView};

verus! {

/// A lifecycle event reported to whoever waits on a fetch.
#[derive(Clone, Copy, Debug, PartialEq, Eq, Structural)]
pub enum DownloadProgress {
    Connecting,
    /// The number of bytes received so far.
    Transferring(u64),
    Complete,
    Error(SessionError),
}

/// Where a fetch stands.
#[derive(Clone, Copy, Debug, PartialEq, Eq, Structural)]
pub enum FetchPhase {
    Connecting,
    Transferring,
    Complete,
    Failed(SessionError),
}

/// What happens to a fetch from outside.
pub enum FetchEvent {
    /// The connection to the owner is up.
    Connected,
    /// A chunk of the blob arrived.
    Data(Seq<u8>),
    /// The connection or the remote side failed.
    Failed(SessionError),
    /// The remote side has sent everything.
    Finished,
}

pub struct FetchView {
    pub target: Seq<u8>,
    pub format: BlobFormat,
    pub phase: FetchPhase,
    pub received: Seq<u8>,
}

/// The fetch state right after a ticket is handed in.
pub open spec fn fetch_start(t: TicketView) -> FetchView {
    FetchView { target: t.hash, format: t.format, phase: FetchPhase::Connecting, received: Seq::empty() }
}

/// The fetch state for a blob that is already held: nothing to transfer.
pub open spec fn held_fetch(t: TicketView) -> FetchView {
    FetchView { target: t.hash, format: t.format, phase: FetchPhase::Complete, received: Seq::empty() }
}

pub open spec fn is_terminal(p: FetchPhase) -> bool {
    p is Complete || p is Failed
}

/// The event that reports a fetch state.
pub open spec fn progress_of(f: FetchView) -> DownloadProgress {
    match f.phase {
        FetchPhase::Connecting => DownloadProgress::Connecting,
        FetchPhase::Transferring => DownloadProgress::Transferring(f.received.len() as u64),
        FetchPhase::Complete => DownloadProgress::Complete,
        FetchPhase::Failed(e) => DownloadProgress::Error(e),
    }
}

/// The fetch state after one event.
pub open spec fn step_fetch(f: FetchView, ev: FetchEvent) -> FetchView {
    if is_terminal(f.phase) {
        f
    } else {
        match ev {
            FetchEvent::Connected => if f.phase is Connecting {
                FetchView { phase: FetchPhase::Transferring, ..f }
            } else {
                FetchView { phase: FetchPhase::Failed(SessionError::Protocol), ..f }
            },
            FetchEvent::Data(chunk) => if f.phase is Transferring {
                FetchView { received: f.received + chunk, ..f }
            } else {
                FetchView { phase: FetchPhase::Failed(SessionError::Protocol), ..f }
            },
            FetchEvent::Failed(e) => FetchView { phase: FetchPhase::Failed(e), ..f },
            FetchEvent::Finished => if f.phase is Transferring && blake3_of(f.received) == f.target {
                FetchView { phase: FetchPhase::Complete, ..f }
            } else {
                FetchView { phase: FetchPhase::Failed(SessionError::Protocol), ..f }
            },
        }
    }
}

/// The store after one event of a fetch: only a finished transfer whose
/// bytes match the target adds anything.
pub open spec fn step_store(f: FetchView, recs: Seq<BlobRecord>, ev: FetchEvent) -> Seq<BlobRecord> {
    if !is_terminal(f.phase) && ev is Finished && f.phase is Transferring && blake3_of(f.received)
        == f.target {
        put_records(recs, f.received, f.format)
    } else {
        recs
    }
}

/// A fetch and the local store after a run of events.
pub open spec fn run_fetch(f: FetchView, recs: Seq<BlobRecord>, evs: Seq<FetchEvent>) -> (
    FetchView,
    Seq<BlobRecord>,
)
    decreases evs.len(),
{
    if evs.len() == 0 {
        (f, recs)
    } else {
        let (f1, r1) = run_fetch(f, recs, evs.drop_last());
        (step_fetch(f1, evs.last()), step_store(f1, r1, evs.last()))
    }
}

/// One transfer of a blob into local storage.
pub struct Fetch {
    target: BlobHash,
    format: BlobFormat,
    phase: FetchPhase,
    received: Vec<u8>,
}

impl View for Fetch {
    type V = FetchView;

    closed spec fn view(&self) -> FetchView {
        FetchView {
            target: self.target@,
            format: self.format,
            phase: self.phase,
            received: self.received@,
        }
    }
}

impl Fetch {
    /// Begins a fetch of the blob a ticket points at.
    pub fn start(ticket: &Ticket) -> (r: Fetch)
        ensures
            r@ == fetch_start(ticket@),
    {
        let r = Fetch {
            target: ticket.hash,
            format: ticket.format,
            phase: FetchPhase::Connecting,
            received: Vec::new(),
        };
        assert(r@.received =~= Seq::<u8>::empty());
        r
    }

    /// A fetch of a blob that is already held: complete from the start.
    pub fn start_held(ticket: &Ticket) -> (r: Fetch)
        ensures
            r@ == held_fetch(ticket@),
    {
        let r = Fetch {
            target: ticket.hash,
            format: ticket.format,
            phase: FetchPhase::Complete,
            received: Vec::new(),
        };
        assert(r@.received =~= Seq::<u8>::empty());
        r
    }

    /// The hash being fetched.
    pub fn target(&self) -> (r: BlobHash)
        ensures
            r@ == self@.target,
    {
        self.target
    }

    /// The event that reports where the fetch stands.
    pub fn progress(&self) -> (r: DownloadProgress)
        ensures
            r == progress_of(self@),
    {
        match self.phase {
            FetchPhase::Connecting => DownloadProgress::Connecting,
            FetchPhase::Transferring => DownloadProgress::Transferring(self.received.len() as u64),
            FetchPhase::Complete => DownloadProgress::Complete,
            FetchPhase::Failed(e) => DownloadProgress::Error(e),
        }
    }

    /// Whether no further event can change the fetch.
    pub fn is_done(&self) -> (r: bool)
        ensures
            r == is_terminal(self@.phase),
    {
        match self.phase {
            FetchPhase::Complete | FetchPhase::Failed(_) => true,
            _ => false,
        }
    }

    /// The connection to the owner is up.
    pub fn on_connected(&mut self) -> (r: DownloadProgress)
        ensures
            final(self)@ == step_fetch(old(self)@, FetchEvent::Connected),
            r == progress_of(final(self)@),
    {
        match self.phase {
            FetchPhase::Connecting => {
                self.phase = FetchPhase::Transferring;
            },
            FetchPhase::Transferring => {
                self.phase = FetchPhase::Failed(SessionError::Protocol);
            },
            _ => {},
        }
        self.progress()
    }

    /// A chunk of the blob arrived; it is staged, not stored.
    pub fn on_data(&mut self, chunk: &[u8]) -> (r: DownloadProgress)
        ensures
            final(self)@ == step_fetch(old(self)@, FetchEvent::Data(chunk@)),
            r == progress_of(final(self)@),
    {
        match self.phase {
            FetchPhase::Transferring => {
                let ghost before = self.received@;
                let mut i: usize = 0;
                while i < chunk.len()
                    invariant
                        i <= chunk@.len(),
                        self.received@ == before + chunk@.subrange(0, i as int),
                        self.phase == FetchPhase::Transferring,
                        self.target == old(self).target,
                        self.format == old(self).format,
                    decreases chunk@.len() - i,
                {
                    self.received.push(chunk[i]);
                    i = i + 1;
                    assert(self.received@ =~= before + chunk@.subrange(0, i as int));
                }
                assert(chunk@.subrange(0, i as int) =~= chunk@);
            },
            FetchPhase::Connecting => {
                self.phase = FetchPhase::Failed(SessionError::Protocol);
            },
            _ => {},
        }
        self.progress()
    }

    /// The connection or the remote side failed; nothing is stored.
    pub fn on_failed(&mut self, e: SessionError) -> (r: DownloadProgress)
        ensures
            final(self)@ == step_fetch(old(self)@, FetchEvent::Failed(e)),
            r == progress_of(final(self)@),
    {
        match self.phase {
            FetchPhase::Connecting | FetchPhase::Transferring => {
                self.phase = FetchPhase::Failed(e);
            },
            _ => {},
        }
        self.progress()
    }

    /// The remote side has sent everything: the staged bytes are stored if
    /// their digest is the target, and the fetch fails otherwise.
    pub fn on_finished(&mut self, store: &mut BlobStore) -> (r: DownloadProgress)
        requires
            old(store).wf(),
        ensures
            final(store).wf(),
            final(self)@ == step_fetch(old(self)@, FetchEvent::Finished),
            final(store)@ == step_store(old(self)@, old(store)@, FetchEvent::Finished),
            final(store).tags() == old(store).tags(),
            r == progress_of(final(self)@),
    {
        match self.phase {
            FetchPhase::Transferring => {
                let digest = content_digest(self.received.as_slice());
                if same_key(&digest, &self.target) {
                    let data = self.received.clone();
                    assert(data@ =~= self.received@);
                    store.put(data, self.format);
                    self.phase = FetchPhase::Complete;
                } else {
                    self.phase = FetchPhase::Failed(SessionError::Protocol);
                }
            },
            FetchPhase::Connecting => {
                self.phase = FetchPhase::Failed(SessionError::Protocol);
            },
            _ => {},
        }
        self.progress()
    }
}

/// A fetch that has not completed has stored nothing: the store is as it
/// was, so nothing is retrievable under the target that was not there
/// before. Once the fetch completes, the target is retrievable.
pub proof fn lemma_unfinished_fetch_stores_nothing(
    f: FetchView,
    recs: Seq<BlobRecord>,
    evs: Seq<FetchEvent>,
)
    requires
        !(f.phase is Complete),
    ensures
        run_fetch(f, recs, evs).0.target == f.target,
        !(run_fetch(f, recs, evs).0.phase is Complete) ==> run_fetch(f, recs, evs).1 == recs,
        !(run_fetch(f, recs, evs).0.phase is Complete) && lookup(recs, f.target) is None ==> lookup(
            run_fetch(f, recs, evs).1,
            f.target,
        ) is None,
        run_fetch(f, recs, evs).0.phase is Complete ==> lookup(run_fetch(f, recs, evs).1, f.target) is Some,
    decreases evs.len(),
{
    if evs.len() > 0 {
        lemma_unfinished_fetch_stores_nothing(f, recs, evs.drop_last());
        let (f1, r1) = run_fetch(f, recs, evs.drop_last());
        if !(f1.phase is Complete) && step_fetch(f1, evs.last()).phase is Complete {
            lemma_put_twice(r1, f1.received, f1.format, f1.format);
        }
    }
}

/// A download of a blob that is not held, dropped or failed before it
/// completes, leaves nothing to export under its hash: the export is
/// `NotFound`. Once a download of it completes, the export succeeds.
pub proof fn lemma_dropped_download_exports_nothing(t: TicketView, recs: Seq<BlobRecord>, evs: Seq<FetchEvent>)
    requires
        records_wf(recs),
        lookup(recs, t.hash) is None,
    ensures
        !(run_fetch(fetch_start(t), recs, evs).0.phase is Complete) ==> export_result(
            run_fetch(fetch_start(t), recs, evs).1,
            t.hash,
        ) == Err::<Seq<u8>, SessionError>(SessionError::NotFound),
        run_fetch(fetch_start(t), recs, evs).0.phase is Complete ==> export_result(
            run_fetch(fetch_start(t), recs, evs).1,
            t.hash,
        ) is Ok,
{
    lemma_unfinished_fetch_stores_nothing(fetch_start(t), recs, evs);
}

/// The bytes of a run of chunks, in order.
pub open spec fn concat_chunks(cs: Seq<Seq<u8>>) -> Seq<u8>
    decreases cs.len(),
{
    if cs.len() == 0 {
        Seq::empty()
    } else {
        concat_chunks(cs.drop_last()) + cs.last()
    }
}

/// A transfer that delivers `cs` one chunk at a time.
pub open spec fn transfer_events(cs: Seq<Seq<u8>>) -> Seq<FetchEvent> {
    (seq![FetchEvent::Connected] + cs.map_values(|c: Seq<u8>| FetchEvent::Data(c))).push(
        FetchEvent::Finished,
    )
}

proof fn lemma_run_append(
    f: FetchView,
    recs: Seq<BlobRecord>,
    xs: Seq<FetchEvent>,
    ys: Seq<FetchEvent>,
)
    ensures
        run_fetch(f, recs, xs + ys) == run_fetch(
            run_fetch(f, recs, xs).0,
            run_fetch(f, recs, xs).1,
            ys,
        ),
    decreases ys.len(),
{
    if ys.len() == 0 {
        assert(xs + ys =~= xs);
    } else {
        assert((xs + ys).drop_last() =~= xs + ys.drop_last());
        lemma_run_append(f, recs, xs, ys.drop_last());
    }
}

proof fn lemma_run_chunks(f: FetchView, recs: Seq<BlobRecord>, cs: Seq<Seq<u8>>)
    requires
        f.phase is Transferring,
    ensures
        run_fetch(f, recs, cs.map_values(|c: Seq<u8>| FetchEvent::Data(c))) == (
            FetchView { received: f.received + concat_chunks(cs), ..f },
            recs,
        ),
    decreases cs.len(),
{
    let evs = cs.map_values(|c: Seq<u8>| FetchEvent::Data(c));
    if cs.len() == 0 {
        assert(f.received + concat_chunks(cs) =~= f.received);
    } else {
        assert(evs.drop_last() =~= cs.drop_last().map_values(|c: Seq<u8>| FetchEvent::Data(c)));
        lemma_run_chunks(f, recs, cs.drop_last());
        assert(f.received + concat_chunks(cs.drop_last()) + cs.last() =~= f.received
            + concat_chunks(cs));
    }
}

/// Bytes shared on one node, fetched on another through the ticket issued
/// for them, export there as the same bytes. Neither store may hold other
/// bytes under the same digest.
pub proof fn lemma_share_fetch_export(
    owner_store: Seq<BlobRecord>,
    fetcher_store: Seq<BlobRecord>,
    owner: NodeAddressView,
    content: Seq<u8>,
    format: BlobFormat,
    chunks: Seq<Seq<u8>>,
)
    requires
        records_wf(owner_store),
        records_wf(fetcher_store),
        lookup(owner_store, blake3_of(content)) is Some ==> lookup(
            owner_store,
            blake3_of(content),
        ).unwrap().data == content,
        lookup(fetcher_store, blake3_of(content)) is Some ==> lookup(
            fetcher_store,
            blake3_of(content),
        ).unwrap().data == content,
        match export_result(put_records(owner_store, content, format), blake3_of(content)) {
            Ok(served) => concat_chunks(chunks) == served,
            Err(_) => true,
        },
    ensures
        export_result(put_records(owner_store, content, format), blake3_of(content)) == Ok::<
            Seq<u8>,
            SessionError,
        >(content),
        ({
            let ticket = TicketView { owner, hash: blake3_of(content), format };
            let (f, recs) = run_fetch(fetch_start(ticket), fetcher_store, transfer_events(chunks));
            &&& f.phase is Complete
            &&& export_result(recs, ticket.hash) == Ok::<Seq<u8>, SessionError>(content)
        }),
{
    let h = blake3_of(content);
    let shared = put_records(owner_store, content, format);
    let ticket = TicketView { owner, hash: h, format };
    let f0 = fetch_start(ticket);
    let head = seq![FetchEvent::Connected];
    let datas = chunks.map_values(|c: Seq<u8>| FetchEvent::Data(c));
    let evs = transfer_events(chunks);
    assert(evs.drop_last() =~= head + datas);
    lemma_run_append(f0, fetcher_store, head, datas);
    assert(head.drop_last() =~= Seq::<FetchEvent>::empty());
    assert(run_fetch(f0, fetcher_store, head.drop_last()) == (f0, fetcher_store));
    assert(head.last() == FetchEvent::Connected);
    let f1 = run_fetch(f0, fetcher_store, head).0;
    assert(f1.phase is Transferring);
    assert(run_fetch(f0, fetcher_store, head).1 == fetcher_store);
    lemma_run_chunks(f1, fetcher_store, chunks);
    assert(Seq::<u8>::empty() + concat_chunks(chunks) =~= concat_chunks(chunks));
    assert(concat_chunks(chunks) == content);
}

} // verus!
