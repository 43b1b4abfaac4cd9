//! Resolving a node identity to endpoint candidates by several independent
//! lookup strategies at once.
//!
//! Each strategy reports once: the candidates it found, or that it failed or
//! timed out. The candidates found are merged, each kept once, in the order
//! they were first reported. The resolution finishes when every strategy has
//! reported or its deadline passes, whichever comes first, and then yields an
//! address even if no strategy found anything.
use vstd::prelude::*;
use crate::router::same_bytes;
use crate::ticket::{endpoint_views, relay_view, EndpointAddr, EndpointView, NodeAddress, NodeAddressView, NodeId};

verus! {

pub struct ResolutionView {
    pub id: Seq<u8>,
    pub deadline: u64,
    pub reported: Seq<bool>,
    pub relay: Option<Seq<u8>>,
    pub direct: Seq<EndpointView>,
}

/// One strategy's report, as contracts see it.
pub enum ReportView {
    Found(int, Option<Seq<u8>>, Seq<EndpointView>),
    Failed(int),
}

pub open spec fn add_endpoint(s: Seq<EndpointView>, e: EndpointView) -> Seq<EndpointView> {
    if s.contains(e) {
        s
    } else {
        s.push(e)
    }
}

pub open spec fn add_endpoints(s: Seq<EndpointView>, es: Seq<EndpointView>) -> Seq<EndpointView>
    decreases es.len(),
{
    if es.len() == 0 {
        s
    } else {
        add_endpoint(add_endpoints(s, es.drop_last()), es.last())
    }
}

/// Whether strategy `k` may still report.
pub open spec fn awaiting(r: ResolutionView, k: int) -> bool {
    0 <= k < r.reported.len() && !r.reported[k]
}

/// After strategy `k` found candidates.
pub open spec fn found_step(r: ResolutionView, k: int, relay: Option<Seq<u8>>, found: Seq<EndpointView>) -> ResolutionView {
    if awaiting(r, k) {
        ResolutionView {
            reported: r.reported.update(k, true),
            relay: if r.relay is Some { r.relay } else { relay },
            direct: add_endpoints(r.direct, found),
            ..r
        }
    } else {
        r
    }
}

/// After strategy `k` failed or timed out.
pub open spec fn failed_step(r: ResolutionView, k: int) -> ResolutionView {
    if awaiting(r, k) {
        ResolutionView { reported: r.reported.update(k, true), ..r }
    } else {
        r
    }
}

pub open spec fn report_step(r: ResolutionView, rep: ReportView) -> ResolutionView {
    match rep {
        ReportView::Found(k, relay, found) => found_step(r, k, relay, found),
        ReportView::Failed(k) => failed_step(r, k),
    }
}

pub open spec fn run_reports(r: ResolutionView, reps: Seq<ReportView>) -> ResolutionView
    decreases reps.len(),
{
    if reps.len() == 0 {
        r
    } else {
        report_step(run_reports(r, reps.drop_last()), reps.last())
    }
}

/// Every strategy has reported, or the deadline has passed.
pub open spec fn finished(r: ResolutionView, now: u64) -> bool {
    now >= r.deadline || forall|i: int| 0 <= i < r.reported.len() ==> #[trigger] r.reported[i]
}

/// The deadline of a resolution begun at `now`: `now + timeout`, or the
/// largest time where that does not fit.
pub open spec fn deadline_of(now: u64, timeout: u64) -> u64 {
    if now as int + timeout as int > u64::MAX as int {
        u64::MAX
    } else {
        (now + timeout) as u64
    }
}

proof fn lemma_add_endpoints_keeps(s: Seq<EndpointView>, es: Seq<EndpointView>)
    ensures
        forall|e: EndpointView| s.contains(e) ==> #[trigger] add_endpoints(s, es).contains(e),
        forall|e: EndpointView| es.contains(e) ==> #[trigger] add_endpoints(s, es).contains(e),
    decreases es.len(),
{
    if es.len() > 0 {
        lemma_add_endpoints_keeps(s, es.drop_last());
        let front = add_endpoints(s, es.drop_last());
        let all = add_endpoints(s, es);
        assert forall|e: EndpointView| front.contains(e) implies #[trigger] all.contains(e) by {
            if !front.contains(es.last()) {
                let k = choose|k: int| 0 <= k < front.len() && front[k] == e;
                assert(all[k] == e);
            }
        }
        assert forall|e: EndpointView| es.contains(e) implies #[trigger] all.contains(e) by {
            let k = choose|k: int| 0 <= k < es.len() && es[k] == e;
            if k < es.len() - 1 {
                assert(es.drop_last()[k] == e);
                assert(es.drop_last().contains(e));
            } else if !front.contains(e) {
                assert(all[front.len() as int] == e);
            }
        }
    }
}

proof fn lemma_reports_keep(r: ResolutionView, reps: Seq<ReportView>)
    ensures
        run_reports(r, reps).deadline == r.deadline,
        run_reports(r, reps).reported.len() == r.reported.len(),
        forall|e: EndpointView| r.direct.contains(e) ==> #[trigger] run_reports(r, reps).direct.contains(e),
    decreases reps.len(),
{
    if reps.len() > 0 {
        lemma_reports_keep(r, reps.drop_last());
        let mid = run_reports(r, reps.drop_last());
        match reps.last() {
            ReportView::Found(k, relay, found) => {
                lemma_add_endpoints_keeps(mid.direct, found);
            },
            ReportView::Failed(k) => {},
        }
    }
}

/// One strategy is enough. Once strategy `k` has found candidates, whatever
/// the others report afterwards (failures, timeouts, more candidates), the
/// resolution is finished by its deadline and its address holds every
/// candidate that `k` found.
pub proof fn lemma_one_success_suffices(
    r: ResolutionView,
    k: int,
    relay: Option<Seq<u8>>,
    found: Seq<EndpointView>,
    later: Seq<ReportView>,
    now: u64,
)
    requires
        awaiting(r, k),
        now >= r.deadline,
    ensures
        finished(run_reports(found_step(r, k, relay, found), later), now),
        forall|e: EndpointView|
            found.contains(e) ==> #[trigger] run_reports(found_step(r, k, relay, found), later).direct.contains(e),
{
    lemma_add_endpoints_keeps(r.direct, found);
    lemma_reports_keep(found_step(r, k, relay, found), later);
}

fn same_endpoint(a: &EndpointAddr, b: &EndpointAddr) -> (r: bool)
    ensures
        r == (a@ == b@),
{
    same_bytes(a.ip.as_slice(), b.ip.as_slice()) && a.port == b.port
}

fn contains_endpoint(v: &Vec<EndpointAddr>, e: &EndpointAddr) -> (r: bool)
    ensures
        r == endpoint_views(v@).contains(e@),
{
    let mut i: usize = 0;
    while i < v.len()
        invariant
            i <= v@.len(),
            forall|j: int| 0 <= j < i ==> v@[j]@ != e@,
        decreases v@.len() - i,
    {
        if same_endpoint(&v[i], e) {
            assert(endpoint_views(v@)[i as int] == e@);
            return true;
        }
        i = i + 1;
    }
    assert forall|j: int| 0 <= j < endpoint_views(v@).len() implies endpoint_views(v@)[j] != e@ by {
        assert(endpoint_views(v@)[j] == v@[j]@);
    }
    false
}

/// A resolution in progress.
pub struct Resolution {
    id: NodeId,
    deadline: u64,
    reported: Vec<bool>,
    relay: Option<Vec<u8>>,
    direct: Vec<EndpointAddr>,
}

impl View for Resolution {
    type V = ResolutionView;

    closed spec fn view(&self) -> ResolutionView {
        ResolutionView {
            id: self.id@,
            deadline: self.deadline,
            reported: self.reported@,
            relay: relay_view(self.relay),
            direct: endpoint_views(self.direct@),
        }
    }
}

impl Resolution {
    /// Begins resolving `id` with `strategies` strategies at time `now`,
    /// giving them until `now + timeout`.
    pub fn begin(id: NodeId, strategies: usize, now: u64, timeout: u64) -> (r: Resolution)
        ensures
            r@ == (ResolutionView {
                id: id@,
                deadline: deadline_of(now, timeout),
                reported: Seq::new(strategies as nat, |i: int| false),
                relay: None,
                direct: Seq::empty(),
            }),
    {
        let deadline = if now > u64::MAX - timeout {
            u64::MAX
        } else {
            now + timeout
        };
        let mut reported: Vec<bool> = Vec::new();
        let mut i: usize = 0;
        while i < strategies
            invariant
                i <= strategies,
                reported@ == Seq::new(i as nat, |j: int| false),
            decreases strategies - i,
        {
            reported.push(false);
            i = i + 1;
            assert(reported@ =~= Seq::new(i as nat, |j: int| false));
        }
        let r = Resolution { id, deadline, reported, relay: None, direct: Vec::new() };
        assert(r@.direct =~= Seq::<EndpointView>::empty());
        r
    }

    /// Begins resolving the node of a known address, keeping its relay and
    /// candidates, with `strategies` strategies at time `now`, giving them
    /// until `now + timeout`.
    pub fn begin_from(known: &NodeAddress, strategies: usize, now: u64, timeout: u64) -> (r: Resolution)
        ensures
            r@ == (ResolutionView {
                id: known@.id,
                deadline: deadline_of(now, timeout),
                reported: Seq::new(strategies as nat, |i: int| false),
                relay: known@.relay,
                direct: known@.direct,
            }),
    {
        let mut r = Resolution::begin(known.id, strategies, now, timeout);
        r.relay = match &known.relay {
            Some(u) => Some(copy_bytes(u)),
            None => None,
        };
        r.direct = copy_endpoints(&known.direct);
        r
    }

    /// Strategy `k` found candidates; they are merged, each kept once. A
    /// repeated or unknown report changes nothing.
    pub fn report_found(&mut self, k: usize, relay: Option<Vec<u8>>, found: &Vec<EndpointAddr>)
        ensures
            final(self)@ == found_step(old(self)@, k as int, relay_view(relay), endpoint_views(found@)),
    {
        if k >= self.reported.len() || self.reported[k] {
            return;
        }
        self.reported.set(k, true);
        if self.relay.is_none() {
            self.relay = relay;
        }
        let ghost fv = endpoint_views(found@);
        let ghost start = endpoint_views(self.direct@);
        let ghost mid = self@;
        let mut i: usize = 0;
        while i < found.len()
            invariant
                i <= found@.len(),
                fv == endpoint_views(found@),
                endpoint_views(self.direct@) == add_endpoints(start, fv.subrange(0, i as int)),
                self@.id == mid.id,
                self@.deadline == mid.deadline,
                self@.reported == mid.reported,
                self@.relay == mid.relay,
            decreases found@.len() - i,
        {
            let e = found[i];
            if !contains_endpoint(&self.direct, &e) {
                self.direct.push(e);
            }
            i = i + 1;
            proof {
                let sub = fv.subrange(0, i as int);
                assert(sub.drop_last() =~= fv.subrange(0, i - 1));
                assert(sub.last() == e@);
                assert(endpoint_views(self.direct@) =~= add_endpoints(start, sub));
            }
        }
        assert(fv.subrange(0, i as int) =~= fv);
    }

    /// Strategy `k` failed or timed out. A repeated or unknown report
    /// changes nothing.
    pub fn report_failed(&mut self, k: usize)
        ensures
            final(self)@ == failed_step(old(self)@, k as int),
    {
        if k >= self.reported.len() || self.reported[k] {
            return;
        }
        self.reported.set(k, true);
    }

    /// Whether the resolution is over at time `now`.
    pub fn is_finished(&self, now: u64) -> (r: bool)
        ensures
            r == finished(self@, now),
    {
        if now >= self.deadline {
            return true;
        }
        let mut i: usize = 0;
        while i < self.reported.len()
            invariant
                i <= self.reported@.len(),
                now < self.deadline,
                forall|j: int| 0 <= j < i ==> self.reported@[j],
            decreases self.reported@.len() - i,
        {
            if !self.reported[i] {
                assert(!self@.reported[i as int]);
                return false;
            }
            i = i + 1;
        }
        true
    }

    /// The address found so far: the identity with every candidate merged.
    pub fn address(&self) -> (r: NodeAddress)
        ensures
            r@ == (NodeAddressView { id: self@.id, relay: self@.relay, direct: self@.direct }),
    {
        let relay = match &self.relay {
            Some(u) => Some(copy_bytes(u)),
            None => None,
        };
        let direct = copy_endpoints(&self.direct);
        NodeAddress { id: self.id, relay, direct }
    }
}

pub(crate) fn copy_bytes(v: &Vec<u8>) -> (r: Vec<u8>)
    ensures
        r@ == v@,
{
    let r = v.clone();
    assert(r@ =~= v@);
    r
}

pub(crate) fn copy_endpoints(v: &Vec<EndpointAddr>) -> (r: Vec<EndpointAddr>)
    ensures
        r@ == v@,
{
    let mut r: Vec<EndpointAddr> = Vec::new();
    let mut i: usize = 0;
    while i < v.len()
        invariant
            i <= v@.len(),
            r@ == v@.subrange(0, i as int),
        decreases v@.len() - i,
    {
        r.push(v[i]);
        i = i + 1;
        assert(r@ =~= v@.subrange(0, i as int));
    }
    assert(v@.subrange(0, i as int) =~= v@);
    r
}

} // verus!
