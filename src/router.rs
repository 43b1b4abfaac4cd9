//! The protocol table: which subsystem handles an inbound connection,
//! chosen by the protocol identifier negotiated at connection setup.
//! Bindings are fixed when the table is built; an identifier that is not
//! bound refuses the connection.
use vstd::prelude::*;
use crate::error::SessionError;

verus! {

/// The subsystems that take inbound connections.
#[derive(Clone, Copy, Debug, PartialEq, Eq, Structural)]
pub enum Handler {
    Gossip,
    Blobs,
}

/// The handler bound to `alpn`, searching from the latest binding.
pub open spec fn bound_handler(entries: Seq<(Seq<u8>, Handler)>, alpn: Seq<u8>) -> Option<Handler>
    decreases entries.len(),
{
    if entries.len() == 0 {
        None
    } else if entries.last().0 == alpn {
        Some(entries.last().1)
    } else {
        bound_handler(entries.drop_last(), alpn)
    }
}

/// No identifier is bound twice.
pub open spec fn bindings_unique(entries: Seq<(Seq<u8>, Handler)>) -> bool {
    forall|i: int, j: int| 0 <= i < j < entries.len() ==> entries[i].0 != entries[j].0
}

/// Compares two byte strings.
pub fn same_bytes(a: &[u8], b: &[u8]) -> (r: bool)
    ensures
        r == (a@ == b@),
{
    if a.len() != b.len() {
        return false;
    }
    let mut i: usize = 0;
    while i < a.len()
        invariant
            a@.len() == b@.len(),
            i <= a@.len(),
            forall|j: int| 0 <= j < i ==> a@[j] == b@[j],
        decreases a@.len() - i,
    {
        if a[i] != b[i] {
            return false;
        }
        i = i + 1;
    }
    assert(a@ =~= b@);
    true
}

pub struct ProtocolTable {
    entries: Vec<(Vec<u8>, Handler)>,
}

impl View for ProtocolTable {
    type V = Seq<(Seq<u8>, Handler)>;

    closed spec fn view(&self) -> Seq<(Seq<u8>, Handler)> {
        self.entries@.map_values(|e: (Vec<u8>, Handler)| (e.0@, e.1))
    }
}

proof fn lemma_bound_some(entries: Seq<(Seq<u8>, Handler)>, alpn: Seq<u8>)
    ensures
        bound_handler(entries, alpn) is Some <==> exists|i: int| 0 <= i < entries.len() && entries[i].0 == alpn,
    decreases entries.len(),
{
    if entries.len() > 0 {
        lemma_bound_some(entries.drop_last(), alpn);
        if exists|i: int| 0 <= i < entries.len() && entries[i].0 == alpn {
            let i = choose|i: int| 0 <= i < entries.len() && entries[i].0 == alpn;
            if i < entries.len() - 1 {
                assert(entries.drop_last()[i] == entries[i]);
            }
        }
        if exists|i: int| 0 <= i < entries.drop_last().len() && entries.drop_last()[i].0 == alpn {
            let i = choose|i: int| 0 <= i < entries.drop_last().len() && entries.drop_last()[i].0 == alpn;
            assert(entries[i] == entries.drop_last()[i]);
        }
    }
}

impl ProtocolTable {
    pub open spec fn wf(&self) -> bool {
        bindings_unique(self@)
    }

    /// Builds the table from its bindings, in order; `Protocol` when an
    /// identifier is bound twice.
    pub fn build(bindings: Vec<(Vec<u8>, Handler)>) -> (r: Result<ProtocolTable, SessionError>)
        ensures
            match r {
                Ok(t) => t.wf() && t@ == bindings@.map_values(|e: (Vec<u8>, Handler)| (e.0@, e.1)),
                Err(e) => e == SessionError::Protocol && !bindings_unique(
                    bindings@.map_values(|e: (Vec<u8>, Handler)| (e.0@, e.1)),
                ),
            },
    {
        let ghost want = bindings@.map_values(|e: (Vec<u8>, Handler)| (e.0@, e.1));
        let mut i: usize = 0;
        while i < bindings.len()
            invariant
                i <= bindings@.len(),
                want == bindings@.map_values(|e: (Vec<u8>, Handler)| (e.0@, e.1)),
                forall|a: int, b: int| 0 <= a < b < i ==> want[a].0 != want[b].0,
            decreases bindings@.len() - i,
        {
            let mut j: usize = 0;
            while j < i
                invariant
                    i < bindings@.len(),
                    j <= i,
                    want == bindings@.map_values(|e: (Vec<u8>, Handler)| (e.0@, e.1)),
                    forall|a: int| 0 <= a < j ==> want[a].0 != want[i as int].0,
                decreases i - j,
            {
                if same_bytes(bindings[j].0.as_slice(), bindings[i].0.as_slice()) {
                    assert(want[j as int].0 == want[i as int].0);
                    return Err(SessionError::Protocol);
                }
                j = j + 1;
            }
            i = i + 1;
        }
        let t = ProtocolTable { entries: bindings };
        assert(t@ =~= want);
        Ok(t)
    }

    /// The handler for an inbound connection's protocol identifier; `None`
    /// refuses the connection.
    pub fn dispatch(&self, alpn: &[u8]) -> (r: Option<Handler>)
        requires
            self.wf(),
        ensures
            r == bound_handler(self@, alpn@),
            r is Some <==> exists|i: int| 0 <= i < self@.len() && self@[i].0 == alpn@,
    {
        proof {
            lemma_bound_some(self@, alpn@);
        }
        let ghost all = self@;
        let mut i: usize = self.entries.len();
        assert(all.subrange(0, i as int) =~= all);
        while i > 0
            invariant
                i <= self.entries@.len(),
                all == self@,
                bound_handler(all, alpn@) == bound_handler(all.subrange(0, i as int), alpn@),
            decreases i,
        {
            let ghost prefix = all.subrange(0, i as int);
            assert(prefix.last() == all[i - 1]);
            if same_bytes(self.entries[i - 1].0.as_slice(), alpn) {
                return Some(self.entries[i - 1].1);
            }
            assert(prefix.drop_last() =~= all.subrange(0, i - 1));
            i = i - 1;
        }
        None
    }
}

} // verus!
