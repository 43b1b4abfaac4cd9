//! Content-addressed blob storage: each blob is kept once, under the digest
//! of its bytes.
use vstd::prelude::*;
use crate::digest::{blake3_of, content_digest, same_key, BlobHash};
use crate::error::SessionError;

verus! {

/// How the stored bytes are to be read: one blob, or a collection of named
/// blobs.
#[derive(Clone, Copy, Debug, PartialEq, Eq, Structural)]
pub enum BlobFormat {
    Raw,
    Collection,
}

/// How `export` materialises a blob at its destination.
#[derive(Clone, Copy, Debug, PartialEq, Eq, Structural)]
pub enum ExportMode {
    /// Always write a full copy.
    Copy,
    /// Use a reference into storage (a hard link) where the backend offers one.
    TryReference,
}

/// What the caller of `export_method` should do.
#[derive(Clone, Copy, Debug, PartialEq, Eq, Structural)]
pub enum ExportMethod {
    FullCopy,
    Reference,
}

/// A stored blob, as contracts see it.
pub struct BlobRecord {
    pub hash: Seq<u8>,
    pub data: Seq<u8>,
    pub format: BlobFormat,
}

/// A stored blob.
pub struct BlobEntry {
    pub hash: BlobHash,
    pub data: Vec<u8>,
    pub format: BlobFormat,
}

impl BlobEntry {
    pub open spec fn record(&self) -> BlobRecord {
        BlobRecord { hash: self.hash@, data: self.data@, format: self.format }
    }
}

/// The latest record stored under `h`, if any.
pub open spec fn lookup(recs: Seq<BlobRecord>, h: Seq<u8>) -> Option<BlobRecord>
    decreases recs.len(),
{
    if recs.len() == 0 {
        None
    } else if recs.last().hash == h {
        Some(recs.last())
    } else {
        lookup(recs.drop_last(), h)
    }
}

/// Each record sits under the digest of its bytes, and no digest appears twice.
pub open spec fn records_wf(recs: Seq<BlobRecord>) -> bool {
    &&& forall|i: int|
        0 <= i < recs.len() ==> #[trigger] recs[i].hash == blake3_of(recs[i].data)
            && recs[i].hash.len() == 32
    &&& forall|i: int, j: int|
        0 <= i < j < recs.len() ==> #[trigger] recs[i].hash != #[trigger] recs[j].hash
}

/// The hash a tag names, from its latest setting.
pub open spec fn tagged(tags: Seq<(Seq<char>, Seq<u8>)>, name: Seq<char>) -> Option<Seq<u8>>
    decreases tags.len(),
{
    if tags.len() == 0 {
        None
    } else if tags.last().0 == name {
        Some(tags.last().1)
    } else {
        tagged(tags.drop_last(), name)
    }
}

/// Every tag names a blob that is held.
pub open spec fn tags_valid(recs: Seq<BlobRecord>, tags: Seq<(Seq<char>, Seq<u8>)>) -> bool {
    forall|i: int| 0 <= i < tags.len() ==> (#[trigger] lookup(recs, tags[i].1)) is Some
}

/// Records well formed and tags pointing at held blobs.
pub open spec fn store_wf(recs: Seq<BlobRecord>, tags: Seq<(Seq<char>, Seq<u8>)>) -> bool {
    records_wf(recs) && tags_valid(recs, tags)
}

/// The records after adding `data`: unchanged when its digest is already held.
pub open spec fn put_records(recs: Seq<BlobRecord>, data: Seq<u8>, format: BlobFormat) -> Seq<
    BlobRecord,
> {
    if lookup(recs, blake3_of(data)) is Some {
        recs
    } else {
        recs.push(BlobRecord { hash: blake3_of(data), data, format })
    }
}

/// What `export` yields for `h`.
pub open spec fn export_result(recs: Seq<BlobRecord>, h: Seq<u8>) -> Result<Seq<u8>, SessionError> {
    match lookup(recs, h) {
        Some(r) => Ok(r.data),
        None => Err(SessionError::NotFound),
    }
}

/// `lookup` finds a record exactly when some record carries the hash.
pub proof fn lemma_lookup_some(recs: Seq<BlobRecord>, h: Seq<u8>)
    ensures
        lookup(recs, h) is Some <==> exists|i: int| 0 <= i < recs.len() && recs[i].hash == h,
        lookup(recs, h) is Some ==> lookup(recs, h).unwrap().hash == h,
        lookup(recs, h) is Some ==> recs.contains(lookup(recs, h).unwrap()),
    decreases recs.len(),
{
    if recs.len() > 0 {
        lemma_lookup_some(recs.drop_last(), h);
        if recs.last().hash != h {
            if exists|i: int| 0 <= i < recs.len() && recs[i].hash == h {
                let i = choose|i: int| 0 <= i < recs.len() && recs[i].hash == h;
                assert(recs.drop_last()[i] == recs[i]);
            }
            if lookup(recs, h) is Some {
                let i = choose|i: int| 0 <= i < recs.drop_last().len() && recs.drop_last()[i] == lookup(recs, h).unwrap();
                assert(recs[i] == recs.drop_last()[i]);
            }
        } else {
            assert(recs[recs.len() - 1] == recs.last());
        }
    }
}

/// Adding the same bytes twice yields one digest, and the second addition
/// leaves the records as the first left them: nothing is stored twice.
pub proof fn lemma_put_twice(
    recs: Seq<BlobRecord>,
    data: Seq<u8>,
    first: BlobFormat,
    second: BlobFormat,
)
    ensures
        put_records(put_records(recs, data, first), data, second) == put_records(recs, data, first),
        lookup(put_records(recs, data, first), blake3_of(data)) is Some,
        put_records(recs, data, first).len() == recs.len() + (if lookup(recs, blake3_of(data)) is Some {
            0int
        } else {
            1int
        }),
{
    let once = put_records(recs, data, first);
    if lookup(recs, blake3_of(data)) is None {
        assert(once.drop_last() =~= recs);
    }
}

/// Adding bytes never loses a blob that was held.
proof fn lemma_put_keeps(recs: Seq<BlobRecord>, data: Seq<u8>, format: BlobFormat, h: Seq<u8>)
    requires
        lookup(recs, h) is Some,
    ensures
        lookup(put_records(recs, data, format), h) is Some,
{
    let x = BlobRecord { hash: blake3_of(data), data, format };
    assert(recs.push(x).drop_last() =~= recs);
}

/// Whether `tryReference` may use a storage reference, or must copy.
pub fn export_method(mode: ExportMode, reference_available: bool) -> (r: ExportMethod)
    ensures
        r == (if mode == ExportMode::TryReference && reference_available {
            ExportMethod::Reference
        } else {
            ExportMethod::FullCopy
        }),
{
    match mode {
        ExportMode::TryReference => if reference_available {
            ExportMethod::Reference
        } else {
            ExportMethod::FullCopy
        },
        ExportMode::Copy => ExportMethod::FullCopy,
    }
}

/// A content-addressed blob store, with human-readable tags that point at
/// stored blobs and may be moved to others.
pub struct BlobStore {
    entries: Vec<BlobEntry>,
    tags: Vec<(String, BlobHash)>,
}

impl View for BlobStore {
    type V = Seq<BlobRecord>;

    closed spec fn view(&self) -> Seq<BlobRecord> {
        self.entries@.map_values(|e: BlobEntry| e.record())
    }
}

impl BlobStore {
    /// The tags, in the order they were set.
    pub closed spec fn tags(&self) -> Seq<(Seq<char>, Seq<u8>)> {
        self.tags@.map_values(|t: (String, BlobHash)| (t.0@, t.1@))
    }

    pub open spec fn wf(&self) -> bool {
        store_wf(self@, self.tags())
    }

    /// An empty store.
    pub fn new() -> (r: BlobStore)
        ensures
            r@ == Seq::<BlobRecord>::empty(),
            r.tags() == Seq::<(Seq<char>, Seq<u8>)>::empty(),
            r.wf(),
    {
        let r = BlobStore { entries: Vec::new(), tags: Vec::new() };
        assert(r@ =~= Seq::<BlobRecord>::empty());
        assert(r.tags() =~= Seq::<(Seq<char>, Seq<u8>)>::empty());
        r
    }

    /// Points tag `name` at the blob under `h`, replacing what it named
    /// before; `NotFound` when no blob is held under `h`.
    pub fn set_tag(&mut self, name: String, h: &BlobHash) -> (r: Result<(), SessionError>)
        requires
            old(self).wf(),
        ensures
            final(self).wf(),
            final(self)@ == old(self)@,
            match lookup(old(self)@, h@) {
                None => r == Err::<(), SessionError>(SessionError::NotFound) && final(self).tags() == old(self).tags(),
                Some(_) => r is Ok && final(self).tags() == old(self).tags().push((name@, h@)),
            },
    {
        if self.find(h).is_none() {
            return Err(SessionError::NotFound);
        }
        let ghost before = self.tags();
        self.tags.push((name, *h));
        assert(self.tags() =~= before.push((name@, h@)));
        assert forall|i: int| 0 <= i < self.tags().len() implies (#[trigger] lookup(self@, self.tags()[i].1)) is Some by {
            if i < before.len() {
                assert(self.tags()[i] == before[i]);
            }
        }
        Ok(())
    }

    /// The hash tag `name` points at.
    pub fn tag(&self, name: &String) -> (r: Option<BlobHash>)
        ensures
            match r {
                Some(h) => tagged(self.tags(), name@) == Some(h@),
                None => tagged(self.tags(), name@) is None,
            },
    {
        let ghost all = self.tags();
        let mut i: usize = self.tags.len();
        assert(all.subrange(0, i as int) =~= all);
        while i > 0
            invariant
                i <= self.tags@.len(),
                all == self.tags(),
                tagged(all, name@) == tagged(all.subrange(0, i as int), name@),
            decreases i,
        {
            let ghost prefix = all.subrange(0, i as int);
            assert(prefix.last() == all[i - 1]);
            if self.tags[i - 1].0 == *name {
                return Some(self.tags[i - 1].1);
            }
            assert(prefix.drop_last() =~= all.subrange(0, i - 1));
            i = i - 1;
        }
        None
    }

    /// The number of distinct blobs held.
    pub fn len(&self) -> (r: usize)
        ensures
            r == self@.len(),
    {
        self.entries.len()
    }

    /// The index of the entry stored under `h`, searching from the newest.
    fn find(&self, h: &BlobHash) -> (r: Option<usize>)
        ensures
            match r {
                Some(i) => i < self@.len() && lookup(self@, h@) == Some(self@[i as int]),
                None => lookup(self@, h@) is None,
            },
    {
        let mut i: usize = self.entries.len();
        assert(self@.subrange(0, i as int) =~= self@);
        while i > 0
            invariant
                i <= self.entries@.len(),
                lookup(self@, h@) == lookup(self@.subrange(0, i as int), h@),
            decreases i,
        {
            let prefix = Ghost(self@.subrange(0, i as int));
            assert(prefix@.last() == self@[i - 1]);
            if same_key(&self.entries[i - 1].hash, h) {
                return Some(i - 1);
            }
            assert(prefix@.drop_last() =~= self@.subrange(0, i - 1));
            i = i - 1;
        }
        None
    }

    /// Whether a blob is held under `h`.
    pub fn contains(&self, h: &BlobHash) -> (r: bool)
        ensures
            r == lookup(self@, h@) is Some,
    {
        self.find(h).is_some()
    }

    /// The format recorded for the blob under `h`.
    pub fn format_of(&self, h: &BlobHash) -> (r: Option<BlobFormat>)
        ensures
            r == match lookup(self@, h@) {
                Some(rec) => Some(rec.format),
                None => None,
            },
    {
        match self.find(h) {
            Some(i) => Some(self.entries[i].format),
            None => None,
        }
    }

    /// Stores `data` under its digest and returns the digest. Adding bytes
    /// that are already held returns the same digest and stores nothing new.
    pub fn put(&mut self, data: Vec<u8>, format: BlobFormat) -> (r: BlobHash)
        requires
            old(self).wf(),
        ensures
            final(self).wf(),
            r@ == blake3_of(data@),
            final(self)@ == put_records(old(self)@, data@, format),
            final(self).tags() == old(self).tags(),
    {
        let hash = content_digest(data.as_slice());
        if self.find(&hash).is_some() {
            return hash;
        }
        let entry = BlobEntry { hash, data, format };
        let ghost before = self@;
        self.entries.push(entry);
        proof {
            assert(self@ =~= before.push(entry.record()));
            assert forall|i: int, j: int| 0 <= i < j < self@.len() implies self@[i].hash != self@[j].hash by {
                if j == before.len() {
                    if before[i].hash == hash@ {
                        lemma_lookup_some(before, hash@);
                    }
                }
            }
            assert forall|i: int| 0 <= i < self.tags().len() implies (#[trigger] lookup(self@, self.tags()[i].1)) is Some by {
                lemma_put_keeps(before, data@, format, self.tags()[i].1);
            }
        }
        hash
    }

    /// A copy of the bytes stored under `h`; `NotFound` when none are held.
    /// Never reaches the network.
    pub fn export(&self, h: &BlobHash) -> (r: Result<Vec<u8>, SessionError>)
        ensures
            match r {
                Ok(v) => export_result(self@, h@) == Ok::<Seq<u8>, SessionError>(v@),
                Err(e) => export_result(self@, h@) == Err::<Seq<u8>, SessionError>(e),
            },
    {
        match self.find(h) {
            Some(i) => {
                let v = self.entries[i].data.clone();
                assert(v@ =~= self.entries@[i as int].data@);
                Ok(v)
            },
            None => Err(SessionError::NotFound),
        }
    }
}

} // verus!
