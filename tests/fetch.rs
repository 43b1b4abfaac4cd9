use starlink::error::SessionError;
use starlink::fetch::{DownloadProgress, Fetch};
use starlink::store::{BlobFormat, BlobStore};
use starlink::ticket::{NodeAddress, Ticket};

fn owner() -> NodeAddress {
    NodeAddress { id: [1u8; 32], relay: None, direct: Vec::new() }
}

fn ticket_for(store: &mut BlobStore, content: &[u8]) -> Ticket {
    let h = store.put(content.to_vec(), BlobFormat::Raw);
    Ticket::new(owner(), h, BlobFormat::Raw).unwrap()
}

#[test]
fn fetch_in_chunks_then_export() {
    let content = b"the quick brown fox jumps over the lazy dog".to_vec();
    let mut a = BlobStore::new();
    let t = ticket_for(&mut a, &content);
    let served = a.export(&t.hash()).unwrap();
    let mut b = BlobStore::new();
    let mut f = Fetch::start(&t);
    assert_eq!(f.progress(), DownloadProgress::Connecting);
    assert_eq!(f.on_connected(), DownloadProgress::Transferring(0));
    assert_eq!(f.on_data(&served[..10]), DownloadProgress::Transferring(10));
    assert_eq!(f.on_data(&served[10..]), DownloadProgress::Transferring(43));
    assert_eq!(f.on_finished(&mut b), DownloadProgress::Complete);
    assert!(f.is_done());
    assert_eq!(b.export(&t.hash()), Ok(content));
}

#[test]
fn dropped_fetch_leaves_nothing() {
    let content = b"partial transfer".to_vec();
    let mut a = BlobStore::new();
    let t = ticket_for(&mut a, &content);
    let b = BlobStore::new();
    {
        let mut f = Fetch::start(&t);
        f.on_connected();
        f.on_data(&content[..5]);
    }
    assert!(!b.contains(&t.hash()));
    assert_eq!(b.export(&t.hash()), Err(SessionError::NotFound));
    assert_eq!(b.len(), 0);
}

#[test]
fn failed_fetch_then_complete_fetch() {
    let content = b"retry me".to_vec();
    let mut a = BlobStore::new();
    let t = ticket_for(&mut a, &content);
    let mut b = BlobStore::new();
    let mut f = Fetch::start(&t);
    f.on_connected();
    f.on_data(&content[..3]);
    assert_eq!(f.on_failed(SessionError::Connection), DownloadProgress::Error(SessionError::Connection));
    assert_eq!(f.on_finished(&mut b), DownloadProgress::Error(SessionError::Connection));
    assert!(!b.contains(&t.hash()));
    let mut g = Fetch::start(&t);
    g.on_connected();
    g.on_data(&content);
    assert_eq!(g.on_finished(&mut b), DownloadProgress::Complete);
    assert_eq!(b.export(&t.hash()), Ok(content));
}

#[test]
fn wrong_bytes_are_not_stored() {
    let mut a = BlobStore::new();
    let t = ticket_for(&mut a, b"expected");
    let mut b = BlobStore::new();
    let mut f = Fetch::start(&t);
    f.on_connected();
    f.on_data(b"something else");
    assert_eq!(f.on_finished(&mut b), DownloadProgress::Error(SessionError::Protocol));
    assert_eq!(b.len(), 0);
}

#[test]
fn data_before_connection_is_a_protocol_error() {
    let mut a = BlobStore::new();
    let t = ticket_for(&mut a, b"x");
    let mut f = Fetch::start(&t);
    assert_eq!(f.on_data(b"x"), DownloadProgress::Error(SessionError::Protocol));
    assert_eq!(f.on_connected(), DownloadProgress::Error(SessionError::Protocol));
    assert!(f.is_done());
}

#[test]
fn finishing_before_connection_fails() {
    let mut a = BlobStore::new();
    let t = ticket_for(&mut a, b"");
    let mut b = BlobStore::new();
    let mut f = Fetch::start(&t);
    assert_eq!(f.target(), t.hash());
    assert_eq!(f.on_finished(&mut b), DownloadProgress::Error(SessionError::Protocol));
    assert_eq!(b.len(), 0);
}

#[test]
fn empty_blob_fetch_completes() {
    let mut a = BlobStore::new();
    let t = ticket_for(&mut a, b"");
    let mut b = BlobStore::new();
    let mut f = Fetch::start(&t);
    f.on_connected();
    assert_eq!(f.on_finished(&mut b), DownloadProgress::Complete);
    assert_eq!(b.export(&t.hash()), Ok(Vec::new()));
}
