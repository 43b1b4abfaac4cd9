use starlink::error::SessionError;
use starlink::store::{export_method, BlobFormat, BlobStore, ExportMethod, ExportMode};

fn hex(bytes: &[u8]) -> String {
    bytes.iter().map(|b| format!("{:02x}", b)).collect()
}

#[test]
fn put_twice_same_hash_no_duplicate() {
    let mut store = BlobStore::new();
    let h1 = store.put(b"some bytes".to_vec(), BlobFormat::Raw);
    let h2 = store.put(b"some bytes".to_vec(), BlobFormat::Raw);
    assert_eq!(h1, h2);
    assert_eq!(store.len(), 1);
}

#[test]
fn put_empty_twice() {
    let mut store = BlobStore::new();
    let h1 = store.put(Vec::new(), BlobFormat::Raw);
    let h2 = store.put(Vec::new(), BlobFormat::Collection);
    assert_eq!(h1, h2);
    assert_eq!(store.len(), 1);
    assert_eq!(store.format_of(&h1), Some(BlobFormat::Raw));
    assert_eq!(store.export(&h1), Ok(Vec::new()));
}

#[test]
fn distinct_content_distinct_entries() {
    let mut store = BlobStore::new();
    let h1 = store.put(b"a".to_vec(), BlobFormat::Raw);
    let h2 = store.put(b"b".to_vec(), BlobFormat::Collection);
    assert_ne!(h1, h2);
    assert_eq!(store.len(), 2);
    assert_eq!(store.format_of(&h2), Some(BlobFormat::Collection));
}

#[test]
fn digest_is_blake3_of_content() {
    let mut store = BlobStore::new();
    let h = store.put(b"hello world".to_vec(), BlobFormat::Raw);
    assert_eq!(
        hex(&h),
        "d74981efa70a0c880b8d8c1985d075dbcbf679b99a5f9914e5aaf96b831a9e24"
    );
}

#[test]
fn export_returns_stored_bytes() {
    let mut store = BlobStore::new();
    let h = store.put(b"payload".to_vec(), BlobFormat::Raw);
    assert!(store.contains(&h));
    assert_eq!(store.export(&h), Ok(b"payload".to_vec()));
}

#[test]
fn export_absent_hash_is_not_found() {
    let store = BlobStore::new();
    let h = [7u8; 32];
    assert!(!store.contains(&h));
    assert_eq!(store.export(&h), Err(SessionError::NotFound));
    assert_eq!(store.format_of(&h), None);
}

#[test]
fn export_method_choices() {
    assert_eq!(export_method(ExportMode::Copy, true), ExportMethod::FullCopy);
    assert_eq!(export_method(ExportMode::Copy, false), ExportMethod::FullCopy);
    assert_eq!(export_method(ExportMode::TryReference, true), ExportMethod::Reference);
    assert_eq!(export_method(ExportMode::TryReference, false), ExportMethod::FullCopy);
}

#[test]
fn tags_point_at_held_blobs_and_move() {
    let mut store = BlobStore::new();
    let h1 = store.put(b"one".to_vec(), BlobFormat::Raw);
    let h2 = store.put(b"two".to_vec(), BlobFormat::Raw);
    let name = "latest".to_string();
    assert_eq!(store.tag(&name), None);
    assert_eq!(store.set_tag(name.clone(), &h1), Ok(()));
    assert_eq!(store.tag(&name), Some(h1));
    assert_eq!(store.set_tag(name.clone(), &h2), Ok(()));
    assert_eq!(store.tag(&name), Some(h2));
    assert_eq!(store.set_tag("other".to_string(), &[0u8; 32]), Err(SessionError::NotFound));
    assert_eq!(store.tag(&"other".to_string()), None);
}
