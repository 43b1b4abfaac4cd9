use starlink::error::SessionError;
use starlink::router::{Handler, ProtocolTable};

#[test]
fn dispatch_by_protocol_identifier() {
    let t = ProtocolTable::build(vec![
        (b"/gossip/0".to_vec(), Handler::Gossip),
        (b"/blobs/4".to_vec(), Handler::Blobs),
    ])
    .unwrap();
    assert_eq!(t.dispatch(b"/gossip/0"), Some(Handler::Gossip));
    assert_eq!(t.dispatch(b"/blobs/4"), Some(Handler::Blobs));
    assert_eq!(t.dispatch(b"/other/1"), None);
    assert_eq!(t.dispatch(b""), None);
}

#[test]
fn duplicate_binding_is_refused() {
    let r = ProtocolTable::build(vec![
        (b"/x".to_vec(), Handler::Gossip),
        (b"/x".to_vec(), Handler::Blobs),
    ]);
    assert!(matches!(r, Err(SessionError::Protocol)));
}

#[test]
fn empty_table_refuses_everything() {
    let t = ProtocolTable::build(Vec::new()).unwrap();
    assert_eq!(t.dispatch(b"/gossip/0"), None);
}
