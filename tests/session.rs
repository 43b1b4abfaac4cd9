use starlink::error::SessionError;
use starlink::fetch::DownloadProgress;
use starlink::router::Handler;
use starlink::store::BlobFormat;
use starlink::session::Starlink;
use starlink::ticket::{EndpointAddr, NodeAddress, Ticket};

const GOSSIP: &[u8] = b"/iroh-gossip/0";
const BLOBS: &[u8] = b"/iroh-bytes/4";

fn node(id: u8) -> Starlink {
    let mut s = Starlink::new([id; 32], GOSSIP.to_vec(), BLOBS.to_vec()).unwrap();
    let mut ip = [0u8; 16];
    ip[15] = id;
    s.set_local_addresses(None, vec![EndpointAddr { ip, port: 11204 }]);
    s
}

#[test]
fn hello_world_share_fetch_save() {
    let mut a = node(1);
    let mut b = node(2);
    let t1 = a.shared_file(b"hello world".to_vec()).unwrap();
    let text = t1.serialize();
    let t1b = Ticket::deserialize(&text).unwrap();
    assert_eq!(t1b, t1);
    let served = a.save_file(&t1b).unwrap();
    let (mut f, mut owner) = b.download_file(&t1b, 3, 0, 100);
    assert_eq!(f.progress(), DownloadProgress::Connecting);
    owner.report_failed(0);
    owner.report_found(1, None, &vec![EndpointAddr { ip: [9u8; 16], port: 7 }]);
    owner.report_failed(2);
    assert!(owner.is_finished(1));
    let dialled = b.dial_owner(&owner);
    assert_eq!(dialled.direct.len(), 2);
    f.on_connected();
    f.on_data(&served);
    assert_eq!(b.finish_download(&mut f), DownloadProgress::Complete);
    assert_eq!(b.save_file(&t1b), Ok(b"hello world".to_vec()));
    assert_eq!(b.known_addr(&[1u8; 32]), Some(dialled));
    // fetching again needs no transfer, and stores nothing twice
    let (again, _) = b.download_file(&t1b, 3, 0, 100);
    assert_eq!(again.progress(), DownloadProgress::Complete);
    assert_eq!(b.save_file(&t1b), Ok(b"hello world".to_vec()));
}

#[test]
fn node_addr_keeps_identity() {
    let mut a = node(4);
    assert_eq!(a.node_addr().id, [4u8; 32]);
    a.set_local_addresses(Some(b"r".to_vec()), Vec::new());
    assert_eq!(a.node_addr().id, [4u8; 32]);
}

#[test]
fn session_refuses_equal_protocol_ids() {
    assert!(matches!(
        Starlink::new([1u8; 32], b"/same".to_vec(), b"/same".to_vec()),
        Err(SessionError::Protocol)
    ));
}

#[test]
fn session_dispatch() {
    let a = node(1);
    assert_eq!(a.dispatch(GOSSIP), Some(Handler::Gossip));
    assert_eq!(a.dispatch(BLOBS), Some(Handler::Blobs));
    assert_eq!(a.dispatch(b"/unknown"), None);
}

#[test]
fn save_without_fetch_is_not_found() {
    let mut a = node(1);
    let b = node(2);
    let t = a.shared_file(b"only on a".to_vec()).unwrap();
    assert_eq!(b.save_file(&t), Err(SessionError::NotFound));
    assert!(a.has_blob(&t.hash()));
    assert!(!b.has_blob(&t.hash()));
}

#[test]
fn issue_ticket_for_held_blob() {
    let mut a = node(1);
    let t = a.shared_file(b"held".to_vec()).unwrap();
    let again = a.issue_ticket(&t.hash()).unwrap();
    assert_eq!(again, t);
    assert_eq!(again.format, BlobFormat::Raw);
    assert_eq!(again.owner, a.node_addr());
    assert_eq!(a.issue_ticket(&[0u8; 32]), Err(SessionError::NotFound));
}

#[test]
fn subscribe_records_addresses_and_dials() {
    let mut a = node(1);
    let peers = vec![node(2).node_addr(), node(3).node_addr(), a.node_addr()];
    let dial = a.subscribe_topic([42u8; 32], peers);
    assert_eq!(dial, vec![[2u8; 32], [3u8; 32]]);
    assert!(a.known_addr(&[3u8; 32]).is_some());
    assert!(a.known_addr(&[9u8; 32]).is_none());
}

#[test]
fn leaving_one_topic_keeps_the_other() {
    let mut a = node(1);
    let topic_x = [1u8; 32];
    let topic_y = [2u8; 32];
    a.subscribe_topic(topic_x, vec![node(2).node_addr()]);
    a.subscribe_topic(topic_y, vec![node(3).node_addr()]);
    assert!(a.leave_topic(&topic_x));
    assert!(!a.leave_topic(&topic_x));
    assert_eq!(a.on_neighbor_up(&topic_x, &[4u8; 32]), None);
    assert_eq!(a.on_neighbor_up(&topic_y, &[4u8; 32]), Some(true));
    let (msg, targets) = a.broadcast(&topic_y, b"still here".to_vec()).unwrap();
    assert_eq!(msg.origin, [1u8; 32]);
    assert_eq!(targets, vec![[3u8; 32], [4u8; 32]]);
    assert!(a.broadcast(&topic_x, b"gone".to_vec()).is_none());
}

#[test]
fn gossip_between_sessions() {
    let topic = [7u8; 32];
    let mut a = node(1);
    let mut b = node(2);
    let mut c = node(3);
    c.subscribe_topic(topic, Vec::new());
    a.subscribe_topic(topic, vec![c.node_addr()]);
    b.subscribe_topic(topic, vec![c.node_addr()]);
    c.on_neighbor_up(&topic, &[1u8; 32]);
    c.on_neighbor_up(&topic, &[2u8; 32]);
    let (msg, targets) = a.broadcast(&topic, b"M".to_vec()).unwrap();
    assert_eq!(targets, vec![[3u8; 32]]);
    let at_c = c.on_gossip(&topic, &[1u8; 32], &msg).unwrap();
    assert_eq!(at_c.delivered, vec![(0, b"M".to_vec())]);
    assert_eq!(at_c.forward_to, vec![[2u8; 32]]);
    let at_b = b.on_gossip(&topic, &[3u8; 32], &msg).unwrap();
    assert_eq!(at_b.delivered, vec![(0, b"M".to_vec())]);
    assert_eq!(b.on_neighbor_down(&topic, &[1u8; 32]), Some(true));
    assert_eq!(b.on_neighbor_down(&topic, &[1u8; 32]), Some(false));
    assert!(b.on_gossip(&[8u8; 32], &[3u8; 32], &msg).is_none());
}

#[test]
fn address_of_sharing_node_is_in_ticket() {
    let mut a = node(1);
    a.set_local_addresses(Some(b"https://relay/".to_vec()), Vec::new());
    let t = a.shared_file(Vec::new()).unwrap();
    assert_eq!(t.node_addr().relay, Some(b"https://relay/".to_vec()));
    assert_eq!(
        t.node_addr(),
        &NodeAddress { id: [1u8; 32], relay: Some(b"https://relay/".to_vec()), direct: Vec::new() }
    );
}

#[test]
fn session_tags() {
    let mut a = node(1);
    let t = a.shared_file(b"tagged".to_vec()).unwrap();
    assert_eq!(a.set_tag("doc".to_string(), &t.hash()), Ok(()));
    assert_eq!(a.tagged_blob(&"doc".to_string()), Some(t.hash()));
    assert_eq!(a.set_tag("doc".to_string(), &[5u8; 32]), Err(SessionError::NotFound));
    assert_eq!(a.tagged_blob(&"doc".to_string()), Some(t.hash()));
}

#[test]
fn restored_blob_is_held_once() {
    let mut a = node(1);
    let h = a.put(b"kept on disk".to_vec(), BlobFormat::Raw);
    let again = a.put(b"kept on disk".to_vec(), BlobFormat::Raw);
    assert_eq!(h, again);
    assert!(a.has_blob(&h));
    let t = a.issue_ticket(&h).unwrap();
    assert_eq!(a.save_file(&t), Ok(b"kept on disk".to_vec()));
}
