use starlink::discovery::Resolution;
use starlink::ticket::EndpointAddr;

fn ep(last: u8, port: u16) -> EndpointAddr {
    let mut ip = [0u8; 16];
    ip[15] = last;
    EndpointAddr { ip, port }
}

#[test]
fn one_success_of_three_resolves() {
    let mut r = Resolution::begin([5u8; 32], 3, 1000, 500);
    r.report_failed(0);
    r.report_found(1, None, &vec![ep(1, 4000)]);
    assert!(!r.is_finished(1200));
    assert!(r.is_finished(1500));
    let addr = r.address();
    assert_eq!(addr.id, [5u8; 32]);
    assert_eq!(addr.direct, vec![ep(1, 4000)]);
}

#[test]
fn all_reported_finishes_early() {
    let mut r = Resolution::begin([5u8; 32], 3, 0, 100);
    r.report_failed(0);
    r.report_failed(2);
    r.report_found(1, Some(b"relay".to_vec()), &vec![ep(1, 1)]);
    assert!(r.is_finished(1));
    assert_eq!(r.address().relay, Some(b"relay".to_vec()));
}

#[test]
fn zero_candidates_still_yields_address() {
    let mut r = Resolution::begin([5u8; 32], 2, 0, 10);
    r.report_failed(0);
    r.report_failed(1);
    assert!(r.is_finished(0));
    let addr = r.address();
    assert!(addr.direct.is_empty());
    assert_eq!(addr.relay, None);
}

#[test]
fn candidates_are_merged_once_in_order() {
    let mut r = Resolution::begin([5u8; 32], 3, 0, 10);
    r.report_found(0, Some(b"first".to_vec()), &vec![ep(1, 1), ep(2, 2)]);
    r.report_found(2, Some(b"second".to_vec()), &vec![ep(2, 2), ep(3, 3), ep(3, 3)]);
    let addr = r.address();
    assert_eq!(addr.direct, vec![ep(1, 1), ep(2, 2), ep(3, 3)]);
    assert_eq!(addr.relay, Some(b"first".to_vec()));
}

#[test]
fn repeated_and_unknown_reports_change_nothing() {
    let mut r = Resolution::begin([5u8; 32], 1, 0, 10);
    r.report_found(0, None, &vec![ep(1, 1)]);
    r.report_found(0, None, &vec![ep(9, 9)]);
    r.report_found(7, None, &vec![ep(8, 8)]);
    r.report_failed(7);
    assert_eq!(r.address().direct, vec![ep(1, 1)]);
}

#[test]
fn deadline_saturates() {
    let r = Resolution::begin([5u8; 32], 1, u64::MAX - 5, 100);
    assert!(!r.is_finished(u64::MAX - 1));
    assert!(r.is_finished(u64::MAX));
}
