use zinnia_peer::behaviour::{RequestResponse, RequestResponseEvent, RequestResponseMessage};
use zinnia_peer::handler::RequestResponseHandlerEvent;
use zinnia_peer::types::{OutboundFailure, RequestResponseConfig};

fn manager() -> RequestResponse {
    RequestResponse::new(RequestResponseConfig::default())
}

#[test]
fn ping_behaviour_starts_fresh() {
    let config = RequestResponseConfig { connection_keep_alive: 111, request_timeout: 222 };
    let mut m = zinnia_peer::ping::new(config);
    assert_eq!(m.config.connection_keep_alive, 111);
    assert_eq!(m.config.request_timeout, 222);
    assert_eq!(m.next_request_id, 1);
    assert!(m.next_event().is_none());
    assert!(m.next_delivery().is_none());
    let defaults = RequestResponseConfig::default();
    assert_eq!(defaults.connection_keep_alive, 10000);
    assert_eq!(defaults.request_timeout, 10000);
}

#[test]
fn request_ids_are_distinct_and_increasing() {
    let mut m = manager();
    let r1 = m.send_request(10, vec![b"/a".to_vec()], vec![1]);
    let r2 = m.send_request(10, vec![b"/a".to_vec()], vec![2]);
    let r3 = m.send_request(11, vec![b"/a".to_vec()], vec![3]);
    assert_eq!(r1, 1);
    assert_eq!(r2, 2);
    assert_eq!(r3, 3);
    assert!(r1 < r2 && r2 < r3);
}

#[test]
fn add_address_is_idempotent_and_additive() {
    let mut m = manager();
    m.add_address(7, b"/ip4/127.0.0.1/tcp/4001".to_vec());
    m.add_address(7, b"/ip4/127.0.0.1/tcp/4001".to_vec());
    m.add_address(7, b"/ip4/10.0.0.1/tcp/4001".to_vec());
    let addrs = m.addresses_of(7);
    assert_eq!(addrs.len(), 2);
    assert_eq!(addrs[0], b"/ip4/127.0.0.1/tcp/4001".to_vec());
    assert_eq!(addrs[1], b"/ip4/10.0.0.1/tcp/4001".to_vec());
    assert!(m.addresses_of(8).is_empty());
}

#[test]
fn request_to_unconnected_peer_waits_for_the_connection() {
    let mut m = manager();
    let rid = m.send_request(5, vec![b"/p".to_vec()], vec![9, 9]);
    // Nothing to deliver yet: no connection exists.
    assert!(m.next_delivery().is_none());
    m.on_connection_established(5);
    let delivery = m.next_delivery().expect("the queued request must be handed over");
    assert_eq!(delivery.peer, 5);
    assert_eq!(delivery.request.request_id, rid);
    assert_eq!(delivery.request.payload, vec![9, 9]);
}

#[test]
fn response_event_settles_the_request_exactly_once() {
    let mut m = manager();
    m.on_connection_established(5);
    let rid = m.send_request(5, vec![b"/p".to_vec()], vec![1]);
    let _ = m.next_delivery();
    m.on_handler_event(5, RequestResponseHandlerEvent::Response {
        request_id: rid,
        response: vec![8, 8],
    });
    match m.next_event().expect("a terminal event is owed") {
        RequestResponseEvent::Message { peer, message: RequestResponseMessage::Response { request_id, response } } => {
            assert_eq!(peer, 5);
            assert_eq!(request_id, rid);
            assert_eq!(response, vec![8, 8]);
        }
        other => panic!("expected the response, got {other:?}"),
    }
    // A duplicate terminal report for the same identifier is ignored: the
    // request is settled and no second event appears.
    m.on_handler_event(5, RequestResponseHandlerEvent::Response {
        request_id: rid,
        response: vec![0],
    });
    m.on_handler_event(5, RequestResponseHandlerEvent::OutboundTimeout(rid));
    assert!(m.next_event().is_none());
}

#[test]
fn timeout_event_fails_the_request() {
    let mut m = manager();
    m.on_connection_established(5);
    let rid = m.send_request(5, vec![b"/p".to_vec()], vec![1]);
    m.on_handler_event(5, RequestResponseHandlerEvent::OutboundTimeout(rid));
    match m.next_event().expect("a terminal event is owed") {
        RequestResponseEvent::OutboundFailure { request_id, error, .. } => {
            assert_eq!(request_id, rid);
            assert_eq!(error, OutboundFailure::Timeout);
        }
        other => panic!("expected an outbound failure, got {other:?}"),
    }
}

#[test]
fn unsupported_protocols_event_fails_the_request() {
    let mut m = manager();
    m.on_connection_established(5);
    let rid = m.send_request(5, vec![b"/p".to_vec()], vec![1]);
    m.on_handler_event(5, RequestResponseHandlerEvent::OutboundUnsupportedProtocols(rid));
    match m.next_event().expect("a terminal event is owed") {
        RequestResponseEvent::OutboundFailure { request_id, error, .. } => {
            assert_eq!(request_id, rid);
            assert_eq!(error, OutboundFailure::UnsupportedProtocols);
        }
        other => panic!("expected an outbound failure, got {other:?}"),
    }
}

#[test]
fn closing_the_connection_fails_every_outstanding_request() {
    let mut m = manager();
    m.on_connection_established(5);
    let r1 = m.send_request(5, vec![b"/p".to_vec()], vec![1]);
    let r2 = m.send_request(5, vec![b"/p".to_vec()], vec![2]);
    m.on_connection_closed(5);
    let mut failed = Vec::new();
    while let Some(event) = m.next_event() {
        match event {
            RequestResponseEvent::OutboundFailure { request_id, error, peer } => {
                assert_eq!(peer, 5);
                assert_eq!(error, OutboundFailure::ConnectionClosed);
                failed.push(request_id);
            }
            other => panic!("expected only connection-closed failures, got {other:?}"),
        }
    }
    failed.sort();
    assert_eq!(failed, vec![r1, r2]);
    assert!(!m.is_connected(5));
}

#[test]
fn dial_failure_fails_requests_waiting_for_the_connection() {
    let mut m = manager();
    let rid = m.send_request(6, vec![b"/p".to_vec()], vec![1]);
    m.on_dial_failure(6);
    match m.next_event().expect("a terminal event is owed") {
        RequestResponseEvent::OutboundFailure { request_id, error, .. } => {
            assert_eq!(request_id, rid);
            assert_eq!(error, OutboundFailure::DialFailure);
        }
        other => panic!("expected an outbound failure, got {other:?}"),
    }
}

#[test]
fn inbound_failure_is_informational_only() {
    let mut m = manager();
    m.on_connection_established(5);
    let rid = m.send_request(5, vec![b"/p".to_vec()], vec![1]);
    m.on_handler_event(5, RequestResponseHandlerEvent::InboundTimeout);
    match m.next_event().expect("the inbound failure is reported") {
        RequestResponseEvent::InboundFailure { peer, .. } => assert_eq!(peer, 5),
        other => panic!("expected an inbound failure, got {other:?}"),
    }
    // The unrelated outbound request is untouched and still completes.
    m.on_handler_event(5, RequestResponseHandlerEvent::Response {
        request_id: rid,
        response: vec![3],
    });
    match m.next_event().expect("the response still arrives") {
        RequestResponseEvent::Message { message: RequestResponseMessage::Response { request_id, .. }, .. } => {
            assert_eq!(request_id, rid);
        }
        other => panic!("expected the response, got {other:?}"),
    }
}

#[test]
fn handler_event_for_foreign_request_is_ignored() {
    let mut m = manager();
    m.on_connection_established(5);
    m.on_connection_established(6);
    let rid = m.send_request(5, vec![b"/p".to_vec()], vec![1]);
    // Peer 6's handler cannot settle peer 5's request.
    m.on_handler_event(6, RequestResponseHandlerEvent::Response {
        request_id: rid,
        response: vec![0],
    });
    assert!(m.next_event().is_none());
}
