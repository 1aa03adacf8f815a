use zinnia_peer::handler::{
    HandlerPoll, KeepAlive, RequestResponseHandler, RequestResponseHandlerEvent, UpgradeFailure,
};
use zinnia_peer::types::OutboundRequest;

fn request(id: u64) -> OutboundRequest {
    OutboundRequest { request_id: id, protocols: vec![b"/ipfs/ping/1.0.0".to_vec()], payload: vec![7; 32] }
}

#[test]
fn fresh_handler_keeps_connection_open() {
    let handler = RequestResponseHandler::new(1000, 2000);
    assert!(matches!(handler.connection_keep_alive(), KeepAlive::Indefinite));
}

#[test]
fn queued_request_is_emitted_fifo_with_timeout() {
    let mut handler = RequestResponseHandler::new(1000, 2000);
    handler.on_behaviour_event(request(1));
    handler.on_behaviour_event(request(2));
    match handler.poll(0) {
        HandlerPoll::OutboundSubstreamRequest { request, timeout } => {
            assert_eq!(request.request_id, 1);
            assert_eq!(timeout, 2000);
        }
        other => panic!("expected a substream request, got {other:?}"),
    }
    match handler.poll(0) {
        HandlerPoll::OutboundSubstreamRequest { request, .. } => {
            assert_eq!(request.request_id, 2);
        }
        other => panic!("expected a substream request, got {other:?}"),
    }
}

#[test]
fn keep_alive_stays_indefinite_while_work_is_queued() {
    let mut handler = RequestResponseHandler::new(1000, 2000);
    handler.on_behaviour_event(request(1));
    assert!(matches!(handler.connection_keep_alive(), KeepAlive::Indefinite));
    // Popping the only request leaves the keep-alive untouched this turn.
    let _ = handler.poll(0);
    assert!(matches!(handler.connection_keep_alive(), KeepAlive::Indefinite));
}

#[test]
fn idle_handler_sets_full_grace_deadline() {
    let mut handler = RequestResponseHandler::new(1000, 2000);
    handler.on_behaviour_event(request(1));
    let _ = handler.poll(0);
    // Idle now: the deadline must cover a full substream timeout plus the
    // keep-alive timeout past `now`.
    assert!(matches!(handler.poll(500), HandlerPoll::Pending));
    match handler.connection_keep_alive() {
        KeepAlive::Until(t) => assert_eq!(t, 500 + 2000 + 1000),
        other => panic!("expected a finite deadline, got {other:?}"),
    }
    // A later idle turn does not move the deadline.
    assert!(matches!(handler.poll(900), HandlerPoll::Pending));
    assert!(matches!(handler.connection_keep_alive(), KeepAlive::Until(3500)));
}

#[test]
fn timeout_is_a_per_request_outcome() {
    let mut handler = RequestResponseHandler::new(1000, 2000);
    handler.on_dial_upgrade_error(9, UpgradeFailure::Timeout);
    match handler.poll(0) {
        HandlerPoll::Event(RequestResponseHandlerEvent::OutboundTimeout(id)) => assert_eq!(id, 9),
        other => panic!("expected an outbound timeout event, got {other:?}"),
    }
    // The connection survives: the next turn is quiet, not a close.
    assert!(matches!(handler.poll(0), HandlerPoll::Pending));
}

#[test]
fn failed_negotiation_is_a_per_request_outcome() {
    let mut handler = RequestResponseHandler::new(1000, 2000);
    handler.on_dial_upgrade_error(4, UpgradeFailure::NegotiationFailed);
    match handler.poll(0) {
        HandlerPoll::Event(RequestResponseHandlerEvent::OutboundUnsupportedProtocols(id)) => {
            assert_eq!(id, 4)
        }
        other => panic!("expected an unsupported-protocols event, got {other:?}"),
    }
    assert!(matches!(handler.poll(0), HandlerPoll::Pending));
}

#[test]
fn fatal_upgrade_error_closes_the_connection() {
    let mut handler = RequestResponseHandler::new(1000, 2000);
    handler.on_dial_upgrade_error(4, UpgradeFailure::Fatal);
    assert!(matches!(handler.poll(0), HandlerPoll::Close(UpgradeFailure::Fatal)));
}

#[test]
fn inbound_attempts_are_reported_and_never_close() {
    let mut handler = RequestResponseHandler::new(1000, 2000);
    handler.on_listen_upgrade_error(UpgradeFailure::NegotiationFailed);
    handler.on_listen_upgrade_error(UpgradeFailure::Timeout);
    assert!(matches!(
        handler.poll(0),
        HandlerPoll::Event(RequestResponseHandlerEvent::InboundUnsupportedProtocols)
    ));
    assert!(matches!(
        handler.poll(0),
        HandlerPoll::Event(RequestResponseHandlerEvent::InboundTimeout)
    ));
    assert!(matches!(handler.poll(0), HandlerPoll::Pending));
}

#[test]
fn response_is_queued_as_event() {
    let mut handler = RequestResponseHandler::new(1000, 2000);
    handler.on_fully_negotiated_outbound(3, vec![1, 2, 3]);
    match handler.poll(0) {
        HandlerPoll::Event(RequestResponseHandlerEvent::Response { request_id, response }) => {
            assert_eq!(request_id, 3);
            assert_eq!(response, vec![1, 2, 3]);
        }
        other => panic!("expected a response event, got {other:?}"),
    }
}
