use zinnia_peer::codec::{read_response, write_request, StreamHalf};
use zinnia_peer::event_loop::{
    Command, CommandEffect, EventEffect, EventLoop, NetworkEvent, Resolution,
};
use zinnia_peer::handler::{HandlerPoll, RequestResponseHandler, RequestResponseHandlerEvent};
use zinnia_peer::ping::{new_ping_payload, ping_protocol_name, PING_SIZE};
use zinnia_peer::types::{OutboundFailure, RequestResponseConfig};

fn event_loop() -> EventLoop {
    EventLoop::new(RequestResponseConfig::default())
}

#[test]
fn dial_to_connected_peer_is_a_no_op() {
    let mut el = event_loop();
    let effect = el.handle_command(Command::Dial { peer: 1, address: b"/ip4/1.2.3.4/tcp/1".to_vec() });
    assert!(matches!(effect, CommandEffect::StartDial { peer: 1, .. }));
    let effect = el.handle_network_event(NetworkEvent::ConnectionEstablished { peer: 1, dialer: true });
    assert!(matches!(effect, EventEffect::ResolveDialOk { peer: 1 }));
    // Dialing an already-connected peer resolves at once and starts nothing.
    let effect = el.handle_command(Command::Dial { peer: 1, address: b"/ip4/1.2.3.4/tcp/1".to_vec() });
    assert!(matches!(effect, CommandEffect::DialAlreadyConnected));
    assert!(el.pending_dial.is_empty());
}

#[test]
fn second_dial_while_pending_is_rejected() {
    let mut el = event_loop();
    let effect = el.handle_command(Command::Dial { peer: 1, address: b"/a".to_vec() });
    assert!(matches!(effect, CommandEffect::StartDial { .. }));
    let effect = el.handle_command(Command::Dial { peer: 1, address: b"/a".to_vec() });
    assert!(matches!(effect, CommandEffect::DialAlreadyPending));
}

#[test]
fn inbound_connection_does_not_answer_a_pending_dial() {
    let mut el = event_loop();
    let effect = el.handle_command(Command::Dial { peer: 4, address: b"/a".to_vec() });
    assert!(matches!(effect, CommandEffect::StartDial { .. }));
    // The peer connects to us first; our own dial attempt is still out.
    let effect = el.handle_network_event(NetworkEvent::ConnectionEstablished { peer: 4, dialer: false });
    assert!(matches!(effect, EventEffect::NoEffect));
    assert_eq!(el.pending_dial, vec![4]);
    // Our attempt then reports; the pending dial resolves exactly once.
    let effect = el.handle_network_event(NetworkEvent::ConnectionEstablished { peer: 4, dialer: true });
    assert!(matches!(effect, EventEffect::ResolveDialOk { peer: 4 }));
    assert!(el.pending_dial.is_empty());
}

#[test]
fn unreachable_peer_resolves_dial_with_failure() {
    let mut el = event_loop();
    let effect = el.handle_command(Command::Dial { peer: 3, address: b"/ip4/127.0.0.1/tcp/10".to_vec() });
    assert!(matches!(effect, CommandEffect::StartDial { peer: 3, .. }));
    let effect = el.handle_network_event(NetworkEvent::OutgoingConnectionError { peer: Some(3) });
    assert!(matches!(effect, EventEffect::ResolveDialFailed { peer: 3 }));
    // The dial is no longer pending; a retry may start a fresh attempt.
    let effect = el.handle_command(Command::Dial { peer: 3, address: b"/ip4/127.0.0.1/tcp/10".to_vec() });
    assert!(matches!(effect, CommandEffect::StartDial { peer: 3, .. }));
}

#[test]
fn successful_exchange_echoes_the_payload() {
    let mut el = event_loop();
    // Dial peer A; the transport reports the connection established.
    let effect = el.handle_command(Command::Dial { peer: 42, address: b"/ip4/9.9.9.9/tcp/3030".to_vec() });
    assert!(matches!(effect, CommandEffect::StartDial { peer: 42, .. }));
    let effect = el.handle_network_event(NetworkEvent::ConnectionEstablished { peer: 42, dialer: true });
    assert!(matches!(effect, EventEffect::ResolveDialOk { peer: 42 }));

    // Send 32 bytes of payload under the ping protocol.
    let payload = new_ping_payload();
    assert_eq!(payload.len(), PING_SIZE);
    let effect = el.handle_command(Command::Request {
        peer: 42,
        protocol: ping_protocol_name(),
        payload: payload.clone(),
    });
    let request_id = match effect {
        CommandEffect::RequestIssued { request_id } => request_id,
        other => panic!("expected the request to be issued, got {other:?}"),
    };

    // The runtime hands the request to the connection's handler.
    let delivery = el.next_delivery().expect("the request must be delivered");
    assert_eq!(delivery.peer, 42);
    let mut handler = RequestResponseHandler::new(
        el.manager.config.connection_keep_alive,
        el.manager.config.request_timeout,
    );
    handler.on_behaviour_event(delivery.request);
    let request = match handler.poll(0) {
        HandlerPoll::OutboundSubstreamRequest { request, .. } => request,
        other => panic!("expected a substream request, got {other:?}"),
    };
    assert_eq!(request.request_id, request_id);
    assert_eq!(request.protocols[0], ping_protocol_name());

    // The codec writes the request onto the substream; the remote echoes
    // everything back, and reading until stream-close yields it.
    let mut outbound_half = StreamHalf::new();
    write_request(&mut outbound_half, &request.payload);
    let echoed = read_response(&outbound_half).expect("the write side was shut down");
    assert_eq!(echoed, payload);
    let mut inbound_half = StreamHalf::new();
    write_request(&mut inbound_half, &echoed);
    let response = read_response(&inbound_half).expect("the remote closed its side");

    // The handler reports the response; the manager relays it; the loop
    // resolves the caller's completion with the exact bytes.
    handler.on_fully_negotiated_outbound(request_id, response);
    match handler.poll(0) {
        HandlerPoll::Event(event) => el.manager.on_handler_event(42, event),
        other => panic!("expected the response event, got {other:?}"),
    }
    match el.next_resolution().expect("the exchange is terminal") {
        Resolution::RespondOk { request_id: rid, response } => {
            assert_eq!(rid, request_id);
            assert_eq!(response, payload);
        }
        other => panic!("expected a successful resolution, got {other:?}"),
    }
    // Exactly one terminal outcome: nothing further is owed.
    assert!(el.next_resolution().is_none());
}

#[test]
fn teardown_with_pending_request_resolves_connection_closed() {
    let mut el = event_loop();
    let _ = el.handle_command(Command::Dial { peer: 8, address: b"/a".to_vec() });
    let _ = el.handle_network_event(NetworkEvent::ConnectionEstablished { peer: 8, dialer: true });
    let effect = el.handle_command(Command::Request {
        peer: 8,
        protocol: ping_protocol_name(),
        payload: vec![5; 32],
    });
    let request_id = match effect {
        CommandEffect::RequestIssued { request_id } => request_id,
        other => panic!("expected the request to be issued, got {other:?}"),
    };
    // The connection is forcibly closed before the request completes: the
    // caller's completion resolves with ConnectionClosed, it never hangs.
    let _ = el.handle_network_event(NetworkEvent::ConnectionClosed { peer: 8 });
    match el.next_resolution().expect("the pending request must be resolved") {
        Resolution::RespondErr { request_id: rid, error } => {
            assert_eq!(rid, request_id);
            assert_eq!(error, OutboundFailure::ConnectionClosed);
        }
        other => panic!("expected a connection-closed failure, got {other:?}"),
    }
    assert!(el.next_resolution().is_none());
}

#[test]
fn inbound_attempt_leaves_pending_requests_unaffected() {
    let mut el = event_loop();
    let _ = el.handle_command(Command::Dial { peer: 9, address: b"/a".to_vec() });
    let _ = el.handle_network_event(NetworkEvent::ConnectionEstablished { peer: 9, dialer: true });
    let effect = el.handle_command(Command::Request {
        peer: 9,
        protocol: ping_protocol_name(),
        payload: vec![1; 32],
    });
    let request_id = match effect {
        CommandEffect::RequestIssued { request_id } => request_id,
        other => panic!("expected the request to be issued, got {other:?}"),
    };
    // A peer opens an inbound substream for the protocol: it is reported and
    // nothing else happens.
    el.manager.on_handler_event(9, RequestResponseHandlerEvent::InboundUnsupportedProtocols);
    match el.next_resolution().expect("the inbound failure is reported") {
        Resolution::ReportInbound { peer, .. } => assert_eq!(peer, 9),
        other => panic!("expected an inbound report, got {other:?}"),
    }
    // The connection and the unrelated pending request are unaffected.
    assert!(el.manager.is_connected(9));
    el.manager.on_handler_event(9, RequestResponseHandlerEvent::Response {
        request_id,
        response: vec![2],
    });
    match el.next_resolution().expect("the request still completes") {
        Resolution::RespondOk { request_id: rid, .. } => assert_eq!(rid, request_id),
        other => panic!("expected the response, got {other:?}"),
    }
}

#[test]
fn shutdown_closes_the_mailbox() {
    let mut el = event_loop();
    let effect = el.handle_command(Command::Shutdown);
    assert!(matches!(effect, CommandEffect::MailboxClosed));
    assert!(el.mailbox_closed);
}

#[test]
fn ping_payloads_have_the_fixed_size() {
    let a = new_ping_payload();
    let b = zinnia_peer::ping::new_request_payload();
    assert_eq!(a.len(), 32);
    assert_eq!(b.len(), 32);
    assert_eq!(ping_protocol_name(), b"/ipfs/ping/1.0.0".to_vec());
    let protocol = zinnia_peer::ping::PingProtocol;
    assert_eq!(protocol.protocol_name(), b"/ipfs/ping/1.0.0".to_vec());
}
