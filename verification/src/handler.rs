//! The per-connection handler: drives one open connection's substream
//! traffic for the request/response protocol.
//!
//! The handler owns a FIFO queue of not-yet-negotiated outbound requests, a
//! slot for one pending fatal error, and a FIFO queue of outcome events
//! awaiting delivery to the manager. It classifies substream failures —
//! timeout and unsupported-protocol are per-request outcomes, anything else
//! is fatal to the connection — and computes the connection's keep-alive
//! deadline: indefinite while work is queued, otherwise expiring a full
//! grace period (substream timeout plus keep-alive timeout) after the handler
//! last went idle, so that an in-flight negotiation can never be orphaned by
//! connection teardown.

use vstd::prelude::*;

use crate::types::{Millis, OutboundRequest, RequestId, ResponsePayload};

verus! {

/// Keep-alive policy of one connection, as the handler reports it to the
/// connection multiplexer.
#[derive(Clone, Copy, PartialEq, Eq, Structural, Debug)]
pub enum KeepAlive {
    /// The connection must stay open: work is queued or may be in flight.
    Indefinite,
    /// The connection may be closed once the given instant has passed.
    Until(Millis),
}

/// Classification of a failed substream upgrade, as handed to the handler by
/// the connection multiplexer.
#[derive(Clone, Copy, PartialEq, Eq, Structural, Debug)]
pub enum UpgradeFailure {
    /// The substream did not complete within its timeout.
    Timeout,
    /// Protocol negotiation failed: the two sides share no protocol.
    NegotiationFailed,
    /// Any other negotiation or transport error; fatal to the connection.
    Fatal,
}

/// The events a handler emits towards the manager.
#[derive(Clone, Debug)]
pub enum RequestResponseHandlerEvent {
    /// A response has been received for an outbound request.
    Response { request_id: RequestId, response: ResponsePayload },
    /// An outbound request timed out while negotiating the substream or
    /// waiting for the response.
    OutboundTimeout(RequestId),
    /// An outbound request failed to negotiate a mutually supported protocol.
    OutboundUnsupportedProtocols(RequestId),
    /// An inbound substream timed out.
    InboundTimeout,
    /// An inbound substream asked for a protocol this node does not serve.
    InboundUnsupportedProtocols,
}

/// What one turn of the handler asks the connection multiplexer to do.
#[derive(Clone, Debug)]
pub enum HandlerPoll {
    /// Close the connection: a fatal error was recorded. No further request
    /// on this connection can succeed.
    Close(UpgradeFailure),
    /// Deliver this outcome event to the manager.
    Event(RequestResponseHandlerEvent),
    /// Open an outbound substream for this request; negotiation plus exchange
    /// must complete within `timeout`.
    OutboundSubstreamRequest { request: OutboundRequest, timeout: Millis },
    /// Nothing to do this turn.
    Pending,
}

/// A connection handler of the request/response protocol: one per open
/// connection to a peer.
pub struct RequestResponseHandler {
    /// The keep-alive timeout of idle connections. A connection is considered
    /// idle if there are no outbound substreams.
    pub keep_alive_timeout: Millis,
    /// The timeout for a single substream: negotiation plus exchange.
    pub substream_timeout: Millis,
    /// The current connection keep-alive.
    pub keep_alive: KeepAlive,
    /// A pending fatal error that results in the connection being closed.
    pub pending_error: Option<UpgradeFailure>,
    /// Queue of events to emit towards the manager, oldest first.
    pub pending_events: Vec<RequestResponseHandlerEvent>,
    /// Outbound requests waiting to be emitted as substream requests, oldest
    /// first.
    pub outbound: Vec<OutboundRequest>,
}

impl RequestResponseHandler {
    /// The handler's invariant: while requests are queued the connection is
    /// pinned open — the keep-alive is never a finite deadline with work in
    /// the queue.
    pub open spec fn wf(self) -> bool {
        self.outbound@.len() > 0 ==> self.keep_alive == KeepAlive::Indefinite
    }

    /// Whether the handler has nothing left to hand out: no fatal error, no
    /// queued events, no queued requests.
    pub open spec fn is_idle(self) -> bool {
        &&& self.pending_error is None
        &&& self.pending_events@.len() == 0
        &&& self.outbound@.len() == 0
    }

    /// A fresh handler for a just-established connection: empty queues, no
    /// pending error, pinned open until its first idle turn.
    pub fn new(keep_alive_timeout: Millis, substream_timeout: Millis) -> (r:
        RequestResponseHandler)
        ensures
            r.keep_alive_timeout == keep_alive_timeout,
            r.substream_timeout == substream_timeout,
            r.keep_alive == KeepAlive::Indefinite,
            r.pending_error is None,
            r.pending_events@.len() == 0,
            r.outbound@.len() == 0,
            r.wf(),
    {
        RequestResponseHandler {
            keep_alive_timeout,
            substream_timeout,
            keep_alive: KeepAlive::Indefinite,
            pending_error: None,
            pending_events: Vec::new(),
            outbound: Vec::new(),
        }
    }

    /// Accept one outbound request from the manager: enqueue it and pin the
    /// connection open — a connection with queued or in-flight work must not
    /// be closed.
    pub fn on_behaviour_event(&mut self, request: OutboundRequest)
        ensures
            final(self).outbound@ == old(self).outbound@.push(request),
            final(self).keep_alive == KeepAlive::Indefinite,
            final(self).pending_events@ == old(self).pending_events@,
            final(self).pending_error == old(self).pending_error,
            final(self).keep_alive_timeout == old(self).keep_alive_timeout,
            final(self).substream_timeout == old(self).substream_timeout,
            final(self).wf(),
    {
        self.keep_alive = KeepAlive::Indefinite;
        self.outbound.push(request);
    }

    /// Classify a failed outbound substream upgrade. A timeout or a failed
    /// negotiation is a per-request outcome, queued as an event; anything
    /// else is recorded as the pending fatal error and will close the
    /// connection on the next turn.
    pub fn on_dial_upgrade_error(&mut self, request_id: RequestId, error: UpgradeFailure)
        ensures
            match error {
                UpgradeFailure::Timeout => {
                    &&& final(self).pending_events@ == old(self).pending_events@.push(
                        RequestResponseHandlerEvent::OutboundTimeout(request_id),
                    )
                    &&& final(self).pending_error == old(self).pending_error
                },
                UpgradeFailure::NegotiationFailed => {
                    &&& final(self).pending_events@ == old(self).pending_events@.push(
                        RequestResponseHandlerEvent::OutboundUnsupportedProtocols(request_id),
                    )
                    &&& final(self).pending_error == old(self).pending_error
                },
                UpgradeFailure::Fatal => {
                    &&& final(self).pending_events@ == old(self).pending_events@
                    &&& final(self).pending_error == Some(UpgradeFailure::Fatal)
                },
            },
            final(self).outbound@ == old(self).outbound@,
            final(self).keep_alive == old(self).keep_alive,
            final(self).keep_alive_timeout == old(self).keep_alive_timeout,
            final(self).substream_timeout == old(self).substream_timeout,
            old(self).wf() ==> final(self).wf(),
    {
        match error {
            UpgradeFailure::Timeout => {
                self.pending_events.push(RequestResponseHandlerEvent::OutboundTimeout(request_id));
            },
            UpgradeFailure::NegotiationFailed => {
                // The remote merely does not support the protocols we
                // offered. The connection may successfully serve other
                // protocols, so it stays open; an event lets the layer above
                // react.
                self.pending_events.push(
                    RequestResponseHandlerEvent::OutboundUnsupportedProtocols(request_id),
                );
            },
            UpgradeFailure::Fatal => {
                // Anything else is misbehaviour of the remote peer and closes
                // the connection.
                self.pending_error = Some(UpgradeFailure::Fatal);
            },
        }
    }

    /// Classify a failed inbound substream upgrade. This node serves no
    /// inbound requests, so both outcomes are informational only; a fatal
    /// inbound error cannot arise because no inbound upgrade is ever started.
    pub fn on_listen_upgrade_error(&mut self, error: UpgradeFailure)
        requires
            error != UpgradeFailure::Fatal,
        ensures
            match error {
                UpgradeFailure::Timeout => final(self).pending_events@ == old(
                    self,
                ).pending_events@.push(RequestResponseHandlerEvent::InboundTimeout),
                UpgradeFailure::NegotiationFailed => final(self).pending_events@ == old(
                    self,
                ).pending_events@.push(RequestResponseHandlerEvent::InboundUnsupportedProtocols),
                UpgradeFailure::Fatal => false,
            },
            final(self).outbound@ == old(self).outbound@,
            final(self).pending_error == old(self).pending_error,
            final(self).keep_alive == old(self).keep_alive,
            final(self).keep_alive_timeout == old(self).keep_alive_timeout,
            final(self).substream_timeout == old(self).substream_timeout,
            old(self).wf() ==> final(self).wf(),
    {
        match error {
            UpgradeFailure::Timeout => {
                self.pending_events.push(RequestResponseHandlerEvent::InboundTimeout);
            },
            UpgradeFailure::NegotiationFailed => {
                // The local peer serves no protocols at all; report it so the
                // layer above can observe the attempt. The connection stays
                // open.
                self.pending_events.push(
                    RequestResponseHandlerEvent::InboundUnsupportedProtocols,
                );
            },
            UpgradeFailure::Fatal => {
                proof {
                    assert(false);
                }
            },
        }
    }

    /// Record the successful outcome of an outbound substream: the peer's
    /// response bytes, queued as an event towards the manager.
    pub fn on_fully_negotiated_outbound(&mut self, request_id: RequestId, response:
        ResponsePayload)
        ensures
            final(self).pending_events@ == old(self).pending_events@.push(
                RequestResponseHandlerEvent::Response { request_id, response },
            ),
            final(self).outbound@ == old(self).outbound@,
            final(self).pending_error == old(self).pending_error,
            final(self).keep_alive == old(self).keep_alive,
            final(self).keep_alive_timeout == old(self).keep_alive_timeout,
            final(self).substream_timeout == old(self).substream_timeout,
            old(self).wf() ==> final(self).wf(),
    {
        self.pending_events.push(RequestResponseHandlerEvent::Response { request_id, response });
    }

    /// The keep-alive the handler currently reports to the multiplexer.
    pub fn connection_keep_alive(&self) -> (r: KeepAlive)
        ensures
            r == self.keep_alive,
    {
        self.keep_alive
    }

    /// One turn of the handler, at instant `now`. In order of priority:
    /// a pending fatal error closes the connection; then queued events are
    /// drained oldest first; then queued requests are emitted as substream
    /// requests oldest first. Only when all of those are empty is the handler
    /// idle, and only then is a finite keep-alive deadline computed: `now`
    /// plus the substream timeout plus the keep-alive timeout, so the grace
    /// period always exceeds the longest possible in-flight negotiation.
    pub fn poll(&mut self, now: Millis) -> (r: HandlerPoll)
        requires
            old(self).is_idle() && old(self).keep_alive == KeepAlive::Indefinite ==> now + old(
                self,
            ).substream_timeout + old(self).keep_alive_timeout <= Millis::MAX,
        ensures
            final(self).keep_alive_timeout == old(self).keep_alive_timeout,
            final(self).substream_timeout == old(self).substream_timeout,
            match old(self).pending_error {
                Some(err) => {
                    &&& r == HandlerPoll::Close(err)
                    &&& final(self).pending_error is None
                    &&& final(self).pending_events@ == old(self).pending_events@
                    &&& final(self).outbound@ == old(self).outbound@
                    &&& final(self).keep_alive == old(self).keep_alive
                },
                None => if old(self).pending_events@.len() > 0 {
                    &&& r == HandlerPoll::Event(old(self).pending_events@[0])
                    &&& final(self).pending_events@ == old(self).pending_events@.skip(1)
                    &&& final(self).pending_error is None
                    &&& final(self).outbound@ == old(self).outbound@
                    &&& final(self).keep_alive == old(self).keep_alive
                } else if old(self).outbound@.len() > 0 {
                    &&& r == HandlerPoll::OutboundSubstreamRequest {
                        request: old(self).outbound@[0],
                        timeout: old(self).substream_timeout,
                    }
                    &&& final(self).outbound@ == old(self).outbound@.skip(1)
                    &&& final(self).pending_error is None
                    &&& final(self).pending_events@ == old(self).pending_events@
                    &&& final(self).keep_alive == old(self).keep_alive
                } else {
                    &&& r == HandlerPoll::Pending
                    &&& final(self).pending_error is None
                    &&& final(self).pending_events@ == old(self).pending_events@
                    &&& final(self).outbound@ == old(self).outbound@
                    &&& final(self).keep_alive == (match old(self).keep_alive {
                        KeepAlive::Indefinite => KeepAlive::Until(
                            (now + old(self).substream_timeout + old(self).keep_alive_timeout)
                                as Millis,
                        ),
                        KeepAlive::Until(t) => KeepAlive::Until(t),
                    })
                },
            },
            old(self).wf() ==> final(self).wf(),
    {
        // A pending fatal error closes the connection; the handler will not
        // be polled again.
        if self.pending_error.is_some() {
            let err = self.pending_error.take().unwrap();
            return HandlerPoll::Close(err);
        }
        // Drain pending events, oldest first.
        if self.pending_events.len() > 0 {
            let event = self.pending_events.remove(0);
            return HandlerPoll::Event(event);
        }
        // Emit outbound substream requests, oldest first.
        if self.outbound.len() > 0 {
            let request = self.outbound.remove(0);
            let timeout = self.substream_timeout;
            return HandlerPoll::OutboundSubstreamRequest { request, timeout };
        }
        // Idle. A just-emitted substream may still be negotiating, so the
        // keep-alive deadline is preceded by a full substream timeout.
        if matches!(self.keep_alive, KeepAlive::Indefinite) {
            let until = now + self.substream_timeout + self.keep_alive_timeout;
            self.keep_alive = KeepAlive::Until(until);
        }
        HandlerPoll::Pending
    }
}

/// Keep-alive correctness, first half: a handler observing its invariant
/// never reports a finite keep-alive deadline while a request is queued, so
/// the connection cannot be closed by idle-timeout with work outstanding.
pub proof fn lemma_no_finite_keep_alive_with_queued_work(h: RequestResponseHandler)
    requires
        h.wf(),
        h.outbound@.len() > 0,
    ensures
        h.keep_alive == KeepAlive::Indefinite,
{
}

} // verus!
