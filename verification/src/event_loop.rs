//! The decision core of the actor that owns the peer connection manager.
//!
//! The surrounding runtime (mailbox, network driver, promises) is an
//! external collaborator: it feeds one command or network event at a time
//! into this state machine and carries out the effect the machine returns —
//! start a dial, resolve a caller's completion, close the mailbox. All
//! decisions live here: whether a dial is redundant, which promise a
//! terminal event resolves, and the pending-dial and pending-request tables
//! themselves.
//!
//! A second dial for a peer whose dial is still pending is rejected at once
//! with its own effect, `DialAlreadyPending`, rather than attached to the
//! outcome of the first: the caller may simply retry once the first dial
//! resolves.

use vstd::prelude::*;

use crate::behaviour::{
    delivery_present, issues_fresh_id, pair_present, queued_for_peer, queued_present, book_has,
    RequestDelivery, RequestResponse, RequestResponseEvent, RequestResponseMessage,
};
use crate::types::{
    clone_bytes, InboundFailure, NetworkAddress, OutboundFailure, PeerId, ProtocolId, RequestId,
    RequestPayload, RequestResponseConfig, ResponsePayload,
};

verus! {

/// A command submitted by an external caller through the mailbox.
#[derive(Clone, Debug)]
pub enum Command {
    /// Connect to `peer` at `address`; resolve when the connection is
    /// established or fails.
    Dial { peer: PeerId, address: NetworkAddress },
    /// Send `payload` to `peer` under `protocol`; resolve with the response
    /// bytes or the request's failure.
    Request { peer: PeerId, protocol: ProtocolId, payload: RequestPayload },
    /// Stop taking new commands; the actor drains what is queued and exits.
    Shutdown,
}

/// What the runtime must do after handing one command to the state machine.
#[derive(Clone, Debug)]
pub enum CommandEffect {
    /// The peer is already connected: resolve the dial's completion with
    /// success at once; no new connection attempt is made.
    DialAlreadyConnected,
    /// A dial for this peer is already pending: resolve the new dial's
    /// completion with an already-dialing error at once.
    DialAlreadyPending,
    /// Start connection establishment to `address`; the dial's completion
    /// was recorded and resolves on the connection's outcome.
    StartDial { peer: PeerId, address: NetworkAddress },
    /// The request was accepted under `request_id`; record the caller's
    /// completion under that identifier.
    RequestIssued { request_id: RequestId },
    /// Close the mailbox.
    MailboxClosed,
}

/// A notification from the connection multiplexer.
#[derive(Clone, Debug)]
pub enum NetworkEvent {
    /// A connection to `peer` is open; `dialer` says whether this side
    /// initiated it.
    ConnectionEstablished { peer: PeerId, dialer: bool },
    /// Connection establishment failed; the peer is known unless the dial
    /// never got far enough to name one.
    OutgoingConnectionError { peer: Option<PeerId> },
    /// The connection to `peer` closed.
    ConnectionClosed { peer: PeerId },
}

/// What the runtime must do after handing one network event to the state
/// machine.
#[derive(Clone, Debug)]
pub enum EventEffect {
    /// Resolve the pending dial of `peer` with success.
    ResolveDialOk { peer: PeerId },
    /// Resolve the pending dial of `peer` with the transport's error.
    ResolveDialFailed { peer: PeerId },
    /// Nothing to resolve.
    NoEffect,
}

/// What the runtime must do with one event drained from the manager.
#[derive(Clone, Debug)]
pub enum Resolution {
    /// Resolve the completion of `request_id` with the response bytes.
    RespondOk { request_id: RequestId, response: ResponsePayload },
    /// Resolve the completion of `request_id` with the failure.
    RespondErr { request_id: RequestId, error: OutboundFailure },
    /// Report the refused inbound attempt; nothing is resolved.
    ReportInbound { peer: PeerId, error: InboundFailure },
}

/// Remove `x` from a duplicate-free list of identifiers, if present.
#[verifier::loop_isolation(false)]
fn remove_id(v: &mut Vec<u64>, x: u64) -> (found: bool)
    requires
        old(v)@.no_duplicates(),
    ensures
        found == old(v)@.contains(x),
        final(v)@.no_duplicates(),
        !final(v)@.contains(x),
        forall|y: u64| y != x ==> final(v)@.contains(y) == old(v)@.contains(y),
        if found {
            final(v)@.len() == old(v)@.len() - 1
        } else {
            final(v)@ == old(v)@
        },
{
    let mut i: usize = 0;
    while i < v.len()
        invariant
            i <= v@.len(),
            forall|k: int| 0 <= k < i ==> v@[k] != x,
            *v == *old(v),
        decreases v@.len() - i,
    {
        if v[i] == x {
            proof {
                let s = old(v)@;
                s.remove_ensures(i as int);
                assert(s.contains(x)) by {
                    assert(s[i as int] == x);
                }
            }
            v.remove(i);
            proof {
                let s = old(v)@;
                assert(v@ == s.remove(i as int));
                assert(!v@.contains(x)) by {
                    if v@.contains(x) {
                        let k = choose|k: int| 0 <= k < v@.len() && v@[k] == x;
                        if k < i {
                            assert(s[k] == x && s[i as int] == x);
                        } else {
                            assert(s[k + 1] == x && s[i as int] == x);
                        }
                    }
                }
                assert forall|y: u64| y != x implies v@.contains(y) == s.contains(y) by {
                    if s.contains(y) {
                        let k = choose|k: int| 0 <= k < s.len() && s[k] == y;
                        if k < i {
                            assert(v@[k] == y);
                        } else {
                            assert(k != i);
                            assert(v@[k - 1] == y);
                        }
                    }
                    if v@.contains(y) {
                        let k = choose|k: int| 0 <= k < v@.len() && v@[k] == y;
                        if k < i {
                            assert(s[k] == y);
                        } else {
                            assert(s[k + 1] == y);
                        }
                    }
                }
                assert(v@.no_duplicates()) by {
                    assert forall|a: int, b: int| 0 <= a < b < v@.len() implies v@[a] != v@[b] by {
                        let a2: int = if a < i {
                            a
                        } else {
                            a + 1
                        };
                        let b2: int = if b < i {
                            b
                        } else {
                            b + 1
                        };
                        assert(v@[a] == s[a2] && v@[b] == s[b2]);
                    }
                }
            }
            return true;
        }
        i = i + 1;
    }
    proof {
        assert(!v@.contains(x)) by {
            if v@.contains(x) {
                let k = choose|k: int| 0 <= k < v@.len() && v@[k] == x;
            }
        }
    }
    false
}

/// The event loop's state: the manager it owns and the tables of not yet
/// resolved completions.
pub struct EventLoop {
    /// The peer connection manager, exclusively owned by this state machine.
    pub manager: RequestResponse,
    /// Peers with an outstanding dial completion, each at most once: at most
    /// one pending dial per peer at a time.
    pub pending_dial: Vec<PeerId>,
    /// Requests with an outstanding caller completion, each at most once.
    /// An entry is created when the request is accepted and removed exactly
    /// once, on its terminal outcome.
    pub pending_requests: Vec<RequestId>,
    /// Whether the mailbox has been closed by a shutdown command.
    pub mailbox_closed: bool,
}

impl EventLoop {
    /// The event loop's invariant: the manager is well formed, each table is
    /// duplicate-free, and every request the manager still owes a terminal
    /// event has a live completion — so a terminal event always finds its
    /// promise, and a request is never left without an answer while the
    /// loop runs.
    pub open spec fn wf(self) -> bool {
        &&& self.manager.wf()
        &&& self.pending_dial@.no_duplicates()
        &&& self.pending_requests@.no_duplicates()
        &&& (forall|r: RequestId|
            self.manager.unsettled(r) ==> self.pending_requests@.contains(r))
        &&& (forall|k: int|
            0 <= k < self.pending_requests@.len() ==> self.pending_requests@[k]
                < self.manager.next_request_id)
    }

    /// A fresh event loop around a fresh manager.
    pub fn new(config: RequestResponseConfig) -> (r: EventLoop)
        ensures
            r.wf(),
            r.manager.config == config,
            r.manager.next_request_id == 1,
            r.pending_dial@.len() == 0,
            r.pending_requests@.len() == 0,
            !r.mailbox_closed,
    {
        EventLoop {
            manager: RequestResponse::new(config),
            pending_dial: Vec::new(),
            pending_requests: Vec::new(),
            mailbox_closed: false,
        }
    }

    /// Whether a dial for `peer` is pending.
    fn dial_is_pending(&self, peer: PeerId) -> (r: bool)
        ensures
            r == self.pending_dial@.contains(peer),
    {
        let mut i: usize = 0;
        while i < self.pending_dial.len()
            invariant
                i <= self.pending_dial@.len(),
                forall|k: int| 0 <= k < i ==> self.pending_dial@[k] != peer,
            decreases self.pending_dial@.len() - i,
        {
            if self.pending_dial[i] == peer {
                return true;
            }
            i = i + 1;
        }
        proof {
            assert(!self.pending_dial@.contains(peer)) by {
                if self.pending_dial@.contains(peer) {
                    let k = choose|k: int|
                        0 <= k < self.pending_dial@.len() && self.pending_dial@[k] == peer;
                }
            }
        }
        false
    }

    /// Process one command from the mailbox and say what the runtime must do
    /// with it.
    ///
    /// A dial for an already-connected peer resolves successfully at once
    /// and initiates no new connection attempt and no state change. A dial
    /// for a peer whose dial is still pending is rejected at once. Any other
    /// dial registers the address, records the completion, and starts
    /// connection establishment. A request is accepted unconditionally: it
    /// gets the next identifier and its completion is recorded under it.
    pub fn handle_command(&mut self, command: Command) -> (effect: CommandEffect)
        requires
            old(self).wf(),
            command matches Command::Request { .. } ==> old(self).manager.next_request_id
                < RequestId::MAX,
        ensures
            final(self).wf(),
            forall|r2: RequestId| old(self).manager.settled(r2) ==> final(self).manager.settled(
                r2,
            ),
            match command {
                Command::Dial { peer, address } => if old(self).manager.is_connected_spec(peer) {
                    &&& effect == CommandEffect::DialAlreadyConnected
                    &&& *final(self) == *old(self)
                } else if old(self).pending_dial@.contains(peer) {
                    &&& effect == CommandEffect::DialAlreadyPending
                    &&& *final(self) == *old(self)
                } else {
                    &&& effect == (CommandEffect::StartDial { peer, address })
                    &&& final(self).pending_dial@ == old(self).pending_dial@.push(peer)
                    &&& book_has(final(self).manager.addresses@, peer, address@)
                    &&& (forall|p2: PeerId, a2: Seq<u8>|
                        book_has(final(self).manager.addresses@, p2, a2) == (book_has(
                            old(self).manager.addresses@,
                            p2,
                            a2,
                        ) || (p2 == peer && a2 == address@)))
                    &&& final(self).manager.connected@ == old(self).manager.connected@
                    &&& final(self).manager.outstanding@ == old(self).manager.outstanding@
                    &&& final(self).manager.pending_outbound@ == old(
                        self,
                    ).manager.pending_outbound@
                    &&& final(self).manager.pending_deliveries@ == old(
                        self,
                    ).manager.pending_deliveries@
                    &&& final(self).manager.pending_events@ == old(self).manager.pending_events@
                    &&& final(self).manager.next_request_id == old(self).manager.next_request_id
                    &&& final(self).pending_requests@ == old(self).pending_requests@
                    &&& final(self).mailbox_closed == old(self).mailbox_closed
                },
                Command::Request { peer, protocol, payload } => {
                    &&& effect == (CommandEffect::RequestIssued {
                        request_id: old(self).manager.next_request_id,
                    })
                    &&& issues_fresh_id(
                        old(self).manager,
                        final(self).manager,
                        old(self).manager.next_request_id,
                    )
                    &&& final(self).pending_requests@ == old(self).pending_requests@.push(
                        old(self).manager.next_request_id,
                    )
                    &&& final(self).manager.unsettled(old(self).manager.next_request_id)
                    &&& (forall|r2: RequestId|
                        r2 != old(self).manager.next_request_id ==> final(self).manager.unsettled(
                            r2,
                        ) == old(self).manager.unsettled(r2))
                    &&& (if old(self).manager.is_connected_spec(peer) {
                        pair_present(
                            final(self).manager.outstanding@,
                            old(self).manager.next_request_id,
                            peer,
                        ) && delivery_present(
                            final(self).manager.pending_deliveries@,
                            old(self).manager.next_request_id,
                            peer,
                        )
                    } else {
                        queued_present(
                            final(self).manager.pending_outbound@,
                            old(self).manager.next_request_id,
                            peer,
                        )
                    })
                    &&& final(self).manager.pending_events@ == old(self).manager.pending_events@
                    &&& final(self).manager.connected@ == old(self).manager.connected@
                    &&& final(self).pending_dial@ == old(self).pending_dial@
                    &&& final(self).mailbox_closed == old(self).mailbox_closed
                },
                Command::Shutdown => {
                    &&& effect == CommandEffect::MailboxClosed
                    &&& final(self).mailbox_closed
                    &&& final(self).manager == old(self).manager
                    &&& final(self).pending_dial@ == old(self).pending_dial@
                    &&& final(self).pending_requests@ == old(self).pending_requests@
                },
            },
    {
        match command {
            Command::Dial { peer, address } => {
                if self.manager.is_connected(peer) {
                    return CommandEffect::DialAlreadyConnected;
                }
                if self.dial_is_pending(peer) {
                    return CommandEffect::DialAlreadyPending;
                }
                let ghost d0 = self.pending_dial@;
                self.manager.add_address(peer, clone_bytes(&address));
                self.pending_dial.push(peer);
                proof {
                    assert(self.pending_dial@[d0.len() as int] == peer);
                    assert(self.pending_dial@.no_duplicates()) by {
                        assert forall|a: int, b: int|
                            0 <= a < b < self.pending_dial@.len() implies self.pending_dial@[a]
                            != self.pending_dial@[b] by {
                            if b == d0.len() {
                                assert(self.pending_dial@[a] == d0[a]);
                                if d0[a] == peer {
                                    assert(d0.contains(peer));
                                }
                            } else {
                                assert(self.pending_dial@[a] == d0[a] && self.pending_dial@[b]
                                    == d0[b]);
                            }
                        }
                    }
                }
                CommandEffect::StartDial { peer, address }
            },
            Command::Request { peer, protocol, payload } => {
                let mut protocols: Vec<ProtocolId> = Vec::new();
                protocols.push(protocol);
                let ghost t0 = self.pending_requests@;
                let ghost n0 = self.manager.next_request_id;
                let request_id = self.manager.send_request(peer, protocols, payload);
                self.pending_requests.push(request_id);
                proof {
                    assert(self.pending_requests@[t0.len() as int] == request_id);
                    assert(!t0.contains(request_id)) by {
                        if t0.contains(request_id) {
                            let k = choose|k: int| 0 <= k < t0.len() && t0[k] == request_id;
                        }
                    }
                    assert(self.pending_requests@.no_duplicates()) by {
                        assert forall|a: int, b: int|
                            0 <= a < b < self.pending_requests@.len() implies
                            self.pending_requests@[a] != self.pending_requests@[b] by {
                            if b == t0.len() {
                                assert(self.pending_requests@[a] == t0[a]);
                                if t0[a] == request_id {
                                    assert(t0.contains(request_id));
                                }
                            } else {
                                assert(self.pending_requests@[a] == t0[a]
                                    && self.pending_requests@[b] == t0[b]);
                            }
                        }
                    }
                    assert forall|r: RequestId| self.manager.unsettled(r) implies
                        self.pending_requests@.contains(r) by {
                        if r == request_id {
                            assert(self.pending_requests@[t0.len() as int] == r);
                        } else {
                            assert(t0.contains(r));
                            let k = choose|k: int| 0 <= k < t0.len() && t0[k] == r;
                            assert(self.pending_requests@[k] == r);
                        }
                    }
                    assert forall|k: int|
                        0 <= k < self.pending_requests@.len() implies self.pending_requests@[k]
                        < self.manager.next_request_id by {
                        if k < t0.len() {
                            assert(self.pending_requests@[k] == t0[k]);
                        }
                    }
                    if old(self).manager.is_connected_spec(peer) {
                        let os = self.manager.outstanding@;
                        let ds = self.manager.pending_deliveries@;
                        assert(os[os.len() - 1] == (request_id, peer));
                        assert(pair_present(os, request_id, peer));
                        assert(ds[ds.len() - 1].request.request_id == request_id && ds[ds.len()
                            - 1].peer == peer);
                        assert(delivery_present(ds, request_id, peer));
                    } else {
                        let qs = self.manager.pending_outbound@;
                        assert(qs[qs.len() - 1].request.request_id == request_id && qs[qs.len()
                            - 1].peer == peer);
                        assert(queued_present(qs, request_id, peer));
                    }
                }
                CommandEffect::RequestIssued { request_id }
            },
            Command::Shutdown => {
                self.mailbox_closed = true;
                CommandEffect::MailboxClosed
            },
        }
    }

    /// Process one notification from the connection multiplexer and say what
    /// the runtime must do with it.
    ///
    /// An established connection resolves the peer's pending dial — if this
    /// side dialed — and moves the peer's waiting requests to its handler. A
    /// failed dial resolves the pending dial with the transport's error and
    /// fails the peer's waiting requests with `DialFailure`. A closed
    /// connection fails everything handed to the peer's handler with
    /// `ConnectionClosed`.
    pub fn handle_network_event(&mut self, event: NetworkEvent) -> (effect: EventEffect)
        requires
            old(self).wf(),
        ensures
            final(self).wf(),
            forall|r2: RequestId| old(self).manager.settled(r2) ==> final(self).manager.settled(
                r2,
            ),
            forall|r2: RequestId| final(self).manager.unsettled(r2) == old(self).manager.unsettled(
                r2,
            ),
            final(self).pending_requests@ == old(self).pending_requests@,
            final(self).mailbox_closed == old(self).mailbox_closed,
            match event {
                NetworkEvent::ConnectionEstablished { peer, dialer } => {
                    &&& final(self).manager.is_connected_spec(peer)
                    &&& !queued_for_peer(final(self).manager.pending_outbound@, peer)
                    &&& (if dialer && old(self).pending_dial@.contains(peer) {
                        &&& effect == (EventEffect::ResolveDialOk { peer })
                        &&& !final(self).pending_dial@.contains(peer)
                        &&& (forall|p2: PeerId|
                            p2 != peer ==> final(self).pending_dial@.contains(p2) == old(
                                self,
                            ).pending_dial@.contains(p2))
                    } else {
                        &&& effect == EventEffect::NoEffect
                        &&& final(self).pending_dial@ == old(self).pending_dial@
                    })
                },
                NetworkEvent::OutgoingConnectionError { peer: failed } => match failed {
                    Some(peer) => {
                        &&& !queued_for_peer(final(self).manager.pending_outbound@, peer)
                        &&& (forall|r2: RequestId|
                            crate::behaviour::events_terminal_for(
                                final(self).manager.pending_events@,
                                r2,
                            ) == (crate::behaviour::events_terminal_for(
                                old(self).manager.pending_events@,
                                r2,
                            ) || queued_present(old(self).manager.pending_outbound@, r2, peer)))
                        &&& (if old(self).pending_dial@.contains(peer) {
                            effect == (EventEffect::ResolveDialFailed { peer })
                        } else {
                            effect == EventEffect::NoEffect
                        })
                        &&& !final(self).pending_dial@.contains(peer)
                        &&& (forall|p2: PeerId|
                            p2 != peer ==> final(self).pending_dial@.contains(p2) == old(
                                self,
                            ).pending_dial@.contains(p2))
                    },
                    None => {
                        &&& effect == EventEffect::NoEffect
                        &&& *final(self) == *old(self)
                    },
                },
                NetworkEvent::ConnectionClosed { peer } => {
                    &&& effect == EventEffect::NoEffect
                    &&& !final(self).manager.is_connected_spec(peer)
                    &&& (forall|r2: RequestId, p2: PeerId|
                        pair_present(final(self).manager.outstanding@, r2, p2) == (pair_present(
                            old(self).manager.outstanding@,
                            r2,
                            p2,
                        ) && p2 != peer))
                    &&& (forall|r2: RequestId|
                        crate::behaviour::events_terminal_for(
                            final(self).manager.pending_events@,
                            r2,
                        ) == (crate::behaviour::events_terminal_for(
                            old(self).manager.pending_events@,
                            r2,
                        ) || pair_present(old(self).manager.outstanding@, r2, peer)))
                    &&& final(self).pending_dial@ == old(self).pending_dial@
                },
            },
    {
        match event {
            NetworkEvent::ConnectionEstablished { peer, dialer } => {
                self.manager.on_connection_established(peer);
                if dialer {
                    // Only a connection this side initiated answers a
                    // pending dial; an inbound one leaves it to its own
                    // outcome.
                    let was_pending = remove_id(&mut self.pending_dial, peer);
                    if was_pending {
                        return EventEffect::ResolveDialOk { peer };
                    }
                }
                EventEffect::NoEffect
            },
            NetworkEvent::OutgoingConnectionError { peer: failed } => {
                match failed {
                    Some(peer) => {
                        self.manager.on_dial_failure(peer);
                        let was_pending = remove_id(&mut self.pending_dial, peer);
                        if was_pending {
                            EventEffect::ResolveDialFailed { peer }
                        } else {
                            EventEffect::NoEffect
                        }
                    },
                    None => EventEffect::NoEffect,
                }
            },
            NetworkEvent::ConnectionClosed { peer } => {
                self.manager.on_connection_closed(peer);
                EventEffect::NoEffect
            },
        }
    }

    /// Take the oldest event the manager owes the layer above and resolve it
    /// against the pending-request table.
    ///
    /// A terminal event always finds its completion — the invariant
    /// guarantees it — and consumes it: the entry is removed, the request is
    /// settled, and no later event or resolution for the same identifier can
    /// ever occur.
    pub fn next_resolution(&mut self) -> (r: Option<Resolution>)
        requires
            old(self).wf(),
        ensures
            final(self).wf(),
            final(self).pending_dial@ == old(self).pending_dial@,
            final(self).mailbox_closed == old(self).mailbox_closed,
            forall|r2: RequestId| old(self).manager.settled(r2) ==> final(self).manager.settled(
                r2,
            ),
            match r {
                Some(resolution) => {
                    &&& old(self).manager.pending_events@.len() > 0
                    &&& final(self).manager.pending_events@ == old(
                        self,
                    ).manager.pending_events@.skip(1)
                    &&& match resolution {
                        Resolution::RespondOk { request_id, response } => {
                            &&& old(self).manager.pending_events@[0]
                                == (RequestResponseEvent::Message {
                                peer: (match old(self).manager.pending_events@[0] {
                                    RequestResponseEvent::Message { peer, .. } => peer,
                                    _ => 0,
                                }),
                                message: RequestResponseMessage::Response { request_id, response },
                            })
                            &&& old(self).pending_requests@.contains(request_id)
                            &&& !final(self).pending_requests@.contains(request_id)
                            &&& final(self).manager.settled(request_id)
                            &&& (forall|y: RequestId|
                                y != request_id ==> final(self).pending_requests@.contains(y)
                                    == old(self).pending_requests@.contains(y))
                        },
                        Resolution::RespondErr { request_id, error } => {
                            &&& old(self).manager.pending_events@[0]
                                == (RequestResponseEvent::OutboundFailure {
                                peer: (match old(self).manager.pending_events@[0] {
                                    RequestResponseEvent::OutboundFailure { peer, .. } => peer,
                                    _ => 0,
                                }),
                                request_id,
                                error,
                            })
                            &&& old(self).pending_requests@.contains(request_id)
                            &&& !final(self).pending_requests@.contains(request_id)
                            &&& final(self).manager.settled(request_id)
                            &&& (forall|y: RequestId|
                                y != request_id ==> final(self).pending_requests@.contains(y)
                                    == old(self).pending_requests@.contains(y))
                        },
                        Resolution::ReportInbound { peer, error } => {
                            &&& old(self).manager.pending_events@[0]
                                == (RequestResponseEvent::InboundFailure { peer, error })
                            &&& final(self).pending_requests@ == old(self).pending_requests@
                        },
                    }
                },
                None => {
                    &&& old(self).manager.pending_events@.len() == 0
                    &&& final(self).pending_requests@ == old(self).pending_requests@
                },
            },
    {
        let event = self.manager.next_event();
        match event {
            None => None,
            Some(RequestResponseEvent::Message {
                peer: _,
                message: RequestResponseMessage::Response { request_id, response },
            }) => {
                proof {
                    assert(old(self).manager.pending_events@[0].terminal_id() == Some(
                        request_id,
                    ));
                    assert(crate::behaviour::events_terminal_for(
                        old(self).manager.pending_events@,
                        request_id,
                    ));
                    assert(old(self).manager.unsettled(request_id));
                    assert(old(self).pending_requests@.contains(request_id));
                }
                let found = remove_id(&mut self.pending_requests, request_id);
                proof {
                    assert(found);
                    assert(self.manager.settled(request_id));
                    assert forall|k: int|
                        0 <= k < self.pending_requests@.len() implies self.pending_requests@[k]
                        < self.manager.next_request_id by {
                        let y = self.pending_requests@[k];
                        assert(self.pending_requests@.contains(y));
                        assert(y != request_id);
                        assert(old(self).pending_requests@.contains(y));
                        let k2 = choose|k2: int|
                            0 <= k2 < old(self).pending_requests@.len() && old(
                                self,
                            ).pending_requests@[k2] == y;
                    }
                    assert forall|r2: RequestId| self.manager.unsettled(r2) implies
                        self.pending_requests@.contains(r2) by {
                        assert(old(self).manager.unsettled(r2));
                        assert(r2 != request_id);
                        assert(old(self).pending_requests@.contains(r2));
                    }
                }
                Some(Resolution::RespondOk { request_id, response })
            },
            Some(RequestResponseEvent::OutboundFailure { peer: _, request_id, error }) => {
                proof {
                    assert(old(self).manager.pending_events@[0].terminal_id() == Some(
                        request_id,
                    ));
                    assert(crate::behaviour::events_terminal_for(
                        old(self).manager.pending_events@,
                        request_id,
                    ));
                    assert(old(self).manager.unsettled(request_id));
                    assert(old(self).pending_requests@.contains(request_id));
                }
                let found = remove_id(&mut self.pending_requests, request_id);
                proof {
                    assert(found);
                    assert(self.manager.settled(request_id));
                    assert forall|k: int|
                        0 <= k < self.pending_requests@.len() implies self.pending_requests@[k]
                        < self.manager.next_request_id by {
                        let y = self.pending_requests@[k];
                        assert(self.pending_requests@.contains(y));
                        assert(y != request_id);
                        assert(old(self).pending_requests@.contains(y));
                        let k2 = choose|k2: int|
                            0 <= k2 < old(self).pending_requests@.len() && old(
                                self,
                            ).pending_requests@[k2] == y;
                    }
                    assert forall|r2: RequestId| self.manager.unsettled(r2) implies
                        self.pending_requests@.contains(r2) by {
                        assert(old(self).manager.unsettled(r2));
                        assert(r2 != request_id);
                        assert(old(self).pending_requests@.contains(r2));
                    }
                }
                Some(Resolution::RespondErr { request_id, error })
            },
            Some(RequestResponseEvent::InboundFailure { peer, error }) => {
                Some(Resolution::ReportInbound { peer, error })
            },
        }
    }

    /// Take the oldest request delivery: the runtime hands it to the
    /// connection handler of its peer.
    pub fn next_delivery(&mut self) -> (r: Option<RequestDelivery>)
        requires
            old(self).wf(),
        ensures
            final(self).wf(),
            final(self).pending_dial@ == old(self).pending_dial@,
            final(self).pending_requests@ == old(self).pending_requests@,
            final(self).mailbox_closed == old(self).mailbox_closed,
            match r {
                Some(delivery) => {
                    &&& old(self).manager.pending_deliveries@.len() > 0
                    &&& delivery == old(self).manager.pending_deliveries@[0]
                    &&& final(self).manager.pending_deliveries@ == old(
                        self,
                    ).manager.pending_deliveries@.skip(1)
                },
                None => {
                    &&& old(self).manager.pending_deliveries@.len() == 0
                    &&& final(self).manager.pending_deliveries@ == old(
                        self,
                    ).manager.pending_deliveries@
                },
            },
            final(self).manager.outstanding@ == old(self).manager.outstanding@,
            final(self).manager.pending_outbound@ == old(self).manager.pending_outbound@,
            final(self).manager.pending_events@ == old(self).manager.pending_events@,
            final(self).manager.connected@ == old(self).manager.connected@,
            final(self).manager.next_request_id == old(self).manager.next_request_id,
    {
        self.manager.next_delivery()
    }
}

/// Exactly-one-terminal-event, liveness-side safety: while the loop runs,
/// every terminal event the manager has queued refers to a request whose
/// completion is still pending — a terminal outcome never arrives without a
/// promise to resolve.
pub proof fn lemma_terminal_event_has_pending_promise(el: EventLoop, k: int, r: RequestId)
    requires
        el.wf(),
        0 <= k < el.manager.pending_events@.len(),
        el.manager.pending_events@[k].terminal_id() == Some(r),
    ensures
        el.pending_requests@.contains(r),
{
    assert(crate::behaviour::events_terminal_for(el.manager.pending_events@, r)) by {
        assert(el.manager.pending_events@[k].terminal_id() == Some(r));
    }
    assert(el.manager.unsettled(r));
}

} // verus!
