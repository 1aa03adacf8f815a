//! The peer connection manager: the protocol-level behaviour above the
//! connection handlers.
//!
//! The manager owns the address book, allocates monotonically increasing
//! request identifiers, routes each accepted request either to the handler of
//! an already-open connection or to a queue awaiting connection
//! establishment, and exposes the terminal-event surface — exactly one
//! response or outbound failure per request — that the event loop drains.
//!
//! A request identifier is *unsettled* while the manager still owes it a
//! terminal event: it is then tracked in exactly one of three places — the
//! queue awaiting connection establishment, the set of requests handed to a
//! connection handler, or the event queue holding its terminal event. Taking
//! the terminal event settles the identifier, and every operation of the
//! manager keeps settled identifiers settled, so a second terminal outcome
//! for the same request can never be produced.

use vstd::prelude::*;

use crate::handler::RequestResponseHandlerEvent;
use crate::types::{
    bytes_eq, clone_bytes, InboundFailure, NetworkAddress, OutboundFailure, OutboundRequest,
    PeerId, ProtocolId, RequestId, RequestPayload, RequestResponseConfig, ResponsePayload,
};

verus! {

/// A message of the request/response protocol, as surfaced to the layer
/// above. This node issues requests only, so the sole message it can observe
/// is a response.
#[derive(Clone, Debug)]
pub enum RequestResponseMessage {
    /// The peer's answer to an outbound request: the terminal success.
    Response { request_id: RequestId, response: ResponsePayload },
}

/// The events the manager surfaces to the event loop.
#[derive(Clone, Debug)]
pub enum RequestResponseEvent {
    /// A message arrived on a connection to `peer`.
    Message { peer: PeerId, message: RequestResponseMessage },
    /// An outbound request failed: the terminal failure of `request_id`.
    OutboundFailure { peer: PeerId, request_id: RequestId, error: OutboundFailure },
    /// An inbound request attempt was refused; informational only.
    InboundFailure { peer: PeerId, error: InboundFailure },
}

impl RequestResponseEvent {
    /// The request this event is the terminal outcome of, if it is one.
    /// Inbound failures are terminal for no request.
    pub open spec fn terminal_id(self) -> Option<RequestId> {
        match self {
            RequestResponseEvent::Message { message: RequestResponseMessage::Response {
                request_id,
                ..
            }, .. } => Some(request_id),
            RequestResponseEvent::OutboundFailure { request_id, .. } => Some(request_id),
            RequestResponseEvent::InboundFailure { .. } => None,
        }
    }
}

/// One request accepted while its peer has no open connection, waiting for
/// connection establishment.
#[derive(Clone, Debug)]
pub struct PendingOutbound {
    /// The peer the request is addressed to.
    pub peer: PeerId,
    /// The request itself, identifier included.
    pub request: OutboundRequest,
}

/// An instruction to hand one request to the connection handler of a peer.
/// The event loop drains these and delivers each to the handler of the open
/// connection to `peer`.
#[derive(Clone, Debug)]
pub struct RequestDelivery {
    /// The peer whose handler must take the request.
    pub peer: PeerId,
    /// The request to enqueue on that handler.
    pub request: OutboundRequest,
}

/// Whether the sequence holds a pair carrying request identifier `r`.
pub open spec fn pair_with_id(s: Seq<(RequestId, PeerId)>, r: RequestId) -> bool {
    exists|i: int| 0 <= i < s.len() && s[i].0 == r
}

/// Whether the sequence holds exactly the pair `(r, p)`.
pub open spec fn pair_present(s: Seq<(RequestId, PeerId)>, r: RequestId, p: PeerId) -> bool {
    exists|i: int| 0 <= i < s.len() && s[i] == (r, p)
}

/// No two pairs of the sequence carry the same request identifier.
pub open spec fn pairs_distinct(s: Seq<(RequestId, PeerId)>) -> bool {
    forall|i: int, j: int| 0 <= i < j < s.len() ==> s[i].0 != s[j].0
}

/// Whether the queue of requests awaiting connection establishment holds one
/// with identifier `r`.
pub open spec fn queued_with_id(s: Seq<PendingOutbound>, r: RequestId) -> bool {
    exists|i: int| 0 <= i < s.len() && s[i].request.request_id == r
}

/// Whether the queue holds a request with identifier `r` addressed to `p`.
pub open spec fn queued_present(s: Seq<PendingOutbound>, r: RequestId, p: PeerId) -> bool {
    exists|i: int| 0 <= i < s.len() && s[i].request.request_id == r && s[i].peer == p
}

/// Whether the queue holds any request addressed to `p`.
pub open spec fn queued_for_peer(s: Seq<PendingOutbound>, p: PeerId) -> bool {
    exists|i: int| 0 <= i < s.len() && s[i].peer == p
}

/// No two queued requests carry the same identifier.
pub open spec fn queued_distinct(s: Seq<PendingOutbound>) -> bool {
    forall|i: int, j: int|
        0 <= i < j < s.len() ==> s[i].request.request_id != s[j].request.request_id
}

/// Whether the event queue holds a terminal event for request `r`.
pub open spec fn events_terminal_for(s: Seq<RequestResponseEvent>, r: RequestId) -> bool {
    exists|i: int| 0 <= i < s.len() && s[i].terminal_id() == Some(r)
}

/// No two events of the queue are terminal for the same request.
pub open spec fn events_terminal_distinct(s: Seq<RequestResponseEvent>) -> bool {
    forall|i: int, j: int|
        0 <= i < j < s.len() ==> (s[i].terminal_id() is None || s[i].terminal_id()
            != s[j].terminal_id())
}

/// Whether the event, if it is terminal for some request, is terminal for one
/// whose identifier lies below `n`.
pub open spec fn terminal_below(e: RequestResponseEvent, n: RequestId) -> bool {
    match e.terminal_id() {
        Some(r) => r < n,
        None => true,
    }
}

/// Whether the delivery queue holds a request with identifier `r` addressed
/// to `p`.
pub open spec fn delivery_present(s: Seq<RequestDelivery>, r: RequestId, p: PeerId) -> bool {
    exists|i: int| 0 <= i < s.len() && s[i].request.request_id == r && s[i].peer == p
}

/// Whether the address book holds address `a` for peer `p`.
pub open spec fn book_has(s: Seq<(PeerId, NetworkAddress)>, p: PeerId, a: Seq<u8>) -> bool {
    exists|i: int| 0 <= i < s.len() && s[i].0 == p && s[i].1@ == a
}

/// Whether the event reports an outbound failure with error `err` on a
/// connection to `p`.
pub open spec fn is_failure_event(e: RequestResponseEvent, p: PeerId, err: OutboundFailure) -> bool {
    match e {
        RequestResponseEvent::OutboundFailure { peer: q, error: e2, .. } => q == p && e2 == err,
        _ => false,
    }
}

/// The step `send_request` takes on the identifier counter: the caller gets
/// the counter's current value and the counter moves up by one. Identifiers
/// issued one after another are therefore strictly increasing.
pub open spec fn issues_fresh_id(pre: RequestResponse, post: RequestResponse, r: RequestId) -> bool {
    &&& r == pre.next_request_id
    &&& post.next_request_id == pre.next_request_id + 1
}

/// How pushing one pair changes which identifiers the sequence holds.
proof fn lemma_pair_push(s: Seq<(RequestId, PeerId)>, r: RequestId, p: PeerId)
    ensures
        pair_with_id(s.push((r, p)), r),
        pair_present(s.push((r, p)), r, p),
        forall|r2: RequestId| r2 != r ==> pair_with_id(s.push((r, p)), r2) == pair_with_id(s, r2),
        forall|r2: RequestId, p2: PeerId|
            !(r2 == r && p2 == p) ==> pair_present(s.push((r, p)), r2, p2) == pair_present(
                s,
                r2,
                p2,
            ),
{
    let t = s.push((r, p));
    assert(t[s.len() as int] == (r, p));
    assert forall|r2: RequestId, p2: PeerId|
        !(r2 == r && p2 == p) implies pair_present(t, r2, p2) == pair_present(s, r2, p2) by {
        if pair_present(s, r2, p2) {
            let k = choose|k: int| 0 <= k < s.len() && s[k] == (r2, p2);
            assert(t[k] == (r2, p2));
        }
        if pair_present(t, r2, p2) {
            let k = choose|k: int| 0 <= k < t.len() && t[k] == (r2, p2);
            assert(s[k] == (r2, p2));
        }
    }
    assert forall|r2: RequestId| r2 != r implies pair_with_id(t, r2) == pair_with_id(s, r2) by {
        if pair_with_id(s, r2) {
            let k = choose|k: int| 0 <= k < s.len() && s[k].0 == r2;
            assert(t[k].0 == r2);
        }
        if pair_with_id(t, r2) {
            let k = choose|k: int| 0 <= k < t.len() && t[k].0 == r2;
            assert(s[k].0 == r2);
        }
    }
}

/// Pushing a pair whose identifier is absent keeps the identifiers distinct.
proof fn lemma_pairs_push_distinct(s: Seq<(RequestId, PeerId)>, r: RequestId, p: PeerId)
    requires
        pairs_distinct(s),
        !pair_with_id(s, r),
    ensures
        pairs_distinct(s.push((r, p))),
{
    let t = s.push((r, p));
    assert forall|i: int, j: int| 0 <= i < j < t.len() implies t[i].0 != t[j].0 by {
        if j == s.len() {
            assert(t[i] == s[i]);
            if s[i].0 == r {
                assert(pair_with_id(s, r));
            }
        } else {
            assert(t[i] == s[i] && t[j] == s[j]);
        }
    }
}

/// Removing the pair at one index removes exactly its identifier, the
/// identifiers being distinct.
proof fn lemma_pair_remove(s: Seq<(RequestId, PeerId)>, i: int)
    requires
        0 <= i < s.len(),
        pairs_distinct(s),
    ensures
        pairs_distinct(s.remove(i)),
        !pair_with_id(s.remove(i), s[i].0),
        forall|r2: RequestId| r2 != s[i].0 ==> pair_with_id(s.remove(i), r2) == pair_with_id(
            s,
            r2,
        ),
        forall|r2: RequestId, p2: PeerId|
            r2 != s[i].0 ==> pair_present(s.remove(i), r2, p2) == pair_present(s, r2, p2),
        forall|r2: RequestId, p2: PeerId| pair_present(s.remove(i), r2, p2) ==> pair_present(
            s,
            r2,
            p2,
        ),
        forall|k: int| 0 <= k < i ==> s.remove(i)[k] == s[k],
        forall|k: int| i <= k < s.len() - 1 ==> s.remove(i)[k] == s[k + 1],
{
    s.remove_ensures(i);
    let t = s.remove(i);
    assert forall|r2: RequestId, p2: PeerId|
        r2 != s[i].0 implies pair_present(t, r2, p2) == pair_present(s, r2, p2) by {
        if pair_present(s, r2, p2) {
            let k = choose|k: int| 0 <= k < s.len() && s[k] == (r2, p2);
            if k < i {
                assert(t[k] == (r2, p2));
            } else {
                assert(t[k - 1] == (r2, p2));
            }
        }
        if pair_present(t, r2, p2) {
            let k = choose|k: int| 0 <= k < t.len() && t[k] == (r2, p2);
            if k < i {
                assert(s[k] == (r2, p2));
            } else {
                assert(s[k + 1] == (r2, p2));
            }
        }
    }
    assert forall|r2: RequestId, p2: PeerId| pair_present(t, r2, p2) implies pair_present(
        s,
        r2,
        p2,
    ) by {
        if pair_present(t, r2, p2) {
            let k = choose|k: int| 0 <= k < t.len() && t[k] == (r2, p2);
            if k < i {
                assert(s[k] == (r2, p2));
            } else {
                assert(s[k + 1] == (r2, p2));
            }
        }
    }
    assert forall|a: int, b: int| 0 <= a < b < t.len() implies t[a].0 != t[b].0 by {
        let a2: int = if a < i {
            a
        } else {
            a + 1
        };
        let b2: int = if b < i {
            b
        } else {
            b + 1
        };
        assert(t[a] == s[a2] && t[b] == s[b2]);
    }
    assert(!pair_with_id(t, s[i].0)) by {
        if pair_with_id(t, s[i].0) {
            let k = choose|k: int| 0 <= k < t.len() && t[k].0 == s[i].0;
            if k < i {
                assert(t[k] == s[k]);
            } else {
                assert(t[k] == s[k + 1]);
            }
        }
    }
    assert forall|r2: RequestId| r2 != s[i].0 implies pair_with_id(t, r2) == pair_with_id(
        s,
        r2,
    ) by {
        if pair_with_id(s, r2) {
            let k = choose|k: int| 0 <= k < s.len() && s[k].0 == r2;
            if k < i {
                assert(t[k].0 == r2);
            } else {
                assert(t[k - 1].0 == r2);
            }
        }
        if pair_with_id(t, r2) {
            let k = choose|k: int| 0 <= k < t.len() && t[k].0 == r2;
            if k < i {
                assert(s[k].0 == r2);
            } else {
                assert(s[k + 1].0 == r2);
            }
        }
    }
}

/// How pushing one queued request changes which identifiers and peers the
/// queue holds.
proof fn lemma_queued_push(s: Seq<PendingOutbound>, e: PendingOutbound)
    ensures
        queued_with_id(s.push(e), e.request.request_id),
        queued_present(s.push(e), e.request.request_id, e.peer),
        forall|r2: RequestId| r2 != e.request.request_id ==> queued_with_id(s.push(e), r2)
            == queued_with_id(s, r2),
        forall|p2: PeerId| queued_for_peer(s.push(e), p2) == (queued_for_peer(s, p2) || p2
            == e.peer),
{
    let t = s.push(e);
    assert(t[s.len() as int] == e);
    assert forall|r2: RequestId| r2 != e.request.request_id implies queued_with_id(t, r2)
        == queued_with_id(s, r2) by {
        if queued_with_id(s, r2) {
            let k = choose|k: int| 0 <= k < s.len() && s[k].request.request_id == r2;
            assert(t[k].request.request_id == r2);
        }
        if queued_with_id(t, r2) {
            let k = choose|k: int| 0 <= k < t.len() && t[k].request.request_id == r2;
            assert(s[k].request.request_id == r2);
        }
    }
    assert forall|p2: PeerId| queued_for_peer(t, p2) == (queued_for_peer(s, p2) || p2
        == e.peer) by {
        if queued_for_peer(s, p2) {
            let k = choose|k: int| 0 <= k < s.len() && s[k].peer == p2;
            assert(t[k].peer == p2);
        }
        if p2 == e.peer {
            assert(t[s.len() as int].peer == p2);
        }
        if queued_for_peer(t, p2) && p2 != e.peer && !queued_for_peer(s, p2) {
            let k = choose|k: int| 0 <= k < t.len() && t[k].peer == p2;
            assert(s[k].peer == p2);
        }
    }
}

/// Pushing a queued request whose identifier is absent keeps the identifiers
/// distinct.
proof fn lemma_queued_push_distinct(s: Seq<PendingOutbound>, e: PendingOutbound)
    requires
        queued_distinct(s),
        !queued_with_id(s, e.request.request_id),
    ensures
        queued_distinct(s.push(e)),
{
    let t = s.push(e);
    assert forall|i: int, j: int|
        0 <= i < j < t.len() implies t[i].request.request_id != t[j].request.request_id by {
        if j == s.len() {
            assert(t[i] == s[i]);
            if s[i].request.request_id == e.request.request_id {
                assert(queued_with_id(s, e.request.request_id));
            }
        } else {
            assert(t[i] == s[i] && t[j] == s[j]);
        }
    }
}

/// How pushing one event changes which requests the queue holds a terminal
/// event for.
proof fn lemma_events_push(s: Seq<RequestResponseEvent>, e: RequestResponseEvent)
    ensures
        forall|r2: RequestId| events_terminal_for(s.push(e), r2) == (events_terminal_for(s, r2)
            || e.terminal_id() == Some(r2)),
{
    let t = s.push(e);
    assert(t[s.len() as int] == e);
    assert forall|r2: RequestId| events_terminal_for(t, r2) == (events_terminal_for(s, r2)
        || e.terminal_id() == Some(r2)) by {
        if events_terminal_for(s, r2) {
            let k = choose|k: int| 0 <= k < s.len() && s[k].terminal_id() == Some(r2);
            assert(t[k].terminal_id() == Some(r2));
        }
        if e.terminal_id() == Some(r2) {
            assert(t[s.len() as int].terminal_id() == Some(r2));
        }
        if events_terminal_for(t, r2) && e.terminal_id() != Some(r2) && !events_terminal_for(
            s,
            r2,
        ) {
            let k = choose|k: int| 0 <= k < t.len() && t[k].terminal_id() == Some(r2);
            assert(s[k].terminal_id() == Some(r2));
        }
    }
}

/// Pushing an event that is terminal for no request already covered keeps
/// terminal events unique per request.
proof fn lemma_events_push_distinct(s: Seq<RequestResponseEvent>, e: RequestResponseEvent)
    requires
        events_terminal_distinct(s),
        match e.terminal_id() {
            Some(r) => !events_terminal_for(s, r),
            None => true,
        },
    ensures
        events_terminal_distinct(s.push(e)),
{
    let t = s.push(e);
    assert forall|i: int, j: int|
        0 <= i < j < t.len() implies (t[i].terminal_id() is None || t[i].terminal_id()
        != t[j].terminal_id()) by {
        if j == s.len() {
            assert(t[i] == s[i]);
            match s[i].terminal_id() {
                Some(r) => {
                    if t[j].terminal_id() == Some(r) {
                        assert(events_terminal_for(s, r));
                    }
                },
                None => {},
            }
        } else {
            assert(t[i] == s[i] && t[j] == s[j]);
        }
    }
}

/// Removing the queued request at one index removes exactly its identifier,
/// the identifiers being distinct.
proof fn lemma_queued_remove(s: Seq<PendingOutbound>, i: int)
    requires
        0 <= i < s.len(),
        queued_distinct(s),
    ensures
        queued_distinct(s.remove(i)),
        !queued_with_id(s.remove(i), s[i].request.request_id),
        forall|r2: RequestId| r2 != s[i].request.request_id ==> queued_with_id(s.remove(i), r2)
            == queued_with_id(s, r2),
        forall|r2: RequestId, p2: PeerId| queued_present(s.remove(i), r2, p2) ==> queued_present(
            s,
            r2,
            p2,
        ),
        forall|r2: RequestId, p2: PeerId|
            r2 != s[i].request.request_id ==> queued_present(s.remove(i), r2, p2)
                == queued_present(s, r2, p2),
        forall|p2: PeerId| queued_for_peer(s.remove(i), p2) ==> queued_for_peer(s, p2),
        forall|k: int| 0 <= k < i ==> s.remove(i)[k] == s[k],
        forall|k: int| i <= k < s.len() - 1 ==> s.remove(i)[k] == s[k + 1],
{
    s.remove_ensures(i);
    let t = s.remove(i);
    assert forall|a: int, b: int|
        0 <= a < b < t.len() implies t[a].request.request_id != t[b].request.request_id by {
        let a2: int = if a < i {
            a
        } else {
            a + 1
        };
        let b2: int = if b < i {
            b
        } else {
            b + 1
        };
        assert(t[a] == s[a2] && t[b] == s[b2]);
    }
    assert(!queued_with_id(t, s[i].request.request_id)) by {
        if queued_with_id(t, s[i].request.request_id) {
            let k = choose|k: int|
                0 <= k < t.len() && t[k].request.request_id == s[i].request.request_id;
            if k < i {
                assert(t[k] == s[k]);
            } else {
                assert(t[k] == s[k + 1]);
            }
        }
    }
    assert forall|r2: RequestId| r2 != s[i].request.request_id implies queued_with_id(t, r2)
        == queued_with_id(s, r2) by {
        if queued_with_id(s, r2) {
            let k = choose|k: int| 0 <= k < s.len() && s[k].request.request_id == r2;
            if k < i {
                assert(t[k].request.request_id == r2);
            } else {
                assert(t[k - 1].request.request_id == r2);
            }
        }
        if queued_with_id(t, r2) {
            let k = choose|k: int| 0 <= k < t.len() && t[k].request.request_id == r2;
            if k < i {
                assert(s[k].request.request_id == r2);
            } else {
                assert(s[k + 1].request.request_id == r2);
            }
        }
    }
    assert forall|r2: RequestId, p2: PeerId| queued_present(t, r2, p2) implies queued_present(
        s,
        r2,
        p2,
    ) by {
        if queued_present(t, r2, p2) {
            let k = choose|k: int|
                0 <= k < t.len() && t[k].request.request_id == r2 && t[k].peer == p2;
            if k < i {
                assert(s[k].request.request_id == r2 && s[k].peer == p2);
            } else {
                assert(s[k + 1].request.request_id == r2 && s[k + 1].peer == p2);
            }
        }
    }
    assert forall|r2: RequestId, p2: PeerId|
        r2 != s[i].request.request_id implies queued_present(t, r2, p2) == queued_present(
        s,
        r2,
        p2,
    ) by {
        if queued_present(s, r2, p2) {
            let k = choose|k: int|
                0 <= k < s.len() && s[k].request.request_id == r2 && s[k].peer == p2;
            if k < i {
                assert(t[k].request.request_id == r2 && t[k].peer == p2);
            } else {
                assert(t[k - 1].request.request_id == r2 && t[k - 1].peer == p2);
            }
        }
    }
    assert forall|p2: PeerId| queued_for_peer(t, p2) implies queued_for_peer(s, p2) by {
        if queued_for_peer(t, p2) {
            let k = choose|k: int| 0 <= k < t.len() && t[k].peer == p2;
            if k < i {
                assert(s[k].peer == p2);
            } else {
                assert(s[k + 1].peer == p2);
            }
        }
    }
}

/// How pushing one delivery changes which requests the delivery queue holds.
proof fn lemma_delivery_push(s: Seq<RequestDelivery>, e: RequestDelivery)
    ensures
        delivery_present(s.push(e), e.request.request_id, e.peer),
        forall|r2: RequestId, p2: PeerId|
            !(r2 == e.request.request_id && p2 == e.peer) ==> delivery_present(s.push(e), r2, p2)
                == delivery_present(s, r2, p2),
{
    let t = s.push(e);
    assert(t[s.len() as int] == e);
    assert forall|r2: RequestId, p2: PeerId|
        !(r2 == e.request.request_id && p2 == e.peer) implies delivery_present(t, r2, p2)
        == delivery_present(s, r2, p2) by {
        if delivery_present(s, r2, p2) {
            let k = choose|k: int|
                0 <= k < s.len() && s[k].request.request_id == r2 && s[k].peer == p2;
            assert(t[k].request.request_id == r2 && t[k].peer == p2);
        }
        if delivery_present(t, r2, p2) {
            let k = choose|k: int|
                0 <= k < t.len() && t[k].request.request_id == r2 && t[k].peer == p2;
            assert(s[k].request.request_id == r2 && s[k].peer == p2);
        }
    }
}

/// A fresh identifier — one at or above every identifier a collection holds —
/// is absent from it.
proof fn lemma_fresh_id_absent(m: RequestResponse)
    requires
        forall|i: int|
            0 <= i < m.outstanding@.len() ==> m.outstanding@[i].0 < m.next_request_id,
        forall|i: int|
            0 <= i < m.pending_outbound@.len() ==> m.pending_outbound@[i].request.request_id
                < m.next_request_id,
        forall|i: int|
            0 <= i < m.pending_events@.len() ==> terminal_below(
                m.pending_events@[i],
                m.next_request_id,
            ),
    ensures
        !pair_with_id(m.outstanding@, m.next_request_id),
        !queued_with_id(m.pending_outbound@, m.next_request_id),
        !events_terminal_for(m.pending_events@, m.next_request_id),
{
    let n = m.next_request_id;
    assert(!pair_with_id(m.outstanding@, n)) by {
        if pair_with_id(m.outstanding@, n) {
            let k = choose|k: int| 0 <= k < m.outstanding@.len() && m.outstanding@[k].0 == n;
        }
    }
    assert(!queued_with_id(m.pending_outbound@, n)) by {
        if queued_with_id(m.pending_outbound@, n) {
            let k = choose|k: int|
                0 <= k < m.pending_outbound@.len() && m.pending_outbound@[k].request.request_id
                    == n;
        }
    }
    assert(!events_terminal_for(m.pending_events@, n)) by {
        if events_terminal_for(m.pending_events@, n) {
            let k = choose|k: int|
                0 <= k < m.pending_events@.len() && m.pending_events@[k].terminal_id() == Some(n);
            assert(terminal_below(m.pending_events@[k], n));
        }
    }
}

/// The peer connection manager.
pub struct RequestResponse {
    /// Construction-time options; immutable.
    pub config: RequestResponseConfig,
    /// The next request identifier to allocate. Monotonically increasing;
    /// an identifier is generated exactly once and never reused.
    pub next_request_id: RequestId,
    /// The address book: every `(peer, address)` pair ever registered.
    pub addresses: Vec<(PeerId, NetworkAddress)>,
    /// Peers with an open connection, each at most once.
    pub connected: Vec<PeerId>,
    /// Requests handed to a connection handler and not yet terminal, as
    /// `(request identifier, peer)` pairs.
    pub outstanding: Vec<(RequestId, PeerId)>,
    /// Requests accepted while their peer had no open connection, oldest
    /// first.
    pub pending_outbound: Vec<PendingOutbound>,
    /// Requests to hand to a peer's connection handler, oldest first.
    pub pending_deliveries: Vec<RequestDelivery>,
    /// Events awaiting the event loop, oldest first.
    pub pending_events: Vec<RequestResponseEvent>,
}

impl RequestResponse {
    /// Whether `peer` has an open connection.
    pub open spec fn is_connected_spec(self, peer: PeerId) -> bool {
        self.connected@.contains(peer)
    }

    /// Whether the manager still owes request `r` a terminal event: `r` is
    /// queued awaiting a connection, handed to a handler, or its terminal
    /// event waits in the event queue.
    pub open spec fn unsettled(self, r: RequestId) -> bool {
        ||| queued_with_id(self.pending_outbound@, r)
        ||| pair_with_id(self.outstanding@, r)
        ||| events_terminal_for(self.pending_events@, r)
    }

    /// Whether request `r` was issued and its single terminal event has been
    /// taken: nothing about `r` remains in the manager.
    pub open spec fn settled(self, r: RequestId) -> bool {
        r < self.next_request_id && !self.unsettled(r)
    }

    /// The manager's invariant: every live request identifier was issued, is
    /// tracked in exactly one place, and at most once there; a peer with an
    /// open connection has no request waiting for connection establishment.
    pub open spec fn wf(self) -> bool {
        &&& pairs_distinct(self.outstanding@)
        &&& (forall|i: int|
            0 <= i < self.outstanding@.len() ==> self.outstanding@[i].0 < self.next_request_id)
        &&& queued_distinct(self.pending_outbound@)
        &&& (forall|i: int|
            0 <= i < self.pending_outbound@.len() ==> self.pending_outbound@[i].request.request_id
                < self.next_request_id)
        &&& events_terminal_distinct(self.pending_events@)
        &&& (forall|i: int|
            0 <= i < self.pending_events@.len() ==> terminal_below(
                self.pending_events@[i],
                self.next_request_id,
            ))
        &&& (forall|r: RequestId|
            !(pair_with_id(self.outstanding@, r) && queued_with_id(self.pending_outbound@, r)))
        &&& (forall|r: RequestId|
            !(pair_with_id(self.outstanding@, r) && events_terminal_for(self.pending_events@, r)))
        &&& (forall|r: RequestId|
            !(queued_with_id(self.pending_outbound@, r) && events_terminal_for(
                self.pending_events@,
                r,
            )))
        &&& self.connected@.no_duplicates()
        &&& (forall|p: PeerId|
            self.connected@.contains(p) ==> !queued_for_peer(self.pending_outbound@, p))
    }

    /// A fresh manager: no addresses, no connections, no live requests; the
    /// first request will get identifier 1.
    pub fn new(config: RequestResponseConfig) -> (r: RequestResponse)
        ensures
            r.config == config,
            r.next_request_id == 1,
            r.addresses@.len() == 0,
            r.connected@.len() == 0,
            r.outstanding@.len() == 0,
            r.pending_outbound@.len() == 0,
            r.pending_deliveries@.len() == 0,
            r.pending_events@.len() == 0,
            r.wf(),
    {
        RequestResponse {
            config,
            next_request_id: 1,
            addresses: Vec::new(),
            connected: Vec::new(),
            outstanding: Vec::new(),
            pending_outbound: Vec::new(),
            pending_deliveries: Vec::new(),
            pending_events: Vec::new(),
        }
    }

    /// Whether `peer` has an open connection.
    pub fn is_connected(&self, peer: PeerId) -> (r: bool)
        ensures
            r == self.is_connected_spec(peer),
    {
        let mut i: usize = 0;
        while i < self.connected.len()
            invariant
                i <= self.connected@.len(),
                forall|k: int| 0 <= k < i ==> self.connected@[k] != peer,
            decreases self.connected@.len() - i,
        {
            if self.connected[i] == peer {
                return true;
            }
            i = i + 1;
        }
        false
    }

    /// Accept one request for `peer`: allocate the next request identifier
    /// and return it at once — this call never blocks on network I/O. If the
    /// peer has an open connection the request becomes a delivery for its
    /// handler; otherwise it waits for connection establishment.
    pub fn send_request(&mut self, peer: PeerId, protocols: Vec<ProtocolId>, payload:
        RequestPayload) -> (r: RequestId)
        requires
            old(self).wf(),
            old(self).next_request_id < RequestId::MAX,
        ensures
            final(self).wf(),
            issues_fresh_id(*old(self), *final(self), r),
            final(self).unsettled(r),
            forall|r2: RequestId| r2 != r ==> (final(self).unsettled(r2) == old(self).unsettled(
                r2,
            )),
            forall|r2: RequestId| old(self).settled(r2) ==> final(self).settled(r2),
            final(self).config == old(self).config,
            final(self).addresses@ == old(self).addresses@,
            final(self).connected@ == old(self).connected@,
            final(self).pending_events@ == old(self).pending_events@,
            if old(self).is_connected_spec(peer) {
                &&& final(self).outstanding@ == old(self).outstanding@.push((r, peer))
                &&& final(self).pending_deliveries@ == old(self).pending_deliveries@.push(
                    (RequestDelivery {
                        peer,
                        request: OutboundRequest { request_id: r, protocols, payload },
                    }),
                )
                &&& final(self).pending_outbound@ == old(self).pending_outbound@
            } else {
                &&& final(self).pending_outbound@ == old(self).pending_outbound@.push(
                    (PendingOutbound {
                        peer,
                        request: OutboundRequest { request_id: r, protocols, payload },
                    }),
                )
                &&& final(self).outstanding@ == old(self).outstanding@
                &&& final(self).pending_deliveries@ == old(self).pending_deliveries@
            },
    {
        let request_id = self.next_request_id;
        self.next_request_id = self.next_request_id + 1;
        let request = OutboundRequest { request_id, protocols, payload };
        proof {
            lemma_fresh_id_absent(*old(self));
        }
        if self.is_connected(peer) {
            self.pending_deliveries.push(RequestDelivery { peer, request });
            self.outstanding.push((request_id, peer));
            proof {
                let pre = *old(self);
                lemma_pair_push(pre.outstanding@, request_id, peer);
                lemma_pairs_push_distinct(pre.outstanding@, request_id, peer);
                assert forall|i: int|
                    0 <= i < self.outstanding@.len() implies self.outstanding@[i].0
                    < self.next_request_id by {
                    if i < pre.outstanding@.len() {
                        assert(self.outstanding@[i] == pre.outstanding@[i]);
                    }
                }
                assert forall|r2: RequestId| !(pair_with_id(self.outstanding@, r2)
                    && queued_with_id(self.pending_outbound@, r2)) by {
                    if r2 != request_id {
                        assert(pair_with_id(self.outstanding@, r2) == pair_with_id(
                            pre.outstanding@,
                            r2,
                        ));
                    }
                }
                assert forall|r2: RequestId| !(pair_with_id(self.outstanding@, r2)
                    && events_terminal_for(self.pending_events@, r2)) by {
                    if r2 != request_id {
                        assert(pair_with_id(self.outstanding@, r2) == pair_with_id(
                            pre.outstanding@,
                            r2,
                        ));
                    }
                }
                assert forall|r2: RequestId| r2 != request_id implies (self.unsettled(r2)
                    == pre.unsettled(r2)) by {
                    assert(pair_with_id(self.outstanding@, r2) == pair_with_id(
                        pre.outstanding@,
                        r2,
                    ));
                }
                assert forall|r2: RequestId| pre.settled(r2) implies self.settled(r2) by {
                    assert(r2 != request_id);
                }
            }
        } else {
            self.pending_outbound.push(PendingOutbound { peer, request });
            proof {
                let pre = *old(self);
                let entry = (PendingOutbound {
                    peer,
                    request: OutboundRequest {
                        request_id,
                        protocols: protocols,
                        payload: payload,
                    },
                });
                lemma_queued_push(pre.pending_outbound@, entry);
                lemma_queued_push_distinct(pre.pending_outbound@, entry);
                assert forall|i: int|
                    0 <= i < self.pending_outbound@.len() implies self.pending_outbound@[i].request.request_id
                    < self.next_request_id by {
                    if i < pre.pending_outbound@.len() {
                        assert(self.pending_outbound@[i] == pre.pending_outbound@[i]);
                    }
                }
                assert forall|r2: RequestId| !(pair_with_id(self.outstanding@, r2)
                    && queued_with_id(self.pending_outbound@, r2)) by {
                    if r2 != request_id {
                        assert(queued_with_id(self.pending_outbound@, r2) == queued_with_id(
                            pre.pending_outbound@,
                            r2,
                        ));
                    }
                }
                assert forall|r2: RequestId| !(queued_with_id(self.pending_outbound@, r2)
                    && events_terminal_for(self.pending_events@, r2)) by {
                    if r2 != request_id {
                        assert(queued_with_id(self.pending_outbound@, r2) == queued_with_id(
                            pre.pending_outbound@,
                            r2,
                        ));
                    }
                }
                assert forall|p2: PeerId| self.connected@.contains(p2) implies !queued_for_peer(
                    self.pending_outbound@,
                    p2,
                ) by {
                    assert(p2 != peer);
                    assert(queued_for_peer(self.pending_outbound@, p2) == (queued_for_peer(
                        pre.pending_outbound@,
                        p2,
                    ) || p2 == peer));
                }
                assert forall|r2: RequestId| r2 != request_id implies (self.unsettled(r2)
                    == pre.unsettled(r2)) by {
                    assert(queued_with_id(self.pending_outbound@, r2) == queued_with_id(
                        pre.pending_outbound@,
                        r2,
                    ));
                }
                assert forall|r2: RequestId| pre.settled(r2) implies self.settled(r2) by {
                    assert(r2 != request_id);
                }
            }
        }
        request_id
    }

    /// Take note of one event of a peer's connection handler. A terminal
    /// outcome — a response, a timeout, a failed negotiation — settles into
    /// the event queue and releases the identifier from the set handed to
    /// handlers; an event for an identifier this peer does not own is
    /// ignored, so a handler can never settle a request twice nor one that
    /// is not its own. Inbound failures are relayed as information and touch
    /// no request.
    pub fn on_handler_event(&mut self, peer: PeerId, event: RequestResponseHandlerEvent)
        requires
            old(self).wf(),
        ensures
            final(self).wf(),
            forall|r2: RequestId| old(self).settled(r2) ==> final(self).settled(r2),
            forall|r2: RequestId| final(self).unsettled(r2) == old(self).unsettled(r2),
            final(self).config == old(self).config,
            final(self).next_request_id == old(self).next_request_id,
            final(self).addresses@ == old(self).addresses@,
            final(self).connected@ == old(self).connected@,
            final(self).pending_outbound@ == old(self).pending_outbound@,
            final(self).pending_deliveries@ == old(self).pending_deliveries@,
            match event {
                RequestResponseHandlerEvent::Response { request_id, response } => if pair_present(
                    old(self).outstanding@,
                    request_id,
                    peer,
                ) {
                    &&& !pair_with_id(final(self).outstanding@, request_id)
                    &&& final(self).pending_events@ == old(self).pending_events@.push(
                        (RequestResponseEvent::Message {
                            peer,
                            message: RequestResponseMessage::Response { request_id, response },
                        }),
                    )
                } else {
                    &&& final(self).outstanding@ == old(self).outstanding@
                    &&& final(self).pending_events@ == old(self).pending_events@
                },
                RequestResponseHandlerEvent::OutboundTimeout(request_id) => if pair_present(
                    old(self).outstanding@,
                    request_id,
                    peer,
                ) {
                    &&& !pair_with_id(final(self).outstanding@, request_id)
                    &&& final(self).pending_events@ == old(self).pending_events@.push(
                        (RequestResponseEvent::OutboundFailure {
                            peer,
                            request_id,
                            error: OutboundFailure::Timeout,
                        }),
                    )
                } else {
                    &&& final(self).outstanding@ == old(self).outstanding@
                    &&& final(self).pending_events@ == old(self).pending_events@
                },
                RequestResponseHandlerEvent::OutboundUnsupportedProtocols(request_id) => if pair_present(
                    old(self).outstanding@,
                    request_id,
                    peer,
                ) {
                    &&& !pair_with_id(final(self).outstanding@, request_id)
                    &&& final(self).pending_events@ == old(self).pending_events@.push(
                        (RequestResponseEvent::OutboundFailure {
                            peer,
                            request_id,
                            error: OutboundFailure::UnsupportedProtocols,
                        }),
                    )
                } else {
                    &&& final(self).outstanding@ == old(self).outstanding@
                    &&& final(self).pending_events@ == old(self).pending_events@
                },
                RequestResponseHandlerEvent::InboundTimeout => {
                    &&& final(self).outstanding@ == old(self).outstanding@
                    &&& final(self).pending_events@ == old(self).pending_events@.push(
                        (RequestResponseEvent::InboundFailure {
                            peer,
                            error: InboundFailure::Timeout,
                        }),
                    )
                },
                RequestResponseHandlerEvent::InboundUnsupportedProtocols => {
                    &&& final(self).outstanding@ == old(self).outstanding@
                    &&& final(self).pending_events@ == old(self).pending_events@.push(
                        (RequestResponseEvent::InboundFailure {
                            peer,
                            error: InboundFailure::UnsupportedProtocols,
                        }),
                    )
                },
            },
    {
        match event {
            RequestResponseHandlerEvent::Response { request_id, response } => {
                self.settle_and_emit(peer, request_id, RequestResponseEvent::Message {
                    peer,
                    message: RequestResponseMessage::Response { request_id, response },
                });
            },
            RequestResponseHandlerEvent::OutboundTimeout(request_id) => {
                self.settle_and_emit(peer, request_id, RequestResponseEvent::OutboundFailure {
                    peer,
                    request_id,
                    error: OutboundFailure::Timeout,
                });
            },
            RequestResponseHandlerEvent::OutboundUnsupportedProtocols(request_id) => {
                self.settle_and_emit(peer, request_id, RequestResponseEvent::OutboundFailure {
                    peer,
                    request_id,
                    error: OutboundFailure::UnsupportedProtocols,
                });
            },
            RequestResponseHandlerEvent::InboundTimeout => {
                self.emit_info(RequestResponseEvent::InboundFailure {
                    peer,
                    error: InboundFailure::Timeout,
                });
            },
            RequestResponseHandlerEvent::InboundUnsupportedProtocols => {
                self.emit_info(RequestResponseEvent::InboundFailure {
                    peer,
                    error: InboundFailure::UnsupportedProtocols,
                });
            },
        }
    }

    /// Move the terminal outcome of request `request_id`, owned by `peer`,
    /// from the set handed to handlers into the event queue — if this peer
    /// does own the identifier; otherwise change nothing.
    fn settle_and_emit(&mut self, peer: PeerId, request_id: RequestId, event:
        RequestResponseEvent) -> (emitted: bool)
        requires
            old(self).wf(),
            event.terminal_id() == Some(request_id),
        ensures
            final(self).wf(),
            emitted == pair_present(old(self).outstanding@, request_id, peer),
            if emitted {
                &&& !pair_with_id(final(self).outstanding@, request_id)
                &&& final(self).pending_events@ == old(self).pending_events@.push(event)
            } else {
                &&& final(self).outstanding@ == old(self).outstanding@
                &&& final(self).pending_events@ == old(self).pending_events@
            },
            forall|r2: RequestId| final(self).unsettled(r2) == old(self).unsettled(r2),
            forall|r2: RequestId| old(self).settled(r2) ==> final(self).settled(r2),
            final(self).config == old(self).config,
            final(self).next_request_id == old(self).next_request_id,
            final(self).addresses@ == old(self).addresses@,
            final(self).connected@ == old(self).connected@,
            final(self).pending_outbound@ == old(self).pending_outbound@,
            final(self).pending_deliveries@ == old(self).pending_deliveries@,
    {
        let found = self.release_outstanding(request_id, peer);
        if found {
            let ghost mid = *self;
            self.pending_events.push(event);
            proof {
                let pre = *old(self);
                lemma_events_push(mid.pending_events@, event);
                // The identifier was outstanding, so no terminal event for it
                // was queued yet.
                assert(pair_with_id(pre.outstanding@, request_id)) by {
                    let k = choose|k: int|
                        0 <= k < pre.outstanding@.len() && pre.outstanding@[k] == (
                        request_id,
                        peer,
                        );
                    assert(pre.outstanding@[k].0 == request_id);
                }
                assert(!events_terminal_for(pre.pending_events@, request_id));
                lemma_events_push_distinct(mid.pending_events@, event);
                assert forall|i: int|
                    0 <= i < self.pending_events@.len() implies terminal_below(
                    self.pending_events@[i],
                    self.next_request_id,
                ) by {
                    if i < mid.pending_events@.len() {
                        assert(self.pending_events@[i] == mid.pending_events@[i]);
                    } else {
                        assert(self.pending_events@[i] == event);
                    }
                }
                assert forall|r2: RequestId| !(pair_with_id(self.outstanding@, r2)
                    && events_terminal_for(self.pending_events@, r2)) by {
                    if r2 == request_id {
                        assert(!pair_with_id(self.outstanding@, request_id));
                    } else {
                        assert(events_terminal_for(self.pending_events@, r2)
                            == events_terminal_for(pre.pending_events@, r2));
                    }
                }
                assert forall|r2: RequestId| !(queued_with_id(self.pending_outbound@, r2)
                    && events_terminal_for(self.pending_events@, r2)) by {
                    if r2 == request_id {
                        assert(!queued_with_id(pre.pending_outbound@, request_id));
                    } else {
                        assert(events_terminal_for(self.pending_events@, r2)
                            == events_terminal_for(pre.pending_events@, r2));
                    }
                }
                assert forall|r2: RequestId| self.unsettled(r2) == pre.unsettled(r2) by {
                    if r2 == request_id {
                        assert(events_terminal_for(self.pending_events@, request_id));
                        assert(pair_with_id(pre.outstanding@, request_id));
                    } else {
                        assert(events_terminal_for(self.pending_events@, r2)
                            == events_terminal_for(pre.pending_events@, r2));
                        assert(pair_with_id(self.outstanding@, r2) == pair_with_id(
                            pre.outstanding@,
                            r2,
                        ));
                    }
                }
            }
            true
        } else {
            false
        }
    }

    /// Append one informational event — terminal for no request — to the
    /// event queue.
    fn emit_info(&mut self, event: RequestResponseEvent)
        requires
            old(self).wf(),
            event.terminal_id() is None,
        ensures
            final(self).wf(),
            final(self).pending_events@ == old(self).pending_events@.push(event),
            forall|r2: RequestId| final(self).unsettled(r2) == old(self).unsettled(r2),
            forall|r2: RequestId| old(self).settled(r2) ==> final(self).settled(r2),
            final(self).config == old(self).config,
            final(self).next_request_id == old(self).next_request_id,
            final(self).addresses@ == old(self).addresses@,
            final(self).connected@ == old(self).connected@,
            final(self).outstanding@ == old(self).outstanding@,
            final(self).pending_outbound@ == old(self).pending_outbound@,
            final(self).pending_deliveries@ == old(self).pending_deliveries@,
    {
        let ghost pre = *self;
        self.pending_events.push(event);
        proof {
            lemma_events_push(pre.pending_events@, event);
            lemma_events_push_distinct(pre.pending_events@, event);
            assert forall|i: int|
                0 <= i < self.pending_events@.len() implies terminal_below(
                self.pending_events@[i],
                self.next_request_id,
            ) by {
                if i < pre.pending_events@.len() {
                    assert(self.pending_events@[i] == pre.pending_events@[i]);
                } else {
                    assert(self.pending_events@[i] == event);
                }
            }
            assert forall|r2: RequestId| events_terminal_for(self.pending_events@, r2)
                == events_terminal_for(pre.pending_events@, r2) by {}
        }
    }

    /// Remove the pair `(request_id, peer)` from the set of requests handed
    /// to handlers, if it is there; report whether it was. The identifier is
    /// tracked at most once, so removal releases it entirely.
    #[verifier::loop_isolation(false)]
    fn release_outstanding(&mut self, request_id: RequestId, peer: PeerId) -> (found: bool)
        requires
            old(self).wf(),
        ensures
            final(self).wf(),
            found == pair_present(old(self).outstanding@, request_id, peer),
            if found {
                &&& !pair_with_id(final(self).outstanding@, request_id)
                &&& (forall|r2: RequestId| r2 != request_id ==> (pair_with_id(
                    final(self).outstanding@,
                    r2,
                ) == pair_with_id(old(self).outstanding@, r2)))
            } else {
                final(self).outstanding@ == old(self).outstanding@
            },
            final(self).config == old(self).config,
            final(self).next_request_id == old(self).next_request_id,
            final(self).addresses@ == old(self).addresses@,
            final(self).connected@ == old(self).connected@,
            final(self).pending_outbound@ == old(self).pending_outbound@,
            final(self).pending_deliveries@ == old(self).pending_deliveries@,
            final(self).pending_events@ == old(self).pending_events@,
    {
        let mut i: usize = 0;
        while i < self.outstanding.len()
            invariant
                i <= self.outstanding@.len(),
                forall|k: int| 0 <= k < i ==> self.outstanding@[k] != (request_id, peer),
                *self == *old(self),
            decreases self.outstanding@.len() - i,
        {
            let (r, p) = self.outstanding[i];
            if r == request_id && p == peer {
                proof {
                    let s = old(self).outstanding@;
                    assert(s[i as int] == (request_id, peer));
                    assert(pair_present(s, request_id, peer));
                    lemma_pair_remove(s, i as int);
                }
                self.outstanding.remove(i);
                proof {
                    let s = old(self).outstanding@;
                    assert(self.outstanding@ == s.remove(i as int));
                    assert(s[i as int].0 == request_id);
                    assert forall|k: int|
                        0 <= k < self.outstanding@.len() implies self.outstanding@[k].0
                        < self.next_request_id by {
                        if k < i {
                            assert(self.outstanding@[k] == s[k]);
                        } else {
                            assert(self.outstanding@[k] == s[k + 1]);
                        }
                    }
                    assert forall|r2: RequestId| !(pair_with_id(self.outstanding@, r2)
                        && queued_with_id(self.pending_outbound@, r2)) by {
                        if r2 != request_id {
                            assert(pair_with_id(self.outstanding@, r2) == pair_with_id(s, r2));
                        } else {
                            assert(!pair_with_id(self.outstanding@, request_id));
                        }
                    }
                    assert forall|r2: RequestId| !(pair_with_id(self.outstanding@, r2)
                        && events_terminal_for(self.pending_events@, r2)) by {
                        if r2 != request_id {
                            assert(pair_with_id(self.outstanding@, r2) == pair_with_id(s, r2));
                        } else {
                            assert(!pair_with_id(self.outstanding@, request_id));
                        }
                    }
                }
                return true;
            }
            i = i + 1;
        }
        proof {
            assert(!pair_present(self.outstanding@, request_id, peer)) by {
                if pair_present(self.outstanding@, request_id, peer) {
                    let k = choose|k: int|
                        0 <= k < self.outstanding@.len() && self.outstanding@[k] == (
                        request_id,
                        peer,
                        );
                }
            }
        }
        false
    }

    /// Register a known address for a peer: additive only, and idempotent —
    /// a pair already in the book is not added again.
    #[verifier::loop_isolation(false)]
    pub fn add_address(&mut self, peer: PeerId, address: NetworkAddress)
        requires
            old(self).wf(),
        ensures
            final(self).wf(),
            book_has(final(self).addresses@, peer, address@),
            if book_has(old(self).addresses@, peer, address@) {
                final(self).addresses@ == old(self).addresses@
            } else {
                final(self).addresses@ == old(self).addresses@.push((peer, address))
            },
            forall|p2: PeerId, a2: Seq<u8>|
                book_has(final(self).addresses@, p2, a2) == (book_has(old(self).addresses@, p2, a2)
                    || (p2 == peer && a2 == address@)),
            final(self).config == old(self).config,
            final(self).next_request_id == old(self).next_request_id,
            final(self).connected@ == old(self).connected@,
            final(self).outstanding@ == old(self).outstanding@,
            final(self).pending_outbound@ == old(self).pending_outbound@,
            final(self).pending_deliveries@ == old(self).pending_deliveries@,
            final(self).pending_events@ == old(self).pending_events@,
            forall|r2: RequestId| final(self).unsettled(r2) == old(self).unsettled(r2),
            forall|r2: RequestId| old(self).settled(r2) ==> final(self).settled(r2),
    {
        let mut i: usize = 0;
        while i < self.addresses.len()
            invariant
                i <= self.addresses@.len(),
                forall|k: int|
                    0 <= k < i ==> !(self.addresses@[k].0 == peer && self.addresses@[k].1@
                        == address@),
                *self == *old(self),
            decreases self.addresses@.len() - i,
        {
            if self.addresses[i].0 == peer && bytes_eq(&self.addresses[i].1, &address) {
                proof {
                    assert(book_has(self.addresses@, peer, address@)) by {
                        assert(self.addresses@[i as int].0 == peer && self.addresses@[i as int].1@
                            == address@);
                    }
                }
                return;
            }
            i = i + 1;
        }
        proof {
            assert(!book_has(self.addresses@, peer, address@)) by {
                if book_has(self.addresses@, peer, address@) {
                    let k = choose|k: int|
                        0 <= k < self.addresses@.len() && self.addresses@[k].0 == peer
                            && self.addresses@[k].1@ == address@;
                }
            }
        }
        let ghost b0 = self.addresses@;
        self.addresses.push((peer, address));
        proof {
            assert(self.addresses@[b0.len() as int] == (peer, address));
            assert forall|p2: PeerId, a2: Seq<u8>|
                book_has(self.addresses@, p2, a2) == (book_has(b0, p2, a2) || (p2 == peer && a2
                    == address@)) by {
                if book_has(b0, p2, a2) {
                    let k = choose|k: int| 0 <= k < b0.len() && b0[k].0 == p2 && b0[k].1@ == a2;
                    assert(self.addresses@[k].0 == p2 && self.addresses@[k].1@ == a2);
                }
                if p2 == peer && a2 == address@ {
                    assert(self.addresses@[b0.len() as int].0 == p2
                        && self.addresses@[b0.len() as int].1@ == a2);
                }
                if book_has(self.addresses@, p2, a2) && !(p2 == peer && a2 == address@) {
                    let k = choose|k: int|
                        0 <= k < self.addresses@.len() && self.addresses@[k].0 == p2
                            && self.addresses@[k].1@ == a2;
                    assert(b0[k].0 == p2 && b0[k].1@ == a2);
                }
            }
        }
    }

    /// Every address registered for `peer`, in registration order.
    #[verifier::loop_isolation(false)]
    pub fn addresses_of(&self, peer: PeerId) -> (r: Vec<NetworkAddress>)
        ensures
            forall|k: int| 0 <= k < r@.len() ==> book_has(self.addresses@, peer, r@[k]@),
            forall|a2: Seq<u8>|
                book_has(self.addresses@, peer, a2) ==> (exists|k: int|
                    0 <= k < r@.len() && r@[k]@ == a2),
    {
        let mut r: Vec<NetworkAddress> = Vec::new();
        let mut i: usize = 0;
        while i < self.addresses.len()
            invariant
                i <= self.addresses@.len(),
                forall|k: int| 0 <= k < r@.len() ==> book_has(self.addresses@, peer, r@[k]@),
                forall|k: int|
                    0 <= k < i && self.addresses@[k].0 == peer ==> (exists|k2: int|
                        0 <= k2 < r@.len() && r@[k2]@ == self.addresses@[k].1@),
            decreases self.addresses@.len() - i,
        {
            if self.addresses[i].0 == peer {
                let ghost rpre = r@;
                let a = clone_bytes(&self.addresses[i].1);
                r.push(a);
                proof {
                    assert(r@[rpre.len() as int]@ == self.addresses@[i as int].1@);
                    assert forall|k: int|
                        0 <= k < r@.len() implies book_has(self.addresses@, peer, r@[k]@) by {
                        if k < rpre.len() {
                            assert(r@[k] == rpre[k]);
                        } else {
                            assert(self.addresses@[i as int].0 == peer
                                && self.addresses@[i as int].1@ == r@[k]@);
                        }
                    }
                    assert forall|k: int|
                        0 <= k < i + 1 && self.addresses@[k].0 == peer implies (exists|k2: int|
                        0 <= k2 < r@.len() && r@[k2]@ == self.addresses@[k].1@) by {
                        if k < i {
                            let k2 = choose|k2: int|
                                0 <= k2 < rpre.len() && rpre[k2]@ == self.addresses@[k].1@;
                            assert(r@[k2]@ == self.addresses@[k].1@);
                        } else {
                            assert(r@[rpre.len() as int]@ == self.addresses@[k].1@);
                        }
                    }
                }
            }
            i = i + 1;
        }
        proof {
            assert forall|a2: Seq<u8>| book_has(self.addresses@, peer, a2) implies (exists|k: int|
                0 <= k < r@.len() && r@[k]@ == a2) by {
                let k = choose|k: int|
                    0 <= k < self.addresses@.len() && self.addresses@[k].0 == peer
                        && self.addresses@[k].1@ == a2;
                let k2 = choose|k2: int|
                    0 <= k2 < r@.len() && r@[k2]@ == self.addresses@[k].1@;
                assert(r@[k2]@ == a2);
            }
        }
        r
    }

    /// Take note of a connection to `peer` having been established. The
    /// first connection moves every request queued for the peer over to its
    /// connection handler: each becomes a delivery and counts as handed
    /// over. A connection to an already-connected peer changes nothing.
    #[verifier::loop_isolation(false)]
    pub fn on_connection_established(&mut self, peer: PeerId)
        requires
            old(self).wf(),
        ensures
            final(self).wf(),
            final(self).is_connected_spec(peer),
            forall|p2: PeerId| final(self).is_connected_spec(p2) == (old(self).is_connected_spec(
                p2,
            ) || p2 == peer),
            forall|r2: RequestId| final(self).unsettled(r2) == old(self).unsettled(r2),
            forall|r2: RequestId| old(self).settled(r2) ==> final(self).settled(r2),
            final(self).config == old(self).config,
            final(self).next_request_id == old(self).next_request_id,
            final(self).addresses@ == old(self).addresses@,
            final(self).pending_events@ == old(self).pending_events@,
            if old(self).is_connected_spec(peer) {
                &&& final(self).connected@ == old(self).connected@
                &&& final(self).outstanding@ == old(self).outstanding@
                &&& final(self).pending_outbound@ == old(self).pending_outbound@
                &&& final(self).pending_deliveries@ == old(self).pending_deliveries@
            } else {
                &&& final(self).connected@ == old(self).connected@.push(peer)
                &&& !queued_for_peer(final(self).pending_outbound@, peer)
                &&& (forall|r2: RequestId, p2: PeerId|
                    p2 != peer ==> queued_present(final(self).pending_outbound@, r2, p2)
                        == queued_present(old(self).pending_outbound@, r2, p2))
                &&& (forall|r2: RequestId|
                    pair_with_id(final(self).outstanding@, r2) == (pair_with_id(
                        old(self).outstanding@,
                        r2,
                    ) || queued_present(old(self).pending_outbound@, r2, peer)))
                &&& (forall|r2: RequestId, p2: PeerId|
                    delivery_present(final(self).pending_deliveries@, r2, p2) == (
                    delivery_present(old(self).pending_deliveries@, r2, p2) || (p2 == peer
                        && queued_present(old(self).pending_outbound@, r2, peer))))
            },
    {
        if self.is_connected(peer) {
            return;
        }
        let ghost q0 = self.pending_outbound@;
        let ghost o0 = self.outstanding@;
        let ghost d0 = self.pending_deliveries@;
        let mut i: usize = 0;
        while i < self.pending_outbound.len()
            invariant
                i <= self.pending_outbound@.len(),
                forall|k: int| 0 <= k < i ==> self.pending_outbound@[k].peer != peer,
                self.config == old(self).config,
                self.next_request_id == old(self).next_request_id,
                self.addresses@ == old(self).addresses@,
                self.connected@ == old(self).connected@,
                self.pending_events@ == old(self).pending_events@,
                pairs_distinct(self.outstanding@),
                forall|k: int|
                    0 <= k < self.outstanding@.len() ==> self.outstanding@[k].0
                        < self.next_request_id,
                queued_distinct(self.pending_outbound@),
                forall|k: int|
                    0 <= k < self.pending_outbound@.len()
                        ==> self.pending_outbound@[k].request.request_id < self.next_request_id,
                forall|r2: RequestId|
                    !(pair_with_id(self.outstanding@, r2) && queued_with_id(
                        self.pending_outbound@,
                        r2,
                    )),
                forall|r2: RequestId|
                    !(pair_with_id(self.outstanding@, r2) && events_terminal_for(
                        self.pending_events@,
                        r2,
                    )),
                forall|r2: RequestId|
                    !(queued_with_id(self.pending_outbound@, r2) && events_terminal_for(
                        self.pending_events@,
                        r2,
                    )),
                forall|r2: RequestId, p2: PeerId|
                    queued_present(self.pending_outbound@, r2, p2) ==> queued_present(q0, r2, p2),
                forall|r2: RequestId, p2: PeerId|
                    p2 != peer ==> queued_present(self.pending_outbound@, r2, p2)
                        == queued_present(q0, r2, p2),
                forall|r2: RequestId|
                    pair_with_id(self.outstanding@, r2) == (pair_with_id(o0, r2) || (
                    queued_with_id(q0, r2) && !queued_with_id(self.pending_outbound@, r2))),
                forall|r2: RequestId, p2: PeerId|
                    delivery_present(self.pending_deliveries@, r2, p2) ==> (delivery_present(
                        d0,
                        r2,
                        p2,
                    ) || (p2 == peer && queued_present(q0, r2, peer))),
                forall|r2: RequestId, p2: PeerId|
                    delivery_present(d0, r2, p2) ==> delivery_present(
                        self.pending_deliveries@,
                        r2,
                        p2,
                    ),
                forall|r2: RequestId|
                    (queued_with_id(q0, r2) && !queued_with_id(self.pending_outbound@, r2))
                        ==> delivery_present(self.pending_deliveries@, r2, peer),
            decreases self.pending_outbound@.len() - i,
        {
            if self.pending_outbound[i].peer == peer {
                let ghost qcur = self.pending_outbound@;
                let ghost ocur = self.outstanding@;
                let ghost dcur = self.pending_deliveries@;
                proof {
                    lemma_queued_remove(qcur, i as int);
                }
                let entry = self.pending_outbound.remove(i);
                let rid = entry.request.request_id;
                proof {
                    assert(entry == qcur[i as int]);
                    assert(queued_with_id(qcur, rid)) by {
                        assert(qcur[i as int].request.request_id == rid);
                    }
                    assert(queued_present(qcur, rid, peer)) by {
                        assert(qcur[i as int].request.request_id == rid && qcur[i as int].peer
                            == peer);
                    }
                    assert(!pair_with_id(ocur, rid));
                    assert(rid < self.next_request_id);
                    lemma_pair_push(ocur, rid, peer);
                    lemma_pairs_push_distinct(ocur, rid, peer);
                }
                self.outstanding.push((rid, peer));
                self.pending_deliveries.push(RequestDelivery { peer, request: entry.request });
                proof {
                    let ghost e = self.pending_deliveries@[dcur.len() as int];
                    assert(self.pending_deliveries@ == dcur.push(e));
                    assert(e.peer == peer && e.request.request_id == rid);
                    lemma_delivery_push(dcur, e);
                    let qnew = self.pending_outbound@;
                    // The removed identifier is queued in the entry state but
                    // queued no longer.
                    assert(queued_present(q0, rid, peer));
                    assert(queued_with_id(q0, rid));
                    assert(!queued_with_id(qnew, rid));
                    assert forall|r2: RequestId|
                        pair_with_id(self.outstanding@, r2) == (pair_with_id(o0, r2) || (
                        queued_with_id(q0, r2) && !queued_with_id(qnew, r2))) by {
                        if r2 != rid {
                            assert(pair_with_id(self.outstanding@, r2) == pair_with_id(
                                ocur,
                                r2,
                            ));
                            assert(queued_with_id(qnew, r2) == queued_with_id(qcur, r2));
                        }
                    }
                    assert forall|r2: RequestId, p2: PeerId|
                        delivery_present(self.pending_deliveries@, r2, p2) implies (
                    delivery_present(d0, r2, p2) || (p2 == peer && queued_present(
                        q0,
                        r2,
                        peer,
                    ))) by {
                        if !(r2 == rid && p2 == peer) {
                            assert(delivery_present(self.pending_deliveries@, r2, p2)
                                == delivery_present(dcur, r2, p2));
                        }
                    }
                    assert forall|r2: RequestId, p2: PeerId|
                        delivery_present(d0, r2, p2) implies delivery_present(
                        self.pending_deliveries@,
                        r2,
                        p2,
                    ) by {
                        if !(r2 == rid && p2 == peer) {
                            assert(delivery_present(self.pending_deliveries@, r2, p2)
                                == delivery_present(dcur, r2, p2));
                        }
                    }
                    assert forall|r2: RequestId|
                        (queued_with_id(q0, r2) && !queued_with_id(qnew, r2)) implies
                        delivery_present(self.pending_deliveries@, r2, peer) by {
                        if r2 != rid {
                            assert(queued_with_id(qnew, r2) == queued_with_id(qcur, r2));
                            assert(delivery_present(dcur, r2, peer));
                            assert(delivery_present(self.pending_deliveries@, r2, peer)
                                == delivery_present(dcur, r2, peer));
                        }
                    }
                    assert forall|r2: RequestId, p2: PeerId|
                        p2 != peer implies queued_present(qnew, r2, p2) == queued_present(
                        q0,
                        r2,
                        p2,
                    ) by {
                        if r2 != rid {
                            assert(queued_present(qnew, r2, p2) == queued_present(qcur, r2, p2));
                        } else {
                            assert(!queued_with_id(qnew, rid));
                            if queued_present(q0, rid, p2) {
                                // The identifier is queued once in the entry
                                // state, addressed to `peer`.
                                let k1 = choose|k: int|
                                    0 <= k < q0.len() && q0[k].request.request_id == rid
                                        && q0[k].peer == p2;
                                let k2 = choose|k: int|
                                    0 <= k < q0.len() && q0[k].request.request_id == rid
                                        && q0[k].peer == peer;
                                assert(k1 == k2);
                            }
                        }
                    }
                    assert forall|r2: RequestId|
                        !(pair_with_id(self.outstanding@, r2) && queued_with_id(qnew, r2)) by {
                        if r2 != rid {
                            assert(pair_with_id(self.outstanding@, r2) == pair_with_id(
                                ocur,
                                r2,
                            ));
                            assert(queued_with_id(qnew, r2) == queued_with_id(qcur, r2));
                        } else {
                            assert(!queued_with_id(qnew, rid));
                        }
                    }
                    assert forall|r2: RequestId|
                        !(pair_with_id(self.outstanding@, r2) && events_terminal_for(
                            self.pending_events@,
                            r2,
                        )) by {
                        if r2 != rid {
                            assert(pair_with_id(self.outstanding@, r2) == pair_with_id(
                                ocur,
                                r2,
                            ));
                        } else {
                            assert(!events_terminal_for(self.pending_events@, rid));
                        }
                    }
                    assert forall|k: int| 0 <= k < i implies self.pending_outbound@[k].peer
                        != peer by {
                        assert(self.pending_outbound@[k] == qcur[k]);
                    }
                }
            } else {
                i = i + 1;
            }
        }
        self.connected.push(peer);
        proof {
            let qnew = self.pending_outbound@;
            let pre = *old(self);
            assert(self.connected@ == pre.connected@.push(peer));
            assert(self.connected@[pre.connected@.len() as int] == peer);
            assert(self.is_connected_spec(peer));
            assert forall|p2: PeerId| self.is_connected_spec(p2) == (pre.is_connected_spec(p2)
                || p2 == peer) by {
                if pre.is_connected_spec(p2) {
                    let k = choose|k: int|
                        0 <= k < pre.connected@.len() && pre.connected@[k] == p2;
                    assert(self.connected@[k] == p2);
                }
                if self.is_connected_spec(p2) && p2 != peer {
                    let k = choose|k: int| 0 <= k < self.connected@.len() && self.connected@[k]
                        == p2;
                    assert(pre.connected@[k] == p2);
                }
            }
            assert(self.connected@.no_duplicates()) by {
                assert forall|a: int, b: int|
                    0 <= a < b < self.connected@.len() implies self.connected@[a]
                    != self.connected@[b] by {
                    if b == pre.connected@.len() {
                        assert(self.connected@[a] == pre.connected@[a]);
                        if pre.connected@[a] == peer {
                            assert(pre.connected@.contains(peer));
                        }
                    } else {
                        assert(self.connected@[a] == pre.connected@[a] && self.connected@[b]
                            == pre.connected@[b]);
                    }
                }
            }
            // Nothing is queued for `peer` any more, and queued-for stays
            // within the entry state for everyone else.
            assert(!queued_for_peer(qnew, peer)) by {
                if queued_for_peer(qnew, peer) {
                    let k = choose|k: int| 0 <= k < qnew.len() && qnew[k].peer == peer;
                }
            }
            assert forall|p2: PeerId| self.connected@.contains(p2) implies !queued_for_peer(
                qnew,
                p2,
            ) by {
                if p2 != peer && queued_for_peer(qnew, p2) {
                    let k = choose|k: int| 0 <= k < qnew.len() && qnew[k].peer == p2;
                    assert(queued_present(qnew, qnew[k].request.request_id, p2));
                    assert(queued_present(q0, qnew[k].request.request_id, p2));
                    assert(queued_for_peer(q0, p2)) by {
                        let k2 = choose|k2: int|
                            0 <= k2 < q0.len() && q0[k2].request.request_id
                                == qnew[k].request.request_id && q0[k2].peer == p2;
                        assert(q0[k2].peer == p2);
                    }
                    assert(pre.is_connected_spec(p2));
                }
            }
            // The moved identifiers are exactly those queued for `peer` in
            // the entry state.
            assert forall|r2: RequestId| (queued_with_id(q0, r2) && !queued_with_id(qnew, r2))
                == queued_present(q0, r2, peer) by {
                if queued_with_id(q0, r2) && !queued_with_id(qnew, r2) {
                    let k = choose|k: int| 0 <= k < q0.len() && q0[k].request.request_id == r2;
                    if q0[k].peer != peer {
                        assert(queued_present(q0, r2, q0[k].peer));
                        assert(queued_present(qnew, r2, q0[k].peer));
                        assert(queued_with_id(qnew, r2)) by {
                            let k2 = choose|k2: int|
                                0 <= k2 < qnew.len() && qnew[k2].request.request_id == r2
                                    && qnew[k2].peer == q0[k].peer;
                        }
                    }
                    assert(queued_present(q0, r2, q0[k].peer));
                }
                if queued_present(q0, r2, peer) {
                    let k = choose|k: int|
                        0 <= k < q0.len() && q0[k].request.request_id == r2 && q0[k].peer
                            == peer;
                    assert(queued_with_id(q0, r2));
                    if queued_with_id(qnew, r2) {
                        let k2 = choose|k2: int|
                            0 <= k2 < qnew.len() && qnew[k2].request.request_id == r2;
                        assert(qnew[k2].peer != peer);
                        assert(queued_present(qnew, r2, qnew[k2].peer));
                        assert(queued_present(q0, r2, qnew[k2].peer));
                        let k3 = choose|k3: int|
                            0 <= k3 < q0.len() && q0[k3].request.request_id == r2 && q0[k3].peer
                                == qnew[k2].peer;
                        assert(k3 == k);
                    }
                }
            }
            assert forall|r2: RequestId, p2: PeerId|
                delivery_present(self.pending_deliveries@, r2, p2) == (delivery_present(
                    d0,
                    r2,
                    p2,
                ) || (p2 == peer && queued_present(q0, r2, peer))) by {
                if p2 == peer && queued_present(q0, r2, peer) {
                    assert(queued_with_id(q0, r2) && !queued_with_id(qnew, r2));
                }
            }
            assert forall|r2: RequestId| self.unsettled(r2) == pre.unsettled(r2) by {
                assert(pair_with_id(self.outstanding@, r2) == (pair_with_id(o0, r2) || (
                queued_with_id(q0, r2) && !queued_with_id(qnew, r2))));
                if queued_with_id(qnew, r2) {
                    let k = choose|k: int| 0 <= k < qnew.len() && qnew[k].request.request_id
                        == r2;
                    assert(queued_present(qnew, r2, qnew[k].peer));
                    assert(queued_present(q0, r2, qnew[k].peer));
                    assert(queued_with_id(q0, r2));
                }
            }
            assert forall|r2: RequestId| pre.settled(r2) implies self.settled(r2) by {}
        }
    }

    /// Take note of the connection to `peer` having closed. The connection
    /// handler and its queues die with the connection, so every request
    /// handed to it and not yet terminal is resolved — never silently
    /// dropped: each fails with `ConnectionClosed`, appended to the event
    /// queue.
    #[verifier::loop_isolation(false)]
    pub fn on_connection_closed(&mut self, peer: PeerId)
        requires
            old(self).wf(),
        ensures
            final(self).wf(),
            !final(self).is_connected_spec(peer),
            forall|p2: PeerId| final(self).is_connected_spec(p2) == (old(self).is_connected_spec(
                p2,
            ) && p2 != peer),
            forall|r2: RequestId| final(self).unsettled(r2) == old(self).unsettled(r2),
            forall|r2: RequestId| old(self).settled(r2) ==> final(self).settled(r2),
            final(self).config == old(self).config,
            final(self).next_request_id == old(self).next_request_id,
            final(self).addresses@ == old(self).addresses@,
            final(self).pending_outbound@ == old(self).pending_outbound@,
            final(self).pending_deliveries@ == old(self).pending_deliveries@,
            forall|r2: RequestId, p2: PeerId|
                pair_present(final(self).outstanding@, r2, p2) == (pair_present(
                    old(self).outstanding@,
                    r2,
                    p2,
                ) && p2 != peer),
            forall|r2: RequestId|
                events_terminal_for(final(self).pending_events@, r2) == (events_terminal_for(
                    old(self).pending_events@,
                    r2,
                ) || pair_present(old(self).outstanding@, r2, peer)),
            old(self).pending_events@.len() <= final(self).pending_events@.len(),
            forall|k: int|
                0 <= k < old(self).pending_events@.len() ==> final(self).pending_events@[k] == old(
                    self,
                ).pending_events@[k],
            forall|k: int|
                old(self).pending_events@.len() <= k < final(self).pending_events@.len()
                    ==> is_failure_event(
                    final(self).pending_events@[k],
                    peer,
                    OutboundFailure::ConnectionClosed,
                ),
    {
        let ghost c0 = self.connected@;
        let ghost o0 = self.outstanding@;
        let ghost e0 = self.pending_events@;
        // Forget the connection.
        let mut j: usize = 0;
        while j < self.connected.len()
            invariant
                j <= self.connected@.len(),
                forall|k: int| 0 <= k < j ==> self.connected@[k] != peer,
                *self == *old(self),
            decreases self.connected@.len() - j,
        {
            if self.connected[j] == peer {
                break ;
            }
            j = j + 1;
        }
        if j < self.connected.len() {
            proof {
                c0.remove_ensures(j as int);
            }
            self.connected.remove(j);
            proof {
                assert(c0[j as int] == peer);
                assert forall|p2: PeerId| self.connected@.contains(p2) implies (c0.contains(p2)
                    && p2 != peer) by {
                    let k = choose|k: int| 0 <= k < self.connected@.len() && self.connected@[k]
                        == p2;
                    if k < j {
                        assert(c0[k] == p2);
                    } else {
                        assert(c0[k + 1] == p2);
                    }
                    if p2 == peer {
                        let k2: int = if k < j {
                            k
                        } else {
                            k + 1
                        };
                        assert(c0[k2] == peer && c0[j as int] == peer);
                    }
                }
                assert forall|p2: PeerId| c0.contains(p2) && p2 != peer implies
                    self.connected@.contains(p2) by {
                    let k = choose|k: int| 0 <= k < c0.len() && c0[k] == p2;
                    if k < j {
                        assert(self.connected@[k] == p2);
                    } else {
                        assert(k != j);
                        assert(self.connected@[k - 1] == p2);
                    }
                }
                assert(self.connected@.no_duplicates()) by {
                    assert forall|a: int, b: int|
                        0 <= a < b < self.connected@.len() implies self.connected@[a]
                        != self.connected@[b] by {
                        let a2: int = if a < j {
                            a
                        } else {
                            a + 1
                        };
                        let b2: int = if b < j {
                            b
                        } else {
                            b + 1
                        };
                        assert(self.connected@[a] == c0[a2] && self.connected@[b] == c0[b2]);
                    }
                }
            }
        } else {
            proof {
                assert(!c0.contains(peer)) by {
                    if c0.contains(peer) {
                        let k = choose|k: int| 0 <= k < c0.len() && c0[k] == peer;
                    }
                }
            }
        }
        // Fail out everything that had been handed to the peer's handler.
        let ghost cnew = self.connected@;
        let mut i: usize = 0;
        while i < self.outstanding.len()
            invariant
                i <= self.outstanding@.len(),
                forall|k: int| 0 <= k < i ==> self.outstanding@[k].1 != peer,
                self.config == old(self).config,
                self.next_request_id == old(self).next_request_id,
                self.addresses@ == old(self).addresses@,
                self.pending_outbound@ == old(self).pending_outbound@,
                self.pending_deliveries@ == old(self).pending_deliveries@,
                self.connected@ == cnew,
                pairs_distinct(self.outstanding@),
                forall|k: int|
                    0 <= k < self.outstanding@.len() ==> self.outstanding@[k].0
                        < self.next_request_id,
                events_terminal_distinct(self.pending_events@),
                forall|k: int|
                    0 <= k < self.pending_events@.len() ==> terminal_below(
                        self.pending_events@[k],
                        self.next_request_id,
                    ),
                forall|r2: RequestId|
                    !(pair_with_id(self.outstanding@, r2) && queued_with_id(
                        self.pending_outbound@,
                        r2,
                    )),
                forall|r2: RequestId|
                    !(pair_with_id(self.outstanding@, r2) && events_terminal_for(
                        self.pending_events@,
                        r2,
                    )),
                forall|r2: RequestId|
                    !(queued_with_id(self.pending_outbound@, r2) && events_terminal_for(
                        self.pending_events@,
                        r2,
                    )),
                forall|r2: RequestId, p2: PeerId|
                    p2 != peer ==> pair_present(self.outstanding@, r2, p2) == pair_present(
                        o0,
                        r2,
                        p2,
                    ),
                forall|r2: RequestId, p2: PeerId|
                    pair_present(self.outstanding@, r2, p2) ==> pair_present(o0, r2, p2),
                forall|r2: RequestId|
                    pair_with_id(self.outstanding@, r2) ==> pair_with_id(o0, r2),
                forall|r2: RequestId|
                    events_terminal_for(self.pending_events@, r2) ==> (events_terminal_for(
                        e0,
                        r2,
                    ) || pair_present(o0, r2, peer)),
                forall|r2: RequestId|
                    events_terminal_for(e0, r2) ==> events_terminal_for(self.pending_events@, r2),
                forall|r2: RequestId|
                    (pair_with_id(o0, r2) && !pair_with_id(self.outstanding@, r2))
                        ==> events_terminal_for(self.pending_events@, r2),
                e0.len() <= self.pending_events@.len(),
                forall|k: int| 0 <= k < e0.len() ==> self.pending_events@[k] == e0[k],
                forall|k: int|
                    e0.len() <= k < self.pending_events@.len() ==> is_failure_event(
                        self.pending_events@[k],
                        peer,
                        OutboundFailure::ConnectionClosed,
                    ),
            decreases self.outstanding@.len() - i,
        {
            let (rid, p) = self.outstanding[i];
            if p == peer {
                let ghost ocur = self.outstanding@;
                let ghost ecur = self.pending_events@;
                proof {
                    assert(ocur[i as int] == (rid, peer));
                    lemma_pair_remove(ocur, i as int);
                }
                self.outstanding.remove(i);
                let event = RequestResponseEvent::OutboundFailure {
                    peer,
                    request_id: rid,
                    error: OutboundFailure::ConnectionClosed,
                };
                proof {
                    // The identifier was outstanding, so no terminal event
                    // for it is queued yet.
                    assert(pair_with_id(ocur, rid)) by {
                        assert(ocur[i as int].0 == rid);
                    }
                    assert(!events_terminal_for(ecur, rid));
                    lemma_events_push(ecur, event);
                    lemma_events_push_distinct(ecur, event);
                }
                self.pending_events.push(event);
                proof {
                    let onew = self.outstanding@;
                    let enew = self.pending_events@;
                    assert(enew == ecur.push(event));
                    assert(enew[ecur.len() as int] == event);
                    assert(pair_present(o0, rid, peer)) by {
                        assert(pair_present(ocur, rid, peer)) by {
                            assert(ocur[i as int] == (rid, peer));
                        }
                    }
                    assert(rid < self.next_request_id);
                    assert forall|k: int|
                        0 <= k < enew.len() implies terminal_below(
                        enew[k],
                        self.next_request_id,
                    ) by {
                        if k < ecur.len() {
                            assert(enew[k] == ecur[k]);
                        } else {
                            assert(enew[k] == event);
                        }
                    }
                    assert forall|r2: RequestId|
                        !(pair_with_id(onew, r2) && events_terminal_for(enew, r2)) by {
                        if r2 == rid {
                            assert(!pair_with_id(onew, rid));
                        } else {
                            assert(events_terminal_for(enew, r2) == events_terminal_for(
                                ecur,
                                r2,
                            ));
                            assert(pair_with_id(onew, r2) == pair_with_id(ocur, r2));
                        }
                    }
                    assert forall|r2: RequestId|
                        !(queued_with_id(self.pending_outbound@, r2) && events_terminal_for(
                            enew,
                            r2,
                        )) by {
                        if r2 == rid {
                            assert(!queued_with_id(self.pending_outbound@, rid));
                        } else {
                            assert(events_terminal_for(enew, r2) == events_terminal_for(
                                ecur,
                                r2,
                            ));
                        }
                    }
                    assert forall|r2: RequestId|
                        (pair_with_id(o0, r2) && !pair_with_id(onew, r2)) implies
                        events_terminal_for(enew, r2) by {
                        if r2 == rid {
                            assert(events_terminal_for(enew, rid));
                        } else {
                            assert(pair_with_id(onew, r2) == pair_with_id(ocur, r2));
                            if events_terminal_for(ecur, r2) {
                                assert(events_terminal_for(enew, r2));
                            }
                        }
                    }
                    assert forall|k: int|
                        e0.len() <= k < enew.len() implies is_failure_event(
                        enew[k],
                        peer,
                        OutboundFailure::ConnectionClosed,
                    ) by {
                        if k < ecur.len() {
                            assert(enew[k] == ecur[k]);
                        } else {
                            assert(enew[k] == event);
                        }
                    }
                    assert forall|k: int| 0 <= k < e0.len() implies enew[k] == e0[k] by {
                        assert(enew[k] == ecur[k]);
                    }
                    assert forall|k: int| 0 <= k < i implies self.outstanding@[k].1 != peer by {
                        assert(self.outstanding@[k] == ocur[k]);
                    }
                }
            } else {
                i = i + 1;
            }
        }
        proof {
            let pre = *old(self);
            let onew = self.outstanding@;
            let enew = self.pending_events@;
            assert(!self.is_connected_spec(peer)) by {
                if self.connected@.contains(peer) {
                    let k = choose|k: int| 0 <= k < self.connected@.len() && self.connected@[k]
                        == peer;
                }
            }
            // Nothing of the peer's remains outstanding, so the pairs moved
            // out are exactly those the peer owned on entry.
            assert forall|r2: RequestId, p2: PeerId|
                pair_present(onew, r2, p2) == (pair_present(o0, r2, p2) && p2 != peer) by {
                if pair_present(onew, r2, p2) {
                    let k = choose|k: int| 0 <= k < onew.len() && onew[k] == (r2, p2);
                }
            }
            assert forall|r2: RequestId|
                (pair_with_id(o0, r2) && !pair_with_id(onew, r2)) == pair_present(
                o0,
                r2,
                peer,
            ) by {
                if pair_with_id(o0, r2) && !pair_with_id(onew, r2) {
                    let k = choose|k: int| 0 <= k < o0.len() && o0[k].0 == r2;
                    if o0[k].1 != peer {
                        assert(pair_present(o0, r2, o0[k].1));
                        assert(pair_present(onew, r2, o0[k].1));
                        assert(pair_with_id(onew, r2)) by {
                            let k2 = choose|k2: int|
                                0 <= k2 < onew.len() && onew[k2] == (r2, o0[k].1);
                            assert(onew[k2].0 == r2);
                        }
                    }
                    assert(pair_present(o0, r2, o0[k].1));
                }
                if pair_present(o0, r2, peer) {
                    let k = choose|k: int| 0 <= k < o0.len() && o0[k] == (r2, peer);
                    assert(pair_with_id(o0, r2)) by {
                        assert(o0[k].0 == r2);
                    }
                    if pair_with_id(onew, r2) {
                        let k2 = choose|k2: int| 0 <= k2 < onew.len() && onew[k2].0 == r2;
                        assert(onew[k2].1 != peer);
                        assert(pair_present(onew, r2, onew[k2].1));
                        assert(pair_present(o0, r2, onew[k2].1));
                        let k3 = choose|k3: int|
                            0 <= k3 < o0.len() && o0[k3] == (r2, onew[k2].1);
                        assert(k3 == k);
                    }
                }
            }
            assert forall|r2: RequestId|
                events_terminal_for(enew, r2) == (events_terminal_for(e0, r2) || pair_present(
                    o0,
                    r2,
                    peer,
                )) by {
                if pair_present(o0, r2, peer) {
                    assert(pair_with_id(o0, r2) && !pair_with_id(onew, r2));
                    assert(events_terminal_for(enew, r2));
                }
            }
            assert forall|r2: RequestId| self.unsettled(r2) == pre.unsettled(r2) by {
                if pair_with_id(o0, r2) && !pair_with_id(onew, r2) {
                    assert(events_terminal_for(enew, r2));
                }
                if events_terminal_for(enew, r2) {
                    assert(events_terminal_for(e0, r2) || pair_present(o0, r2, peer));
                    if pair_present(o0, r2, peer) {
                        let k = choose|k: int| 0 <= k < o0.len() && o0[k] == (r2, peer);
                        assert(pair_with_id(o0, r2)) by {
                            assert(o0[k].0 == r2);
                        }
                    }
                }
            }
            assert forall|r2: RequestId| pre.settled(r2) implies self.settled(r2) by {}
        }
    }

    /// Take note of connection establishment to `peer` having failed. Every
    /// request still waiting for that connection is resolved — never
    /// silently dropped: each fails with `DialFailure`, appended to the
    /// event queue.
    #[verifier::loop_isolation(false)]
    pub fn on_dial_failure(&mut self, peer: PeerId)
        requires
            old(self).wf(),
        ensures
            final(self).wf(),
            forall|r2: RequestId| final(self).unsettled(r2) == old(self).unsettled(r2),
            forall|r2: RequestId| old(self).settled(r2) ==> final(self).settled(r2),
            final(self).config == old(self).config,
            final(self).next_request_id == old(self).next_request_id,
            final(self).addresses@ == old(self).addresses@,
            final(self).connected@ == old(self).connected@,
            final(self).outstanding@ == old(self).outstanding@,
            final(self).pending_deliveries@ == old(self).pending_deliveries@,
            !queued_for_peer(final(self).pending_outbound@, peer),
            forall|r2: RequestId, p2: PeerId|
                queued_present(final(self).pending_outbound@, r2, p2) == (queued_present(
                    old(self).pending_outbound@,
                    r2,
                    p2,
                ) && p2 != peer),
            forall|r2: RequestId|
                events_terminal_for(final(self).pending_events@, r2) == (events_terminal_for(
                    old(self).pending_events@,
                    r2,
                ) || queued_present(old(self).pending_outbound@, r2, peer)),
            old(self).pending_events@.len() <= final(self).pending_events@.len(),
            forall|k: int|
                0 <= k < old(self).pending_events@.len() ==> final(self).pending_events@[k] == old(
                    self,
                ).pending_events@[k],
            forall|k: int|
                old(self).pending_events@.len() <= k < final(self).pending_events@.len()
                    ==> is_failure_event(
                    final(self).pending_events@[k],
                    peer,
                    OutboundFailure::DialFailure,
                ),
    {
        let ghost q0 = self.pending_outbound@;
        let ghost e0 = self.pending_events@;
        let mut i: usize = 0;
        while i < self.pending_outbound.len()
            invariant
                i <= self.pending_outbound@.len(),
                forall|k: int| 0 <= k < i ==> self.pending_outbound@[k].peer != peer,
                self.config == old(self).config,
                self.next_request_id == old(self).next_request_id,
                self.addresses@ == old(self).addresses@,
                self.connected@ == old(self).connected@,
                self.outstanding@ == old(self).outstanding@,
                self.pending_deliveries@ == old(self).pending_deliveries@,
                queued_distinct(self.pending_outbound@),
                forall|k: int|
                    0 <= k < self.pending_outbound@.len()
                        ==> self.pending_outbound@[k].request.request_id < self.next_request_id,
                events_terminal_distinct(self.pending_events@),
                forall|k: int|
                    0 <= k < self.pending_events@.len() ==> terminal_below(
                        self.pending_events@[k],
                        self.next_request_id,
                    ),
                forall|r2: RequestId|
                    !(pair_with_id(self.outstanding@, r2) && queued_with_id(
                        self.pending_outbound@,
                        r2,
                    )),
                forall|r2: RequestId|
                    !(pair_with_id(self.outstanding@, r2) && events_terminal_for(
                        self.pending_events@,
                        r2,
                    )),
                forall|r2: RequestId|
                    !(queued_with_id(self.pending_outbound@, r2) && events_terminal_for(
                        self.pending_events@,
                        r2,
                    )),
                forall|r2: RequestId, p2: PeerId|
                    p2 != peer ==> queued_present(self.pending_outbound@, r2, p2)
                        == queued_present(q0, r2, p2),
                forall|r2: RequestId, p2: PeerId|
                    queued_present(self.pending_outbound@, r2, p2) ==> queued_present(q0, r2, p2),
                forall|r2: RequestId|
                    queued_with_id(self.pending_outbound@, r2) ==> queued_with_id(q0, r2),
                forall|r2: RequestId|
                    events_terminal_for(self.pending_events@, r2) ==> (events_terminal_for(
                        e0,
                        r2,
                    ) || queued_present(q0, r2, peer)),
                forall|r2: RequestId|
                    events_terminal_for(e0, r2) ==> events_terminal_for(self.pending_events@, r2),
                forall|r2: RequestId|
                    (queued_with_id(q0, r2) && !queued_with_id(self.pending_outbound@, r2))
                        ==> events_terminal_for(self.pending_events@, r2),
                e0.len() <= self.pending_events@.len(),
                forall|k: int| 0 <= k < e0.len() ==> self.pending_events@[k] == e0[k],
                forall|k: int|
                    e0.len() <= k < self.pending_events@.len() ==> is_failure_event(
                        self.pending_events@[k],
                        peer,
                        OutboundFailure::DialFailure,
                    ),
            decreases self.pending_outbound@.len() - i,
        {
            if self.pending_outbound[i].peer == peer {
                let ghost qcur = self.pending_outbound@;
                let ghost ecur = self.pending_events@;
                proof {
                    lemma_queued_remove(qcur, i as int);
                }
                let entry = self.pending_outbound.remove(i);
                let rid = entry.request.request_id;
                let event = RequestResponseEvent::OutboundFailure {
                    peer,
                    request_id: rid,
                    error: OutboundFailure::DialFailure,
                };
                proof {
                    assert(entry == qcur[i as int]);
                    // The identifier was queued, so no terminal event for it
                    // is queued yet.
                    assert(queued_with_id(qcur, rid)) by {
                        assert(qcur[i as int].request.request_id == rid);
                    }
                    assert(!events_terminal_for(ecur, rid));
                    lemma_events_push(ecur, event);
                    lemma_events_push_distinct(ecur, event);
                }
                self.pending_events.push(event);
                proof {
                    let qnew = self.pending_outbound@;
                    let enew = self.pending_events@;
                    assert(enew == ecur.push(event));
                    assert(enew[ecur.len() as int] == event);
                    assert(queued_present(q0, rid, peer)) by {
                        assert(queued_present(qcur, rid, peer)) by {
                            assert(qcur[i as int].request.request_id == rid && qcur[i as int].peer
                                == peer);
                        }
                    }
                    assert(rid < self.next_request_id);
                    assert forall|k: int|
                        0 <= k < enew.len() implies terminal_below(
                        enew[k],
                        self.next_request_id,
                    ) by {
                        if k < ecur.len() {
                            assert(enew[k] == ecur[k]);
                        } else {
                            assert(enew[k] == event);
                        }
                    }
                    assert forall|r2: RequestId|
                        !(pair_with_id(self.outstanding@, r2) && events_terminal_for(
                            enew,
                            r2,
                        )) by {
                        if r2 == rid {
                            assert(!pair_with_id(self.outstanding@, rid));
                        } else {
                            assert(events_terminal_for(enew, r2) == events_terminal_for(
                                ecur,
                                r2,
                            ));
                        }
                    }
                    assert forall|r2: RequestId|
                        !(queued_with_id(qnew, r2) && events_terminal_for(enew, r2)) by {
                        if r2 == rid {
                            assert(!queued_with_id(qnew, rid));
                        } else {
                            assert(events_terminal_for(enew, r2) == events_terminal_for(
                                ecur,
                                r2,
                            ));
                            assert(queued_with_id(qnew, r2) == queued_with_id(qcur, r2));
                        }
                    }
                    assert forall|r2: RequestId|
                        (queued_with_id(q0, r2) && !queued_with_id(qnew, r2)) implies
                        events_terminal_for(enew, r2) by {
                        if r2 == rid {
                            assert(events_terminal_for(enew, rid));
                        } else {
                            assert(queued_with_id(qnew, r2) == queued_with_id(qcur, r2));
                            if events_terminal_for(ecur, r2) {
                                assert(events_terminal_for(enew, r2));
                            }
                        }
                    }
                    assert forall|k: int|
                        e0.len() <= k < enew.len() implies is_failure_event(
                        enew[k],
                        peer,
                        OutboundFailure::DialFailure,
                    ) by {
                        if k < ecur.len() {
                            assert(enew[k] == ecur[k]);
                        } else {
                            assert(enew[k] == event);
                        }
                    }
                    assert forall|k: int| 0 <= k < e0.len() implies enew[k] == e0[k] by {
                        assert(enew[k] == ecur[k]);
                    }
                    assert forall|k: int| 0 <= k < i implies self.pending_outbound@[k].peer
                        != peer by {
                        assert(self.pending_outbound@[k] == qcur[k]);
                    }
                }
            } else {
                i = i + 1;
            }
        }
        proof {
            let pre = *old(self);
            let qnew = self.pending_outbound@;
            let enew = self.pending_events@;
            assert(!queued_for_peer(qnew, peer)) by {
                if queued_for_peer(qnew, peer) {
                    let k = choose|k: int| 0 <= k < qnew.len() && qnew[k].peer == peer;
                }
            }
            assert forall|r2: RequestId, p2: PeerId|
                queued_present(qnew, r2, p2) == (queued_present(q0, r2, p2) && p2 != peer) by {
                if queued_present(qnew, r2, p2) {
                    let k = choose|k: int|
                        0 <= k < qnew.len() && qnew[k].request.request_id == r2 && qnew[k].peer
                            == p2;
                }
            }
            assert forall|r2: RequestId|
                (queued_with_id(q0, r2) && !queued_with_id(qnew, r2)) == queued_present(
                q0,
                r2,
                peer,
            ) by {
                if queued_with_id(q0, r2) && !queued_with_id(qnew, r2) {
                    let k = choose|k: int| 0 <= k < q0.len() && q0[k].request.request_id == r2;
                    if q0[k].peer != peer {
                        assert(queued_present(q0, r2, q0[k].peer));
                        assert(queued_present(qnew, r2, q0[k].peer));
                        assert(queued_with_id(qnew, r2)) by {
                            let k2 = choose|k2: int|
                                0 <= k2 < qnew.len() && qnew[k2].request.request_id == r2
                                    && qnew[k2].peer == q0[k].peer;
                        }
                    }
                    assert(queued_present(q0, r2, q0[k].peer));
                }
                if queued_present(q0, r2, peer) {
                    let k = choose|k: int|
                        0 <= k < q0.len() && q0[k].request.request_id == r2 && q0[k].peer
                            == peer;
                    assert(queued_with_id(q0, r2));
                    if queued_with_id(qnew, r2) {
                        let k2 = choose|k2: int|
                            0 <= k2 < qnew.len() && qnew[k2].request.request_id == r2;
                        assert(qnew[k2].peer != peer);
                        assert(queued_present(qnew, r2, qnew[k2].peer));
                        assert(queued_present(q0, r2, qnew[k2].peer));
                        let k3 = choose|k3: int|
                            0 <= k3 < q0.len() && q0[k3].request.request_id == r2 && q0[k3].peer
                                == qnew[k2].peer;
                        assert(k3 == k);
                    }
                }
            }
            assert forall|r2: RequestId|
                events_terminal_for(enew, r2) == (events_terminal_for(e0, r2) || queued_present(
                    q0,
                    r2,
                    peer,
                )) by {
                if queued_present(q0, r2, peer) {
                    assert(queued_with_id(q0, r2) && !queued_with_id(qnew, r2));
                    assert(events_terminal_for(enew, r2));
                }
            }
            assert forall|r2: RequestId| self.unsettled(r2) == pre.unsettled(r2) by {
                if queued_with_id(q0, r2) && !queued_with_id(qnew, r2) {
                    assert(events_terminal_for(enew, r2));
                }
                if events_terminal_for(enew, r2) {
                    assert(events_terminal_for(e0, r2) || queued_present(q0, r2, peer));
                    if queued_present(q0, r2, peer) {
                        let k = choose|k: int|
                            0 <= k < q0.len() && q0[k].request.request_id == r2 && q0[k].peer
                                == peer;
                        assert(queued_with_id(q0, r2));
                    }
                }
                if queued_with_id(qnew, r2) {
                    let k = choose|k: int|
                        0 <= k < qnew.len() && qnew[k].request.request_id == r2;
                    assert(queued_present(qnew, r2, qnew[k].peer));
                    assert(queued_present(q0, r2, qnew[k].peer));
                    assert(queued_with_id(q0, r2));
                }
            }
            assert forall|r2: RequestId| pre.settled(r2) implies self.settled(r2) by {}
            assert forall|p2: PeerId| self.connected@.contains(p2) implies !queued_for_peer(
                qnew,
                p2,
            ) by {
                if queued_for_peer(qnew, p2) {
                    let k = choose|k: int| 0 <= k < qnew.len() && qnew[k].peer == p2;
                    assert(queued_present(qnew, qnew[k].request.request_id, p2));
                    assert(queued_present(q0, qnew[k].request.request_id, p2));
                    assert(queued_for_peer(q0, p2)) by {
                        let k2 = choose|k2: int|
                            0 <= k2 < q0.len() && q0[k2].request.request_id
                                == qnew[k].request.request_id && q0[k2].peer == p2;
                    }
                }
            }
        }
    }

    /// Take the oldest event awaiting the event loop, if any. Taking a
    /// terminal event settles its request: nothing about that identifier
    /// remains anywhere in the manager, so no second terminal outcome for it
    /// can ever be produced.
    pub fn next_event(&mut self) -> (r: Option<RequestResponseEvent>)
        requires
            old(self).wf(),
        ensures
            final(self).wf(),
            match r {
                Some(event) => {
                    &&& old(self).pending_events@.len() > 0
                    &&& event == old(self).pending_events@[0]
                    &&& final(self).pending_events@ == old(self).pending_events@.skip(1)
                    &&& (match event.terminal_id() {
                        Some(rid) => final(self).settled(rid),
                        None => true,
                    })
                },
                None => {
                    &&& old(self).pending_events@.len() == 0
                    &&& final(self).pending_events@ == old(self).pending_events@
                },
            },
            forall|r2: RequestId| old(self).settled(r2) ==> final(self).settled(r2),
            forall|r2: RequestId| final(self).unsettled(r2) ==> old(self).unsettled(r2),
            final(self).config == old(self).config,
            final(self).next_request_id == old(self).next_request_id,
            final(self).addresses@ == old(self).addresses@,
            final(self).connected@ == old(self).connected@,
            final(self).outstanding@ == old(self).outstanding@,
            final(self).pending_outbound@ == old(self).pending_outbound@,
            final(self).pending_deliveries@ == old(self).pending_deliveries@,
    {
        if self.pending_events.len() > 0 {
            let event = self.pending_events.remove(0);
            proof {
                let s = old(self).pending_events@;
                s.remove_ensures(0);
                assert(self.pending_events@ =~= s.skip(1));
                assert forall|k: int|
                    0 <= k < self.pending_events@.len() implies self.pending_events@[k] == s[k
                    + 1] by {}
                // Every terminal event that remains was already there.
                assert forall|r2: RequestId| events_terminal_for(self.pending_events@, r2) implies
                    events_terminal_for(s, r2) by {
                    if events_terminal_for(self.pending_events@, r2) {
                        let k = choose|k: int|
                            0 <= k < self.pending_events@.len()
                                && self.pending_events@[k].terminal_id() == Some(r2);
                        assert(s[k + 1].terminal_id() == Some(r2));
                    }
                }
                assert forall|a: int, b: int|
                    0 <= a < b < self.pending_events@.len() implies (
                self.pending_events@[a].terminal_id() is None
                    || self.pending_events@[a].terminal_id()
                    != self.pending_events@[b].terminal_id()) by {
                    assert(self.pending_events@[a] == s[a + 1]);
                    assert(self.pending_events@[b] == s[b + 1]);
                }
                assert forall|i: int|
                    0 <= i < self.pending_events@.len() implies terminal_below(
                    self.pending_events@[i],
                    self.next_request_id,
                ) by {
                    assert(self.pending_events@[i] == s[i + 1]);
                }
                match event.terminal_id() {
                    Some(rid) => {
                        assert(events_terminal_for(s, rid)) by {
                            assert(s[0].terminal_id() == Some(rid));
                        }
                        assert(terminal_below(s[0], old(self).next_request_id));
                        assert(!events_terminal_for(self.pending_events@, rid)) by {
                            if events_terminal_for(self.pending_events@, rid) {
                                let k = choose|k: int|
                                    0 <= k < self.pending_events@.len()
                                        && self.pending_events@[k].terminal_id() == Some(rid);
                                assert(s[k + 1].terminal_id() == Some(rid));
                                assert(s[0].terminal_id() == Some(rid));
                            }
                        }
                        assert(!pair_with_id(self.outstanding@, rid));
                        assert(!queued_with_id(self.pending_outbound@, rid));
                    },
                    None => {},
                }
            }
            Some(event)
        } else {
            None
        }
    }

    /// Take the oldest request delivery, if any: the event loop hands it to
    /// the connection handler of its peer.
    pub fn next_delivery(&mut self) -> (r: Option<RequestDelivery>)
        requires
            old(self).wf(),
        ensures
            final(self).wf(),
            match r {
                Some(delivery) => {
                    &&& old(self).pending_deliveries@.len() > 0
                    &&& delivery == old(self).pending_deliveries@[0]
                    &&& final(self).pending_deliveries@ == old(self).pending_deliveries@.skip(1)
                },
                None => {
                    &&& old(self).pending_deliveries@.len() == 0
                    &&& final(self).pending_deliveries@ == old(self).pending_deliveries@
                },
            },
            forall|r2: RequestId| final(self).unsettled(r2) == old(self).unsettled(r2),
            forall|r2: RequestId| old(self).settled(r2) ==> final(self).settled(r2),
            final(self).config == old(self).config,
            final(self).next_request_id == old(self).next_request_id,
            final(self).addresses@ == old(self).addresses@,
            final(self).connected@ == old(self).connected@,
            final(self).outstanding@ == old(self).outstanding@,
            final(self).pending_outbound@ == old(self).pending_outbound@,
            final(self).pending_events@ == old(self).pending_events@,
    {
        if self.pending_deliveries.len() > 0 {
            Some(self.pending_deliveries.remove(0))
        } else {
            None
        }
    }
}

/// Request identifier uniqueness: identifiers handed out by consecutive
/// `send_request` calls are pairwise distinct and strictly increasing in
/// issuance order.
pub proof fn lemma_request_ids_strictly_increasing(
    m0: RequestResponse,
    m1: RequestResponse,
    m2: RequestResponse,
    r1: RequestId,
    r2: RequestId,
)
    requires
        issues_fresh_id(m0, m1, r1),
        issues_fresh_id(m1, m2, r2),
    ensures
        r1 < r2,
{
}

/// A freshly allocated identifier can never collide with a request the
/// manager still owes a terminal event: everything live is below the counter.
pub proof fn lemma_fresh_id_never_live(m: RequestResponse)
    requires
        m.wf(),
    ensures
        !m.unsettled(m.next_request_id),
{
    lemma_fresh_id_absent(m);
}

/// Exactly-one-terminal-event, stability half: a settled request — one whose
/// single terminal event has been taken — has nothing left anywhere in the
/// manager, in particular no terminal event in the queue; and every
/// operation's contract keeps settled requests settled, so a second terminal
/// outcome can never be produced.
pub proof fn lemma_settled_request_has_no_terminal_event(m: RequestResponse, r: RequestId)
    requires
        m.settled(r),
    ensures
        !events_terminal_for(m.pending_events@, r),
        !pair_with_id(m.outstanding@, r),
        !queued_with_id(m.pending_outbound@, r),
{
}

/// Exactly-one-terminal-event, at-most-once half: the manager's event queue
/// never holds two terminal events for the same request, so the event loop
/// can observe at most one terminal outcome per identifier.
pub proof fn lemma_at_most_one_terminal_event(
    m: RequestResponse,
    r: RequestId,
    i: int,
    j: int,
)
    requires
        m.wf(),
        0 <= i < m.pending_events@.len(),
        0 <= j < m.pending_events@.len(),
        i != j,
        m.pending_events@[i].terminal_id() == Some(r),
    ensures
        m.pending_events@[j].terminal_id() != Some(r),
{
}

} // verus!
