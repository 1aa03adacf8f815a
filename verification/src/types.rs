//! Plain-value types shared by every layer of the engine.

use vstd::prelude::*;

verus! {

/// Process-wide identifier of one outbound request: allocated by the manager,
/// monotonically increasing, unique for the lifetime of the manager.
pub type RequestId = u64;

/// Identity of a remote node. The network stack derives it from the peer's
/// public key; the engine only stores and compares identities, so one is kept
/// as a plain integer handle.
pub type PeerId = u64;

/// Routable location of a peer, kept as the raw bytes of its encoding. The
/// engine never looks inside an address; it only records and hands it back.
pub type NetworkAddress = Vec<u8>;

/// Instants and durations, in milliseconds.
pub type Millis = u64;

/// Byte-string name of an application sub-protocol, e.g. `/ipfs/ping/1.0.0`.
pub type ProtocolId = Vec<u8>;

/// Bytes of one request, written onto the substream by the codec.
pub type RequestPayload = Vec<u8>;

/// Bytes of one response: everything received before the peer closed its side.
pub type ResponsePayload = Vec<u8>;

/// Default idle time, in milliseconds, before a connection with no
/// outstanding work may be closed.
pub const DEFAULT_CONNECTION_KEEP_ALIVE: Millis = 10000;

/// Default maximum time, in milliseconds, for one substream negotiation plus
/// exchange.
pub const DEFAULT_REQUEST_TIMEOUT: Millis = 10000;

/// Construction-time options of the engine, immutable thereafter.
#[derive(Clone, Copy, PartialEq, Eq, Structural, Debug)]
pub struct RequestResponseConfig {
    /// Idle time before a connection with no outstanding work may be closed.
    pub connection_keep_alive: Millis,
    /// Maximum time one substream negotiation plus exchange may take.
    pub request_timeout: Millis,
}

impl Default for RequestResponseConfig {
    fn default() -> (r: Self)
        ensures
            r.connection_keep_alive == DEFAULT_CONNECTION_KEEP_ALIVE,
            r.request_timeout == DEFAULT_REQUEST_TIMEOUT,
    {
        RequestResponseConfig {
            connection_keep_alive: DEFAULT_CONNECTION_KEEP_ALIVE,
            request_timeout: DEFAULT_REQUEST_TIMEOUT,
        }
    }
}

/// Why an outbound request failed. Every variant is terminal for its
/// [`RequestId`]; none is by itself fatal to the connection.
#[derive(Clone, Copy, PartialEq, Eq, Structural, Debug)]
pub enum OutboundFailure {
    /// Connection establishment to the peer failed before the request could
    /// be delivered to a connection handler.
    DialFailure,
    /// Negotiation plus exchange exceeded the request timeout.
    Timeout,
    /// The connection closed while the request was still queued or in flight.
    ConnectionClosed,
    /// The peer advertises no protocol in common with the offered list.
    UnsupportedProtocols,
}

/// Why an inbound request attempt was refused. Always non-fatal and purely
/// informational: this node never serves inbound requests.
#[derive(Clone, Copy, PartialEq, Eq, Structural, Debug)]
pub enum InboundFailure {
    /// The inbound substream timed out.
    Timeout,
    /// The local node supports no protocol the remote offered (it serves
    /// none at all).
    UnsupportedProtocols,
}

/// Whether two byte strings hold the same bytes.
pub fn bytes_eq(a: &Vec<u8>, b: &Vec<u8>) -> (r: bool)
    ensures
        r == (a@ == b@),
{
    if a.len() != b.len() {
        return false;
    }
    let mut i: usize = 0;
    while i < a.len()
        invariant
            i <= a@.len(),
            a@.len() == b@.len(),
            forall|k: int| 0 <= k < i ==> a@[k] == b@[k],
        decreases a@.len() - i,
    {
        if a[i] != b[i] {
            return false;
        }
        i = i + 1;
    }
    proof {
        assert(a@ =~= b@);
    }
    true
}

/// A byte-for-byte copy of a byte string.
pub fn clone_bytes(a: &Vec<u8>) -> (r: Vec<u8>)
    ensures
        r@ == a@,
{
    let mut r: Vec<u8> = Vec::new();
    let mut i: usize = 0;
    while i < a.len()
        invariant
            i <= a@.len(),
            r@ == a@.subrange(0, i as int),
        decreases a@.len() - i,
    {
        r.push(a[i]);
        proof {
            assert(a@.subrange(0, i + 1 as int) == a@.subrange(0, i as int).push(a@[i as int]));
        }
        i = i + 1;
    }
    proof {
        assert(a@.subrange(0, a@.len() as int) == a@);
    }
    r
}

/// One not-yet-negotiated outbound request, as queued on a connection handler.
#[derive(Clone, Debug)]
pub struct OutboundRequest {
    /// The identifier the manager allocated for this request.
    pub request_id: RequestId,
    /// Protocols offered for negotiation, in preference order.
    pub protocols: Vec<ProtocolId>,
    /// The request bytes to write onto the negotiated substream.
    pub payload: RequestPayload,
}

} // verus!
