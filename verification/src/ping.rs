//! The ping sub-protocol: a single-shot exchange where the response is
//! expected to echo the request.
//!
//! A ping request is a fixed number of random bytes sent under the protocol
//! name `/ipfs/ping/1.0.0`; whether the echoed response matches is the
//! protocol consumer's concern, not the engine's.

use rand::Rng;
use vstd::prelude::*;

use crate::behaviour::RequestResponse;
use crate::types::{ProtocolId, RequestPayload, RequestResponseConfig};

verus! {

/// The byte length of a ping payload.
pub const PING_SIZE: usize = 32;

/// The bytes of the protocol name `/ipfs/ping/1.0.0`.
pub open spec fn ping_protocol_name_spec() -> Seq<u8> {
    seq![
        47u8,
        105,
        112,
        102,
        115,
        47,
        112,
        105,
        110,
        103,
        47,
        49,
        46,
        48,
        46,
        48,
    ]
}

/// The name of the ping protocol, as offered during negotiation:
/// `/ipfs/ping/1.0.0`.
pub fn ping_protocol_name() -> (r: ProtocolId)
    ensures
        r@ == ping_protocol_name_spec(),
{
    let mut r: Vec<u8> = Vec::new();
    r.push(47);
    r.push(105);
    r.push(112);
    r.push(102);
    r.push(115);
    r.push(47);
    r.push(112);
    r.push(105);
    r.push(110);
    r.push(103);
    r.push(47);
    r.push(49);
    r.push(46);
    r.push(48);
    r.push(46);
    r.push(48);
    proof {
        assert(r@ =~= ping_protocol_name_spec());
    }
    r
}

/// Marker of the ping sub-protocol.
#[derive(Clone, Debug)]
pub struct PingProtocol;

impl PingProtocol {
    /// The protocol's name on the wire.
    pub fn protocol_name(&self) -> (r: ProtocolId)
        ensures
            r@ == ping_protocol_name_spec(),
    {
        ping_protocol_name()
    }
}

/// A fresh peer connection manager for issuing ping requests.
pub fn new(cfg: RequestResponseConfig) -> (r: RequestResponse)
    ensures
        r.config == cfg,
        r.next_request_id == 1,
        r.addresses@.len() == 0,
        r.connected@.len() == 0,
        r.outstanding@.len() == 0,
        r.pending_outbound@.len() == 0,
        r.pending_deliveries@.len() == 0,
        r.pending_events@.len() == 0,
        r.wf(),
{
    RequestResponse::new(cfg)
}

/// Relies on rand's `Rng::gen` for a 32-byte array via the thread-local
/// generator: it returns exactly 32 bytes; nothing is assumed about their
/// values.
#[verifier::external_body]
fn random_payload_bytes() -> (r: Vec<u8>)
    ensures
        r@.len() == PING_SIZE,
{
    let bytes: [u8; 32] = rand::thread_rng().gen();
    bytes.to_vec()
}

/// A fresh random ping payload of [`PING_SIZE`] bytes.
pub fn new_ping_payload() -> (r: RequestPayload)
    ensures
        r@.len() == PING_SIZE,
{
    random_payload_bytes()
}

/// A fresh random request payload for a demonstration exchange; the same
/// [`PING_SIZE`] random bytes a ping uses.
pub fn new_request_payload() -> (r: RequestPayload)
    ensures
        r@.len() == PING_SIZE,
{
    random_payload_bytes()
}

} // verus!
