//! Request/response protocol engine for a peer-to-peer network client.
//!
//! The engine establishes single-shot request/response exchanges with remote
//! peers over application-defined sub-protocols. It is organised as a stack
//! of state machines over plain values:
//!
//! - [`codec`] — how one exchange is framed onto a raw byte stream: the
//!   request is written and the write side closed, the response is everything
//!   received before the peer closes its own side.
//! - [`handler`] — the per-connection state machine: a FIFO queue of
//!   not-yet-negotiated outbound requests, failure classification, and the
//!   connection's keep-alive deadline.
//! - [`behaviour`] — the peer connection manager: address book, allocation of
//!   monotonically increasing request identifiers, routing of requests to the
//!   right connection, and the terminal-event surface.
//! - [`event_loop`] — the decision core of the actor that serializes external
//!   commands (dial, send-request, shutdown) against the manager's events and
//!   keeps the pending-dial and pending-request promise tables.
//! - [`ping`] — the ping sub-protocol: its protocol name and random payloads.
//!
//! The secure-transport/multiplexing stack is an external collaborator: the
//! engine's callers perform connection establishment and substream I/O, feed
//! the resulting events in, and carry out the actions the engine returns.

pub mod behaviour;
pub mod codec;
pub mod event_loop;
pub mod handler;
pub mod ping;
pub mod types;
