//! The wire codec: how a single request/response exchange is framed onto a
//! raw bidirectional byte stream.
//!
//! There is no length prefix. The writer sends all its bytes, flushes, and
//! shuts down its write direction; that shutdown is the framing delimiter.
//! The reader accumulates bytes until it sees the remote shutdown and yields
//! everything received as the message.
//!
//! A [`StreamHalf`] models one direction of a substream: the bytes sent so
//! far and whether the sending side has shut down. One exchange uses two
//! halves — the requester writes the request onto one and reads the response
//! from the other.

use vstd::prelude::*;

use crate::types::RequestPayload;

verus! {

/// One direction of a substream: the bytes the sender has written so far and
/// whether the sender has shut the direction down.
pub struct StreamHalf {
    /// Every byte written onto this direction, in order.
    pub data: Vec<u8>,
    /// Whether the sending side has shut this direction down. Once set, no
    /// further bytes can be written.
    pub write_closed: bool,
}

impl StreamHalf {
    /// A fresh direction: no bytes sent, still open.
    pub fn new() -> (r: StreamHalf)
        ensures
            r.data@ == Seq::<u8>::empty(),
            !r.write_closed,
    {
        StreamHalf { data: Vec::new(), write_closed: false }
    }

    /// True when the sender has finished: the reader may take the message.
    pub fn is_write_closed(&self) -> (r: bool)
        ensures
            r == self.write_closed,
    {
        self.write_closed
    }
}

/// Send one request: write all payload bytes onto the direction, then shut
/// the write side down, signalling end-of-request without closing the read
/// direction.
pub fn write_request(stream: &mut StreamHalf, payload: &RequestPayload)
    requires
        !old(stream).write_closed,
    ensures
        final(stream).data@ == old(stream).data@ + payload@,
        final(stream).write_closed,
{
    let mut i: usize = 0;
    while i < payload.len()
        invariant
            i <= payload@.len(),
            stream.data@ == old(stream).data@ + payload@.subrange(0, i as int),
        decreases payload@.len() - i,
    {
        stream.data.push(payload[i]);
        proof {
            assert(payload@.subrange(0, i + 1 as int)
                == payload@.subrange(0, i as int).push(payload@[i as int]));
        }
        i = i + 1;
    }
    proof {
        assert(payload@.subrange(0, payload@.len() as int) == payload@);
    }
    stream.write_closed = true;
}

/// Read one message: if the remote has shut its write side down, the message
/// is everything it sent, byte for byte. While the direction is still open
/// the read has not completed yet and `None` is returned.
pub fn read_response(stream: &StreamHalf) -> (r: Option<Vec<u8>>)
    ensures
        match r {
            Some(bytes) => stream.write_closed && bytes@ == stream.data@,
            None => !stream.write_closed,
        },
{
    if stream.write_closed {
        let mut bytes: Vec<u8> = Vec::new();
        let mut i: usize = 0;
        while i < stream.data.len()
            invariant
                i <= stream.data@.len(),
                bytes@ == stream.data@.subrange(0, i as int),
            decreases stream.data@.len() - i,
        {
            bytes.push(stream.data[i]);
            proof {
                assert(stream.data@.subrange(0, i + 1 as int)
                    == stream.data@.subrange(0, i as int).push(stream.data@[i as int]));
            }
            i = i + 1;
        }
        proof {
            assert(stream.data@.subrange(0, stream.data@.len() as int) == stream.data@);
        }
        Some(bytes)
    } else {
        None
    }
}

/// Codec round-trip: a payload written by one side onto a fresh direction is
/// received by the peer reading until stream-close exactly, byte for byte,
/// whatever its length.
///
/// `pre` is the direction before the write, `post` after it, and `got` is
/// what the reader accumulated once the direction was closed.
pub proof fn lemma_codec_round_trip(pre: Seq<u8>, payload: Seq<u8>, post: Seq<u8>, got: Seq<u8>)
    requires
        pre.len() == 0,
        post == pre + payload,
        got == post,
    ensures
        got == payload,
{
    assert(pre + payload =~= payload);
}

} // verus!
