//! The per-connection deframer. Raw bytes read from a connection are pushed
//! in whatever chunks the transport delivers; complete frames are cut off the
//! front of the accumulated buffer one at a time. Extraction depends only on
//! the concatenation of everything pushed, never on the chunking.

use vstd::prelude::*;
use vstd::slice::slice_subrange;

use crate::packet::{packet_decode, Packet};
use crate::wire::{frame_payload, frame_rest, has_frame, stream_payloads, stream_residue};

verus! {

/// Accumulates one connection's byte stream and yields the packets decoded
/// from each complete frame, in stream order.
pub struct PacketFactory {
    buffer: Vec<u8>,
}

impl View for PacketFactory {
    type V = Seq<u8>;

    /// The bytes pushed so far that no extracted frame has consumed yet.
    closed spec fn view(&self) -> Seq<u8> {
        self.buffer@
    }
}

impl PacketFactory {
    /// An empty accumulator.
    pub fn new() -> (r: Self)
        ensures
            r@ == Seq::<u8>::empty(),
    {
        PacketFactory { buffer: Vec::new() }
    }

    /// Appends a chunk of raw bytes to the buffer. Never blocks and never
    /// fails; extraction is a separate step.
    pub fn push(&mut self, data: &[u8])
        ensures
            final(self)@ == old(self)@ + data@,
    {
        proof {
            assert(old(self).buffer@ + data@.take(0) =~= old(self).buffer@);
        }
        let n = data.len();
        let mut i: usize = 0;
        while i < n
            invariant
                n == data@.len(),
                i <= n,
                self.buffer@ == old(self).buffer@ + data@.take(i as int),
            decreases n - i,
        {
            proof {
                assert((old(self).buffer@ + data@.take(i as int)).push(data@[i as int])
                    =~= old(self).buffer@ + data@.take(i as int + 1));
            }
            self.buffer.push(data[i]);
            i = i + 1;
        }
        proof {
            assert(data@.take(n as int) =~= data@);
        }
    }

    /// Cuts the frame at the front of the buffer, if it is complete, and
    /// returns its decoded packet; returns nothing and leaves the buffer
    /// untouched otherwise. Call repeatedly until it returns nothing: one
    /// chunk may complete several frames.
    pub fn next(&mut self) -> (r: Option<Packet>)
        ensures
            has_frame(old(self)@) ==> (r matches Some(p) && p@ == packet_decode(
                frame_payload(old(self)@),
            ) && final(self)@ == frame_rest(old(self)@)),
            !has_frame(old(self)@) ==> r is None && final(self)@ == old(self)@,
    {
        if self.buffer.len() < 4 {
            return None;
        }
        let b0 = self.buffer[0];
        let b1 = self.buffer[1];
        let b2 = self.buffer[2];
        let b3 = self.buffer[3];
        let len: u32 = ((b0 as u32) << 24) | ((b1 as u32) << 16) | ((b2 as u32) << 8) | (
        b3 as u32);
        if (self.buffer.len() as u64) < 4u64 + (len as u64) {
            return None;
        }
        let take: usize = 4 + (len as usize);
        let payload = slice_subrange(self.buffer.as_slice(), 4, take);
        let p = Packet::deserialize(payload);
        proof {
            assert(payload@ == frame_payload(old(self)@));
        }
        let tail = self.buffer.split_off(take);
        self.buffer = tail;
        proof {
            assert(self.buffer@ == frame_rest(old(self)@));
        }
        Some(p)
    }

    /// The ingress step for one read: pushes the chunk, then drains every
    /// frame it completed, in stream order. What remains buffered is exactly
    /// the residue of all bytes seen so far.
    pub fn ingest(&mut self, data: &[u8]) -> (r: Vec<Packet>)
        ensures
            final(self)@ == stream_residue(old(self)@ + data@),
            r@.len() == stream_payloads(old(self)@ + data@).len(),
            forall|k: int|
                0 <= k < r@.len() ==> r@[k]@ == packet_decode(
                    stream_payloads(old(self)@ + data@)[k],
                ),
    {
        self.push(data);
        let ghost total: Seq<u8> = self@;
        let mut out: Vec<Packet> = Vec::new();
        let mut more = true;
        while more
            invariant
                out@.len() + stream_payloads(self@).len() == stream_payloads(total).len(),
                forall|k: int|
                    0 <= k < out@.len() ==> out@[k]@ == packet_decode(stream_payloads(total)[k]),
                forall|j: int|
                    0 <= j < stream_payloads(self@).len() ==> stream_payloads(self@)[j]
                        == stream_payloads(total)[out@.len() + j],
                stream_residue(self@) == stream_residue(total),
                !more ==> !has_frame(self@),
            decreases self@.len() + if more {
                1int
            } else {
                0int
            },
        {
            let ghost before: Seq<u8> = self@;
            let nxt = self.next();
            match nxt {
                Some(p) => {
                    proof {
                        assert(stream_payloads(before) == seq![frame_payload(before)]
                            + stream_payloads(frame_rest(before)));
                        assert(stream_payloads(before)[0] == frame_payload(before));
                    }
                    out.push(p);
                    proof {
                        assert forall|j: int|
                            0 <= j < stream_payloads(self@).len() implies stream_payloads(
                            self@,
                        )[j] == stream_payloads(total)[out@.len() + j] by {
                            assert(stream_payloads(self@)[j] == stream_payloads(before)[j + 1]);
                        }
                    }
                },
                None => {
                    more = false;
                },
            }
        }
        out
    }
}

} // verus!
