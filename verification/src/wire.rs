//! The wire format: a frame is a 4-byte big-endian length followed by that
//! many payload bytes. This module defines the format at the level of byte
//! sequences and proves that extracting frames from a stream depends only on
//! the bytes, not on how they arrived.

use vstd::prelude::*;

verus! {

/// The unsigned value carried by four big-endian bytes.
pub open spec fn be_u32(b0: u8, b1: u8, b2: u8, b3: u8) -> u32 {
    ((b0 as u32) << 24) | ((b1 as u32) << 16) | ((b2 as u32) << 8) | (b3 as u32)
}

/// The four big-endian bytes that carry `n`.
pub open spec fn be_bytes(n: u32) -> Seq<u8> {
    seq![
        ((n >> 24) & 0xff) as u8,
        ((n >> 16) & 0xff) as u8,
        ((n >> 8) & 0xff) as u8,
        (n & 0xff) as u8,
    ]
}

/// Reading back the four bytes written for `n` yields `n`.
pub proof fn lemma_be_round_trip(n: u32)
    ensures
        be_u32(
            ((n >> 24) & 0xff) as u8,
            ((n >> 16) & 0xff) as u8,
            ((n >> 8) & 0xff) as u8,
            (n & 0xff) as u8,
        ) == n,
{
    assert(((((n >> 24) & 0xff) as u8 as u32) << 24) | ((((n >> 16) & 0xff) as u8 as u32) << 16)
        | ((((n >> 8) & 0xff) as u8 as u32) << 8) | ((n & 0xff) as u8 as u32) == n) by (bit_vector);
}

/// The complete frame that carries the given payload: a four-byte big-endian
/// length prefix followed by the payload itself.
pub open spec fn frame_encode(payload: Seq<u8>) -> Seq<u8>
    recommends
        payload.len() <= u32::MAX,
{
    be_bytes(payload.len() as u32) + payload
}

/// The declared payload length of the frame at the front of the stream.
pub open spec fn frame_len(s: Seq<u8>) -> nat
    recommends
        s.len() >= 4,
{
    be_u32(s[0], s[1], s[2], s[3]) as nat
}

/// Whether the stream starts with a complete frame: a full length prefix and
/// at least as many payload bytes as the prefix declares.
pub open spec fn has_frame(s: Seq<u8>) -> bool {
    s.len() >= 4 && s.len() >= 4 + frame_len(s)
}

/// The payload of the frame at the front of the stream.
pub open spec fn frame_payload(s: Seq<u8>) -> Seq<u8>
    recommends
        has_frame(s),
{
    s.subrange(4, 4 + frame_len(s) as int)
}

/// The stream with its front frame removed.
pub open spec fn frame_rest(s: Seq<u8>) -> Seq<u8>
    recommends
        has_frame(s),
{
    s.subrange(4 + frame_len(s) as int, s.len() as int)
}

/// All complete frame payloads at the front of the stream, in order.
pub open spec fn stream_payloads(s: Seq<u8>) -> Seq<Seq<u8>>
    decreases s.len(),
{
    if has_frame(s) {
        seq![frame_payload(s)] + stream_payloads(frame_rest(s))
    } else {
        seq![]
    }
}

/// What is left of the stream once every complete frame has been removed.
pub open spec fn stream_residue(s: Seq<u8>) -> Seq<u8>
    decreases s.len(),
{
    if has_frame(s) {
        stream_residue(frame_rest(s))
    } else {
        s
    }
}

/// Appending bytes to a stream that starts with a complete frame neither
/// changes that frame nor what extraction sees afterwards.
proof fn lemma_frame_extend(s: Seq<u8>, b: Seq<u8>)
    requires
        has_frame(s),
    ensures
        has_frame(s + b),
        frame_len(s + b) == frame_len(s),
        frame_payload(s + b) == frame_payload(s),
        frame_rest(s + b) == frame_rest(s) + b,
{
    assert(frame_payload(s + b) =~= frame_payload(s));
    assert(frame_rest(s + b) =~= frame_rest(s) + b);
}

/// An encoded frame put in front of a stream is read back as exactly its own
/// payload, leaving the rest of the stream untouched.
pub proof fn lemma_stream_one_frame(payload: Seq<u8>, rest: Seq<u8>)
    requires
        payload.len() <= u32::MAX,
    ensures
        stream_payloads(frame_encode(payload) + rest) == seq![payload] + stream_payloads(rest),
        stream_residue(frame_encode(payload) + rest) == stream_residue(rest),
{
    let s = frame_encode(payload) + rest;
    lemma_be_round_trip(payload.len() as u32);
    assert(s.len() == 4 + payload.len() + rest.len());
    assert(s[0] == be_bytes(payload.len() as u32)[0]);
    assert(s[1] == be_bytes(payload.len() as u32)[1]);
    assert(s[2] == be_bytes(payload.len() as u32)[2]);
    assert(s[3] == be_bytes(payload.len() as u32)[3]);
    assert(frame_len(s) == payload.len());
    assert(has_frame(s));
    assert(frame_payload(s) =~= payload);
    assert(frame_rest(s) =~= rest);
}

/// Chunk-independence of frame extraction: pushing `a`, draining, then
/// pushing `b` and draining again yields the same frames and leaves the same
/// residue as pushing `a + b` at once. Extraction therefore depends only on
/// the concatenation of all bytes pushed, never on the chunking.
pub proof fn lemma_chunk_independence(a: Seq<u8>, b: Seq<u8>)
    ensures
        stream_payloads(a + b) == stream_payloads(a) + stream_payloads(stream_residue(a) + b),
        stream_residue(a + b) == stream_residue(stream_residue(a) + b),
    decreases a.len(),
{
    if has_frame(a) {
        lemma_frame_extend(a, b);
        lemma_chunk_independence(frame_rest(a), b);
        assert(stream_payloads(a + b) =~= stream_payloads(a) + stream_payloads(
            stream_residue(a) + b,
        ));
    } else {
        assert(stream_residue(a) + b =~= a + b);
    }
}

/// The bytes of a sequence of chunks, concatenated in arrival order.
pub open spec fn concat_chunks(chunks: Seq<Seq<u8>>) -> Seq<u8>
    decreases chunks.len(),
{
    if chunks.len() == 0 {
        seq![]
    } else {
        concat_chunks(chunks.drop_last()) + chunks.last()
    }
}

/// The buffer left after pushing each chunk in turn, draining every complete
/// frame between pushes.
pub open spec fn residue_after(chunks: Seq<Seq<u8>>) -> Seq<u8>
    decreases chunks.len(),
{
    if chunks.len() == 0 {
        seq![]
    } else {
        stream_residue(residue_after(chunks.drop_last()) + chunks.last())
    }
}

/// Every frame payload extracted across all those drains, in order.
pub open spec fn payloads_after(chunks: Seq<Seq<u8>>) -> Seq<Seq<u8>>
    decreases chunks.len(),
{
    if chunks.len() == 0 {
        seq![]
    } else {
        payloads_after(chunks.drop_last()) + stream_payloads(
            residue_after(chunks.drop_last()) + chunks.last(),
        )
    }
}

/// However a byte stream is cut into push-call chunks, draining after each
/// push extracts exactly the frames of the whole stream pushed at once, in
/// the same order, and leaves the same residue buffered.
pub proof fn lemma_chunking_irrelevant(chunks: Seq<Seq<u8>>)
    ensures
        payloads_after(chunks) == stream_payloads(concat_chunks(chunks)),
        residue_after(chunks) == stream_residue(concat_chunks(chunks)),
    decreases chunks.len(),
{
    if chunks.len() == 0 {
    } else {
        lemma_chunking_irrelevant(chunks.drop_last());
        lemma_chunk_independence(concat_chunks(chunks.drop_last()), chunks.last());
    }
}

} // verus!
