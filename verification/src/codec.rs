//! The wire codec for liveness packets.
//!
//! One datagram holds exactly one packet: the sender's four identifier
//! words, then the sequence number, each little-endian, then a single
//! payload tag byte (0 for ping, 1 for pong) — 41 bytes in all. Both
//! sides of a deployment use this one layout; anything else is
//! discarded by the decoder.

use vstd::prelude::*;
use vstd::bytes::{
    lemma_auto_spec_u64_to_from_le_bytes, spec_u64_from_le_bytes, spec_u64_to_le_bytes,
    u64_from_le_bytes, u64_to_le_bytes,
};
use vstd::slice::slice_subrange;
use crate::node_id::NodeID;
use crate::protocol::{Packet, Payload};

verus! {

/// Length in bytes of every encoded packet.
pub const PACKET_LEN: usize = 41;

/// The tag byte of a payload.
pub open spec fn tag_of(p: Payload) -> u8 {
    if p is Pong {
        1
    } else {
        0
    }
}

/// The encoding of a packet.
pub open spec fn spec_encode(p: Packet) -> Seq<u8> {
    spec_u64_to_le_bytes(p.id.w0) + spec_u64_to_le_bytes(p.id.w1) + spec_u64_to_le_bytes(p.id.w2)
        + spec_u64_to_le_bytes(p.id.w3) + spec_u64_to_le_bytes(p.seq_num) + seq![tag_of(p.payload)]
}

/// What decoding yields: a packet for a well-formed datagram, nothing
/// for a malformed one.
pub open spec fn spec_decode(s: Seq<u8>) -> Option<Packet> {
    if s.len() == 41 && (s[40] == 0 || s[40] == 1) {
        Some(
            Packet {
                id: NodeID {
                    w0: spec_u64_from_le_bytes(s.subrange(0, 8)),
                    w1: spec_u64_from_le_bytes(s.subrange(8, 16)),
                    w2: spec_u64_from_le_bytes(s.subrange(16, 24)),
                    w3: spec_u64_from_le_bytes(s.subrange(24, 32)),
                },
                seq_num: spec_u64_from_le_bytes(s.subrange(32, 40)),
                payload: if s[40] == 1 {
                    Payload::Pong
                } else {
                    Payload::Ping
                },
            },
        )
    } else {
        None
    }
}

/// Encode one packet as one datagram.
pub fn encode_packet(p: &Packet) -> (r: Vec<u8>)
    ensures
        r@ == spec_encode(*p),
        r@.len() == PACKET_LEN,
{
    let mut out: Vec<u8> = Vec::new();
    let mut word = u64_to_le_bytes(p.id.w0);
    out.append(&mut word);
    let mut word = u64_to_le_bytes(p.id.w1);
    out.append(&mut word);
    let mut word = u64_to_le_bytes(p.id.w2);
    out.append(&mut word);
    let mut word = u64_to_le_bytes(p.id.w3);
    out.append(&mut word);
    let mut word = u64_to_le_bytes(p.seq_num);
    out.append(&mut word);
    let tag: u8 = match p.payload {
        Payload::Ping => 0,
        Payload::Pong => 1,
    };
    out.push(tag);
    proof {
        assert(out@ =~= spec_encode(*p));
    }
    out
}

/// Decode one datagram; a truncated, oversized or unknown-tag datagram
/// yields nothing.
pub fn decode_packet(s: &[u8]) -> (r: Option<Packet>)
    ensures
        r == spec_decode(s@),
{
    if s.len() != 41 {
        return None;
    }
    let tag: u8 = *vstd::slice::slice_index_get(s, 40);
    if tag > 1 {
        return None;
    }
    let w0 = u64_from_le_bytes(slice_subrange(s, 0, 8));
    let w1 = u64_from_le_bytes(slice_subrange(s, 8, 16));
    let w2 = u64_from_le_bytes(slice_subrange(s, 16, 24));
    let w3 = u64_from_le_bytes(slice_subrange(s, 24, 32));
    let seq_num = u64_from_le_bytes(slice_subrange(s, 32, 40));
    let payload = if tag == 1 {
        Payload::Pong
    } else {
        Payload::Ping
    };
    Some(Packet { id: NodeID { w0, w1, w2, w3 }, seq_num, payload })
}

/// Law: decoding an encoded packet yields the packet back.
pub proof fn lemma_codec_round_trip(p: Packet)
    ensures
        spec_decode(spec_encode(p)) == Some(p),
{
    lemma_auto_spec_u64_to_from_le_bytes();
    let s = spec_encode(p);
    assert(s.subrange(0, 8) =~= spec_u64_to_le_bytes(p.id.w0));
    assert(s.subrange(8, 16) =~= spec_u64_to_le_bytes(p.id.w1));
    assert(s.subrange(16, 24) =~= spec_u64_to_le_bytes(p.id.w2));
    assert(s.subrange(24, 32) =~= spec_u64_to_le_bytes(p.id.w3));
    assert(s.subrange(32, 40) =~= spec_u64_to_le_bytes(p.seq_num));
}

/// Law: a datagram that decodes to a packet is exactly that packet's
/// encoding — the layout holds no slack.
pub proof fn lemma_codec_exact(s: Seq<u8>, p: Packet)
    requires
        spec_decode(s) == Some(p),
    ensures
        s == spec_encode(p),
{
    lemma_auto_spec_u64_to_from_le_bytes();
    assert(spec_u64_to_le_bytes(spec_u64_from_le_bytes(s.subrange(0, 8))) == s.subrange(0, 8));
    assert(spec_u64_to_le_bytes(spec_u64_from_le_bytes(s.subrange(8, 16))) == s.subrange(8, 16));
    assert(spec_u64_to_le_bytes(spec_u64_from_le_bytes(s.subrange(16, 24))) == s.subrange(16, 24));
    assert(spec_u64_to_le_bytes(spec_u64_from_le_bytes(s.subrange(24, 32))) == s.subrange(24, 32));
    assert(spec_u64_to_le_bytes(spec_u64_from_le_bytes(s.subrange(32, 40))) == s.subrange(32, 40));
    assert(s =~= spec_encode(p));
}

} // verus!
