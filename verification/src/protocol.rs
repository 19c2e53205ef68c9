//! The protocol engine: one node identity and one routing table, and
//! the rules that turn inbound packets and external commands into table
//! updates and outbound datagrams.
//!
//! The engine makes every decision as a value: the caller owns the
//! channels and the socket, performs the sends, and feeds events back
//! in. Within one engine nothing is shared and nothing blocks.

use vstd::prelude::*;
use crate::kbucket::{Addr, Contact, KBuckets, K};
use crate::node_id::NodeID;

verus! {

/// What a liveness packet carries: a probe or its answer.
#[derive(Copy, Clone, PartialEq, Eq, Structural, Debug)]
pub enum Payload {
    Ping,
    Pong,
}

impl Payload {
    /// A pong answers a ping; nothing answers a pong.
    pub fn is_response(&self) -> (r: bool)
        ensures
            r == (*self is Pong),
    {
        match self {
            Payload::Pong => true,
            _ => false,
        }
    }
}

/// One datagram's worth of protocol: who sent it, an echoed sequence
/// number, and the payload.
#[derive(Copy, Clone, PartialEq, Eq, Structural, Debug)]
pub struct Packet {
    pub id: NodeID,
    pub seq_num: u64,
    pub payload: Payload,
}

/// An external control message for the driving loop, consumed once.
#[derive(Copy, Clone, PartialEq, Eq, Structural, Debug)]
pub enum Command {
    Shutdown,
    Ping(Addr),
}

/// Whether the driving loop should keep running. An explicit result
/// type: a bare boolean's polarity is too easy to invert.
#[derive(Copy, Clone, PartialEq, Eq, Structural, Debug)]
pub enum Flow {
    Continue,
    Stop,
}

/// Relies on rand::random::<u64>: a random 64-bit word. Nothing is
/// assumed of the value.
#[verifier::external_body]
fn random_u64() -> u64 {
    rand::random()
}

/// A fresh identifier drawn at random; no two calls are related.
fn random_node_id() -> NodeID {
    NodeID { w0: random_u64(), w1: random_u64(), w2: random_u64(), w3: random_u64() }
}

/// The protocol engine: this node's identity and what it knows of its
/// peers.
pub struct Kad {
    pub id: NodeID,
    pub known_peers: KBuckets,
}

impl Kad {
    /// The engine's invariant: the table is well formed as seen from
    /// this node's identity.
    pub open spec fn wf(self) -> bool {
        self.known_peers.wf(self.id)
    }

    /// A fresh engine: a random identity and an empty table.
    pub fn new() -> (r: Kad)
        ensures
            r.wf(),
            r.known_peers.next_to_split == 0,
            r.known_peers.k_buckets@.len() == 1,
            forall|id: NodeID| !(#[trigger] r.known_peers.has_id(r.id, id)),
    {
        Kad { id: random_node_id(), known_peers: KBuckets::new() }
    }

    /// A fresh engine around a chosen identity.
    pub fn with_id(id: NodeID) -> (r: Kad)
        ensures
            r.wf(),
            r.id == id,
            r.known_peers.next_to_split == 0,
            r.known_peers.k_buckets@.len() == 1,
            forall|x: NodeID| !(#[trigger] r.known_peers.has_id(r.id, x)),
    {
        Kad { id, known_peers: KBuckets::new() }
    }

    /// Handle one inbound packet from `peer`.
    ///
    /// The sender is recorded in the routing table (a full,
    /// non-splittable bucket drops it silently: no eviction probe is
    /// issued, by design); a ping is answered with a pong to the
    /// source, echoing the sequence number; a pong needs no reply, the
    /// table touch being the point. A packet claiming this node's own
    /// identifier never reaches the table.
    pub fn handle_packet(&mut self, pack: Packet, peer: Addr) -> (reply: Option<(Packet, Addr)>)
        requires
            old(self).wf(),
        ensures
            final(self).wf(),
            final(self).id == old(self).id,
            pack.id == old(self).id ==> final(self).known_peers == old(self).known_peers,
            forall|x: NodeID|
                x != pack.id ==> final(self).known_peers.has_id(old(self).id, x)
                    == old(self).known_peers.has_id(old(self).id, x),
            forall|x: NodeID|
                x != pack.id && old(self).known_peers.has_id(old(self).id, x)
                    ==> final(self).known_peers.addr_of(old(self).id, x)
                    == old(self).known_peers.addr_of(old(self).id, x),
            (pack.id != old(self).id && (old(self).known_peers.has_id(old(self).id, pack.id)
                || old(self).known_peers.bucket_seq(old(self).id, pack.id).len() < K))
                ==> (final(self).known_peers.has_id(old(self).id, pack.id)
                && final(self).known_peers.addr_of(old(self).id, pack.id) == peer),
            match reply {
                Some(out) => pack.payload is Ping && out.1 == peer && out.0.id == old(self).id
                    && out.0.seq_num == pack.seq_num && out.0.payload is Pong,
                None => pack.payload is Pong,
            },
    {
        if pack.id != self.id {
            let _accepted = self.known_peers.insert(self.id, Contact { id: pack.id, addr: peer });
        }
        match pack.payload {
            Payload::Ping => Some(
                (Packet { id: self.id, seq_num: pack.seq_num, payload: Payload::Pong }, peer),
            ),
            Payload::Pong => None,
        }
    }

    /// Handle one external command: a shutdown stops the driving loop;
    /// a ping request queues a probe (sequence number 0) to the target.
    /// The table is untouched either way.
    pub fn handle_command(&self, command: Command) -> (r: (Flow, Option<(Packet, Addr)>))
        ensures
            match command {
                Command::Shutdown => r.0 is Stop && r.1 is None,
                Command::Ping(peer) => r.0 is Continue && r.1 == Some(
                    (Packet { id: self.id, seq_num: 0, payload: Payload::Ping }, peer),
                ),
            },
    {
        match command {
            Command::Shutdown => (Flow::Stop, None),
            Command::Ping(peer) => (
                Flow::Continue,
                Some((Packet { id: self.id, seq_num: 0, payload: Payload::Ping }, peer)),
            ),
        }
    }
}

} // verus!
