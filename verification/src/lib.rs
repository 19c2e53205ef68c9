//! Core of a Kademlia-style peer-to-peer node: a k-bucket routing table
//! organized by XOR distance, the protocol engine that turns inbound
//! datagrams and external commands into table updates and outbound
//! datagrams, and the wire codec for liveness (ping/pong) packets.
//!
//! The transport socket and the thread/channel plumbing live outside this
//! library; the decisions they carry out are made and verified here.

pub mod codec;
pub mod kbucket;
pub mod node_id;
pub mod protocol;
