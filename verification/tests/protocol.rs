use kad_node::kbucket::{Addr, Contact, KBuckets, K};
use kad_node::node_id::NodeID;
use kad_node::protocol::{Command, Flow, Kad, Packet, Payload};

fn nid(w0: u64, w1: u64, w2: u64, w3: u64) -> NodeID {
    NodeID { w0, w1, w2, w3 }
}

fn total_contacts(t: &KBuckets) -> usize {
    t.k_buckets.iter().map(|b| b.contacts.len()).sum()
}

fn holds(t: &KBuckets, id: NodeID) -> bool {
    t.k_buckets.iter().any(|b| b.contacts.iter().any(|c| c.id == id))
}

#[test]
fn ping_pong_exchange_builds_both_tables() {
    let a_id = nid(0, 0, 0, 1);
    let b_id = nid(u64::MAX, 0, 0, 2);
    let a_addr = Addr { ip: 10, port: 1 };
    let b_addr = Addr { ip: 11, port: 2 };
    let mut a = Kad::with_id(a_id);
    let mut b = Kad::with_id(b_id);

    // A is told to ping B
    let (flow, out) = a.handle_command(Command::Ping(b_addr));
    assert!(matches!(flow, Flow::Continue));
    let (ping, dest) = out.unwrap();
    assert_eq!(dest, b_addr);
    assert!(matches!(ping.payload, Payload::Ping));
    assert_eq!(ping.id, a_id);
    assert_eq!(ping.seq_num, 0);

    // B receives the ping: remembers A, answers with a pong
    let reply = b.handle_packet(ping, a_addr);
    let (pong, pong_dest) = reply.unwrap();
    assert_eq!(pong_dest, a_addr);
    assert!(matches!(pong.payload, Payload::Pong));
    assert_eq!(pong.seq_num, ping.seq_num);
    assert_eq!(pong.id, b_id);

    // A receives the pong: remembers B, no further reply
    assert!(a.handle_packet(pong, b_addr).is_none());

    // both tables now hold exactly one contact: each other
    assert_eq!(total_contacts(&a.known_peers), 1);
    assert_eq!(total_contacts(&b.known_peers), 1);
    assert!(holds(&a.known_peers, b_id));
    assert!(holds(&b.known_peers, a_id));
}

#[test]
fn shutdown_stops_the_driver_and_sends_nothing() {
    let k = Kad::with_id(nid(0, 0, 0, 7));
    let (flow, out) = k.handle_command(Command::Shutdown);
    assert!(matches!(flow, Flow::Stop));
    assert!(out.is_none());
}

#[test]
fn pong_is_the_response() {
    assert!(Payload::Pong.is_response());
    assert!(!Payload::Ping.is_response());
}

#[test]
fn own_id_never_enters_the_table() {
    let id = nid(3, 0, 0, 0);
    let mut k = Kad::with_id(id);
    let reply = k.handle_packet(
        Packet { id, seq_num: 9, payload: Payload::Ping },
        Addr { ip: 5, port: 5 },
    );
    // the ping is still answered, but the sender is not recorded
    assert!(reply.is_some());
    assert_eq!(total_contacts(&k.known_peers), 0);
}

#[test]
fn pong_confirms_liveness_without_a_reply() {
    let mut k = Kad::with_id(nid(0, 0, 0, 1));
    let sender = nid(u64::MAX, 0, 0, 0);
    let reply = k.handle_packet(
        Packet { id: sender, seq_num: 4, payload: Payload::Pong },
        Addr { ip: 8, port: 8 },
    );
    assert!(reply.is_none());
    assert!(holds(&k.known_peers, sender));
}

#[test]
fn flood_of_pings_is_processed_with_bounded_table() {
    let me = nid(0, 0, 0, 0);
    let mut k = Kad::with_id(me);
    for i in 0..10_000u64 {
        let sender = nid(i + 1, i, i ^ 7, i * 3);
        let reply = k.handle_packet(
            Packet { id: sender, seq_num: i, payload: Payload::Ping },
            Addr { ip: i as u128, port: (i % 65535) as u16 },
        );
        // every well-formed ping gets its pong, however full the table
        assert!(reply.is_some());
    }
    assert!(k.known_peers.k_buckets.len() <= 253);
    assert!(total_contacts(&k.known_peers) <= 253 * K);
}

#[test]
fn table_rejection_is_silently_ignored_by_the_engine() {
    let me = nid(0, 0, 0, 0);
    let mut k = Kad::with_id(me);
    // make the class-0 bucket dedicated and full
    for i in 0..K as u64 {
        let c = Contact {
            id: nid(u64::MAX, u64::MAX, u64::MAX, u64::MAX - i),
            addr: Addr { ip: 1, port: 1 },
        };
        k.known_peers.insert(me, c).unwrap();
    }
    k.known_peers
        .insert(me, Contact { id: nid(0x4000_0000_0000_0000, 0, 0, 0), addr: Addr { ip: 1, port: 1 } })
        .unwrap();
    let before = total_contacts(&k.known_peers);
    // one more distant sender: its bucket is full and may not split;
    // the failure is discarded and the ping still answered
    let stranger = nid(u64::MAX, 4, 5, 6);
    let reply = k.handle_packet(
        Packet { id: stranger, seq_num: 1, payload: Payload::Ping },
        Addr { ip: 2, port: 2 },
    );
    assert!(reply.is_some());
    assert!(!holds(&k.known_peers, stranger));
    assert_eq!(total_contacts(&k.known_peers), before);
}
