use kad_node::codec::{decode_packet, encode_packet, PACKET_LEN};
use kad_node::node_id::NodeID;
use kad_node::protocol::{Packet, Payload};

#[test]
fn round_trip_ping() {
    let p = Packet {
        id: NodeID { w0: 1, w1: 2, w2: 3, w3: 4 },
        seq_num: 0x0102030405060708,
        payload: Payload::Ping,
    };
    let bytes = encode_packet(&p);
    assert_eq!(bytes.len(), PACKET_LEN);
    assert_eq!(decode_packet(&bytes), Some(p));
}

#[test]
fn round_trip_pong() {
    let p = Packet {
        id: NodeID { w0: u64::MAX, w1: 0, w2: u64::MAX, w3: 0xdead_beef },
        seq_num: u64::MAX,
        payload: Payload::Pong,
    };
    let bytes = encode_packet(&p);
    assert_eq!(decode_packet(&bytes), Some(p));
}

#[test]
fn exact_layout() {
    let p = Packet {
        id: NodeID { w0: 0x0807060504030201, w1: 0, w2: 0, w3: 0 },
        seq_num: 0x1122,
        payload: Payload::Pong,
    };
    let bytes = encode_packet(&p);
    assert_eq!(bytes.len(), 41);
    // first identifier word, little-endian
    assert_eq!(&bytes[0..8], &[1, 2, 3, 4, 5, 6, 7, 8]);
    // remaining identifier words are zero
    assert_eq!(&bytes[8..32], &[0u8; 24]);
    // sequence number, little-endian
    assert_eq!(&bytes[32..40], &[0x22, 0x11, 0, 0, 0, 0, 0, 0]);
    // payload tag: 1 marks a pong
    assert_eq!(bytes[40], 1);
}

#[test]
fn malformed_datagrams_are_rejected_and_service_continues() {
    let p = Packet {
        id: NodeID { w0: 5, w1: 6, w2: 7, w3: 8 },
        seq_num: 99,
        payload: Payload::Ping,
    };
    let bytes = encode_packet(&p);
    // truncated
    assert_eq!(decode_packet(&bytes[..bytes.len() - 1]), None);
    // empty
    assert_eq!(decode_packet(&[]), None);
    // oversized
    let mut long = bytes.clone();
    long.push(0);
    assert_eq!(decode_packet(&long), None);
    // unknown payload tag
    let mut bad_tag = bytes.clone();
    bad_tag[40] = 2;
    assert_eq!(decode_packet(&bad_tag), None);
    // a well-formed datagram after the malformed ones still decodes
    assert_eq!(decode_packet(&bytes), Some(p));
}
