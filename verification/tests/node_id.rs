use kad_node::node_id::{NodeID, KEY_BITS};

#[test]
fn leading_zeros_counts_from_the_most_significant_word() {
    assert_eq!(NodeID { w0: 0, w1: 0, w2: 0, w3: 0 }.leading_zeros(), KEY_BITS as u32);
    assert_eq!(NodeID { w0: 1 << 63, w1: 0, w2: 0, w3: 0 }.leading_zeros(), 0);
    assert_eq!(NodeID { w0: 1, w1: 0, w2: 0, w3: 0 }.leading_zeros(), 63);
    assert_eq!(NodeID { w0: 0, w1: 1, w2: 0, w3: 0 }.leading_zeros(), 127);
    assert_eq!(NodeID { w0: 0, w1: 0, w2: 1 << 32, w3: 0 }.leading_zeros(), 159);
    assert_eq!(NodeID { w0: 0, w1: 0, w2: 0, w3: 1 }.leading_zeros(), 255);
    assert_eq!(NodeID { w0: 0, w1: 0, w2: 0, w3: 15 }.leading_zeros(), 252);
}

#[test]
fn xor_is_word_wise_and_self_cancelling() {
    let a = NodeID { w0: 0xF0, w1: 1, w2: 2, w3: 3 };
    let b = NodeID { w0: 0x0F, w1: 1, w2: 0, w3: 1 };
    assert_eq!(a.xor(b), NodeID { w0: 0xFF, w1: 0, w2: 2, w3: 2 });
    assert_eq!(a.xor(a), NodeID { w0: 0, w1: 0, w2: 0, w3: 0 });
}
