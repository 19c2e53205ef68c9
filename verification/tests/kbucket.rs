use kad_node::kbucket::{Addr, Contact, KBuckets, K, KEY_BITS};
use kad_node::node_id::NodeID;

fn nid(w0: u64, w1: u64, w2: u64, w3: u64) -> NodeID {
    NodeID { w0, w1, w2, w3 }
}

fn sock() -> Addr {
    // "[::]:6060"
    Addr { ip: 0, port: 6060 }
}

#[test]
fn full_distant_bucket() {
    let sock = sock();
    let me = nid(0, 0, 0, 0);

    let mut peer = Contact { id: nid(u64::MAX, u64::MAX, u64::MAX, u64::MAX), addr: sock };

    let mut buckets = KBuckets::new();

    // insert 20 distinct peers
    for _ in 0..K {
        buckets.insert(me, peer).unwrap(); // Shouldn't panic
        peer.id.w3 -= 1;
    }

    peer.id.w3 = 0xFFFF_FFFF_FFFF_FF00;
    assert_eq!(
        buckets.insert(me, peer),
        Err(Contact { id: nid(u64::MAX, u64::MAX, u64::MAX, u64::MAX), addr: sock })
    );

    assert_eq!(buckets.k_buckets.len(), 2);
    assert_eq!(
        buckets.k_buckets[buckets.indices[0] as usize].contacts.len(),
        K
    );
    for i in &buckets.indices[1..] {
        assert_eq!(buckets.k_buckets[*i as usize].contacts.len(), 0);
    }
}

#[test]
fn full_near_bucket() {
    let sock = sock();
    let me = nid(0, 0, 0, 0);

    let mut peer = Contact { id: nid(0, 0, 0, 0), addr: sock };

    let mut buckets = KBuckets::new();

    for _ in 0..K {
        peer.id.w3 += 1;
        buckets.insert(me, peer).unwrap(); // Shouldn't panic
    }

    peer.id = nid(u64::MAX, u64::MAX, u64::MAX, u64::MAX);
    buckets.insert(me, peer).unwrap();
    assert_eq!(
        buckets.k_buckets[buckets.indices[0] as usize].contacts.len(),
        1
    );
    assert_eq!(
        buckets.k_buckets[buckets.indices[KEY_BITS - 1] as usize]
            .contacts
            .len(),
        K
    );

    peer.id = nid(0, 0, 0, K as u64);
    buckets.insert(me, peer).unwrap();
}

fn total_contacts(t: &KBuckets) -> usize {
    t.k_buckets.iter().map(|b| b.contacts.len()).sum()
}

#[test]
fn reinsert_moves_to_back_and_updates_address() {
    let me = nid(0, 0, 0, 0);
    let mut buckets = KBuckets::new();
    for w in 1..=5u64 {
        let c = Contact { id: nid(u64::MAX, 0, 0, w), addr: Addr { ip: 1, port: w as u16 } };
        buckets.insert(me, c).unwrap();
    }
    let before = total_contacts(&buckets);
    let again = Contact { id: nid(u64::MAX, 0, 0, 2), addr: Addr { ip: 9, port: 9 } };
    buckets.insert(me, again).unwrap();
    assert_eq!(before, total_contacts(&buckets));
    let bucket = &buckets.k_buckets[buckets.indices[0] as usize];
    let last = bucket.contacts.last().unwrap();
    assert_eq!(last.id, nid(u64::MAX, 0, 0, 2));
    assert_eq!(last.addr, Addr { ip: 9, port: 9 });
    assert_eq!(bucket.contacts.len(), 5);
}

#[test]
fn first_nearer_contact_after_a_full_distant_bucket_splits_once() {
    let sock = sock();
    let me = nid(0, 0, 0, 0);
    let mut buckets = KBuckets::new();
    // fill the single bucket with K most-distant contacts (class 0)
    for i in 0..K as u64 {
        let c = Contact { id: nid(u64::MAX, u64::MAX, u64::MAX, u64::MAX - i), addr: sock };
        buckets.insert(me, c).unwrap();
    }
    assert_eq!(buckets.k_buckets.len(), 1);
    // one contact of the next distance class: exactly one split,
    // bucket count up by exactly one net
    let nearer = Contact { id: nid(0x4000_0000_0000_0000, 0, 0, 0), addr: sock };
    buckets.insert(me, nearer).unwrap();
    assert_eq!(buckets.k_buckets.len(), 2);
    assert_eq!(total_contacts(&buckets), K + 1);
}

#[test]
fn bucket_count_never_exceeds_253() {
    let sock = sock();
    let me = nid(0, 0, 0, 0);
    let mut buckets = KBuckets::new();
    // deep contacts (high distance class) force repeated splits
    for w in 1..=4000u64 {
        let _ = buckets.insert(me, Contact { id: nid(0, 0, 0, w), addr: sock });
        assert!(buckets.k_buckets.len() <= 253);
    }
    // distant contacts as well
    for w in 1..=4000u64 {
        let _ = buckets.insert(me, Contact { id: nid(w, w, 0, 0), addr: sock });
        assert!(buckets.k_buckets.len() <= 253);
    }
    assert!(buckets.k_buckets.len() <= 253);
}

#[test]
fn rejected_insert_leaves_table_unchanged() {
    let sock = sock();
    let me = nid(0, 0, 0, 0);
    let mut buckets = KBuckets::new();
    // force a split so that class 0 has a dedicated, non-splittable bucket
    for i in 0..K as u64 {
        buckets
            .insert(me, Contact { id: nid(u64::MAX, u64::MAX, u64::MAX, u64::MAX - i), addr: sock })
            .unwrap();
    }
    let trigger = Contact { id: nid(0x4000_0000_0000_0000, 0, 0, 0), addr: sock };
    buckets.insert(me, trigger).unwrap();
    // the class-0 bucket is full and may not split: a fresh class-0
    // contact comes back with the least-recently-seen entry, and
    // nothing moves
    let lens: Vec<usize> = buckets.k_buckets.iter().map(|b| b.contacts.len()).collect();
    let newcomer = Contact { id: nid(u64::MAX, 1, 2, 3), addr: sock };
    let evicted = buckets.insert(me, newcomer).unwrap_err();
    assert_eq!(evicted.id, nid(u64::MAX, u64::MAX, u64::MAX, u64::MAX));
    let lens_after: Vec<usize> = buckets.k_buckets.iter().map(|b| b.contacts.len()).collect();
    assert_eq!(lens, lens_after);
}

#[test]
fn accepted_contacts_are_never_lost() {
    let sock = sock();
    let me = nid(0, 0, 0, 0);
    let mut buckets = KBuckets::new();
    let mut accepted: Vec<NodeID> = Vec::new();
    for w in 1..=300u64 {
        let id = nid(0, 0, w, w * 17);
        if buckets.insert(me, Contact { id, addr: sock }).is_ok() {
            accepted.push(id);
        }
    }
    for id in &accepted {
        let found = buckets
            .k_buckets
            .iter()
            .any(|b| b.contacts.iter().any(|c| c.id == *id));
        assert!(found);
    }
}
