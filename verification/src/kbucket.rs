//! The k-bucket routing table: a growing collection of fixed-capacity
//! peer lists indexed by distance class, which splits its one
//! split-eligible bucket lazily as the identifier space fills up.
//!
//! Starting from a single catch-all bucket and splitting on demand
//! avoids allocating one bucket per distance class up front and keeps
//! the nearest, almost-empty classes merged. The split-eligible bucket
//! always sits at position 0 of the bucket storage; the `indices`
//! array maps every distance class to the bucket currently responsible
//! for it, and `next_to_split` counts how many classes have been given
//! a dedicated bucket so far.

use vstd::prelude::*;
use crate::node_id::{class_of, lemma_class_in_range, lemma_deep_class_is_small, lemma_xor_injective, NodeID};
pub use crate::node_id::KEY_BITS;

verus! {

/// Fixed capacity of one bucket.
pub const K: usize = 20;

/// A transport endpoint, held as plain values: a 128-bit host address
/// and a port. The table never inspects it; the last-seen address of a
/// re-inserted contact wins.
#[derive(Copy, Clone, PartialEq, Eq, Structural, Debug)]
pub struct Addr {
    pub ip: u128,
    pub port: u16,
}

/// A remote peer: its identifier and the address it was last seen at.
/// Two contacts are "the same" for table purposes exactly when their
/// identifiers match.
#[derive(Copy, Clone, Debug)]
pub struct Contact {
    pub id: NodeID,
    pub addr: Addr,
}

impl PartialEq for Contact {
    fn eq(&self, other: &Self) -> (r: bool) {
        self.id == other.id
    }
}

impl vstd::std_specs::cmp::PartialEqSpecImpl for Contact {
    open spec fn obeys_eq_spec() -> bool {
        true
    }

    open spec fn eq_spec(&self, other: &Contact) -> bool {
        self.id == other.id
    }
}

/// One bucket: up to `K` contacts, oldest-seen first, plus the flag
/// marking the single bucket that is still allowed to split.
pub struct Bucket {
    pub can_split: bool,
    pub contacts: Vec<Contact>,
}

/// The routing table. `indices[c]` is the position, in `k_buckets`, of
/// the bucket responsible for distance class `c`; `next_to_split`
/// counts the classes that already have a dedicated bucket.
pub struct KBuckets {
    pub indices: Vec<u8>,
    pub next_to_split: usize,
    pub k_buckets: Vec<Bucket>,
}

/// Some entry of `s` carries the identifier `id`.
pub open spec fn seq_has_id(s: Seq<Contact>, id: NodeID) -> bool {
    exists|i: int| 0 <= i < s.len() && s[i].id == id
}

/// The position of the entry of `s` carrying `id`.
pub open spec fn id_index(s: Seq<Contact>, id: NodeID) -> int {
    choose|i: int| 0 <= i < s.len() && s[i].id == id
}

/// The address stored beside `id` in `s`.
pub open spec fn seq_addr_of(s: Seq<Contact>, id: NodeID) -> Addr {
    s[id_index(s, id)].addr
}

/// In a list without repeated identifiers, the entry found for an
/// identifier is the one and only entry carrying it.
proof fn lemma_unique_entry(s: Seq<Contact>, c: Contact, at: int)
    requires
        0 <= at < s.len(),
        s[at] == c,
        forall|i1: int, i2: int| 0 <= i1 < i2 < s.len() ==> s[i1].id != s[i2].id,
    ensures
        seq_has_id(s, c.id),
        id_index(s, c.id) == at,
        seq_addr_of(s, c.id) == c.addr,
{
    assert(s[at].id == c.id);
    let t: int = id_index(s, c.id);
    assert(0 <= t < s.len() && s[t].id == c.id);
    if t < at {
        assert(s[t].id != s[at].id);
    } else if t > at {
        assert(s[at].id != s[t].id);
    }
}

/// Removing an element and inserting another at the same position is
/// an in-place update.
proof fn lemma_remove_insert<T>(s: Seq<T>, i: int, v: T)
    requires
        0 <= i < s.len(),
    ensures
        s.remove(i).insert(i, v) == s.update(i, v),
{
    assert(s.remove(i).insert(i, v) =~= s.update(i, v));
}

/// Contacts at distance class 252 or deeper are so close to the node
/// that only fifteen distinct identifiers exist for them; a list of
/// such contacts without repeated identifiers can never fill a bucket.
proof fn lemma_deep_crowd_bounded(me: NodeID, s: Seq<Contact>)
    requires
        forall|i: int| 0 <= i < s.len() ==> 252 <= class_of(me, (#[trigger] s[i]).id) < 256,
        forall|i1: int, i2: int| 0 <= i1 < i2 < s.len() ==> s[i1].id != s[i2].id,
    ensures
        s.len() <= 15,
{
    let vals = Seq::new(s.len(), |i: int| me.spec_xor(s[i].id).w3 as int);
    assert forall|i: int| 0 <= i < s.len() implies 1 <= #[trigger] vals[i] < 16 by {
        lemma_deep_class_is_small(me, s[i].id);
    }
    assert forall|i1: int, i2: int|
        0 <= i1 < vals.len() && 0 <= i2 < vals.len() && i1 != i2 implies vals[i1] != vals[i2] by {
        if vals[i1] == vals[i2] {
            lemma_deep_class_is_small(me, s[i1].id);
            lemma_deep_class_is_small(me, s[i2].id);
            assert(me.spec_xor(s[i1].id) == me.spec_xor(s[i2].id));
            lemma_xor_injective(me, s[i1].id, s[i2].id);
        }
    }
    assert(vals.no_duplicates());
    vals.unique_seq_to_set();
    assert(vals.to_set().subset_of(vstd::set_lib::set_int_range(1, 16)));
    vstd::set_lib::lemma_int_range(1, 16);
    vstd::set_lib::lemma_len_subset(vals.to_set(), vstd::set_lib::set_int_range(1, 16));
}

/// `c` appears among the first `j` entries of `oc`.
spec fn from_prefix(oc: Seq<Contact>, j: int, c: Contact) -> bool {
    exists|t: int| 0 <= t < j && oc[t] == c
}

/// Extending the prefix by one keeps, and adds, its entries.
proof fn lemma_from_prefix_extend(oc: Seq<Contact>, j: int, c: Contact)
    requires
        from_prefix(oc, j, c) || (0 <= j < oc.len() && oc[j] == c),
    ensures
        from_prefix(oc, j + 1, c),
{
    if from_prefix(oc, j, c) {
        let t: int = choose|t: int| 0 <= t < j && oc[t] == c;
        assert(0 <= t < j + 1 && oc[t] == c);
    } else {
        assert(0 <= j < j + 1 && oc[j] == c);
    }
}

/// Law: a well-formed routing table never holds more than 253 buckets,
/// whatever sequence of insertions produced it.
pub proof fn lemma_bucket_count_bounded(t: KBuckets, me: NodeID)
    requires
        t.wf(me),
    ensures
        t.k_buckets@.len() <= 253,
{
}

impl KBuckets {
    /// The entry `c` may sit in bucket `j`: it is a real peer (not the
    /// node itself) and class routing sends its identifier to `j`.
    pub open spec fn entry_ok(self, me: NodeID, j: int, c: Contact) -> bool {
        &&& c.id != me
        &&& 0 <= class_of(me, c.id) < 256
        &&& self.indices@[class_of(me, c.id)] as int == j
    }

    /// Bucket `j` is well formed: within capacity, every entry routed
    /// here, no identifier twice.
    pub open spec fn bucket_wf(self, me: NodeID, j: int) -> bool {
        let s = self.k_buckets@[j].contacts@;
        &&& s.len() <= K
        &&& forall|i: int| 0 <= i < s.len() ==> self.entry_ok(me, j, #[trigger] s[i])
        &&& forall|i1: int, i2: int| 0 <= i1 < i2 < s.len() ==> s[i1].id != s[i2].id
    }

    /// The table invariant, relative to the owning node's identifier:
    /// 256 index entries; one more bucket than classes already carved
    /// out, never more than 253 in all; classes below `next_to_split`
    /// each mapped to their dedicated bucket (class `c` to position
    /// `c + 1`), all remaining classes mapped to the single
    /// split-eligible bucket at position 0; and every bucket well
    /// formed.
    pub open spec fn wf(self, me: NodeID) -> bool {
        &&& self.indices@.len() == 256
        &&& self.k_buckets@.len() == self.next_to_split + 1
        &&& self.next_to_split <= 252
        &&& forall|c: int| 0 <= c < 256 ==> (#[trigger] self.indices@[c]) < self.k_buckets@.len()
        &&& forall|c: int|
            0 <= c < self.next_to_split ==> (#[trigger] self.indices@[c]) as int == c + 1
        &&& forall|c: int| self.next_to_split <= c < 256 ==> (#[trigger] self.indices@[c]) as int == 0
        &&& self.k_buckets@[0].can_split
        &&& forall|j: int| 1 <= j < self.k_buckets@.len() ==> !(#[trigger] self.k_buckets@[j]).can_split
        &&& forall|j: int| 0 <= j < self.k_buckets@.len() ==> #[trigger] self.bucket_wf(me, j)
    }

    /// The contents of the bucket that class routing assigns to `id`.
    pub open spec fn bucket_seq(self, me: NodeID, id: NodeID) -> Seq<Contact> {
        self.k_buckets@[self.indices@[class_of(me, id)] as int].contacts@
    }

    /// `id` is known to the table. The node's own identifier is never
    /// stored.
    pub open spec fn has_id(self, me: NodeID, id: NodeID) -> bool {
        id != me && seq_has_id(self.bucket_seq(me, id), id)
    }

    /// The address stored for a known identifier.
    pub open spec fn addr_of(self, me: NodeID, id: NodeID) -> Addr {
        seq_addr_of(self.bucket_seq(me, id), id)
    }

    /// A fresh table: one empty, split-eligible bucket responsible for
    /// every distance class.
    pub fn new() -> (r: KBuckets)
        ensures
            forall|me: NodeID| #[trigger] r.wf(me),
            r.next_to_split == 0,
            r.k_buckets@.len() == 1,
            r.k_buckets@[0].contacts@.len() == 0,
            forall|me: NodeID, id: NodeID| !(#[trigger] r.has_id(me, id)),
    {
        let mut indices: Vec<u8> = Vec::new();
        let mut i: usize = 0;
        while i < 256
            invariant
                i <= 256,
                indices@.len() == i,
                forall|c: int| 0 <= c < i ==> (#[trigger] indices@[c]) == 0,
            decreases 256 - i,
        {
            indices.push(0);
            i = i + 1;
        }
        let mut k_buckets: Vec<Bucket> = Vec::new();
        k_buckets.push(Bucket { can_split: true, contacts: Vec::new() });
        let r = KBuckets { indices, next_to_split: 0, k_buckets };
        proof {
            assert forall|me: NodeID| #[trigger] r.wf(me) by {
                assert(r.bucket_wf(me, 0));
            }
            assert forall|me: NodeID, id: NodeID| !(#[trigger] r.has_id(me, id)) by {
                if id != me {
                    lemma_class_in_range(me, id);
                    assert(r.bucket_seq(me, id).len() == 0);
                }
            }
        }
        r
    }

    /// Append `c` to bucket `b`, leaving everything else unchanged.
    fn bucket_push(&mut self, b: usize, c: Contact)
        requires
            b < old(self).k_buckets@.len(),
        ensures
            final(self).indices == old(self).indices,
            final(self).next_to_split == old(self).next_to_split,
            final(self).k_buckets@.len() == old(self).k_buckets@.len(),
            forall|t: int|
                0 <= t < old(self).k_buckets@.len() && t != b ==> final(self).k_buckets@[t] == old(
                    self,
                ).k_buckets@[t],
            final(self).k_buckets@[b as int].can_split == old(self).k_buckets@[b as int].can_split,
            final(self).k_buckets@[b as int].contacts@ == old(self).k_buckets@[b as int].contacts@.push(
                c,
            ),
    {
        let mut bucket = self.k_buckets.remove(b);
        bucket.contacts.push(c);
        self.k_buckets.insert(b, bucket);
        proof {
            lemma_remove_insert(old(self).k_buckets@, b as int, self.k_buckets@[b as int]);
        }
    }

    /// Move the entry at position `i` of bucket `b` to the back,
    /// replacing it with `c` (same identifier, possibly a fresher
    /// address).
    fn bucket_touch(&mut self, b: usize, i: usize, c: Contact)
        requires
            b < old(self).k_buckets@.len(),
            i < old(self).k_buckets@[b as int].contacts@.len(),
        ensures
            final(self).indices == old(self).indices,
            final(self).next_to_split == old(self).next_to_split,
            final(self).k_buckets@.len() == old(self).k_buckets@.len(),
            forall|t: int|
                0 <= t < old(self).k_buckets@.len() && t != b ==> final(self).k_buckets@[t] == old(
                    self,
                ).k_buckets@[t],
            final(self).k_buckets@[b as int].can_split == old(self).k_buckets@[b as int].can_split,
            final(self).k_buckets@[b as int].contacts@ == old(self).k_buckets@[b as int].contacts@.remove(
                i as int,
            ).push(c),
    {
        let mut bucket = self.k_buckets.remove(b);
        let _dropped = bucket.contacts.remove(i);
        bucket.contacts.push(c);
        self.k_buckets.insert(b, bucket);
        proof {
            lemma_remove_insert(old(self).k_buckets@, b as int, self.k_buckets@[b as int]);
        }
    }

    /// Find the position of `id` in a bucket's contact list.
    fn find_in_contacts(contacts: &Vec<Contact>, id: NodeID) -> (r: Option<usize>)
        ensures
            match r {
                Some(i) => i < contacts@.len() && contacts@[i as int].id == id,
                None => !seq_has_id(contacts@, id),
            },
    {
        let mut i: usize = 0;
        while i < contacts.len()
            invariant
                i <= contacts@.len(),
                forall|t: int| 0 <= t < i ==> contacts@[t].id != id,
            decreases contacts@.len() - i,
        {
            if contacts[i].id == id {
                return Some(i);
            }
            i = i + 1;
        }
        None
    }

    /// Record that `contact` was just seen.
    ///
    /// An already-known identifier is moved to the most-recently-seen
    /// position of its bucket and its address refreshed; a new contact
    /// is appended when its bucket has room; a full split-eligible
    /// bucket is split (repeatedly, if need be) before retrying; a
    /// full bucket that may not split rejects the contact and hands
    /// back the least-recently-seen entry as the eviction candidate,
    /// evicting nothing itself.
    ///
    /// No accepted contact is ever lost: every identifier other than
    /// `contact.id` keeps exactly its old membership and address.
    pub fn insert(&mut self, me: NodeID, contact: Contact) -> (r: Result<(), Contact>)
        requires
            old(self).wf(me),
            contact.id != me,
        ensures
            final(self).wf(me),
            final(self).next_to_split >= old(self).next_to_split,
            final(self).k_buckets@.len() <= 253,
            forall|x: NodeID|
                x != contact.id ==> final(self).has_id(me, x) == old(self).has_id(me, x),
            forall|x: NodeID|
                x != contact.id && old(self).has_id(me, x) ==> final(self).addr_of(me, x) == old(
                    self,
                ).addr_of(me, x),
            match r {
                Ok(_) => final(self).has_id(me, contact.id) && final(self).addr_of(me, contact.id)
                    == contact.addr && final(self).bucket_seq(me, contact.id).last() == contact,
                Err(e) => {
                    &&& !final(self).has_id(me, contact.id)
                    &&& !old(self).has_id(me, contact.id)
                    &&& final(self).bucket_seq(me, contact.id).len() == K
                    &&& !final(self).k_buckets@[final(self).indices@[class_of(
                        me,
                        contact.id,
                    )] as int].can_split
                    &&& e == final(self).bucket_seq(me, contact.id)[0]
                },
            },
            old(self).has_id(me, contact.id) ==> {
                &&& r is Ok
                &&& final(self).next_to_split == old(self).next_to_split
                &&& final(self).k_buckets@.len() == old(self).k_buckets@.len()
                &&& forall|j: int|
                    0 <= j < old(self).k_buckets@.len() ==> final(self).k_buckets@[j].contacts@.len()
                        == old(self).k_buckets@[j].contacts@.len()
            },
            !old(self).has_id(me, contact.id) && old(self).bucket_seq(me, contact.id).len() < K
                ==> r is Ok,
            (!old(self).has_id(me, contact.id) && old(self).bucket_seq(me, contact.id).len() == K
                && old(self).indices@[class_of(me, contact.id)] as int != 0) ==> (match r {
                Ok(_) => false,
                Err(e) => e == old(self).bucket_seq(me, contact.id)[0] && *final(self) == *old(
                    self,
                ),
            }),
    {
        proof {
            lemma_class_in_range(me, contact.id);
        }
        loop
            invariant
                old(self).wf(me),
                contact.id != me,
                self.wf(me),
                old(self).next_to_split <= self.next_to_split,
                forall|x: NodeID| x != contact.id ==> self.has_id(me, x) == old(self).has_id(me, x),
                forall|x: NodeID|
                    x != contact.id && old(self).has_id(me, x) ==> self.addr_of(me, x) == old(
                        self,
                    ).addr_of(me, x),
                self.next_to_split == old(self).next_to_split ==> *self == *old(self),
                self.next_to_split > old(self).next_to_split ==> {
                    &&& !self.has_id(me, contact.id)
                    &&& !old(self).has_id(me, contact.id)
                    &&& old(self).indices@[class_of(me, contact.id)] as int == 0
                    &&& old(self).bucket_seq(me, contact.id).len() == K
                },
            decreases 253 - self.next_to_split,
        {
            let ghost prev = *self;
            proof {
                lemma_class_in_range(me, contact.id);
            }
            let class: usize = me.xor(contact.id).leading_zeros() as usize;
            let b: usize = self.indices[class] as usize;
            assert(self.bucket_wf(me, b as int));
            match Self::find_in_contacts(&self.k_buckets[b].contacts, contact.id) {
                Some(i) => {
                    // Already present, so present on entry: no split
                    // has happened and the table is still untouched.
                    assert(self.has_id(me, contact.id));
                    assert(*self == *old(self));
                    self.bucket_touch(b, i, contact);
                    proof {
                        self.lemma_after_touch(prev, me, contact, b as int, i as int);
                    }
                    return Ok(());
                },
                None => {
                    assert(!prev.has_id(me, contact.id));
                    let blen: usize = self.k_buckets[b].contacts.len();
                    if blen < K {
                        self.bucket_push(b, contact);
                        proof {
                            self.lemma_after_push(prev, me, contact, b as int);
                        }
                        return Ok(());
                    } else if !self.k_buckets[b].can_split {
                        let evict = self.k_buckets[b].contacts[0];
                        assert(b != 0);
                        return Err(evict);
                    } else {
                        // Full and split-eligible: only bucket 0 ever is.
                        assert(b == 0);
                        let n: usize = self.next_to_split;
                        proof {
                            self.lemma_tail_not_full_at_boundary(me);
                        }
                        let old_zero = self.k_buckets.remove(0);
                        let ghost s1 = self.k_buckets@;
                        self.k_buckets.insert(0, Bucket { can_split: true, contacts: Vec::new() });
                        let ghost s2 = self.k_buckets@;
                        self.k_buckets.push(Bucket { can_split: false, contacts: Vec::new() });
                        let new_idx: usize = self.k_buckets.len() - 1;
                        self.indices.set(n, new_idx as u8);
                        self.next_to_split = n + 1;
                        proof {
                            lemma_remove_insert(prev.k_buckets@, 0, s2[0]);
                            assert(s2 == prev.k_buckets@.update(0, s2[0]));
                            assert(self.k_buckets@ == s2.push(self.k_buckets@[n + 1]));
                            self.lemma_after_carve(prev, me);
                            assert(self.redist_inv(
                                prev,
                                me,
                                contact,
                                old_zero.contacts@,
                                n as int,
                                0,
                            )) by {
                                assert forall|t: int|
                                    0 <= t < old_zero.contacts@.len() implies {
                                    let c = #[trigger] old_zero.contacts@[t];
                                    c.id != me && 0 <= class_of(me, c.id) < 256 && n <= class_of(
                                        me,
                                        c.id,
                                    )
                                } by {
                                    assert(prev.bucket_wf(me, 0));
                                    assert(prev.entry_ok(me, 0, old_zero.contacts@[t]));
                                    let cls = class_of(me, old_zero.contacts@[t].id);
                                    if cls < n {
                                        assert(prev.indices@[cls] as int == cls + 1);
                                    }
                                }
                                assert(prev.bucket_wf(me, 0));
                                assert forall|t: int|
                                    0 <= t < old_zero.contacts@.len() implies !seq_has_id(
                                    #[trigger] self.bucket_seq(me, old_zero.contacts@[t].id),
                                    old_zero.contacts@[t].id,
                                ) by {
                                    let cls = class_of(me, old_zero.contacts@[t].id);
                                    assert(self.indices@[cls] as int == 0 || self.indices@[cls]
                                        as int == n + 1);
                                }
                            }
                        }
                        let mut j: usize = 0;
                        while j < old_zero.contacts.len()
                            invariant
                                self.redist_inv(
                                    prev,
                                    me,
                                    contact,
                                    old_zero.contacts@,
                                    n as int,
                                    j as int,
                                ),
                                j <= old_zero.contacts@.len(),
                            decreases old_zero.contacts@.len() - j,
                        {
                            let c = old_zero.contacts[j];
                            let cls: usize = me.xor(c.id).leading_zeros() as usize;
                            let bi: usize = self.indices[cls] as usize;
                            let ghost before = *self;
                            assert(bi == 0 || bi == n + 1) by {
                                if class_of(me, c.id) != n {
                                    assert(prev.indices@[class_of(me, c.id)] as int == 0);
                                }
                            }
                            self.bucket_push(bi, c);
                            proof {
                                self.lemma_redist_step(
                                    before,
                                    prev,
                                    me,
                                    contact,
                                    old_zero.contacts@,
                                    n as int,
                                    j as int,
                                    bi as int,
                                );
                            }
                            j = j + 1;
                        }
                        proof {
                            self.lemma_after_split(prev, me, contact, old_zero.contacts@, n as int);
                            assert forall|x: NodeID|
                                x != contact.id implies self.has_id(me, x) == old(self).has_id(
                                me,
                                x,
                            ) by {
                                assert(self.has_id(me, x) == prev.has_id(me, x));
                            }
                            assert forall|x: NodeID|
                                x != contact.id && old(self).has_id(me, x) implies self.addr_of(
                                me,
                                x,
                            ) == old(self).addr_of(me, x) by {
                                assert(prev.has_id(me, x));
                                assert(self.addr_of(me, x) == prev.addr_of(me, x));
                            }
                            assert(prev.bucket_seq(me, contact.id).len() == K);
                            if prev.next_to_split == old(self).next_to_split {
                                assert(prev == *old(self));
                            }
                        }
                    }
                },
            }
        }
    }

    /// When every class at or past the split boundary funnels into the
    /// tail bucket and the boundary has reached 252, the tail bucket
    /// cannot be full: splitting never runs out of classes.
    proof fn lemma_tail_not_full_at_boundary(&self, me: NodeID)
        requires
            self.wf(me),
            self.k_buckets@[0].contacts@.len() == K,
        ensures
            self.next_to_split <= 251,
    {
        if self.next_to_split == 252 {
            let s = self.k_buckets@[0].contacts@;
            assert(self.bucket_wf(me, 0));
            assert forall|i: int|
                0 <= i < s.len() implies 252 <= class_of(me, (#[trigger] s[i]).id) < 256 by {
                assert(self.entry_ok(me, 0, s[i]));
                let c = class_of(me, s[i].id);
                if c < 252 {
                    assert(self.indices@[c] as int == c + 1);
                }
            }
            lemma_deep_crowd_bounded(me, s);
        }
    }

    /// Facts carried through the redistribution that follows a split:
    /// the table stays well formed, dedicated buckets are untouched,
    /// the first `j` former tail entries have been re-housed by class
    /// and the rest are still absent.
    spec fn redist_inv(
        self,
        prev: KBuckets,
        me: NodeID,
        contact: Contact,
        oc: Seq<Contact>,
        n: int,
        j: int,
    ) -> bool {
        &&& self.wf(me)
        &&& contact.id != me
        &&& prev.wf(me)
        &&& 0 <= j <= oc.len()
        &&& oc.len() == K
        &&& oc == prev.k_buckets@[0].contacts@
        &&& prev.next_to_split == n
        &&& n <= 251
        &&& self.next_to_split == n + 1
        &&& self.k_buckets@.len() == n + 2
        &&& self.indices@ == prev.indices@.update(n, (n + 1) as u8)
        &&& n <= class_of(me, contact.id) < 256
        &&& forall|t: int|
            0 <= t < oc.len() ==> (#[trigger] oc[t]).id != me && 0 <= class_of(me, oc[t].id) < 256
                && n <= class_of(me, oc[t].id)
        &&& forall|t1: int, t2: int| 0 <= t1 < t2 < oc.len() ==> oc[t1].id != oc[t2].id
        &&& !seq_has_id(oc, contact.id)
        &&& forall|t: int| 1 <= t <= n ==> self.k_buckets@[t] == prev.k_buckets@[t]
        &&& self.k_buckets@[0].contacts@.len() + self.k_buckets@[n + 1].contacts@.len() == j
        &&& forall|u: int|
            0 <= u < self.k_buckets@[0].contacts@.len() ==> from_prefix(
                oc,
                j,
                #[trigger] self.k_buckets@[0].contacts@[u],
            )
        &&& forall|u: int|
            0 <= u < self.k_buckets@[n + 1].contacts@.len() ==> from_prefix(
                oc,
                j,
                #[trigger] self.k_buckets@[n + 1].contacts@[u],
            )
        &&& forall|t: int|
            0 <= t < j ==> (#[trigger] self.bucket_seq(me, oc[t].id)).contains(oc[t])
        &&& forall|t: int|
            j <= t < oc.len() ==> !seq_has_id(
                #[trigger] self.bucket_seq(me, oc[t].id),
                oc[t].id,
            )
    }

    /// Re-establishes the loop facts after moving a present contact to
    /// the back of its bucket.
    proof fn lemma_after_touch(&self, prev: KBuckets, me: NodeID, contact: Contact, b: int, i: int)
        requires
            prev.wf(me),
            contact.id != me,
            0 <= b < prev.k_buckets@.len(),
            prev.indices@[class_of(me, contact.id)] as int == b,
            0 <= i < prev.k_buckets@[b].contacts@.len(),
            prev.k_buckets@[b].contacts@[i].id == contact.id,
            self.indices == prev.indices,
            self.next_to_split == prev.next_to_split,
            self.k_buckets@.len() == prev.k_buckets@.len(),
            forall|t: int|
                0 <= t < prev.k_buckets@.len() && t != b ==> self.k_buckets@[t]
                    == prev.k_buckets@[t],
            self.k_buckets@[b].can_split == prev.k_buckets@[b].can_split,
            self.k_buckets@[b].contacts@ == prev.k_buckets@[b].contacts@.remove(i).push(contact),
        ensures
            self.wf(me),
            self.has_id(me, contact.id),
            self.addr_of(me, contact.id) == contact.addr,
            self.bucket_seq(me, contact.id).last() == contact,
            forall|x: NodeID| x != contact.id ==> self.has_id(me, x) == prev.has_id(me, x),
            forall|x: NodeID|
                x != contact.id && prev.has_id(me, x) ==> self.addr_of(me, x) == prev.addr_of(
                    me,
                    x,
                ),
            forall|j: int|
                0 <= j < prev.k_buckets@.len() ==> self.k_buckets@[j].contacts@.len()
                    == prev.k_buckets@[j].contacts@.len(),
    {
        let olds = prev.k_buckets@[b].contacts@;
        let news = self.k_buckets@[b].contacts@;
        assert(prev.bucket_wf(me, b));
        assert forall|t: int| 0 <= t < olds.len() && t != i implies olds[t].id != contact.id by {
            if t < i {
                assert(olds[t].id != olds[i].id);
            } else {
                assert(olds[i].id != olds[t].id);
            }
        }
        assert(news.len() == olds.len());
        assert forall|t: int| 0 <= t < news.len() - 1 implies news[t] == olds[
            if t < i {
                t
            } else {
                t + 1
            }
        ] by {}
        assert(news.last() == contact);
        lemma_class_in_range(me, contact.id);
        assert(self.bucket_wf(me, b)) by {
            assert(prev.entry_ok(me, b, olds[i]));
            assert forall|t: int| 0 <= t < news.len() implies self.entry_ok(
                me,
                b,
                #[trigger] news[t],
            ) by {
                if t < news.len() - 1 {
                    let u: int = if t < i {
                        t
                    } else {
                        t + 1
                    };
                    assert(prev.entry_ok(me, b, olds[u]));
                }
            }
            assert forall|t1: int, t2: int| 0 <= t1 < t2 < news.len() implies news[t1].id
                != news[t2].id by {
                if t2 < news.len() - 1 {
                    let u1: int = if t1 < i {
                        t1
                    } else {
                        t1 + 1
                    };
                    let u2: int = if t2 < i {
                        t2
                    } else {
                        t2 + 1
                    };
                    assert(olds[u1].id != olds[u2].id);
                } else {
                    let u1: int = if t1 < i {
                        t1
                    } else {
                        t1 + 1
                    };
                    assert(olds[u1].id != contact.id);
                }
            }
        }
        assert forall|j: int| 0 <= j < self.k_buckets@.len() implies #[trigger] self.bucket_wf(
            me,
            j,
        ) by {
            if j != b {
                assert(prev.bucket_wf(me, j));
            }
        }
        assert(self.wf(me));
        assert(self.bucket_seq(me, contact.id) == news);
        lemma_unique_entry(news, contact, news.len() - 1);
        assert forall|x: NodeID| x != contact.id implies self.has_id(me, x) == prev.has_id(
            me,
            x,
        ) by {
            if x != me {
                lemma_class_in_range(me, x);
                let cls = class_of(me, x);
                if self.indices@[cls] as int == b {
                    if seq_has_id(olds, x) {
                        let t: int = choose|t: int| 0 <= t < olds.len() && olds[t].id == x;
                        if t < i {
                            assert(news[t].id == x);
                        } else {
                            assert(news[t - 1].id == x);
                        }
                        assert(seq_has_id(news, x));
                    }
                    if seq_has_id(news, x) {
                        let t: int = choose|t: int| 0 <= t < news.len() && news[t].id == x;
                        assert(t < news.len() - 1);
                        let u: int = if t < i {
                            t
                        } else {
                            t + 1
                        };
                        assert(olds[u].id == x);
                        assert(seq_has_id(olds, x));
                    }
                } else {
                    assert(self.bucket_seq(me, x) == prev.bucket_seq(me, x));
                }
            }
        }
        assert forall|x: NodeID|
            x != contact.id && prev.has_id(me, x) implies self.addr_of(me, x) == prev.addr_of(
            me,
            x,
        ) by {
            lemma_class_in_range(me, x);
            let cls = class_of(me, x);
            if self.indices@[cls] as int == b {
                let t: int = id_index(olds, x);
                assert(0 <= t < olds.len() && olds[t].id == x);
                assert(t != i);
                let u: int = if t < i {
                    t
                } else {
                    t - 1
                };
                assert(news[u] == olds[t]);
                lemma_unique_entry(olds, olds[t], t);
                lemma_unique_entry(news, olds[t], u);
            } else {
                assert(self.bucket_seq(me, x) == prev.bucket_seq(me, x));
            }
        }
    }

    /// Re-establishes the loop facts after appending a new contact to
    /// a bucket with room.
    proof fn lemma_after_push(&self, prev: KBuckets, me: NodeID, contact: Contact, b: int)
        requires
            prev.wf(me),
            contact.id != me,
            0 <= b < prev.k_buckets@.len(),
            prev.indices@[class_of(me, contact.id)] as int == b,
            !seq_has_id(prev.k_buckets@[b].contacts@, contact.id),
            prev.k_buckets@[b].contacts@.len() < K,
            self.indices == prev.indices,
            self.next_to_split == prev.next_to_split,
            self.k_buckets@.len() == prev.k_buckets@.len(),
            forall|t: int|
                0 <= t < prev.k_buckets@.len() && t != b ==> self.k_buckets@[t]
                    == prev.k_buckets@[t],
            self.k_buckets@[b].can_split == prev.k_buckets@[b].can_split,
            self.k_buckets@[b].contacts@ == prev.k_buckets@[b].contacts@.push(contact),
        ensures
            self.wf(me),
            self.has_id(me, contact.id),
            self.addr_of(me, contact.id) == contact.addr,
            self.bucket_seq(me, contact.id).last() == contact,
            forall|x: NodeID| x != contact.id ==> self.has_id(me, x) == prev.has_id(me, x),
            forall|x: NodeID|
                x != contact.id && prev.has_id(me, x) ==> self.addr_of(me, x) == prev.addr_of(
                    me,
                    x,
                ),
    {
        let olds = prev.k_buckets@[b].contacts@;
        let news = self.k_buckets@[b].contacts@;
        assert(prev.bucket_wf(me, b));
        lemma_class_in_range(me, contact.id);
        assert(self.bucket_wf(me, b)) by {
            assert forall|t: int| 0 <= t < news.len() implies self.entry_ok(
                me,
                b,
                #[trigger] news[t],
            ) by {
                if t < olds.len() {
                    assert(prev.entry_ok(me, b, olds[t]));
                }
            }
            assert forall|t1: int, t2: int| 0 <= t1 < t2 < news.len() implies news[t1].id
                != news[t2].id by {
                if t2 == news.len() - 1 {
                    assert(news[t1] == olds[t1]);
                    assert(olds[t1].id != contact.id);
                } else {
                    assert(olds[t1].id != olds[t2].id);
                }
            }
        }
        assert forall|j: int| 0 <= j < self.k_buckets@.len() implies #[trigger] self.bucket_wf(
            me,
            j,
        ) by {
            if j != b {
                assert(prev.bucket_wf(me, j));
            }
        }
        assert(self.wf(me));
        assert(news[news.len() - 1] == contact);
        lemma_unique_entry(news, contact, news.len() - 1);
        assert forall|x: NodeID| x != contact.id implies self.has_id(me, x) == prev.has_id(
            me,
            x,
        ) by {
            if x != me {
                lemma_class_in_range(me, x);
                let cls = class_of(me, x);
                if self.indices@[cls] as int == b {
                    if seq_has_id(olds, x) {
                        let t: int = choose|t: int| 0 <= t < olds.len() && olds[t].id == x;
                        assert(news[t].id == x);
                        assert(seq_has_id(news, x));
                    }
                    if seq_has_id(news, x) {
                        let t: int = choose|t: int| 0 <= t < news.len() && news[t].id == x;
                        assert(t < news.len() - 1);
                        assert(olds[t].id == x);
                        assert(seq_has_id(olds, x));
                    }
                } else {
                    assert(self.bucket_seq(me, x) == prev.bucket_seq(me, x));
                }
            }
        }
        assert forall|x: NodeID|
            x != contact.id && prev.has_id(me, x) implies self.addr_of(me, x) == prev.addr_of(
            me,
            x,
        ) by {
            lemma_class_in_range(me, x);
            let cls = class_of(me, x);
            if self.indices@[cls] as int == b {
                let t: int = id_index(olds, x);
                assert(0 <= t < olds.len() && olds[t].id == x);
                lemma_unique_entry(olds, olds[t], t);
                assert(news[t] == olds[t]);
                lemma_unique_entry(news, olds[t], t);
            } else {
                assert(self.bucket_seq(me, x) == prev.bucket_seq(me, x));
            }
        }
    }

    /// After carving out a new dedicated bucket (the structural half
    /// of a split) the table is well formed again.
    proof fn lemma_after_carve(&self, prev: KBuckets, me: NodeID)
        requires
            prev.wf(me),
            prev.next_to_split <= 251,
            self.next_to_split == prev.next_to_split + 1,
            self.indices@ == prev.indices@.update(
                prev.next_to_split as int,
                (prev.next_to_split + 1) as u8,
            ),
            self.k_buckets@.len() == prev.k_buckets@.len() + 1,
            forall|t: int|
                1 <= t <= prev.next_to_split ==> self.k_buckets@[t] == prev.k_buckets@[t],
            self.k_buckets@[0].can_split,
            self.k_buckets@[0].contacts@.len() == 0,
            !self.k_buckets@[prev.next_to_split + 1].can_split,
            self.k_buckets@[prev.next_to_split + 1].contacts@.len() == 0,
        ensures
            self.wf(me),
    {
        let n = prev.next_to_split as int;
        assert forall|c: int|
            0 <= c < 256 implies (#[trigger] self.indices@[c]) < self.k_buckets@.len() by {
            if c != n {
                assert(self.indices@[c] == prev.indices@[c]);
            }
        }
        assert forall|c: int|
            0 <= c < self.next_to_split implies (#[trigger] self.indices@[c]) as int == c + 1 by {
            if c < n {
                assert(self.indices@[c] == prev.indices@[c]);
            }
        }
        assert forall|c: int|
            self.next_to_split <= c < 256 implies (#[trigger] self.indices@[c]) as int == 0 by {
            assert(self.indices@[c] == prev.indices@[c]);
        }
        assert forall|j: int|
            1 <= j < self.k_buckets@.len() implies !(#[trigger] self.k_buckets@[j]).can_split by {
            if 1 <= j <= n {
                assert(self.k_buckets@[j] == prev.k_buckets@[j]);
                assert(!prev.k_buckets@[j].can_split);
            }
        }
        assert forall|j: int| 0 <= j < self.k_buckets@.len() implies #[trigger] self.bucket_wf(
            me,
            j,
        ) by {
            if 1 <= j <= n {
                assert(prev.bucket_wf(me, j));
                let s = self.k_buckets@[j].contacts@;
                assert(s == prev.k_buckets@[j].contacts@);
                assert forall|t: int| 0 <= t < s.len() implies self.entry_ok(
                    me,
                    j,
                    #[trigger] s[t],
                ) by {
                    assert(prev.entry_ok(me, j, s[t]));
                    let cls = class_of(me, s[t].id);
                    if cls >= n {
                        assert(prev.indices@[cls] as int == 0);
                    }
                    assert(cls != n);
                    assert(self.indices@[cls] == prev.indices@[cls]);
                }
            }
        }
    }

    /// One redistribution step: pushing the next former tail entry
    /// into the bucket its class now routes to keeps the invariant.
    proof fn lemma_redist_step(
        &self,
        before: KBuckets,
        prev: KBuckets,
        me: NodeID,
        contact: Contact,
        oc: Seq<Contact>,
        n: int,
        j: int,
        bi: int,
    )
        requires
            before.redist_inv(prev, me, contact, oc, n, j),
            0 <= j < oc.len(),
            bi == before.indices@[class_of(me, oc[j].id)] as int,
            self.indices == before.indices,
            self.next_to_split == before.next_to_split,
            self.k_buckets@.len() == before.k_buckets@.len(),
            forall|t: int|
                0 <= t < before.k_buckets@.len() && t != bi ==> self.k_buckets@[t]
                    == before.k_buckets@[t],
            self.k_buckets@[bi].can_split == before.k_buckets@[bi].can_split,
            self.k_buckets@[bi].contacts@ == before.k_buckets@[bi].contacts@.push(oc[j]),
        ensures
            self.redist_inv(prev, me, contact, oc, n, j + 1),
    {
        let cls = class_of(me, oc[j].id);
        assert(bi == 0 || bi == n + 1) by {
            if cls != n {
                assert(prev.indices@[cls] as int == 0);
            }
        }
        let olds = before.k_buckets@[bi].contacts@;
        let news = self.k_buckets@[bi].contacts@;
        assert(olds.len() <= j);
        assert forall|u: int| 0 <= u < olds.len() implies from_prefix(
            oc,
            j,
            #[trigger] olds[u],
        ) by {
            if bi == 0 {
                assert(from_prefix(oc, j, before.k_buckets@[0].contacts@[u]));
            } else {
                assert(from_prefix(oc, j, before.k_buckets@[n + 1].contacts@[u]));
            }
        }
        assert(self.bucket_wf(me, bi)) by {
            assert(before.bucket_wf(me, bi));
            assert(news.len() <= j + 1 <= K);
            assert forall|t: int| 0 <= t < news.len() implies self.entry_ok(
                me,
                bi,
                #[trigger] news[t],
            ) by {
                if t < olds.len() {
                    assert(before.entry_ok(me, bi, olds[t]));
                } else {
                    assert(news[t] == oc[j]);
                }
            }
            assert forall|t1: int, t2: int| 0 <= t1 < t2 < news.len() implies news[t1].id
                != news[t2].id by {
                if t2 == news.len() - 1 {
                    assert(from_prefix(oc, j, olds[t1]));
                    let w: int = choose|w: int| 0 <= w < j && oc[w] == olds[t1];
                    assert(oc[w].id != oc[j].id);
                } else {
                    assert(olds[t1].id != olds[t2].id);
                }
            }
        }
        assert forall|u: int|
            0 <= u < self.k_buckets@[0].contacts@.len() implies from_prefix(
            oc,
            j + 1,
            #[trigger] self.k_buckets@[0].contacts@[u],
        ) by {
            if bi == 0 {
                if u < olds.len() {
                    lemma_from_prefix_extend(oc, j, olds[u]);
                } else {
                    lemma_from_prefix_extend(oc, j, oc[j]);
                }
            } else {
                assert(self.k_buckets@[0] == before.k_buckets@[0]);
                assert(from_prefix(oc, j, self.k_buckets@[0].contacts@[u]));
                lemma_from_prefix_extend(oc, j, self.k_buckets@[0].contacts@[u]);
            }
        }
        assert forall|u: int|
            0 <= u < self.k_buckets@[n + 1].contacts@.len() implies from_prefix(
            oc,
            j + 1,
            #[trigger] self.k_buckets@[n + 1].contacts@[u],
        ) by {
            if bi == n + 1 {
                if u < olds.len() {
                    lemma_from_prefix_extend(oc, j, olds[u]);
                } else {
                    lemma_from_prefix_extend(oc, j, oc[j]);
                }
            } else {
                assert(self.k_buckets@[n + 1] == before.k_buckets@[n + 1]);
                assert(from_prefix(oc, j, self.k_buckets@[n + 1].contacts@[u]));
                lemma_from_prefix_extend(oc, j, self.k_buckets@[n + 1].contacts@[u]);
            }
        }
        assert forall|jj: int| 0 <= jj < self.k_buckets@.len() implies #[trigger] self.bucket_wf(
            me,
            jj,
        ) by {
            if jj != bi {
                assert(before.bucket_wf(me, jj));
            }
        }
        assert(self.wf(me));
        assert forall|t: int|
            0 <= t < j + 1 implies (#[trigger] self.bucket_seq(me, oc[t].id)).contains(oc[t]) by {
            let ct = class_of(me, oc[t].id);
            let bt = self.indices@[ct] as int;
            if t == j {
                assert(news[news.len() - 1] == oc[j]);
                assert(self.bucket_seq(me, oc[j].id) == news);
            } else {
                assert(before.bucket_seq(me, oc[t].id).contains(oc[t]));
                if bt == bi {
                    let w: int = choose|w: int|
                        0 <= w < olds.len() && olds[w] == oc[t];
                    assert(news[w] == oc[t]);
                } else {
                    assert(self.k_buckets@[bt] == before.k_buckets@[bt]);
                }
            }
        }
        assert forall|t: int| j + 1 <= t < oc.len() implies !seq_has_id(
            #[trigger] self.bucket_seq(me, oc[t].id),
            oc[t].id,
        ) by {
            let ct = class_of(me, oc[t].id);
            let bt = self.indices@[ct] as int;
            assert(!seq_has_id(before.bucket_seq(me, oc[t].id), oc[t].id));
            if bt == bi {
                if seq_has_id(news, oc[t].id) {
                    let w: int = choose|w: int| 0 <= w < news.len() && news[w].id == oc[t].id;
                    if w < news.len() - 1 {
                        assert(olds[w].id == oc[t].id);
                        assert(seq_has_id(olds, oc[t].id));
                    } else {
                        assert(oc[j].id == oc[t].id);
                        assert(oc[j].id != oc[t].id);
                    }
                }
            } else {
                assert(self.k_buckets@[bt] == before.k_buckets@[bt]);
            }
        }
    }

    /// After the redistribution completes, membership and addresses
    /// are exactly what they were before the split, and the contact
    /// being inserted is still absent.
    proof fn lemma_after_split(
        &self,
        prev: KBuckets,
        me: NodeID,
        contact: Contact,
        oc: Seq<Contact>,
        n: int,
    )
        requires
            self.redist_inv(prev, me, contact, oc, n, oc.len() as int),
            prev.indices@[class_of(me, contact.id)] as int == 0,
        ensures
            self.wf(me),
            self.next_to_split == n + 1,
            !self.has_id(me, contact.id),
            forall|x: NodeID| x != contact.id ==> self.has_id(me, x) == prev.has_id(me, x),
            forall|x: NodeID|
                x != contact.id && prev.has_id(me, x) ==> self.addr_of(me, x) == prev.addr_of(
                    me,
                    x,
                ),
    {
        let j = oc.len() as int;
        assert(prev.bucket_wf(me, 0));
        assert forall|x: NodeID| x != contact.id implies self.has_id(me, x) == prev.has_id(
            me,
            x,
        ) by {
            if x != me {
                lemma_class_in_range(me, x);
                let cls = class_of(me, x);
                if cls < n {
                    assert(self.indices@[cls] == prev.indices@[cls]);
                    assert(prev.indices@[cls] as int == cls + 1);
                    assert(self.k_buckets@[cls + 1] == prev.k_buckets@[cls + 1]);
                } else {
                    assert(prev.indices@[cls] as int == 0);
                    assert(prev.bucket_seq(me, x) == oc);
                    let bt = self.indices@[cls] as int;
                    assert(bt == 0 || bt == n + 1);
                    if seq_has_id(oc, x) {
                        let t: int = choose|t: int| 0 <= t < oc.len() && oc[t].id == x;
                        assert(self.bucket_seq(me, oc[t].id).contains(oc[t]));
                        let s = self.bucket_seq(me, x);
                        let w: int = choose|w: int| 0 <= w < s.len() && s[w] == oc[t];
                        assert(s[w].id == x);
                        assert(seq_has_id(s, x));
                    }
                    if seq_has_id(self.bucket_seq(me, x), x) {
                        let s = self.bucket_seq(me, x);
                        let w: int = choose|w: int| 0 <= w < s.len() && s[w].id == x;
                        assert(s == self.k_buckets@[bt].contacts@);
                        if bt == 0 {
                            assert(from_prefix(oc, j, self.k_buckets@[0].contacts@[w]));
                        } else {
                            assert(from_prefix(oc, j, self.k_buckets@[n + 1].contacts@[w]));
                        }
                        let t: int = choose|t: int| 0 <= t < j && oc[t] == s[w];
                        assert(oc[t].id == x);
                        assert(seq_has_id(oc, x));
                    }
                }
            }
        }
        assert forall|x: NodeID|
            x != contact.id && prev.has_id(me, x) implies self.addr_of(me, x) == prev.addr_of(
            me,
            x,
        ) by {
            lemma_class_in_range(me, x);
            let cls = class_of(me, x);
            if cls < n {
                assert(self.indices@[cls] == prev.indices@[cls]);
                assert(prev.indices@[cls] as int == cls + 1);
                assert(self.k_buckets@[cls + 1] == prev.k_buckets@[cls + 1]);
                assert(self.bucket_seq(me, x) == prev.bucket_seq(me, x));
            } else {
                assert(prev.indices@[cls] as int == 0);
                assert(prev.bucket_seq(me, x) == oc);
                let t: int = id_index(oc, x);
                assert(0 <= t < oc.len() && oc[t].id == x);
                lemma_unique_entry(oc, oc[t], t);
                assert(self.bucket_seq(me, oc[t].id).contains(oc[t]));
                let s = self.bucket_seq(me, x);
                let w: int = choose|w: int| 0 <= w < s.len() && s[w] == oc[t];
                let bt = self.indices@[cls] as int;
                assert(self.bucket_wf(me, bt));
                lemma_unique_entry(s, oc[t], w);
            }
        }
        assert(!self.has_id(me, contact.id)) by {
            let cls = class_of(me, contact.id);
            let bt = self.indices@[cls] as int;
            assert(bt == 0 || bt == n + 1);
            let s = self.bucket_seq(me, contact.id);
            if seq_has_id(s, contact.id) {
                let w: int = choose|w: int| 0 <= w < s.len() && s[w].id == contact.id;
                assert(s == self.k_buckets@[bt].contacts@);
                if bt == 0 {
                    assert(from_prefix(oc, j, self.k_buckets@[0].contacts@[w]));
                } else {
                    assert(from_prefix(oc, j, self.k_buckets@[n + 1].contacts@[w]));
                }
                let t: int = choose|t: int| 0 <= t < j && oc[t] == s[w];
                assert(oc[t].id == contact.id);
                assert(seq_has_id(oc, contact.id));
            }
        }
    }
}

} // verus!
