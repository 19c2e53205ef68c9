//! 256-bit node identifiers and the XOR distance-class metric.
//!
//! Identifiers are compared only by equality and XOR. The number of
//! leading zero bits of `me XOR id` (the "distance class", 0..=255 for
//! distinct identifiers) decides which bucket of the routing table a
//! contact belongs in.

use vstd::prelude::*;
use vstd::std_specs::bits::u64_leading_zeros;

verus! {

broadcast use vstd::std_specs::bits::axiom_u64_leading_zeros;

/// Width of a node identifier in bits.
pub const KEY_BITS: usize = 256;

/// A 256-bit node identifier, held as four 64-bit words with `w0` the
/// most significant. Copied by value, never allocated.
#[derive(Copy, Clone, PartialEq, Eq, Structural, Debug)]
pub struct NodeID {
    pub w0: u64,
    pub w1: u64,
    pub w2: u64,
    pub w3: u64,
}

impl NodeID {
    /// Bitwise XOR, word by word.
    pub open spec fn spec_xor(self, other: NodeID) -> NodeID {
        NodeID {
            w0: self.w0 ^ other.w0,
            w1: self.w1 ^ other.w1,
            w2: self.w2 ^ other.w2,
            w3: self.w3 ^ other.w3,
        }
    }

    /// The all-zero identifier (XOR of an identifier with itself).
    pub open spec fn is_zero(self) -> bool {
        self.w0 == 0 && self.w1 == 0 && self.w2 == 0 && self.w3 == 0
    }

    /// Leading zero bits of the 256-bit value, 0..=256.
    pub open spec fn spec_leading_zeros(self) -> int {
        if self.w0 != 0 {
            u64_leading_zeros(self.w0)
        } else if self.w1 != 0 {
            64 + u64_leading_zeros(self.w1)
        } else if self.w2 != 0 {
            128 + u64_leading_zeros(self.w2)
        } else if self.w3 != 0 {
            192 + u64_leading_zeros(self.w3)
        } else {
            256
        }
    }

    /// XOR of two identifiers.
    pub fn xor(self, other: NodeID) -> (r: NodeID)
        ensures
            r == self.spec_xor(other),
    {
        NodeID {
            w0: self.w0 ^ other.w0,
            w1: self.w1 ^ other.w1,
            w2: self.w2 ^ other.w2,
            w3: self.w3 ^ other.w3,
        }
    }

    /// Number of leading zero bits, scanning from the most significant
    /// word down.
    pub fn leading_zeros(self) -> (r: u32)
        ensures
            r == self.spec_leading_zeros(),
            0 <= r <= 256,
    {
        proof {
            lemma_leading_zeros_range(self);
        }
        if self.w0 != 0 {
            self.w0.leading_zeros()
        } else if self.w1 != 0 {
            64 + self.w1.leading_zeros()
        } else if self.w2 != 0 {
            128 + self.w2.leading_zeros()
        } else if self.w3 != 0 {
            192 + self.w3.leading_zeros()
        } else {
            256
        }
    }
}

/// The distance class of `id` as seen from `me`: the shared-prefix
/// length of the two identifiers, 0..=255 when they differ, 256 only
/// for `id == me`.
pub open spec fn class_of(me: NodeID, id: NodeID) -> int {
    me.spec_xor(id).spec_leading_zeros()
}

/// The leading-zero count of any identifier lies in 0..=256 and hits
/// 256 exactly on the all-zero identifier.
pub proof fn lemma_leading_zeros_range(x: NodeID)
    ensures
        0 <= x.spec_leading_zeros() <= 256,
        x.spec_leading_zeros() == 256 <==> x.is_zero(),
{
}

/// XOR of two identifiers is zero exactly when they are equal.
pub proof fn lemma_xor_zero(a: NodeID, b: NodeID)
    ensures
        a.spec_xor(b).is_zero() <==> a == b,
{
    let a0 = a.w0;
    let a1 = a.w1;
    let a2 = a.w2;
    let a3 = a.w3;
    let b0 = b.w0;
    let b1 = b.w1;
    let b2 = b.w2;
    let b3 = b.w3;
    assert(a0 ^ b0 == 0 <==> a0 == b0) by (bit_vector);
    assert(a1 ^ b1 == 0 <==> a1 == b1) by (bit_vector);
    assert(a2 ^ b2 == 0 <==> a2 == b2) by (bit_vector);
    assert(a3 ^ b3 == 0 <==> a3 == b3) by (bit_vector);
}

/// For a fixed viewpoint, XOR is injective in the other operand.
pub proof fn lemma_xor_injective(me: NodeID, a: NodeID, b: NodeID)
    requires
        me.spec_xor(a) == me.spec_xor(b),
    ensures
        a == b,
{
    let m0 = me.w0;
    let m1 = me.w1;
    let m2 = me.w2;
    let m3 = me.w3;
    let a0 = a.w0;
    let a1 = a.w1;
    let a2 = a.w2;
    let a3 = a.w3;
    let b0 = b.w0;
    let b1 = b.w1;
    let b2 = b.w2;
    let b3 = b.w3;
    assert(m0 ^ a0 == m0 ^ b0 ==> a0 == b0) by (bit_vector);
    assert(m1 ^ a1 == m1 ^ b1 ==> a1 == b1) by (bit_vector);
    assert(m2 ^ a2 == m2 ^ b2 ==> a2 == b2) by (bit_vector);
    assert(m3 ^ a3 == m3 ^ b3 ==> a3 == b3) by (bit_vector);
}

/// Two distinct identifiers have a distance class below 256.
pub proof fn lemma_class_in_range(me: NodeID, id: NodeID)
    requires
        id != me,
    ensures
        0 <= class_of(me, id) < 256,
{
    lemma_xor_zero(me, id);
    lemma_leading_zeros_range(me.spec_xor(id));
}

/// An identifier at distance class 252 or deeper differs from the
/// viewpoint only in the low four bits of the last word: its XOR value
/// is one of the fifteen values 1..=15.
pub proof fn lemma_deep_class_is_small(me: NodeID, id: NodeID)
    requires
        252 <= class_of(me, id) < 256,
    ensures
        me.spec_xor(id).w0 == 0,
        me.spec_xor(id).w1 == 0,
        me.spec_xor(id).w2 == 0,
        1 <= me.spec_xor(id).w3 < 16,
{
    let x = me.spec_xor(id);
    lemma_leading_zeros_range(x);
    let w = x.w3;
    vstd::std_specs::bits::axiom_u64_leading_zeros(w);
    let lz = u64_leading_zeros(w);
    assert(60 <= lz < 64);
    let k: u64 = (64 - lz) as u64;
    assert(w >> k == 0);
    assert((w >> k == 0 && k <= 4 && w != 0) ==> 1 <= w < 16) by (bit_vector);
}

} // verus!
