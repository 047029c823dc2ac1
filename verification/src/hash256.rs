//! A 256-bit hash-like value and its canonical byte ordering.
//!
//! Crosslink data roots are opaque 32-byte values. The only structure the
//! selection logic needs from them is a strict total order: big-endian
//! (lexicographic) comparison of the raw bytes, used to break ties between
//! candidates with equal attesting balance.

use vstd::prelude::*;

verus! {

/// A fixed-size 256-bit value, such as a crosslink data root.
#[derive(Clone, Copy, Debug)]
pub struct Hash256 {
    pub bytes: [u8; 32],
}

impl View for Hash256 {
    type V = Seq<u8>;

    open spec fn view(&self) -> Seq<u8> {
        self.bytes@
    }
}

/// Lexicographic comparison of `a` and `b` from position `i` on:
/// true iff at the first position at or after `i` where the bytes differ,
/// `a`'s byte is the smaller one.
pub open spec fn bytes_lt_from(a: Seq<u8>, b: Seq<u8>, i: int) -> bool
    decreases a.len() - i,
{
    if i < 0 || i >= a.len() || i >= b.len() {
        false
    } else if a[i] != b[i] {
        a[i] < b[i]
    } else {
        bytes_lt_from(a, b, i + 1)
    }
}

/// The canonical order on hash values: lexicographic comparison of the bytes,
/// which for equal-length big-endian representations is unsigned numeric order.
pub open spec fn bytes_lt(a: Seq<u8>, b: Seq<u8>) -> bool {
    bytes_lt_from(a, b, 0)
}

/// From any position, the order is trichotomous on equal-length sequences:
/// either `a` is below `b`, or `b` is below `a`, or the remaining bytes agree.
proof fn lemma_bytes_lt_from_trichotomy(a: Seq<u8>, b: Seq<u8>, i: int)
    requires
        a.len() == b.len(),
        0 <= i <= a.len(),
    ensures
        !(bytes_lt_from(a, b, i) && bytes_lt_from(b, a, i)),
        bytes_lt_from(a, b, i) || bytes_lt_from(b, a, i) || (forall|j: int|
            i <= j < a.len() ==> a[j] == b[j]),
        (forall|j: int| i <= j < a.len() ==> a[j] == b[j]) ==> !bytes_lt_from(a, b, i),
    decreases a.len() - i,
{
    if i < a.len() && a[i] == b[i] {
        lemma_bytes_lt_from_trichotomy(a, b, i + 1);
    }
}

/// The order is asymmetric: two values are never each below the other.
pub proof fn lemma_bytes_lt_asymmetric(a: Seq<u8>, b: Seq<u8>)
    requires
        a.len() == b.len(),
    ensures
        !(bytes_lt(a, b) && bytes_lt(b, a)),
{
    lemma_bytes_lt_from_trichotomy(a, b, 0);
}

/// No value is below itself.
pub proof fn lemma_bytes_lt_irreflexive(a: Seq<u8>)
    ensures
        !bytes_lt(a, a),
{
    lemma_bytes_lt_from_trichotomy(a, a, 0);
}

/// The order is total: distinct equal-length values are comparable.
pub proof fn lemma_bytes_lt_total(a: Seq<u8>, b: Seq<u8>)
    requires
        a.len() == b.len(),
        a != b,
    ensures
        bytes_lt(a, b) || bytes_lt(b, a),
{
    lemma_bytes_lt_from_trichotomy(a, b, 0);
    if !bytes_lt(a, b) && !bytes_lt(b, a) {
        assert(a =~= b);
    }
}

proof fn lemma_bytes_lt_from_transitive(a: Seq<u8>, b: Seq<u8>, c: Seq<u8>, i: int)
    requires
        a.len() == b.len(),
        b.len() == c.len(),
        0 <= i <= a.len(),
        bytes_lt_from(a, b, i),
        bytes_lt_from(b, c, i),
    ensures
        bytes_lt_from(a, c, i),
    decreases a.len() - i,
{
    if i < a.len() && a[i] == b[i] && b[i] == c[i] {
        lemma_bytes_lt_from_transitive(a, b, c, i + 1);
    }
}

/// The order is transitive.
pub proof fn lemma_bytes_lt_transitive(a: Seq<u8>, b: Seq<u8>, c: Seq<u8>)
    requires
        a.len() == b.len(),
        b.len() == c.len(),
        bytes_lt(a, b),
        bytes_lt(b, c),
    ensures
        bytes_lt(a, c),
{
    lemma_bytes_lt_from_transitive(a, b, c, 0);
}

impl Hash256 {
    /// Comparison under the canonical byte ordering: `self` strictly below `other`.
    pub fn lt(&self, other: &Hash256) -> (r: bool)
        ensures
            r == bytes_lt(self@, other@),
    {
        let mut i: usize = 0;
        while i < 32
            invariant
                0 <= i <= 32,
                forall|j: int| 0 <= j < i ==> self@[j] == other@[j],
                bytes_lt(self@, other@) == bytes_lt_from(self@, other@, i as int),
            decreases 32 - i,
        {
            let x = self.bytes[i];
            let y = other.bytes[i];
            if x != y {
                return x < y;
            }
            i = i + 1;
        }
        false
    }

    /// Byte-for-byte equality.
    pub fn eq_bytes(&self, other: &Hash256) -> (r: bool)
        ensures
            r == (self@ == other@),
    {
        let mut i: usize = 0;
        while i < 32
            invariant
                0 <= i <= 32,
                forall|j: int| 0 <= j < i ==> self@[j] == other@[j],
            decreases 32 - i,
        {
            if self.bytes[i] != other.bytes[i] {
                return false;
            }
            i = i + 1;
        }
        proof {
            assert(self@ =~= other@);
        }
        true
    }
}

} // verus!
