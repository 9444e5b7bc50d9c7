//! The fixed-size digest that every other part of the library works on.

use vstd::prelude::*;

verus! {

/// A 32-byte digest. Its view is the sequence of its bytes.
#[derive(Clone, Copy, Debug)]
pub struct Digest {
    bytes: [u8; 32],
}

impl View for Digest {
    type V = Seq<u8>;

    closed spec fn view(&self) -> Seq<u8> {
        self.bytes@
    }
}

impl Digest {
    /// Every digest has exactly 32 bytes.
    pub proof fn lemma_len(self)
        ensures
            self@.len() == 32,
    {
    }

    /// Wraps a raw 32-byte array.
    pub fn from_bytes(bytes: [u8; 32]) -> (d: Digest)
        ensures
            d@ == bytes@,
    {
        Digest { bytes }
    }

    /// The bytes of the digest, in order.
    pub fn as_bytes(&self) -> (bytes: &[u8; 32])
        ensures
            bytes@ == self@,
    {
        &self.bytes
    }

    /// The bytes of the digest as a slice of length 32.
    pub fn as_slice(&self) -> (bytes: &[u8])
        ensures
            bytes@ == self@,
    {
        self.bytes.as_slice()
    }
}

impl Default for Digest {
    /// The all-zero digest.
    fn default() -> (d: Digest)
        ensures
            d@ == Seq::new(32, |i: int| 0u8),
    {
        let d = Digest { bytes: [0u8; 32] };
        assert(d@ =~= Seq::new(32, |i: int| 0u8));
        d
    }
}

impl Digest {
    /// Whether two digests hold the same bytes.
    pub fn same_as(&self, other: &Digest) -> (same: bool)
        ensures
            same == (self@ == other@),
    {
        let mut i: usize = 0;
        while i < 32
            invariant
                i <= 32,
                forall|j: int| 0 <= j < i ==> self.bytes@[j] == other.bytes@[j],
            decreases 32 - i,
        {
            if self.bytes[i] != other.bytes[i] {
                assert(self@[i as int] != other@[i as int]);
                return false;
            }
            i += 1;
        }
        assert(self@ =~= other@);
        true
    }
}

impl PartialEq for Digest {
    /// Two digests are equal when they hold the same bytes.
    fn eq(&self, other: &Digest) -> (same: bool) {
        self.same_as(other)
    }
}

impl vstd::std_specs::cmp::PartialEqSpecImpl for Digest {
    open spec fn obeys_eq_spec() -> bool {
        true
    }

    open spec fn eq_spec(&self, other: &Digest) -> bool {
        self@ == other@
    }
}

impl Eq for Digest {}

impl From<[u8; 32]> for Digest {
    /// The digest that holds exactly the given bytes.
    fn from(bytes: [u8; 32]) -> (d: Digest)
        ensures
            d@ == bytes@,
    {
        Digest { bytes }
    }
}

impl vstd::std_specs::convert::FromSpecImpl<[u8; 32]> for Digest {
    open spec fn obeys_from_spec() -> bool {
        true
    }

    open spec fn from_spec(bytes: [u8; 32]) -> Digest {
        Digest::spec_from_bytes(bytes)
    }
}

impl AsRef<[u8]> for Digest {
    /// The bytes of the digest, in order.
    fn as_ref(&self) -> (bytes: &[u8])
        ensures
            bytes@ == self@,
    {
        self.as_slice()
    }
}

impl Digest {
    /// The digest that holds exactly the given bytes.
    pub closed spec fn spec_from_bytes(bytes: [u8; 32]) -> Digest {
        Digest { bytes }
    }

    /// `spec_from_bytes` keeps the bytes.
    pub proof fn lemma_spec_from_bytes(bytes: [u8; 32])
        ensures
            Digest::spec_from_bytes(bytes)@ == bytes@,
    {
    }
}

} // verus!
