//! An inclusion proof: a leaf digest and the siblings on its way to the root.

use vstd::prelude::*;
use crate::digest::Digest;

verus! {

/// What a proof says, as plain values: the bytes of the leaf digest and the
/// bytes of each sibling, nearest the leaf first.
pub ghost struct ProofView {
    pub leaf: Seq<u8>,
    pub path: Seq<Seq<u8>>,
}

/// The bytes of each digest of a sequence, in the same order.
pub open spec fn digest_views(digests: Seq<Digest>) -> Seq<Seq<u8>> {
    Seq::new(digests.len(), |i: int| digests[i]@)
}

/// A leaf digest with its ordered sibling path. Neither can be changed once
/// the proof is made.
#[derive(Debug)]
pub struct Proof {
    leaf_hash: Digest,
    sorted_hashes: Vec<Digest>,
}

impl View for Proof {
    type V = ProofView;

    closed spec fn view(&self) -> ProofView {
        ProofView { leaf: self.leaf_hash@, path: digest_views(self.sorted_hashes@) }
    }
}

impl Proof {
    /// Builds a proof from a leaf digest and its siblings, nearest the leaf
    /// first.
    pub fn new(leaf_hash: Digest, sorted_hashes: Vec<Digest>) -> (proof: Proof)
        ensures
            proof@.leaf == leaf_hash@,
            proof@.path == digest_views(sorted_hashes@),
    {
        Proof { leaf_hash, sorted_hashes }
    }

    /// The leaf and every sibling of a proof have 32 bytes.
    pub proof fn lemma_sizes(self)
        ensures
            self@.leaf.len() == 32,
            forall|i: int| 0 <= i < self@.path.len() ==> (#[trigger] self@.path[i]).len() == 32,
    {
        self.leaf_hash.lemma_len();
        assert forall|i: int| 0 <= i < self@.path.len() implies (#[trigger] self@.path[i]).len()
            == 32 by {
            self.sorted_hashes@[i].lemma_len();
        }
    }

    /// The digest whose inclusion the proof claims.
    pub fn leaf_hash(&self) -> (leaf: Digest)
        ensures
            leaf@ == self@.leaf,
    {
        self.leaf_hash
    }

    /// The siblings, nearest the leaf first.
    pub fn sorted_hashes(&self) -> (path: &Vec<Digest>)
        ensures
            digest_views(path@) == self@.path,
    {
        &self.sorted_hashes
    }
}

impl Clone for Proof {
    /// A proof with the same leaf and the same siblings in the same order.
    fn clone(&self) -> (copy: Proof)
        ensures
            copy@ == self@,
    {
        let mut path: Vec<Digest> = Vec::new();
        let mut i: usize = 0;
        while i < self.sorted_hashes.len()
            invariant
                i <= self.sorted_hashes.len(),
                path@.len() == i,
                forall|j: int| 0 <= j < i ==> path@[j] == self.sorted_hashes@[j],
            decreases self.sorted_hashes.len() - i,
        {
            path.push(self.sorted_hashes[i]);
            i += 1;
        }
        assert(path@ =~= self.sorted_hashes@);
        Proof { leaf_hash: self.leaf_hash, sorted_hashes: path }
    }
}

impl PartialEq for Proof {
    /// Two proofs are equal when they have the same leaf and the same
    /// siblings in the same order.
    fn eq(&self, other: &Proof) -> (same: bool) {
        if !self.leaf_hash.same_as(&other.leaf_hash) {
            return false;
        }
        if self.sorted_hashes.len() != other.sorted_hashes.len() {
            assert(self@.path.len() != other@.path.len());
            return false;
        }
        let mut i: usize = 0;
        while i < self.sorted_hashes.len()
            invariant
                i <= self.sorted_hashes.len(),
                self.sorted_hashes.len() == other.sorted_hashes.len(),
                forall|j: int| 0 <= j < i ==> self@.path[j] == other@.path[j],
            decreases self.sorted_hashes.len() - i,
        {
            if !self.sorted_hashes[i].same_as(&other.sorted_hashes[i]) {
                assert(self@.path[i as int] != other@.path[i as int]);
                return false;
            }
            i += 1;
        }
        assert(self@.path =~= other@.path);
        true
    }
}

impl vstd::std_specs::cmp::PartialEqSpecImpl for Proof {
    open spec fn obeys_eq_spec() -> bool {
        true
    }

    open spec fn eq_spec(&self, other: &Proof) -> bool {
        self@ == other@
    }
}

impl Default for Proof {
    /// The all-zero leaf with an empty path.
    fn default() -> (proof: Proof)
        ensures
            proof@.leaf == Seq::new(32, |i: int| 0u8),
            proof@.path == Seq::<Seq<u8>>::empty(),
    {
        let proof = Proof { leaf_hash: Digest::default(), sorted_hashes: Vec::new() };
        assert(proof@.path =~= Seq::<Seq<u8>>::empty());
        proof
    }
}

/// What each proof of a sequence says, in the same order.
pub open spec fn proof_views(proofs: Seq<Proof>) -> Seq<ProofView> {
    Seq::new(proofs.len(), |i: int| proofs[i]@)
}

} // verus!
