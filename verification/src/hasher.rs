//! The capabilities that an integrator supplies, and what the library builds
//! on them: a digest function, a rule that turns a root into the first
//! trusted set, and the checks that follow from the two.

use vstd::prelude::*;
use crate::digest::Digest;
use crate::helpers::{append_bytes, hash_pair, validate_proof};
use crate::model::{
    batch_holds, bundle_preimage, check_from, combine, joined, leaves, proof_holds, trusted,
    Bytes, TrustedSet,
};
use crate::inclusion::{proof_views, Proof};

verus! {

/// A digest function from byte strings to 32 bytes.
///
/// An implementation promises that `hash` computes `hash_spec`: that it is a
/// function of the bytes alone. Nothing in the library checks that promise
/// for an implementation written outside it.
pub trait Hasher: Sized {
    /// The digest of `data`, as a mathematical function.
    spec fn hash_spec(data: Bytes) -> Bytes;

    /// Hashes `data` to 32 bytes.
    fn hash(data: &[u8]) -> (out: [u8; 32])
        ensures
            out@ == Self::hash_spec(data@),
    ;
}

/// Checks inclusion proofs against a root.
pub trait Verifier: Hasher {
    /// The trusted set that a root stands for, or `None` for a root that is
    /// not recognised.
    spec fn initial_matches_spec(doc_root: Bytes) -> Option<TrustedSet>;

    /// The digests that are trusted from the start under `doc_root`, in any
    /// order, or `None` where the root is not recognised.
    fn initial_matches(doc_root: Digest) -> (seed: Option<Vec<Digest>>)
        ensures
            match seed {
                Some(cache) => Self::initial_matches_spec(doc_root@) == Some(trusted(cache@)),
                None => Self::initial_matches_spec(doc_root@) is None,
            },
    ;

    /// The parent of `a` and `b`: the digest of the bytes of `a` followed by
    /// those of `b`.
    fn hash_of(a: Digest, b: Digest) -> (parent: Digest)
        ensures
            parent@ == combine::<Self>(a@, b@),
    {
        hash_pair::<Self>(a, b)
    }

    /// Whether every proof of a batch holds under `doc_root`. The proofs are
    /// checked in order against one growing trusted set, and all of them are
    /// checked whatever the earlier verdicts. An empty batch does not hold,
    /// nor does any batch under a root that is not recognised.
    fn validate_proofs(doc_root: Digest, proofs: &Vec<Proof>) -> (ok: bool)
        ensures
            ok == batch_holds::<Self>(Self::initial_matches_spec(doc_root@), proof_views(proofs@)),
            proofs@.len() == 0 ==> !ok,
            Self::initial_matches_spec(doc_root@) is None ==> !ok,
    {
        if proofs.len() < 1 {
            return false;
        }
        let mut matches = match Self::initial_matches(doc_root) {
            Some(matches) => matches,
            None => return false,
        };
        let ghost seed = trusted(matches@);
        let ghost views = proof_views(proofs@);
        let mut acc = true;
        let mut i: usize = 0;
        while i < proofs.len()
            invariant
                i <= proofs.len(),
                views == proof_views(proofs@),
                check_from::<Self>(seed, views, 0).ok == (acc && check_from::<Self>(
                    trusted(matches@),
                    views,
                    i as int,
                ).ok),
            decreases proofs.len() - i,
        {
            let b = validate_proof::<Self>(&mut matches, &proofs[i]);
            acc = acc && b;
            i += 1;
        }
        acc
    }

    /// Whether `proof` holds under `doc_root`, checked against a fresh trusted
    /// set. Under a root that is not recognised no proof holds.
    fn validate_proof(doc_root: Digest, proof: &Proof) -> (ok: bool)
        ensures
            ok == proof_holds::<Self>(Self::initial_matches_spec(doc_root@), proof@),
            Self::initial_matches_spec(doc_root@) is None ==> !ok,
    {
        let mut matches = match Self::initial_matches(doc_root) {
            Some(matches) => matches,
            None => return false,
        };
        validate_proof::<Self>(&mut matches, proof)
    }
}

/// Folds a batch of proofs and an address into one digest.
pub trait BundleHasher: Hasher {
    /// The digest of the address followed by the leaf digest of every proof,
    /// in order.
    fn bundled_hash(proofs: Vec<Proof>, deposit_address: [u8; 20]) -> (bundle: Digest)
        ensures
            bundle@ == Self::hash_spec(bundle_preimage(deposit_address@, proof_views(proofs@))),
    {
        let mut acc: Vec<u8> = Vec::new();
        append_bytes(&mut acc, deposit_address.as_slice());
        let ghost views = proof_views(proofs@);
        let mut i: usize = 0;
        while i < proofs.len()
            invariant
                i <= proofs.len(),
                views == proof_views(proofs@),
                acc@ == deposit_address@ + joined(leaves(views), i as int),
            decreases proofs.len() - i,
        {
            let leaf = proofs[i].leaf_hash();
            append_bytes(&mut acc, leaf.as_slice());
            assert(leaves(views)[i as int] == leaf@);
            assert(acc@ =~= deposit_address@ + joined(leaves(views), i + 1));
            i += 1;
        }
        Digest::from_bytes(Self::hash(acc.as_slice()))
    }
}

} // verus!
