//! The mathematical model of verification: digests are byte sequences, the
//! trusted set is a set of them, and checking a proof is a function from a
//! trusted set and a proof to a verdict and a larger trusted set.

use vstd::prelude::*;
use crate::digest::Digest;
use crate::hasher::Hasher;
use crate::inclusion::ProofView;

verus! {

/// A byte string of the model: the bytes of a digest, or what is hashed.
/// Implementations of `Hasher` name it in `hash_spec`.
pub type Bytes = Seq<u8>;

/// A trusted set: the digests, as bytes, that a check may stop at.
/// Implementations of `Verifier` name it in `initial_matches_spec`.
pub type TrustedSet = Set<Seq<u8>>;

/// The set of digests that a cache holds, whatever their order and however
/// often each occurs.
pub open spec fn trusted(cache: Seq<Digest>) -> Set<Seq<u8>> {
    Set::new(|d: Seq<u8>| exists|i: int| 0 <= i < cache.len() && (#[trigger] cache[i])@ == d)
}

/// The parent of two digests: the digest of the bytes of `a` followed by the
/// bytes of `b`.
pub open spec fn combine<H: Hasher>(a: Seq<u8>, b: Seq<u8>) -> Seq<u8> {
    H::hash_spec(a + b)
}

/// Whether the digest function maps two different byte strings to one
/// digest.
pub open spec fn collides<H: Hasher>(x: Seq<u8>, y: Seq<u8>) -> bool {
    x != y && H::hash_spec(x) == H::hash_spec(y)
}

/// The digest reached from `leaf` after combining it with the first `k`
/// siblings of `path`, each on the right.
pub open spec fn level<H: Hasher>(leaf: Seq<u8>, path: Seq<Seq<u8>>, k: int) -> Seq<u8>
    decreases k,
{
    if k <= 0 {
        leaf
    } else {
        combine::<H>(level::<H>(leaf, path, k - 1), path[k - 1])
    }
}

/// The trusted set after the first `n` steps of a walk, none of which found
/// its parent trusted: the set it started from, the first `n` siblings and
/// the first `n` parents.
pub open spec fn grown<H: Hasher>(
    cache: Set<Seq<u8>>,
    leaf: Seq<u8>,
    path: Seq<Seq<u8>>,
    n: int,
) -> Set<Seq<u8>>
    decreases n,
{
    if n <= 0 {
        cache
    } else {
        grown::<H>(cache, leaf, path, n - 1).insert(path[n - 1]).insert(level::<H>(leaf, path, n))
    }
}

/// Whether step `n` of a walk, counted from 1, finds its parent trusted: in
/// the set the walk started from, among the siblings up to its own, or among
/// the parents before it.
pub open spec fn stops_at<H: Hasher>(
    cache: Set<Seq<u8>>,
    leaf: Seq<u8>,
    path: Seq<Seq<u8>>,
    n: int,
) -> bool {
    grown::<H>(cache, leaf, path, n - 1).insert(path[n - 1]).contains(level::<H>(leaf, path, n))
}

/// Whether a proof is accepted against a trusted set: its leaf is trusted,
/// or some step of its walk finds its parent trusted.
pub open spec fn accepted<H: Hasher>(cache: Set<Seq<u8>>, proof: ProofView) -> bool {
    cache.contains(proof.leaf) || exists|n: int|
        1 <= n <= proof.path.len() && #[trigger] stops_at::<H>(cache, proof.leaf, proof.path, n)
}

/// A verdict together with the trusted set that the check leaves behind.
pub ghost struct Outcome {
    pub ok: bool,
    pub cache: Set<Seq<u8>>,
}

/// Walks `path` from sibling `i` on, starting at `current`. Each sibling
/// joins the trusted set, then the parent is computed: a parent that is
/// already trusted ends the walk with success, any other joins the trusted
/// set too. Running out of siblings is failure.
pub open spec fn walk<H: Hasher>(
    cache: Set<Seq<u8>>,
    current: Seq<u8>,
    path: Seq<Seq<u8>>,
    i: int,
) -> Outcome
    decreases path.len() - i,
{
    if i < 0 || i >= path.len() {
        Outcome { ok: false, cache }
    } else {
        let with_sibling = cache.insert(path[i]);
        let parent = combine::<H>(current, path[i]);
        if with_sibling.contains(parent) {
            Outcome { ok: true, cache: with_sibling }
        } else {
            walk::<H>(with_sibling.insert(parent), parent, path, i + 1)
        }
    }
}

/// Checks one proof against a trusted set: a trusted leaf succeeds at once
/// and leaves the set as it was, any other leaf is walked up its path.
pub open spec fn check_one<H: Hasher>(cache: Set<Seq<u8>>, proof: ProofView) -> Outcome {
    if cache.contains(proof.leaf) {
        Outcome { ok: true, cache }
    } else {
        walk::<H>(cache, proof.leaf, proof.path, 0)
    }
}

/// Checks the proofs from number `i` on, one after the other, each against
/// the trusted set that the one before left behind. The verdict is the
/// conjunction of all verdicts; no failure stops the later checks.
pub open spec fn check_from<H: Hasher>(
    cache: Set<Seq<u8>>,
    proofs: Seq<ProofView>,
    i: int,
) -> Outcome
    decreases proofs.len() - i,
{
    if i < 0 || i >= proofs.len() {
        Outcome { ok: true, cache }
    } else {
        let first = check_one::<H>(cache, proofs[i]);
        let rest = check_from::<H>(first.cache, proofs, i + 1);
        Outcome { ok: first.ok && rest.ok, cache: rest.cache }
    }
}

/// The trusted set that the first `i` proofs of a batch leave behind.
pub open spec fn cache_before<H: Hasher>(
    cache: Set<Seq<u8>>,
    proofs: Seq<ProofView>,
    i: int,
) -> Set<Seq<u8>>
    decreases i,
{
    if i <= 0 {
        cache
    } else {
        check_one::<H>(cache_before::<H>(cache, proofs, i - 1), proofs[i - 1]).cache
    }
}

/// Whether a batch holds under the trusted set that a root gave, where
/// `None` stands for a root that was not recognised. An empty batch never
/// holds.
pub open spec fn batch_holds<H: Hasher>(seed: Option<Set<Seq<u8>>>, proofs: Seq<ProofView>) -> bool {
    match seed {
        Some(cache) => proofs.len() >= 1 && check_from::<H>(cache, proofs, 0).ok,
        None => false,
    }
}

/// Whether one proof holds under the trusted set that a root gave, where
/// `None` stands for a root that was not recognised.
pub open spec fn proof_holds<H: Hasher>(seed: Option<Set<Seq<u8>>>, proof: ProofView) -> bool {
    match seed {
        Some(cache) => check_one::<H>(cache, proof).ok,
        None => false,
    }
}

/// The first `k` parts, one after the other.
pub open spec fn joined(parts: Seq<Seq<u8>>, k: int) -> Seq<u8>
    decreases k,
{
    if k <= 0 {
        Seq::empty()
    } else {
        joined(parts, k - 1) + parts[k - 1]
    }
}

/// The leaves of a batch, in order.
pub open spec fn leaves(proofs: Seq<ProofView>) -> Seq<Seq<u8>> {
    Seq::new(proofs.len(), |i: int| proofs[i].leaf)
}

/// What is hashed for a bundle: the address, then every leaf in order.
pub open spec fn bundle_preimage(address: Seq<u8>, proofs: Seq<ProofView>) -> Seq<u8> {
    address + joined(leaves(proofs), proofs.len() as int)
}

} // verus!
