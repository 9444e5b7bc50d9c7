//! What holds of the model for every digest function: facts that callers
//! can rely on without looking at how a proof is walked.

use vstd::prelude::*;
use crate::hasher::{Hasher, Verifier};
use crate::inclusion::ProofView;
use crate::model::{
    accepted, batch_holds, bundle_preimage, cache_before, check_from, check_one, collides,
    combine, grown, joined, leaves, level, proof_holds, stops_at, walk,
};

verus! {

/// A walk never removes a digest from the trusted set.
pub proof fn lemma_walk_only_grows<H: Hasher>(
    cache: Set<Seq<u8>>,
    current: Seq<u8>,
    path: Seq<Seq<u8>>,
    i: int,
)
    ensures
        cache.subset_of(walk::<H>(cache, current, path, i).cache),
    decreases path.len() - i,
{
    if 0 <= i < path.len() {
        let with_sibling = cache.insert(path[i]);
        let parent = combine::<H>(current, path[i]);
        if !with_sibling.contains(parent) {
            lemma_walk_only_grows::<H>(with_sibling.insert(parent), parent, path, i + 1);
        }
    }
}

/// Checking one proof never removes a digest from the trusted set.
pub proof fn lemma_check_only_grows<H: Hasher>(cache: Set<Seq<u8>>, proof: ProofView)
    ensures
        cache.subset_of(check_one::<H>(cache, proof).cache),
{
    lemma_walk_only_grows::<H>(cache, proof.leaf, proof.path, 0);
}

/// Checking a batch never removes a digest from the trusted set.
pub proof fn lemma_batch_only_grows<H: Hasher>(
    cache: Set<Seq<u8>>,
    proofs: Seq<ProofView>,
    i: int,
)
    ensures
        cache.subset_of(check_from::<H>(cache, proofs, i).cache),
    decreases proofs.len() - i,
{
    if 0 <= i < proofs.len() {
        let first = check_one::<H>(cache, proofs[i]);
        lemma_check_only_grows::<H>(cache, proofs[i]);
        lemma_batch_only_grows::<H>(first.cache, proofs, i + 1);
    }
}

/// A walk that stands at level `i` of a proof succeeds when some later level
/// of that proof is trusted.
proof fn lemma_walk_reaches<H: Hasher>(
    cache: Set<Seq<u8>>,
    leaf: Seq<u8>,
    path: Seq<Seq<u8>>,
    i: int,
    k: int,
)
    requires
        0 <= i < k <= path.len(),
        cache.contains(level::<H>(leaf, path, k)),
    ensures
        walk::<H>(cache, level::<H>(leaf, path, i), path, i).ok,
    decreases k - i,
{
    let with_sibling = cache.insert(path[i]);
    let parent = combine::<H>(level::<H>(leaf, path, i), path[i]);
    assert(parent == level::<H>(leaf, path, i + 1));
    if !with_sibling.contains(parent) {
        lemma_walk_reaches::<H>(with_sibling.insert(parent), leaf, path, i + 1, k);
    }
}

/// A proof is accepted whenever the trusted set holds its leaf or any digest
/// on its way up: the walk stops there at the latest.
pub proof fn lemma_trusted_level_accepts<H: Hasher>(cache: Set<Seq<u8>>, proof: ProofView, k: int)
    requires
        0 <= k <= proof.path.len(),
        cache.contains(level::<H>(proof.leaf, proof.path, k)),
    ensures
        check_one::<H>(cache, proof).ok,
{
    if !cache.contains(proof.leaf) {
        lemma_walk_reaches::<H>(cache, proof.leaf, proof.path, 0, k);
    }
}

/// A proof whose path leads from its leaf to the root is accepted under that
/// root, provided the verifier trusts the root itself.
pub proof fn lemma_valid_inclusion<V: Verifier>(root: Seq<u8>, proof: ProofView)
    requires
        V::initial_matches_spec(root) is Some,
        V::initial_matches_spec(root).unwrap().contains(root),
        level::<V>(proof.leaf, proof.path, proof.path.len() as int) == root,
    ensures
        proof_holds::<V>(V::initial_matches_spec(root), proof),
{
    lemma_trusted_level_accepts::<V>(
        V::initial_matches_spec(root).unwrap(),
        proof,
        proof.path.len() as int,
    );
}

/// A walk that has taken `i` steps without stopping succeeds exactly when a
/// later step stops, and otherwise ends with everything recorded.
proof fn lemma_walk_stops<H: Hasher>(cache: Set<Seq<u8>>, leaf: Seq<u8>, path: Seq<Seq<u8>>, i: int)
    requires
        0 <= i <= path.len(),
    ensures
        walk::<H>(grown::<H>(cache, leaf, path, i), level::<H>(leaf, path, i), path, i).ok
            <==> exists|n: int| i < n <= path.len() && #[trigger] stops_at::<H>(cache, leaf, path, n),
        !walk::<H>(grown::<H>(cache, leaf, path, i), level::<H>(leaf, path, i), path, i).ok
            ==> walk::<H>(grown::<H>(cache, leaf, path, i), level::<H>(leaf, path, i), path, i).cache
            == grown::<H>(cache, leaf, path, path.len() as int),
    decreases path.len() - i,
{
    if i < path.len() {
        let with_sibling = grown::<H>(cache, leaf, path, i).insert(path[i]);
        let parent = combine::<H>(level::<H>(leaf, path, i), path[i]);
        assert(parent == level::<H>(leaf, path, i + 1));
        assert(stops_at::<H>(cache, leaf, path, i + 1) == with_sibling.contains(parent));
        if !with_sibling.contains(parent) {
            assert(with_sibling.insert(parent) == grown::<H>(cache, leaf, path, i + 1));
            lemma_walk_stops::<H>(cache, leaf, path, i + 1);
        }
    }
}

/// A walk that has taken `i` steps without stopping, and does not stop
/// before step `j`, leaves level `j` of the proof in the trusted set.
proof fn lemma_walk_caches_level<H: Hasher>(
    cache: Set<Seq<u8>>,
    leaf: Seq<u8>,
    path: Seq<Seq<u8>>,
    i: int,
    j: int,
)
    requires
        0 <= i < j <= path.len(),
        forall|m: int| i < m < j ==> !#[trigger] stops_at::<H>(cache, leaf, path, m),
    ensures
        walk::<H>(
            grown::<H>(cache, leaf, path, i),
            level::<H>(leaf, path, i),
            path,
            i,
        ).cache.contains(level::<H>(leaf, path, j)),
    decreases j - i,
{
    let with_sibling = grown::<H>(cache, leaf, path, i).insert(path[i]);
    let parent = combine::<H>(level::<H>(leaf, path, i), path[i]);
    assert(parent == level::<H>(leaf, path, i + 1));
    assert(stops_at::<H>(cache, leaf, path, i + 1) == with_sibling.contains(parent));
    if !with_sibling.contains(parent) {
        let next = with_sibling.insert(parent);
        assert(next == grown::<H>(cache, leaf, path, i + 1));
        if j == i + 1 {
            lemma_walk_only_grows::<H>(next, parent, path, i + 1);
        } else {
            lemma_walk_caches_level::<H>(cache, leaf, path, i + 1, j);
        }
    }
}

/// A proof is accepted exactly when its leaf is trusted or some step of its
/// walk finds its parent trusted. Changing a leaf or a sibling, or the order
/// of the siblings, turns an accepted proof into a refused one exactly when
/// no step of the changed walk does so.
pub proof fn lemma_accepted_iff_stops<H: Hasher>(cache: Set<Seq<u8>>, proof: ProofView)
    ensures
        check_one::<H>(cache, proof).ok == accepted::<H>(cache, proof),
{
    lemma_walk_stops::<H>(cache, proof.leaf, proof.path, 0);
}

/// A refused proof leaves all its siblings and all the parents on its way in
/// the trusted set.
pub proof fn lemma_refused_records_all<H: Hasher>(cache: Set<Seq<u8>>, proof: ProofView)
    requires
        !check_one::<H>(cache, proof).ok,
    ensures
        check_one::<H>(cache, proof).cache == grown::<H>(
            cache,
            proof.leaf,
            proof.path,
            proof.path.len() as int,
        ),
{
    lemma_walk_stops::<H>(cache, proof.leaf, proof.path, 0);
}

/// Once a proof has been checked, whatever the verdict, the trusted set
/// holds every parent that its walk computed: level `j` of the proof, if
/// the leaf was not trusted and no step before `j` stopped the walk.
pub proof fn lemma_checked_levels_are_trusted<H: Hasher>(
    cache: Set<Seq<u8>>,
    proof: ProofView,
    j: int,
)
    requires
        1 <= j <= proof.path.len(),
        !cache.contains(proof.leaf),
        forall|m: int| 1 <= m < j ==> !#[trigger] stops_at::<H>(cache, proof.leaf, proof.path, m),
    ensures
        check_one::<H>(cache, proof).cache.contains(level::<H>(proof.leaf, proof.path, j)),
{
    lemma_walk_caches_level::<H>(cache, proof.leaf, proof.path, 0, j);
}

/// A second proof that meets a parent computed for an earlier proof is
/// accepted there, however short its own path: if level `k` of the second
/// proof is level `j` of the first, and the walk of the first got as far as
/// `j`, then the second is accepted against what the first left behind.
pub proof fn lemma_shared_ancestor_accepts<H: Hasher>(
    cache: Set<Seq<u8>>,
    first: ProofView,
    second: ProofView,
    j: int,
    k: int,
)
    requires
        1 <= j <= first.path.len(),
        0 <= k <= second.path.len(),
        !cache.contains(first.leaf),
        forall|m: int| 1 <= m < j ==> !#[trigger] stops_at::<H>(cache, first.leaf, first.path, m),
        level::<H>(second.leaf, second.path, k) == level::<H>(first.leaf, first.path, j),
    ensures
        check_one::<H>(check_one::<H>(cache, first).cache, second).ok,
{
    lemma_checked_levels_are_trusted::<H>(cache, first, j);
    lemma_trusted_level_accepts::<H>(check_one::<H>(cache, first).cache, second, k);
}

/// Under a root that is not recognised neither a proof nor a batch holds.
pub proof fn lemma_unrecognised_root_refuses<H: Hasher>(proof: ProofView, proofs: Seq<ProofView>)
    ensures
        !proof_holds::<H>(None, proof),
        !batch_holds::<H>(None, proofs),
{
}

/// An empty batch holds under no root.
pub proof fn lemma_empty_batch_refused<H: Hasher>(seed: Option<Set<Seq<u8>>>)
    ensures
        !batch_holds::<H>(seed, Seq::empty()),
{
}

/// From proof `i` on, a batch succeeds exactly when each remaining proof is
/// accepted against what the proofs before it left behind.
proof fn lemma_check_from_is_conjunction<H: Hasher>(
    cache: Set<Seq<u8>>,
    proofs: Seq<ProofView>,
    i: int,
)
    requires
        0 <= i <= proofs.len(),
    ensures
        check_from::<H>(cache_before::<H>(cache, proofs, i), proofs, i).ok <==> forall|m: int|
            i <= m < proofs.len() ==> #[trigger] check_one::<H>(
                cache_before::<H>(cache, proofs, m),
                proofs[m],
            ).ok,
        check_from::<H>(cache_before::<H>(cache, proofs, i), proofs, i).cache == cache_before::<H>(
            cache,
            proofs,
            proofs.len() as int,
        ),
    decreases proofs.len() - i,
{
    if i < proofs.len() {
        let here = cache_before::<H>(cache, proofs, i);
        let first = check_one::<H>(here, proofs[i]);
        assert(first.cache == cache_before::<H>(cache, proofs, i + 1));
        lemma_check_from_is_conjunction::<H>(cache, proofs, i + 1);
    }
}

/// A batch holds exactly when it is not empty, its root is recognised, and
/// every proof is accepted against the trusted set that the proofs before
/// it left behind, whether those were accepted or not.
pub proof fn lemma_batch_is_conjunction<H: Hasher>(
    seed: Option<Set<Seq<u8>>>,
    proofs: Seq<ProofView>,
)
    ensures
        batch_holds::<H>(seed, proofs) <==> seed is Some && proofs.len() >= 1 && forall|m: int|
            0 <= m < proofs.len() ==> #[trigger] check_one::<H>(
                cache_before::<H>(seed.unwrap(), proofs, m),
                proofs[m],
            ).ok,
{
    if let Some(cache) = seed {
        lemma_check_from_is_conjunction::<H>(cache, proofs, 0);
    }
}

/// A batch of one proof holds exactly when that proof holds on its own.
pub proof fn lemma_batch_of_one<H: Hasher>(seed: Option<Set<Seq<u8>>>, proof: ProofView)
    ensures
        batch_holds::<H>(seed, seq![proof]) == proof_holds::<H>(seed, proof),
{
    if let Some(cache) = seed {
        let proofs = seq![proof];
        let first = check_one::<H>(cache, proofs[0]);
        assert(check_from::<H>(first.cache, proofs, 1).ok);
    }
}

/// A batch holds only if its first proof holds against the seed.
pub proof fn lemma_batch_needs_first<H: Hasher>(seed: Option<Set<Seq<u8>>>, proofs: Seq<ProofView>)
    requires
        batch_holds::<H>(seed, proofs),
    ensures
        proof_holds::<H>(seed, proofs[0]),
{
}

/// Two different byte strings of one length, written one after the other,
/// give different strings in the two orders.
pub proof fn lemma_concat_order(a: Seq<u8>, b: Seq<u8>)
    requires
        a.len() == b.len(),
        a != b,
    ensures
        a + b != b + a,
{
    if a + b == b + a {
        assert forall|i: int| 0 <= i < a.len() implies a[i] == b[i] by {
            assert((a + b)[i] == a[i]);
            assert((b + a)[i] == b[i]);
        }
        assert(a =~= b);
    }
}

/// Combining two different digests in the two orders gives two different
/// parents, unless the digest function collides on the two concatenations.
pub proof fn lemma_combine_order_sensitive<H: Hasher>(a: Seq<u8>, b: Seq<u8>)
    requires
        a.len() == b.len(),
        a != b,
        !collides::<H>(a + b, b + a),
    ensures
        combine::<H>(a, b) != combine::<H>(b, a),
{
    lemma_concat_order(a, b);
}

/// Whether every digest that the function gives has 32 bytes, as the
/// digests of every `Hasher` have.
pub open spec fn digests_are_sized<H: Hasher>() -> bool {
    forall|data: Seq<u8>| (#[trigger] H::hash_spec(data)).len() == 32
}

/// Two walks of `n` steps that reach the same digest started from the same
/// leaf and met the same siblings in the same order, unless the digest
/// function collides at one of the steps.
pub proof fn lemma_same_top_same_walk<H: Hasher>(
    leaf1: Seq<u8>,
    path1: Seq<Seq<u8>>,
    leaf2: Seq<u8>,
    path2: Seq<Seq<u8>>,
    n: int,
)
    requires
        0 <= n <= path1.len(),
        n <= path2.len(),
        leaf1.len() == 32,
        leaf2.len() == 32,
        digests_are_sized::<H>(),
        forall|i: int|
            0 <= i < n ==> !collides::<H>(
                #[trigger] level::<H>(leaf1, path1, i) + path1[i],
                level::<H>(leaf2, path2, i) + path2[i],
            ),
        level::<H>(leaf1, path1, n) == level::<H>(leaf2, path2, n),
    ensures
        leaf1 == leaf2,
        forall|i: int| 0 <= i < n ==> path1[i] == path2[i],
    decreases n,
{
    if n > 0 {
        let below1 = level::<H>(leaf1, path1, n - 1);
        let below2 = level::<H>(leaf2, path2, n - 1);
        let x = below1 + path1[n - 1];
        let y = below2 + path2[n - 1];
        assert(!collides::<H>(x, y));
        assert(x == y);
        assert(below1.len() == 32 && below2.len() == 32);
        assert(below1 =~= x.subrange(0, 32));
        assert(below2 =~= y.subrange(0, 32));
        assert(path1[n - 1] =~= x.subrange(32, x.len() as int));
        assert(path2[n - 1] =~= y.subrange(32, y.len() as int));
        lemma_same_top_same_walk::<H>(leaf1, path1, leaf2, path2, n - 1);
    }
}

/// A proof that was changed in its leaf or in one of its siblings, the
/// order of two different siblings included, no longer leads to the digest
/// that it led to, unless the digest function collides at one of the steps.
pub proof fn lemma_changed_proof_misses<H: Hasher>(
    proof: ProofView,
    changed: ProofView,
)
    requires
        proof.path.len() == changed.path.len(),
        proof.leaf.len() == 32,
        changed.leaf.len() == 32,
        digests_are_sized::<H>(),
        proof != changed,
        forall|i: int|
            0 <= i < proof.path.len() ==> !collides::<H>(
                #[trigger] level::<H>(proof.leaf, proof.path, i) + proof.path[i],
                level::<H>(changed.leaf, changed.path, i) + changed.path[i],
            ),
    ensures
        level::<H>(changed.leaf, changed.path, changed.path.len() as int) != level::<H>(
            proof.leaf,
            proof.path,
            proof.path.len() as int,
        ),
{
    let n = proof.path.len() as int;
    if level::<H>(changed.leaf, changed.path, n) == level::<H>(proof.leaf, proof.path, n) {
        lemma_same_top_same_walk::<H>(proof.leaf, proof.path, changed.leaf, changed.path, n);
        assert(proof.path =~= changed.path);
    }
}

/// Whether every leaf of a batch has the length of a digest.
pub open spec fn leaves_are_digests(proofs: Seq<ProofView>) -> bool {
    forall|i: int| 0 <= i < proofs.len() ==> (#[trigger] proofs[i]).leaf.len() == 32
}

/// The first `k` of a sequence of 32-byte parts take 32 bytes each, and
/// each can be read back from its place.
pub proof fn lemma_joined_layout(parts: Seq<Seq<u8>>, k: int)
    requires
        0 <= k <= parts.len(),
        forall|i: int| 0 <= i < parts.len() ==> (#[trigger] parts[i]).len() == 32,
    ensures
        joined(parts, k).len() == 32 * k,
        forall|i: int|
            0 <= i < k ==> joined(parts, k).subrange(32 * i, 32 * i + 32) == #[trigger] parts[i],
    decreases k,
{
    if k > 0 {
        lemma_joined_layout(parts, k - 1);
        let before = joined(parts, k - 1);
        let all = joined(parts, k);
        assert(all == before + parts[k - 1]);
        assert forall|i: int| 0 <= i < k implies all.subrange(32 * i, 32 * i + 32)
            == #[trigger] parts[i] by {
            if i < k - 1 {
                assert(all.subrange(32 * i, 32 * i + 32) =~= before.subrange(32 * i, 32 * i + 32));
            } else {
                assert(all.subrange(32 * i, 32 * i + 32) =~= parts[k - 1]);
            }
        }
    }
}

/// A bundle depends on the address and on the leaves, in their order, and
/// on nothing else: the same address and the same leaves give the same
/// digest, whatever the paths and however often it is asked for.
pub proof fn lemma_bundle_repeatable<H: Hasher>(
    address: Seq<u8>,
    first: Seq<ProofView>,
    second: Seq<ProofView>,
)
    requires
        leaves(first) == leaves(second),
    ensures
        bundle_preimage(address, first) == bundle_preimage(address, second),
        H::hash_spec(bundle_preimage(address, first)) == H::hash_spec(
            bundle_preimage(address, second),
        ),
{
    assert(first.len() == leaves(first).len());
    assert(second.len() == leaves(second).len());
}

/// Two bundles of 20-byte addresses and 32-byte leaves are hashed from the
/// same bytes only if the addresses are equal and the leaves are equal one
/// by one: another address, another leaf, one leaf more or less, or two
/// different leaves in swapped places all change what is hashed.
pub proof fn lemma_bundle_preimage_injective(
    address1: Seq<u8>,
    proofs1: Seq<ProofView>,
    address2: Seq<u8>,
    proofs2: Seq<ProofView>,
)
    requires
        address1.len() == 20,
        address2.len() == 20,
        leaves_are_digests(proofs1),
        leaves_are_digests(proofs2),
        bundle_preimage(address1, proofs1) == bundle_preimage(address2, proofs2),
    ensures
        address1 == address2,
        leaves(proofs1) == leaves(proofs2),
{
    let n1 = proofs1.len() as int;
    let n2 = proofs2.len() as int;
    let body1 = joined(leaves(proofs1), n1);
    let body2 = joined(leaves(proofs2), n2);
    let image1 = bundle_preimage(address1, proofs1);
    let image2 = bundle_preimage(address2, proofs2);
    lemma_joined_layout(leaves(proofs1), n1);
    lemma_joined_layout(leaves(proofs2), n2);
    assert(image1.len() == 20 + 32 * n1);
    assert(image2.len() == 20 + 32 * n2);
    assert(n1 == n2);
    assert(image1.subrange(0, 20) =~= address1);
    assert(image2.subrange(0, 20) =~= address2);
    assert(image1.subrange(20, 20 + 32 * n1) =~= body1);
    assert(image2.subrange(20, 20 + 32 * n2) =~= body2);
    assert forall|i: int| 0 <= i < n1 implies leaves(proofs1)[i] == leaves(proofs2)[i] by {
        assert(body1.subrange(32 * i, 32 * i + 32) == leaves(proofs1)[i]);
        assert(body2.subrange(32 * i, 32 * i + 32) == leaves(proofs2)[i]);
    }
    assert(leaves(proofs1) =~= leaves(proofs2));
}

/// Two bundles that differ in the address or in the sequence of leaves have
/// different digests, unless the digest function collides on what is hashed
/// for the two.
pub proof fn lemma_bundle_sensitive<H: Hasher>(
    address1: Seq<u8>,
    proofs1: Seq<ProofView>,
    address2: Seq<u8>,
    proofs2: Seq<ProofView>,
)
    requires
        address1.len() == 20,
        address2.len() == 20,
        leaves_are_digests(proofs1),
        leaves_are_digests(proofs2),
        address1 != address2 || leaves(proofs1) != leaves(proofs2),
        !collides::<H>(bundle_preimage(address1, proofs1), bundle_preimage(address2, proofs2)),
    ensures
        H::hash_spec(bundle_preimage(address1, proofs1)) != H::hash_spec(
            bundle_preimage(address2, proofs2),
        ),
{
    if bundle_preimage(address1, proofs1) == bundle_preimage(address2, proofs2) {
        lemma_bundle_preimage_injective(address1, proofs1, address2, proofs2);
    }
}

} // verus!
