//! The proof walk itself, against a cache that the caller owns.

use vstd::prelude::*;
use crate::digest::Digest;
use crate::hasher::Hasher;
use crate::laws::lemma_accepted_iff_stops;
use crate::model::{accepted, check_one, combine, trusted, walk, Outcome};
use crate::inclusion::{digest_views, Proof};

verus! {

/// Appends `bytes` to `buf`.
pub fn append_bytes(buf: &mut Vec<u8>, bytes: &[u8])
    ensures
        final(buf)@ == old(buf)@ + bytes@,
{
    buf.extend_from_slice(bytes);
    assert(buf@ =~= old(buf)@ + bytes@);
}

/// The parent of `a` and `b` under the digest function `H`: the digest of the
/// bytes of `a` followed by those of `b`.
pub fn hash_pair<H: Hasher>(a: Digest, b: Digest) -> (parent: Digest)
    ensures
        parent@ == combine::<H>(a@, b@),
{
    proof {
        a.lemma_len();
        b.lemma_len();
    }
    let size = a.as_slice().len() + b.as_slice().len();
    let mut h: Vec<u8> = Vec::with_capacity(size);
    append_bytes(&mut h, a.as_slice());
    append_bytes(&mut h, b.as_slice());
    assert(h@ =~= a@ + b@);
    Digest::from_bytes(H::hash(h.as_slice()))
}

/// Whether `digest` is in the cache.
pub fn is_trusted(matches: &Vec<Digest>, digest: &Digest) -> (found: bool)
    ensures
        found == trusted(matches@).contains(digest@),
{
    let mut i: usize = 0;
    while i < matches.len()
        invariant
            i <= matches.len(),
            forall|j: int| 0 <= j < i ==> (#[trigger] matches@[j])@ != digest@,
        decreases matches.len() - i,
    {
        if matches[i].same_as(digest) {
            return true;
        }
        i += 1;
    }
    false
}

/// A cache with one more digest at its end trusts that digest and whatever
/// it trusted before.
pub proof fn lemma_trusted_push(cache: Seq<Digest>, digest: Digest)
    ensures
        trusted(cache.push(digest)) == trusted(cache).insert(digest@),
{
    let longer = cache.push(digest);
    assert forall|d: Seq<u8>| trusted(longer).contains(d) <==> trusted(cache).insert(
        digest@,
    ).contains(d) by {
        if trusted(longer).contains(d) {
            let i = choose|i: int| 0 <= i < longer.len() && (#[trigger] longer[i])@ == d;
            if i < cache.len() {
                assert(cache[i]@ == d);
            }
        }
        if trusted(cache).contains(d) {
            let i = choose|i: int| 0 <= i < cache.len() && (#[trigger] cache[i])@ == d;
            assert(longer[i]@ == d);
        }
        if d == digest@ {
            assert(longer[cache.len() as int]@ == d);
        }
    }
    assert(trusted(longer) =~= trusted(cache).insert(digest@));
}

/// Checks `proof` against the cache `matches` and records in it what the
/// check learned.
///
/// A leaf that the cache already holds is accepted at once. Any other leaf
/// is combined with each sibling in turn: the sibling enters the cache, and
/// the parent is accepted if the cache holds it, else it enters the cache
/// too. A path that ends without a trusted parent is refused. The cache only
/// ever grows: what it held before, it holds afterwards, at the same place.
pub fn validate_proof<H: Hasher>(matches: &mut Vec<Digest>, proof: &Proof) -> (ok: bool)
    ensures
        ok == accepted::<H>(trusted(old(matches)@), proof@),
        ok == check_one::<H>(trusted(old(matches)@), proof@).ok,
        trusted(final(matches)@) == check_one::<H>(trusted(old(matches)@), proof@).cache,
        old(matches)@.is_prefix_of(final(matches)@),
{
    proof {
        lemma_accepted_iff_stops::<H>(trusted(old(matches)@), proof@);
    }
    let leaf_hash = proof.leaf_hash();
    if is_trusted(matches, &leaf_hash) {
        return true;
    }
    let sorted_hashes = proof.sorted_hashes();
    let ghost path = digest_views(sorted_hashes@);
    let ghost goal = check_one::<H>(trusted(old(matches)@), proof@);
    let mut hash = leaf_hash;
    let mut i: usize = 0;
    while i < sorted_hashes.len()
        invariant
            i <= sorted_hashes.len(),
            path == digest_views(sorted_hashes@),
            goal == check_one::<H>(trusted(old(matches)@), proof@),
            goal.ok == accepted::<H>(trusted(old(matches)@), proof@),
            goal == walk::<H>(trusted(matches@), hash@, path, i as int),
            old(matches)@.is_prefix_of(matches@),
        decreases sorted_hashes.len() - i,
    {
        let sibling = sorted_hashes[i];
        let ghost before = trusted(matches@);
        let ghost current = hash@;
        proof {
            lemma_trusted_push(matches@, sibling);
            assert(path[i as int] == sibling@);
        }
        matches.push(sibling);
        hash = hash_pair::<H>(hash, sibling);
        assert(trusted(matches@) == before.insert(path[i as int]));
        assert(hash@ == combine::<H>(current, path[i as int]));
        if is_trusted(matches, &hash) {
            assert(goal == Outcome { ok: true, cache: trusted(matches@) });
            return true;
        }
        proof {
            lemma_trusted_push(matches@, hash);
        }
        matches.push(hash);
        assert(goal == walk::<H>(trusted(matches@), hash@, path, i + 1));
        i += 1;
    }
    false
}

} // verus!
