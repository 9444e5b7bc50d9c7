use proofs::helpers::{hash_pair, is_trusted, validate_proof};
use proofs::model::{Bytes, TrustedSet};
use proofs::{BundleHasher, Digest, Hasher, Proof, Verifier};

/// A small mixing function, good enough to keep the digests of these tests
/// apart.
struct Mix;

fn stir(mut x: u64) -> u64 {
    x ^= x >> 30;
    x = x.wrapping_mul(0xbf58476d1ce4e5b9);
    x ^= x >> 27;
    x = x.wrapping_mul(0x94d049bb133111eb);
    x ^ (x >> 31)
}

fn mix(data: &[u8]) -> [u8; 32] {
    let mut lanes = [
        0x6a09e667f3bcc908u64,
        0xbb67ae8584caa73bu64,
        0x3c6ef372fe94f82bu64,
        0xa54ff53a5f1d36f1u64,
    ];
    for (n, byte) in data.iter().enumerate() {
        for (k, lane) in lanes.iter_mut().enumerate() {
            *lane = stir(*lane ^ (*byte as u64) ^ ((n as u64) << 8) ^ ((k as u64) << 40));
        }
    }
    let mut out = [0u8; 32];
    for (k, lane) in lanes.iter().enumerate() {
        let last = stir(*lane ^ (data.len() as u64));
        out[8 * k..8 * k + 8].copy_from_slice(&last.to_le_bytes());
    }
    out
}

impl Hasher for Mix {
    // Stands for `mix` in contracts; nothing ever runs it.
    fn hash_spec(_data: Bytes) -> Bytes {
        unreachable!()
    }

    fn hash(data: &[u8]) -> [u8; 32] {
        mix(data)
    }
}

/// Trusts the root itself and nothing else.
impl Verifier for Mix {
    // Stands for `initial_matches` in contracts; nothing ever runs it.
    fn initial_matches_spec(_doc_root: Bytes) -> Option<TrustedSet> {
        unreachable!()
    }

    fn initial_matches(doc_root: Digest) -> Option<Vec<Digest>> {
        Some(vec![doc_root])
    }
}

impl BundleHasher for Mix {}

/// Recognises every root but the all-zero one.
struct Picky;

impl Hasher for Picky {
    // Stands for `mix` in contracts; nothing ever runs it.
    fn hash_spec(_data: Bytes) -> Bytes {
        unreachable!()
    }

    fn hash(data: &[u8]) -> [u8; 32] {
        mix(data)
    }
}

impl Verifier for Picky {
    // Stands for `initial_matches` in contracts; nothing ever runs it.
    fn initial_matches_spec(_doc_root: Bytes) -> Option<TrustedSet> {
        unreachable!()
    }

    fn initial_matches(doc_root: Digest) -> Option<Vec<Digest>> {
        if doc_root == Digest::default() {
            None
        } else {
            Some(vec![doc_root])
        }
    }
}

fn digest_of(tag: u8) -> Digest {
    Digest::from_bytes(mix(&[tag]))
}

fn pair(a: Digest, b: Digest) -> Digest {
    let mut bytes = Vec::new();
    bytes.extend_from_slice(a.as_bytes());
    bytes.extend_from_slice(b.as_bytes());
    Digest::from_bytes(mix(&bytes))
}

/// A leaf, three siblings and the digests on the way up.
struct Chain {
    leaf: Digest,
    siblings: [Digest; 3],
    levels: [Digest; 3],
}

fn chain() -> Chain {
    let leaf = digest_of(1);
    let siblings = [digest_of(2), digest_of(3), digest_of(4)];
    let h1 = pair(leaf, siblings[0]);
    let h2 = pair(h1, siblings[1]);
    let h3 = pair(h2, siblings[2]);
    Chain { leaf, siblings, levels: [h1, h2, h3] }
}

fn flipped(d: Digest, at: usize) -> Digest {
    let mut bytes = *d.as_bytes();
    bytes[at] ^= 1;
    Digest::from_bytes(bytes)
}

#[test]
fn digest_default_is_all_zero() {
    assert_eq!(Digest::default().as_bytes(), &[0u8; 32]);
    assert_eq!(Digest::default().as_slice(), &[0u8; 32][..]);
}

#[test]
fn digest_keeps_its_bytes() {
    let mut bytes = [0u8; 32];
    for (i, b) in bytes.iter_mut().enumerate() {
        *b = i as u8;
    }
    let d = Digest::from_bytes(bytes);
    assert_eq!(d.as_bytes(), &bytes);
    assert_eq!(d.as_slice().len(), 32);
    let e: Digest = bytes.into();
    assert_eq!(d, e);
    assert!(d.same_as(&e));
    let view: &[u8] = d.as_ref();
    assert_eq!(view, &bytes[..]);
}

#[test]
fn digest_equality_sees_every_byte() {
    let d = digest_of(7);
    for at in 0..32 {
        let other = flipped(d, at);
        assert_ne!(d, other);
        assert!(!d.same_as(&other));
    }
    assert_eq!(d, d.clone());
}

#[test]
fn proof_default_is_zero_leaf_and_empty_path() {
    let p = Proof::default();
    assert_eq!(p.leaf_hash(), Digest::default());
    assert!(p.sorted_hashes().is_empty());
}

#[test]
fn proof_keeps_leaf_and_path_order() {
    let c = chain();
    let p = Proof::new(c.leaf, c.siblings.to_vec());
    assert_eq!(p.leaf_hash(), c.leaf);
    assert_eq!(p.sorted_hashes(), &c.siblings.to_vec());
    assert_eq!(p.clone(), p);
}

#[test]
fn proofs_differ_by_leaf_path_and_order() {
    let c = chain();
    let p = Proof::new(c.leaf, c.siblings.to_vec());
    assert_ne!(p, Proof::new(flipped(c.leaf, 3), c.siblings.to_vec()));
    assert_ne!(p, Proof::new(c.leaf, c.siblings[..2].to_vec()));
    let mut swapped = c.siblings.to_vec();
    swapped.swap(0, 2);
    assert_ne!(p, Proof::new(c.leaf, swapped));
    let mut touched = c.siblings.to_vec();
    touched[2] = flipped(touched[2], 31);
    assert_ne!(p, Proof::new(c.leaf, touched));
    assert_eq!(p, Proof::new(c.leaf, c.siblings.to_vec()));
    assert_eq!(Proof::default(), Proof::new(Digest::default(), vec![]));
}

#[test]
fn hash_of_hashes_left_then_right() {
    let a = digest_of(10);
    let b = digest_of(11);
    let mut bytes = [0u8; 64];
    bytes[..32].copy_from_slice(a.as_bytes());
    bytes[32..].copy_from_slice(b.as_bytes());
    assert_eq!(Mix::hash_of(a, b), Digest::from_bytes(mix(&bytes)));
    assert_eq!(hash_pair::<Mix>(a, b), Mix::hash_of(a, b));
    assert_ne!(Mix::hash_of(a, b), a);
    assert_ne!(Mix::hash_of(a, b), b);
}

#[test]
fn hash_of_is_order_sensitive() {
    let a = digest_of(10);
    let b = digest_of(11);
    assert_ne!(Mix::hash_of(a, b), Mix::hash_of(b, a));
    assert_eq!(Mix::hash_of(a, a), Mix::hash_of(a, a));
}

#[test]
fn valid_inclusion_is_accepted() {
    let c = chain();
    let p = Proof::new(c.leaf, c.siblings.to_vec());
    assert!(Mix::validate_proof(c.levels[2], &p));
}

#[test]
fn valid_inclusion_with_one_sibling() {
    let c = chain();
    let p = Proof::new(c.leaf, vec![c.siblings[0]]);
    assert!(Mix::validate_proof(c.levels[0], &p));
}

#[test]
fn leaf_equal_to_root_needs_no_path() {
    let root = digest_of(9);
    assert!(Mix::validate_proof(root, &Proof::new(root, vec![])));
    assert!(!Mix::validate_proof(root, &Proof::new(digest_of(8), vec![])));
}

#[test]
fn path_that_passes_the_root_is_accepted_at_the_root() {
    let c = chain();
    let mut path = c.siblings.to_vec();
    path.push(digest_of(50));
    assert!(Mix::validate_proof(c.levels[2], &Proof::new(c.leaf, path)));
}

#[test]
fn tampered_leaf_is_refused() {
    let c = chain();
    for at in [0usize, 13, 31] {
        let p = Proof::new(flipped(c.leaf, at), c.siblings.to_vec());
        assert!(!Mix::validate_proof(c.levels[2], &p));
    }
}

#[test]
fn tampered_sibling_is_refused() {
    let c = chain();
    for which in 0..3 {
        let mut path = c.siblings.to_vec();
        path[which] = flipped(path[which], 5);
        assert!(!Mix::validate_proof(c.levels[2], &Proof::new(c.leaf, path)));
    }
}

#[test]
fn swapped_siblings_are_refused() {
    let c = chain();
    let mut path = c.siblings.to_vec();
    path.swap(0, 1);
    assert!(!Mix::validate_proof(c.levels[2], &Proof::new(c.leaf, path)));
    let mut path = c.siblings.to_vec();
    path.swap(1, 2);
    assert!(!Mix::validate_proof(c.levels[2], &Proof::new(c.leaf, path)));
}

#[test]
fn short_path_is_refused() {
    let c = chain();
    let p = Proof::new(c.leaf, c.siblings[..2].to_vec());
    assert!(!Mix::validate_proof(c.levels[2], &p));
}

#[test]
fn empty_batch_is_refused() {
    assert!(!Mix::validate_proofs(digest_of(1), &vec![]));
    assert!(!Mix::validate_proofs(Digest::default(), &vec![]));
    assert!(!Picky::validate_proofs(digest_of(1), &vec![]));
}

#[test]
fn unrecognised_root_refuses_everything() {
    let zero = Digest::default();
    let p = Proof::new(zero, vec![]);
    // The leaf equals the root, so only the root's rejection can refuse it.
    assert!(Mix::validate_proof(zero, &p));
    assert!(!Picky::validate_proof(zero, &p));
    assert!(!Picky::validate_proofs(zero, &vec![p.clone()]));
    let c = chain();
    assert!(Picky::validate_proof(c.levels[2], &Proof::new(c.leaf, c.siblings.to_vec())));
}

#[test]
fn walk_records_siblings_and_parents() {
    let c = chain();
    let mut cache = vec![c.levels[2]];
    let p = Proof::new(c.leaf, c.siblings.to_vec());
    assert!(validate_proof::<Mix>(&mut cache, &p));
    assert_eq!(
        cache,
        vec![c.levels[2], c.siblings[0], c.levels[0], c.siblings[1], c.levels[1], c.siblings[2]]
    );
}

#[test]
fn failed_walk_records_the_whole_path() {
    let c = chain();
    let root = digest_of(99);
    let mut cache = vec![root];
    let p = Proof::new(c.leaf, c.siblings.to_vec());
    assert!(!validate_proof::<Mix>(&mut cache, &p));
    assert_eq!(
        cache,
        vec![
            root,
            c.siblings[0],
            c.levels[0],
            c.siblings[1],
            c.levels[1],
            c.siblings[2],
            c.levels[2]
        ]
    );
}

#[test]
fn trusted_leaf_leaves_the_cache_alone() {
    let c = chain();
    let mut cache = vec![c.levels[2], c.leaf];
    let p = Proof::new(c.leaf, c.siblings.to_vec());
    assert!(validate_proof::<Mix>(&mut cache, &p));
    assert_eq!(cache, vec![c.levels[2], c.leaf]);
}

#[test]
fn is_trusted_finds_exactly_what_the_cache_holds() {
    let cache = vec![digest_of(1), digest_of(2)];
    assert!(is_trusted(&cache, &digest_of(1)));
    assert!(is_trusted(&cache, &digest_of(2)));
    assert!(!is_trusted(&cache, &digest_of(3)));
    assert!(!is_trusted(&vec![], &digest_of(1)));
}

#[test]
fn second_proof_stops_at_a_cached_ancestor() {
    let c = chain();
    // Another leaf under the same first parent would need the same upper
    // siblings; with the parent cached it needs none of them.
    let other_leaf = digest_of(20);
    let other_sibling = digest_of(21);
    let shared = pair(other_leaf, other_sibling);
    let root = pair(pair(shared, c.siblings[1]), c.siblings[2]);
    let first = Proof::new(other_leaf, vec![other_sibling, c.siblings[1], c.siblings[2]]);
    let shortcut = Proof::new(shared, vec![]);
    let partial = Proof::new(pair(shared, c.siblings[1]), vec![]);

    assert!(!Mix::validate_proof(root, &shortcut));
    assert!(!Mix::validate_proof(root, &partial));

    let mut cache = Mix::initial_matches(root).unwrap();
    assert!(validate_proof::<Mix>(&mut cache, &first));
    let size = cache.len();
    assert!(validate_proof::<Mix>(&mut cache, &shortcut));
    assert!(validate_proof::<Mix>(&mut cache, &partial));
    assert_eq!(cache.len(), size);
}

#[test]
fn second_proof_joins_the_first_half_way() {
    let c = chain();
    // A second chain that reaches the first one's second level from another
    // leaf.
    let leaf = digest_of(30);
    let sibling = digest_of(31);
    let mut cache = vec![c.levels[2]];
    assert!(validate_proof::<Mix>(&mut cache, &Proof::new(c.leaf, c.siblings.to_vec())));
    // Its own walk ends at a digest that nobody trusts.
    assert!(!validate_proof::<Mix>(&mut cache.clone(), &Proof::new(leaf, vec![sibling])));
    // A walk whose first parent is a cached level succeeds after one step.
    let before = cache.len();
    let joins = Proof::new(c.leaf, vec![c.siblings[0], digest_of(77)]);
    assert!(validate_proof::<Mix>(&mut cache, &joins));
    assert_eq!(cache.len(), before + 1);
}

#[test]
fn batch_of_valid_proofs_holds() {
    let c = chain();
    let full = Proof::new(c.leaf, c.siblings.to_vec());
    let upper = Proof::new(c.levels[0], c.siblings[1..].to_vec());
    assert!(Mix::validate_proofs(c.levels[2], &vec![full.clone()]));
    assert!(Mix::validate_proofs(c.levels[2], &vec![full, upper]));
}

#[test]
fn batch_with_one_bad_proof_fails() {
    let c = chain();
    let full = Proof::new(c.leaf, c.siblings.to_vec());
    let bad = Proof::new(digest_of(40), vec![digest_of(41)]);
    assert!(!Mix::validate_proofs(c.levels[2], &vec![full.clone(), bad.clone()]));
    assert!(!Mix::validate_proofs(c.levels[2], &vec![bad.clone(), full.clone()]));
    assert!(!Mix::validate_proofs(c.levels[2], &vec![full.clone(), bad, full]));
}

#[test]
fn batch_order_decides_what_is_cached() {
    let c = chain();
    let full = Proof::new(c.leaf, c.siblings.to_vec());
    let shortcut = Proof::new(c.levels[0], vec![]);
    assert!(Mix::validate_proofs(c.levels[2], &vec![full.clone(), shortcut.clone()]));
    assert!(!Mix::validate_proofs(c.levels[2], &vec![shortcut, full]));
}

#[test]
fn batch_checks_every_proof_after_a_failure() {
    let c = chain();
    // The first proof fails, yet what it cached lets the second one succeed;
    // the batch as a whole still fails.
    let failing = Proof::new(digest_of(60), vec![digest_of(61)]);
    let rides = Proof::new(digest_of(61), vec![]);
    let mut cache = vec![c.levels[2]];
    assert!(!validate_proof::<Mix>(&mut cache, &failing));
    assert!(validate_proof::<Mix>(&mut cache, &rides));
    assert!(!Mix::validate_proofs(c.levels[2], &vec![failing, rides]));
}

#[test]
fn bundle_hashes_address_then_leaves() {
    let addr = [7u8; 20];
    let a = Proof::new(digest_of(1), vec![digest_of(2)]);
    let b = Proof::new(digest_of(3), vec![]);
    let mut bytes = addr.to_vec();
    bytes.extend_from_slice(digest_of(1).as_bytes());
    bytes.extend_from_slice(digest_of(3).as_bytes());
    assert_eq!(bytes.len(), 84);
    assert_eq!(Mix::bundled_hash(vec![a, b], addr), Digest::from_bytes(mix(&bytes)));
}

#[test]
fn bundle_of_no_proofs_hashes_the_address() {
    let addr = [9u8; 20];
    assert_eq!(Mix::bundled_hash(vec![], addr), Digest::from_bytes(mix(&addr)));
}

#[test]
fn bundle_is_repeatable() {
    let addr = [1u8; 20];
    let proofs = vec![Proof::new(digest_of(1), vec![]), Proof::new(digest_of(2), vec![digest_of(5)])];
    assert_eq!(Mix::bundled_hash(proofs.clone(), addr), Mix::bundled_hash(proofs, addr));
}

#[test]
fn bundle_ignores_paths() {
    let addr = [1u8; 20];
    let with_path = vec![Proof::new(digest_of(1), vec![digest_of(5)])];
    let bare = vec![Proof::new(digest_of(1), vec![])];
    assert_eq!(Mix::bundled_hash(with_path, addr), Mix::bundled_hash(bare, addr));
}

#[test]
fn bundle_depends_on_order_and_address() {
    let addr = [1u8; 20];
    let a = Proof::new(digest_of(1), vec![]);
    let b = Proof::new(digest_of(2), vec![]);
    let ab = Mix::bundled_hash(vec![a.clone(), b.clone()], addr);
    let ba = Mix::bundled_hash(vec![b.clone(), a.clone()], addr);
    assert_ne!(ab, ba);
    for at in [0usize, 19] {
        let mut other = addr;
        other[at] ^= 1;
        assert_ne!(Mix::bundled_hash(vec![a.clone(), b.clone()], other), ab);
    }
}
