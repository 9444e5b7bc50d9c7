//! The byte format of a proof: the 32 bytes of the leaf, the number of
//! siblings as a compact integer, then the 32 bytes of each sibling.

use vstd::prelude::*;
use vstd::slice::slice_subrange;
use parity_scale_codec::{Compact, Decode, Encode};
use crate::digest::Digest;
use crate::helpers::append_bytes;
use crate::inclusion::{digest_views, Proof, ProofView};
use crate::laws::lemma_joined_layout;
use crate::model::joined;

verus! {

/// The compact encoding of a 32-bit number: one, two or four bytes for a
/// number below 2^6, 2^14 or 2^30, whose lowest two bits tell the three
/// apart and whose other bits hold the number, lowest byte first; for any
/// larger number the byte 3 and the four bytes of the number, lowest first.
pub open spec fn compact_u32(value: u32) -> Seq<u8> {
    if value < 64 {
        seq![(4 * value) as u8]
    } else if value < 16384 {
        let v = 4 * value + 1;
        seq![(v % 256) as u8, (v / 256) as u8]
    } else if value < 1073741824 {
        let v = 4 * value + 2;
        seq![
            (v % 256) as u8,
            (v / 256 % 256) as u8,
            (v / 65536 % 256) as u8,
            (v / 16777216) as u8,
        ]
    } else {
        seq![
            3u8,
            (value % 256) as u8,
            (value / 256 % 256) as u8,
            (value / 65536 % 256) as u8,
            (value / 16777216) as u8,
        ]
    }
}

/// The number that four bytes hold, lowest byte first.
pub open spec fn le_u32(b0: u8, b1: u8, b2: u8, b3: u8) -> int {
    b0 + 256 * b1 + 65536 * b2 + 16777216 * b3
}

/// Reads a compact 32-bit number from the front of `input`: the number and
/// the bytes after it, or `None` where the bytes run out, where the number
/// was not written in its shortest form, or where it does not fit 32 bits.
pub open spec fn compact_prefix(input: Seq<u8>) -> Option<(u32, Seq<u8>)> {
    if input.len() < 1 {
        None
    } else if input[0] % 4 == 0 {
        Some(((input[0] / 4) as u32, input.skip(1)))
    } else if input[0] % 4 == 1 {
        if input.len() < 2 {
            None
        } else {
            let x = (input[0] + 256 * input[1]) / 4;
            if 63 < x <= 16383 {
                Some((x as u32, input.skip(2)))
            } else {
                None
            }
        }
    } else if input[0] % 4 == 2 {
        if input.len() < 4 {
            None
        } else {
            let x = le_u32(input[0], input[1], input[2], input[3]) / 4;
            if 16383 < x <= 1073741823 {
                Some((x as u32, input.skip(4)))
            } else {
                None
            }
        }
    } else {
        if input[0] / 4 != 0 || input.len() < 5 {
            None
        } else {
            let x = le_u32(input[1], input[2], input[3], input[4]);
            if 1073741823 < x {
                Some((x as u32, input.skip(5)))
            } else {
                None
            }
        }
    }
}

/// The bytes that a proof is written as.
pub open spec fn encoded(proof: ProofView) -> Seq<u8> {
    proof.leaf + compact_u32(proof.path.len() as u32) + joined(
        proof.path,
        proof.path.len() as int,
    )
}

/// Why bytes could not be read as a proof.
#[derive(Clone, Copy, Debug, PartialEq, Eq)]
pub enum WireError {
    /// Fewer than 32 bytes: no room for the leaf.
    TruncatedLeaf,
    /// The number of siblings is cut short, not in its shortest form, or too
    /// large.
    BadLength,
    /// Fewer bytes than the announced siblings take.
    TruncatedPath,
}

/// What reading a proof from the front of `bytes` gives: the proof and the
/// bytes after it, or the reason why there is none.
pub open spec fn parsed(bytes: Seq<u8>) -> Result<(ProofView, Seq<u8>), WireError> {
    if bytes.len() < 32 {
        Err(WireError::TruncatedLeaf)
    } else {
        match compact_prefix(bytes.skip(32)) {
            None => Err(WireError::BadLength),
            Some((count, rest)) => if rest.len() < 32 * count {
                Err(WireError::TruncatedPath)
            } else {
                Ok(
                    (
                        ProofView {
                            leaf: bytes.take(32),
                            path: Seq::new(
                                count as nat,
                                |i: int| rest.subrange(32 * i, 32 * i + 32),
                            ),
                        },
                        rest.skip(32 * count),
                    ),
                )
            },
        }
    }
}

/// `Encode::encode` of parity-scale-codec for `Compact<u32>`: the bytes are
/// those of `compact_u32`, arm for arm as the codec writes them.
#[verifier::external_body]
fn compact_u32_bytes(value: u32) -> (out: Vec<u8>)
    ensures
        out@ == compact_u32(value),
{
    Compact(value).encode()
}

/// `Decode::decode` of parity-scale-codec for `Compact<u32>` on a byte
/// slice: the number and the unread rest are those of `compact_prefix`, and
/// every error of the codec is `None`.
#[verifier::external_body]
fn read_compact_u32(input: &[u8]) -> (out: Option<(u32, &[u8])>)
    ensures
        match out {
            Some((value, rest)) => compact_prefix(input@) == Some((value, rest@)),
            None => compact_prefix(input@) is None,
        },
{
    let mut rest = input;
    match Compact::<u32>::decode(&mut rest) {
        Ok(compact) => Some((compact.0, rest)),
        Err(_) => None,
    }
}

/// The digest that stands at `at` in `bytes`.
fn digest_at(bytes: &[u8], at: usize) -> (digest: Digest)
    requires
        at + 32 <= bytes@.len(),
    ensures
        digest@ == bytes@.subrange(at as int, at + 32),
{
    let len = bytes.len();
    let mut raw = [0u8; 32];
    let mut j: usize = 0;
    while j < 32
        invariant
            j <= 32,
            at + 32 <= bytes@.len() == len,
            forall|m: int| 0 <= m < j ==> raw@[m] == bytes@[at + m],
        decreases 32 - j,
    {
        raw[j] = bytes[at + j];
        j += 1;
    }
    assert(raw@ =~= bytes@.subrange(at as int, at + 32));
    Digest::from_bytes(raw)
}

impl Proof {
    /// Writes the proof as bytes: the leaf, the compact number of siblings,
    /// the siblings.
    pub fn encode(&self) -> (out: Vec<u8>)
        requires
            self@.path.len() <= u32::MAX,
        ensures
            out@ == encoded(self@),
    {
        let path = self.sorted_hashes();
        let ghost parts = digest_views(path@);
        let mut out: Vec<u8> = Vec::new();
        append_bytes(&mut out, self.leaf_hash().as_slice());
        let count = compact_u32_bytes(path.len() as u32);
        append_bytes(&mut out, count.as_slice());
        let ghost head = out@;
        assert(head =~= self@.leaf + compact_u32(parts.len() as u32));
        let mut i: usize = 0;
        while i < path.len()
            invariant
                i <= path.len(),
                parts == digest_views(path@),
                out@ == head + joined(parts, i as int),
            decreases path.len() - i,
        {
            append_bytes(&mut out, path[i].as_slice());
            assert(out@ =~= head + joined(parts, i + 1));
            i += 1;
        }
        out
    }

    /// Reads a proof from the front of `bytes` and returns it with the bytes
    /// that follow it.
    pub fn decode(bytes: &[u8]) -> (out: Result<(Proof, &[u8]), WireError>)
        ensures
            match out {
                Ok((proof, rest)) => parsed(bytes@) == Ok::<(ProofView, Seq<u8>), WireError>(
                    (proof@, rest@),
                ),
                Err(e) => parsed(bytes@) == Err::<(ProofView, Seq<u8>), WireError>(e),
            },
    {
        if bytes.len() < 32 {
            return Err(WireError::TruncatedLeaf);
        }
        let leaf = digest_at(bytes, 0);
        assert(bytes@.subrange(0, 32) =~= bytes@.take(32));
        let after_leaf = slice_subrange(bytes, 32, bytes.len());
        assert(after_leaf@ =~= bytes@.skip(32));
        match read_compact_u32(after_leaf) {
            None => Err(WireError::BadLength),
            Some((count, rest)) => {
                let n: usize = count as usize;
                if rest.len() / 32 < n {
                    return Err(WireError::TruncatedPath);
                }
                let len = rest.len();
                let mut path: Vec<Digest> = Vec::new();
                let mut i: usize = 0;
                while i < n
                    invariant
                        i <= n,
                        32 * n <= rest@.len() == len,
                        path@.len() == i,
                        forall|m: int|
                            0 <= m < i ==> (#[trigger] path@[m])@ == rest@.subrange(
                                32 * m,
                                32 * m + 32,
                            ),
                    decreases n - i,
                {
                    path.push(digest_at(rest, 32 * i));
                    i += 1;
                }
                let tail = slice_subrange(rest, 32 * n, rest.len());
                assert(tail@ =~= rest@.skip(32 * count));
                let proof = Proof::new(leaf, path);
                assert(proof@.path =~= Seq::new(
                    count as nat,
                    |i: int| rest@.subrange(32 * i, 32 * i + 32),
                ));
                Ok((proof, tail))
            },
        }
    }
}

/// Whether a proof has a 32-byte leaf, 32-byte siblings, and no more
/// siblings than a 32-bit number counts: what every `Proof` with at most
/// that many siblings satisfies.
pub open spec fn well_sized(proof: ProofView) -> bool {
    &&& proof.leaf.len() == 32
    &&& proof.path.len() <= u32::MAX
    &&& forall|i: int| 0 <= i < proof.path.len() ==> (#[trigger] proof.path[i]).len() == 32
}

/// A number below 2^32 is the sum of its four bytes, each at its weight.
proof fn lemma_four_bytes(v: int)
    requires
        0 <= v < 4294967296,
    ensures
        0 <= v / 16777216 < 256,
        le_u32(
            (v % 256) as u8,
            (v / 256 % 256) as u8,
            (v / 65536 % 256) as u8,
            (v / 16777216) as u8,
        ) == v,
        (v % 256) % 4 == v % 4,
{
    let b0 = v % 256;
    let r1 = v / 256;
    let b1 = r1 % 256;
    let r2 = r1 / 256;
    let b2 = r2 % 256;
    let b3 = r2 / 256;
    assert(v == 256 * r1 + b0);
    assert(r1 == 256 * r2 + b1);
    assert(r2 == 256 * b3 + b2);
    assert(r2 == v / 65536);
    assert(b3 == v / 16777216);
}

/// A number below 2^16 is the sum of its two bytes, each at its weight.
proof fn lemma_two_bytes(v: int)
    requires
        0 <= v < 65536,
    ensures
        0 <= v / 256 < 256,
        (v % 256) + 256 * (v / 256) == v,
        (v % 256) % 4 == v % 4,
{
}

/// A compact number is read back as it was written, whatever follows it.
pub proof fn lemma_compact_round_trip(value: u32, tail: Seq<u8>)
    ensures
        compact_prefix(compact_u32(value) + tail) == Some((value, tail)),
{
    let written = compact_u32(value);
    let input = written + tail;
    if value < 64 {
        let b0 = (4 * value) as u8;
        assert(written == seq![b0]);
        assert(input[0] == b0);
        assert(b0 % 4 == 0 && b0 / 4 == value);
        assert(input.skip(1) =~= tail);
    } else if value < 16384 {
        let v = 4 * value + 1;
        lemma_two_bytes(v);
        let b0 = (v % 256) as u8;
        let b1 = (v / 256) as u8;
        assert(written == seq![b0, b1]);
        assert(input[0] == b0 && input[1] == b1);
        assert(b0 % 4 == 1);
        assert((b0 + 256 * b1) / 4 == value);
        assert(input.skip(2) =~= tail);
    } else if value < 1073741824 {
        let v = 4 * value + 2;
        lemma_four_bytes(v);
        let b0 = (v % 256) as u8;
        let b1 = (v / 256 % 256) as u8;
        let b2 = (v / 65536 % 256) as u8;
        let b3 = (v / 16777216) as u8;
        assert(written == seq![b0, b1, b2, b3]);
        assert(input[0] == b0 && input[1] == b1 && input[2] == b2 && input[3] == b3);
        assert(b0 % 4 == 2);
        assert(le_u32(b0, b1, b2, b3) / 4 == value);
        assert(input.skip(4) =~= tail);
    } else {
        let v = value as int;
        lemma_four_bytes(v);
        let b1 = (v % 256) as u8;
        let b2 = (v / 256 % 256) as u8;
        let b3 = (v / 65536 % 256) as u8;
        let b4 = (v / 16777216) as u8;
        assert(written == seq![3u8, b1, b2, b3, b4]);
        assert(input[0] == 3u8 && input[1] == b1 && input[2] == b2 && input[3] == b3 && input[4]
            == b4);
        assert(le_u32(b1, b2, b3, b4) == value);
        assert(input.skip(5) =~= tail);
    }
}

/// Reading what was written gives the proof back, together with whatever
/// followed it.
pub proof fn lemma_wire_round_trip(proof: ProofView, tail: Seq<u8>)
    requires
        well_sized(proof),
    ensures
        parsed(encoded(proof) + tail) == Ok::<(ProofView, Seq<u8>), WireError>((proof, tail)),
{
    let count = proof.path.len() as u32;
    let body = joined(proof.path, proof.path.len() as int);
    let bytes = encoded(proof) + tail;
    lemma_joined_layout(proof.path, proof.path.len() as int);
    assert(bytes.take(32) =~= proof.leaf);
    assert(bytes.skip(32) =~= compact_u32(count) + (body + tail));
    lemma_compact_round_trip(count, body + tail);
    let rest = body + tail;
    assert(rest.skip(32 * count) =~= tail);
    let path = Seq::new(count as nat, |i: int| rest.subrange(32 * i, 32 * i + 32));
    assert forall|i: int| 0 <= i < count implies path[i] == proof.path[i] by {
        assert(rest.subrange(32 * i, 32 * i + 32) =~= body.subrange(32 * i, 32 * i + 32));
    }
    assert(path =~= proof.path);
}

/// Every proof is as the byte format needs it, but for the number of its
/// siblings.
pub proof fn lemma_proof_is_well_sized(proof: Proof)
    requires
        proof@.path.len() <= u32::MAX,
    ensures
        well_sized(proof@),
{
    proof.lemma_sizes();
}

} // verus!
