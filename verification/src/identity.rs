//! Content addresses of blocks.
//!
//! The identity of a block is the SHA-256 digest of its height, the tag of
//! its miner and the identity of its parent. The time at which a block was
//! found is not part of it.

use sha2::Digest;
use sha2::Sha256;
use vstd::bytes::spec_u64_to_le_bytes;
use vstd::bytes::u64_to_le_bytes;
use vstd::prelude::*;

verus! {

/// What SHA-256 makes of a sequence of bytes.
pub uninterp spec fn sha256(data: Seq<u8>) -> Seq<u8>;

/// The identity that stands for "no parent": thirty-two zero bytes.
pub open spec fn zero_hash() -> Seq<u8> {
    Seq::new(32, |i: int| 0u8)
}

/// The number hashed in place of the miner: its identifier, or the largest
/// identifier there is for a block that nobody mined.
pub open spec fn miner_tag(miner_id: Option<usize>) -> u64 {
    match miner_id {
        Some(id) => id as u64,
        None => usize::MAX as u64,
    }
}

/// The bytes that are hashed: the height and the miner's tag, each as eight
/// little-endian bytes, then the parent's identity.
pub open spec fn identity_preimage(height: usize, miner_id: Option<usize>, parent_hash: Seq<u8>) -> Seq<u8> {
    spec_u64_to_le_bytes(height as u64) + spec_u64_to_le_bytes(miner_tag(miner_id)) + parent_hash
}

/// The identity of the block with this height, miner and parent.
pub open spec fn block_identity(height: usize, miner_id: Option<usize>, parent_hash: Seq<u8>) -> Seq<u8> {
    sha256(identity_preimage(height, miner_id, parent_hash))
}

/// Calls `sha2::Sha256::digest` (the `Digest` trait's one-shot function).
/// The contract gives the digest the name `sha256` of the bytes handed in;
/// nothing else is claimed of it.
#[verifier::external_body]
fn sha256_digest(data: &Vec<u8>) -> (digest: [u8; 32])
    ensures
        digest@ == sha256(data@),
{
    Sha256::digest(data).into()
}

/// Thirty-two zero bytes.
pub fn zero_identity() -> (hash: [u8; 32])
    ensures
        hash@ == zero_hash(),
{
    let hash = [0u8; 32];
    assert(hash@ =~= zero_hash());
    hash
}

/// Computes the identity of the block with this height, miner and parent.
pub fn compute_identity(height: usize, miner_id: Option<usize>, parent_hash: &[u8; 32]) -> (hash: [u8; 32])
    ensures
        hash@ == block_identity(height, miner_id, parent_hash@),
{
    let tag: u64 = match miner_id {
        Some(id) => id as u64,
        None => usize::MAX as u64,
    };
    let mut data = u64_to_le_bytes(height as u64);
    let mut tag_bytes = u64_to_le_bytes(tag);
    data.append(&mut tag_bytes);
    let ghost head = data@;
    let mut i: usize = 0;
    while i < 32
        invariant
            i <= 32,
            data@ == head + parent_hash@.take(i as int),
        decreases 32 - i,
    {
        data.push(parent_hash[i]);
        assert(parent_hash@.take(i + 1) =~= parent_hash@.take(i as int).push(parent_hash@[i as int]));
        i = i + 1;
    }
    assert(parent_hash@.take(32) =~= parent_hash@);
    sha256_digest(&data)
}

} // verus!
