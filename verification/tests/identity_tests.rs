use blocksim::identity::compute_identity;
use blocksim::identity::zero_identity;
use blocksim::ledger::Block;
use blocksim::ledger::Ledger;
use sha2::Digest;
use sha2::Sha256;

const GENESIS: [u8; 32] = [
    188, 33, 55, 244, 70, 155, 77, 220, 157, 151, 208, 159, 101, 82, 16, 83, 48, 170, 87, 17, 226, 56, 187, 144, 4,
    30, 130, 217, 136, 244, 23, 178,
];

const CHILD_OF_GENESIS_BY_MINER_0: [u8; 32] = [
    43, 57, 112, 92, 55, 145, 113, 230, 229, 61, 169, 34, 100, 207, 66, 181, 137, 110, 198, 231, 87, 1, 123, 242,
    192, 254, 94, 170, 228, 206, 76, 122,
];

const GRANDCHILD_BY_MINER_1: [u8; 32] = [
    192, 57, 92, 97, 114, 14, 229, 2, 224, 171, 61, 22, 207, 200, 84, 121, 215, 108, 228, 149, 135, 69, 201, 51, 71,
    75, 44, 206, 250, 196, 83, 186,
];

fn incremental(height: usize, miner_id: Option<usize>, parent_hash: [u8; 32]) -> [u8; 32] {
    let mut hasher = Sha256::new();
    hasher.update(height.to_le_bytes());
    hasher.update((miner_id.unwrap_or(usize::MAX) as u64).to_le_bytes());
    hasher.update(parent_hash);
    hasher.finalize().into()
}

#[test]
fn zero_identity_is_thirty_two_zero_bytes() {
    assert_eq!(zero_identity(), [0u8; 32]);
}

#[test]
fn genesis_identity_has_its_exact_value() {
    assert_eq!(compute_identity(0, None, &[0u8; 32]), GENESIS);
}

#[test]
fn child_identities_have_their_exact_values() {
    assert_eq!(compute_identity(1, Some(0), &GENESIS), CHILD_OF_GENESIS_BY_MINER_0);
    assert_eq!(compute_identity(2, Some(1), &CHILD_OF_GENESIS_BY_MINER_0), GRANDCHILD_BY_MINER_1);
}

#[test]
fn identity_is_not_its_input() {
    let parent = [5u8; 32];
    let hash = compute_identity(3, Some(2), &parent);
    assert_ne!(hash, parent);
    assert_ne!(hash, [0u8; 32]);
}

#[test]
fn identity_matches_hashing_the_three_parts_in_order() {
    let mut parent = [0u8; 32];
    for height in 0..20usize {
        for miner in [None, Some(0usize), Some(1), Some(17), Some(usize::MAX - 1)] {
            let expected = incremental(height, miner, parent);
            assert_eq!(compute_identity(height, miner, &parent), expected);
            parent = expected;
        }
    }
}

#[test]
fn no_miner_is_hashed_as_the_largest_identifier() {
    let parent = [9u8; 32];
    assert_eq!(compute_identity(4, None, &parent), compute_identity(4, Some(usize::MAX), &parent));
}

#[test]
fn identity_depends_on_height_miner_and_parent() {
    let parent = [1u8; 32];
    let other_parent = [2u8; 32];
    let base = compute_identity(5, Some(3), &parent);
    assert_ne!(base, compute_identity(6, Some(3), &parent));
    assert_ne!(base, compute_identity(5, Some(4), &parent));
    assert_ne!(base, compute_identity(5, Some(3), &other_parent));
    assert_eq!(base, compute_identity(5, Some(3), &parent));
}

#[test]
fn identity_ignores_the_time_of_a_block() {
    let mut early = Ledger::new();
    let g1 = Block::new(&mut early, 0, 0, None, None);
    let a = Block::new(&mut early, 1, 10, Some(g1), Some(2));
    let mut late = Ledger::new();
    let g2 = Block::new(&mut late, 0, 0, None, None);
    let b = Block::new(&mut late, 1, 99, Some(g2), Some(2));
    assert_eq!(early.block(a).time, 10);
    assert_eq!(late.block(b).time, 99);
    assert_eq!(early.hash(a), late.hash(b));
}

#[test]
fn two_blocks_alike_but_for_time_collide_in_one_ledger() {
    let mut ledger = Ledger::new();
    let g = Block::new(&mut ledger, 0, 0, None, None);
    let a = Block::new(&mut ledger, 1, 3, Some(g), Some(0));
    let b = Block::new(&mut ledger, 1, 4, Some(g), Some(0));
    assert_ne!(a, b);
    assert_eq!(ledger.hash(a), ledger.hash(b));
}
