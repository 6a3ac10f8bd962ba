use blocksim::identity::compute_identity;
use blocksim::ledger::Block;
use blocksim::ledger::Ledger;

fn chain(ledger: &mut Ledger, from: usize, miners: &[usize]) -> Vec<usize> {
    let mut ids = Vec::new();
    let mut tip = from;
    for (k, miner) in miners.iter().enumerate() {
        let height = ledger.height(tip) + 1;
        tip = Block::new(ledger, height, 100 + k, Some(tip), Some(*miner));
        ids.push(tip);
    }
    ids
}

#[test]
fn new_ledger_is_empty() {
    let ledger = Ledger::new();
    assert_eq!(ledger.len(), 0);
}

#[test]
fn genesis_block_has_no_parent_and_no_miner() {
    let mut ledger = Ledger::new();
    let g = Block::new(&mut ledger, 0, 0, None, None);
    assert_eq!(g, 0);
    assert_eq!(ledger.len(), 1);
    let block = ledger.block(g);
    assert_eq!(block.height, 0);
    assert_eq!(block.time, 0);
    assert_eq!(block.miner_id, None);
    assert_eq!(block.parent, None);
    assert_eq!(block.parent_hash, [0u8; 32]);
    assert_eq!(block.hash, compute_identity(0, None, &[0u8; 32]));
    assert_eq!(ledger.parent(g), None);
    assert_eq!(ledger.height(g), 0);
}

#[test]
fn child_block_points_at_its_parent() {
    let mut ledger = Ledger::new();
    let g = Block::new(&mut ledger, 0, 0, None, None);
    let c = Block::new(&mut ledger, 1, 42, Some(g), Some(7));
    assert_eq!(c, 1);
    assert_eq!(ledger.len(), 2);
    let genesis_hash = ledger.hash(g);
    let block = ledger.block(c);
    assert_eq!(block.height, 1);
    assert_eq!(block.time, 42);
    assert_eq!(block.miner_id, Some(7));
    assert_eq!(block.parent, Some(g));
    assert_eq!(block.parent_hash, genesis_hash);
    assert_eq!(block.hash, compute_identity(1, Some(7), &genesis_hash));
    assert_eq!(ledger.parent_hash(c), genesis_hash);
    assert!(ledger.is_mined_by(c, 7));
    assert!(!ledger.is_mined_by(c, 8));
    assert!(!ledger.is_mined_by(g, 0));
}

#[test]
fn parent_links_reach_genesis_in_as_many_steps_as_the_height() {
    let mut ledger = Ledger::new();
    let g = Block::new(&mut ledger, 0, 0, None, None);
    let main = chain(&mut ledger, g, &[0, 1, 2, 0, 1, 2, 0]);
    let fork = chain(&mut ledger, main[2], &[1, 1, 1]);
    let far = chain(&mut ledger, fork[0], &[2]);
    let mut all = vec![g];
    all.extend(main);
    all.extend(fork);
    all.extend(far);
    for start in all {
        let mut seen = Vec::new();
        let mut at = start;
        let mut steps = 0usize;
        while let Some(parent) = ledger.parent(at) {
            assert!(!seen.contains(&at));
            seen.push(at);
            assert_eq!(ledger.height(parent) + 1, ledger.height(at));
            at = parent;
            steps += 1;
        }
        assert_eq!(at, g);
        assert_eq!(steps, ledger.height(start));
    }
}

#[test]
fn blocks_in_chain_counts_a_miners_blocks_below_the_tip() {
    let mut ledger = Ledger::new();
    let g = Block::new(&mut ledger, 0, 0, None, None);
    let main = chain(&mut ledger, g, &[0, 1, 0, 0, 2]);
    let fork = chain(&mut ledger, main[1], &[2, 2]);
    let tip = main[4];
    assert_eq!(ledger.blocks_in_chain(tip, 0), 3);
    assert_eq!(ledger.blocks_in_chain(tip, 1), 1);
    assert_eq!(ledger.blocks_in_chain(tip, 2), 1);
    assert_eq!(ledger.blocks_in_chain(tip, 3), 0);
    assert_eq!(ledger.blocks_in_chain(fork[1], 0), 1);
    assert_eq!(ledger.blocks_in_chain(fork[1], 1), 1);
    assert_eq!(ledger.blocks_in_chain(fork[1], 2), 2);
    assert_eq!(ledger.blocks_in_chain(g, 0), 0);
}

#[test]
fn blocks_in_chain_does_not_count_the_genesis_block() {
    let mut ledger = Ledger::new();
    let g = Block::new(&mut ledger, 0, 0, None, Some(5));
    let c = Block::new(&mut ledger, 1, 1, Some(g), Some(5));
    assert_eq!(ledger.blocks_in_chain(g, 5), 0);
    assert_eq!(ledger.blocks_in_chain(c, 5), 1);
}

#[test]
fn chain_lists_the_way_to_the_genesis_block() {
    let mut ledger = Ledger::new();
    let g = Block::new(&mut ledger, 0, 0, None, None);
    let main = chain(&mut ledger, g, &[0, 1, 0, 0, 2]);
    let fork = chain(&mut ledger, main[1], &[2, 2]);
    assert_eq!(ledger.chain(g), vec![g]);
    assert_eq!(ledger.chain(main[0]), vec![main[0], g]);
    assert_eq!(ledger.chain(main[4]), vec![main[4], main[3], main[2], main[1], main[0], g]);
    assert_eq!(ledger.chain(fork[1]), vec![fork[1], fork[0], main[1], main[0], g]);
    for id in 0..ledger.len() {
        let path = ledger.chain(id);
        assert_eq!(path.len(), ledger.height(id) + 1);
        assert_eq!(path[0], id);
        assert_eq!(path[path.len() - 1], g);
        for k in 1..path.len() {
            assert_eq!(ledger.parent(path[k - 1]), Some(path[k]));
        }
    }
}
