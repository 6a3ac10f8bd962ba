use blocksim::ledger::Block;
use blocksim::ledger::Ledger;
use blocksim::miner::Miner;

const ALWAYS: u64 = u64::MAX;
const NEVER: u64 = 0;

fn setup(id: usize, threshold: u64) -> (Ledger, Miner) {
    let mut ledger = Ledger::new();
    let g = Block::new(&mut ledger, 0, 0, None, None);
    let miner = Miner::new(id, "M", &ledger, g, threshold, [id as u8 + 1; 16]);
    (ledger, miner)
}

fn extend(ledger: &mut Ledger, parent: usize, miner: usize) -> usize {
    let height = ledger.height(parent) + 1;
    Block::new(ledger, height, 0, Some(parent), Some(miner))
}

fn queues(miner: &Miner) -> Vec<Vec<(usize, usize)>> {
    let mut all = Vec::new();
    for i in 0..miner.connection_count() {
        all.push(miner.connection(i).blocks_to_send.iter().map(|e| (e.block, e.tts)).collect());
    }
    all
}

#[test]
fn new_miner_knows_only_the_genesis_block() {
    let (ledger, miner) = setup(3, 17);
    assert_eq!(miner.id(), 3);
    assert_eq!(miner.name().as_str(), "M");
    assert_eq!(miner.threshold(), 17);
    assert_eq!(miner.current_block(), 0);
    assert!(miner.candidates().is_empty());
    assert_eq!(miner.connection_count(), 0);
    assert_eq!(miner.known_count(), 1);
    assert_eq!(miner.orphan_count(), 0);
    assert_eq!(miner.blocks_mined(), 0);
    assert!(miner.knows(&ledger.hash(0)));
    assert!(!miner.is_orphan(&ledger.hash(0)));
    assert!(!miner.needs_draw(&ledger));
}

#[test]
fn add_connection_appends_an_empty_link() {
    let (_ledger, mut miner) = setup(0, NEVER);
    miner.add_connection(1, 0);
    miner.add_connection(2, 5);
    assert_eq!(miner.connection_count(), 2);
    assert_eq!(miner.connection(0).receiver, 1);
    assert_eq!(miner.connection(0).delay, 0);
    assert_eq!(miner.connection(1).receiver, 2);
    assert_eq!(miner.connection(1).delay, 5);
    assert!(miner.connection(0).blocks_to_send.is_empty());
    assert!(miner.connection(1).blocks_to_send.is_empty());
}

#[test]
fn is_mine_compares_the_miner_of_the_block() {
    let (mut ledger, miner) = setup(2, NEVER);
    let own = extend(&mut ledger, 0, 2);
    let other = extend(&mut ledger, 0, 1);
    assert!(miner.is_mine(&ledger, own));
    assert!(!miner.is_mine(&ledger, other));
    assert!(!miner.is_mine(&ledger, 0));
}

#[test]
fn received_block_on_the_tip_becomes_known_and_a_candidate() {
    let (mut ledger, mut miner) = setup(0, NEVER);
    let b = extend(&mut ledger, 0, 1);
    miner.receive_block(&ledger, b);
    assert_eq!(miner.known_count(), 2);
    assert!(miner.knows(&ledger.hash(b)));
    assert_eq!(miner.orphan_count(), 0);
    assert_eq!(miner.candidates(), &vec![b]);
    assert_eq!(miner.current_block(), 0);
}

#[test]
fn received_block_that_is_known_is_ignored() {
    let (mut ledger, mut miner) = setup(0, NEVER);
    let b = extend(&mut ledger, 0, 1);
    miner.receive_block(&ledger, b);
    miner.receive_block(&ledger, b);
    miner.receive_block(&ledger, b);
    assert_eq!(miner.known_count(), 2);
    assert_eq!(miner.orphan_count(), 0);
    assert_eq!(miner.candidates(), &vec![b]);
}

#[test]
fn received_block_without_known_parent_is_held_back() {
    let (mut ledger, mut miner) = setup(0, NEVER);
    let parent = extend(&mut ledger, 0, 1);
    let child = extend(&mut ledger, parent, 1);
    miner.receive_block(&ledger, child);
    assert_eq!(miner.known_count(), 1);
    assert_eq!(miner.orphan_count(), 1);
    assert!(miner.is_orphan(&ledger.hash(child)));
    assert!(!miner.knows(&ledger.hash(child)));
    assert!(miner.candidates().is_empty());
    miner.receive_block(&ledger, child);
    assert_eq!(miner.orphan_count(), 1);
}

#[test]
fn orphans_cascade_in_one_reception() {
    let (mut ledger, mut miner) = setup(0, NEVER);
    let parent = extend(&mut ledger, 0, 1);
    let child = extend(&mut ledger, parent, 1);
    let grandchild = extend(&mut ledger, child, 1);
    miner.receive_block(&ledger, grandchild);
    assert_eq!((miner.known_count(), miner.orphan_count()), (1, 1));
    miner.receive_block(&ledger, child);
    assert_eq!((miner.known_count(), miner.orphan_count()), (1, 2));
    assert!(miner.candidates().is_empty());
    miner.receive_block(&ledger, parent);
    assert_eq!((miner.known_count(), miner.orphan_count()), (4, 0));
    assert!(miner.knows(&ledger.hash(parent)));
    assert!(miner.knows(&ledger.hash(child)));
    assert!(miner.knows(&ledger.hash(grandchild)));
    assert!(!miner.is_orphan(&ledger.hash(child)));
    assert!(!miner.is_orphan(&ledger.hash(grandchild)));
    assert_eq!(miner.candidates(), &vec![parent]);
    miner.receive_block(&ledger, grandchild);
    assert_eq!((miner.known_count(), miner.orphan_count()), (4, 0));
    assert_eq!(miner.candidates(), &vec![parent]);
}

#[test]
fn long_chains_of_orphans_cascade() {
    let (mut ledger, mut miner) = setup(0, NEVER);
    let mut ids = Vec::new();
    let mut tip = 0;
    for _ in 0..40 {
        tip = extend(&mut ledger, tip, 1);
        ids.push(tip);
    }
    for id in ids.iter().skip(1).rev() {
        miner.receive_block(&ledger, *id);
    }
    assert_eq!((miner.known_count(), miner.orphan_count()), (1, 39));
    miner.receive_block(&ledger, ids[0]);
    assert_eq!((miner.known_count(), miner.orphan_count()), (41, 0));
    for id in ids.iter() {
        assert!(miner.knows(&ledger.hash(*id)));
    }
}

#[test]
fn orphans_of_another_branch_stay_held_back() {
    let (mut ledger, mut miner) = setup(0, NEVER);
    let a1 = extend(&mut ledger, 0, 1);
    let a2 = extend(&mut ledger, a1, 1);
    let b1 = extend(&mut ledger, 0, 2);
    let b2 = extend(&mut ledger, b1, 2);
    let b3 = extend(&mut ledger, b2, 2);
    miner.receive_block(&ledger, a2);
    miner.receive_block(&ledger, b3);
    miner.receive_block(&ledger, b2);
    assert_eq!((miner.known_count(), miner.orphan_count()), (1, 3));
    miner.receive_block(&ledger, a1);
    assert_eq!((miner.known_count(), miner.orphan_count()), (3, 2));
    assert!(miner.knows(&ledger.hash(a2)));
    assert!(miner.is_orphan(&ledger.hash(b2)));
    assert!(miner.is_orphan(&ledger.hash(b3)));
    miner.refresh_rejects(&ledger);
    assert_eq!((miner.known_count(), miner.orphan_count()), (3, 2));
    miner.receive_block(&ledger, b1);
    assert_eq!((miner.known_count(), miner.orphan_count()), (6, 0));
}

#[test]
fn received_block_not_above_the_tip_is_no_candidate() {
    let (mut ledger, mut miner) = setup(0, NEVER);
    let a1 = extend(&mut ledger, 0, 1);
    let a2 = extend(&mut ledger, a1, 1);
    let b1 = extend(&mut ledger, 0, 2);
    let b2 = extend(&mut ledger, b1, 2);
    miner.receive_block(&ledger, a1);
    miner.receive_block(&ledger, a2);
    miner.evaluate_candidates_with(&ledger, 0);
    assert_eq!(miner.current_block(), a2);
    miner.receive_block(&ledger, b1);
    miner.receive_block(&ledger, b2);
    assert_eq!(miner.known_count(), 5);
    assert!(miner.candidates().is_empty());
    assert_eq!(miner.current_block(), a2);
}

#[test]
fn fork_choice_takes_the_highest_candidate_and_clears_the_rest() {
    let (mut ledger, mut miner) = setup(0, NEVER);
    let a1 = extend(&mut ledger, 0, 1);
    let b1 = extend(&mut ledger, 0, 2);
    let b2 = extend(&mut ledger, b1, 2);
    miner.receive_block(&ledger, a1);
    miner.receive_block(&ledger, b1);
    miner.receive_block(&ledger, b2);
    assert_eq!(miner.candidates(), &vec![a1, b1, b2]);
    for draw in [0u64, 1 << 62, 1 << 63, u64::MAX] {
        let (mut l, mut m) = setup(0, NEVER);
        let x1 = extend(&mut l, 0, 1);
        let y1 = extend(&mut l, 0, 2);
        let y2 = extend(&mut l, y1, 2);
        m.receive_block(&l, x1);
        m.receive_block(&l, y1);
        m.receive_block(&l, y2);
        m.evaluate_candidates_with(&l, draw);
        assert_eq!(m.current_block(), y2);
        assert!(m.candidates().is_empty());
    }
    miner.evaluate_candidates(&ledger);
    assert_eq!(miner.current_block(), b2);
    assert!(miner.candidates().is_empty());
}

#[test]
fn fork_choice_breaks_ties_by_the_draw() {
    let picks: [(u64, usize); 6] =
        [(0, 0), ((1u64 << 63) - 1, 0), (1u64 << 63, 1), (u64::MAX, 1), (1u64 << 62, 0), (3u64 << 62, 1)];
    for (draw, pick) in picks {
        let (mut ledger, mut miner) = setup(0, NEVER);
        let a = extend(&mut ledger, 0, 1);
        let b = extend(&mut ledger, 0, 2);
        miner.receive_block(&ledger, a);
        miner.receive_block(&ledger, b);
        assert!(miner.needs_draw(&ledger));
        miner.evaluate_candidates_with(&ledger, draw);
        assert_eq!(miner.current_block(), [a, b][pick]);
        assert!(miner.candidates().is_empty());
    }
}

#[test]
fn fork_choice_among_three_follows_the_scaled_draw() {
    let third: u64 = u64::MAX / 3;
    let picks: [(u64, usize); 5] = [(0, 0), (third, 0), (third + 1, 1), (2 * third, 1), (2 * third + 1, 2)];
    for (draw, pick) in picks {
        let (mut ledger, mut miner) = setup(0, NEVER);
        let low = extend(&mut ledger, 0, 3);
        let a = extend(&mut ledger, low, 1);
        let b = extend(&mut ledger, low, 2);
        let c = extend(&mut ledger, low, 3);
        miner.receive_block(&ledger, low);
        miner.receive_block(&ledger, a);
        miner.receive_block(&ledger, b);
        miner.receive_block(&ledger, c);
        miner.evaluate_candidates_with(&ledger, draw);
        assert_eq!(miner.current_block(), [a, b, c][pick]);
    }
}

#[test]
fn own_block_wins_the_tie_whatever_the_draw() {
    for draw in [0u64, 1, 1 << 32, (1 << 63) - 1, 1 << 63, u64::MAX - 1, u64::MAX] {
        let (mut ledger, mut miner) = setup(0, ALWAYS);
        miner.mine_with(&mut ledger, 1, 0, 0);
        let own = miner.candidates()[0];
        assert!(miner.is_mine(&ledger, own));
        let first = extend(&mut ledger, 0, 1);
        let second = extend(&mut ledger, 0, 2);
        miner.receive_block(&ledger, first);
        miner.receive_block(&ledger, second);
        assert_eq!(miner.candidates(), &vec![own, first, second]);
        assert!(!miner.needs_draw(&ledger));
        miner.evaluate_candidates_with(&ledger, draw);
        assert_eq!(miner.current_block(), own);
        assert!(miner.candidates().is_empty());
    }
}

#[test]
fn own_block_wins_the_tie_without_touching_the_generator() {
    let (mut ledger, mut miner) = setup(0, ALWAYS);
    let (_, mut twin) = setup(0, ALWAYS);
    miner.mine_with(&mut ledger, 1, 0, 0);
    let own = miner.candidates()[0];
    let other = extend(&mut ledger, 0, 1);
    miner.receive_block(&ledger, other);
    miner.evaluate_candidates(&ledger);
    assert_eq!(miner.current_block(), own);
    assert_eq!(miner.rand_unit(), twin.rand_unit());
}

#[test]
fn own_block_below_the_highest_does_not_win() {
    let (mut ledger, mut miner) = setup(0, ALWAYS);
    miner.mine_with(&mut ledger, 1, 0, 0);
    let own = miner.candidates()[0];
    let a1 = extend(&mut ledger, 0, 1);
    let a2 = extend(&mut ledger, a1, 1);
    miner.receive_block(&ledger, a1);
    miner.receive_block(&ledger, a2);
    assert_eq!(miner.candidates(), &vec![own, a1, a2]);
    miner.evaluate_candidates_with(&ledger, 0);
    assert_eq!(miner.current_block(), a2);
}

#[test]
fn mine_with_finds_a_block_below_the_threshold_only() {
    let threshold: u64 = 1000;
    for (unit, found) in [(0u64, true), (999, true), (1000, false), (1001, false), ((1 << 53) - 1, false)] {
        let (mut ledger, mut miner) = setup(4, threshold);
        miner.add_connection(0, 0);
        miner.mine_with(&mut ledger, 9, 0, unit << 11);
        if found {
            assert_eq!(ledger.len(), 2);
            assert_eq!(miner.blocks_mined(), 1);
            assert_eq!(miner.candidates(), &vec![1]);
            assert_eq!(miner.known_count(), 2);
            assert!(miner.knows(&ledger.hash(1)));
            assert_eq!(queues(&miner), vec![vec![(1, 0)]]);
        } else {
            assert_eq!(ledger.len(), 1);
            assert_eq!(miner.blocks_mined(), 0);
            assert!(miner.candidates().is_empty());
            assert_eq!(miner.known_count(), 1);
            assert_eq!(queues(&miner), vec![Vec::new()]);
        }
        assert_eq!(miner.current_block(), 0);
    }
}

#[test]
fn mine_with_reads_only_the_upper_bits_of_the_draw() {
    let (mut ledger, mut miner) = setup(0, 1);
    miner.mine_with(&mut ledger, 1, 0, 2047);
    assert_eq!(miner.blocks_mined(), 1);
    miner.mine_with(&mut ledger, 2, 0, 2048);
    assert_eq!(miner.blocks_mined(), 1);
}

#[test]
fn mined_block_stands_on_the_tip() {
    let (mut ledger, mut miner) = setup(6, ALWAYS);
    miner.mine_with(&mut ledger, 11, 0, 0);
    miner.mine_with(&mut ledger, 12, 0, 0);
    miner.mine_with(&mut ledger, 13, 0, 0);
    assert_eq!(ledger.len(), 4);
    assert_eq!(miner.current_block(), 2);
    assert_eq!(miner.candidates(), &vec![3]);
    for id in 1..4usize {
        let block = ledger.block(id);
        assert_eq!(block.height, id);
        assert_eq!(block.time, 10 + id);
        assert_eq!(block.miner_id, Some(6));
        assert_eq!(block.parent, Some(id - 1));
        assert_eq!(block.parent_hash, ledger.hash(id - 1));
    }
    assert_eq!(miner.blocks_mined(), 3);
    assert_eq!(miner.known_count(), 4);
}

#[test]
fn mining_runs_fork_choice_first() {
    let (mut ledger, mut miner) = setup(0, ALWAYS);
    let a1 = extend(&mut ledger, 0, 1);
    let a2 = extend(&mut ledger, a1, 1);
    miner.receive_block(&ledger, a1);
    miner.receive_block(&ledger, a2);
    miner.mine_with(&mut ledger, 5, 0, 0);
    let found = ledger.len() - 1;
    assert_eq!(miner.current_block(), a2);
    assert_eq!(ledger.parent(found), Some(a2));
    assert_eq!(ledger.height(found), 3);
    assert_eq!(miner.candidates(), &vec![found]);
}

#[test]
fn fork_choice_runs_even_if_no_block_is_found() {
    let (mut ledger, mut miner) = setup(0, NEVER);
    let a1 = extend(&mut ledger, 0, 1);
    miner.receive_block(&ledger, a1);
    miner.mine_with(&mut ledger, 5, 0, 0);
    assert_eq!(miner.current_block(), a1);
    assert!(miner.candidates().is_empty());
    assert_eq!(miner.blocks_mined(), 0);
    assert_eq!(ledger.len(), 2);
}

#[test]
fn announce_counts_and_queues_on_every_link() {
    let (mut ledger, mut miner) = setup(0, NEVER);
    miner.add_connection(1, 0);
    miner.add_connection(2, 5);
    let b = extend(&mut ledger, 0, 0);
    miner.announce(&ledger, b);
    assert_eq!(miner.blocks_mined(), 1);
    assert_eq!(queues(&miner), vec![vec![(b, 0)], vec![(b, 5)]]);
    let c = extend(&mut ledger, b, 0);
    miner.announce(&ledger, c);
    assert_eq!(miner.blocks_mined(), 2);
    assert_eq!(queues(&miner), vec![vec![(b, 0), (c, 0)], vec![(b, 5), (c, 5)]]);
}

#[test]
fn send_messages_hands_out_link_after_link() {
    let (mut ledger, mut miner) = setup(0, ALWAYS);
    miner.add_connection(1, 0);
    miner.add_connection(2, 1);
    miner.add_connection(3, 0);
    miner.mine_with(&mut ledger, 1, 0, 0);
    miner.mine_with(&mut ledger, 2, 0, 0);
    let out: Vec<(usize, usize)> = miner.send_messages().iter().map(|d| (d.receiver, d.block)).collect();
    assert_eq!(out, vec![(1, 1), (1, 2), (3, 1), (3, 2)]);
    assert_eq!(queues(&miner), vec![vec![], vec![(1, 0), (2, 0)], vec![]]);
    let out: Vec<(usize, usize)> = miner.send_messages().iter().map(|d| (d.receiver, d.block)).collect();
    assert_eq!(out, vec![(2, 1), (2, 2)]);
    assert!(miner.send_messages().is_empty());
}

#[test]
fn mine_with_a_generator_is_reproducible() {
    let threshold: u64 = 1 << 50;
    let mut outcomes = Vec::new();
    for _ in 0..2 {
        let (mut ledger, mut miner) = setup(0, threshold);
        for t in 1..400usize {
            miner.mine(&mut ledger, t);
        }
        let times: Vec<usize> = (0..ledger.len()).map(|id| ledger.block(id).time).collect();
        outcomes.push((times, miner.blocks_mined(), miner.current_block()));
    }
    assert_eq!(outcomes[0], outcomes[1]);
    assert!(outcomes[0].1 > 10);
    assert!(outcomes[0].1 < 200);
}

#[test]
fn tip_height_never_falls() {
    let (mut ledger, mut miner) = setup(0, 1 << 51);
    let mut last = 0;
    let mut other_tip = 0;
    for t in 1..300usize {
        if t % 7 == 0 {
            other_tip = extend(&mut ledger, other_tip, 1);
            miner.receive_block(&ledger, other_tip);
        }
        miner.mine(&mut ledger, t);
        let height = ledger.height(miner.current_block());
        assert!(height >= last);
        last = height;
    }
    assert!(last > 0);
}

#[test]
fn mine_draws_for_fork_choice_before_it_draws_for_a_block() {
    let seed: [u8; 16] = [1, 0, 0, 0, 0, 0, 0, 0, 2, 0, 0, 0, 0, 0, 0, 0];
    let threshold: u64 = 193;
    let mut ledger = Ledger::new();
    let g = Block::new(&mut ledger, 0, 0, None, None);
    let mut alone = Miner::new(0, "A", &ledger, g, threshold, seed);
    alone.mine(&mut ledger, 1);
    assert_eq!(alone.blocks_mined(), 1);

    let mut ledger = Ledger::new();
    let g = Block::new(&mut ledger, 0, 0, None, None);
    let mut tied = Miner::new(0, "A", &ledger, g, threshold, seed);
    let a = extend(&mut ledger, g, 1);
    let b = extend(&mut ledger, g, 2);
    tied.receive_block(&ledger, a);
    tied.receive_block(&ledger, b);
    assert!(tied.needs_draw(&ledger));
    tied.mine(&mut ledger, 1);
    assert_eq!(tied.current_block(), a);
    assert_eq!(tied.blocks_mined(), 0);
    assert_eq!(tied.rand_unit(), 1732421326133921491 >> 11);

    let mut ledger = Ledger::new();
    let g = Block::new(&mut ledger, 0, 0, None, None);
    let mut single = Miner::new(0, "A", &ledger, g, threshold, seed);
    let a = extend(&mut ledger, g, 1);
    single.receive_block(&ledger, a);
    assert!(single.needs_draw(&ledger));
    single.mine(&mut ledger, 1);
    assert_eq!(single.current_block(), a);
    assert_eq!(single.blocks_mined(), 0);
    assert_eq!(single.rand_unit(), 1732421326133921491 >> 11);
}

#[test]
fn fork_choice_with_the_generator_picks_one_of_the_highest() {
    let mut picked = [0usize; 2];
    for seed in 0..40u8 {
        let mut ledger = Ledger::new();
        let g = Block::new(&mut ledger, 0, 0, None, None);
        let mut miner = Miner::new(0, "A", &ledger, g, NEVER, [seed; 16]);
        let low = extend(&mut ledger, g, 3);
        let a = extend(&mut ledger, low, 1);
        let b = extend(&mut ledger, low, 2);
        miner.receive_block(&ledger, low);
        miner.receive_block(&ledger, a);
        miner.receive_block(&ledger, b);
        miner.evaluate_candidates(&ledger);
        let tip = miner.current_block();
        assert!(tip == a || tip == b);
        picked[tip - a] += 1;
        assert!(miner.candidates().is_empty());
    }
    assert!(picked[0] > 5);
    assert!(picked[1] > 5);
}
