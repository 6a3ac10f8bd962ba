//! Fork choice: which of the blocks that a miner has newly seen becomes its
//! tip.
//!
//! Only the highest candidates count. Among them a block of the miner's own
//! wins; failing that, a draw picks one, each with the same chance.

use crate::ledger::BlockId;
use crate::ledger::BlockView;
use crate::ledger::Ledger;
use crate::rng::index_from_draw;
use crate::rng::scaled_index;
use vstd::prelude::*;

verus! {

/// Every block of `c` stands in the ledger `s`.
pub open spec fn all_in_ledger(s: Seq<BlockView>, c: Seq<BlockId>) -> bool {
    forall|i: int| 0 <= i < c.len() ==> #[trigger] c[i] < s.len()
}

/// The greatest height among the blocks `c`; 0 if there are none.
pub open spec fn max_height(s: Seq<BlockView>, c: Seq<BlockId>) -> usize
    decreases c.len(),
{
    if c.len() == 0 {
        0
    } else {
        let rest = max_height(s, c.drop_last());
        if s[c.last() as int].height > rest {
            s[c.last() as int].height
        } else {
            rest
        }
    }
}

/// The test "stands at height `h`".
pub open spec fn at_height(s: Seq<BlockView>, h: usize) -> spec_fn(BlockId) -> bool {
    |b: BlockId| s[b as int].height == h
}

/// The test "was mined by `id`".
pub open spec fn mined_by_miner(s: Seq<BlockView>, id: usize) -> spec_fn(BlockId) -> bool {
    |b: BlockId| s[b as int].miner_id == Some(id)
}

/// The highest of the blocks `c`, in the order in which `c` holds them.
pub open spec fn best_candidates(s: Seq<BlockView>, c: Seq<BlockId>) -> Seq<BlockId> {
    c.filter(at_height(s, max_height(s, c)))
}

/// The first of `blocks` that `id` mined, if there is one.
pub open spec fn first_own_block(s: Seq<BlockView>, blocks: Seq<BlockId>, id: usize) -> Option<BlockId> {
    let own = blocks.filter(mined_by_miner(s, id));
    if own.len() > 0 {
        Some(own[0])
    } else {
        None
    }
}

/// The block that miner `id` adopts from the candidates `c`: the first of
/// its own among the highest, or else the one of the highest that the draw
/// picks.
pub open spec fn fork_choice(s: Seq<BlockView>, c: Seq<BlockId>, id: usize, draw: u64) -> BlockId {
    let best = best_candidates(s, c);
    match first_own_block(s, best, id) {
        Some(b) => b,
        None => best[scaled_index(draw, best.len() as int)],
    }
}

/// `max_height` is the maximum: no block of `c` is higher, and one of them
/// is that high.
pub proof fn lemma_max_height(s: Seq<BlockView>, c: Seq<BlockId>)
    ensures
        forall|i: int| 0 <= i < c.len() ==> s[#[trigger] c[i] as int].height <= max_height(s, c),
        c.len() > 0 ==> exists|i: int| 0 <= i < c.len() && s[#[trigger] c[i] as int].height == max_height(s, c),
    decreases c.len(),
{
    if c.len() > 0 {
        let rest = c.drop_last();
        lemma_max_height(s, rest);
        assert forall|i: int| 0 <= i < c.len() implies s[#[trigger] c[i] as int].height <= max_height(s, c) by {
            if i < rest.len() {
                assert(rest[i] == c[i]);
            }
        }
        if s[c.last() as int].height > max_height(s, rest) || rest.len() == 0 {
            assert(s[c[c.len() - 1] as int].height == max_height(s, c));
        } else {
            let i = choose|i: int| 0 <= i < rest.len() && s[#[trigger] rest[i] as int].height == max_height(s, rest);
            assert(s[c[i] as int].height == max_height(s, c));
        }
    }
}

/// Where there are candidates there are highest ones, each of them a
/// candidate at the greatest height.
pub proof fn lemma_best_candidates(s: Seq<BlockView>, c: Seq<BlockId>)
    requires
        c.len() > 0,
    ensures
        0 < best_candidates(s, c).len() <= c.len(),
        forall|j: int|
            0 <= j < best_candidates(s, c).len() ==> {
                &&& c.contains(#[trigger] best_candidates(s, c)[j])
                &&& s[best_candidates(s, c)[j] as int].height == max_height(s, c)
            },
{
    let pred = at_height(s, max_height(s, c));
    let best = c.filter(pred);
    lemma_max_height(s, c);
    let i = choose|i: int| 0 <= i < c.len() && s[#[trigger] c[i] as int].height == max_height(s, c);
    c.lemma_filter_contains(pred, i);
    c.lemma_filter_len(pred);
    assert forall|j: int| 0 <= j < best.len() implies c.contains(#[trigger] best[j]) && s[best[j] as int].height
        == max_height(s, c) by {
        c.lemma_filter_pred(pred, j);
        assert(best.contains(best[j]));
        c.lemma_filter_contains_rev(pred, best[j]);
    }
}

/// The block that fork choice adopts is one of the candidates and stands at
/// the greatest height among them.
pub proof fn lemma_fork_choice_is_candidate(s: Seq<BlockView>, c: Seq<BlockId>, id: usize, draw: u64)
    requires
        all_in_ledger(s, c),
        c.len() > 0,
    ensures
        c.contains(fork_choice(s, c, id, draw)),
        fork_choice(s, c, id, draw) < s.len(),
        s[fork_choice(s, c, id, draw) as int].height == max_height(s, c),
{
    let best = best_candidates(s, c);
    lemma_best_candidates(s, c);
    let pred = mined_by_miner(s, id);
    let own = best.filter(pred);
    if own.len() > 0 {
        assert(own.contains(own[0]));
        best.lemma_filter_contains_rev(pred, own[0]);
        let j = choose|j: int| 0 <= j < best.len() && best[j] == own[0];
        assert(c.contains(best[j]));
    } else {
        let n = best.len() as int;
        assert(0 <= scaled_index(draw, n) < n) by (nonlinear_arith)
            requires
                0 <= draw < 0x1_0000_0000_0000_0000,
                0 < n,
                scaled_index(draw, n) == (draw * n) / 0x1_0000_0000_0000_0000,
        ;
        assert(c.contains(best[scaled_index(draw, n)]));
    }
}

/// Self-preference: where one of the highest candidates is the miner's own,
/// the miner adopts a block of its own at that height, whatever the draw.
pub proof fn lemma_self_preference(s: Seq<BlockView>, c: Seq<BlockId>, id: usize, i: int, draw: u64)
    requires
        all_in_ledger(s, c),
        0 <= i < c.len(),
        s[c[i] as int].height == max_height(s, c),
        s[c[i] as int].miner_id == Some(id),
    ensures
        s[fork_choice(s, c, id, draw) as int].miner_id == Some(id),
        s[fork_choice(s, c, id, draw) as int].height == max_height(s, c),
        fork_choice(s, c, id, draw) == fork_choice(s, c, id, 0),
{
    let best = best_candidates(s, c);
    let pred = mined_by_miner(s, id);
    c.lemma_filter_contains(at_height(s, max_height(s, c)), i);
    let j = choose|j: int| 0 <= j < best.len() && best[j] == c[i];
    best.lemma_filter_contains(pred, j);
    let own = best.filter(pred);
    assert(own.len() > 0);
    best.lemma_filter_pred(pred, 0);
    lemma_fork_choice_is_candidate(s, c, id, draw);
}

/// The greatest height among the candidates.
pub fn highest(ledger: &Ledger, candidates: &Vec<BlockId>) -> (h: usize)
    requires
        all_in_ledger(ledger@, candidates@),
    ensures
        h == max_height(ledger@, candidates@),
{
    let mut h: usize = 0;
    let mut i: usize = 0;
    while i < candidates.len()
        invariant
            i <= candidates.len(),
            all_in_ledger(ledger@, candidates@),
            h == max_height(ledger@, candidates@.take(i as int)),
        decreases candidates.len() - i,
    {
        let here = ledger.height(candidates[i]);
        proof {
            let c = candidates@;
            assert(c.take(i + 1).drop_last() =~= c.take(i as int));
            assert(c.take(i + 1).last() == c[i as int]);
        }
        if here > h {
            h = here;
        }
        i = i + 1;
    }
    assert(candidates@.take(candidates.len() as int) =~= candidates@);
    h
}

/// The highest candidates, in the order in which they were seen.
pub fn best_of(ledger: &Ledger, candidates: &Vec<BlockId>) -> (best: Vec<BlockId>)
    requires
        all_in_ledger(ledger@, candidates@),
    ensures
        best@ == best_candidates(ledger@, candidates@),
        all_in_ledger(ledger@, best@),
{
    let top = highest(ledger, candidates);
    let mut best: Vec<BlockId> = Vec::new();
    let mut i: usize = 0;
    proof {
        reveal(Seq::filter);
    }
    while i < candidates.len()
        invariant
            i <= candidates.len(),
            all_in_ledger(ledger@, candidates@),
            best@ == candidates@.take(i as int).filter(at_height(ledger@, top)),
        decreases candidates.len() - i,
    {
        let b = candidates[i];
        proof {
            let c = candidates@;
            assert(c.take(i + 1) =~= c.take(i as int).push(b));
            c.take(i as int).lemma_filter_push(b, at_height(ledger@, top));
        }
        if ledger.height(b) == top {
            best.push(b);
        }
        i = i + 1;
    }
    assert(candidates@.take(candidates.len() as int) =~= candidates@);
    proof {
        if candidates@.len() > 0 {
            lemma_best_candidates(ledger@, candidates@);
        }
        assert forall|j: int| 0 <= j < best@.len() implies #[trigger] best@[j] < ledger@.len() by {
            assert(candidates@.contains(best@[j]));
        }
    }
    best
}

/// The first of `blocks` that miner `id` found, if there is one.
pub fn first_own(ledger: &Ledger, blocks: &Vec<BlockId>, id: usize) -> (own: Option<BlockId>)
    requires
        all_in_ledger(ledger@, blocks@),
    ensures
        own == first_own_block(ledger@, blocks@, id),
{
    let ghost pred = mined_by_miner(ledger@, id);
    let mut i: usize = 0;
    proof {
        reveal(Seq::filter);
    }
    while i < blocks.len()
        invariant
            i <= blocks.len(),
            all_in_ledger(ledger@, blocks@),
            pred == mined_by_miner(ledger@, id),
            blocks@.take(i as int).filter(pred).len() == 0,
        decreases blocks.len() - i,
    {
        let b = blocks[i];
        proof {
            let c = blocks@;
            assert(c.take(i + 1) =~= c.take(i as int).push(b));
            c.take(i as int).lemma_filter_push(b, pred);
        }
        if ledger.is_mined_by(b, id) {
            proof {
                let c = blocks@;
                assert(c.take(i + 1) + c.skip(i + 1) =~= c);
                Seq::filter_distributes_over_add(c.take(i + 1), c.skip(i + 1), pred);
                assert(c.take(i + 1).filter(pred) =~= seq![b]);
                assert(c.filter(pred)[0] == b);
            }
            return Some(b);
        }
        i = i + 1;
    }
    assert(blocks@.take(blocks.len() as int) =~= blocks@);
    None
}

/// Fork choice for a given draw.
pub fn choose_tip(ledger: &Ledger, candidates: &Vec<BlockId>, id: usize, draw: u64) -> (tip: BlockId)
    requires
        all_in_ledger(ledger@, candidates@),
        candidates@.len() > 0,
    ensures
        tip == fork_choice(ledger@, candidates@, id, draw),
{
    let best = best_of(ledger, candidates);
    proof {
        lemma_best_candidates(ledger@, candidates@);
    }
    match first_own(ledger, &best, id) {
        Some(b) => b,
        None => best[index_from_draw(draw, best.len())],
    }
}

} // verus!
