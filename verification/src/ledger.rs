//! Blocks and the ledger that holds them.
//!
//! The ledger only grows. A block is named by the position at which it was
//! entered, a parent link is the position of an earlier block, and the first
//! block, the genesis block, is the only one without a parent.

use crate::identity::block_identity;
use crate::identity::compute_identity;
use crate::identity::zero_hash;
use crate::identity::zero_identity;
use vstd::prelude::*;

verus! {

/// The position of a block in the ledger.
pub type BlockId = usize;

/// One candidate extension of the ledger.
pub struct Block {
    /// Distance from the genesis block.
    pub height: usize,
    /// The simulated second in which the block was found.
    pub time: usize,
    /// The block's identity.
    pub hash: [u8; 32],
    /// Who found the block; nobody found the genesis block.
    pub miner_id: Option<usize>,
    /// Where the parent stands in the ledger.
    pub parent: Option<BlockId>,
    /// The parent's identity, or zeros.
    pub parent_hash: [u8; 32],
}

/// A block as contracts speak of it.
pub ghost struct BlockView {
    pub height: usize,
    pub time: usize,
    pub hash: Seq<u8>,
    pub miner_id: Option<usize>,
    pub parent: Option<BlockId>,
    pub parent_hash: Seq<u8>,
}

impl View for Block {
    type V = BlockView;

    open spec fn view(&self) -> BlockView {
        BlockView {
            height: self.height,
            time: self.time,
            hash: self.hash@,
            miner_id: self.miner_id,
            parent: self.parent,
            parent_hash: self.parent_hash@,
        }
    }
}

/// Block `i` of `s` carries the identity of its contents and hangs one step
/// below an earlier block, or is the genesis block at position 0.
pub open spec fn link_ok(s: Seq<BlockView>, i: int) -> bool {
    &&& s[i].hash == block_identity(s[i].height, s[i].miner_id, s[i].parent_hash)
    &&& match s[i].parent {
        None => i == 0 && s[i].height == 0 && s[i].parent_hash == zero_hash(),
        Some(p) => p < i && s[i].height == s[p as int].height + 1 && s[i].parent_hash == s[p as int].hash,
    }
}

/// The blocks form a tree rooted at position 0 with edges from child to
/// parent.
pub open spec fn is_tree(s: Seq<BlockView>) -> bool {
    forall|i: int| 0 <= i < s.len() ==> #[trigger] link_ok(s, i)
}

/// The block reached from `b` by following `k` parent links; the walk stays
/// at a block that has no parent.
pub open spec fn ancestor(s: Seq<BlockView>, b: int, k: nat) -> int
    decreases k,
{
    if k == 0 {
        b
    } else {
        match s[b].parent {
            Some(p) => ancestor(s, p as int, (k - 1) as nat),
            None => b,
        }
    }
}

/// The way from block `b` to the genesis block: `b`, its parent, and so on.
pub open spec fn chain_of(s: Seq<BlockView>, b: int) -> Seq<BlockId> {
    Seq::new((s[b].height + 1) as nat, |k: int| ancestor(s, b, k as nat) as usize)
}

/// 1 if `id` mined block `b`, else 0.
pub open spec fn mined_by(s: Seq<BlockView>, b: int, id: usize) -> nat {
    if s[b].miner_id == Some(id) {
        1
    } else {
        0
    }
}

/// How many blocks of `s` were mined by `id`.
pub open spec fn mined_count(s: Seq<BlockView>, id: usize) -> nat
    decreases s.len(),
{
    if s.len() == 0 {
        0
    } else {
        mined_count(s.drop_last(), id) + mined_by(s, s.len() - 1, id)
    }
}

/// How many blocks mined by `id` lie on the chain from `b` down to the
/// genesis block, which itself is not counted.
pub open spec fn mined_in_chain(s: Seq<BlockView>, b: int, id: usize) -> nat
    decreases b,
{
    if 0 <= b < s.len() {
        match s[b].parent {
            Some(p) => if p < b {
                mined_by(s, b, id) + mined_in_chain(s, p as int, id)
            } else {
                0
            },
            None => 0,
        }
    } else {
        0
    }
}

/// In a tree no block is higher than its position.
pub proof fn lemma_height_le_position(s: Seq<BlockView>, b: int)
    requires
        is_tree(s),
        0 <= b < s.len(),
    ensures
        s[b].height <= b,
    decreases b,
{
    assert(link_ok(s, b));
    match s[b].parent {
        Some(p) => {
            lemma_height_le_position(s, p as int);
        },
        None => {},
    }
}

/// After `k <= height` parent links the walk stands on a block that is `k`
/// lower, at or before the position it started from.
pub proof fn lemma_ancestor_height(s: Seq<BlockView>, b: int, k: nat)
    requires
        is_tree(s),
        0 <= b < s.len(),
        k <= s[b].height,
    ensures
        0 <= ancestor(s, b, k) <= b,
        s[ancestor(s, b, k)].height == s[b].height - k,
    decreases k,
{
    assert(link_ok(s, b));
    if k > 0 {
        match s[b].parent {
            Some(p) => {
                lemma_ancestor_height(s, p as int, (k - 1) as nat);
            },
            None => {},
        }
    }
}

/// One more parent link leads from where the walk stands to the parent of
/// that block.
pub proof fn lemma_ancestor_step(s: Seq<BlockView>, b: int, k: nat)
    requires
        is_tree(s),
        0 <= b < s.len(),
        k < s[b].height,
    ensures
        s[ancestor(s, b, k)].parent == Some(ancestor(s, b, k + 1) as usize),
    decreases k,
{
    assert(link_ok(s, b));
    if k > 0 {
        match s[b].parent {
            Some(p) => {
                lemma_ancestor_step(s, p as int, (k - 1) as nat);
            },
            None => {},
        }
    } else {
        reveal_with_fuel(ancestor, 2);
    }
}

/// The tree law: following parent links from any block of the ledger reaches
/// the genesis block after exactly as many steps as the block's height, every
/// block met on the way is that much lower, and no block is met twice.
pub proof fn lemma_chain_reaches_genesis(s: Seq<BlockView>, b: int)
    requires
        is_tree(s),
        0 <= b < s.len(),
    ensures
        ancestor(s, b, s[b].height as nat) == 0,
        s[0].parent is None,
        forall|k: nat| k <= s[b].height ==> 0 <= #[trigger] ancestor(s, b, k) < s.len(),
        forall|k: nat| k <= s[b].height ==> s[#[trigger] ancestor(s, b, k)].height == s[b].height - k,
        forall|k: nat| k < s[b].height ==> s[#[trigger] ancestor(s, b, k)].parent is Some,
        forall|j: nat, k: nat|
            j < k <= s[b].height ==> #[trigger] ancestor(s, b, j) != #[trigger] ancestor(s, b, k),
{
    assert(link_ok(s, 0));
    assert forall|k: nat| k <= s[b].height implies 0 <= #[trigger] ancestor(s, b, k) < s.len()
        && s[ancestor(s, b, k)].height == s[b].height - k && (k < s[b].height ==> s[ancestor(
        s,
        b,
        k,
    )].parent is Some) by {
        lemma_ancestor_height(s, b, k);
        assert(link_ok(s, ancestor(s, b, k)));
    }
    let top = ancestor(s, b, s[b].height as nat);
    assert(link_ok(s, top));
}

/// Entering one more well-linked block keeps the tree a tree.
pub proof fn lemma_tree_push(s: Seq<BlockView>, b: BlockView)
    requires
        is_tree(s),
        link_ok(s.push(b), s.len() as int),
    ensures
        is_tree(s.push(b)),
{
    let t = s.push(b);
    assert forall|i: int| 0 <= i < t.len() implies #[trigger] link_ok(t, i) by {
        if i < s.len() {
            assert(link_ok(s, i));
        }
    }
}

/// The count of a miner's blocks never shrinks as the ledger grows.
pub proof fn lemma_mined_count_prefix(s: Seq<BlockView>, n: int, id: usize)
    requires
        0 <= n <= s.len(),
    ensures
        mined_count(s.take(n), id) <= mined_count(s, id),
        mined_count(s, id) <= s.len(),
    decreases s.len(),
{
    if s.len() > 0 {
        if n == s.len() {
            assert(s.take(n) =~= s);
            lemma_mined_count_prefix(s.drop_last(), n - 1, id);
        } else {
            assert(s.drop_last().take(n) =~= s.take(n));
            lemma_mined_count_prefix(s.drop_last(), n, id);
        }
    } else {
        assert(s.take(n) =~= s);
    }
}

/// A miner has no more blocks on a chain than in the part of the ledger that
/// the chain runs through.
pub proof fn lemma_chain_within_count(s: Seq<BlockView>, b: int, id: usize)
    requires
        is_tree(s),
        0 <= b < s.len(),
    ensures
        mined_in_chain(s, b, id) <= mined_count(s.take(b + 1), id),
        mined_in_chain(s, b, id) <= mined_count(s, id),
    decreases b,
{
    assert(link_ok(s, b));
    let upto = s.take(b + 1);
    assert(upto.drop_last() =~= s.take(b));
    assert(mined_by(upto, upto.len() - 1, id) == mined_by(s, b, id));
    match s[b].parent {
        Some(p) => {
            lemma_chain_within_count(s, p as int, id);
            assert(s.take(b).take(p + 1) =~= s.take(p + 1));
            lemma_mined_count_prefix(s.take(b), p + 1, id);
        },
        None => {},
    }
    lemma_mined_count_prefix(s, b + 1, id);
}

/// All blocks ever created, in the order of their creation.
pub struct Ledger {
    blocks: Vec<Block>,
}

impl View for Ledger {
    type V = Seq<BlockView>;

    closed spec fn view(&self) -> Seq<BlockView> {
        self.blocks@.map_values(|b: Block| b@)
    }
}

impl Ledger {
    /// The ledger is a tree.
    pub open spec fn wf(&self) -> bool {
        is_tree(self@)
    }

    /// A ledger without blocks.
    pub fn new() -> (ledger: Ledger)
        ensures
            ledger@.len() == 0,
            ledger.wf(),
    {
        Ledger { blocks: Vec::new() }
    }

    /// A ledger holds no more blocks than the machine can count.
    pub proof fn lemma_len_bounded(&self)
        ensures
            self@.len() <= usize::MAX,
    {
        assert(self.blocks.len() == self.blocks@.len());
    }

    /// The number of blocks.
    pub fn len(&self) -> (n: usize)
        ensures
            n == self@.len(),
    {
        self.blocks.len()
    }

    /// The block at position `id`.
    pub fn block(&self, id: BlockId) -> (b: &Block)
        requires
            id < self@.len(),
        ensures
            b@ == self@[id as int],
    {
        &self.blocks[id]
    }

    /// The height of block `id`.
    pub fn height(&self, id: BlockId) -> (h: usize)
        requires
            id < self@.len(),
        ensures
            h == self@[id as int].height,
    {
        self.blocks[id].height
    }

    /// The identity of block `id`.
    pub fn hash(&self, id: BlockId) -> (h: [u8; 32])
        requires
            id < self@.len(),
        ensures
            h@ == self@[id as int].hash,
    {
        self.blocks[id].hash
    }

    /// The identity of the parent of block `id`.
    pub fn parent_hash(&self, id: BlockId) -> (h: [u8; 32])
        requires
            id < self@.len(),
        ensures
            h@ == self@[id as int].parent_hash,
    {
        self.blocks[id].parent_hash
    }

    /// The parent of block `id`, if it has one.
    pub fn parent(&self, id: BlockId) -> (p: Option<BlockId>)
        requires
            id < self@.len(),
        ensures
            p == self@[id as int].parent,
    {
        self.blocks[id].parent
    }

    /// Whether `miner_id` found block `id`.
    pub fn is_mined_by(&self, id: BlockId, miner_id: usize) -> (yes: bool)
        requires
            id < self@.len(),
        ensures
            yes == (self@[id as int].miner_id == Some(miner_id)),
    {
        match self.blocks[id].miner_id {
            Some(m) => m == miner_id,
            None => false,
        }
    }

    /// Walks from `tip` to the genesis block: the result holds `tip`, its
    /// parent, and so on, and ends with the genesis block.
    pub fn chain(&self, tip: BlockId) -> (path: Vec<BlockId>)
        requires
            self.wf(),
            tip < self@.len(),
        ensures
            path@ == chain_of(self@, tip as int),
            path@.len() == self@[tip as int].height + 1,
            path@[0] == tip,
            path@[path@.len() - 1] == 0,
    {
        let mut path: Vec<BlockId> = Vec::new();
        let mut at: BlockId = tip;
        path.push(at);
        proof {
            lemma_chain_reaches_genesis(self@, tip as int);
        }
        loop
            invariant
                self.wf(),
                tip < self@.len(),
                at < self@.len(),
                0 < path@.len() <= self@[tip as int].height + 1,
                at == ancestor(self@, tip as int, (path@.len() - 1) as nat),
                forall|k: int| 0 <= k < path@.len() ==> path@[k] == ancestor(self@, tip as int, k as nat),
            ensures
                path@.len() == self@[tip as int].height + 1,
                forall|k: int| 0 <= k < path@.len() ==> path@[k] == ancestor(self@, tip as int, k as nat),
            decreases at,
        {
            let ghost k = (path@.len() - 1) as nat;
            proof {
                assert(link_ok(self@, at as int));
                lemma_ancestor_height(self@, tip as int, k);
                if k < self@[tip as int].height {
                    lemma_ancestor_step(self@, tip as int, k);
                    lemma_ancestor_height(self@, tip as int, k + 1);
                }
            }
            match self.blocks[at].parent {
                Some(p) => {
                    path.push(p);
                    at = p;
                },
                None => {
                    break ;
                },
            }
        }
        proof {
            lemma_chain_reaches_genesis(self@, tip as int);
            assert(path@ =~= chain_of(self@, tip as int));
        }
        path
    }

    /// Walks from `tip` to the genesis block and counts the blocks that
    /// `miner_id` found; the genesis block is not counted.
    pub fn blocks_in_chain(&self, tip: BlockId, miner_id: usize) -> (count: usize)
        requires
            self.wf(),
            tip < self@.len(),
        ensures
            count == mined_in_chain(self@, tip as int, miner_id),
            count <= mined_count(self@, miner_id),
    {
        let mut count: usize = 0;
        let mut at: BlockId = tip;
        proof {
            lemma_chain_within_count(self@, tip as int, miner_id);
            lemma_mined_count_prefix(self@, 0, miner_id);
            self.lemma_len_bounded();
        }
        loop
            invariant
                self.wf(),
                at < self@.len(),
                count + mined_in_chain(self@, at as int, miner_id) == mined_in_chain(
                    self@,
                    tip as int,
                    miner_id,
                ),
                mined_in_chain(self@, tip as int, miner_id) <= usize::MAX,
            ensures
                count == mined_in_chain(self@, tip as int, miner_id),
            decreases at,
        {
            assert(link_ok(self@, at as int));
            match self.blocks[at].parent {
                Some(p) => {
                    if self.is_mined_by(at, miner_id) {
                        count = count + 1;
                    }
                    at = p;
                },
                None => {
                    break ;
                },
            }
        }
        count
    }
}

impl Block {
    /// Creates a block and enters it into the ledger; the result is its
    /// position. The block's identity is computed from its height, its miner
    /// and its parent's identity. A block without a parent is the genesis
    /// block and opens the ledger; any other block stands one above its
    /// parent.
    pub fn new(
        ledger: &mut Ledger,
        height: usize,
        time: usize,
        parent: Option<BlockId>,
        miner_id: Option<usize>,
    ) -> (id: BlockId)
        requires
            old(ledger).wf(),
            match parent {
                None => old(ledger)@.len() == 0 && height == 0,
                Some(p) => p < old(ledger)@.len() && height == old(ledger)@[p as int].height + 1,
            },
        ensures
            id == old(ledger)@.len(),
            final(ledger)@ == old(ledger)@.push(new_block(old(ledger)@, height, time, parent, miner_id)),
            final(ledger).wf(),
    {
        let parent_hash = match parent {
            Some(p) => ledger.hash(p),
            None => zero_identity(),
        };
        let hash = compute_identity(height, miner_id, &parent_hash);
        let block = Block { height, time, hash, miner_id, parent, parent_hash };
        let id = ledger.blocks.len();
        proof {
            let b = new_block(ledger@, height, time, parent, miner_id);
            assert(block@ == b);
            assert(link_ok(ledger@.push(b), ledger@.len() as int));
            lemma_tree_push(ledger@, b);
            assert(ledger.blocks@.push(block).map_values(|b: Block| b@) =~= ledger@.push(b));
        }
        ledger.blocks.push(block);
        id
    }
}

/// The block that `Block::new` enters into the ledger `s`.
pub open spec fn new_block(
    s: Seq<BlockView>,
    height: usize,
    time: usize,
    parent: Option<BlockId>,
    miner_id: Option<usize>,
) -> BlockView {
    let parent_hash = match parent {
        Some(p) => s[p as int].hash,
        None => zero_hash(),
    };
    BlockView {
        height,
        time,
        hash: block_identity(height, miner_id, parent_hash),
        miner_id,
        parent,
        parent_hash,
    }
}

} // verus!
