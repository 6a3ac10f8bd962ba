//! Miners: what a participant of the network knows and does.
//!
//! A miner files the blocks it has accepted under their identities, holds
//! back the blocks whose parent it has not seen, collects the blocks that
//! could become its tip, and builds on its tip when a draw lets it find a
//! block.

use crate::block_map::entries;
use crate::block_map::lists_entries;
use crate::block_map::map_contains;
use crate::block_map::map_insert;
use crate::block_map::map_len;
use crate::block_map::map_list;
use crate::block_map::map_new;
use crate::block_map::map_remove;
use crate::connection::due_blocks;
use crate::connection::lemma_tick_push;
use crate::connection::waiting;
use crate::connection::Connection;
use crate::connection::ConnectionView;
use crate::connection::QueueEntry;
use crate::fork_choice::all_in_ledger;
use crate::fork_choice::best_candidates;
use crate::fork_choice::best_of;
use crate::fork_choice::choose_tip;
use crate::fork_choice::first_own;
use crate::fork_choice::first_own_block;
use crate::fork_choice::fork_choice;
use crate::fork_choice::lemma_fork_choice_is_candidate;
use crate::ledger::ancestor;
use crate::ledger::is_tree;
use crate::ledger::lemma_chain_reaches_genesis;
use crate::ledger::lemma_height_le_position;
use crate::ledger::lemma_mined_count_prefix;
use crate::ledger::mined_count;
use crate::ledger::new_block;
use crate::ledger::Block;
use crate::ledger::BlockId;
use crate::ledger::BlockView;
use crate::ledger::Ledger;
use crate::orphans::known_after_refresh;
use crate::orphans::lemma_promote_step;
use crate::orphans::lemma_refresh_settles;
use crate::orphans::lemma_settled;
use crate::orphans::orphans_after_refresh;
use crate::orphans::parent_of;
use crate::orphans::promotable;
use crate::orphans::resolves;
use crate::orphans::settled;
use crate::rng::generator_from_seed;
use crate::rng::index_from_draw;
use crate::rng::next_draw;
use crate::rng::scaled_index;
use crate::rng::unit_from_draw;
use crate::rng::unit_numerator;
use ahash::AHashMap;
use ahash::RandomState;
use rand_xoshiro::Xoroshiro128PlusPlus;
use vstd::prelude::*;

verus! {

/// A block that a link hands out, and the position of the miner it is for.
#[derive(Clone, Copy, Debug)]
pub struct Delivery {
    pub receiver: usize,
    pub block: BlockId,
}

/// One participant of the network.
pub struct Miner {
    id: usize,
    name: String,
    threshold: u64,
    current_block: BlockId,
    block_candidates: Vec<BlockId>,
    connections: Vec<Connection>,
    known_blocks: AHashMap<[u8; 32], usize, RandomState>,
    rejected_blocks: AHashMap<[u8; 32], usize, RandomState>,
    blocks_mined: usize,
    rng: Xoroshiro128PlusPlus,
}

/// A miner as contracts speak of it. The state of its generator is no part
/// of it.
#[verifier::ext_equal]
pub ghost struct MinerView {
    pub id: usize,
    pub name: Seq<char>,
    /// A draw finds a block if its upper 53 bits are below this number.
    pub threshold: u64,
    /// The block that the miner builds on.
    pub tip: BlockId,
    /// The blocks seen since the last fork choice that could become the tip.
    pub candidates: Seq<BlockId>,
    pub connections: Seq<ConnectionView>,
    /// The accepted blocks, by identity.
    pub known: Map<Seq<u8>, BlockId>,
    /// The blocks held back because their parent is not known, by identity.
    pub orphans: Map<Seq<u8>, BlockId>,
    /// How many blocks the miner has found.
    pub blocks_mined: usize,
}

impl View for Miner {
    type V = MinerView;

    closed spec fn view(&self) -> MinerView {
        MinerView {
            id: self.id,
            name: self.name@,
            threshold: self.threshold,
            tip: self.current_block,
            candidates: self.block_candidates@,
            connections: self.connections@.map_values(|c: Connection| c@),
            known: entries(self.known_blocks),
            orphans: entries(self.rejected_blocks),
            blocks_mined: self.blocks_mined,
        }
    }
}

/// Block `b` stands in the ledger and has a parent: it can be sent.
pub open spec fn deliverable(s: Seq<BlockView>, b: BlockId) -> bool {
    b < s.len() && s[b as int].parent is Some
}

/// Every block in the queue can be sent.
pub open spec fn queue_ok(s: Seq<BlockView>, q: Seq<QueueEntry>) -> bool {
    forall|j: int| 0 <= j < q.len() ==> deliverable(s, (#[trigger] q[j]).block)
}

/// The map files finitely many blocks of the ledger, each under its own
/// identity.
pub open spec fn index_ok(m: Map<Seq<u8>, BlockId>, s: Seq<BlockView>) -> bool {
    &&& m.dom().finite()
    &&& forall|k: Seq<u8>| #[trigger] m.dom().contains(k) ==> m[k] < s.len() && s[m[k] as int].hash == k
}

/// The parent of every known block that has one is known.
pub open spec fn parents_known(known: Map<Seq<u8>, BlockId>, s: Seq<BlockView>) -> bool {
    forall|k: Seq<u8>| #[trigger]
        known.dom().contains(k) ==> (s[known[k] as int].parent is Some ==> known.dom().contains(
            s[known[k] as int].parent_hash,
        ))
}

/// Block `b` stands in the ledger above the block `tip` and is known.
pub open spec fn candidate_ok(s: Seq<BlockView>, tip: BlockId, known: Map<Seq<u8>, BlockId>, b: BlockId) -> bool {
    &&& b < s.len()
    &&& s[b as int].height > s[tip as int].height
    &&& known.dom().contains(s[b as int].hash)
}

/// Every candidate stands in the ledger above the tip and is known.
pub open spec fn candidates_ok(
    s: Seq<BlockView>,
    tip: BlockId,
    known: Map<Seq<u8>, BlockId>,
    c: Seq<BlockId>,
) -> bool {
    forall|i: int| 0 <= i < c.len() ==> candidate_ok(s, tip, known, #[trigger] c[i])
}

/// The orphans are blocks of the ledger, each filed under its own identity,
/// and each has a parent.
pub open spec fn orphans_ok(orphans: Map<Seq<u8>, BlockId>, s: Seq<BlockView>) -> bool {
    &&& index_ok(orphans, s)
    &&& forall|k: Seq<u8>| #[trigger] orphans.dom().contains(k) ==> s[orphans[k] as int].parent is Some
}

/// Every block on every link can be sent.
pub open spec fn queues_ok(s: Seq<BlockView>, conns: Seq<ConnectionView>) -> bool {
    forall|c: int| 0 <= c < conns.len() ==> queue_ok(s, (#[trigger] conns[c]).queue)
}

/// The miner's state fits the ledger `s`: its tip and its candidates are
/// known blocks of the ledger, the candidates above the tip; what it files
/// are blocks of the ledger; the parents of the known blocks are known; the
/// orphans and the blocks on its links have parents; and it has found no
/// more blocks than the ledger holds of it.
pub open spec fn miner_wf(v: MinerView, s: Seq<BlockView>) -> bool {
    &&& is_tree(s)
    &&& v.tip < s.len()
    &&& v.known.dom().contains(s[v.tip as int].hash)
    &&& candidates_ok(s, v.tip, v.known, v.candidates)
    &&& index_ok(v.known, s)
    &&& parents_known(v.known, s)
    &&& orphans_ok(v.orphans, s)
    &&& queues_ok(s, v.connections)
    &&& v.blocks_mined <= mined_count(s, v.id)
}

/// The miner after fork choice with the given draw: the chosen candidate
/// is the tip and no candidate is left.
pub open spec fn evaluated(v: MinerView, s: Seq<BlockView>, draw: u64) -> MinerView {
    MinerView { tip: fork_choice(s, v.candidates, v.id, draw), candidates: Seq::empty(), ..v }
}

/// Whether fork choice needs a draw: there are candidates and none of the
/// highest is the miner's own.
pub open spec fn fork_needs_draw(v: MinerView, s: Seq<BlockView>) -> bool {
    v.candidates.len() > 0 && first_own_block(s, best_candidates(s, v.candidates), v.id) is None
}

/// The miner after every orphan that hangs below a known block has become
/// known.
pub open spec fn refreshed(v: MinerView, s: Seq<BlockView>) -> MinerView {
    MinerView {
        known: known_after_refresh(v.known, v.orphans, s),
        orphans: orphans_after_refresh(v.known, v.orphans, s),
        ..v
    }
}

/// The miner after it was handed block `b`. A block that it knows changes
/// nothing. A block whose parent it does not know becomes an orphan.
/// Any other block becomes known, with it the orphans that hang below it,
/// and it becomes a candidate if it is higher than the tip.
pub open spec fn received(v: MinerView, s: Seq<BlockView>, b: BlockId) -> MinerView {
    let h = s[b as int].hash;
    if v.known.dom().contains(h) {
        v
    } else if !v.known.dom().contains(s[b as int].parent_hash) {
        MinerView { orphans: v.orphans.insert(h, b), ..v }
    } else {
        let accepted = refreshed(MinerView { known: v.known.insert(h, b), ..v }, s);
        if s[b as int].height > s[v.tip as int].height {
            MinerView { candidates: v.candidates.push(b), ..accepted }
        } else {
            accepted
        }
    }
}

/// The link with block `b` put on it.
pub open spec fn with_queued(c: ConnectionView, b: BlockId) -> ConnectionView {
    ConnectionView { queue: c.queue.push(QueueEntry { block: b, tts: c.delay }), ..c }
}

/// The miner after it announced block `b`: one more block found, and the
/// block put on every link.
pub open spec fn announced(v: MinerView, b: BlockId) -> MinerView {
    MinerView {
        blocks_mined: (v.blocks_mined + 1) as usize,
        connections: v.connections.map_values(|c: ConnectionView| with_queued(c, b)),
        ..v
    }
}

/// Whether a draw finds a block for a miner with this threshold.
pub open spec fn finds_block(threshold: u64, draw: u64) -> bool {
    unit_numerator(draw) < threshold
}

/// The miner and the ledger after a mining attempt in second `time`. Fork
/// choice comes first where there are candidates. Then, if the second draw
/// finds a block, the block is entered into the ledger one above the tip,
/// becomes known and a candidate, and is announced.
pub open spec fn mined(v: MinerView, s: Seq<BlockView>, time: usize, fork_draw: u64, mine_draw: u64) -> (
    MinerView,
    Seq<BlockView>,
) {
    let v1 = if v.candidates.len() > 0 {
        evaluated(v, s, fork_draw)
    } else {
        v
    };
    if finds_block(v1.threshold, mine_draw) {
        let b = new_block(s, (s[v1.tip as int].height + 1) as usize, time, Some(v1.tip), Some(v1.id));
        let id = s.len() as usize;
        let v2 = MinerView { known: v1.known.insert(b.hash, id), candidates: v1.candidates.push(id), ..v1 };
        (announced(v2, id), s.push(b))
    } else {
        (v1, s)
    }
}

/// The link after a tick.
pub open spec fn ticked(c: ConnectionView) -> ConnectionView {
    ConnectionView { queue: waiting(c.queue), ..c }
}

/// The blocks that a link hands out at a tick, each with the link's
/// receiver.
pub open spec fn link_deliveries(c: ConnectionView) -> Seq<Delivery> {
    due_blocks(c.queue).map_values(|b: BlockId| Delivery { receiver: c.receiver, block: b })
}

/// What a tick of every link hands out: link after link, each in the order
/// of its queue.
pub open spec fn deliveries(conns: Seq<ConnectionView>) -> Seq<Delivery>
    decreases conns.len(),
{
    if conns.len() == 0 {
        Seq::empty()
    } else {
        deliveries(conns.drop_last()) + link_deliveries(conns.last())
    }
}

/// The miner after a tick of every link.
pub open spec fn after_send(v: MinerView) -> MinerView {
    MinerView { connections: v.connections.map_values(|c: ConnectionView| ticked(c)), ..v }
}

/// Candidates stay candidates as the ledger grows and more becomes known.
proof fn lemma_candidates_stay(
    s: Seq<BlockView>,
    t: Seq<BlockView>,
    tip: BlockId,
    known: Map<Seq<u8>, BlockId>,
    more: Map<Seq<u8>, BlockId>,
    c: Seq<BlockId>,
)
    requires
        candidates_ok(s, tip, known, c),
        tip < s.len(),
        s.is_prefix_of(t),
        known.dom().subset_of(more.dom()),
    ensures
        candidates_ok(t, tip, more, c),
{
    assert forall|i: int| 0 <= i < c.len() implies candidate_ok(t, tip, more, #[trigger] c[i]) by {
        assert(candidate_ok(s, tip, known, c[i]));
    }
}

/// A miner's state fits every ledger that the ledger it fits grows into.
pub proof fn lemma_wf_grows(v: MinerView, s: Seq<BlockView>, t: Seq<BlockView>)
    requires
        miner_wf(v, s),
        s.is_prefix_of(t),
        is_tree(t),
    ensures
        miner_wf(v, t),
{
    lemma_candidates_stay(s, t, v.tip, v.known, v.known, v.candidates);
    assert forall|c: int| 0 <= c < v.connections.len() implies queue_ok(t, (#[trigger] v.connections[c]).queue) by {
        assert(queue_ok(s, v.connections[c].queue));
    }
    assert(t.take(s.len() as int) =~= s);
    lemma_mined_count_prefix(t, s.len() as int, v.id);
}

/// A new link keeps the miner's state fit.
pub proof fn lemma_new_link_wf(v: MinerView, s: Seq<BlockView>, receiver: usize, delay: usize)
    requires
        miner_wf(v, s),
    ensures
        miner_wf(
            MinerView {
                connections: v.connections.push(ConnectionView { receiver, delay, queue: Seq::empty() }),
                ..v
            },
            s,
        ),
{
    let conns = v.connections.push(ConnectionView { receiver, delay, queue: Seq::empty() });
    assert forall|c: int| 0 <= c < conns.len() implies queue_ok(s, (#[trigger] conns[c]).queue) by {
        if c < v.connections.len() {
            assert(queue_ok(s, v.connections[c].queue));
        }
    }
}

/// What a miner knows it never forgets: no reception, no fork choice and no
/// mining attempt takes an identity out of the known blocks.
pub proof fn lemma_known_never_shrinks(
    v: MinerView,
    s: Seq<BlockView>,
    b: BlockId,
    time: usize,
    fork_draw: u64,
    mine_draw: u64,
)
    ensures
        v.known.dom().subset_of(received(v, s, b).known.dom()),
        v.known.dom().subset_of(refreshed(v, s).known.dom()),
        v.known.dom().subset_of(evaluated(v, s, fork_draw).known.dom()),
        v.known.dom().subset_of(mined(v, s, time, fork_draw, mine_draw).0.known.dom()),
{
    lemma_refresh_settles(v.known, v.orphans, s);
    lemma_refresh_settles(v.known.insert(s[b as int].hash, b), v.orphans, s);
}

/// The tree law for what a miner knows: a known block stands in the ledger
/// under its own identity, its parent is known too, and following parent
/// links from it reaches the genesis block after as many steps as its
/// height.
pub proof fn lemma_known_block_reaches_genesis(v: MinerView, s: Seq<BlockView>, h: Seq<u8>)
    requires
        miner_wf(v, s),
        v.known.dom().contains(h),
    ensures
        v.known[h] < s.len(),
        s[v.known[h] as int].hash == h,
        s[v.known[h] as int].parent is Some ==> v.known.dom().contains(s[v.known[h] as int].parent_hash),
        ancestor(s, v.known[h] as int, s[v.known[h] as int].height as nat) == 0,
        s[0].parent is None,
{
    lemma_chain_reaches_genesis(s, v.known[h] as int);
}

/// The cascade law: when a miner accepts a block, every orphan that hangs
/// below a known block by a chain of orphans, however long, is known after
/// that one reception, filed as it was held back, and no orphan is left
/// whose parent is known.
pub proof fn lemma_reception_cascades(v: MinerView, s: Seq<BlockView>, b: BlockId, x: Seq<u8>, n: nat)
    requires
        !v.known.dom().contains(s[b as int].hash),
        v.known.dom().contains(s[b as int].parent_hash),
        resolves(v.known.dom().insert(s[b as int].hash), v.orphans, s, x, n),
    ensures
        received(v, s, b).known.dom().contains(x),
        received(v, s, b).known[x] == v.orphans[x],
        !received(v, s, b).orphans.dom().contains(x),
        received(v, s, b).known.dom().contains(s[b as int].hash),
        settled(received(v, s, b).known.dom(), received(v, s, b).orphans, s),
{
    let known = v.known.insert(s[b as int].hash, b);
    assert(known.dom() =~= v.known.dom().insert(s[b as int].hash));
    assert(promotable(known.dom(), v.orphans, s, x));
    lemma_refresh_settles(known, v.orphans, s);
}

/// A tick of every link keeps the miner's state fit, and what it hands out
/// can be sent.
pub proof fn lemma_send_wf(v: MinerView, s: Seq<BlockView>)
    requires
        miner_wf(v, s),
    ensures
        miner_wf(after_send(v), s),
        forall|i: int|
            0 <= i < deliveries(v.connections).len() ==> deliverable(
                s,
                (#[trigger] deliveries(v.connections)[i]).block,
            ),
{
    let w = after_send(v);
    assert forall|c: int| 0 <= c < w.connections.len() implies queue_ok(s, (#[trigger] w.connections[c]).queue) by {
        assert(queue_ok(s, v.connections[c].queue));
        lemma_tick_queue_ok(s, v.connections[c].queue);
    }
    lemma_deliveries_ok(v.connections, s);
}

proof fn lemma_tick_queue_ok(s: Seq<BlockView>, q: Seq<QueueEntry>)
    requires
        queue_ok(s, q),
    ensures
        queue_ok(s, waiting(q)),
        forall|i: int| 0 <= i < due_blocks(q).len() ==> deliverable(s, #[trigger] due_blocks(q)[i]),
    decreases q.len(),
{
    if q.len() > 0 {
        let rest = q.drop_last();
        assert(q =~= rest.push(q.last()));
        assert forall|j: int| 0 <= j < rest.len() implies deliverable(s, (#[trigger] rest[j]).block) by {
            assert(rest[j] == q[j]);
        }
        lemma_tick_queue_ok(s, rest);
        lemma_tick_push(rest, q.last());
        assert(deliverable(s, q[q.len() - 1].block));
    } else {
        reveal(Seq::filter);
    }
}

proof fn lemma_deliveries_ok(conns: Seq<ConnectionView>, s: Seq<BlockView>)
    requires
        queues_ok(s, conns),
    ensures
        forall|i: int|
            0 <= i < deliveries(conns).len() ==> deliverable(s, (#[trigger] deliveries(conns)[i]).block),
    decreases conns.len(),
{
    if conns.len() > 0 {
        let rest = conns.drop_last();
        assert forall|c: int| 0 <= c < rest.len() implies queue_ok(s, (#[trigger] rest[c]).queue) by {
            assert(rest[c] == conns[c]);
        }
        lemma_deliveries_ok(rest, s);
        assert(queue_ok(s, conns[conns.len() - 1].queue));
        lemma_tick_queue_ok(s, conns.last().queue);
        let head = deliveries(rest);
        let tail = link_deliveries(conns.last());
        assert forall|i: int| 0 <= i < deliveries(conns).len() implies deliverable(
            s,
            (#[trigger] deliveries(conns)[i]).block,
        ) by {
            if i < head.len() {
                assert(deliveries(conns)[i] == head[i]);
            } else {
                assert(deliveries(conns)[i] == tail[i - head.len()]);
                assert(tail[i - head.len()].block == due_blocks(conns.last().queue)[i - head.len()]);
            }
        }
    }
}

/// Filing a block of the ledger under its identity keeps the map in order.
proof fn lemma_index_insert(m: Map<Seq<u8>, BlockId>, s: Seq<BlockView>, b: BlockId)
    requires
        index_ok(m, s),
        b < s.len(),
    ensures
        index_ok(m.insert(s[b as int].hash, b), s),
{
    let k = s[b as int].hash;
    let m2 = m.insert(k, b);
    assert(m2.dom() =~= m.dom().insert(k));
    assert forall|x: Seq<u8>| #[trigger] m2.dom().contains(x) implies m2[x] < s.len() && s[m2[x] as int].hash
        == x by {
        if x != k {
            assert(m.dom().contains(x));
        }
    }
}

/// Holding back a block that has a parent keeps the orphans in order.
proof fn lemma_orphans_insert(m: Map<Seq<u8>, BlockId>, s: Seq<BlockView>, b: BlockId)
    requires
        orphans_ok(m, s),
        deliverable(s, b),
    ensures
        orphans_ok(m.insert(s[b as int].hash, b), s),
{
    let k = s[b as int].hash;
    let m2 = m.insert(k, b);
    lemma_index_insert(m, s, b);
    assert forall|x: Seq<u8>| #[trigger] m2.dom().contains(x) implies s[m2[x] as int].parent is Some by {
        if x != k {
            assert(m.dom().contains(x));
        }
    }
}

/// Filing a block whose parent is known keeps the parents known.
proof fn lemma_parents_insert(m: Map<Seq<u8>, BlockId>, s: Seq<BlockView>, k: Seq<u8>, b: BlockId)
    requires
        parents_known(m, s),
        s[b as int].parent is Some ==> m.dom().contains(s[b as int].parent_hash),
    ensures
        parents_known(m.insert(k, b), s),
{
    let m2 = m.insert(k, b);
    assert forall|x: Seq<u8>| #[trigger]
        m2.dom().contains(x) && s[m2[x] as int].parent is Some implies m2.dom().contains(
        s[m2[x] as int].parent_hash,
    ) by {
        if x != k {
            assert(m.dom().contains(x));
        }
    }
}

impl Miner {
    /// The miner's state fits the ledger.
    pub open spec fn wf(&self, ledger: &Ledger) -> bool {
        miner_wf(self@, ledger@)
    }

    /// A miner that knows the genesis block `initial_block` and nothing
    /// else, builds on it, and has no links. A draw finds a block for it if
    /// the upper 53 bits of the draw are below `threshold`. Its generator
    /// starts from `seed`.
    pub fn new(
        id: usize,
        name: &str,
        ledger: &Ledger,
        initial_block: BlockId,
        threshold: u64,
        seed: [u8; 16],
    ) -> (miner: Miner)
        requires
            ledger.wf(),
            initial_block < ledger@.len(),
            ledger@[initial_block as int].parent is None,
        ensures
            miner@ == (MinerView {
                id,
                name: name@,
                threshold,
                tip: initial_block,
                candidates: Seq::empty(),
                connections: Seq::empty(),
                known: Map::empty().insert(ledger@[initial_block as int].hash, initial_block),
                orphans: Map::empty(),
                blocks_mined: 0,
            }),
            miner.wf(ledger),
    {
        let mut known_blocks = map_new();
        map_insert(&mut known_blocks, ledger.hash(initial_block), initial_block);
        let miner = Miner {
            id,
            name: name.to_owned(),
            threshold,
            current_block: initial_block,
            block_candidates: Vec::new(),
            connections: Vec::new(),
            known_blocks,
            rejected_blocks: map_new(),
            blocks_mined: 0,
            rng: generator_from_seed(seed),
        };
        proof {
            assert(miner@.connections =~= Seq::empty());
            assert(miner@.known.dom() =~= Set::empty().insert(ledger@[initial_block as int].hash));
            assert(miner@.orphans.dom() =~= Set::empty());
        }
        miner
    }

    /// The miner's identifier.
    pub fn id(&self) -> (id: usize)
        ensures
            id == self@.id,
    {
        self.id
    }

    /// The miner's name.
    pub fn name(&self) -> (name: &String)
        ensures
            name@ == self@.name,
    {
        &self.name
    }

    /// The number below which the upper 53 bits of a draw find a block.
    pub fn threshold(&self) -> (threshold: u64)
        ensures
            threshold == self@.threshold,
    {
        self.threshold
    }

    /// The block that the miner builds on.
    pub fn current_block(&self) -> (tip: BlockId)
        ensures
            tip == self@.tip,
    {
        self.current_block
    }

    /// The blocks that could become the tip at the next fork choice.
    pub fn candidates(&self) -> (candidates: &Vec<BlockId>)
        ensures
            candidates@ == self@.candidates,
    {
        &self.block_candidates
    }

    /// How many blocks the miner has found.
    pub fn blocks_mined(&self) -> (n: usize)
        ensures
            n == self@.blocks_mined,
    {
        self.blocks_mined
    }

    /// How many blocks the miner has accepted.
    pub fn known_count(&self) -> (n: usize)
        ensures
            n == self@.known.dom().len(),
    {
        map_len(&self.known_blocks)
    }

    /// How many blocks the miner holds back as orphans.
    pub fn orphan_count(&self) -> (n: usize)
        ensures
            n == self@.orphans.dom().len(),
    {
        map_len(&self.rejected_blocks)
    }

    /// Whether the miner has accepted a block with this identity.
    pub fn knows(&self, hash: &[u8; 32]) -> (yes: bool)
        ensures
            yes == self@.known.dom().contains(hash@),
    {
        map_contains(&self.known_blocks, hash)
    }

    /// Whether the miner holds back a block with this identity.
    pub fn is_orphan(&self, hash: &[u8; 32]) -> (yes: bool)
        ensures
            yes == self@.orphans.dom().contains(hash@),
    {
        map_contains(&self.rejected_blocks, hash)
    }

    /// The number of links that leave the miner.
    pub fn connection_count(&self) -> (n: usize)
        ensures
            n == self@.connections.len(),
    {
        self.connections.len()
    }

    /// The link at position `i`.
    pub fn connection(&self, i: usize) -> (c: &Connection)
        requires
            i < self@.connections.len(),
        ensures
            c@ == self@.connections[i as int],
    {
        &self.connections[i]
    }

    /// Adds a link to the miner at position `receiver` of the network.
    pub fn add_connection(&mut self, receiver: usize, delay: usize)
        ensures
            final(self)@ == (MinerView {
                connections: old(self)@.connections.push(
                    ConnectionView { receiver, delay, queue: Seq::empty() },
                ),
                ..old(self)@
            }),
    {
        let c = Connection::new(receiver, delay);
        proof {
            assert(self.connections@.push(c).map_values(|c: Connection| c@) =~= self@.connections.push(c@));
        }
        self.connections.push(c);
    }

    /// Whether this miner found the block.
    pub fn is_mine(&self, ledger: &Ledger, block: BlockId) -> (mine: bool)
        requires
            block < ledger@.len(),
        ensures
            mine == (ledger@[block as int].miner_id == Some(self@.id)),
    {
        ledger.is_mined_by(block, self.id)
    }

    /// Takes a draw from the miner's generator and returns its upper 53
    /// bits: the numerator, over 2^53, of a fraction in [0, 1).
    pub fn rand_unit(&mut self) -> (x: u64)
        ensures
            final(self)@ == old(self)@,
            x < 0x20_0000_0000_0000,
    {
        let draw = next_draw(&mut self.rng);
        unit_from_draw(draw)
    }

    /// Takes a draw from the miner's generator and maps it to a position
    /// in `0..n`.
    pub fn rand_index(&mut self, n: usize) -> (i: usize)
        requires
            n > 0,
        ensures
            final(self)@ == old(self)@,
            i < n,
            exists|draw: u64| i == #[trigger] scaled_index(draw, n as int),
    {
        let draw = next_draw(&mut self.rng);
        index_from_draw(draw, n)
    }

    /// Whether fork choice would take a draw.
    pub fn needs_draw(&self, ledger: &Ledger) -> (yes: bool)
        requires
            self.wf(ledger),
        ensures
            yes == fork_needs_draw(self@, ledger@),
    {
        if self.block_candidates.len() == 0 {
            return false;
        }
        proof {
            self.lemma_candidates_in_ledger(ledger);
        }
        let best = best_of(ledger, &self.block_candidates);
        first_own(ledger, &best, self.id).is_none()
    }

    proof fn lemma_candidates_in_ledger(&self, ledger: &Ledger)
        requires
            self.wf(ledger),
        ensures
            all_in_ledger(ledger@, self.block_candidates@),
    {
        assert forall|i: int| 0 <= i < self@.candidates.len() implies #[trigger] self@.candidates[i]
            < ledger@.len() by {
            assert(candidate_ok(ledger@, self@.tip, self@.known, self@.candidates[i]));
        }
    }

    /// Fork choice with a given draw: the miner adopts the first of its own
    /// blocks among the highest candidates or, where it has none there, the
    /// one of the highest that the draw picks; no candidate is left.
    pub fn evaluate_candidates_with(&mut self, ledger: &Ledger, draw: u64)
        requires
            old(self).wf(ledger),
            old(self)@.candidates.len() > 0,
        ensures
            final(self)@ == evaluated(old(self)@, ledger@, draw),
            final(self).wf(ledger),
            ledger@[final(self)@.tip as int].height > ledger@[old(self)@.tip as int].height,
    {
        proof {
            self.lemma_candidates_in_ledger(ledger);
            lemma_fork_choice_is_candidate(ledger@, self.block_candidates@, self.id, draw);
        }
        let tip = choose_tip(ledger, &self.block_candidates, self.id, draw);
        proof {
            let i = choose|i: int| 0 <= i < self@.candidates.len() && self@.candidates[i] == tip;
            assert(candidate_ok(ledger@, self@.tip, self@.known, self@.candidates[i]));
        }
        self.current_block = tip;
        self.block_candidates.clear();
    }

    /// Fork choice: as `evaluate_candidates_with`, with a draw from the
    /// miner's generator where one is needed. The generator is left alone
    /// where one of the highest candidates is the miner's own.
    pub fn evaluate_candidates(&mut self, ledger: &Ledger)
        requires
            old(self).wf(ledger),
            old(self)@.candidates.len() > 0,
        ensures
            exists|draw: u64| final(self)@ == #[trigger] evaluated(old(self)@, ledger@, draw),
            final(self).wf(ledger),
            ledger@[final(self)@.tip as int].height > ledger@[old(self)@.tip as int].height,
    {
        let draw = if self.needs_draw(ledger) {
            next_draw(&mut self.rng)
        } else {
            0
        };
        self.evaluate_candidates_with(ledger, draw);
    }

    /// Looks for an orphan whose parent is known.
    fn find_promotable(&self, ledger: &Ledger) -> (found: Option<([u8; 32], BlockId)>)
        requires
            self.wf(ledger),
        ensures
            match found {
                Some((key, block)) => self@.orphans.contains_pair(key@, block) && self@.known.dom().contains(
                    parent_of(self@.orphans, ledger@, key@),
                ),
                None => settled(self@.known.dom(), self@.orphans, ledger@),
            },
    {
        let list = map_list(&self.rejected_blocks);
        let mut i: usize = 0;
        while i < list.len()
            invariant
                i <= list.len(),
                self.wf(ledger),
                lists_entries(list@, self@.orphans),
                forall|j: int|
                    0 <= j < i ==> !self@.known.dom().contains(
                        parent_of(self@.orphans, ledger@, (#[trigger] list@[j]).0@),
                    ),
            decreases list.len() - i,
        {
            let key = list[i].0;
            let block = list[i].1;
            assert(self@.orphans.contains_pair(list@[i as int].0@, list@[i as int].1));
            assert(self@.orphans.dom().contains(key@));
            let parent_hash = ledger.parent_hash(block);
            if map_contains(&self.known_blocks, &parent_hash) {
                return Some((key, block));
            }
            i = i + 1;
        }
        proof {
            assert forall|h: Seq<u8>| #[trigger] self@.orphans.dom().contains(h) implies !self@.known.dom().contains(
                parent_of(self@.orphans, ledger@, h),
            ) by {
                let j = choose|j: int| 0 <= j < list@.len() && #[trigger] list@[j].0@ == h;
                assert(!self@.known.dom().contains(parent_of(self@.orphans, ledger@, list@[j].0@)));
            }
        }
        None
    }

    /// Makes known every orphan whose parent is known, and goes on until no
    /// orphan is left whose parent is known, so that whole chains of orphans
    /// become known in one call.
    pub fn refresh_rejects(&mut self, ledger: &Ledger)
        requires
            old(self).wf(ledger),
        ensures
            final(self)@ == refreshed(old(self)@, ledger@),
            final(self).wf(ledger),
    {
        let mut more = true;
        while more
            invariant
                self.wf(ledger),
                refreshed(self@, ledger@) == refreshed(old(self)@, ledger@),
                self@ == (MinerView { known: self@.known, orphans: self@.orphans, ..old(self)@ }),
                !more ==> settled(self@.known.dom(), self@.orphans, ledger@),
            decreases self@.orphans.dom().len(), more as int,
        {
            match self.find_promotable(ledger) {
                Some((key, block)) => {
                    proof {
                        lemma_promote_step(self@.known, self@.orphans, ledger@, key@);
                    }
                    let ghost before = self@;
                    if let Some(moved) = map_remove(&mut self.rejected_blocks, &key) {
                        map_insert(&mut self.known_blocks, key, moved);
                    }
                    proof {
                        let after = self@;
                        let s = ledger@;
                        assert(after.known == before.known.insert(key@, block));
                        assert(after.orphans == before.orphans.remove(key@));
                        assert(after.orphans.dom() =~= before.orphans.dom().remove(key@));
                        assert(refreshed(after, s) == refreshed(before, s));
                        lemma_index_insert(before.known, s, block);
                        lemma_parents_insert(before.known, s, key@, block);
                        lemma_candidates_stay(s, s, before.tip, before.known, after.known, before.candidates);
                    }
                },
                None => {
                    more = false;
                },
            }
        }
        proof {
            lemma_settled(self@.known, self@.orphans, ledger@);
            assert(self@ =~= refreshed(self@, ledger@));
        }
    }

    /// Takes in a block that arrived over a link. A block that is known is
    /// ignored. A block whose parent is not known is held back as an orphan.
    /// Any other block becomes known; then every orphan that hangs below a
    /// known block becomes known too; and the block becomes a candidate if it
    /// is higher than the tip. The genesis block is never sent.
    pub fn receive_block(&mut self, ledger: &Ledger, block: BlockId)
        requires
            old(self).wf(ledger),
            deliverable(ledger@, block),
        ensures
            final(self)@ == received(old(self)@, ledger@, block),
            final(self).wf(ledger),
    {
        let hash = ledger.hash(block);
        if map_contains(&self.known_blocks, &hash) {
            return ;
        }
        let parent_hash = ledger.parent_hash(block);
        let ghost before = self@;
        let ghost s = ledger@;
        if !map_contains(&self.known_blocks, &parent_hash) {
            map_insert(&mut self.rejected_blocks, hash, block);
            proof {
                lemma_orphans_insert(before.orphans, s, block);
            }
            return ;
        }
        map_insert(&mut self.known_blocks, hash, block);
        proof {
            lemma_index_insert(before.known, s, block);
            lemma_parents_insert(before.known, s, hash@, block);
            lemma_candidates_stay(s, s, before.tip, before.known, self@.known, before.candidates);
        }
        self.refresh_rejects(ledger);
        let ghost accepted = self@;
        if ledger.height(block) > ledger.height(self.current_block) {
            self.block_candidates.push(block);
            proof {
                assert(accepted.known.dom().contains(hash@)) by {
                    assert(before.known.insert(hash@, block).dom().contains(hash@));
                }
                assert(candidate_ok(s, accepted.tip, accepted.known, block));
            }
        }
    }

    /// Counts one more block found and puts the block on every link.
    pub fn announce(&mut self, ledger: &Ledger, block: BlockId)
        requires
            old(self).wf(ledger),
            deliverable(ledger@, block),
            old(self)@.blocks_mined < mined_count(ledger@, old(self)@.id),
        ensures
            final(self)@ == announced(old(self)@, block),
            final(self).wf(ledger),
    {
        proof {
            lemma_mined_count_prefix(ledger@, 0, self.id);
            ledger.lemma_len_bounded();
        }
        self.blocks_mined = self.blocks_mined + 1;
        let n = self.connections.len();
        let mut i: usize = 0;
        while i < n
            invariant
                i <= n,
                n == self.connections@.len(),
                n == old(self).connections@.len(),
                self@ == (MinerView {
                    connections: self@.connections,
                    blocks_mined: self@.blocks_mined,
                    ..old(self)@
                }),
                self@.blocks_mined == old(self)@.blocks_mined + 1,
                forall|c: int|
                    0 <= c < i ==> (#[trigger] self.connections@[c])@ == with_queued(
                        old(self).connections@[c]@,
                        block,
                    ),
                forall|c: int| i <= c < n ==> (#[trigger] self.connections@[c])@ == old(self).connections@[c]@,
            decreases n - i,
        {
            self.connections[i].queue_block(block);
            i = i + 1;
        }
        proof {
            let before = old(self)@;
            let after = self@;
            let s = ledger@;
            assert(after.connections =~= announced(before, block).connections);
            assert forall|c: int| 0 <= c < after.connections.len() implies queue_ok(
                s,
                (#[trigger] after.connections[c]).queue,
            ) by {
                assert(queue_ok(s, before.connections[c].queue));
            }
        }
    }

    /// A mining attempt in second `time` with given draws. Where there are
    /// candidates, fork choice comes first and uses `fork_draw`. Then
    /// `mine_draw` decides whether the miner finds a block: it does if the
    /// upper 53 bits of the draw are below the miner's threshold. A block
    /// that is found is entered into the ledger one above the tip, becomes
    /// known and a candidate, and is announced on every link.
    pub fn mine_with(&mut self, ledger: &mut Ledger, time: usize, fork_draw: u64, mine_draw: u64)
        requires
            old(self).wf(old(ledger)),
        ensures
            final(self)@ == mined(old(self)@, old(ledger)@, time, fork_draw, mine_draw).0,
            final(ledger)@ == mined(old(self)@, old(ledger)@, time, fork_draw, mine_draw).1,
            final(self).wf(final(ledger)),
            old(ledger)@.is_prefix_of(final(ledger)@),
    {
        if self.block_candidates.len() > 0 {
            self.evaluate_candidates_with(ledger, fork_draw);
        }
        if unit_from_draw(mine_draw) < self.threshold {
            let ghost v1 = self@;
            let ghost s = ledger@;
            proof {
                lemma_height_le_position(s, self.current_block as int);
                ledger.lemma_len_bounded();
            }
            let height = ledger.height(self.current_block) + 1;
            let found = Block::new(ledger, height, time, Some(self.current_block), Some(self.id));
            let hash = ledger.hash(found);
            proof {
                lemma_wf_grows(v1, s, ledger@);
            }
            map_insert(&mut self.known_blocks, hash, found);
            self.block_candidates.push(found);
            proof {
                let t = ledger@;
                let v2 = self@;
                lemma_index_insert(v1.known, t, found);
                lemma_parents_insert(v1.known, t, hash@, found);
                assert(t.drop_last() =~= s);
                assert(mined_count(t, v1.id) == mined_count(s, v1.id) + 1);
                lemma_candidates_stay(t, t, v1.tip, v1.known, v2.known, v1.candidates);
                assert(candidate_ok(t, v2.tip, v2.known, found));
                assert(v2.connections == v1.connections);
            }
            self.announce(ledger, found);
        }
    }

    /// A mining attempt in second `time`, as `mine_with`, with draws from
    /// the miner's generator: one for fork choice where fork choice needs
    /// it, then one that decides whether a block is found.
    pub fn mine(&mut self, ledger: &mut Ledger, time: usize)
        requires
            old(self).wf(old(ledger)),
        ensures
            exists|fork_draw: u64, mine_draw: u64|
                {
                    &&& final(self)@ == (#[trigger] mined(old(self)@, old(ledger)@, time, fork_draw, mine_draw)).0
                    &&& final(ledger)@ == mined(old(self)@, old(ledger)@, time, fork_draw, mine_draw).1
                },
            final(self).wf(final(ledger)),
            old(ledger)@.is_prefix_of(final(ledger)@),
    {
        let fork_draw = if self.needs_draw(ledger) {
            next_draw(&mut self.rng)
        } else {
            0
        };
        let mine_draw = next_draw(&mut self.rng);
        self.mine_with(ledger, time, fork_draw, mine_draw);
    }

    /// A tick of every link: hands out, link after link, the blocks whose
    /// wait is over, each with the position of the miner it is for.
    pub fn send_messages(&mut self) -> (out: Vec<Delivery>)
        ensures
            out@ == deliveries(old(self)@.connections),
            final(self)@ == after_send(old(self)@),
    {
        let mut out: Vec<Delivery> = Vec::new();
        let n = self.connections.len();
        let mut i: usize = 0;
        while i < n
            invariant
                i <= n,
                n == self.connections@.len(),
                n == old(self).connections@.len(),
                self@ == (MinerView { connections: self@.connections, ..old(self)@ }),
                out@ == deliveries(old(self)@.connections.take(i as int)),
                forall|c: int|
                    0 <= c < i ==> (#[trigger] self.connections@[c])@ == ticked(old(self).connections@[c]@),
                forall|c: int| i <= c < n ==> (#[trigger] self.connections@[c])@ == old(self).connections@[c]@,
            decreases n - i,
        {
            let receiver = self.connections[i].receiver;
            let due = self.connections[i].tick();
            let ghost link = old(self)@.connections[i as int];
            let ghost sent = out@;
            let mut j: usize = 0;
            while j < due.len()
                invariant
                    j <= due.len(),
                    out@ == sent + link_deliveries(link).take(j as int),
                    due@ == due_blocks(link.queue),
                    receiver == link.receiver,
                decreases due.len() - j,
            {
                out.push(Delivery { receiver, block: due[j] });
                proof {
                    let all = link_deliveries(link);
                    assert(all.take(j + 1) =~= all.take(j as int).push(all[j as int]));
                }
                j = j + 1;
            }
            proof {
                let conns = old(self)@.connections;
                assert(link_deliveries(link).take(due.len() as int) =~= link_deliveries(link));
                assert(conns.take(i + 1).drop_last() =~= conns.take(i as int));
                assert(conns.take(i + 1).last() == link);
            }
            i = i + 1;
        }
        proof {
            let conns = old(self)@.connections;
            assert(conns.take(n as int) =~= conns);
            assert(self@.connections =~= after_send(old(self)@).connections);
        }
        out
    }
}

} // verus!
