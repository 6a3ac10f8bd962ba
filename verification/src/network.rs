//! The network and the loop that drives it.
//!
//! One ledger is shared by all miners. A simulated second has two phases:
//! first every miner's links tick and what they hand out is taken in by the
//! receivers, then every miner makes a mining attempt. Within a phase the
//! miners take their turn in the order in which they joined.

use crate::connection::ConnectionView;
use crate::ledger::is_tree;
use crate::ledger::lemma_chain_within_count;
use crate::ledger::lemma_mined_count_prefix;
use crate::ledger::link_ok;
use crate::ledger::mined_count;
use crate::ledger::mined_in_chain;
use crate::ledger::Block;
use crate::ledger::BlockId;
use crate::ledger::BlockView;
use crate::ledger::Ledger;
use crate::miner::after_send;
use crate::miner::deliverable;
use crate::miner::deliveries;
use crate::miner::evaluated;
use crate::miner::finds_block;
use crate::miner::lemma_new_link_wf;
use crate::miner::lemma_send_wf;
use crate::miner::lemma_wf_grows;
use crate::miner::mined;
use crate::miner::miner_wf;
use crate::miner::received;
use crate::miner::with_queued;
use crate::miner::Delivery;
use crate::miner::Miner;
use crate::miner::MinerView;
use vstd::prelude::*;

verus! {

/// The ledger and the miners, in the order in which they joined. A miner's
/// identifier is its position.
pub struct Network {
    ledger: Ledger,
    miners: Vec<Miner>,
}

/// A network as contracts speak of it.
#[verifier::ext_equal]
pub ghost struct NetworkView {
    pub ledger: Seq<BlockView>,
    pub miners: Seq<MinerView>,
}

impl View for Network {
    type V = NetworkView;

    closed spec fn view(&self) -> NetworkView {
        NetworkView { ledger: self.ledger@, miners: self.miners@.map_values(|m: Miner| m@) }
    }
}

/// What is read off a miner when a run is over.
#[derive(Clone, Copy, Debug)]
pub struct MinerStats {
    /// The height of the miner's tip.
    pub tip_height: usize,
    /// How many blocks the miner has accepted.
    pub known_blocks: usize,
    /// How many blocks the miner has found.
    pub blocks_found: usize,
    /// How many of the blocks on the chain below its tip the miner found.
    pub blocks_in_chain: usize,
    /// How many blocks the miner found that are not on that chain.
    pub stale_blocks: usize,
}

/// The miner at position `i` fits the ledger, is called `i`, and has
/// counted every block of the ledger that carries its identifier.
pub open spec fn miner_in_place(v: NetworkView, i: int) -> bool {
    &&& miner_wf(v.miners[i], v.ledger)
    &&& v.miners[i].id == i
    &&& v.miners[i].blocks_mined == mined_count(v.ledger, i as usize)
}

/// Block `b` was found by nobody or by a miner of the network.
pub open spec fn miner_exists(v: NetworkView, b: int) -> bool {
    match v.ledger[b].miner_id {
        Some(id) => id < v.miners.len(),
        None => true,
    }
}

/// The ledger is a tree that holds the genesis block, every miner is in
/// place, and every block was found by a miner of the network.
pub open spec fn network_wf(v: NetworkView) -> bool {
    &&& v.ledger.len() > 0
    &&& is_tree(v.ledger)
    &&& forall|i: int| 0 <= i < v.miners.len() ==> #[trigger] miner_in_place(v, i)
    &&& forall|b: int| 0 <= b < v.ledger.len() ==> #[trigger] miner_exists(v, b)
}

/// The network after a block was handed to the miner it is for. A delivery
/// to a position at which no miner stands is dropped.
pub open spec fn delivered(v: NetworkView, d: Delivery) -> NetworkView {
    if d.receiver < v.miners.len() {
        NetworkView {
            miners: v.miners.update(d.receiver as int, received(v.miners[d.receiver as int], v.ledger, d.block)),
            ..v
        }
    } else {
        v
    }
}

/// The network after a list of deliveries, made in their order.
pub open spec fn delivered_all(v: NetworkView, ds: Seq<Delivery>) -> NetworkView
    decreases ds.len(),
{
    if ds.len() == 0 {
        v
    } else {
        delivered(delivered_all(v, ds.drop_last()), ds.last())
    }
}

/// The network after the links of miner `i` have ticked and what they
/// handed out was delivered.
pub open spec fn sent_from(v: NetworkView, i: int) -> NetworkView {
    delivered_all(
        NetworkView { miners: v.miners.update(i, after_send(v.miners[i])), ..v },
        deliveries(v.miners[i].connections),
    )
}

/// The network after the first `n` miners have sent, one after the other.
pub open spec fn propagated_upto(v: NetworkView, n: nat) -> NetworkView
    decreases n,
{
    if n == 0 {
        v
    } else {
        sent_from(propagated_upto(v, (n - 1) as nat), n - 1)
    }
}

/// The network after the first phase of a second.
pub open spec fn propagated(v: NetworkView) -> NetworkView {
    propagated_upto(v, v.miners.len())
}

/// The network after the mining attempt of miner `i` with the draws `d`:
/// the first for fork choice, the second for finding a block.
pub open spec fn mined_at(v: NetworkView, i: int, time: usize, d: (u64, u64)) -> NetworkView {
    NetworkView {
        ledger: mined(v.miners[i], v.ledger, time, d.0, d.1).1,
        miners: v.miners.update(i, mined(v.miners[i], v.ledger, time, d.0, d.1).0),
    }
}

/// The network after the mining attempts of the first `n` miners, miner `i`
/// with the draws `draws[i]`.
pub open spec fn mined_upto(v: NetworkView, time: usize, draws: Seq<(u64, u64)>, n: nat) -> NetworkView
    decreases n,
{
    if n == 0 {
        v
    } else {
        mined_at(mined_upto(v, time, draws, (n - 1) as nat), n - 1, time, draws[n - 1])
    }
}

/// The network after second `time`: first all miners send, then all miners
/// make their mining attempt.
pub open spec fn stepped(v: NetworkView, time: usize, draws: Seq<(u64, u64)>) -> NetworkView {
    mined_upto(propagated(v), time, draws, v.miners.len())
}

/// The network after the seconds `1, 2, ..` up to but without `seconds`,
/// second `t` with the draws `script[t - 1]`.
pub open spec fn ran(v: NetworkView, seconds: nat, script: Seq<Seq<(u64, u64)>>) -> NetworkView
    decreases seconds,
{
    if seconds <= 1 {
        v
    } else {
        stepped(ran(v, (seconds - 1) as nat, script), (seconds - 1) as usize, script[seconds - 2])
    }
}

/// The draws of a run as contracts speak of them: one row for each second,
/// in a row one pair for each miner.
pub open spec fn script_view(script: Seq<Vec<(u64, u64)>>) -> Seq<Seq<(u64, u64)>> {
    script.map_values(|row: Vec<(u64, u64)>| row@)
}

/// What is read off miner `i`.
pub open spec fn stats_of(v: NetworkView, i: int) -> MinerStats {
    let m = v.miners[i];
    let in_chain = mined_in_chain(v.ledger, m.tip as int, m.id);
    MinerStats {
        tip_height: v.ledger[m.tip as int].height,
        known_blocks: m.known.dom().len() as usize,
        blocks_found: m.blocks_mined,
        blocks_in_chain: in_chain as usize,
        stale_blocks: (m.blocks_mined - in_chain) as usize,
    }
}

/// Determinism: what a run makes of a network is a function of the network,
/// the number of seconds and the draws. Two networks that are alike end,
/// under the same draws, with the same ledger, the same miners and the same
/// numbers read off each miner.
pub proof fn lemma_run_deterministic(a: NetworkView, b: NetworkView, seconds: nat, script: Seq<Seq<(u64, u64)>>)
    requires
        a.ledger == b.ledger,
        a.miners == b.miners,
    ensures
        ran(a, seconds, script).ledger == ran(b, seconds, script).ledger,
        ran(a, seconds, script).miners == ran(b, seconds, script).miners,
        forall|i: int| stats_of(ran(a, seconds, script), i) == stats_of(ran(b, seconds, script), i),
{
    assert(a == b);
}

/// Mining reaches no peer: a mining attempt changes the miner that makes it
/// and the ledger, and no other miner. A block that it finds is the newest
/// block of the ledger and waits at the end of each of the miner's links for
/// as many ticks as the link's delay; so a peer takes it in during the first
/// phase of a later second, never during the second in which it was found.
pub proof fn lemma_mining_reaches_no_peer(v: NetworkView, i: int, time: usize, d: (u64, u64), j: int)
    requires
        0 <= i < v.miners.len(),
        0 <= j < v.miners.len(),
        j != i,
    ensures
        mined_at(v, i, time, d).miners[j] == v.miners[j],
        mined_at(v, i, time, d).miners[i].connections.len() == v.miners[i].connections.len(),
        forall|c: int|
            0 <= c < v.miners[i].connections.len() ==> (#[trigger] mined_at(v, i, time, d).miners[i].connections[c])
                == if mined_at(v, i, time, d).ledger.len() > v.ledger.len() {
                with_queued(v.miners[i].connections[c], v.ledger.len() as usize)
            } else {
                v.miners[i].connections[c]
            },
{
}

/// The accounting law: in a network in order, the blocks that a miner found
/// are those on the chain below its tip and those that went stale, and a
/// miner that found nothing has no stale block.
pub proof fn lemma_stale_accounting(v: NetworkView, i: int)
    requires
        network_wf(v),
        0 <= i < v.miners.len(),
    ensures
        mined_in_chain(v.ledger, v.miners[i].tip as int, v.miners[i].id) <= v.miners[i].blocks_mined,
        stats_of(v, i).blocks_found == stats_of(v, i).blocks_in_chain + stats_of(v, i).stale_blocks,
        stats_of(v, i).blocks_found == 0 ==> stats_of(v, i).stale_blocks == 0,
{
    assert(miner_in_place(v, i));
    lemma_chain_within_count(v.ledger, v.miners[i].tip as int, v.miners[i].id);
}

/// A miner whose identifier no block carries has found nothing.
proof fn lemma_no_blocks_of(s: Seq<BlockView>, id: usize)
    requires
        forall|b: int| 0 <= b < s.len() ==> s[b].miner_id != Some(id),
    ensures
        mined_count(s, id) == 0,
    decreases s.len(),
{
    if s.len() > 0 {
        assert forall|b: int| 0 <= b < s.drop_last().len() implies s.drop_last()[b].miner_id != Some(id) by {
            assert(s.drop_last()[b] == s[b]);
        }
        lemma_no_blocks_of(s.drop_last(), id);
    }
}

/// A delivery keeps the network in order.
proof fn lemma_delivered_wf(v: NetworkView, d: Delivery)
    requires
        network_wf(v),
        d.receiver < v.miners.len() ==> miner_wf(received(v.miners[d.receiver as int], v.ledger, d.block), v.ledger),
    ensures
        network_wf(delivered(v, d)),
{
    let w = delivered(v, d);
    assert forall|i: int| 0 <= i < w.miners.len() implies #[trigger] miner_in_place(w, i) by {
        assert(miner_in_place(v, i));
    }
    assert forall|b: int| 0 <= b < w.ledger.len() implies #[trigger] miner_exists(w, b) by {
        assert(miner_exists(v, b));
    }
}

/// A mining attempt keeps the network in order.
proof fn lemma_mined_at_wf(v: NetworkView, i: int, time: usize, d: (u64, u64))
    requires
        network_wf(v),
        0 <= i < v.miners.len(),
        miner_wf(mined(v.miners[i], v.ledger, time, d.0, d.1).0, mined(v.miners[i], v.ledger, time, d.0, d.1).1),
        mined(v.miners[i], v.ledger, time, d.0, d.1).1.len() <= usize::MAX,
    ensures
        network_wf(mined_at(v, i, time, d)),
        v.ledger.is_prefix_of(mined_at(v, i, time, d).ledger),
        mined_at(v, i, time, d).miners.len() == v.miners.len(),
{
    let w = mined_at(v, i, time, d);
    let s = v.ledger;
    let t = w.ledger;
    let m = v.miners[i];
    let m1 = if m.candidates.len() > 0 {
        evaluated(m, s, d.0)
    } else {
        m
    };
    assert(miner_in_place(v, i));
    assert(s.is_prefix_of(t));
    lemma_mined_count_prefix(s, 0, i as usize);
    if finds_block(m1.threshold, d.1) {
        assert(t.drop_last() =~= s);
        assert(t.last().miner_id == Some(i as usize));
    } else {
        assert(t == s);
    }
    assert forall|j: int| 0 <= j < w.miners.len() implies #[trigger] miner_in_place(w, j) by {
        assert(miner_in_place(v, j));
        if j != i {
            lemma_wf_grows(v.miners[j], s, t);
            assert(mined_count(t, j as usize) == mined_count(s, j as usize));
        } else {
            assert(w.miners[i].id == i);
            assert(w.miners[i].blocks_mined == mined_count(t, i as usize));
        }
    }
    assert forall|b: int| 0 <= b < w.ledger.len() implies #[trigger] miner_exists(w, b) by {
        if b < s.len() {
            assert(miner_exists(v, b));
        }
    }
}

/// The mining attempts of the first `n` miners read only the first `n`
/// pairs of draws.
proof fn lemma_mined_upto_draws(v: NetworkView, time: usize, draws: Seq<(u64, u64)>, more: Seq<(u64, u64)>, n: nat)
    requires
        n <= draws.len(),
        draws.is_prefix_of(more),
    ensures
        mined_upto(v, time, more, n) == mined_upto(v, time, draws, n),
    decreases n,
{
    if n > 0 {
        lemma_mined_upto_draws(v, time, draws, more, (n - 1) as nat);
    }
}

/// A run of fewer seconds reads only the draws of those seconds.
proof fn lemma_ran_script(v: NetworkView, seconds: nat, script: Seq<Seq<(u64, u64)>>, more: Seq<Seq<(u64, u64)>>)
    requires
        seconds <= script.len() + 1,
        script.is_prefix_of(more),
    ensures
        ran(v, seconds, more) == ran(v, seconds, script),
    decreases seconds,
{
    if seconds > 1 {
        lemma_ran_script(v, (seconds - 1) as nat, script, more);
    }
}

impl Network {
    /// The network is in order.
    pub open spec fn wf(&self) -> bool {
        network_wf(self@)
    }

    /// A network without miners whose ledger holds the genesis block.
    pub fn new() -> (net: Network)
        ensures
            net@.ledger.len() == 1,
            net@.ledger[0].parent is None,
            net@.ledger[0].miner_id is None,
            net@.ledger[0].height == 0,
            net@.miners.len() == 0,
            net.wf(),
    {
        let mut ledger = Ledger::new();
        Block::new(&mut ledger, 0, 0, None, None);
        let net = Network { ledger, miners: Vec::new() };
        assert(miner_exists(net@, 0));
        net
    }

    /// The shared ledger.
    pub fn ledger(&self) -> (ledger: &Ledger)
        ensures
            ledger@ == self@.ledger,
    {
        &self.ledger
    }

    /// The number of miners.
    pub fn miner_count(&self) -> (n: usize)
        ensures
            n == self@.miners.len(),
    {
        self.miners.len()
    }

    /// The miner at position `i`.
    pub fn miner(&self, i: usize) -> (miner: &Miner)
        requires
            i < self@.miners.len(),
        ensures
            miner@ == self@.miners[i as int],
    {
        &self.miners[i]
    }

    /// Lets a miner join. It knows the genesis block, builds on it, has no
    /// links, and is called by its position, which is the result.
    pub fn add_miner(&mut self, name: &str, threshold: u64, seed: [u8; 16]) -> (id: usize)
        requires
            old(self).wf(),
        ensures
            id == old(self)@.miners.len(),
            final(self)@.ledger == old(self)@.ledger,
            final(self)@.miners == old(self)@.miners.push(
                MinerView {
                    id,
                    name: name@,
                    threshold,
                    tip: 0,
                    candidates: Seq::empty(),
                    connections: Seq::empty(),
                    known: Map::empty().insert(old(self)@.ledger[0].hash, 0),
                    orphans: Map::empty(),
                    blocks_mined: 0,
                },
            ),
            final(self).wf(),
    {
        let id = self.miners.len();
        let ghost before = self@;
        proof {
            assert(link_ok(before.ledger, 0));
            assert forall|b: int| 0 <= b < before.ledger.len() implies before.ledger[b].miner_id != Some(id) by {
                assert(miner_exists(before, b));
            }
            lemma_no_blocks_of(before.ledger, id);
        }
        let miner = Miner::new(id, name, &self.ledger, 0, threshold, seed);
        proof {
            assert(self.miners@.push(miner).map_values(|m: Miner| m@) =~= before.miners.push(miner@));
        }
        self.miners.push(miner);
        proof {
            let after = self@;
            assert forall|i: int| 0 <= i < after.miners.len() implies #[trigger] miner_in_place(after, i) by {
                if i < before.miners.len() {
                    assert(miner_in_place(before, i));
                }
            }
            assert forall|b: int| 0 <= b < after.ledger.len() implies #[trigger] miner_exists(after, b) by {
                assert(miner_exists(before, b));
            }
        }
        id
    }

    /// Adds a link from miner `from` to the miner at position `to`, on
    /// which a block waits for `delay` ticks.
    pub fn add_connection(&mut self, from: usize, to: usize, delay: usize)
        requires
            old(self).wf(),
            from < old(self)@.miners.len(),
        ensures
            final(self)@.ledger == old(self)@.ledger,
            final(self)@.miners == old(self)@.miners.update(
                from as int,
                MinerView {
                    connections: old(self)@.miners[from as int].connections.push(
                        ConnectionView { receiver: to, delay, queue: Seq::empty() },
                    ),
                    ..old(self)@.miners[from as int]
                },
            ),
            final(self).wf(),
    {
        let ghost before = self@;
        self.miners[from].add_connection(to, delay);
        proof {
            let after = self@;
            assert(after.miners =~= before.miners.update(from as int, after.miners[from as int]));
            assert forall|i: int| 0 <= i < after.miners.len() implies #[trigger] miner_in_place(after, i) by {
                assert(miner_in_place(before, i));
                if i == from {
                    lemma_new_link_wf(before.miners[i], before.ledger, to, delay);
                }
            }
            assert forall|b: int| 0 <= b < after.ledger.len() implies #[trigger] miner_exists(after, b) by {
                assert(miner_exists(before, b));
            }
        }
    }

    /// Hands a block to the miner at position `receiver`. Where no miner
    /// stands there, nothing happens.
    pub fn send_block(&mut self, receiver: usize, block: BlockId)
        requires
            old(self).wf(),
            deliverable(old(self)@.ledger, block),
        ensures
            final(self)@ == delivered(old(self)@, Delivery { receiver, block }),
            final(self).wf(),
    {
        let ghost before = self@;
        if receiver < self.miners.len() {
            assert(miner_in_place(before, receiver as int));
            self.miners[receiver].receive_block(&self.ledger, block);
            proof {
                assert(self@.miners =~= delivered(before, Delivery { receiver, block }).miners);
            }
        }
        proof {
            lemma_delivered_wf(before, Delivery { receiver, block });
        }
    }

    /// The links of miner `i` tick, and what they hand out is delivered in
    /// the order in which it was handed out.
    pub fn send_from(&mut self, i: usize)
        requires
            old(self).wf(),
            i < old(self)@.miners.len(),
        ensures
            final(self)@ == sent_from(old(self)@, i as int),
            final(self).wf(),
            final(self)@.miners.len() == old(self)@.miners.len(),
            final(self)@.ledger == old(self)@.ledger,
    {
        let ghost before = self@;
        assert(miner_in_place(before, i as int));
        let out = self.miners[i].send_messages();
        let ghost start = self@;
        proof {
            lemma_send_wf(before.miners[i as int], before.ledger);
            assert(start.miners =~= before.miners.update(i as int, after_send(before.miners[i as int])));
            assert forall|j: int| 0 <= j < start.miners.len() implies #[trigger] miner_in_place(start, j) by {
                assert(miner_in_place(before, j));
            }
            assert forall|b: int| 0 <= b < start.ledger.len() implies #[trigger] miner_exists(start, b) by {
                assert(miner_exists(before, b));
            }
        }
        let mut j: usize = 0;
        while j < out.len()
            invariant
                j <= out.len(),
                self.wf(),
                self@ == delivered_all(start, out@.take(j as int)),
                self@.ledger == start.ledger,
                self@.miners.len() == start.miners.len(),
                forall|k: int| 0 <= k < out@.len() ==> deliverable(start.ledger, (#[trigger] out@[k]).block),
            decreases out.len() - j,
        {
            let d = out[j];
            proof {
                assert(out@.take(j + 1).drop_last() =~= out@.take(j as int));
                assert(out@.take(j + 1).last() == d);
            }
            self.send_block(d.receiver, d.block);
            j = j + 1;
        }
        assert(out@.take(out.len() as int) =~= out@);
    }

    /// The first phase of a second: every miner sends, one after the other.
    pub fn propagate(&mut self)
        requires
            old(self).wf(),
        ensures
            final(self)@ == propagated(old(self)@),
            final(self).wf(),
            final(self)@.miners.len() == old(self)@.miners.len(),
            final(self)@.ledger == old(self)@.ledger,
    {
        let n = self.miners.len();
        let mut i: usize = 0;
        while i < n
            invariant
                i <= n,
                n == old(self)@.miners.len(),
                self.wf(),
                self@ == propagated_upto(old(self)@, i as nat),
                self@.miners.len() == n,
                self@.ledger == old(self)@.ledger,
            decreases n - i,
        {
            self.send_from(i);
            i = i + 1;
        }
    }

    /// The mining attempt of miner `i` in second `time` with given draws.
    pub fn mine_at_with(&mut self, i: usize, time: usize, fork_draw: u64, mine_draw: u64)
        requires
            old(self).wf(),
            i < old(self)@.miners.len(),
        ensures
            final(self)@ == mined_at(old(self)@, i as int, time, (fork_draw, mine_draw)),
            final(self).wf(),
            final(self)@.miners.len() == old(self)@.miners.len(),
            old(self)@.ledger.is_prefix_of(final(self)@.ledger),
    {
        let ghost before = self@;
        assert(miner_in_place(before, i as int));
        self.miners[i].mine_with(&mut self.ledger, time, fork_draw, mine_draw);
        proof {
            self.ledger.lemma_len_bounded();
            assert(self@.miners =~= mined_at(before, i as int, time, (fork_draw, mine_draw)).miners);
            lemma_mined_at_wf(before, i as int, time, (fork_draw, mine_draw));
        }
    }

    /// The mining attempt of miner `i` in second `time` with draws from the
    /// miner's generator.
    pub fn mine_at(&mut self, i: usize, time: usize)
        requires
            old(self).wf(),
            i < old(self)@.miners.len(),
        ensures
            exists|d: (u64, u64)| final(self)@ == #[trigger] mined_at(old(self)@, i as int, time, d),
            final(self).wf(),
            final(self)@.miners.len() == old(self)@.miners.len(),
            old(self)@.ledger.is_prefix_of(final(self)@.ledger),
    {
        let ghost before = self@;
        assert(miner_in_place(before, i as int));
        self.miners[i].mine(&mut self.ledger, time);
        proof {
            self.ledger.lemma_len_bounded();
            let m = before.miners[i as int];
            let (fork_draw, mine_draw) = choose|fork_draw: u64, mine_draw: u64|
                {
                    &&& self@.miners[i as int] == (#[trigger] mined(m, before.ledger, time, fork_draw, mine_draw)).0
                    &&& self@.ledger == mined(m, before.ledger, time, fork_draw, mine_draw).1
                };
            let d = (fork_draw, mine_draw);
            assert(self@.miners =~= mined_at(before, i as int, time, d).miners);
            assert(self@ == mined_at(before, i as int, time, d));
            lemma_mined_at_wf(before, i as int, time, d);
        }
    }

    /// The second phase of a second with given draws: every miner makes its
    /// mining attempt, miner `i` with the pair `draws[i]`, whose first draw
    /// is for fork choice and whose second decides whether a block is found.
    pub fn mine_all_with(&mut self, time: usize, draws: &Vec<(u64, u64)>)
        requires
            old(self).wf(),
            draws@.len() == old(self)@.miners.len(),
        ensures
            final(self)@ == mined_upto(old(self)@, time, draws@, old(self)@.miners.len()),
            final(self).wf(),
            final(self)@.miners.len() == old(self)@.miners.len(),
            old(self)@.ledger.is_prefix_of(final(self)@.ledger),
    {
        let n = self.miners.len();
        let mut i: usize = 0;
        while i < n
            invariant
                i <= n,
                n == old(self)@.miners.len(),
                n == draws@.len(),
                self.wf(),
                self@ == mined_upto(old(self)@, time, draws@, i as nat),
                self@.miners.len() == n,
                old(self)@.ledger.is_prefix_of(self@.ledger),
            decreases n - i,
        {
            let d = draws[i];
            self.mine_at_with(i, time, d.0, d.1);
            i = i + 1;
        }
    }

    /// The second phase of a second: every miner makes its mining attempt
    /// with draws from its own generator.
    pub fn mine_all(&mut self, time: usize)
        requires
            old(self).wf(),
        ensures
            exists|draws: Seq<(u64, u64)>|
                draws.len() == old(self)@.miners.len() && final(self)@ == #[trigger] mined_upto(
                    old(self)@,
                    time,
                    draws,
                    old(self)@.miners.len(),
                ),
            final(self).wf(),
            final(self)@.miners.len() == old(self)@.miners.len(),
            old(self)@.ledger.is_prefix_of(final(self)@.ledger),
    {
        let n = self.miners.len();
        let mut i: usize = 0;
        let ghost mut draws: Seq<(u64, u64)> = Seq::empty();
        while i < n
            invariant
                i <= n,
                n == old(self)@.miners.len(),
                draws.len() == i,
                self.wf(),
                self@ == mined_upto(old(self)@, time, draws, i as nat),
                self@.miners.len() == n,
                old(self)@.ledger.is_prefix_of(self@.ledger),
            decreases n - i,
        {
            let ghost here = self@;
            self.mine_at(i, time);
            proof {
                let d = choose|d: (u64, u64)| self@ == #[trigger] mined_at(here, i as int, time, d);
                lemma_mined_upto_draws(old(self)@, time, draws, draws.push(d), i as nat);
                draws = draws.push(d);
            }
            i = i + 1;
        }
    }

    /// One second with given draws: all miners send, then all miners make
    /// their mining attempt.
    pub fn step_with(&mut self, time: usize, draws: &Vec<(u64, u64)>)
        requires
            old(self).wf(),
            draws@.len() == old(self)@.miners.len(),
        ensures
            final(self)@ == stepped(old(self)@, time, draws@),
            final(self).wf(),
            final(self)@.miners.len() == old(self)@.miners.len(),
            old(self)@.ledger.is_prefix_of(final(self)@.ledger),
    {
        self.propagate();
        self.mine_all_with(time, draws);
    }

    /// One second: all miners send, then all miners make their mining
    /// attempt with draws from their own generators.
    pub fn step(&mut self, time: usize)
        requires
            old(self).wf(),
        ensures
            exists|draws: Seq<(u64, u64)>|
                draws.len() == old(self)@.miners.len() && final(self)@ == #[trigger] stepped(old(self)@, time, draws),
            final(self).wf(),
            final(self)@.miners.len() == old(self)@.miners.len(),
            old(self)@.ledger.is_prefix_of(final(self)@.ledger),
    {
        self.propagate();
        let ghost sent = self@;
        self.mine_all(time);
        proof {
            let draws = choose|draws: Seq<(u64, u64)>|
                draws.len() == sent.miners.len() && self@ == #[trigger] mined_upto(
                    sent,
                    time,
                    draws,
                    sent.miners.len(),
                );
            assert(self@ == stepped(old(self)@, time, draws));
        }
    }

    /// Runs the seconds `1, 2, ..` up to but without `seconds`, with draws
    /// from the miners' generators.
    pub fn run(&mut self, seconds: usize)
        requires
            old(self).wf(),
        ensures
            exists|script: Seq<Seq<(u64, u64)>>| final(self)@ == #[trigger] ran(old(self)@, seconds as nat, script),
            final(self).wf(),
            final(self)@.miners.len() == old(self)@.miners.len(),
            old(self)@.ledger.is_prefix_of(final(self)@.ledger),
    {
        let mut t: usize = 1;
        let ghost mut script: Seq<Seq<(u64, u64)>> = Seq::empty();
        assert(self@ == ran(old(self)@, 1, script));
        while t < seconds
            invariant
                1 <= t,
                t <= seconds || t == 1,
                script.len() == t - 1,
                self.wf(),
                self@ == ran(old(self)@, t as nat, script),
                self@.miners.len() == old(self)@.miners.len(),
                old(self)@.ledger.is_prefix_of(self@.ledger),
            decreases seconds - t,
        {
            let ghost here = self@;
            self.step(t);
            proof {
                let draws = choose|draws: Seq<(u64, u64)>|
                    draws.len() == here.miners.len() && self@ == #[trigger] stepped(here, t, draws);
                lemma_ran_script(old(self)@, t as nat, script, script.push(draws));
                script = script.push(draws);
            }
            t = t + 1;
        }
        assert(self@ == ran(old(self)@, seconds as nat, script));
    }

    /// Runs the seconds `1, 2, ..` up to but without `seconds` with given
    /// draws: second `t` with the row `script[t - 1]`, which holds one pair
    /// of draws for each miner. Rows beyond the last second are not read.
    pub fn run_with(&mut self, seconds: usize, script: &Vec<Vec<(u64, u64)>>)
        requires
            old(self).wf(),
            seconds <= script@.len() + 1,
            forall|t: int| 0 <= t < script@.len() ==> (#[trigger] script@[t])@.len() == old(self)@.miners.len(),
        ensures
            final(self)@ == ran(old(self)@, seconds as nat, script_view(script@)),
            final(self).wf(),
            final(self)@.miners.len() == old(self)@.miners.len(),
            old(self)@.ledger.is_prefix_of(final(self)@.ledger),
    {
        let mut t: usize = 1;
        while t < seconds
            invariant
                1 <= t,
                t <= seconds || t == 1,
                seconds <= script@.len() + 1,
                forall|t: int| 0 <= t < script@.len() ==> (#[trigger] script@[t])@.len() == old(self)@.miners.len(),
                self.wf(),
                self@ == ran(old(self)@, t as nat, script_view(script@)),
                self@.miners.len() == old(self)@.miners.len(),
                old(self)@.ledger.is_prefix_of(self@.ledger),
            decreases seconds - t,
        {
            self.step_with(t, &script[t - 1]);
            t = t + 1;
        }
    }

    /// Reads off miner `i` what a report needs. The blocks that the miner
    /// found are those on the chain below its tip and the stale ones.
    pub fn miner_stats(&self, i: usize) -> (stats: MinerStats)
        requires
            self.wf(),
            i < self@.miners.len(),
        ensures
            stats == stats_of(self@, i as int),
            stats.blocks_found == stats.blocks_in_chain + stats.stale_blocks,
    {
        proof {
            lemma_stale_accounting(self@, i as int);
            assert(miner_in_place(self@, i as int));
        }
        let miner = &self.miners[i];
        let tip = miner.current_block();
        let blocks_in_chain = self.ledger.blocks_in_chain(tip, miner.id());
        let blocks_found = miner.blocks_mined();
        MinerStats {
            tip_height: self.ledger.height(tip),
            known_blocks: miner.known_count(),
            blocks_found,
            blocks_in_chain,
            stale_blocks: blocks_found - blocks_in_chain,
        }
    }
}

} // verus!
