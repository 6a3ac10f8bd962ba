//! Directed links with a fixed delay.
//!
//! A link holds the blocks that are under way to its receiver, each with
//! the number of ticks it still has to wait. A tick hands out the blocks
//! whose wait is over and shortens the wait of the others by one.

use crate::ledger::BlockId;
use vstd::prelude::*;

verus! {

/// A block under way and the ticks it still has to wait.
#[derive(Clone, Copy, Debug)]
pub struct QueueEntry {
    pub block: BlockId,
    pub tts: usize,
}

/// A link to the miner at position `receiver` of the network. A position
/// at which no miner stands is a dead link: what it delivers is dropped.
pub struct Connection {
    pub receiver: usize,
    pub delay: usize,
    pub blocks_to_send: Vec<QueueEntry>,
}

/// A link as contracts speak of it.
pub ghost struct ConnectionView {
    pub receiver: usize,
    pub delay: usize,
    pub queue: Seq<QueueEntry>,
}

impl View for Connection {
    type V = ConnectionView;

    open spec fn view(&self) -> ConnectionView {
        ConnectionView { receiver: self.receiver, delay: self.delay, queue: self.blocks_to_send@ }
    }
}

/// The blocks that the next tick hands out, in the order of their arrival.
pub open spec fn due_blocks(q: Seq<QueueEntry>) -> Seq<BlockId> {
    q.filter(|e: QueueEntry| e.tts == 0).map_values(|e: QueueEntry| e.block)
}

/// The queue after the next tick: the entries that still wait, each one tick
/// closer.
pub open spec fn waiting(q: Seq<QueueEntry>) -> Seq<QueueEntry> {
    q.filter(|e: QueueEntry| e.tts > 0).map_values(
        |e: QueueEntry| QueueEntry { block: e.block, tts: (e.tts - 1) as usize },
    )
}

/// The queue after `k` ticks.
pub open spec fn after_ticks(q: Seq<QueueEntry>, k: nat) -> Seq<QueueEntry>
    decreases k,
{
    if k == 0 {
        q
    } else {
        waiting(after_ticks(q, (k - 1) as nat))
    }
}

/// What a tick makes of a queue with one more entry at its end.
pub proof fn lemma_tick_push(q: Seq<QueueEntry>, e: QueueEntry)
    ensures
        due_blocks(q.push(e)) == if e.tts == 0 {
            due_blocks(q).push(e.block)
        } else {
            due_blocks(q)
        },
        waiting(q.push(e)) == if e.tts == 0 {
            waiting(q)
        } else {
            waiting(q).push(QueueEntry { block: e.block, tts: (e.tts - 1) as usize })
        },
{
    reveal(Seq::filter);
    assert(q.push(e).drop_last() =~= q);
    assert(q.push(e).last() == e);
    let due = |e: QueueEntry| e.tts == 0;
    let wait = |e: QueueEntry| e.tts > 0;
    assert(q.push(e).filter(due) == if e.tts == 0 {
        q.filter(due).push(e)
    } else {
        q.filter(due)
    });
    assert(q.push(e).filter(wait) == if e.tts > 0 {
        q.filter(wait).push(e)
    } else {
        q.filter(wait)
    });
    assert(due_blocks(q.push(e)) =~= if e.tts == 0 {
        due_blocks(q).push(e.block)
    } else {
        due_blocks(q)
    });
    assert(waiting(q.push(e)) =~= if e.tts == 0 {
        waiting(q)
    } else {
        waiting(q).push(QueueEntry { block: e.block, tts: (e.tts - 1) as usize })
    });
}

/// The delay law: a block put on a link with delay `d` is handed out by tick
/// `d + 1` after that, behind what was queued before it, and by no earlier
/// tick; until then it waits at the end of the queue, and afterwards it is
/// gone. On a link without delay a block is thus handed out by the first
/// tick that follows, never by one that came before it was queued.
pub proof fn lemma_delivery_delay(q: Seq<QueueEntry>, block: BlockId, delay: usize, k: nat)
    ensures
        k <= delay ==> after_ticks(q.push(QueueEntry { block, tts: delay }), k) == after_ticks(q, k).push(
            QueueEntry { block, tts: (delay - k) as usize },
        ),
        k < delay ==> due_blocks(after_ticks(q.push(QueueEntry { block, tts: delay }), k)) == due_blocks(
            after_ticks(q, k),
        ),
        k == delay ==> due_blocks(after_ticks(q.push(QueueEntry { block, tts: delay }), k)) == due_blocks(
            after_ticks(q, k),
        ).push(block),
        k > delay ==> after_ticks(q.push(QueueEntry { block, tts: delay }), k) == after_ticks(q, k),
    decreases k,
{
    let e = QueueEntry { block, tts: delay };
    if k == 0 {
        lemma_tick_push(q, e);
    } else {
        let j = (k - 1) as nat;
        lemma_delivery_delay(q, block, delay, j);
        if j <= delay {
            let waited = QueueEntry { block, tts: (delay - j) as usize };
            lemma_tick_push(after_ticks(q, j), waited);
            if k <= delay {
                lemma_tick_push(after_ticks(q, k), QueueEntry { block, tts: (delay - k) as usize });
            }
        }
    }
}

impl Connection {
    /// A link to `receiver` on which nothing is under way.
    pub fn new(receiver: usize, delay: usize) -> (c: Connection)
        ensures
            c@ == (ConnectionView { receiver, delay, queue: Seq::empty() }),
    {
        Connection { receiver, delay, blocks_to_send: Vec::new() }
    }

    /// Puts a block on the link; it waits for as many ticks as the link's
    /// delay.
    pub fn queue_block(&mut self, block: BlockId)
        ensures
            final(self)@ == (ConnectionView {
                queue: old(self)@.queue.push(QueueEntry { block, tts: old(self).delay }),
                ..old(self)@
            }),
    {
        let entry = QueueEntry { block, tts: self.delay };
        self.blocks_to_send.push(entry);
    }

    /// One tick: hands out the blocks whose wait is over, in the order of
    /// their arrival, and keeps the others, each one tick closer.
    pub fn tick(&mut self) -> (due: Vec<BlockId>)
        ensures
            due@ == due_blocks(old(self)@.queue),
            final(self)@ == (ConnectionView { queue: waiting(old(self)@.queue), ..old(self)@ }),
    {
        let mut remaining: Vec<QueueEntry> = Vec::new();
        let mut to_send: Vec<BlockId> = Vec::new();
        let n = self.blocks_to_send.len();
        let mut i: usize = 0;
        while i < n
            invariant
                i <= n,
                n == self.blocks_to_send@.len(),
                *self == *old(self),
                to_send@ == due_blocks(self.blocks_to_send@.take(i as int)),
                remaining@ == waiting(self.blocks_to_send@.take(i as int)),
            decreases n - i,
        {
            let entry = self.blocks_to_send[i];
            proof {
                let q = self.blocks_to_send@;
                assert(q.take(i + 1) =~= q.take(i as int).push(entry));
                lemma_tick_push(q.take(i as int), entry);
            }
            if entry.tts == 0 {
                to_send.push(entry.block);
            } else {
                remaining.push(QueueEntry { block: entry.block, tts: entry.tts - 1 });
            }
            i = i + 1;
        }
        assert(self.blocks_to_send@.take(n as int) =~= self.blocks_to_send@);
        self.blocks_to_send = remaining;
        to_send
    }
}

} // verus!
