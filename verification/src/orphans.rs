//! Orphans and their way back into the ledger that a miner knows.
//!
//! A block whose parent a miner does not know yet is held as an orphan. Once
//! the parent becomes known the orphan becomes known too, and with it every
//! orphan that hangs below it, however long the chain.

use crate::ledger::BlockId;
use crate::ledger::BlockView;
use vstd::prelude::*;

verus! {

/// The identity of the parent of the orphan filed under `h`.
pub open spec fn parent_of(orphans: Map<Seq<u8>, BlockId>, s: Seq<BlockView>, h: Seq<u8>) -> Seq<u8> {
    s[orphans[h] as int].parent_hash
}

/// The orphan filed under `h` hangs, by at most `n` orphans in between, below
/// a block whose identity is in `known`.
pub open spec fn resolves(
    known: Set<Seq<u8>>,
    orphans: Map<Seq<u8>, BlockId>,
    s: Seq<BlockView>,
    h: Seq<u8>,
    n: nat,
) -> bool
    decreases n,
{
    &&& orphans.dom().contains(h)
    &&& {
        ||| known.contains(parent_of(orphans, s, h))
        ||| n > 0 && resolves(known, orphans, s, parent_of(orphans, s, h), (n - 1) as nat)
    }
}

/// The orphan filed under `h` hangs, by a chain of orphans, below a known
/// block.
pub open spec fn promotable(
    known: Set<Seq<u8>>,
    orphans: Map<Seq<u8>, BlockId>,
    s: Seq<BlockView>,
    h: Seq<u8>,
) -> bool {
    exists|n: nat| resolves(known, orphans, s, h, n)
}

/// The known blocks once every orphan that hangs below a known block has
/// become known.
pub open spec fn known_after_refresh(
    known: Map<Seq<u8>, BlockId>,
    orphans: Map<Seq<u8>, BlockId>,
    s: Seq<BlockView>,
) -> Map<Seq<u8>, BlockId> {
    Map::new(
        |h: Seq<u8>| known.dom().contains(h) || promotable(known.dom(), orphans, s, h),
        |h: Seq<u8>|
            if promotable(known.dom(), orphans, s, h) {
                orphans[h]
            } else {
                known[h]
            },
    )
}

/// The orphans that are left: those that hang below no known block.
pub open spec fn orphans_after_refresh(
    known: Map<Seq<u8>, BlockId>,
    orphans: Map<Seq<u8>, BlockId>,
    s: Seq<BlockView>,
) -> Map<Seq<u8>, BlockId> {
    Map::new(
        |h: Seq<u8>| orphans.dom().contains(h) && !promotable(known.dom(), orphans, s, h),
        |h: Seq<u8>| orphans[h],
    )
}

/// No orphan's parent is known.
pub open spec fn settled(known: Set<Seq<u8>>, orphans: Map<Seq<u8>, BlockId>, s: Seq<BlockView>) -> bool {
    forall|h: Seq<u8>| #[trigger] orphans.dom().contains(h) ==> !known.contains(parent_of(orphans, s, h))
}

proof fn lemma_resolves_after_step(
    known: Set<Seq<u8>>,
    orphans: Map<Seq<u8>, BlockId>,
    s: Seq<BlockView>,
    h: Seq<u8>,
    x: Seq<u8>,
    n: nat,
)
    requires
        orphans.dom().contains(h),
        known.contains(parent_of(orphans, s, h)),
        resolves(known.insert(h), orphans.remove(h), s, x, n),
    ensures
        promotable(known, orphans, s, x),
        x != h,
    decreases n,
{
    let p = parent_of(orphans, s, x);
    assert(p == parent_of(orphans.remove(h), s, x));
    assert(resolves(known, orphans, s, h, 0));
    if known.contains(p) {
        assert(resolves(known, orphans, s, x, 0));
    } else if p == h {
        assert(resolves(known, orphans, s, x, 1));
    } else {
        lemma_resolves_after_step(known, orphans, s, h, p, (n - 1) as nat);
        let m = choose|m: nat| resolves(known, orphans, s, p, m);
        assert(resolves(known, orphans, s, x, m + 1));
    }
}

proof fn lemma_resolves_before_step(
    known: Set<Seq<u8>>,
    orphans: Map<Seq<u8>, BlockId>,
    s: Seq<BlockView>,
    h: Seq<u8>,
    x: Seq<u8>,
    n: nat,
)
    requires
        x != h,
        resolves(known, orphans, s, x, n),
    ensures
        promotable(known.insert(h), orphans.remove(h), s, x),
    decreases n,
{
    let p = parent_of(orphans, s, x);
    assert(p == parent_of(orphans.remove(h), s, x));
    if known.contains(p) || p == h {
        assert(resolves(known.insert(h), orphans.remove(h), s, x, 0));
    } else {
        lemma_resolves_before_step(known, orphans, s, h, p, (n - 1) as nat);
        let m = choose|m: nat| resolves(known.insert(h), orphans.remove(h), s, p, m);
        assert(resolves(known.insert(h), orphans.remove(h), s, x, m + 1));
    }
}

/// Making one orphan known whose parent is known changes nothing about
/// where the refresh ends.
pub proof fn lemma_promote_step(
    known: Map<Seq<u8>, BlockId>,
    orphans: Map<Seq<u8>, BlockId>,
    s: Seq<BlockView>,
    h: Seq<u8>,
)
    requires
        orphans.dom().contains(h),
        known.dom().contains(parent_of(orphans, s, h)),
    ensures
        known_after_refresh(known.insert(h, orphans[h]), orphans.remove(h), s) == known_after_refresh(
            known,
            orphans,
            s,
        ),
        orphans_after_refresh(known.insert(h, orphans[h]), orphans.remove(h), s) == orphans_after_refresh(
            known,
            orphans,
            s,
        ),
{
    let known2 = known.insert(h, orphans[h]);
    let orphans2 = orphans.remove(h);
    assert(known2.dom() =~= known.dom().insert(h));
    assert(resolves(known.dom(), orphans, s, h, 0));
    assert forall|x: Seq<u8>|
        promotable(known2.dom(), orphans2, s, x) == (x != h && promotable(known.dom(), orphans, s, x)) by {
        if promotable(known2.dom(), orphans2, s, x) {
            let n = choose|n: nat| resolves(known2.dom(), orphans2, s, x, n);
            lemma_resolves_after_step(known.dom(), orphans, s, h, x, n);
        }
        if x != h && promotable(known.dom(), orphans, s, x) {
            let n = choose|n: nat| resolves(known.dom(), orphans, s, x, n);
            lemma_resolves_before_step(known.dom(), orphans, s, h, x, n);
        }
    }
    assert(known_after_refresh(known2, orphans2, s) =~= known_after_refresh(known, orphans, s));
    assert(orphans_after_refresh(known2, orphans2, s) =~= orphans_after_refresh(known, orphans, s));
}

proof fn lemma_settled_resolves(
    known: Set<Seq<u8>>,
    orphans: Map<Seq<u8>, BlockId>,
    s: Seq<BlockView>,
    h: Seq<u8>,
    n: nat,
)
    requires
        settled(known, orphans, s),
    ensures
        !resolves(known, orphans, s, h, n),
    decreases n,
{
    if n > 0 && orphans.dom().contains(h) {
        lemma_settled_resolves(known, orphans, s, parent_of(orphans, s, h), (n - 1) as nat);
    }
}

/// Where no orphan's parent is known the refresh changes nothing.
pub proof fn lemma_settled(known: Map<Seq<u8>, BlockId>, orphans: Map<Seq<u8>, BlockId>, s: Seq<BlockView>)
    requires
        settled(known.dom(), orphans, s),
    ensures
        known_after_refresh(known, orphans, s) == known,
        orphans_after_refresh(known, orphans, s) == orphans,
{
    assert forall|h: Seq<u8>| !promotable(known.dom(), orphans, s, h) by {
        if promotable(known.dom(), orphans, s, h) {
            let n = choose|n: nat| resolves(known.dom(), orphans, s, h, n);
            lemma_settled_resolves(known.dom(), orphans, s, h, n);
        }
    }
    assert(known_after_refresh(known, orphans, s) =~= known);
    assert(orphans_after_refresh(known, orphans, s) =~= orphans);
}

/// After the refresh no orphan's parent is known: the refresh runs to its
/// end in one go.
pub proof fn lemma_refresh_settles(known: Map<Seq<u8>, BlockId>, orphans: Map<Seq<u8>, BlockId>, s: Seq<BlockView>)
    ensures
        settled(known_after_refresh(known, orphans, s).dom(), orphans_after_refresh(known, orphans, s), s),
        known.dom().subset_of(known_after_refresh(known, orphans, s).dom()),
        orphans_after_refresh(known, orphans, s).dom().subset_of(orphans.dom()),
        known_after_refresh(known, orphans, s).dom().union(orphans_after_refresh(known, orphans, s).dom())
            == known.dom().union(orphans.dom()),
{
    let known2 = known_after_refresh(known, orphans, s);
    let orphans2 = orphans_after_refresh(known, orphans, s);
    assert forall|h: Seq<u8>| #[trigger] orphans2.dom().contains(h) implies !known2.dom().contains(
        parent_of(orphans2, s, h),
    ) by {
        let p = parent_of(orphans, s, h);
        if known.dom().contains(p) {
            assert(resolves(known.dom(), orphans, s, h, 0));
        } else if promotable(known.dom(), orphans, s, p) {
            let n = choose|n: nat| resolves(known.dom(), orphans, s, p, n);
            assert(resolves(known.dom(), orphans, s, h, n + 1));
        }
    }
    assert forall|h: Seq<u8>| promotable(known.dom(), orphans, s, h) implies orphans.dom().contains(h) by {
        let n = choose|n: nat| resolves(known.dom(), orphans, s, h, n);
    }
    assert(known2.dom().union(orphans2.dom()) =~= known.dom().union(orphans.dom()));
}

} // verus!
