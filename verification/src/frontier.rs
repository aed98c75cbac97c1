//! The nodes of a priority queue as the pending nodes of a search: what
//! holds of the search does not depend on their order in the heap.

use vstd::prelude::*;
use crate::expansion::NodeView;
use crate::priority_queue::{EntryView, bottom, lemma_sifted_up_keeps, lemma_sunk_keeps, nodes_of, popped, pushed, pushed_all, sunk, swap_closed, swapped};
use crate::progress::{Progress, exchanged, exhaustive, lemma_exchanged_exhaustive, lemma_exchanged_sound, sound};

verus! {

/// The search is sound and, where `complete` is asked, exhaustive.
pub open spec fn steady(caps: Seq<i32>, p: Progress, complete: bool) -> bool {
    sound(caps, p) && (complete ==> exhaustive(caps, p))
}

/// The search `p` with other pending nodes: those of `before`, then the
/// nodes of `entries`, then those of `behind`.
pub open spec fn around(
    p: Progress,
    before: Seq<NodeView>,
    entries: Seq<EntryView>,
    behind: Seq<NodeView>,
) -> Progress {
    Progress { pending: before + nodes_of(entries) + behind, ..p }
}

/// That a search is steady does not depend on the order of its entries.
pub proof fn lemma_steady_any_order(
    caps: Seq<i32>,
    p: Progress,
    before: Seq<NodeView>,
    behind: Seq<NodeView>,
    complete: bool,
)
    ensures
        swap_closed(|entries: Seq<EntryView>| steady(caps, around(p, before, entries, behind), complete)),
{
    let keeps = |entries: Seq<EntryView>| steady(caps, around(p, before, entries, behind), complete);
    assert forall|entries: Seq<EntryView>, i: int, j: int|
        0 <= i < entries.len() && 0 <= j < entries.len() && keeps(entries) implies #[trigger] keeps(
        swapped(entries, i, j),
    ) by {
        let here = around(p, before, entries, behind);
        let there = around(p, before, swapped(entries, i, j), behind);
        assert(there.pending == exchanged(here, before.len() + i, before.len() + j).pending);
        lemma_exchanged_sound(caps, here, before.len() + i, before.len() + j);
        if complete {
            lemma_exchanged_exhaustive(caps, here, before.len() + i, before.len() + j);
        }
    }
}

/// A search stays steady when the last of its entries, put in the place of
/// the first that was taken out, settles in the heap.
pub proof fn lemma_popped_steady(
    caps: Seq<i32>,
    p: Progress,
    before: Seq<NodeView>,
    entries: Seq<EntryView>,
    behind: Seq<NodeView>,
    complete: bool,
)
    requires
        entries.len() > 0,
        steady(
            caps,
            around(p, before, swapped(entries, 0, entries.len() - 1).drop_last(), behind),
            complete,
        ),
    ensures
        steady(caps, around(p, before, popped(entries), behind), complete),
{
    reveal(popped);
    let keeps = |entries: Seq<EntryView>| steady(caps, around(p, before, entries, behind), complete);
    let moved = swapped(entries, 0, entries.len() - 1).drop_last();
    lemma_steady_any_order(caps, p, before, behind, complete);
    assert(keeps(moved));
    if moved.len() > 0 {
        lemma_sunk_keeps(moved, 0, keeps);
        lemma_sifted_up_keeps(sunk(moved, 0), bottom(moved, 0), keeps);
    }
    assert(keeps(popped(entries)));
}

/// A search stays steady when pending nodes are pushed into the heap.
pub proof fn lemma_pushed_all_steady(
    caps: Seq<i32>,
    p: Progress,
    before: Seq<NodeView>,
    entries: Seq<EntryView>,
    more: Seq<EntryView>,
    behind: Seq<NodeView>,
    complete: bool,
)
    requires
        steady(caps, around(p, before, entries + more, behind), complete),
    ensures
        steady(caps, around(p, before, pushed_all(entries, more), behind), complete),
    decreases more.len(),
{
    reveal(pushed);
    if more.len() == 0 {
        assert(entries + more == entries);
    } else {
        let fewer = more.drop_last();
        let last = more.last();
        let further = seq![last.node] + behind;
        assert(around(p, before, entries + fewer, further).pending == around(
            p,
            before,
            entries + more,
            behind,
        ).pending);
        lemma_pushed_all_steady(caps, p, before, entries, fewer, further, complete);
        let heap = pushed_all(entries, fewer);
        assert(around(p, before, heap.push(last), behind).pending == around(
            p,
            before,
            heap,
            further,
        ).pending);
        let keeps = |entries: Seq<EntryView>| steady(caps, around(p, before, entries, behind), complete);
        lemma_steady_any_order(caps, p, before, behind, complete);
        assert(keeps(heap.push(last)));
        lemma_sifted_up_keeps(heap.push(last), heap.len() as int, keeps);
        assert(keeps(pushed_all(entries, more)));
    }
}

} // verus!
