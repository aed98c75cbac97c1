//! A queue that hands out the node of highest score first: a binary heap.
//!
//! Only the scores are compared. Among entries of the same score the order
//! in which they leave is the one that the heap gives them: it is fixed by
//! the pushes and pops made so far, but it is neither the order in which
//! they came nor its reverse.

use vstd::prelude::*;
use crate::expansion::{Node, NodeView};

verus! {

/// A node with the score that orders it.
pub struct Entry {
    pub score: i128,
    pub node: Node,
}

/// What an [`Entry`] stands for.
pub struct EntryView {
    pub score: int,
    pub node: NodeView,
}

impl View for Entry {
    type V = EntryView;

    open spec fn view(&self) -> EntryView {
        EntryView { score: self.score as int, node: self.node@ }
    }
}

/// The node of each entry.
pub open spec fn nodes_of(entries: Seq<EntryView>) -> Seq<NodeView> {
    entries.map_values(|e: EntryView| e.node)
}

/// The entries with those at `i` and `j` exchanged.
pub open spec fn swapped(entries: Seq<EntryView>, i: int, j: int) -> Seq<EntryView> {
    entries.update(i, entries[j]).update(j, entries[i])
}

/// The place above `i` in the heap.
pub open spec fn parent(i: int) -> int {
    (i - 1) / 2
}

/// The entries after the one at `pos` has risen: it changes places with the
/// entry above it as long as that one has a lower score.
pub open spec fn sifted_up(entries: Seq<EntryView>, pos: int) -> Seq<EntryView>
    decreases pos,
{
    if 0 < pos < entries.len() && entries[pos].score > entries[parent(pos)].score {
        sifted_up(swapped(entries, pos, parent(pos)), parent(pos))
    } else {
        entries
    }
}

/// The place below `pos` that holds the higher score, the right one where
/// both hold the same; where there is one place below, that one.
pub open spec fn larger_child(entries: Seq<EntryView>, pos: int) -> int {
    let left = 2 * pos + 1;
    if left + 1 < entries.len() && entries[left].score <= entries[left + 1].score {
        left + 1
    } else {
        left
    }
}

/// The entries after the one at `pos` has sunk to the bottom: it changes
/// places with the larger of the entries below it, whatever its own score,
/// until none is below it.
pub open spec fn sunk(entries: Seq<EntryView>, pos: int) -> Seq<EntryView>
    decreases entries.len() - pos,
{
    if 0 <= pos && 2 * pos + 1 < entries.len() {
        sunk(swapped(entries, pos, larger_child(entries, pos)), larger_child(entries, pos))
    } else {
        entries
    }
}

/// The place that the entry at `pos` sinks to.
pub open spec fn bottom(entries: Seq<EntryView>, pos: int) -> int
    decreases entries.len() - pos,
{
    if 0 <= pos && 2 * pos + 1 < entries.len() {
        bottom(swapped(entries, pos, larger_child(entries, pos)), larger_child(entries, pos))
    } else {
        pos
    }
}

/// The heap after `entry` was pushed: it is put last, and rises.
#[verifier::opaque]
pub open spec fn pushed(entries: Seq<EntryView>, entry: EntryView) -> Seq<EntryView> {
    sifted_up(entries.push(entry), entries.len() as int)
}

/// The heap after its first entry was popped: the last entry takes its
/// place, sinks to the bottom, and rises from there.
#[verifier::opaque]
pub open spec fn popped(entries: Seq<EntryView>) -> Seq<EntryView> {
    let moved = swapped(entries, 0, entries.len() - 1).drop_last();
    sifted_up(sunk(moved, 0), bottom(moved, 0))
}

/// The heap after the entries of `more` were pushed, one after the other.
pub open spec fn pushed_all(entries: Seq<EntryView>, more: Seq<EntryView>) -> Seq<EntryView>
    decreases more.len(),
{
    if more.len() == 0 {
        entries
    } else {
        pushed(pushed_all(entries, more.drop_last()), more.last())
    }
}

/// No entry has a higher score than the one above it.
#[verifier::opaque]
pub open spec fn ordered(entries: Seq<EntryView>) -> bool {
    forall|i: int| 0 < i < entries.len() ==> entries[parent(i)].score >= (#[trigger] entries[i]).score
}

/// The entries are ordered but for the entry at `pos`, which may have a
/// higher score than the one above it, or a lower one than those below it;
/// and the entries below `pos` have no higher score than the one above it.
pub open spec fn ordered_but(entries: Seq<EntryView>, pos: int) -> bool {
    &&& forall|i: int|
        0 < i < entries.len() && i != pos && parent(i) != pos ==> entries[parent(i)].score >= (
        #[trigger] entries[i]).score
    &&& forall|i: int|
        0 < i < entries.len() && parent(i) == pos && pos > 0 ==> entries[parent(pos)].score >= (
        #[trigger] entries[i]).score
}

/// The entry at `pos` has no lower score than those below it.
pub open spec fn above_children(entries: Seq<EntryView>, pos: int) -> bool {
    forall|i: int|
        0 < i < entries.len() && parent(i) == pos ==> entries[pos].score >= (
        #[trigger] entries[i]).score
}

/// An entry that is out of order only with those above it is in order once
/// it has risen.
pub proof fn lemma_sifted_up_ordered(entries: Seq<EntryView>, pos: int)
    requires
        0 <= pos < entries.len(),
        ordered_but(entries, pos),
        above_children(entries, pos),
    ensures
        ordered(sifted_up(entries, pos)),
        sifted_up(entries, pos).len() == entries.len(),
    decreases pos,
{
    reveal(ordered);
    if 0 < pos && entries[pos].score > entries[parent(pos)].score {
        let up = parent(pos);
        let next = swapped(entries, pos, up);
        assert forall|i: int| 0 < i < next.len() && i != up && parent(i) != up implies next[parent(
            i,
        )].score >= (#[trigger] next[i]).score by {
            if parent(i) == pos {
                assert(entries[parent(pos)].score >= entries[i].score);
            } else {
                assert(entries[parent(i)].score >= entries[i].score);
            }
        }
        assert forall|i: int| 0 < i < next.len() && parent(i) == up && up > 0 implies next[parent(
            up,
        )].score >= (#[trigger] next[i]).score by {
            assert(entries[parent(up)].score >= entries[up].score);
            if i != pos {
                assert(entries[up].score >= entries[i].score);
            }
        }
        assert forall|i: int| 0 < i < next.len() && parent(i) == up implies next[up].score >= (
        #[trigger] next[i]).score by {
            if i != pos {
                assert(entries[up].score >= entries[i].score);
            }
        }
        lemma_sifted_up_ordered(next, up);
    } else {
        assert forall|i: int| 0 < i < entries.len() implies entries[parent(i)].score >= (
        #[trigger] entries[i]).score by {
            if i != pos && parent(i) != pos {
                assert(entries[parent(i)].score >= entries[i].score);
            }
        }
    }
}

/// An entry that is out of order sinks to a place with nothing below it,
/// and is then out of order only with the entries above it.
pub proof fn lemma_sunk_ordered(entries: Seq<EntryView>, pos: int)
    requires
        0 <= pos < entries.len(),
        ordered_but(entries, pos),
    ensures
        sunk(entries, pos).len() == entries.len(),
        0 <= bottom(entries, pos) < entries.len(),
        ordered_but(sunk(entries, pos), bottom(entries, pos)),
        above_children(sunk(entries, pos), bottom(entries, pos)),
    decreases entries.len() - pos,
{
    if 2 * pos + 1 < entries.len() {
        let down = larger_child(entries, pos);
        let next = swapped(entries, pos, down);
        assert(parent(down) == pos);
        assert forall|i: int|
            0 < i < next.len() && i != down && parent(i) != down implies next[parent(i)].score >= (
        #[trigger] next[i]).score by {
            if i == pos {
                assert(entries[parent(pos)].score >= entries[down].score);
            } else if parent(i) == pos {
                assert(i == 2 * pos + 1 || i == 2 * pos + 2);
            } else {
                assert(entries[parent(i)].score >= entries[i].score);
            }
        }
        assert forall|i: int|
            0 < i < next.len() && parent(i) == down && down > 0 implies next[parent(down)].score >= (
        #[trigger] next[i]).score by {
            assert(entries[parent(i)].score >= entries[i].score);
        }
        lemma_sunk_ordered(next, down);
    }
}

/// A heap of one entry at most is in order.
pub proof fn lemma_ordered_alone(entries: Seq<EntryView>)
    requires
        entries.len() <= 1,
    ensures
        ordered(entries),
{
    reveal(ordered);
}

/// Pushing keeps a heap in order.
pub proof fn lemma_pushed_ordered(entries: Seq<EntryView>, entry: EntryView)
    requires
        ordered(entries),
    ensures
        ordered(pushed(entries, entry)),
        pushed(entries, entry).len() == entries.len() + 1,
{
    reveal(pushed);
    reveal(ordered);
    let longer = entries.push(entry);
    let last = entries.len() as int;
    assert forall|i: int| 0 < i < longer.len() && i != last && parent(i) != last implies longer[parent(
        i,
    )].score >= (#[trigger] longer[i]).score by {
        assert(entries[parent(i)].score >= entries[i].score);
    }
    lemma_sifted_up_ordered(longer, last);
}

/// Popping keeps a heap in order.
pub proof fn lemma_popped_ordered(entries: Seq<EntryView>)
    requires
        entries.len() > 0,
        ordered(entries),
    ensures
        ordered(popped(entries)),
        popped(entries).len() == entries.len() - 1,
{
    reveal(popped);
    reveal(ordered);
    let moved = swapped(entries, 0, entries.len() - 1).drop_last();
    if moved.len() > 0 {
        assert forall|i: int| 0 < i < moved.len() && i != 0 && parent(i) != 0 implies moved[parent(
            i,
        )].score >= (#[trigger] moved[i]).score by {
            assert(entries[parent(i)].score >= entries[i].score);
        }
        lemma_sunk_ordered(moved, 0);
        lemma_sifted_up_ordered(sunk(moved, 0), bottom(moved, 0));
    }
}

/// Pushing several entries keeps a heap in order.
pub proof fn lemma_pushed_all_ordered(entries: Seq<EntryView>, more: Seq<EntryView>)
    requires
        ordered(entries),
    ensures
        ordered(pushed_all(entries, more)),
        pushed_all(entries, more).len() == entries.len() + more.len(),
    decreases more.len(),
{
    if more.len() > 0 {
        lemma_pushed_all_ordered(entries, more.drop_last());
        lemma_pushed_ordered(pushed_all(entries, more.drop_last()), more.last());
    }
}

/// In a heap in order no entry has a higher score than the first.
pub proof fn lemma_first_is_highest(entries: Seq<EntryView>, i: int)
    requires
        ordered(entries),
        0 <= i < entries.len(),
    ensures
        entries[i].score <= entries[0].score,
    decreases i,
{
    reveal(ordered);
    if i > 0 {
        lemma_first_is_highest(entries, parent(i));
    }
}

/// What `keeps` says of some entries it says of them in any order.
pub open spec fn swap_closed(keeps: spec_fn(Seq<EntryView>) -> bool) -> bool {
    forall|entries: Seq<EntryView>, i: int, j: int|
        0 <= i < entries.len() && 0 <= j < entries.len() && keeps(entries) ==> #[trigger] keeps(
            swapped(entries, i, j),
        )
}

/// What does not depend on the order of the entries still holds after an
/// entry has risen.
pub proof fn lemma_sifted_up_keeps(
    entries: Seq<EntryView>,
    pos: int,
    keeps: spec_fn(Seq<EntryView>) -> bool,
)
    requires
        swap_closed(keeps),
        keeps(entries),
        0 <= pos < entries.len(),
    ensures
        keeps(sifted_up(entries, pos)),
    decreases pos,
{
    if 0 < pos && entries[pos].score > entries[parent(pos)].score {
        let next = swapped(entries, pos, parent(pos));
        assert(keeps(next));
        lemma_sifted_up_keeps(next, parent(pos), keeps);
    }
}

/// What does not depend on the order of the entries still holds after an
/// entry has sunk.
pub proof fn lemma_sunk_keeps(
    entries: Seq<EntryView>,
    pos: int,
    keeps: spec_fn(Seq<EntryView>) -> bool,
)
    requires
        swap_closed(keeps),
        keeps(entries),
        0 <= pos < entries.len(),
    ensures
        keeps(sunk(entries, pos)),
        sunk(entries, pos).len() == entries.len(),
        0 <= bottom(entries, pos) < entries.len(),
    decreases entries.len() - pos,
{
    if 2 * pos + 1 < entries.len() {
        let down = larger_child(entries, pos);
        let next = swapped(entries, pos, down);
        assert(keeps(next));
        lemma_sunk_keeps(next, down, keeps);
    }
}

/// The entries that wait, laid out as a binary heap.
///
/// A place of the heap is empty only while two entries change places.
pub struct PriorityQueue {
    slots: Vec<Option<Entry>>,
}

impl View for PriorityQueue {
    type V = Seq<EntryView>;

    /// The entries in the order of the heap: below the entry at `i` stand
    /// those at `2 * i + 1` and `2 * i + 2`.
    closed spec fn view(&self) -> Seq<EntryView> {
        self.slots@.map_values(|slot: Option<Entry>| slot.unwrap()@)
    }
}

impl PriorityQueue {
    /// Every place of the heap holds an entry.
    pub closed spec fn filled(&self) -> bool {
        forall|i: int| 0 <= i < self.slots@.len() ==> (#[trigger] self.slots@[i]) is Some
    }

    /// Every place of the heap holds an entry, and the heap is in order.
    pub open spec fn well_formed(&self) -> bool {
        self.filled() && ordered(self@)
    }

    /// The empty queue.
    pub fn new() -> (queue: PriorityQueue)
        ensures
            queue.well_formed(),
            queue@ == Seq::<EntryView>::empty(),
    {
        let queue = PriorityQueue { slots: Vec::new() };
        proof {
            reveal(ordered);
            assert(queue@ == Seq::<EntryView>::empty());
        }
        queue
    }

    /// The number of entries that wait.
    pub fn len(&self) -> (count: usize)
        ensures
            count == self@.len(),
    {
        self.slots.len()
    }

    /// Exchanges the entries at `i` and `j`.
    fn exchange(&mut self, i: usize, j: usize)
        requires
            old(self).filled(),
            i < old(self)@.len(),
            j < old(self)@.len(),
        ensures
            final(self).filled(),
            final(self)@ == swapped(old(self)@, i as int, j as int),
    {
        if i != j {
            let first = self.slots[i].take();
            let second = self.slots[j].take();
            self.slots[i] = second;
            self.slots[j] = first;
        }
        assert(self@ == swapped(old(self)@, i as int, j as int));
    }

    /// The score of the entry at `i`.
    fn score_at(&self, i: usize) -> (score: i128)
        requires
            self.filled(),
            i < self@.len(),
        ensures
            score == self@[i as int].score,
    {
        match &self.slots[i] {
            Some(entry) => entry.score,
            None => 0,
        }
    }

    /// Lets the entry at `pos` rise.
    fn sift_up(&mut self, from: usize)
        requires
            old(self).filled(),
            from < old(self)@.len(),
        ensures
            final(self).filled(),
            final(self)@ == sifted_up(old(self)@, from as int),
    {
        let mut pos = from;
        while pos > 0 && self.score_at(pos) > self.score_at((pos - 1) / 2)
            invariant
                self.filled(),
                pos < self@.len(),
                sifted_up(self@, pos as int) == sifted_up(old(self)@, from as int),
            decreases pos,
        {
            let above = (pos - 1) / 2;
            self.exchange(pos, above);
            pos = above;
        }
    }

    /// Lets the entry at `pos` sink to the bottom, and returns its place.
    fn sink(&mut self, from: usize) -> (at: usize)
        requires
            old(self).filled(),
            from < old(self)@.len(),
        ensures
            final(self).filled(),
            final(self)@ == sunk(old(self)@, from as int),
            at == bottom(old(self)@, from as int),
            at < final(self)@.len(),
            final(self)@.len() == old(self)@.len(),
    {
        let end = self.slots.len();
        let mut pos = from;
        while pos < end / 2
            invariant
                self.filled(),
                end == self@.len(),
                end == old(self)@.len(),
                pos < end,
                sunk(self@, pos as int) == sunk(old(self)@, from as int),
                bottom(self@, pos as int) == bottom(old(self)@, from as int),
            decreases end - pos,
        {
            let left = 2 * pos + 1;
            let child = if left + 1 < end && self.score_at(left) <= self.score_at(left + 1) {
                left + 1
            } else {
                left
            };
            self.exchange(pos, child);
            pos = child;
        }
        pos
    }

    /// Adds an entry.
    pub fn push(&mut self, entry: Entry)
        requires
            old(self).well_formed(),
        ensures
            final(self).well_formed(),
            final(self)@ == pushed(old(self)@, entry@),
    {
        let ghost before = self@;
        let ghost added = entry@;
        let last = self.slots.len();
        self.slots.push(Some(entry));
        assert(self@ == before.push(added));
        self.sift_up(last);
        proof {
            reveal(pushed);
            lemma_pushed_ordered(before, added);
        }
    }

    /// Takes out the first entry of the heap: none has a higher score.
    /// `None` when the queue is empty.
    pub fn pop(&mut self) -> (taken: Option<Entry>)
        requires
            old(self).well_formed(),
        ensures
            final(self).well_formed(),
            match taken {
                Some(entry) => {
                    &&& old(self)@.len() > 0
                    &&& entry@ == old(self)@[0]
                    &&& forall|i: int|
                        0 <= i < old(self)@.len() ==> (#[trigger] old(self)@[i]).score <= entry.score
                    &&& final(self)@ == popped(old(self)@)
                },
                None => old(self)@.len() == 0 && final(self)@ == old(self)@,
            },
    {
        if self.slots.len() == 0 {
            return None;
        }
        let ghost before = self@;
        let last = self.slots.len() - 1;
        self.exchange(0, last);
        let ghost exchanged = self@;
        assert(self.slots@.len() == exchanged.len());
        assert(self.slots@[last as int] is Some);
        assert(self.slots@[last as int].unwrap()@ == exchanged[last as int]);
        let taken = self.slots.pop().unwrap();
        assert(self@ == exchanged.drop_last());
        if self.slots.len() > 0 {
            let at = self.sink(0);
            self.sift_up(at);
        }
        proof {
            reveal(popped);
            assert(self@ == popped(before));
            assert(taken.unwrap()@ == before[0]);
            lemma_popped_ordered(before);
            assert forall|i: int| 0 <= i < before.len() implies (#[trigger] before[i]).score
                <= before[0].score by {
                lemma_first_is_highest(before, i);
            }
        }
        taken
    }
}

} // verus!
