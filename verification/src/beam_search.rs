//! Beam search: the search goes layer by layer, and of each layer only the
//! most promising nodes, up to the width of the beam, are expanded.

use vstd::prelude::*;
use crate::expansion::{Expanded, Node, NodeView, expand, expansion, lemma_children, lemma_grows, node_views};
use crate::game::{Action, Game, State, fits, half, initial_pitchers, lemma_target_positive, well_formed};
use crate::paths::{answer_view, discovers, lemma_playable_fits, solvable};
use crate::frontier::{around, lemma_popped_steady, lemma_pushed_all_steady};
use crate::priority_queue::{Entry, EntryView, PriorityQueue, lemma_first_is_highest, lemma_ordered_alone, lemma_popped_ordered, lemma_pushed_all_ordered, nodes_of, ordered, popped, pushed, pushed_all, swapped};
use crate::progress::{Progress, exchanged, expanded_at, lemma_discard, lemma_exchanged_sound, lemma_expansion, lemma_opening, lemma_pending_traced, opening, sound};
use crate::scoring::{evaluate, heuristic};
use crate::visited::VisitedSet;

verus! {

/// Each child with its score: the worth of its state. The nodes of a layer
/// are the same number of pours away, so the pours do not count.
pub open spec fn scored(caps: Seq<i32>, children: Seq<NodeView>) -> Seq<EntryView> {
    children.map_values(|c: NodeView| EntryView { score: heuristic(caps, c.state), node: c })
}

/// How many nodes of a layer are expanded: all that wait, up to the width
/// of the beam.
pub open spec fn allowance(width: int, waiting: nat) -> nat {
    if width <= 0 {
        0
    } else if width < waiting {
        width as nat
    } else {
        waiting
    }
}

/// Where a beam search stands.
pub struct Search {
    /// The nodes of the current layer that wait, each with its score, in
    /// the order of the heap that holds them.
    pub layer: Seq<EntryView>,
    /// The nodes met so far for the next layer, in the order of their heap.
    pub next: Seq<EntryView>,
    /// How many nodes of the current layer are still to be expanded.
    pub quota: nat,
    /// How many nodes of the current layer were expanded.
    pub popped: nat,
    /// The states met so far.
    pub visited: Set<Seq<i32>>,
    /// The states that were expanded, in that order.
    pub expanded: Seq<Seq<i32>>,
    /// `None` while the search runs; then what it returns.
    pub outcome: Option<Option<Seq<Action>>>,
}

/// The search before its first step: the initial state met, alone in the
/// first layer with the score zero.
pub open spec fn start(caps: Seq<i32>, width: int) -> Search {
    Search {
        layer: seq![EntryView { score: 0, node: opening(caps).pending[0] }],
        next: Seq::empty(),
        quota: allowance(width, 1),
        popped: 0,
        visited: opening(caps).visited,
        expanded: opening(caps).expanded,
        outcome: None,
    }
}

/// One step of the search. While nodes of the layer are still to be
/// expanded, the first of its heap, one of highest score, is popped and
/// expanded, and its children are pushed into the next layer. After that
/// the rest of the layer is dropped and the next layer takes its place;
/// the search ends without a solution when that one is empty. It ends with
/// the first solution that an expansion finds.
pub open spec fn step(caps: Seq<i32>, width: int, s: Search) -> Search {
    if s.outcome is Some {
        s
    } else if s.quota > 0 {
        let e = expansion(caps, s.layer[0].node, s.visited);
        Search {
            layer: popped(s.layer),
            next: pushed_all(s.next, scored(caps, e.children)),
            quota: (s.quota - 1) as nat,
            popped: s.popped + 1,
            visited: e.visited,
            expanded: s.expanded.push(s.layer[0].node.state),
            outcome: match e.found {
                Some(path) => Some(Some(path)),
                None => None,
            },
        }
    } else if s.next.len() == 0 {
        Search { outcome: Some(None), ..s }
    } else {
        Search {
            layer: s.next,
            next: Seq::empty(),
            quota: allowance(width, s.next.len()),
            popped: 0,
            ..s
        }
    }
}

/// The search after `n` steps.
#[verifier::opaque]
pub open spec fn after(caps: Seq<i32>, width: int, n: nat) -> Search
    decreases n,
{
    if n == 0 {
        start(caps, width)
    } else {
        step(caps, width, after(caps, width, (n - 1) as nat))
    }
}

/// The search ends, after some number of steps, with `result`.
pub open spec fn ends_with(caps: Seq<i32>, width: int, result: Option<Seq<Action>>) -> bool {
    exists|n: nat| (#[trigger] after(caps, width, n)).outcome == Some(result)
}

/// The states met, the nodes that wait in either layer, and the states
/// expanded.
pub open spec fn progress(s: Search) -> Progress {
    Progress { visited: s.visited, pending: nodes_of(s.layer) + nodes_of(s.next), expanded: s.expanded }
}

/// What holds of the search at every step. No state is expanded twice. Of
/// no layer more nodes are expanded than the beam is wide. Both heaps are
/// in order. While the search runs it is sound, and a sequence returned is
/// a solution.
pub open spec fn consistent(caps: Seq<i32>, width: int, s: Search) -> bool {
    &&& s.expanded.no_duplicates()
    &&& ordered(s.layer)
    &&& ordered(s.next)
    &&& s.popped + s.quota <= allowance(width, s.popped + s.layer.len())
    &&& match s.outcome {
        None => sound(caps, progress(s)),
        Some(Some(path)) => discovers(caps, path),
        Some(None) => true,
    }
}

/// Expanding a node of the layer keeps the search consistent.
proof fn lemma_step_expands(caps: Seq<i32>, width: int, s: Search)
    requires
        well_formed(caps),
        consistent(caps, width, s),
        s.outcome is None,
        s.quota > 0,
    ensures
        consistent(caps, width, step(caps, width, s)),
{
    let last = s.layer.len() - 1;
    let e = expansion(caps, s.layer[0].node, s.visited);
    let rest = popped(s.layer);
    let more = scored(caps, e.children);
    lemma_popped_ordered(s.layer);
    lemma_pushed_all_ordered(s.next, more);
    let turned = exchanged(progress(s), 0, last);
    lemma_exchanged_sound(caps, progress(s), 0, last);
    let moved = swapped(s.layer, 0, last).drop_last();
    assert(turned.pending[last] == s.layer[0].node);
    lemma_expansion(caps, turned, last);
    if e.found is None {
        let q = expanded_at(turned, last, e);
        assert(turned.pending == nodes_of(swapped(s.layer, 0, last)) + nodes_of(s.next));
        assert(q.pending == nodes_of(swapped(s.layer, 0, last)).remove(last) + nodes_of(s.next)
            + e.children);
        lemma_rearranged(caps, q, s.layer, s.next, e.children);
        assert(progress(step(caps, width, s)) == (Progress {
            pending: nodes_of(rest) + nodes_of(pushed_all(s.next, more)),
            ..q
        }));
    }
}

/// A sound search stays sound when the layer settles after its first node
/// was taken out, and the children are pushed into the next layer.
proof fn lemma_rearranged(
    caps: Seq<i32>,
    q: Progress,
    layer: Seq<EntryView>,
    next: Seq<EntryView>,
    children: Seq<NodeView>,
)
    requires
        layer.len() > 0,
        sound(caps, q),
        q.pending == nodes_of(swapped(layer, 0, layer.len() - 1)).remove(layer.len() - 1) + nodes_of(
            next,
        ) + children,
    ensures
        sound(
            caps,
            Progress {
                pending: nodes_of(popped(layer)) + nodes_of(pushed_all(next, scored(caps, children))),
                ..q
            },
        ),
{
    let moved = swapped(layer, 0, layer.len() - 1).drop_last();
    let rest = popped(layer);
    let more = scored(caps, children);
    let none = Seq::<NodeView>::empty();
    let behind = nodes_of(next) + children;
    assert(around(q, none, moved, behind).pending == q.pending);
    lemma_popped_steady(caps, q, none, layer, behind, false);
    assert(around(q, nodes_of(rest), next + more, none).pending == around(
        q,
        none,
        rest,
        behind,
    ).pending);
    lemma_pushed_all_steady(caps, q, nodes_of(rest), next, more, none, false);
    assert(around(q, nodes_of(rest), pushed_all(next, more), none).pending == nodes_of(rest)
        + nodes_of(pushed_all(next, more)));
}

/// A step keeps the search consistent.
pub proof fn lemma_step(caps: Seq<i32>, width: int, s: Search)
    requires
        well_formed(caps),
        consistent(caps, width, s),
    ensures
        consistent(caps, width, step(caps, width, s)),
{
    if s.outcome is None {
        if s.quota > 0 {
            lemma_step_expands(caps, width, s);
        } else if s.next.len() > 0 {
            let from = s.layer.len() as int;
            let to = from + s.next.len();
            lemma_discard(caps, progress(s), from, to);
            lemma_ordered_alone(Seq::empty());
            assert(progress(step(caps, width, s)).pending == progress(s).pending.subrange(from, to));
            assert(progress(step(caps, width, s)) == (Progress {
                pending: progress(s).pending.subrange(from, to),
                ..progress(s)
            }));
        }
    }
}

/// What the next step of a search comes to that still has nodes of the
/// layer to expand.
proof fn lemma_next(caps: Seq<i32>, width: int, n: nat)
    requires
        well_formed(caps),
        after(caps, width, n).outcome is None,
        after(caps, width, n).quota > 0,
        after(caps, width, n).visited.finite(),
    ensures
        ({
            let s = after(caps, width, n);
            let e = expansion(caps, s.layer[0].node, s.visited);
            &&& after(caps, width, n + 1) == (Search {
                layer: popped(s.layer),
                next: pushed_all(s.next, scored(caps, e.children)),
                quota: (s.quota - 1) as nat,
                popped: s.popped + 1,
                visited: e.visited,
                expanded: after(caps, width, n + 1).expanded,
                outcome: match e.found {
                    Some(path) => Some(Some(path)),
                    None => None,
                },
            })
            &&& s.layer.len() > 0
            &&& fits(caps, s.layer[0].node.state)
            &&& e.visited.finite()
            &&& e.visited.len() >= s.visited.len() + e.children.len()
            &&& popped(s.layer).len() == s.layer.len() - 1
            &&& pushed_all(s.next, scored(caps, e.children)).len() == s.next.len() + e.children.len()
            &&& e.children.len() > 0 && e.found is None ==> caps.len() > 0 && half(caps[0] as int) > 0
        }),
{
    let s = after(caps, width, n);
    let e = expansion(caps, s.layer[0].node, s.visited);
    lemma_consistent(caps, width, n);
    lemma_unfold(caps, width, n);
    assert(progress(s).pending[0] == s.layer[0].node);
    lemma_pending_traced(caps, progress(s), 0);
    lemma_playable_fits(caps, s.layer[0].node.answer);
    lemma_grows(caps, s.layer[0].node, s.visited);
    lemma_popped_ordered(s.layer);
    lemma_pushed_all_ordered(s.next, scored(caps, e.children));
    if e.children.len() > 0 && e.found is None {
        lemma_children(caps, s.layer[0].node, s.visited, 0);
        lemma_expansion(caps, progress(s), 0);
        let child = expanded_at(progress(s), 0, e).pending[s.layer.len() + s.next.len() - 1];
        assert(child == e.children[0]);
        lemma_pending_traced(caps, expanded_at(progress(s), 0, e), progress(s).pending.len() - 1);
        lemma_playable_fits(caps, child.answer);
        lemma_target_positive(caps, child.state);
    }
}

/// The search after one more step.
pub proof fn lemma_unfold(caps: Seq<i32>, width: int, n: nat)
    ensures
        after(caps, width, 0) == start(caps, width),
        after(caps, width, n + 1) == step(caps, width, after(caps, width, n)),
{
    reveal_with_fuel(after, 2);
}

/// The search is consistent after any number of steps.
pub proof fn lemma_consistent(caps: Seq<i32>, width: int, n: nat)
    requires
        well_formed(caps),
    ensures
        consistent(caps, width, after(caps, width, n)),
    decreases n,
{
    if n == 0 {
        lemma_unfold(caps, width, 0);
        lemma_opening(caps);
        assert(progress(start(caps, width)).pending == opening(caps).pending);
        assert(progress(start(caps, width)) == opening(caps));
        lemma_ordered_alone(start(caps, width).layer);
        lemma_ordered_alone(start(caps, width).next);
    } else {
        lemma_unfold(caps, width, (n - 1) as nat);
        lemma_consistent(caps, width, (n - 1) as nat);
        lemma_step(caps, width, after(caps, width, (n - 1) as nat));
    }
}

/// Once the search has ended, further steps change nothing.
pub proof fn lemma_settled(caps: Seq<i32>, width: int, n: nat, later: nat)
    requires
        n <= later,
        after(caps, width, n).outcome is Some,
    ensures
        after(caps, width, later) == after(caps, width, n),
    decreases later,
{
    if n < later {
        lemma_unfold(caps, width, (later - 1) as nat);
        lemma_settled(caps, width, n, (later - 1) as nat);
    }
}

/// The search has one result: two runs on the same game with the same
/// width return the same.
pub proof fn lemma_deterministic(
    caps: Seq<i32>,
    width: int,
    first: Option<Seq<Action>>,
    second: Option<Seq<Action>>,
)
    requires
        ends_with(caps, width, first),
        ends_with(caps, width, second),
    ensures
        first == second,
{
    let n = choose|n: nat| (#[trigger] after(caps, width, n)).outcome == Some(first);
    let m = choose|m: nat| (#[trigger] after(caps, width, m)).outcome == Some(second);
    if n <= m {
        lemma_settled(caps, width, n, m);
    } else {
        lemma_settled(caps, width, m, n);
    }
}

/// What the search ends with: a solution or nothing, and nothing where
/// there is no solution.
pub proof fn lemma_outcome(caps: Seq<i32>, width: int, result: Option<Seq<Action>>)
    requires
        well_formed(caps),
        ends_with(caps, width, result),
    ensures
        result matches Some(path) ==> discovers(caps, path),
        !solvable(caps) ==> result is None,
{
    let n = choose|n: nat| (#[trigger] after(caps, width, n)).outcome == Some(result);
    lemma_consistent(caps, width, n);
}

/// No state is expanded more than once, however long the search runs.
pub proof fn lemma_expands_once(caps: Seq<i32>, width: int, n: nat)
    requires
        well_formed(caps),
    ensures
        after(caps, width, n).expanded.no_duplicates(),
{
    lemma_consistent(caps, width, n);
}

/// The node expanded next has the highest score of those that wait in the
/// layer.
pub proof fn lemma_expands_highest(caps: Seq<i32>, width: int, n: nat, i: int)
    requires
        well_formed(caps),
        0 <= i < after(caps, width, n).layer.len(),
    ensures
        after(caps, width, n).layer[i].score <= after(caps, width, n).layer[0].score,
{
    lemma_consistent(caps, width, n);
    lemma_first_is_highest(after(caps, width, n).layer, i);
}

/// Of no layer more nodes are expanded than the beam is wide.
pub proof fn lemma_width_bound(caps: Seq<i32>, width: int, n: nat)
    requires
        well_formed(caps),
        width >= 0,
    ensures
        after(caps, width, n).popped <= width,
{
    lemma_consistent(caps, width, n);
}

/// The score of a node of a layer: the worth of its state.
fn score(game: &Game, state: &State, _answer: &[Action]) -> (value: i128)
    requires
        game@.len() > 0,
        half(game@[0] as int) > 0,
    ensures
        value == heuristic(game@, state@),
{
    evaluate(game, state)
}

/// Pushes each child with its score.
fn push_children(game: &Game, queue: &mut PriorityQueue, nodes: Vec<Node>)
    requires
        old(queue).well_formed(),
        nodes@.len() > 0 ==> game@.len() > 0 && half(game@[0] as int) > 0,
    ensures
        final(queue).well_formed(),
        final(queue)@ == pushed_all(old(queue)@, scored(game@, node_views(nodes@))),
{
    let ghost rest = queue@;
    let ghost children = node_views(nodes@);
    for child in it: nodes
        invariant
            children == node_views(nodes@),
            it.seq() == nodes@,
            children.len() > 0 ==> game@.len() > 0 && half(game@[0] as int) > 0,
            queue.well_formed(),
            queue@ == pushed_all(rest, scored(game@, children.take(it.index() as int))),
    {
        let ghost made = child@;
        let ghost taken = children.take(it.index() as int);
        assert(children[it.index() as int] == made);
        let value = score(game, &child.state, child.answer.as_slice());
        let entry = Entry { score: value, node: child };
        queue.push(entry);
        proof {
            let longer = scored(game@, children.take(it.index() + 1));
            assert(children.take(it.index() + 1) == taken.push(made));
            assert(longer.drop_last() == scored(game@, taken));
            assert(longer.last() == entry@);
        }
    }
    assert(children.take(children.len() as int) == children);
}

/// Searches for a sequence of pours that ends in a goal state, layer by
/// layer, expanding of each layer the `beam_width` most promising nodes.
///
/// The result is that of the search described by [`step`]. A sequence
/// returned can be played from the initial state and ends in a goal state
/// other than the initial one. The search may miss a solution: `None` does
/// not say that there is none.
pub fn answer(game: &Game, beam_width: i32) -> (result: Option<Vec<Action>>)
    requires
        well_formed(game@),
    ensures
        ends_with(game@, beam_width as int, answer_view(result)),
        result matches Some(path) ==> discovers(game@, path@),
        !solvable(game@) ==> result is None,
{
    let ghost width = beam_width as int;
    let mut queue = PriorityQueue::new();
    let mut visited = VisitedSet::new();
    let first = Entry { score: 0, node: Node { state: game.initial_state(), answer: Vec::new() } };
    let ghost first_view = first@;
    queue.push(first);
    visited.contains_or_insert(&game.initial_state());
    let ghost mut n: nat = 0;
    proof {
        reveal(pushed);
        lemma_unfold(game@, width, 0);
        assert(Seq::<EntryView>::empty().push(first_view) == seq![first_view]);
        assert(queue@ == seq![first_view]);
        assert(visited@ == set![initial_pitchers(game@)]);
        assert(start(game@, width).layer == seq![first_view]);
    }
    while queue.len() > 0
        invariant
            well_formed(game@),
            visited.well_formed(),
            queue.well_formed(),
            width == beam_width,
            queue@.len() == 0 ==> after(game@, width, n).outcome == Some(None::<Seq<Action>>),
            queue@.len() > 0 ==> after(game@, width, n) == (Search {
                layer: queue@,
                next: Seq::empty(),
                quota: allowance(width, queue@.len()),
                popped: 0,
                visited: visited@,
                expanded: after(game@, width, n).expanded,
                outcome: None,
            }),
        decreases usize::MAX - visited@.len(), queue@.len(),
    {
        let mut next_queue = PriorityQueue::new();
        let waiting = queue.len();
        let quota: usize = if beam_width <= 0 {
            0
        } else if (beam_width as usize) < waiting {
            beam_width as usize
        } else {
            waiting
        };
        let mut popped: usize = 0;
        let ghost met = visited@;
        proof {
            visited.lemma_len();
        }
        while popped < quota
            invariant
                well_formed(game@),
                visited.well_formed(),
                queue.well_formed(),
                next_queue.well_formed(),
                visited@.finite(),
                visited@.len() >= met.len() + next_queue@.len(),
                popped <= quota,
                width == beam_width,
                after(game@, width, n) == (Search {
                    layer: queue@,
                    next: next_queue@,
                    quota: (quota - popped) as nat,
                    popped: popped as nat,
                    visited: visited@,
                    expanded: after(game@, width, n).expanded,
                    outcome: None,
                }),
            decreases quota - popped,
        {
            let ghost s = after(game@, width, n);
            let ghost e = expansion(game@, s.layer[0].node, s.visited);
            proof {
                lemma_next(game@, width, n);
                n = n + 1;
            }
            let entry = queue.pop().unwrap();
            match expand(game, &entry.node, &mut visited) {
                Expanded::Found(path) => {
                    proof {
                        lemma_outcome(game@, width, Some(path@));
                    }
                    return Some(path);
                },
                Expanded::Children(nodes) => {
                    push_children(game, &mut next_queue, nodes);
                },
            }
            popped += 1;
        }
        proof {
            lemma_unfold(game@, width, n);
            n = n + 1;
            visited.lemma_len();
        }
        queue = next_queue;
    }
    proof {
        lemma_outcome(game@, width, None);
    }
    None
}

} // verus!
