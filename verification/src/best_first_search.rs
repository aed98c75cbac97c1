//! Best-first search: the node that looks most promising is expanded next.

use vstd::prelude::*;
use crate::expansion::{Expanded, Node, NodeView, expand, expansion, lemma_children, lemma_grows, node_views};
use crate::game::{Action, Game, State, fits, half, initial_pitchers, lemma_target_positive, well_formed};
use crate::paths::{answer_view, discovers, lemma_playable_fits, solvable};
use crate::frontier::{around, lemma_popped_steady, lemma_pushed_all_steady};
use crate::priority_queue::{Entry, EntryView, PriorityQueue, lemma_first_is_highest, lemma_ordered_alone, lemma_popped_ordered, lemma_pushed_all_ordered, nodes_of, ordered, popped, pushed, pushed_all, swapped};
use crate::progress::{Progress, exchanged, exhaustive, expanded_at, lemma_exchanged_exhaustive, lemma_exchanged_sound, lemma_exhausted, lemma_expansion, lemma_opening, lemma_pending_traced, opening, sound};
use crate::scoring::{evaluate, heuristic};
use crate::visited::VisitedSet;

verus! {

/// The score of a node: the worth of its state, less one for each pour
/// that led to it.
pub open spec fn score_of(caps: Seq<i32>, node: NodeView) -> int {
    heuristic(caps, node.state) - node.answer.len()
}

/// Each child with its score.
pub open spec fn scored(caps: Seq<i32>, children: Seq<NodeView>) -> Seq<EntryView> {
    children.map_values(|c: NodeView| EntryView { score: score_of(caps, c), node: c })
}

/// Where a best-first search stands.
pub struct Search {
    /// The nodes that wait, each with its score, in the order of the heap
    /// that holds them.
    pub frontier: Seq<EntryView>,
    /// The states met so far.
    pub visited: Set<Seq<i32>>,
    /// The states that were expanded, in that order.
    pub expanded: Seq<Seq<i32>>,
    /// `None` while the search runs; then what it returns.
    pub outcome: Option<Option<Seq<Action>>>,
}

/// The search before its first step: the initial state met and waiting,
/// with the score zero.
pub open spec fn start(caps: Seq<i32>) -> Search {
    Search {
        frontier: seq![EntryView { score: 0, node: opening(caps).pending[0] }],
        visited: opening(caps).visited,
        expanded: opening(caps).expanded,
        outcome: None,
    }
}

/// One step of the search: the first node of the heap, one of highest
/// score, is popped and expanded, and its children are pushed with their
/// scores. The search ends without a solution when no node waits, and with
/// the first one that an expansion finds.
pub open spec fn step(caps: Seq<i32>, s: Search) -> Search {
    if s.outcome is Some {
        s
    } else if s.frontier.len() == 0 {
        Search { outcome: Some(None), ..s }
    } else {
        let e = expansion(caps, s.frontier[0].node, s.visited);
        Search {
            frontier: pushed_all(popped(s.frontier), scored(caps, e.children)),
            visited: e.visited,
            expanded: s.expanded.push(s.frontier[0].node.state),
            outcome: match e.found {
                Some(path) => Some(Some(path)),
                None => None,
            },
        }
    }
}

/// The search after `n` steps.
pub open spec fn after(caps: Seq<i32>, n: nat) -> Search
    decreases n,
{
    if n == 0 {
        start(caps)
    } else {
        step(caps, after(caps, (n - 1) as nat))
    }
}

/// The search ends, after some number of steps, with `result`.
pub open spec fn ends_with(caps: Seq<i32>, result: Option<Seq<Action>>) -> bool {
    exists|n: nat| (#[trigger] after(caps, n)).outcome == Some(result)
}

/// The states met, the nodes that wait and the states expanded.
pub open spec fn progress(s: Search) -> Progress {
    Progress { visited: s.visited, pending: nodes_of(s.frontier), expanded: s.expanded }
}

/// What holds of the search at every step. While it runs it is sound and
/// exhaustive. The heap is in order. No state is expanded twice. A
/// sequence returned is a solution, and none is returned only where there
/// is none.
pub open spec fn consistent(caps: Seq<i32>, s: Search) -> bool {
    &&& s.expanded.no_duplicates()
    &&& ordered(s.frontier)
    &&& match s.outcome {
        None => sound(caps, progress(s)) && exhaustive(caps, progress(s)),
        Some(Some(path)) => discovers(caps, path),
        Some(None) => !solvable(caps),
    }
}

/// A step keeps the search consistent.
pub proof fn lemma_step(caps: Seq<i32>, s: Search)
    requires
        well_formed(caps),
        consistent(caps, s),
    ensures
        consistent(caps, step(caps, s)),
{
    if s.outcome is None {
        if s.frontier.len() == 0 {
            lemma_exhausted(caps, progress(s));
        } else {
            let last = s.frontier.len() - 1;
            let e = expansion(caps, s.frontier[0].node, s.visited);
            let rest = popped(s.frontier);
            let more = scored(caps, e.children);
            lemma_popped_ordered(s.frontier);
            lemma_pushed_all_ordered(rest, more);
            let turned = exchanged(progress(s), 0, last);
            lemma_exchanged_sound(caps, progress(s), 0, last);
            lemma_exchanged_exhaustive(caps, progress(s), 0, last);
            let moved = swapped(s.frontier, 0, last).drop_last();
            assert(turned.pending[last] == s.frontier[0].node);
            lemma_expansion(caps, turned, last);
            if e.found is None {
                let q = expanded_at(turned, last, e);
                let none = Seq::<NodeView>::empty();
                assert(around(q, none, moved, e.children).pending == q.pending);
                lemma_popped_steady(caps, q, none, s.frontier, e.children, true);
                assert(around(q, none, rest + more, none).pending == around(
                    q,
                    none,
                    rest,
                    e.children,
                ).pending);
                lemma_pushed_all_steady(caps, q, none, rest, more, none, true);
                assert(progress(step(caps, s)).pending == around(
                    q,
                    none,
                    pushed_all(rest, more),
                    none,
                ).pending);
            }
        }
    }
}

/// The node expanded next has the highest score of those that wait.
pub proof fn lemma_expands_highest(caps: Seq<i32>, n: nat, i: int)
    requires
        well_formed(caps),
        0 <= i < after(caps, n).frontier.len(),
    ensures
        after(caps, n).frontier[i].score <= after(caps, n).frontier[0].score,
{
    lemma_consistent(caps, n);
    lemma_first_is_highest(after(caps, n).frontier, i);
}

/// The search is consistent after any number of steps.
pub proof fn lemma_consistent(caps: Seq<i32>, n: nat)
    requires
        well_formed(caps),
    ensures
        consistent(caps, after(caps, n)),
    decreases n,
{
    if n == 0 {
        lemma_opening(caps);
        assert(progress(start(caps)).pending == opening(caps).pending);
        assert(progress(start(caps)) == opening(caps));
        lemma_ordered_alone(start(caps).frontier);
    } else {
        lemma_consistent(caps, (n - 1) as nat);
        lemma_step(caps, after(caps, (n - 1) as nat));
    }
}

/// Once the search has ended, further steps change nothing.
pub proof fn lemma_settled(caps: Seq<i32>, n: nat, later: nat)
    requires
        n <= later,
        after(caps, n).outcome is Some,
    ensures
        after(caps, later) == after(caps, n),
    decreases later,
{
    if n < later {
        lemma_settled(caps, n, (later - 1) as nat);
    }
}

/// The search has one result: two runs on the same game return the same.
pub proof fn lemma_deterministic(caps: Seq<i32>, first: Option<Seq<Action>>, second: Option<Seq<Action>>)
    requires
        ends_with(caps, first),
        ends_with(caps, second),
    ensures
        first == second,
{
    let n = choose|n: nat| (#[trigger] after(caps, n)).outcome == Some(first);
    let m = choose|m: nat| (#[trigger] after(caps, m)).outcome == Some(second);
    if n <= m {
        lemma_settled(caps, n, m);
    } else {
        lemma_settled(caps, m, n);
    }
}

/// What the search ends with: a solution, or nothing exactly when there is
/// no solution.
pub proof fn lemma_outcome(caps: Seq<i32>, result: Option<Seq<Action>>)
    requires
        well_formed(caps),
        ends_with(caps, result),
    ensures
        result matches Some(path) ==> discovers(caps, path),
        result is None <==> !solvable(caps),
{
    let n = choose|n: nat| (#[trigger] after(caps, n)).outcome == Some(result);
    lemma_consistent(caps, n);
}

/// No state is expanded more than once, however long the search runs.
pub proof fn lemma_expands_once(caps: Seq<i32>, n: nat)
    requires
        well_formed(caps),
    ensures
        after(caps, n).expanded.no_duplicates(),
{
    lemma_consistent(caps, n);
}

/// What the next step of a search that still runs comes to.
proof fn lemma_next(caps: Seq<i32>, n: nat)
    requires
        well_formed(caps),
        after(caps, n).outcome is None,
        after(caps, n).frontier.len() > 0,
        after(caps, n).visited.finite(),
    ensures
        ({
            let s = after(caps, n);
            let e = expansion(caps, s.frontier[0].node, s.visited);
            let rest = popped(s.frontier);
            &&& after(caps, n + 1) == step(caps, s)
            &&& fits(caps, s.frontier[0].node.state)
            &&& e.visited.finite()
            &&& e.visited.len() >= s.visited.len() + e.children.len()
            &&& rest.len() == s.frontier.len() - 1
            &&& pushed_all(rest, scored(caps, e.children)).len() == rest.len() + e.children.len()
            &&& e.children.len() > 0 && e.found is None ==> caps.len() > 0 && half(caps[0] as int) > 0
        }),
{
    let s = after(caps, n);
    let e = expansion(caps, s.frontier[0].node, s.visited);
    lemma_consistent(caps, n);
    lemma_consistent(caps, n + 1);
    assert(progress(s).pending[0] == s.frontier[0].node);
    lemma_pending_traced(caps, progress(s), 0);
    lemma_playable_fits(caps, s.frontier[0].node.answer);
    lemma_grows(caps, s.frontier[0].node, s.visited);
    lemma_popped_ordered(s.frontier);
    lemma_pushed_all_ordered(popped(s.frontier), scored(caps, e.children));
    if e.children.len() > 0 && e.found is None {
        lemma_children(caps, s.frontier[0].node, s.visited, 0);
        lemma_expansion(caps, progress(s), 0);
        let child = expanded_at(progress(s), 0, e).pending[s.frontier.len() - 1];
        assert(child == e.children[0]);
        lemma_pending_traced(caps, expanded_at(progress(s), 0, e), progress(s).pending.len() - 1);
        lemma_playable_fits(caps, child.answer);
        lemma_target_positive(caps, child.state);
    }
}

/// The score of a node reached by the pours of `answer`.
fn score(game: &Game, state: &State, answer: &[Action]) -> (value: i128)
    requires
        game@.len() > 0,
        half(game@[0] as int) > 0,
    ensures
        value == heuristic(game@, state@) - answer@.len(),
{
    evaluate(game, state) - answer.len() as i128
}

/// Pushes each child with its score.
fn push_children(game: &Game, queue: &mut PriorityQueue, nodes: Vec<Node>)
    requires
        old(queue).well_formed(),
        nodes@.len() > 0 ==> game@.len() > 0 && half(game@[0] as int) > 0,
    ensures
        final(queue).well_formed(),
        final(queue)@ == pushed_all(old(queue)@, scored(game@, node_views(nodes@))),
{
    let ghost rest = queue@;
    let ghost children = node_views(nodes@);
    for child in it: nodes
        invariant
            children == node_views(nodes@),
            it.seq() == nodes@,
            children.len() > 0 ==> game@.len() > 0 && half(game@[0] as int) > 0,
            queue.well_formed(),
            queue@ == pushed_all(rest, scored(game@, children.take(it.index() as int))),
    {
        let ghost made = child@;
        let ghost taken = children.take(it.index() as int);
        assert(children[it.index() as int] == made);
        let value = score(game, &child.state, child.answer.as_slice());
        let entry = Entry { score: value, node: child };
        queue.push(entry);
        proof {
            let longer = scored(game@, children.take(it.index() + 1));
            assert(children.take(it.index() + 1) == taken.push(made));
            assert(longer.drop_last() == scored(game@, taken));
            assert(longer.last() == entry@);
        }
    }
    assert(children.take(children.len() as int) == children);
}

/// Searches for a sequence of pours that ends in a goal state, expanding
/// the most promising node first.
///
/// The result is that of the search described by [`step`]. A sequence
/// returned can be played from the initial state and ends in a goal state
/// other than the initial one. `None` is returned exactly when there is no
/// such sequence.
pub fn answer(game: &Game) -> (result: Option<Vec<Action>>)
    requires
        well_formed(game@),
    ensures
        ends_with(game@, answer_view(result)),
        result matches Some(path) ==> discovers(game@, path@),
        result is None <==> !solvable(game@),
{
    let mut queue = PriorityQueue::new();
    let mut visited = VisitedSet::new();
    let first = Entry { score: 0, node: Node { state: game.initial_state(), answer: Vec::new() } };
    let ghost first_view = first@;
    queue.push(first);
    visited.contains_or_insert(&game.initial_state());
    let ghost mut n: nat = 0;
    proof {
        reveal(pushed);
        assert(Seq::<EntryView>::empty().push(first_view) == seq![first_view]);
        assert(queue@ == seq![first_view]);
        assert(visited@ == set![initial_pitchers(game@)]);
        assert(start(game@).frontier == seq![first_view]);
    }
    while queue.len() > 0
        invariant
            well_formed(game@),
            visited.well_formed(),
            queue.well_formed(),
            after(game@, n) == (Search {
                frontier: queue@,
                visited: visited@,
                expanded: after(game@, n).expanded,
                outcome: None,
            }),
        decreases usize::MAX - visited@.len(), queue@.len(),
    {
        let ghost s = after(game@, n);
        let ghost e = expansion(game@, s.frontier[0].node, s.visited);
        proof {
            visited.lemma_len();
            lemma_next(game@, n);
            n = n + 1;
        }
        let entry = queue.pop().unwrap();
        match expand(game, &entry.node, &mut visited) {
            Expanded::Found(path) => {
                proof {
                    lemma_outcome(game@, Some(path@));
                }
                return Some(path);
            },
            Expanded::Children(nodes) => {
                push_children(game, &mut queue, nodes);
                proof {
                    visited.lemma_len();
                }
            },
        }
    }
    proof {
        assert(after(game@, n + 1).outcome == Some(None::<Seq<Action>>));
        lemma_outcome(game@, None);
    }
    None
}

} // verus!
