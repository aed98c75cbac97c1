//! Breadth-first search: the nodes wait in a queue, and the one that has
//! waited longest is expanded next.

use std::collections::VecDeque;
use vstd::prelude::*;
use crate::expansion::{Expanded, Node, NodeView, expand, expansion, lemma_grows, node_views};
use crate::game::{Action, Game, initial_pitchers, well_formed};
use crate::paths::{answer_view, discovers, lemma_playable_fits, solvable};
use crate::progress::{Progress, exhaustive, layered, lemma_exhausted, lemma_expansion, lemma_opening, lemma_pending_traced, opening, shortest, sound};
use crate::visited::VisitedSet;

verus! {

/// Where a breadth-first search stands.
pub struct Search {
    /// The nodes that wait, the next to be expanded first.
    pub queue: Seq<NodeView>,
    /// The states met so far.
    pub visited: Set<Seq<i32>>,
    /// The states that were expanded, in that order.
    pub expanded: Seq<Seq<i32>>,
    /// `None` while the search runs; then what it returns.
    pub outcome: Option<Option<Seq<Action>>>,
}

/// The search before its first step: the initial state met and waiting.
pub open spec fn start(caps: Seq<i32>) -> Search {
    Search {
        queue: opening(caps).pending,
        visited: opening(caps).visited,
        expanded: opening(caps).expanded,
        outcome: None,
    }
}

/// One step of the search: the first node of the queue is expanded, and its
/// children join the queue at the back. The search ends without a solution
/// when the queue is empty, and with the first one that an expansion finds.
pub open spec fn step(caps: Seq<i32>, s: Search) -> Search {
    if s.outcome is Some {
        s
    } else if s.queue.len() == 0 {
        Search { outcome: Some(None), ..s }
    } else {
        let e = expansion(caps, s.queue[0], s.visited);
        Search {
            queue: s.queue.remove(0) + e.children,
            visited: e.visited,
            expanded: s.expanded.push(s.queue[0].state),
            outcome: match e.found {
                Some(path) => Some(Some(path)),
                None => None,
            },
        }
    }
}

/// The search after `n` steps.
pub open spec fn after(caps: Seq<i32>, n: nat) -> Search
    decreases n,
{
    if n == 0 {
        start(caps)
    } else {
        step(caps, after(caps, (n - 1) as nat))
    }
}

/// The search ends, after some number of steps, with `result`.
pub open spec fn ends_with(caps: Seq<i32>, result: Option<Seq<Action>>) -> bool {
    exists|n: nat| (#[trigger] after(caps, n)).outcome == Some(result)
}

/// The states met, the nodes that wait and the states expanded.
pub open spec fn progress(s: Search) -> Progress {
    Progress { visited: s.visited, pending: s.queue, expanded: s.expanded }
}

/// What holds of the search at every step. While it runs it is sound,
/// exhaustive and layered. No state is expanded twice. A solution returned
/// is one of the shortest, and none is returned only where there is none.
pub open spec fn consistent(caps: Seq<i32>, s: Search) -> bool {
    &&& s.expanded.no_duplicates()
    &&& match s.outcome {
        None => sound(caps, progress(s)) && exhaustive(caps, progress(s)) && layered(
            caps,
            progress(s),
        ),
        Some(Some(path)) => discovers(caps, path) && shortest(caps, path),
        Some(None) => !solvable(caps),
    }
}

/// A step keeps the search consistent.
pub proof fn lemma_step(caps: Seq<i32>, s: Search)
    requires
        well_formed(caps),
        consistent(caps, s),
    ensures
        consistent(caps, step(caps, s)),
{
    if s.outcome is None {
        if s.queue.len() == 0 {
            lemma_exhausted(caps, progress(s));
        } else {
            lemma_expansion(caps, progress(s), 0);
        }
    }
}

/// The search is consistent after any number of steps.
pub proof fn lemma_consistent(caps: Seq<i32>, n: nat)
    requires
        well_formed(caps),
    ensures
        consistent(caps, after(caps, n)),
    decreases n,
{
    if n == 0 {
        lemma_opening(caps);
    } else {
        lemma_consistent(caps, (n - 1) as nat);
        lemma_step(caps, after(caps, (n - 1) as nat));
    }
}

/// Once the search has ended, further steps change nothing.
pub proof fn lemma_settled(caps: Seq<i32>, n: nat, later: nat)
    requires
        n <= later,
        after(caps, n).outcome is Some,
    ensures
        after(caps, later) == after(caps, n),
    decreases later,
{
    if n < later {
        lemma_settled(caps, n, (later - 1) as nat);
    }
}

/// The search has one result: two runs on the same game return the same.
pub proof fn lemma_deterministic(caps: Seq<i32>, first: Option<Seq<Action>>, second: Option<Seq<Action>>)
    requires
        ends_with(caps, first),
        ends_with(caps, second),
    ensures
        first == second,
{
    let n = choose|n: nat| (#[trigger] after(caps, n)).outcome == Some(first);
    let m = choose|m: nat| (#[trigger] after(caps, m)).outcome == Some(second);
    if n <= m {
        lemma_settled(caps, n, m);
    } else {
        lemma_settled(caps, m, n);
    }
}

/// What the search ends with: a shortest solution, or nothing exactly when
/// there is no solution.
pub proof fn lemma_outcome(caps: Seq<i32>, result: Option<Seq<Action>>)
    requires
        well_formed(caps),
        ends_with(caps, result),
    ensures
        result matches Some(path) ==> discovers(caps, path) && shortest(caps, path),
        result is None <==> !solvable(caps),
{
    let n = choose|n: nat| (#[trigger] after(caps, n)).outcome == Some(result);
    lemma_consistent(caps, n);
}

/// No state is expanded more than once, however long the search runs.
pub proof fn lemma_expands_once(caps: Seq<i32>, n: nat)
    requires
        well_formed(caps),
    ensures
        after(caps, n).expanded.no_duplicates(),
{
    lemma_consistent(caps, n);
}

/// Searches breadth first for a sequence of pours that ends in a goal
/// state.
///
/// The result is that of the search described by [`step`]. A sequence
/// returned can be played from the initial state, ends in a goal state
/// other than the initial one, and no such sequence is shorter. `None` is
/// returned exactly when there is no such sequence.
pub fn answer(game: &Game) -> (result: Option<Vec<Action>>)
    requires
        well_formed(game@),
    ensures
        ends_with(game@, answer_view(result)),
        result matches Some(path) ==> discovers(game@, path@) && shortest(game@, path@),
        result is None <==> !solvable(game@),
{
    let mut queue: VecDeque<Node> = VecDeque::new();
    let mut visited = VisitedSet::new();
    let first = Node { state: game.initial_state(), answer: Vec::new() };
    let ghost first_view = first@;
    queue.push_back(first);
    visited.contains_or_insert(&game.initial_state());
    let ghost mut n: nat = 0;
    proof {
        assert(node_views(queue@) == seq![first_view]);
        assert(visited@ == set![initial_pitchers(game@)]);
        assert(start(game@).queue == seq![first_view]);
    }
    while queue.len() > 0
        invariant
            well_formed(game@),
            visited.well_formed(),
            after(game@, n) == (Search {
                queue: node_views(queue@),
                visited: visited@,
                expanded: after(game@, n).expanded,
                outcome: None,
            }),
        decreases usize::MAX - visited@.len(), queue@.len(),
    {
        let ghost s = after(game@, n);
        let ghost met = visited@;
        let ghost waiting = node_views(queue@);
        proof {
            lemma_consistent(game@, n);
            lemma_pending_traced(game@, progress(s), 0);
            lemma_playable_fits(game@, s.queue[0].answer);
            visited.lemma_len();
        }
        let node = queue.pop_front().unwrap();
        assert(node_views(queue@) == waiting.remove(0));
        assert(node@ == waiting[0]);
        proof {
            n = n + 1;
            lemma_consistent(game@, n);
            lemma_grows(game@, s.queue[0], met);
        }
        match expand(game, &node, &mut visited) {
            Expanded::Found(path) => {
                proof {
                    lemma_outcome(game@, Some(path@));
                }
                return Some(path);
            },
            Expanded::Children(nodes) => {
                let ghost rest = node_views(queue@);
                let ghost children = node_views(nodes@);
                for child in it: nodes
                    invariant
                        children == node_views(nodes@),
                        it.seq() == nodes@,
                        node_views(queue@) == rest + children.take(it.index() as int),
                {
                    let ghost made = child@;
                    let ghost before = node_views(queue@);
                    queue.push_back(child);
                    assert(node_views(queue@) == before.push(made));
                }
                proof {
                    assert(children.take(children.len() as int) == children);
                    visited.lemma_len();
                }
            },
        }
    }
    proof {
        assert(after(game@, n + 1).outcome == Some(None::<Seq<Action>>));
        lemma_outcome(game@, None);
    }
    None
}

} // verus!
