//! Expanding a node: trying every legal pour of its state, and keeping the
//! states that were not met before.

use vstd::prelude::*;
use crate::game::{Action, Game, State, fits, goal, legal, legal_moves, lemma_pour_fits, poured, well_formed};
use crate::visited::VisitedSet;

verus! {

/// A state together with the pours that led to it.
pub struct Node {
    pub state: State,
    pub answer: Vec<Action>,
}

/// What a [`Node`] stands for: the amounts, and the pours that led to them.
pub struct NodeView {
    pub state: Seq<i32>,
    pub answer: Seq<Action>,
}

impl View for Node {
    type V = NodeView;

    open spec fn view(&self) -> NodeView {
        NodeView { state: self.state@, answer: self.answer@ }
    }
}

/// What each node of `nodes` stands for.
pub open spec fn node_views(nodes: Seq<Node>) -> Seq<NodeView> {
    nodes.map_values(|n: Node| n@)
}

/// Where an expansion stands: the states met, the nodes made for the new
/// states that are no goal, and the solution if a new state was one.
pub struct Expansion {
    pub visited: Set<Seq<i32>>,
    pub children: Seq<NodeView>,
    pub found: Option<Seq<Action>>,
}

/// The expansion of `node` after the first `k` legal pours of its state.
///
/// Each pour is tried in turn. A state met before is passed over. A new
/// state is recorded as met; if it is a goal the expansion ends there with
/// the pours that lead to it, else it becomes a child.
pub open spec fn expand_upto(caps: Seq<i32>, node: NodeView, visited: Set<Seq<i32>>, k: nat) -> Expansion
    decreases k,
{
    if k == 0 {
        Expansion { visited, children: Seq::empty(), found: None }
    } else {
        let before = expand_upto(caps, node, visited, (k - 1) as nat);
        let action = legal_moves(caps, node.state)[k - 1];
        let next = poured(caps, node.state, action);
        if before.found is Some || before.visited.contains(next) {
            before
        } else if goal(caps, next) {
            Expansion {
                visited: before.visited.insert(next),
                children: before.children,
                found: Some(node.answer.push(action)),
            }
        } else {
            Expansion {
                visited: before.visited.insert(next),
                children: before.children.push(
                    NodeView { state: next, answer: node.answer.push(action) },
                ),
                found: None,
            }
        }
    }
}

/// The expansion of `node` over all the legal pours of its state.
pub open spec fn expansion(caps: Seq<i32>, node: NodeView, visited: Set<Seq<i32>>) -> Expansion {
    expand_upto(caps, node, visited, legal_moves(caps, node.state).len())
}

/// Once a solution is found, further pours change nothing.
pub proof fn lemma_found_stays(caps: Seq<i32>, node: NodeView, visited: Set<Seq<i32>>, k: nat, later: nat)
    requires
        k <= later,
        expand_upto(caps, node, visited, k).found is Some,
    ensures
        expand_upto(caps, node, visited, later) == expand_upto(caps, node, visited, k),
    decreases later,
{
    if k < later {
        lemma_found_stays(caps, node, visited, k, (later - 1) as nat);
    }
}

/// The `i`-th legal pour of a state is legal in it.
pub proof fn lemma_legal_moves_legal(caps: Seq<i32>, pitchers: Seq<i32>, i: int)
    requires
        0 <= i < legal_moves(caps, pitchers).len(),
    ensures
        legal(caps, pitchers, legal_moves(caps, pitchers)[i]),
{
    let keep = |a: Action| legal(caps, pitchers, a);
    crate::game::index_pairs(caps.len()).lemma_filter_pred(keep, i);
}

/// An expansion loses no state, and meets a new one for each child.
pub proof fn lemma_grows(caps: Seq<i32>, node: NodeView, visited: Set<Seq<i32>>)
    requires
        visited.finite(),
    ensures
        expansion(caps, node, visited).visited.finite(),
        expansion(caps, node, visited).visited.len() >= visited.len() + expansion(
            caps,
            node,
            visited,
        ).children.len(),
{
    lemma_grows_upto(caps, node, visited, legal_moves(caps, node.state).len());
}

proof fn lemma_grows_upto(caps: Seq<i32>, node: NodeView, visited: Set<Seq<i32>>, k: nat)
    requires
        visited.finite(),
    ensures
        expand_upto(caps, node, visited, k).visited.finite(),
        expand_upto(caps, node, visited, k).visited.len() >= visited.len() + expand_upto(
            caps,
            node,
            visited,
            k,
        ).children.len(),
    decreases k,
{
    if k > 0 {
        lemma_grows_upto(caps, node, visited, (k - 1) as nat);
    }
}

/// A child stands for a state that is no goal, one pour further than its
/// parent, and there are children only where there are two pitchers.
pub proof fn lemma_children(caps: Seq<i32>, node: NodeView, visited: Set<Seq<i32>>, j: int)
    requires
        0 <= j < expansion(caps, node, visited).children.len(),
    ensures
        !goal(caps, expansion(caps, node, visited).children[j].state),
        expansion(caps, node, visited).children[j].answer.len() == node.answer.len() + 1,
        caps.len() >= 2,
{
    lemma_children_upto(caps, node, visited, legal_moves(caps, node.state).len(), j);
}

proof fn lemma_children_upto(caps: Seq<i32>, node: NodeView, visited: Set<Seq<i32>>, k: nat, j: int)
    requires
        k <= legal_moves(caps, node.state).len(),
        0 <= j < expand_upto(caps, node, visited, k).children.len(),
    ensures
        !goal(caps, expand_upto(caps, node, visited, k).children[j].state),
        expand_upto(caps, node, visited, k).children[j].answer.len() == node.answer.len() + 1,
        caps.len() >= 2,
    decreases k,
{
    if k > 0 {
        let before = expand_upto(caps, node, visited, (k - 1) as nat);
        lemma_legal_moves_legal(caps, node.state, k - 1);
        if j < before.children.len() {
            lemma_children_upto(caps, node, visited, (k - 1) as nat, j);
        }
    }
}

/// What an expansion came to.
pub enum Expanded {
    /// A new state was a goal: the pours that lead to it.
    Found(Vec<Action>),
    /// No new state was a goal: a node for each of them, in the order in
    /// which they were met.
    Children(Vec<Node>),
}

/// The pours of `answer` followed by `action`.
pub fn next_answer(answer: &[Action], action: &Action) -> (result: Vec<Action>)
    ensures
        result@ == answer@.push(*action),
{
    let mut result: Vec<Action> = Vec::with_capacity(answer.len().saturating_add(1));
    let mut i: usize = 0;
    while i < answer.len()
        invariant
            i <= answer.len(),
            result@ == answer@.take(i as int),
        decreases answer.len() - i,
    {
        result.push(answer[i]);
        i += 1;
    }
    assert(answer@.take(answer.len() as int) == answer@);
    result.push(*action);
    result
}

/// Tries every legal pour of the node's state, in order, and records each
/// state that `visited` did not hold.
pub fn expand(game: &Game, node: &Node, visited: &mut VisitedSet) -> (outcome: Expanded)
    requires
        well_formed(game@),
        fits(game@, node@.state),
        old(visited).well_formed(),
    ensures
        final(visited).well_formed(),
        final(visited)@ == expansion(game@, node@, old(visited)@).visited,
        match outcome {
            Expanded::Found(path) => expansion(game@, node@, old(visited)@).found == Some(path@),
            Expanded::Children(nodes) => {
                &&& expansion(game@, node@, old(visited)@).found is None
                &&& expansion(game@, node@, old(visited)@).children == node_views(nodes@)
            },
        },
{
    let actions = game.legal_actions(&node.state);
    let mut children: Vec<Node> = Vec::new();
    let mut i: usize = 0;
    assert(node_views(children@) == Seq::<NodeView>::empty());
    while i < actions.len()
        invariant
            i <= actions.len(),
            well_formed(game@),
            fits(game@, node@.state),
            visited.well_formed(),
            actions@ == legal_moves(game@, node@.state),
            expand_upto(game@, node@, old(visited)@, i as nat) == (Expansion {
                visited: visited@,
                children: node_views(children@),
                found: None,
            }),
        decreases actions.len() - i,
    {
        let action = actions[i];
        proof {
            lemma_legal_moves_legal(game@, node@.state, i as int);
            lemma_pour_fits(game@, node@.state, action);
        }
        let next = game.next_state(&node.state, &action);
        let ghost before = expand_upto(game@, node@, old(visited)@, i as nat);
        let ghost after = expand_upto(game@, node@, old(visited)@, (i + 1) as nat);
        assert(((i + 1) as nat - 1) as nat == i as nat);
        if visited.contains_or_insert(&next) {
            let path = next_answer(node.answer.as_slice(), &action);
            if game.is_goal(&next) {
                proof {
                    lemma_found_stays(game@, node@, old(visited)@, (i + 1) as nat, actions@.len());
                }
                return Expanded::Found(path);
            }
            let ghost nodes = node_views(children@);
            let child = Node { state: next, answer: path };
            let ghost made = child@;
            children.push(child);
            assert(node_views(children@) == nodes.push(made));
            assert(after.children == before.children.push(made));
        } else {
            assert(after == before);
            assert(visited@ == before.visited);
        }
        i += 1;
    }
    Expanded::Children(children)
}

} // verus!
