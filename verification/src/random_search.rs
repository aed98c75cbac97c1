//! Random walk: from the initial state, one legal pour after another is
//! picked at random, until a goal state is reached or the budget is spent.

use rand::rngs::ThreadRng;
use vstd::prelude::*;
use crate::expansion::{Node, NodeView, lemma_legal_moves_legal};
use crate::game::{Action, Game, goal, legal, legal_moves, lemma_lively_has_move, lemma_pour_fits, lively, poured, well_formed};
use crate::paths::{lemma_extend, lemma_playable_fits, playable, solves, state_after};
use crate::progress::traced;

verus! {

/// The number of pours that [`answer`] tries before it gives up.
pub const BUDGET: usize = 10000;

/// `rand::rngs::ThreadRng`, the handle of the random number generator of
/// the thread. Nothing is known of what it holds.
#[verifier::external_type_specification]
#[verifier::external_body]
pub struct ExThreadRng(ThreadRng);

/// `rand::thread_rng` hands out the random number generator of the thread,
/// which the system seeds when the thread first asks for it. Nothing is
/// claimed of the generator.
pub assume_specification[ rand::thread_rng ]() -> (rng: ThreadRng)
;

/// Calls `rand::seq::IteratorRandom::choose` on the pours. It returns
/// `None` if and only if there are none, and else one of them, picked with
/// the random numbers of `rng`.
#[verifier::external_body]
fn pick(actions: Vec<Action>, rng: &mut ThreadRng) -> (picked: Option<Action>)
    ensures
        picked is None <==> actions@.len() == 0,
        picked matches Some(action) ==> actions@.contains(action),
{
    rand::seq::IteratorRandom::choose(actions.into_iter(), rng)
}

/// No pour of `path` ends in a goal state, but perhaps the last.
pub open spec fn roaming(caps: Seq<i32>, path: Seq<Action>) -> bool {
    forall|k: int| 1 <= k < path.len() ==> !goal(caps, #[trigger] state_after(caps, path.take(k)))
}

/// `path` is a walk that reached a goal state with its last pour, within
/// the budget.
pub open spec fn arrived(caps: Seq<i32>, path: Seq<Action>, budget: nat) -> bool {
    &&& 1 <= path.len() <= budget
    &&& solves(caps, path)
    &&& roaming(caps, path)
}

/// `path` is a walk that gave up: no pour of it ends in a goal state, and
/// it spent the budget or ends where no pour is legal.
pub open spec fn gave_up(caps: Seq<i32>, path: Seq<Action>, budget: nat) -> bool {
    &&& path.len() <= budget
    &&& playable(caps, path)
    &&& roaming(caps, path)
    &&& path.len() > 0 ==> !goal(caps, state_after(caps, path))
    &&& path.len() == budget || legal_moves(caps, state_after(caps, path)).len() == 0
}

/// In a lively game a walk gives up only when its budget is spent.
pub proof fn lemma_gave_up_spent(caps: Seq<i32>, path: Seq<Action>, budget: nat)
    requires
        well_formed(caps),
        lively(caps),
        gave_up(caps, path, budget),
    ensures
        path.len() == budget,
{
    lemma_playable_fits(caps, path);
    let _ = lemma_lively_has_move(caps, state_after(caps, path));
}

/// Where a walk stands after a pour was picked.
pub enum Step {
    /// No pour is legal: the walk ends.
    Stuck,
    /// The pour led to a goal state: the pours of the walk.
    Arrived(Vec<Action>),
    /// The pour led to a state that is no goal: the walk goes on from it.
    Moved(Node),
}

/// Takes the walk one pour further: `picked` is the pour picked among the
/// legal pours of the node's state, `None` where there is none.
pub fn step(game: &Game, node: Node, picked: Option<Action>) -> (outcome: Step)
    requires
        well_formed(game@),
        traced(game@, node@),
        picked matches Some(action) ==> legal(game@, node@.state, action),
    ensures
        match picked {
            None => outcome is Stuck,
            Some(action) => {
                let next = poured(game@, node@.state, action);
                if goal(game@, next) {
                    outcome matches Step::Arrived(path) && path@ == node@.answer.push(action)
                } else {
                    outcome matches Step::Moved(moved) && moved@ == (NodeView {
                        state: next,
                        answer: node@.answer.push(action),
                    })
                }
            },
        },
{
    match picked {
        None => Step::Stuck,
        Some(action) => {
            proof {
                lemma_playable_fits(game@, node@.answer);
                lemma_pour_fits(game@, node@.state, action);
            }
            let state = game.next_state(&node.state, &action);
            let mut answer = node.answer;
            answer.push(action);
            if game.is_goal(&state) {
                Step::Arrived(answer)
            } else {
                Step::Moved(Node { state, answer })
            }
        },
    }
}

/// Walks at random from the initial state, for `budget` pours at most.
///
/// A sequence returned is a walk that reached a goal state with its last
/// pour. `None` is returned after a walk that spent the budget, or ended
/// where no pour is legal, without reaching one.
pub fn answer_within(game: &Game, budget: usize) -> (result: Option<Vec<Action>>)
    requires
        well_formed(game@),
    ensures
        result matches Some(path) ==> arrived(game@, path@, budget as nat),
        result is None ==> exists|path: Seq<Action>| gave_up(game@, path, budget as nat),
{
    let mut rng = rand::thread_rng();
    let mut node = Node { state: game.initial_state(), answer: Vec::new() };
    let mut i: usize = 0;
    while i < budget
        invariant
            i <= budget,
            well_formed(game@),
            traced(game@, node@),
            node@.answer.len() == i,
            roaming(game@, node@.answer),
            i > 0 ==> !goal(game@, node@.state),
        decreases budget - i,
    {
        let ghost walked = node@.answer;
        proof {
            lemma_playable_fits(game@, walked);
        }
        let actions = game.legal_actions(&node.state);
        let ghost offered = actions@;
        let picked = pick(actions, &mut rng);
        proof {
            if let Some(action) = picked {
                let j = choose|j: int| 0 <= j < offered.len() && offered[j] == action;
                lemma_legal_moves_legal(game@, node@.state, j);
                lemma_extend(game@, walked, action);
                lemma_roaming(game@, walked, action);
            }
        }
        match step(game, node, picked) {
            Step::Stuck => {
                assert(gave_up(game@, walked, budget as nat));
                return None;
            },
            Step::Arrived(path) => {
                return Some(path);
            },
            Step::Moved(moved) => {
                node = moved;
            },
        }
        i += 1;
    }
    assert(gave_up(game@, node@.answer, budget as nat));
    None
}

/// A walk that met no goal state on its way has met none before the last
/// pour when one more pour is added.
proof fn lemma_roaming(caps: Seq<i32>, path: Seq<Action>, action: Action)
    requires
        roaming(caps, path),
        path.len() > 0 ==> !goal(caps, state_after(caps, path)),
    ensures
        roaming(caps, path.push(action)),
{
    let longer = path.push(action);
    assert forall|k: int| 1 <= k < longer.len() implies !goal(
        caps,
        #[trigger] state_after(caps, longer.take(k)),
    ) by {
        if k < path.len() {
            assert(longer.take(k) == path.take(k));
        } else {
            assert(longer.take(k) == path);
        }
    }
}

/// Walks at random from the initial state, for [`BUDGET`] pours at most.
pub fn answer(game: &Game) -> (result: Option<Vec<Action>>)
    requires
        well_formed(game@),
    ensures
        result matches Some(path) ==> arrived(game@, path@, BUDGET as nat),
        result is None ==> exists|path: Seq<Action>| gave_up(game@, path, BUDGET as nat),
{
    answer_within(game, BUDGET)
}

} // verus!
