//! Sequences of pours played from the initial state.

use vstd::prelude::*;
use crate::game::{Action, Game, State, fits, goal, initial_pitchers, legal, lemma_initial_fits, lemma_pour_fits, poured, well_formed};

verus! {

/// The amounts after the pours of `path`, played in order from the initial
/// state.
pub open spec fn state_after(caps: Seq<i32>, path: Seq<Action>) -> Seq<i32>
    decreases path.len(),
{
    if path.len() == 0 {
        initial_pitchers(caps)
    } else {
        poured(caps, state_after(caps, path.drop_last()), path.last())
    }
}

/// Every pour of `path` is legal in the state that the pours before it
/// lead to.
pub open spec fn playable(caps: Seq<i32>, path: Seq<Action>) -> bool
    decreases path.len(),
{
    path.len() > 0 ==> {
        &&& playable(caps, path.drop_last())
        &&& legal(caps, state_after(caps, path.drop_last()), path.last())
    }
}

/// `path` can be played from the initial state and ends in a goal state.
pub open spec fn solves(caps: Seq<i32>, path: Seq<Action>) -> bool {
    playable(caps, path) && goal(caps, state_after(caps, path))
}

/// `path` solves the game and ends in another state than the initial one.
///
/// The searches test a state when they first meet it, and the initial state
/// is met before any pour: these are the solutions that they can find.
pub open spec fn discovers(caps: Seq<i32>, path: Seq<Action>) -> bool {
    solves(caps, path) && state_after(caps, path) != initial_pitchers(caps)
}

/// Some sequence of pours ends in a goal state other than the initial one.
pub open spec fn solvable(caps: Seq<i32>) -> bool {
    exists|path: Seq<Action>| discovers(caps, path)
}

/// What a returned value stands for.
pub open spec fn answer_view(result: Option<Vec<Action>>) -> Option<Seq<Action>> {
    match result {
        Some(path) => Some(path@),
        None => None,
    }
}

/// A playable sequence stays playable when a pour is added that is legal
/// where the sequence ends, and then ends where that pour leads.
pub proof fn lemma_extend(caps: Seq<i32>, path: Seq<Action>, action: Action)
    requires
        playable(caps, path),
        legal(caps, state_after(caps, path), action),
    ensures
        playable(caps, path.push(action)),
        state_after(caps, path.push(action)) == poured(caps, state_after(caps, path), action),
{
    assert(path.push(action).drop_last() == path);
}

/// The first `k` pours of a playable sequence are playable, and the next
/// pour is legal where they end.
pub proof fn lemma_prefix(caps: Seq<i32>, path: Seq<Action>, k: int)
    requires
        playable(caps, path),
        0 <= k <= path.len(),
    ensures
        playable(caps, path.take(k)),
        k < path.len() ==> {
            &&& legal(caps, state_after(caps, path.take(k)), path[k])
            &&& state_after(caps, path.take(k + 1)) == poured(
                caps,
                state_after(caps, path.take(k)),
                path[k],
            )
        },
    decreases path.len(),
{
    if k == path.len() {
        assert(path.take(k) == path);
    } else if k == path.len() - 1 {
        assert(path.take(k) == path.drop_last());
        assert(path.take(k + 1) == path);
    } else {
        lemma_prefix(caps, path.drop_last(), k);
        assert(path.drop_last().take(k) == path.take(k));
        assert(path.drop_last().take(k + 1) == path.take(k + 1));
    }
}

/// A playable sequence ends in a state of the game.
pub proof fn lemma_playable_fits(caps: Seq<i32>, path: Seq<Action>)
    requires
        well_formed(caps),
        playable(caps, path),
    ensures
        fits(caps, state_after(caps, path)),
    decreases path.len(),
{
    if path.len() == 0 {
        lemma_initial_fits(caps);
    } else {
        lemma_playable_fits(caps, path.drop_last());
        lemma_pour_fits(caps, state_after(caps, path.drop_last()), path.last());
    }
}

/// Plays the pours of `answer` from the initial state, and returns the
/// state after each of them; `None` if one of them is not legal where the
/// pours before it lead.
pub fn replay(game: &Game, answer: &[Action]) -> (result: Option<Vec<State>>)
    requires
        well_formed(game@),
    ensures
        result is Some <==> playable(game@, answer@),
        result matches Some(states) ==> {
            &&& states@.len() == answer@.len()
            &&& forall|i: int|
                0 <= i < states@.len() ==> (#[trigger] states@[i])@ == state_after(
                    game@,
                    answer@.take(i + 1),
                )
        },
{
    let mut states: Vec<State> = Vec::new();
    let mut state = game.initial_state();
    let mut i: usize = 0;
    assert(answer@.take(0) == Seq::<Action>::empty());
    while i < answer.len()
        invariant
            i <= answer.len(),
            well_formed(game@),
            playable(game@, answer@.take(i as int)),
            state@ == state_after(game@, answer@.take(i as int)),
            states@.len() == i,
            forall|j: int|
                0 <= j < i ==> (#[trigger] states@[j])@ == state_after(game@, answer@.take(j + 1)),
        decreases answer.len() - i,
    {
        let ghost played = answer@.take(i as int);
        proof {
            lemma_playable_fits(game@, played);
            assert(answer@.take(i + 1).drop_last() == played);
        }
        if !game.is_legal(&state, &answer[i]) {
            proof {
                if playable(game@, answer@) {
                    lemma_prefix(game@, answer@, i as int);
                }
            }
            return None;
        }
        proof {
            lemma_pour_fits(game@, state@, answer@[i as int]);
        }
        state = game.next_state(&state, &answer[i]);
        states.push(state.clone());
        i += 1;
    }
    assert(answer@.take(answer@.len() as int) == answer@);
    Some(states)
}

} // verus!
