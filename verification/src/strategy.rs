//! The four searches behind one entry point.

use vstd::prelude::*;
use crate::beam_search;
use crate::best_first_search;
use crate::breadth_first_search;
use crate::game::{Action, Game, well_formed};
use crate::paths::{answer_view, discovers, solvable, solves};
use crate::progress::shortest;
use crate::random_search;

verus! {

/// A way to search, with what it needs to be told.
pub enum Strategy {
    /// Breadth first: exhaustive, and the solution found is a shortest one.
    BreadthFirst,
    /// A walk at random, of `budget` pours at most.
    RandomWalk { budget: usize },
    /// The most promising node first: exhaustive.
    BestFirst,
    /// Layer by layer, the `width` most promising nodes of each.
    Beam { width: i32 },
}

impl Strategy {
    /// Searches `game` for a sequence of pours that ends in a goal state.
    ///
    /// Whatever the strategy, a sequence returned can be played from the
    /// initial state and ends in a goal state. The rest is what the search
    /// chosen says of its own result.
    pub fn search(&self, game: &Game) -> (result: Option<Vec<Action>>)
        requires
            well_formed(game@),
        ensures
            result matches Some(path) ==> solves(game@, path@),
            match *self {
                Strategy::BreadthFirst => {
                    &&& breadth_first_search::ends_with(game@, answer_view(result))
                    &&& result matches Some(path) ==> discovers(game@, path@) && shortest(
                        game@,
                        path@,
                    )
                    &&& result is None <==> !solvable(game@)
                },
                Strategy::RandomWalk { budget } => {
                    &&& result matches Some(path) ==> random_search::arrived(
                        game@,
                        path@,
                        budget as nat,
                    )
                    &&& result is None ==> exists|path: Seq<Action>|
                        random_search::gave_up(game@, path, budget as nat)
                },
                Strategy::BestFirst => {
                    &&& best_first_search::ends_with(game@, answer_view(result))
                    &&& result matches Some(path) ==> discovers(game@, path@)
                    &&& result is None <==> !solvable(game@)
                },
                Strategy::Beam { width } => {
                    &&& beam_search::ends_with(game@, width as int, answer_view(result))
                    &&& result matches Some(path) ==> discovers(game@, path@)
                    &&& !solvable(game@) ==> result is None
                },
            },
    {
        match *self {
            Strategy::BreadthFirst => breadth_first_search::answer(game),
            Strategy::RandomWalk { budget } => random_search::answer_within(game, budget),
            Strategy::BestFirst => best_first_search::answer(game),
            Strategy::Beam { width } => beam_search::answer(game, width),
        }
    }
}

} // verus!
