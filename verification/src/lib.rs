//! Search strategies over the state space of a water-pouring puzzle.
//!
//! The puzzle ([`game`]) is a small transition system: a state holds the
//! amount in each pitcher, an action pours one pitcher into another, and a
//! state is a goal when some pitcher holds half of what the first one can
//! hold. Four strategies look for a sequence of pours from the initial state
//! to a goal state: [`breadth_first_search`], [`best_first_search`],
//! [`beam_search`] and [`random_search`]; [`strategy`] puts them behind one
//! entry point.
//!
//! The first three share their parts: the set of the states met
//! ([`visited`]), the expansion of a node ([`expansion`]), and for the two
//! greedy ones the score of a state ([`scoring`]) and the queue that orders
//! the nodes by it ([`priority_queue`]). Each of them is described step by
//! step by a function on plain values, and returns what that description
//! ends with. What holds at every step is stated in [`progress`] and, for
//! the nodes held in a heap, in [`frontier`]; [`paths`] says what a solution
//! is, and [`agreement`] how the results of the strategies relate.

pub mod game;
pub mod paths;
pub mod visited;
pub mod expansion;
pub mod progress;
pub mod scoring;
pub mod priority_queue;
pub mod frontier;
pub mod breadth_first_search;
pub mod best_first_search;
pub mod beam_search;
pub mod random_search;
pub mod strategy;
pub mod agreement;
