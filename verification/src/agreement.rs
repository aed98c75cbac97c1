//! How the results of the searches relate to each other.

use vstd::prelude::*;
use crate::beam_search;
use crate::best_first_search;
use crate::breadth_first_search;
use crate::game::{Action, well_formed};

verus! {

/// Where breadth-first search ends without a solution, best-first search
/// and beam search, whatever its width, end without one too.
pub proof fn lemma_failure_agrees(
    caps: Seq<i32>,
    width: int,
    best_first: Option<Seq<Action>>,
    beam: Option<Seq<Action>>,
)
    requires
        well_formed(caps),
        breadth_first_search::ends_with(caps, None),
        best_first_search::ends_with(caps, best_first),
        beam_search::ends_with(caps, width, beam),
    ensures
        best_first is None,
        beam is None,
{
    breadth_first_search::lemma_outcome(caps, None);
    best_first_search::lemma_outcome(caps, best_first);
    beam_search::lemma_outcome(caps, width, beam);
}

/// A solution found by best-first search or by beam search has no fewer
/// pours than the one that breadth-first search finds.
pub proof fn lemma_breadth_first_shortest(
    caps: Seq<i32>,
    width: int,
    breadth_first: Seq<Action>,
    best_first: Option<Seq<Action>>,
    beam: Option<Seq<Action>>,
)
    requires
        well_formed(caps),
        breadth_first_search::ends_with(caps, Some(breadth_first)),
        best_first_search::ends_with(caps, best_first),
        beam_search::ends_with(caps, width, beam),
    ensures
        best_first matches Some(path) && breadth_first.len() <= path.len(),
        beam matches Some(path) ==> breadth_first.len() <= path.len(),
{
    breadth_first_search::lemma_outcome(caps, Some(breadth_first));
    best_first_search::lemma_outcome(caps, best_first);
    beam_search::lemma_outcome(caps, width, beam);
}

} // verus!
