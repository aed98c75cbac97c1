//! What holds of every search while it runs: the states met, the nodes that
//! wait to be expanded, and the states already expanded.

use vstd::prelude::*;
use crate::expansion::{Expansion, NodeView, expand_upto, expansion, lemma_legal_moves_legal};
use crate::game::{Action, goal, initial_pitchers, legal, legal_moves, lemma_legal_is_move, poured, well_formed};
use crate::paths::{discovers, lemma_extend, lemma_prefix, playable, solvable, state_after};

verus! {

/// Where a search stands.
pub struct Progress {
    /// The states met so far.
    pub visited: Set<Seq<i32>>,
    /// The nodes that wait to be expanded.
    pub pending: Seq<NodeView>,
    /// The states that were expanded, in that order.
    pub expanded: Seq<Seq<i32>>,
}

/// The pours of the node can be played, and lead to its state.
pub open spec fn traced(caps: Seq<i32>, node: NodeView) -> bool {
    playable(caps, node.answer) && state_after(caps, node.answer) == node.state
}

/// Some pending node holds the state `s`.
pub open spec fn waiting(p: Progress, s: Seq<i32>) -> bool {
    exists|i: int| 0 <= i < p.pending.len() && (#[trigger] p.pending[i]).state == s
}

/// The search has met the initial state and every state that it holds;
/// each pending node is reached by its own pours; and no state is held
/// twice, be it pending or expanded.
#[verifier::opaque]
pub open spec fn sound(caps: Seq<i32>, p: Progress) -> bool {
    &&& p.visited.contains(initial_pitchers(caps))
    &&& forall|i: int|
        0 <= i < p.pending.len() ==> traced(caps, #[trigger] p.pending[i]) && p.visited.contains(
            p.pending[i].state,
        )
    &&& forall|i: int, j: int|
        0 <= i < j < p.pending.len() ==> (#[trigger] p.pending[i]).state != (
        #[trigger] p.pending[j]).state
    &&& p.expanded.no_duplicates()
    &&& forall|k: int| 0 <= k < p.expanded.len() ==> p.visited.contains(#[trigger] p.expanded[k])
    &&& forall|i: int, k: int|
        0 <= i < p.pending.len() && 0 <= k < p.expanded.len() ==> (#[trigger] p.pending[i]).state
            != #[trigger] p.expanded[k]
}

/// Every state met is pending or expanded; every legal pour in an expanded
/// state leads to a state that was met; and no state met is a goal, but
/// perhaps the initial one.
#[verifier::opaque]
pub open spec fn exhaustive(caps: Seq<i32>, p: Progress) -> bool {
    &&& forall|s: Seq<i32>| #[trigger] p.visited.contains(s) ==> waiting(p, s) || p.expanded.contains(s)
    &&& forall|k: int, a: Action|
        0 <= k < p.expanded.len() && #[trigger] legal(caps, p.expanded[k], a) ==> p.visited.contains(
            poured(caps, p.expanded[k], a),
        )
    &&& forall|s: Seq<i32>|
        #[trigger] p.visited.contains(s) && goal(caps, s) ==> s == initial_pitchers(caps)
}

/// The pending nodes stand in the order of their number of pours, the last
/// has at most one more than the first, and no state among them can be
/// reached with fewer pours than its node has.
#[verifier::opaque]
pub open spec fn layered(caps: Seq<i32>, p: Progress) -> bool {
    &&& forall|i: int, j: int|
        0 <= i < j < p.pending.len() ==> (#[trigger] p.pending[i]).answer.len() <= (
        #[trigger] p.pending[j]).answer.len()
    &&& p.pending.len() > 0 ==> p.pending.last().answer.len() <= p.pending[0].answer.len() + 1
    &&& forall|i: int, q: Seq<Action>|
        0 <= i < p.pending.len() && #[trigger] playable(caps, q) && state_after(caps, q) == (
        #[trigger] p.pending[i]).state ==> p.pending[i].answer.len() <= q.len()
}

/// The search at its start: the initial state met and pending, with no
/// pours.
pub open spec fn opening(caps: Seq<i32>) -> Progress {
    Progress {
        visited: set![initial_pitchers(caps)],
        pending: seq![NodeView { state: initial_pitchers(caps), answer: Seq::empty() }],
        expanded: Seq::empty(),
    }
}

/// The search after it met a new state by the pour `a` from the `i`-th
/// pending node, and made a node for it.
pub open spec fn with_child(caps: Seq<i32>, p: Progress, i: int, a: Action) -> Progress {
    let next = poured(caps, p.pending[i].state, a);
    Progress {
        visited: p.visited.insert(next),
        pending: p.pending.push(NodeView { state: next, answer: p.pending[i].answer.push(a) }),
        expanded: p.expanded,
    }
}

/// The search after the `i`-th pending node was expanded.
pub open spec fn with_retired(p: Progress, i: int) -> Progress {
    Progress {
        visited: p.visited,
        pending: p.pending.remove(i),
        expanded: p.expanded.push(p.pending[i].state),
    }
}

/// The search while a pending node is being expanded: the states met so
/// far, and the children so far behind the pending nodes.
pub open spec fn grown(p: Progress, e: Expansion) -> Progress {
    Progress { visited: e.visited, pending: p.pending + e.children, expanded: p.expanded }
}

/// The search after a pending node was expanded without finding a goal.
pub open spec fn expanded_at(p: Progress, i: int, e: Expansion) -> Progress {
    Progress {
        visited: e.visited,
        pending: p.pending.remove(i) + e.children,
        expanded: p.expanded.push(p.pending[i].state),
    }
}

/// `path` has no more pours than any sequence that ends in a goal state
/// other than the initial one.
pub open spec fn shortest(caps: Seq<i32>, path: Seq<Action>) -> bool {
    forall|q: Seq<Action>| #[trigger] discovers(caps, q) ==> path.len() <= q.len()
}

/// The search with the pending nodes at `i` and `j` exchanged.
pub open spec fn exchanged(p: Progress, i: int, j: int) -> Progress {
    Progress { pending: p.pending.update(i, p.pending[j]).update(j, p.pending[i]), ..p }
}

/// The opening is sound, exhaustive and layered.
pub proof fn lemma_opening(caps: Seq<i32>)
    ensures
        sound(caps, opening(caps)),
        exhaustive(caps, opening(caps)),
        layered(caps, opening(caps)),
{
    reveal(sound);
    reveal(exhaustive);
    reveal(layered);
    let p = opening(caps);
    assert(p.pending[0].state == initial_pitchers(caps));
    assert(waiting(p, initial_pitchers(caps)));
}

/// A pending node of a sound search is reached by its own pours.
pub proof fn lemma_pending_traced(caps: Seq<i32>, p: Progress, i: int)
    requires
        sound(caps, p),
        0 <= i < p.pending.len(),
    ensures
        traced(caps, p.pending[i]),
{
    reveal(sound);
}

/// No state of a sound search was expanded twice.
pub proof fn lemma_expanded_once(caps: Seq<i32>, p: Progress)
    requires
        sound(caps, p),
    ensures
        p.expanded.no_duplicates(),
{
    reveal(sound);
}

/// Meeting a new state from a pending node keeps the search sound.
pub proof fn lemma_child_sound(caps: Seq<i32>, p: Progress, i: int, a: Action)
    requires
        sound(caps, p),
        0 <= i < p.pending.len(),
        legal(caps, p.pending[i].state, a),
        !p.visited.contains(poured(caps, p.pending[i].state, a)),
    ensures
        sound(caps, with_child(caps, p, i, a)),
        traced(caps, with_child(caps, p, i, a).pending.last()),
{
    reveal(sound);
    let q = with_child(caps, p, i, a);
    let next = poured(caps, p.pending[i].state, a);
    lemma_extend(caps, p.pending[i].answer, a);
    assert forall|m: int| 0 <= m < q.pending.len() implies traced(caps, #[trigger] q.pending[m])
        && q.visited.contains(q.pending[m].state) by {
        if m < p.pending.len() {
            assert(q.pending[m] == p.pending[m]);
        }
    }
    assert forall|m: int, n: int| 0 <= m < n < q.pending.len() implies (#[trigger] q.pending[m]).state
        != (#[trigger] q.pending[n]).state by {
        assert(q.pending[m] == p.pending[m]);
        if n < p.pending.len() {
            assert(q.pending[n] == p.pending[n]);
        }
    }
    assert forall|m: int, k: int|
        0 <= m < q.pending.len() && 0 <= k < q.expanded.len() implies (#[trigger] q.pending[m]).state
        != #[trigger] q.expanded[k] by {
        if m < p.pending.len() {
            assert(q.pending[m] == p.pending[m]);
        }
    }
}

/// Meeting a new state that is no goal keeps the search exhaustive.
pub proof fn lemma_child_exhaustive(caps: Seq<i32>, p: Progress, i: int, a: Action)
    requires
        exhaustive(caps, p),
        0 <= i < p.pending.len(),
        !goal(caps, poured(caps, p.pending[i].state, a)),
    ensures
        exhaustive(caps, with_child(caps, p, i, a)),
{
    reveal(exhaustive);
    let q = with_child(caps, p, i, a);
    assert forall|s: Seq<i32>| #[trigger] q.visited.contains(s) implies waiting(q, s)
        || q.expanded.contains(s) by {
        if p.visited.contains(s) {
            if waiting(p, s) {
                let m = choose|m: int| 0 <= m < p.pending.len() && (#[trigger] p.pending[m]).state == s;
                assert(q.pending[m].state == s);
            }
        } else {
            assert(q.pending[p.pending.len() as int].state == s);
        }
    }
}

/// A sequence of pours that ends in a state not yet met passes, before its
/// end, through the state of a pending node.
pub proof fn lemma_separation(caps: Seq<i32>, p: Progress, q: Seq<Action>) -> (at: (int, int))
    requires
        sound(caps, p),
        exhaustive(caps, p),
        playable(caps, q),
        !p.visited.contains(state_after(caps, q)),
    ensures
        0 <= at.0 < q.len(),
        0 <= at.1 < p.pending.len(),
        p.pending[at.1].state == state_after(caps, q.take(at.0)),
    decreases q.len(),
{
    reveal(sound);
    reveal(exhaustive);
    let before = q.drop_last();
    let s = state_after(caps, before);
    if p.visited.contains(s) {
        if p.expanded.contains(s) {
            let k = choose|k: int| 0 <= k < p.expanded.len() && p.expanded[k] == s;
            assert(legal(caps, p.expanded[k], q.last()));
            assert(false);
        }
        assert(waiting(p, s));
        let m = choose|m: int| 0 <= m < p.pending.len() && (#[trigger] p.pending[m]).state == s;
        assert(q.take(q.len() - 1) == before);
        (q.len() - 1, m)
    } else {
        let (j, m) = lemma_separation(caps, p, before);
        assert(before.take(j) == q.take(j));
        (j, m)
    }
}

/// Meeting a new state from the first pending node keeps the search
/// layered.
pub proof fn lemma_child_layered(caps: Seq<i32>, p: Progress, a: Action)
    requires
        sound(caps, p),
        exhaustive(caps, p),
        layered(caps, p),
        0 < p.pending.len(),
        legal(caps, p.pending[0].state, a),
        !p.visited.contains(poured(caps, p.pending[0].state, a)),
    ensures
        layered(caps, with_child(caps, p, 0, a)),
{
    reveal(sound);
    reveal(layered);
    let r = with_child(caps, p, 0, a);
    let last = p.pending.len() as int;
    lemma_extend(caps, p.pending[0].answer, a);
    assert(p.pending.last() == p.pending[last - 1]);
    assert forall|m: int, n: int| 0 <= m < n < r.pending.len() implies (
    #[trigger] r.pending[m]).answer.len() <= (#[trigger] r.pending[n]).answer.len() by {
        assert(r.pending[m] == p.pending[m]);
        if n < last {
            assert(r.pending[n] == p.pending[n]);
        } else if m < last - 1 {
            assert(p.pending[m].answer.len() <= p.pending[last - 1].answer.len());
        }
    }
    assert forall|m: int, q: Seq<Action>|
        0 <= m < r.pending.len() && #[trigger] playable(caps, q) && state_after(caps, q) == (
        #[trigger] r.pending[m]).state implies r.pending[m].answer.len() <= q.len() by {
        if m < last {
            assert(r.pending[m] == p.pending[m]);
        } else {
            lemma_shortest_beyond(caps, p, q);
        }
    }
}

/// While the search is layered, a sequence of pours that ends in a state
/// not yet met has more pours than the first pending node.
pub proof fn lemma_shortest_beyond(caps: Seq<i32>, p: Progress, q: Seq<Action>)
    requires
        sound(caps, p),
        exhaustive(caps, p),
        layered(caps, p),
        0 < p.pending.len(),
        playable(caps, q),
        !p.visited.contains(state_after(caps, q)),
    ensures
        p.pending[0].answer.len() < q.len(),
{
    reveal(layered);
    let (j, m) = lemma_separation(caps, p, q);
    lemma_prefix(caps, q, j);
    assert(playable(caps, q.take(j)) && state_after(caps, q.take(j)) == p.pending[m].state);
    assert(p.pending[m].answer.len() <= q.take(j).len());
    if m > 0 {
        assert(p.pending[0].answer.len() <= p.pending[m].answer.len());
    }
}

/// Expanding a pending node keeps the search sound.
pub proof fn lemma_retire_sound(caps: Seq<i32>, p: Progress, i: int)
    requires
        sound(caps, p),
        0 <= i < p.pending.len(),
    ensures
        sound(caps, with_retired(p, i)),
{
    reveal(sound);
    let r = with_retired(p, i);
    assert forall|m: int| 0 <= m < r.pending.len() implies #[trigger] r.pending[m] == p.pending[if m
        < i {
        m
    } else {
        m + 1
    }] by {}
    assert forall|m: int| 0 <= m < r.pending.len() implies traced(caps, #[trigger] r.pending[m])
        && r.visited.contains(r.pending[m].state) by {
        assert(r.pending[m] == p.pending[if m < i { m } else { m + 1 }]);
    }
    assert forall|m: int, n: int| 0 <= m < n < r.pending.len() implies (#[trigger] r.pending[m]).state
        != (#[trigger] r.pending[n]).state by {
        assert(r.pending[m] == p.pending[if m < i { m } else { m + 1 }]);
        assert(r.pending[n] == p.pending[if n < i { n } else { n + 1 }]);
    }
    assert forall|k: int| 0 <= k < r.expanded.len() implies r.visited.contains(
        #[trigger] r.expanded[k],
    ) by {
        if k < p.expanded.len() {
            assert(r.expanded[k] == p.expanded[k]);
        }
    }
    assert forall|m: int, k: int|
        0 <= m < r.pending.len() && 0 <= k < r.expanded.len() implies (#[trigger] r.pending[m]).state
        != #[trigger] r.expanded[k] by {
        let from = if m < i { m } else { m + 1 };
        assert(r.pending[m] == p.pending[from]);
        if k < p.expanded.len() {
            assert(r.expanded[k] == p.expanded[k]);
        } else {
            if from < i {
                assert(p.pending[from].state != p.pending[i].state);
            } else {
                assert(p.pending[i].state != p.pending[from].state);
            }
        }
    }
    assert(r.expanded.no_duplicates()) by {
        assert forall|k: int, l: int|
            0 <= k < r.expanded.len() && 0 <= l < r.expanded.len() && k != l implies r.expanded[k]
            != r.expanded[l] by {
            if k < p.expanded.len() && l < p.expanded.len() {
                assert(p.expanded[k] != p.expanded[l]);
            } else if k < p.expanded.len() {
                assert(p.pending[i].state != p.expanded[k]);
            } else {
                assert(p.pending[i].state != p.expanded[l]);
            }
        }
    }
}

/// Expanding a pending node keeps the search exhaustive, once every legal
/// pour of its state leads to a state that was met.
pub proof fn lemma_retire_exhaustive(caps: Seq<i32>, p: Progress, i: int)
    requires
        exhaustive(caps, p),
        0 <= i < p.pending.len(),
        forall|a: Action| #[trigger]
            legal(caps, p.pending[i].state, a) ==> p.visited.contains(
                poured(caps, p.pending[i].state, a),
            ),
    ensures
        exhaustive(caps, with_retired(p, i)),
{
    reveal(exhaustive);
    let r = with_retired(p, i);
    assert forall|s: Seq<i32>| #[trigger] r.visited.contains(s) implies waiting(r, s)
        || r.expanded.contains(s) by {
        if p.expanded.contains(s) {
            let k = choose|k: int| 0 <= k < p.expanded.len() && p.expanded[k] == s;
            assert(r.expanded[k] == s);
        } else {
            let m = choose|m: int| 0 <= m < p.pending.len() && (#[trigger] p.pending[m]).state == s;
            if m == i {
                assert(r.expanded[p.expanded.len() as int] == s);
            } else {
                let to = if m < i { m } else { m - 1 };
                assert(r.pending[to] == p.pending[m]);
            }
        }
    }
    assert forall|k: int, a: Action|
        0 <= k < r.expanded.len() && #[trigger] legal(caps, r.expanded[k], a) implies r.visited.contains(
        poured(caps, r.expanded[k], a),
    ) by {
        if k < p.expanded.len() {
            assert(r.expanded[k] == p.expanded[k]);
        }
    }
}

/// Expanding the first pending node keeps the search layered.
pub proof fn lemma_retire_layered(caps: Seq<i32>, p: Progress)
    requires
        layered(caps, p),
        0 < p.pending.len(),
    ensures
        layered(caps, with_retired(p, 0)),
{
    reveal(layered);
    let r = with_retired(p, 0);
    assert forall|m: int| 0 <= m < r.pending.len() implies #[trigger] r.pending[m] == p.pending[m
        + 1] by {}
    assert forall|m: int, n: int| 0 <= m < n < r.pending.len() implies (
    #[trigger] r.pending[m]).answer.len() <= (#[trigger] r.pending[n]).answer.len() by {
        assert(r.pending[m] == p.pending[m + 1]);
        assert(r.pending[n] == p.pending[n + 1]);
    }
    if r.pending.len() > 0 {
        assert(r.pending.last() == p.pending.last());
        assert(r.pending[0] == p.pending[1]);
        assert(p.pending[0].answer.len() <= p.pending[1].answer.len());
    }
    assert forall|m: int, q: Seq<Action>|
        0 <= m < r.pending.len() && #[trigger] playable(caps, q) && state_after(caps, q) == (
        #[trigger] r.pending[m]).state implies r.pending[m].answer.len() <= q.len() by {
        assert(r.pending[m] == p.pending[m + 1]);
    }
}

/// A new state that is a goal is a solution found: the pours of its node
/// can be played, and end in a goal state other than the initial one.
pub proof fn lemma_found(caps: Seq<i32>, p: Progress, i: int, a: Action)
    requires
        sound(caps, p),
        0 <= i < p.pending.len(),
        legal(caps, p.pending[i].state, a),
        !p.visited.contains(poured(caps, p.pending[i].state, a)),
        goal(caps, poured(caps, p.pending[i].state, a)),
    ensures
        discovers(caps, p.pending[i].answer.push(a)),
        state_after(caps, p.pending[i].answer.push(a)) == poured(caps, p.pending[i].state, a),
{
    reveal(sound);
    lemma_extend(caps, p.pending[i].answer, a);
}

/// While the search is layered, a solution found from the first pending
/// node has no more pours than any other.
pub proof fn lemma_found_shortest(caps: Seq<i32>, p: Progress, a: Action, q: Seq<Action>)
    requires
        sound(caps, p),
        exhaustive(caps, p),
        layered(caps, p),
        0 < p.pending.len(),
        discovers(caps, q),
    ensures
        p.pending[0].answer.push(a).len() <= q.len(),
{
    reveal(exhaustive);
    lemma_shortest_beyond(caps, p, q);
}

/// When no node is pending, every state that can be reached was met, and
/// none but perhaps the initial one is a goal.
pub proof fn lemma_exhausted(caps: Seq<i32>, p: Progress)
    requires
        sound(caps, p),
        exhaustive(caps, p),
        p.pending.len() == 0,
    ensures
        !solvable(caps),
{
    reveal(exhaustive);
    if solvable(caps) {
        let q = choose|q: Seq<Action>| discovers(caps, q);
        if !p.visited.contains(state_after(caps, q)) {
            let (_j, _m) = lemma_separation(caps, p, q);
        }
    }
}

/// Dropping pending nodes keeps the search sound.
pub proof fn lemma_discard(caps: Seq<i32>, p: Progress, from: int, to: int)
    requires
        sound(caps, p),
        0 <= from <= to <= p.pending.len(),
    ensures
        sound(caps, Progress { pending: p.pending.subrange(from, to), ..p }),
{
    reveal(sound);
    let r = Progress { pending: p.pending.subrange(from, to), ..p };
    assert forall|m: int| 0 <= m < r.pending.len() implies traced(caps, #[trigger] r.pending[m])
        && r.visited.contains(r.pending[m].state) by {
        assert(r.pending[m] == p.pending[m + from]);
    }
    assert forall|m: int, n: int| 0 <= m < n < r.pending.len() implies (#[trigger] r.pending[m]).state
        != (#[trigger] r.pending[n]).state by {
        assert(r.pending[m] == p.pending[m + from]);
        assert(r.pending[n] == p.pending[n + from]);
    }
    assert forall|m: int, k: int|
        0 <= m < r.pending.len() && 0 <= k < r.expanded.len() implies (#[trigger] r.pending[m]).state
        != #[trigger] r.expanded[k] by {
        assert(r.pending[m] == p.pending[m + from]);
    }
}

/// What holds after the first `k` legal pours of the `i`-th pending node
/// were tried.
pub proof fn lemma_expand_upto(caps: Seq<i32>, p: Progress, i: int, k: nat)
    requires
        sound(caps, p),
        0 <= i < p.pending.len(),
        k <= legal_moves(caps, p.pending[i].state).len(),
    ensures
        ({
            let e = expand_upto(caps, p.pending[i], p.visited, k);
            let moves = legal_moves(caps, p.pending[i].state);
            match e.found {
                None => {
                    &&& sound(caps, grown(p, e))
                    &&& forall|j: int|
                        0 <= j < k ==> e.visited.contains(
                            poured(caps, p.pending[i].state, #[trigger] moves[j]),
                        )
                    &&& exhaustive(caps, p) ==> exhaustive(caps, grown(p, e))
                    &&& exhaustive(caps, p) && layered(caps, p) && i == 0 ==> layered(
                        caps,
                        grown(p, e),
                    )
                },
                Some(path) => {
                    &&& discovers(caps, path)
                    &&& exhaustive(caps, p) && layered(caps, p) && i == 0 ==> shortest(caps, path)
                },
            }
        }),
    decreases k,
{
    let node = p.pending[i];
    let moves = legal_moves(caps, node.state);
    let e = expand_upto(caps, node, p.visited, k);
    if k == 0 {
        assert(grown(p, e).pending == p.pending);
        assert(grown(p, e) == p);
    } else {
        let before = expand_upto(caps, node, p.visited, (k - 1) as nat);
        lemma_expand_upto(caps, p, i, (k - 1) as nat);
        let a = moves[k - 1];
        let next = poured(caps, node.state, a);
        lemma_legal_moves_legal(caps, node.state, k - 1);
        if before.found is None {
            let g = grown(p, before);
            assert(g.pending[i] == node);
            if before.visited.contains(next) {
                assert(e == before);
            } else if goal(caps, next) {
                lemma_found(caps, g, i, a);
                if exhaustive(caps, p) && layered(caps, p) && i == 0 {
                    assert forall|q: Seq<Action>| #[trigger] discovers(caps, q) implies node.answer.push(
                        a,
                    ).len() <= q.len() by {
                        lemma_found_shortest(caps, g, a, q);
                    }
                }
            } else {
                assert(grown(p, e).pending == with_child(caps, g, i, a).pending);
                assert(grown(p, e) == with_child(caps, g, i, a));
                lemma_child_sound(caps, g, i, a);
                if exhaustive(caps, p) {
                    lemma_child_exhaustive(caps, g, i, a);
                    if layered(caps, p) && i == 0 {
                        lemma_child_layered(caps, g, a);
                    }
                }
            }
        }
    }
}

/// What holds after the `i`-th pending node was expanded.
pub proof fn lemma_expansion(caps: Seq<i32>, p: Progress, i: int)
    requires
        well_formed(caps),
        sound(caps, p),
        0 <= i < p.pending.len(),
    ensures
        ({
            let e = expansion(caps, p.pending[i], p.visited);
            match e.found {
                None => {
                    &&& sound(caps, expanded_at(p, i, e))
                    &&& exhaustive(caps, p) ==> exhaustive(caps, expanded_at(p, i, e))
                    &&& exhaustive(caps, p) && layered(caps, p) && i == 0 ==> layered(
                        caps,
                        expanded_at(p, i, e),
                    )
                },
                Some(path) => {
                    &&& discovers(caps, path)
                    &&& exhaustive(caps, p) && layered(caps, p) && i == 0 ==> shortest(caps, path)
                },
            }
        }),
        p.expanded.push(p.pending[i].state).no_duplicates(),
{
    let node = p.pending[i];
    let moves = legal_moves(caps, node.state);
    let e = expansion(caps, node, p.visited);
    lemma_expand_upto(caps, p, i, moves.len());
    lemma_retire_sound(caps, p, i);
    lemma_expanded_once(caps, with_retired(p, i));
    if e.found is None {
        let g = grown(p, e);
        assert(g.pending[i] == node);
        assert(expanded_at(p, i, e).pending == with_retired(g, i).pending);
        assert(expanded_at(p, i, e) == with_retired(g, i));
        lemma_retire_sound(caps, g, i);
        if exhaustive(caps, p) {
            assert forall|a: Action| #[trigger] legal(caps, node.state, a) implies g.visited.contains(
                poured(caps, node.state, a),
            ) by {
                let j = lemma_legal_is_move(caps, node.state, a);
                assert(moves[j] == a);
            }
            lemma_retire_exhaustive(caps, g, i);
            if layered(caps, p) && i == 0 {
                lemma_retire_layered(caps, g);
            }
        }
    }
}

/// The order of the pending nodes does not matter to soundness.
pub proof fn lemma_exchanged_sound(caps: Seq<i32>, p: Progress, i: int, j: int)
    requires
        sound(caps, p),
        0 <= i < p.pending.len(),
        0 <= j < p.pending.len(),
    ensures
        sound(caps, exchanged(p, i, j)),
{
    reveal(sound);
    let r = exchanged(p, i, j);
    let from = |m: int|
        if m == i {
            j
        } else if m == j {
            i
        } else {
            m
        };
    assert forall|m: int| 0 <= m < r.pending.len() implies traced(caps, #[trigger] r.pending[m])
        && r.visited.contains(r.pending[m].state) by {
        assert(r.pending[m] == p.pending[from(m)]);
    }
    assert forall|m: int, n: int| 0 <= m < n < r.pending.len() implies (#[trigger] r.pending[m]).state
        != (#[trigger] r.pending[n]).state by {
        assert(r.pending[m] == p.pending[from(m)]);
        assert(r.pending[n] == p.pending[from(n)]);
        if from(m) < from(n) {
            assert(p.pending[from(m)].state != p.pending[from(n)].state);
        } else {
            assert(p.pending[from(n)].state != p.pending[from(m)].state);
        }
    }
    assert forall|m: int, k: int|
        0 <= m < r.pending.len() && 0 <= k < r.expanded.len() implies (#[trigger] r.pending[m]).state
        != #[trigger] r.expanded[k] by {
        assert(r.pending[m] == p.pending[from(m)]);
    }
}

/// The order of the pending nodes does not matter to exhaustiveness.
pub proof fn lemma_exchanged_exhaustive(caps: Seq<i32>, p: Progress, i: int, j: int)
    requires
        exhaustive(caps, p),
        0 <= i < p.pending.len(),
        0 <= j < p.pending.len(),
    ensures
        exhaustive(caps, exchanged(p, i, j)),
{
    reveal(exhaustive);
    let r = exchanged(p, i, j);
    assert forall|s: Seq<i32>| #[trigger] r.visited.contains(s) implies waiting(r, s)
        || r.expanded.contains(s) by {
        if !p.expanded.contains(s) {
            let m = choose|m: int| 0 <= m < p.pending.len() && (#[trigger] p.pending[m]).state == s;
            let to = if m == i {
                j
            } else if m == j {
                i
            } else {
                m
            };
            assert(r.pending[to] == p.pending[m]);
        }
    }
}

} // verus!
