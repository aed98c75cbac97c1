//! The puzzle: pitchers of fixed capacities, the first one full, and pours
//! between them.

use vstd::prelude::*;

verus! {

/// A pour: the index of the pitcher poured from, then of the one poured into.
pub type Action = (usize, usize);

/// The puzzle, given by the capacity of each pitcher.
pub struct Game {
    pitcher_capacities: Vec<i32>,
}

/// The amount held by each pitcher.
#[derive(Hash)]
pub struct State {
    pitchers: Vec<i32>,
}

impl View for Game {
    type V = Seq<i32>;

    /// The capacities, pitcher by pitcher.
    closed spec fn view(&self) -> Seq<i32> {
        self.pitcher_capacities@
    }
}

impl View for State {
    type V = Seq<i32>;

    /// The amounts, pitcher by pitcher.
    closed spec fn view(&self) -> Seq<i32> {
        self.pitchers@
    }
}

/// The amounts at the start: the first pitcher full, the others empty.
pub open spec fn initial_pitchers(caps: Seq<i32>) -> Seq<i32> {
    Seq::new(caps.len(), |i: int| if i == 0 { caps[0] } else { 0i32 })
}

/// Half of `c`, rounded towards zero.
pub open spec fn half(c: int) -> int {
    if c >= 0 {
        c / 2
    } else {
        -((-c) / 2)
    }
}

/// Some pitcher holds half the capacity of the first one.
pub open spec fn goal(caps: Seq<i32>, pitchers: Seq<i32>) -> bool {
    exists|i: int| 0 <= i < pitchers.len() && #[trigger] pitchers[i] == half(caps[0] as int)
}

/// Every pair of indices below `n`, the first index counting slowest:
/// `(0, 0)`, `(0, 1)`, and so on up to `(n - 1, n - 1)`.
pub open spec fn index_pairs(n: nat) -> Seq<Action> {
    Seq::new(n * n, |k: int| ((k / n as int) as usize, (k % n as int) as usize))
}

/// A pour is legal between two different pitchers, out of one that is not
/// empty and into one that is not full.
pub open spec fn legal(caps: Seq<i32>, pitchers: Seq<i32>, action: Action) -> bool {
    let (f, t) = action;
    &&& f < caps.len()
    &&& t < caps.len()
    &&& f != t
    &&& pitchers[f as int] != 0
    &&& pitchers[t as int] != caps[t as int]
}

/// The legal pours, in the order of [`index_pairs`].
pub open spec fn legal_moves(caps: Seq<i32>, pitchers: Seq<i32>) -> Seq<Action> {
    index_pairs(caps.len()).filter(|a: Action| legal(caps, pitchers, a))
}

/// What is left in the pitcher poured from: what does not fit into the other.
pub open spec fn left_over(caps: Seq<i32>, pitchers: Seq<i32>, action: Action) -> int {
    let (f, t) = (action.0 as int, action.1 as int);
    let excess = pitchers[f] - (caps[t] - pitchers[t]);
    if excess > 0 {
        excess
    } else {
        0
    }
}

/// What the pitcher poured into then holds: both amounts, up to its capacity.
pub open spec fn filled_up(caps: Seq<i32>, pitchers: Seq<i32>, action: Action) -> int {
    let (f, t) = (action.0 as int, action.1 as int);
    let both = pitchers[t] + pitchers[f];
    if both < caps[t] {
        both
    } else {
        caps[t] as int
    }
}

/// The amounts after the pour.
pub open spec fn poured(caps: Seq<i32>, pitchers: Seq<i32>, action: Action) -> Seq<i32> {
    pitchers.update(action.0 as int, left_over(caps, pitchers, action) as i32).update(
        action.1 as int,
        filled_up(caps, pitchers, action) as i32,
    )
}

/// The pour names two pitchers of the state and of the game, and none of the
/// amounts involved leaves the range of `i32`.
pub open spec fn pourable(caps: Seq<i32>, pitchers: Seq<i32>, action: Action) -> bool {
    let (f, t) = (action.0 as int, action.1 as int);
    &&& f < pitchers.len()
    &&& t < pitchers.len()
    &&& t < caps.len()
    &&& i32::MIN <= caps[t] - pitchers[t] <= i32::MAX
    &&& i32::MIN <= pitchers[f] - (caps[t] - pitchers[t]) <= i32::MAX
    &&& i32::MIN <= pitchers[t] + pitchers[f] <= i32::MAX
}

/// The sum of the amounts.
pub open spec fn total(amounts: Seq<i32>) -> int
    decreases amounts.len(),
{
    if amounts.len() == 0 {
        0
    } else {
        total(amounts.drop_last()) + amounts.last()
    }
}

/// The pairs of `n` indices fit into one vector: a vector holds
/// `isize::MAX` bytes at most, and a pair of indices takes up to sixteen.
pub open spec fn pairs_fit(n: nat) -> bool {
    n * n * 16 <= isize::MAX
}

/// No capacity is negative, and the pairs of pitchers fit into a vector.
pub open spec fn well_formed(caps: Seq<i32>) -> bool {
    &&& pairs_fit(caps.len())
    &&& forall|i: int| 0 <= i < caps.len() ==> caps[i] >= 0
}

/// The amounts are those of a state of the game: one for each pitcher,
/// none negative or above the capacity, and together what the first
/// pitcher holds when full.
pub open spec fn fits(caps: Seq<i32>, pitchers: Seq<i32>) -> bool {
    &&& pitchers.len() == caps.len()
    &&& forall|i: int| 0 <= i < caps.len() ==> 0 <= #[trigger] pitchers[i] <= caps[i]
    &&& caps.len() > 0 ==> total(pitchers) == caps[0]
}

/// There is something to pour and room to pour it into: the first pitcher
/// and some other one have a capacity above zero.
pub open spec fn lively(caps: Seq<i32>) -> bool {
    &&& caps.len() >= 2
    &&& caps[0] > 0
    &&& exists|i: int| 1 <= i < caps.len() && #[trigger] caps[i] > 0
}

/// Calls `itertools::Itertools::cartesian_product` on the range `0..n` and
/// itself, and collects what it yields. The adaptor steps through its second
/// iterator once for each item of its first, so the pairs come out with the
/// first index counting slowest.
#[verifier::external_body]
fn all_index_pairs(n: usize) -> (pairs: Vec<Action>)
    requires
        pairs_fit(n as nat),
    ensures
        pairs@ == index_pairs(n as nat),
{
    itertools::Itertools::cartesian_product(0..n, 0..n).collect()
}

impl Game {
    /// A game with the given capacities.
    pub fn new(pitcher_capacities: &[i32]) -> (game: Game)
        ensures
            game@ == pitcher_capacities@,
    {
        let mut caps: Vec<i32> = Vec::new();
        let mut i: usize = 0;
        while i < pitcher_capacities.len()
            invariant
                i <= pitcher_capacities.len(),
                caps@ == pitcher_capacities@.take(i as int),
            decreases pitcher_capacities.len() - i,
        {
            caps.push(pitcher_capacities[i]);
            i += 1;
        }
        Game { pitcher_capacities: caps }
    }

    /// Whether the game is well formed: what the searches ask of it.
    pub fn is_well_formed(&self) -> (ok: bool)
        ensures
            ok == well_formed(self@),
    {
        let n = self.pitcher_capacities.len();
        let limit: usize = isize::MAX as usize / 16;
        match n.checked_mul(n) {
            None => {
                return false;
            },
            Some(pairs) => {
                if pairs > limit {
                    return false;
                }
            },
        }
        let mut i: usize = 0;
        while i < n
            invariant
                i <= n,
                n == self@.len(),
                forall|j: int| 0 <= j < i ==> self@[j] >= 0,
            decreases n - i,
        {
            if self.pitcher_capacities[i] < 0 {
                return false;
            }
            i += 1;
        }
        true
    }

    /// The capacity of each pitcher.
    pub fn pitcher_capacities(&self) -> (caps: &Vec<i32>)
        ensures
            caps@ == self@,
    {
        &self.pitcher_capacities
    }

    /// The state in which the first pitcher is full and the others are empty.
    pub fn initial_state(&self) -> (state: State)
        ensures
            state@ == initial_pitchers(self@),
    {
        let mut pitchers: Vec<i32> = Vec::new();
        let mut i: usize = 0;
        while i < self.pitcher_capacities.len()
            invariant
                i <= self.pitcher_capacities.len(),
                pitchers@ == initial_pitchers(self@).take(i as int),
            decreases self.pitcher_capacities.len() - i,
        {
            if i == 0 {
                pitchers.push(self.pitcher_capacities[0]);
            } else {
                pitchers.push(0);
            }
            i += 1;
        }
        State { pitchers }
    }

    /// The legal pours in `state`, ordered by the index poured from, then by
    /// the index poured into.
    pub fn legal_actions(&self, state: &State) -> (actions: Vec<Action>)
        requires
            pairs_fit(self@.len()),
            self@.len() >= 2 ==> state@.len() >= self@.len(),
        ensures
            actions@ == legal_moves(self@, state@),
    {
        let n = self.pitcher_capacities.len();
        assert(n * n <= n * n * 16) by (nonlinear_arith);
        let pairs = all_index_pairs(n);
        let ghost keep = |a: Action| legal(self@, state@, a);
        let mut actions: Vec<Action> = Vec::new();
        let mut i: usize = 0;
        while i < pairs.len()
            invariant
                i <= pairs.len(),
                n == self@.len(),
                n >= 2 ==> state@.len() >= n,
                pairs@ == index_pairs(n as nat),
                keep == |a: Action| legal(self@, state@, a),
                actions@ == pairs@.take(i as int).filter(keep),
            decreases pairs.len() - i,
        {
            let (f, t) = pairs[i];
            proof {
                lemma_index_pair_bounds(n as nat, i as int);
                reveal(Seq::filter);
                assert(pairs@.take(i as int + 1).drop_last() == pairs@.take(i as int));
            }
            if f != t && state.pitchers[f] != 0 && state.pitchers[t] != self.pitcher_capacities[t] {
                actions.push((f, t));
            }
            i += 1;
        }
        assert(pairs@.take(pairs@.len() as int) == pairs@);
        actions
    }

    /// Whether the pour `action` is legal in `state`.
    pub fn is_legal(&self, state: &State, action: &Action) -> (allowed: bool)
        requires
            self@.len() <= state@.len(),
        ensures
            allowed == legal(self@, state@, *action),
    {
        let (f, t) = *action;
        let n = self.pitcher_capacities.len();
        f < n && t < n && f != t && state.pitchers[f] != 0 && state.pitchers[t]
            != self.pitcher_capacities[t]
    }

    /// The state after the pour `action` in `state`.
    pub fn next_state(&self, state: &State, action: &Action) -> (next: State)
        requires
            pourable(self@, state@, *action),
        ensures
            next@ == poured(self@, state@, *action),
    {
        let mut next_pitchers = state.pitchers.clone();
        assert(next_pitchers@ == state@);
        let (f, t) = *action;
        let excess: i32 = state.pitchers[f] - (self.pitcher_capacities[t] - state.pitchers[t]);
        let both: i32 = state.pitchers[t] + state.pitchers[f];
        next_pitchers.set(f, if excess > 0 { excess } else { 0 });
        next_pitchers.set(t, if both < self.pitcher_capacities[t] { both } else { self.pitcher_capacities[t] });
        State { pitchers: next_pitchers }
    }

    /// Whether some pitcher holds half the capacity of the first one.
    pub fn is_goal(&self, state: &State) -> (reached: bool)
        requires
            state@.len() > 0 ==> self@.len() > 0,
        ensures
            reached == goal(self@, state@),
    {
        if state.pitchers.len() == 0 {
            return false;
        }
        let target: i32 = self.pitcher_capacities[0] / 2;
        let mut i: usize = 0;
        while i < state.pitchers.len()
            invariant
                i <= state.pitchers.len(),
                target == half(self@[0] as int),
                forall|j: int| 0 <= j < i ==> state@[j] != target,
            decreases state.pitchers.len() - i,
        {
            if state.pitchers[i] == target {
                return true;
            }
            i += 1;
        }
        false
    }
}

/// The `k`-th pair of [`index_pairs`] holds two indices below `n`.
pub proof fn lemma_index_pair_bounds(n: nat, k: int)
    requires
        n <= usize::MAX,
        0 <= k < n * n,
    ensures
        index_pairs(n)[k].0 < n,
        index_pairs(n)[k].1 < n,
        index_pairs(n)[k].0 == k / n as int,
        index_pairs(n)[k].1 == k % n as int,
{
    let m = n as int;
    assert(m > 0);
    vstd::arithmetic::div_mod::lemma_multiply_divide_lt(k, m, m);
    vstd::arithmetic::div_mod::lemma_div_pos_is_pos(k, m);
    vstd::arithmetic::div_mod::lemma_mod_bound(k, m);
}

/// Replacing one amount changes the sum by the difference.
pub proof fn lemma_total_update(amounts: Seq<i32>, i: int, v: i32)
    requires
        0 <= i < amounts.len(),
    ensures
        total(amounts.update(i, v)) == total(amounts) - amounts[i] + v,
    decreases amounts.len(),
{
    let changed = amounts.update(i, v);
    if i == amounts.len() - 1 {
        assert(changed.drop_last() == amounts.drop_last());
    } else {
        assert(changed.drop_last() == amounts.drop_last().update(i, v));
        lemma_total_update(amounts.drop_last(), i, v);
    }
}

/// Where no amount is negative, none exceeds the sum.
pub proof fn lemma_total_bounds_each(amounts: Seq<i32>, i: int)
    requires
        forall|k: int| 0 <= k < amounts.len() ==> amounts[k] >= 0,
        0 <= i < amounts.len(),
    ensures
        0 <= amounts[i] <= total(amounts),
    decreases amounts.len(),
{
    lemma_total_nonnegative(amounts.drop_last());
    if i < amounts.len() - 1 {
        lemma_total_bounds_each(amounts.drop_last(), i);
    }
}

/// Where no amount is negative, neither is the sum.
pub proof fn lemma_total_nonnegative(amounts: Seq<i32>)
    requires
        forall|k: int| 0 <= k < amounts.len() ==> amounts[k] >= 0,
    ensures
        0 <= total(amounts),
    decreases amounts.len(),
{
    if amounts.len() > 0 {
        lemma_total_nonnegative(amounts.drop_last());
    }
}

/// Where no amount is negative, no two of them together exceed the sum.
pub proof fn lemma_total_bounds_pair(amounts: Seq<i32>, i: int, j: int)
    requires
        forall|k: int| 0 <= k < amounts.len() ==> amounts[k] >= 0,
        0 <= i < amounts.len(),
        0 <= j < amounts.len(),
        i != j,
    ensures
        amounts[i] + amounts[j] <= total(amounts),
{
    let without = amounts.update(i, 0i32);
    lemma_total_update(amounts, i, 0i32);
    lemma_total_bounds_each(without, j);
}

/// The initial amounts are those of a state of the game.
pub proof fn lemma_initial_fits(caps: Seq<i32>)
    requires
        well_formed(caps),
    ensures
        fits(caps, initial_pitchers(caps)),
{
    if caps.len() > 0 {
        lemma_total_initial(caps, caps.len() as int);
        assert(initial_pitchers(caps).take(caps.len() as int) == initial_pitchers(caps));
    }
}

proof fn lemma_total_initial(caps: Seq<i32>, k: int)
    requires
        1 <= k <= caps.len(),
    ensures
        total(initial_pitchers(caps).take(k)) == caps[0],
    decreases k,
{
    let start = initial_pitchers(caps);
    assert(start.take(k).drop_last() == start.take(k - 1));
    if k == 1 {
        assert(total(start.take(0)) == 0);
    } else {
        lemma_total_initial(caps, k - 1);
    }
}

/// A legal pour in a state of the game stays within `i32`, and leads to a
/// state of the game.
pub proof fn lemma_pour_fits(caps: Seq<i32>, pitchers: Seq<i32>, action: Action)
    requires
        well_formed(caps),
        fits(caps, pitchers),
        legal(caps, pitchers, action),
    ensures
        pourable(caps, pitchers, action),
        fits(caps, poured(caps, pitchers, action)),
{
    let (f, t) = (action.0 as int, action.1 as int);
    lemma_total_bounds_pair(pitchers, f, t);
    let left = left_over(caps, pitchers, action) as i32;
    let filled = filled_up(caps, pitchers, action) as i32;
    let halfway = pitchers.update(f, left);
    lemma_total_update(pitchers, f, left);
    lemma_total_update(halfway, t, filled);
}

/// Where two pitchers or more hold no goal state of the game, half the
/// capacity of the first one is not zero.
pub proof fn lemma_target_positive(caps: Seq<i32>, pitchers: Seq<i32>)
    requires
        well_formed(caps),
        fits(caps, pitchers),
        caps.len() >= 2,
        !goal(caps, pitchers),
    ensures
        half(caps[0] as int) > 0,
{
    if half(caps[0] as int) == 0 {
        assert(pitchers[0] != 0);
        assert(pitchers[1] != 0);
        lemma_total_bounds_pair(pitchers, 0, 1);
    }
}

/// Where the amounts add up to more than zero, one of them is above zero.
pub proof fn lemma_some_amount(amounts: Seq<i32>) -> (i: int)
    requires
        total(amounts) > 0,
    ensures
        0 <= i < amounts.len(),
        amounts[i] > 0,
    decreases amounts.len(),
{
    if amounts.last() > 0 {
        amounts.len() - 1
    } else {
        lemma_some_amount(amounts.drop_last())
    }
}

/// In every state of a lively game some pour is legal.
pub proof fn lemma_lively_has_move(caps: Seq<i32>, pitchers: Seq<i32>) -> (action: Action)
    requires
        well_formed(caps),
        lively(caps),
        fits(caps, pitchers),
    ensures
        legal(caps, pitchers, action),
        legal_moves(caps, pitchers).len() > 0,
{
    let f = lemma_some_amount(pitchers);
    let other = choose|i: int| 1 <= i < caps.len() && #[trigger] caps[i] > 0;
    assert(caps.len() <= usize::MAX) by {
        assert(caps.len() <= caps.len() * caps.len() * 16) by (nonlinear_arith);
    }
    let action: Action = if f != 0 {
        lemma_total_bounds_pair(pitchers, f, 0);
        (f as usize, 0usize)
    } else if pitchers[other] != caps[other] {
        (0usize, other as usize)
    } else {
        lemma_total_bounds_pair(pitchers, 0, other);
        (other as usize, 0usize)
    };
    let _ = lemma_legal_is_move(caps, pitchers, action);
    action
}

/// A legal pour is among the legal pours of the state.
pub proof fn lemma_legal_is_move(caps: Seq<i32>, pitchers: Seq<i32>, action: Action) -> (i: int)
    requires
        well_formed(caps),
        legal(caps, pitchers, action),
    ensures
        0 <= i < legal_moves(caps, pitchers).len(),
        legal_moves(caps, pitchers)[i] == action,
{
    let n = caps.len() as int;
    let (f, t) = (action.0 as int, action.1 as int);
    let k = f * n + t;
    assert(0 <= k < n * n) by (nonlinear_arith)
        requires
            0 <= f < n,
            0 <= t < n,
            k == f * n + t,
    ;
    vstd::arithmetic::div_mod::lemma_fundamental_div_mod_converse(k, n, f, t);
    let pairs = index_pairs(caps.len());
    assert(pairs[k] == action);
    let keep = |a: Action| legal(caps, pitchers, a);
    pairs.lemma_filter_contains(keep, k);
    let moves = legal_moves(caps, pitchers);
    choose|i: int| 0 <= i < moves.len() && moves[i] == action
}

impl Clone for State {
    fn clone(&self) -> (copy: State)
        ensures
            copy@ == self@,
    {
        let pitchers = self.pitchers.clone();
        assert(pitchers@ == self.pitchers@);
        State { pitchers }
    }
}

impl PartialEq for State {
    fn eq(&self, other: &State) -> (same: bool) {
        if self.pitchers.len() != other.pitchers.len() {
            return false;
        }
        let mut i: usize = 0;
        while i < self.pitchers.len()
            invariant
                i <= self.pitchers.len(),
                self.pitchers.len() == other.pitchers.len(),
                forall|j: int| 0 <= j < i ==> self.pitchers[j] == other.pitchers[j],
            decreases self.pitchers.len() - i,
        {
            if self.pitchers[i] != other.pitchers[i] {
                return false;
            }
            i += 1;
        }
        assert(self.pitchers@ == other.pitchers@);
        true
    }
}

impl Eq for State {

}

impl vstd::std_specs::cmp::PartialEqSpecImpl for State {
    open spec fn obeys_eq_spec() -> bool {
        true
    }

    open spec fn eq_spec(&self, other: &State) -> bool {
        self@ == other@
    }
}

impl State {
    /// The amount held by each pitcher.
    pub fn pitchers(&self) -> (amounts: &Vec<i32>)
        ensures
            amounts@ == self@,
    {
        &self.pitchers
    }
}

} // verus!
