//! How promising a state looks: a guess that orders the nodes of the
//! greedy searches, and no measure of the pours still needed.

use vstd::prelude::*;
use crate::game::{Game, State, half};

verus! {

/// What one pitcher adds to the worth of a state: ten if its amount is a
/// multiple of the target, less the distance of its amount from the target.
pub open spec fn nearness(target: int, amount: int) -> int {
    (if amount % target == 0 {
        10int
    } else {
        0int
    }) - (if target >= amount {
        target - amount
    } else {
        amount - target
    })
}

/// The worth of a state: the sum of what its pitchers add.
pub open spec fn worth(target: int, amounts: Seq<i32>) -> int
    decreases amounts.len(),
{
    if amounts.len() == 0 {
        0
    } else {
        worth(target, amounts.drop_last()) + nearness(target, amounts.last() as int)
    }
}

/// The worth of a state of the game, for the target of the game: half the
/// capacity of the first pitcher.
pub open spec fn heuristic(caps: Seq<i32>, pitchers: Seq<i32>) -> int {
    worth(half(caps[0] as int), pitchers)
}

/// The worth of a state lies within 2^32 times the number of its pitchers.
pub proof fn lemma_worth_bounds(target: int, amounts: Seq<i32>)
    requires
        i32::MIN <= target <= i32::MAX,
    ensures
        -0x1_0000_0000 * amounts.len() <= worth(target, amounts) <= 10 * amounts.len(),
    decreases amounts.len(),
{
    if amounts.len() > 0 {
        lemma_worth_bounds(target, amounts.drop_last());
    }
}

/// The size of a number.
pub open spec fn magnitude(x: int) -> int {
    if x >= 0 {
        x
    } else {
        -x
    }
}

/// Whether a number is a multiple of another does not depend on its sign.
pub proof fn lemma_multiple_by_magnitude(a: int, b: int)
    requires
        b > 0,
    ensures
        a % b == 0 <==> magnitude(a) % b == 0,
{
    let (m, n) = (magnitude(a), b);
    if a % b == 0 {
        vstd::arithmetic::div_mod::lemma_fundamental_div_mod(a, b);
        let q = a / b;
        let r = magnitude(q);
        assert(m == r * n) by (nonlinear_arith)
            requires
                a == b * q,
                m == magnitude(a),
                n == b,
                b > 0,
                r == magnitude(q),
        ;
        vstd::arithmetic::div_mod::lemma_mod_multiples_basic(r, n);
    }
    if m % n == 0 {
        vstd::arithmetic::div_mod::lemma_fundamental_div_mod(m, n);
        let q = m / n;
        let r = if a >= 0 { q } else { -q };
        assert(a == r * b) by (nonlinear_arith)
            requires
                m == n * q,
                m == magnitude(a),
                n == b,
                r == if a >= 0 { q } else { -q },
        ;
        vstd::arithmetic::div_mod::lemma_mod_multiples_basic(r, b);
    }
}

/// Computes the worth of `state`.
pub fn evaluate(game: &Game, state: &State) -> (value: i128)
    requires
        game@.len() > 0,
        half(game@[0] as int) > 0,
    ensures
        value == heuristic(game@, state@),
        -0x1_0000_0000 * usize::MAX <= value <= 10 * usize::MAX,
{
    let target: i64 = (game.pitcher_capacities()[0] / 2) as i64;
    let pitchers = state.pitchers();
    let mut value: i128 = 0;
    let mut i: usize = 0;
    while i < pitchers.len()
        invariant
            i <= pitchers.len(),
            pitchers@ == state@,
            target == half(game@[0] as int),
            target > 0,
            value == worth(target as int, state@.take(i as int)),
        decreases pitchers.len() - i,
    {
        proof {
            lemma_worth_bounds(target as int, state@.take(i as int));
            assert(state@.take(i + 1).drop_last() == state@.take(i as int));
        }
        let amount: i64 = pitchers[i] as i64;
        let size: i64 = if amount >= 0 { amount } else { -amount };
        proof {
            lemma_multiple_by_magnitude(amount as int, target as int);
        }
        let bonus: i128 = if size % target == 0 { 10 } else { 0 };
        let distance: i64 = if target >= amount { target - amount } else { amount - target };
        value = value + bonus - distance as i128;
        i += 1;
    }
    proof {
        assert(state@.take(state@.len() as int) == state@);
        lemma_worth_bounds(target as int, state@);
    }
    value
}

} // verus!
