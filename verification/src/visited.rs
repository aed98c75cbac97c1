//! The states that a search has met.

use std::collections::HashMap;
use vstd::prelude::*;
use crate::game::State;

verus! {

broadcast use vstd::std_specs::hash::group_hash_axioms;

/// The digest of no amounts.
pub const DIGEST_SEED: u64 = 0xcbf2_9ce4_8422_2325;

/// What multiplies the digest before the next amount is added.
pub const DIGEST_STEP: u64 = 0x0000_0100_0000_01b3;

/// The digest of an amount after the digest `before`.
pub open spec fn mixed(before: u64, amount: i32) -> u64 {
    before.wrapping_mul(DIGEST_STEP).wrapping_add((amount + 0x8000_0000) as u64)
}

/// The digest of a state: the number under which the set files it. Equal
/// states have the same digest; different states mostly have different
/// ones.
pub open spec fn digest(amounts: Seq<i32>) -> u64
    decreases amounts.len(),
{
    if amounts.len() == 0 {
        DIGEST_SEED
    } else {
        mixed(digest(amounts.drop_last()), amounts.last())
    }
}

/// Computes the digest of `state`.
pub fn digest_of(state: &State) -> (number: u64)
    ensures
        number == digest(state@),
{
    let pitchers = state.pitchers();
    let mut number: u64 = DIGEST_SEED;
    let mut i: usize = 0;
    while i < pitchers.len()
        invariant
            i <= pitchers.len(),
            pitchers@ == state@,
            number == digest(state@.take(i as int)),
        decreases pitchers.len() - i,
    {
        assert(state@.take(i + 1).drop_last() == state@.take(i as int));
        let amount: u64 = (pitchers[i] as i64 + 0x8000_0000) as u64;
        number = number.wrapping_mul(DIGEST_STEP).wrapping_add(amount);
        i += 1;
    }
    assert(state@.take(state@.len() as int) == state@);
    number
}

/// The set of the states met so far. A state enters it once, when it is
/// first met, and never leaves.
///
/// The states are kept in the order in which they were met, and filed by
/// their digest: to look for a state, only the states of its digest are
/// compared with it.
pub struct VisitedSet {
    states: Vec<State>,
    filed: HashMap<u64, Vec<usize>>,
}

impl View for VisitedSet {
    type V = Set<Seq<i32>>;

    /// The amounts of each state in the set.
    closed spec fn view(&self) -> Set<Seq<i32>> {
        self.members().to_set()
    }
}

impl VisitedSet {
    /// The states in the order in which they were met.
    pub closed spec fn members(&self) -> Seq<Seq<i32>> {
        self.states@.map_values(|s: State| s@)
    }

    /// Under each digest are filed the places of states of that digest.
    #[verifier::opaque]
    spec fn filed_rightly(&self) -> bool {
        forall|number: u64, j: int|
            self.filed@.contains_key(number) && 0 <= j < self.filed@[number]@.len() ==> {
                let at = #[trigger] self.filed@[number]@[j];
                at < self.members().len() && digest(self.members()[at as int]) == number
            }
    }

    /// The place of each state is filed under its digest.
    #[verifier::opaque]
    spec fn filed_fully(&self) -> bool {
        forall|i: int|
            0 <= i < self.members().len() ==> {
                let number = digest(#[trigger] self.members()[i]);
                self.filed@.contains_key(number) && self.filed@[number]@.contains(i as usize)
            }
    }

    /// No state is held twice, and each state is filed under its digest.
    pub closed spec fn well_formed(&self) -> bool {
        &&& self.members().no_duplicates()
        &&& self.filed_rightly()
        &&& self.filed_fully()
    }

    /// The empty set.
    pub fn new() -> (visited: VisitedSet)
        ensures
            visited.well_formed(),
            visited@ == Set::<Seq<i32>>::empty(),
    {
        let visited = VisitedSet { states: Vec::new(), filed: HashMap::new() };
        proof {
            reveal(VisitedSet::filed_rightly);
            reveal(VisitedSet::filed_fully);
            assert(visited.members() == Seq::<Seq<i32>>::empty());
            assert(visited@ == Set::<Seq<i32>>::empty());
        }
        visited
    }

    /// The number of states in the set.
    pub fn len(&self) -> (count: usize)
        requires
            self.well_formed(),
        ensures
            count == self@.len(),
    {
        proof {
            self.lemma_len();
        }
        self.states.len()
    }

    /// The set is finite, and a `usize` can hold its number of states.
    pub proof fn lemma_len(&self)
        requires
            self.well_formed(),
        ensures
            self@.finite(),
            self@.len() == self.members().len(),
            self@.len() <= usize::MAX,
    {
        assert(self.members().len() == self.states.len());
        self.members().unique_seq_to_set();
        vstd::seq_lib::seq_to_set_is_finite(self.members());
    }

    /// A place filed under a digest is that of a state of that digest.
    proof fn lemma_filed_rightly(&self, number: u64, j: int)
        requires
            self.filed_rightly(),
            self.filed@.contains_key(number),
            0 <= j < self.filed@[number]@.len(),
        ensures
            self.filed@[number]@[j] < self.members().len(),
            digest(self.members()[self.filed@[number]@[j] as int]) == number,
    {
        reveal(VisitedSet::filed_rightly);
    }

    /// The place of a state is filed under its digest.
    proof fn lemma_filed_fully(&self, i: int) -> (j: int)
        requires
            self.filed_fully(),
            0 <= i < self.members().len(),
        ensures
            self.filed@.contains_key(digest(self.members()[i])),
            0 <= j < self.filed@[digest(self.members()[i])]@.len(),
            self.filed@[digest(self.members()[i])]@[j] == i,
    {
        reveal(VisitedSet::filed_fully);
        let places = self.filed@[digest(self.members()[i])]@;
        assert(self.members().len() == self.states.len());
        choose|j: int| 0 <= j < places.len() && places[j] == i as usize
    }

    /// Whether the set holds `state`, of the digest `number`.
    fn holds(&self, state: &State, number: u64) -> (found: bool)
        requires
            self.well_formed(),
            number == digest(state@),
        ensures
            found == self@.contains(state@),
    {
        match self.filed.get(&number) {
            None => {
                proof {
                    if self.members().contains(state@) {
                        let i = choose|i: int| 0 <= i < self.members().len() && self.members()[i] == state@;
                        self.lemma_filed_fully(i);
                    }
                }
                false
            },
            Some(places) => {
                let mut j: usize = 0;
                while j < places.len()
                    invariant
                        j <= places.len(),
                        self.filed_rightly(),
                        self.filed@.contains_key(number),
                        self.filed@[number] == *places,
                        forall|k: int| 0 <= k < j ==> self.members()[#[trigger] places@[k] as int] != state@,
                    decreases places.len() - j,
                {
                    let at = places[j];
                    proof {
                        self.lemma_filed_rightly(number, j as int);
                        assert(self.members().len() == self.states.len());
                    }
                    if self.states[at] == *state {
                        assert(self.members()[at as int] == state@);
                        return true;
                    }
                    j += 1;
                }
                proof {
                    if self.members().contains(state@) {
                        let i = choose|i: int| 0 <= i < self.members().len() && self.members()[i] == state@;
                        let k = self.lemma_filed_fully(i);
                        assert(places@[k] == i);
                    }
                }
                false
            },
        }
    }

    /// Adds `state` unless the set holds it already, and says whether it
    /// was added.
    pub fn contains_or_insert(&mut self, state: &State) -> (added: bool)
        requires
            old(self).well_formed(),
        ensures
            final(self).well_formed(),
            added == !old(self)@.contains(state@),
            final(self)@ == old(self)@.insert(state@),
    {
        let number = digest_of(state);
        if self.holds(state, number) {
            assert(self@.insert(state@) == self@);
            return false;
        }
        let ghost before = self.members();
        let ghost filed = self.filed@;
        let at = self.states.len();
        self.states.push(state.clone());
        let mut places = match self.filed.remove(&number) {
            Some(places) => places,
            None => Vec::new(),
        };
        let ghost earlier = places@;
        places.push(at);
        self.filed.insert(number, places);
        proof {
            assert(self.members() == before.push(state@));
            assert(before.push(state@) == before + seq![state@]);
            Seq::lemma_to_set_insert_commutes(before, state@);
            assert(self.filed@[number]@ == earlier.push(at));
            assert(self.filed_rightly()) by {
                reveal(VisitedSet::filed_rightly);
                assert forall|other: u64, j: int|
                    self.filed@.contains_key(other) && 0 <= j < self.filed@[other]@.len() implies {
                    let place = #[trigger] self.filed@[other]@[j];
                    place < self.members().len() && digest(self.members()[place as int]) == other
                } by {
                    if other != number {
                        assert(self.filed@[other] == filed[other]);
                        let place = filed[other]@[j];
                        assert(before[place as int] == self.members()[place as int]);
                    } else if j < earlier.len() {
                        let place = filed[number]@[j];
                        assert(before[place as int] == self.members()[place as int]);
                    }
                }
            }
            assert(self.filed_fully()) by {
                reveal(VisitedSet::filed_fully);
                assert forall|i: int| 0 <= i < self.members().len() implies {
                    let other = digest(#[trigger] self.members()[i]);
                    self.filed@.contains_key(other) && self.filed@[other]@.contains(i as usize)
                } by {
                    let other = digest(self.members()[i]);
                    if i < before.len() {
                        assert(self.members()[i] == before[i]);
                        assert(filed.contains_key(other) && filed[other]@.contains(i as usize));
                        if other == number {
                            let k = choose|k: int| 0 <= k < earlier.len() && earlier[k] == i as usize;
                            assert(self.filed@[number]@[k] == i as usize);
                        }
                    } else {
                        assert(self.filed@[number]@[earlier.len() as int] == at);
                    }
                }
            }
        }
        true
    }
}

} // verus!
