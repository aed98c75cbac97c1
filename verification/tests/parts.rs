use water_jug_problem::expansion::{expand, next_answer, Expanded, Node};
use water_jug_problem::game::{Action, Game};
use water_jug_problem::paths::replay;
use water_jug_problem::priority_queue::{Entry, PriorityQueue};
use water_jug_problem::scoring::evaluate;
use water_jug_problem::visited::{digest_of, VisitedSet};

fn entry(game: &Game, score: i128, answer: Vec<Action>) -> Entry {
    Entry { score, node: Node { state: game.initial_state(), answer } }
}

#[test]
fn visited_set_takes_a_state_once() {
    let game = Game::new(&[8, 5, 3]);
    let mut visited = VisitedSet::new();
    assert_eq!(visited.len(), 0);
    assert!(visited.contains_or_insert(&game.initial_state()));
    assert!(!visited.contains_or_insert(&game.initial_state()));
    assert_eq!(visited.len(), 1);
    let other = game.next_state(&game.initial_state(), &(0, 1));
    assert!(visited.contains_or_insert(&other));
    assert!(!visited.contains_or_insert(&other));
    assert!(!visited.contains_or_insert(&game.initial_state()));
    assert_eq!(visited.len(), 2);
}

#[test]
fn visited_set_holds_every_state_of_a_long_way() {
    let game = Game::new(&[97, 61, 36, 17]);
    let mut visited = VisitedSet::new();
    let mut states = vec![game.initial_state()];
    let mut state = game.initial_state();
    for round in 0..400 {
        let actions = game.legal_actions(&state);
        state = game.next_state(&state, &actions[round % actions.len()]);
        if !states.contains(&state) {
            states.push(state.clone());
        }
    }
    assert!(states.len() > 50);
    for state in &states {
        assert!(visited.contains_or_insert(state));
    }
    assert_eq!(visited.len(), states.len());
    for state in &states {
        assert!(!visited.contains_or_insert(state));
    }
    assert_eq!(visited.len(), states.len());
}

#[test]
fn digest_depends_on_the_amounts_only() {
    let game = Game::new(&[8, 5, 3]);
    let there = game.next_state(&game.initial_state(), &(0, 1));
    let back = game.next_state(&there, &(1, 0));
    assert_eq!(digest_of(&back), digest_of(&game.initial_state()));
    assert_ne!(digest_of(&there), digest_of(&game.initial_state()));
    assert_eq!(digest_of(&Game::new(&[]).initial_state()), 0xcbf2_9ce4_8422_2325);
    assert_eq!(
        digest_of(&Game::new(&[5]).initial_state()),
        0xcbf2_9ce4_8422_2325u64.wrapping_mul(0x0000_0100_0000_01b3).wrapping_add(0x8000_0005)
    );
}

#[test]
fn next_answer_appends_the_pour() {
    assert_eq!(next_answer(&[], &(0, 1)), vec![(0, 1)]);
    assert_eq!(next_answer(&[(0, 1), (1, 2)], &(2, 0)), vec![(0, 1), (1, 2), (2, 0)]);
}

#[test]
fn expand_makes_a_child_for_each_new_state() {
    let game = Game::new(&[8, 5, 3]);
    let mut visited = VisitedSet::new();
    visited.contains_or_insert(&game.initial_state());
    let node = Node { state: game.initial_state(), answer: Vec::new() };
    match expand(&game, &node, &mut visited) {
        Expanded::Children(children) => {
            assert_eq!(children.len(), 2);
            assert_eq!(children[0].state.pitchers(), &vec![3, 5, 0]);
            assert_eq!(children[0].answer, vec![(0, 1)]);
            assert_eq!(children[1].state.pitchers(), &vec![5, 0, 3]);
            assert_eq!(children[1].answer, vec![(0, 2)]);
        }
        Expanded::Found(_) => panic!("no goal is one pour away"),
    }
    assert_eq!(visited.len(), 3);
}

#[test]
fn expand_passes_over_states_met_before() {
    let game = Game::new(&[8, 5, 3]);
    let mut visited = VisitedSet::new();
    visited.contains_or_insert(&game.initial_state());
    let state = game.next_state(&game.initial_state(), &(0, 1));
    visited.contains_or_insert(&state);
    let node = Node { state, answer: vec![(0, 1)] };
    match expand(&game, &node, &mut visited) {
        Expanded::Children(children) => {
            assert_eq!(children.len(), 2);
            assert_eq!(children[0].state.pitchers(), &vec![0, 5, 3]);
            assert_eq!(children[0].answer, vec![(0, 1), (0, 2)]);
            assert_eq!(children[1].state.pitchers(), &vec![3, 2, 3]);
            assert_eq!(children[1].answer, vec![(0, 1), (1, 2)]);
        }
        Expanded::Found(_) => panic!("no goal is two pours away"),
    }
    assert_eq!(visited.len(), 4);
}

#[test]
fn expand_stops_at_the_first_goal() {
    let game = Game::new(&[8, 4, 4]);
    let mut visited = VisitedSet::new();
    visited.contains_or_insert(&game.initial_state());
    let node = Node { state: game.initial_state(), answer: Vec::new() };
    match expand(&game, &node, &mut visited) {
        Expanded::Found(answer) => assert_eq!(answer, vec![(0, 1)]),
        Expanded::Children(_) => panic!("a goal is one pour away"),
    }
    assert_eq!(visited.len(), 2);
}

#[test]
fn priority_queue_hands_out_the_highest_score_first() {
    let game = Game::new(&[8, 5, 3]);
    let mut queue = PriorityQueue::new();
    assert!(queue.pop().is_none());
    queue.push(entry(&game, -4, vec![(0, 1)]));
    queue.push(entry(&game, 7, vec![(0, 2)]));
    queue.push(entry(&game, 2, vec![(1, 2)]));
    assert_eq!(queue.len(), 3);
    let scores: Vec<i128> = (0..3).map(|_| queue.pop().expect("three entries wait").score).collect();
    assert_eq!(scores, vec![7, 2, -4]);
    assert_eq!(queue.len(), 0);
    assert!(queue.pop().is_none());
}

#[test]
fn priority_queue_hands_out_equal_scores_in_the_order_of_the_heap() {
    let game = Game::new(&[8, 5, 3]);
    let mut queue = PriorityQueue::new();
    for id in 0..4 {
        queue.push(entry(&game, 5, vec![(id, 0)]));
    }
    let ids: Vec<usize> =
        (0..4).map(|_| queue.pop().expect("four entries wait").node.answer[0].0).collect();
    assert_eq!(ids, vec![0, 2, 1, 3]);
}

#[test]
fn priority_queue_lets_a_later_entry_of_higher_score_pass() {
    let game = Game::new(&[8, 5, 3]);
    let mut queue = PriorityQueue::new();
    queue.push(entry(&game, 3, vec![(0, 1)]));
    queue.push(entry(&game, 5, vec![(0, 2)]));
    queue.push(entry(&game, 5, vec![(1, 2)]));
    queue.push(entry(&game, 3, vec![(2, 1)]));
    queue.push(entry(&game, 9, vec![(2, 0)]));
    let answers: Vec<Vec<Action>> =
        (0..5).map(|_| queue.pop().expect("five entries wait").node.answer).collect();
    assert_eq!(
        answers,
        vec![vec![(2, 0)], vec![(1, 2)], vec![(0, 2)], vec![(2, 1)], vec![(0, 1)]]
    );
}

#[test]
fn evaluate_adds_up_what_the_pitchers_are_worth() {
    let game = Game::new(&[8, 5, 3]);
    let start = game.initial_state();
    assert_eq!(evaluate(&game, &start), 10 - 4 + 10 - 4 + 10 - 4);
    let state = game.next_state(&start, &(0, 1));
    assert_eq!(state.pitchers(), &vec![3, 5, 0]);
    assert_eq!(evaluate(&game, &state), -1 - 1 + 6);
    let last = game.next_state(&game.next_state(&state, &(1, 2)), &(2, 0));
    assert_eq!(last.pitchers(), &vec![6, 2, 0]);
    assert_eq!(evaluate(&game, &last), -2 - 2 + 6);
}

#[test]
fn evaluate_rewards_the_multiples_of_the_target() {
    let game = Game::new(&[4, 9]);
    let state = game.next_state(&game.initial_state(), &(0, 1));
    assert_eq!(state.pitchers(), &vec![0, 4]);
    assert_eq!(evaluate(&game, &state), (10 - 2) + (10 - 2));
    let odd = Game::new(&[6, 5]);
    let poured = odd.next_state(&odd.initial_state(), &(0, 1));
    assert_eq!(poured.pitchers(), &vec![1, 5]);
    assert_eq!(evaluate(&odd, &poured), -2 - 2);
}

#[test]
fn replay_returns_the_state_after_each_pour() {
    let game = Game::new(&[8, 5, 3]);
    let states = replay(&game, &[(0, 1), (1, 2), (2, 0)]).expect("every pour is legal");
    let amounts: Vec<Vec<i32>> = states.iter().map(|state| state.pitchers().clone()).collect();
    assert_eq!(amounts, vec![vec![3, 5, 0], vec![3, 2, 3], vec![6, 2, 0]]);
    assert_eq!(replay(&game, &[]).map(|states| states.len()), Some(0));
}

#[test]
fn replay_refuses_a_pour_that_is_not_legal() {
    let game = Game::new(&[8, 5, 3]);
    assert!(replay(&game, &[(1, 0)]).is_none());
    assert!(replay(&game, &[(0, 0)]).is_none());
    assert!(replay(&game, &[(0, 3)]).is_none());
    assert!(replay(&game, &[(0, 1), (0, 1)]).is_none());
    assert!(replay(&game, &[(0, 1), (1, 2), (2, 2)]).is_none());
}
