use water_jug_problem::expansion::Node;
use water_jug_problem::game::Game;
use water_jug_problem::paths::replay;
use water_jug_problem::random_search::{self, Step, BUDGET};

#[test]
fn random_walk_finds_a_solution_of_eight_five_three() {
    let game = Game::new(&[8, 5, 3]);
    let mut found = 0;
    for _ in 0..40 {
        if let Some(answer) = random_search::answer(&game) {
            found += 1;
            assert!(1 <= answer.len() && answer.len() <= BUDGET);
            let states = replay(&game, &answer).expect("every pour is legal");
            assert!(game.is_goal(states.last().expect("at least one pour")));
            assert!(states[..states.len() - 1].iter().all(|state| !game.is_goal(state)));
        }
    }
    assert!(found >= 20);
}

#[test]
fn random_walk_picks_among_the_legal_pours() {
    let game = Game::new(&[8, 5, 3]);
    for _ in 0..50 {
        if let Some(answer) = random_search::answer_within(&game, 8) {
            assert!(replay(&game, &answer).is_some());
        }
    }
}

#[test]
fn random_walk_takes_different_ways() {
    let game = Game::new(&[8, 5, 3]);
    let first = random_search::answer_within(&game, 1000000).expect("a million pours are enough");
    let differs = (0..200).any(|_| random_search::answer_within(&game, 1000) != Some(first.clone()));
    assert!(differs);
}

#[test]
fn random_walk_respects_its_budget() {
    let game = Game::new(&[8, 5, 3]);
    assert_eq!(random_search::answer_within(&game, 0), None);
    for _ in 0..50 {
        assert_eq!(random_search::answer_within(&game, 5), None);
        if let Some(answer) = random_search::answer_within(&game, 6) {
            assert_eq!(answer.len(), 6);
        }
    }
}

#[test]
fn random_walk_ends_where_no_pour_is_legal() {
    assert_eq!(random_search::answer(&Game::new(&[8])), None);
    assert_eq!(random_search::answer(&Game::new(&[8, 0])), None);
    assert_eq!(random_search::answer(&Game::new(&[])), None);
}

#[test]
fn random_walk_with_one_way_takes_it() {
    let game = Game::new(&[8, 4]);
    assert_eq!(random_search::answer(&game), Some(vec![(0, 1)]));
}

#[test]
fn budget_is_ten_thousand() {
    assert_eq!(BUDGET, 10000);
}

#[test]
fn step_without_a_pour_is_stuck() {
    let game = Game::new(&[8]);
    let node = Node { state: game.initial_state(), answer: Vec::new() };
    assert!(matches!(random_search::step(&game, node, None), Step::Stuck));
}

#[test]
fn step_moves_to_the_next_state() {
    let game = Game::new(&[8, 5, 3]);
    let node = Node { state: game.initial_state(), answer: Vec::new() };
    match random_search::step(&game, node, Some((0, 1))) {
        Step::Moved(moved) => {
            assert_eq!(moved.state.pitchers(), &vec![3, 5, 0]);
            assert_eq!(moved.answer, vec![(0, 1)]);
        }
        _ => panic!("the pour leads to a state that is no goal"),
    }
}

#[test]
fn step_arrives_at_a_goal() {
    let game = Game::new(&[8, 4]);
    let node = Node { state: game.initial_state(), answer: Vec::new() };
    match random_search::step(&game, node, Some((0, 1))) {
        Step::Arrived(answer) => assert_eq!(answer, vec![(0, 1)]),
        _ => panic!("the pour leads to a goal"),
    }
}
