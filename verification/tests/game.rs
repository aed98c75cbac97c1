use water_jug_problem::game::{Action, Game};

#[test]
fn new_keeps_the_capacities() {
    let game = Game::new(&[8, 5, 3]);
    assert_eq!(game.pitcher_capacities(), &vec![8, 5, 3]);
    assert_eq!(Game::new(&[]).pitcher_capacities(), &Vec::<i32>::new());
}

#[test]
fn initial_state_fills_the_first_pitcher_only() {
    assert_eq!(Game::new(&[8, 5, 3]).initial_state().pitchers(), &vec![8, 0, 0]);
    assert_eq!(Game::new(&[7]).initial_state().pitchers(), &vec![7]);
    assert_eq!(Game::new(&[]).initial_state().pitchers(), &Vec::<i32>::new());
}

#[test]
fn legal_actions_at_the_start() {
    let game = Game::new(&[8, 5, 3]);
    let actions: Vec<Action> = game.legal_actions(&game.initial_state());
    assert_eq!(actions, vec![(0, 1), (0, 2)]);
}

#[test]
fn legal_actions_come_ordered_by_source_then_target() {
    let game = Game::new(&[8, 5, 3]);
    let start = game.initial_state();
    let state = game.next_state(&game.next_state(&start, &(0, 1)), &(1, 2));
    assert_eq!(state.pitchers(), &vec![3, 2, 3]);
    assert_eq!(game.legal_actions(&state), vec![(0, 1), (1, 0), (2, 0), (2, 1)]);
}

#[test]
fn legal_actions_leave_out_empty_sources_and_full_targets() {
    let game = Game::new(&[8, 5, 3]);
    let state = game.next_state(&game.initial_state(), &(0, 1));
    assert_eq!(state.pitchers(), &vec![3, 5, 0]);
    assert_eq!(game.legal_actions(&state), vec![(0, 2), (1, 0), (1, 2)]);
}

#[test]
fn legal_actions_of_a_single_pitcher_are_none() {
    let game = Game::new(&[8]);
    assert_eq!(game.legal_actions(&game.initial_state()), Vec::<Action>::new());
    let nothing = Game::new(&[]);
    assert_eq!(nothing.legal_actions(&nothing.initial_state()), Vec::<Action>::new());
}

#[test]
fn next_state_pours_until_the_target_is_full() {
    let game = Game::new(&[8, 5, 3]);
    let state = game.next_state(&game.initial_state(), &(0, 1));
    assert_eq!(state.pitchers(), &vec![3, 5, 0]);
}

#[test]
fn next_state_pours_until_the_source_is_empty() {
    let game = Game::new(&[8, 5, 3]);
    let first = game.next_state(&game.initial_state(), &(0, 2));
    assert_eq!(first.pitchers(), &vec![5, 0, 3]);
    let second = game.next_state(&first, &(2, 1));
    assert_eq!(second.pitchers(), &vec![5, 3, 0]);
}

#[test]
fn next_state_of_a_pitcher_into_itself_follows_the_same_rule() {
    let game = Game::new(&[8, 5, 3]);
    let state = game.next_state(&game.next_state(&game.initial_state(), &(0, 1)), &(1, 2));
    assert_eq!(state.pitchers(), &vec![3, 2, 3]);
    assert_eq!(game.next_state(&state, &(1, 1)).pitchers(), &vec![3, 4, 3]);
    assert_eq!(game.next_state(&state, &(2, 2)).pitchers(), &vec![3, 2, 3]);
}

#[test]
fn next_state_keeps_the_total() {
    let game = Game::new(&[10, 7, 3]);
    let mut state = game.initial_state();
    for action in [(0, 1), (1, 2), (2, 0), (1, 2), (0, 1)] {
        state = game.next_state(&state, &action);
        assert_eq!(state.pitchers().iter().sum::<i32>(), 10);
    }
    assert_eq!(state.pitchers(), &vec![0, 7, 3]);
}

#[test]
fn is_goal_looks_for_half_the_first_capacity() {
    let game = Game::new(&[8, 5, 3]);
    assert!(!game.is_goal(&game.initial_state()));
    let mut state = game.initial_state();
    for action in [(0, 1), (1, 2), (2, 0), (1, 2), (0, 1), (1, 2)] {
        assert!(!game.is_goal(&state));
        state = game.next_state(&state, &action);
    }
    assert_eq!(state.pitchers(), &vec![1, 4, 3]);
    assert!(game.is_goal(&state));
}

#[test]
fn is_goal_rounds_the_half_towards_zero() {
    let game = Game::new(&[7, 4]);
    let state = game.next_state(&game.initial_state(), &(0, 1));
    assert_eq!(state.pitchers(), &vec![3, 4]);
    assert!(game.is_goal(&state));
    let odd = Game::new(&[-7, 4]);
    assert!(!odd.is_goal(&odd.initial_state()));
    assert!(odd.is_goal(&Game::new(&[-3, 9]).initial_state()));
}

#[test]
fn is_goal_of_a_state_without_pitchers_is_false() {
    let nothing = Game::new(&[]);
    assert!(!nothing.is_goal(&nothing.initial_state()));
}

#[test]
fn the_initial_state_can_be_a_goal() {
    let game = Game::new(&[1, 5]);
    assert!(game.is_goal(&game.initial_state()));
}

#[test]
fn is_legal_agrees_with_legal_actions() {
    let game = Game::new(&[8, 5, 3]);
    let state = game.next_state(&game.initial_state(), &(0, 1));
    let legal = game.legal_actions(&state);
    for f in 0..4 {
        for t in 0..4 {
            assert_eq!(game.is_legal(&state, &(f, t)), legal.contains(&(f, t)));
        }
    }
}

#[test]
fn is_well_formed_refuses_a_negative_capacity() {
    assert!(Game::new(&[8, 5, 3]).is_well_formed());
    assert!(Game::new(&[]).is_well_formed());
    assert!(Game::new(&[0, 0]).is_well_formed());
    assert!(!Game::new(&[8, -5, 3]).is_well_formed());
}

#[test]
fn states_compare_by_their_amounts() {
    let game = Game::new(&[8, 5, 3]);
    let there = game.next_state(&game.initial_state(), &(0, 1));
    let back = game.next_state(&there, &(1, 0));
    assert!(back == game.initial_state());
    assert!(there != game.initial_state());
    assert!(there.clone() == there);
    assert!(Game::new(&[8]).initial_state() != Game::new(&[8, 0]).initial_state());
}
