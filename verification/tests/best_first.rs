use water_jug_problem::best_first_search;
use water_jug_problem::game::{Action, Game};
use water_jug_problem::paths::replay;

#[test]
fn best_first_solves_eight_five_three() {
    let game = Game::new(&[8, 5, 3]);
    let answer = best_first_search::answer(&game).expect("a solution exists");
    assert_eq!(
        answer,
        vec![(0, 2), (2, 1), (0, 2), (2, 1), (1, 0), (2, 1), (0, 2)]
    );
}

#[test]
fn best_first_answer_replays_to_a_goal() {
    for capacities in [[8, 5, 3], [10, 7, 3], [12, 7, 5], [16, 9, 7]] {
        let game = Game::new(&capacities);
        let answer: Vec<Action> = best_first_search::answer(&game).expect("a solution exists");
        let states = replay(&game, &answer).expect("every pour is legal");
        assert_eq!(states.len(), answer.len());
        assert!(game.is_goal(states.last().expect("at least one pour")));
        assert!(states.iter().all(|state| *state != game.initial_state()));
    }
}

#[test]
fn best_first_returns_the_same_twice() {
    let game = Game::new(&[10, 7, 3]);
    assert_eq!(best_first_search::answer(&game), best_first_search::answer(&game));
}

#[test]
fn best_first_reports_that_there_is_no_solution() {
    assert_eq!(best_first_search::answer(&Game::new(&[8, 8])), None);
    assert_eq!(best_first_search::answer(&Game::new(&[8])), None);
    assert_eq!(best_first_search::answer(&Game::new(&[])), None);
}

#[test]
fn best_first_needs_no_score_where_the_target_is_zero() {
    assert_eq!(best_first_search::answer(&Game::new(&[1, 5])), Some(vec![(0, 1)]));
    assert_eq!(best_first_search::answer(&Game::new(&[1, 0])), None);
}
