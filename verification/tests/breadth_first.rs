use water_jug_problem::beam_search;
use water_jug_problem::best_first_search;
use water_jug_problem::breadth_first_search;
use water_jug_problem::game::{Action, Game};
use water_jug_problem::paths::replay;

fn ends_in_goal(game: &Game, answer: &[Action]) -> bool {
    match replay(game, answer) {
        Some(states) => match states.last() {
            Some(last) => game.is_goal(last),
            None => false,
        },
        None => false,
    }
}

#[test]
fn breadth_first_solves_eight_five_three() {
    let game = Game::new(&[8, 5, 3]);
    let answer = breadth_first_search::answer(&game).expect("a solution exists");
    assert_eq!(answer, vec![(0, 1), (1, 2), (2, 0), (1, 2), (0, 1), (1, 2)]);
    assert!(ends_in_goal(&game, &answer));
}

#[test]
fn breadth_first_solves_ten_seven_three() {
    let game = Game::new(&[10, 7, 3]);
    let answer = breadth_first_search::answer(&game).expect("a solution exists");
    assert_eq!(
        answer,
        vec![(0, 1), (1, 2), (2, 0), (1, 2), (2, 0), (1, 2), (0, 1), (1, 2)]
    );
    assert!(ends_in_goal(&game, &answer));
}

#[test]
fn breadth_first_finds_a_goal_one_pour_away() {
    let game = Game::new(&[8, 4]);
    assert_eq!(breadth_first_search::answer(&game), Some(vec![(0, 1)]));
}

#[test]
fn breadth_first_returns_the_same_twice() {
    let game = Game::new(&[8, 5, 3]);
    assert_eq!(breadth_first_search::answer(&game), breadth_first_search::answer(&game));
}

#[test]
fn breadth_first_reports_that_there_is_no_solution() {
    assert_eq!(breadth_first_search::answer(&Game::new(&[8, 8])), None);
    assert_eq!(breadth_first_search::answer(&Game::new(&[8])), None);
    assert_eq!(breadth_first_search::answer(&Game::new(&[])), None);
    assert_eq!(breadth_first_search::answer(&Game::new(&[9, 6, 3])), None);
}

#[test]
fn breadth_first_does_not_test_the_initial_state() {
    let game = Game::new(&[1, 5]);
    assert!(game.is_goal(&game.initial_state()));
    assert_eq!(breadth_first_search::answer(&game), Some(vec![(0, 1)]));
    assert_eq!(breadth_first_search::answer(&Game::new(&[0, 5])), None);
}

#[test]
fn breadth_first_is_never_longer_than_the_others() {
    for capacities in [[8, 5, 3], [10, 7, 3], [12, 7, 5], [16, 9, 7], [6, 5, 1]] {
        let game = Game::new(&capacities);
        let shortest = breadth_first_search::answer(&game).expect("a solution exists");
        let greedy = best_first_search::answer(&game).expect("a solution exists");
        assert!(shortest.len() <= greedy.len());
        for width in 1..6 {
            if let Some(beam) = beam_search::answer(&game, width) {
                assert!(shortest.len() <= beam.len());
            }
        }
    }
}

#[test]
fn where_breadth_first_fails_the_others_fail() {
    for capacities in [[8, 8, 0], [9, 6, 3], [2, 2, 2], [0, 4, 4]] {
        let game = Game::new(&capacities);
        assert_eq!(breadth_first_search::answer(&game), None);
        assert_eq!(best_first_search::answer(&game), None);
        for width in 0..5 {
            assert_eq!(beam_search::answer(&game, width), None);
        }
    }
}
