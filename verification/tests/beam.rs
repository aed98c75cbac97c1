use water_jug_problem::beam_search;
use water_jug_problem::game::Game;
use water_jug_problem::paths::replay;

#[test]
fn beam_of_width_two_solves_eight_five_three() {
    let game = Game::new(&[8, 5, 3]);
    let answer = beam_search::answer(&game, 2).expect("width two is enough here");
    assert_eq!(
        answer,
        vec![(0, 2), (2, 1), (0, 2), (2, 1), (1, 0), (2, 1), (0, 2)]
    );
    let states = replay(&game, &answer).expect("every pour is legal");
    assert!(game.is_goal(states.last().expect("at least one pour")));
}

#[test]
fn beam_of_width_three_finds_the_shortest_here() {
    let game = Game::new(&[8, 5, 3]);
    assert_eq!(
        beam_search::answer(&game, 3),
        Some(vec![(0, 1), (1, 2), (2, 0), (1, 2), (0, 1), (1, 2)])
    );
}

#[test]
fn beam_of_width_one_misses_the_solution() {
    let game = Game::new(&[8, 5, 3]);
    assert_eq!(beam_search::answer(&game, 1), None);
}

#[test]
fn beam_without_width_expands_nothing() {
    let game = Game::new(&[8, 4]);
    assert_eq!(beam_search::answer(&game, 0), None);
    assert_eq!(beam_search::answer(&game, -3), None);
    assert_eq!(beam_search::answer(&game, 1), Some(vec![(0, 1)]));
}

#[test]
fn beam_answer_is_a_solution_or_nothing() {
    for capacities in [[8, 5, 3], [10, 7, 3], [12, 7, 5], [16, 9, 7]] {
        let game = Game::new(&capacities);
        for width in 1..8 {
            if let Some(answer) = beam_search::answer(&game, width) {
                let states = replay(&game, &answer).expect("every pour is legal");
                assert!(game.is_goal(states.last().expect("at least one pour")));
            }
        }
    }
}

#[test]
fn beam_returns_the_same_twice() {
    let game = Game::new(&[10, 7, 3]);
    assert_eq!(beam_search::answer(&game, 2), beam_search::answer(&game, 2));
}

#[test]
fn beam_reports_that_there_is_no_solution() {
    assert_eq!(beam_search::answer(&Game::new(&[8, 8]), 4), None);
    assert_eq!(beam_search::answer(&Game::new(&[]), 4), None);
}
