use water_jug_problem::beam_search;
use water_jug_problem::best_first_search;
use water_jug_problem::breadth_first_search;
use water_jug_problem::game::Game;
use water_jug_problem::paths::replay;
use water_jug_problem::strategy::Strategy;

#[test]
fn strategy_runs_the_search_that_it_names() {
    let game = Game::new(&[8, 5, 3]);
    assert_eq!(Strategy::BreadthFirst.search(&game), breadth_first_search::answer(&game));
    assert_eq!(Strategy::BestFirst.search(&game), best_first_search::answer(&game));
    for width in 0..4 {
        assert_eq!(Strategy::Beam { width }.search(&game), beam_search::answer(&game, width));
    }
}

#[test]
fn strategy_random_walk_keeps_to_its_budget() {
    let game = Game::new(&[8, 5, 3]);
    assert_eq!(Strategy::RandomWalk { budget: 0 }.search(&game), None);
    assert_eq!(Strategy::RandomWalk { budget: 5 }.search(&game), None);
    let answer = Strategy::RandomWalk { budget: 1000000 }
        .search(&game)
        .expect("a million pours are enough");
    let states = replay(&game, &answer).expect("every pour is legal");
    assert!(game.is_goal(states.last().expect("at least one pour")));
}

#[test]
fn every_strategy_fails_where_nothing_can_be_poured() {
    let game = Game::new(&[8]);
    for strategy in [
        Strategy::BreadthFirst,
        Strategy::RandomWalk { budget: 100 },
        Strategy::BestFirst,
        Strategy::Beam { width: 3 },
    ] {
        assert_eq!(strategy.search(&game), None);
    }
}
