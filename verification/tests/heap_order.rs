use std::cmp::Ordering;
use std::collections::BinaryHeap;
use water_jug_problem::expansion::Node;
use water_jug_problem::game::Game;
use water_jug_problem::priority_queue::{Entry, PriorityQueue};

struct Ticket {
    score: i128,
    id: usize,
}

impl PartialEq for Ticket {
    fn eq(&self, other: &Self) -> bool {
        self.score == other.score
    }
}

impl Eq for Ticket {}

impl PartialOrd for Ticket {
    fn partial_cmp(&self, other: &Self) -> Option<Ordering> {
        Some(self.cmp(other))
    }
}

impl Ord for Ticket {
    fn cmp(&self, other: &Self) -> Ordering {
        self.score.cmp(&other.score)
    }
}

fn entry(game: &Game, score: i128, id: usize) -> Entry {
    Entry { score, node: Node { state: game.initial_state(), answer: vec![(id, 0)] } }
}

fn next_random(seed: &mut u64) -> u64 {
    *seed = seed.wrapping_mul(6364136223846793005).wrapping_add(1442695040888963407);
    *seed >> 33
}

fn same_order_as_the_standard_heap(mut seed: u64, spread: u64, steps: usize) {
    let game = Game::new(&[8, 5, 3]);
    let mut ours = PriorityQueue::new();
    let mut theirs = BinaryHeap::new();
    for id in 0..steps {
        if next_random(&mut seed) % 3 == 0 {
            let popped = ours.pop().map(|e| (e.score, e.node.answer[0].0));
            let expected = theirs.pop().map(|t: Ticket| (t.score, t.id));
            assert_eq!(popped, expected);
        } else {
            let score = (next_random(&mut seed) % spread) as i128 - 3;
            ours.push(entry(&game, score, id));
            theirs.push(Ticket { score, id });
        }
        assert_eq!(ours.len(), theirs.len());
    }
    while let Some(expected) = theirs.pop() {
        let popped = ours.pop().expect("as many entries wait");
        assert_eq!((popped.score, popped.node.answer[0].0), (expected.score, expected.id));
    }
    assert!(ours.pop().is_none());
}

#[test]
fn priority_queue_agrees_with_the_standard_heap_on_many_ties() {
    same_order_as_the_standard_heap(1, 3, 4000);
    same_order_as_the_standard_heap(2, 2, 4000);
    same_order_as_the_standard_heap(3, 1, 500);
}

#[test]
fn priority_queue_agrees_with_the_standard_heap_on_few_ties() {
    same_order_as_the_standard_heap(4, 50, 4000);
    same_order_as_the_standard_heap(5, 1000000, 4000);
}

#[test]
fn priority_queue_pops_scores_in_falling_order() {
    let game = Game::new(&[8, 5, 3]);
    let mut queue = PriorityQueue::new();
    let mut seed = 7;
    for id in 0..500 {
        queue.push(entry(&game, (next_random(&mut seed) % 40) as i128 - 20, id));
    }
    let mut last = i128::MAX;
    while let Some(popped) = queue.pop() {
        assert!(popped.score <= last);
        last = popped.score;
    }
}
