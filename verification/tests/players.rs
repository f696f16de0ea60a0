use mcts2048::game_logic::{Direction, GameState};
use mcts2048::strategy::{
    best_direction, best_sum, decide, direction_of, select, simulate, ConfigError,
    ExplorationScore, GameStrategy, MctsStrategy, RandomStrategy, SimpleRandomStrategy,
    ROLLOUT_DRAWS, SCORE_LIMIT,
};
use mcts2048::tree::{expand, NodeStats, SearchTree};

/// The exploration-weighted score, as an integer that orders as the number does.
struct Uct {
    c_param: f64,
}

impl ExplorationScore for Uct {
    fn score(&self, parent: &NodeStats, child: &NodeStats) -> u64 {
        assert!(parent.visit > 0);
        assert!(child.visit > 0);
        let visits = child.visit as f64;
        let mean = child.total_value as f64 / visits;
        let bonus = self.c_param
            * parent.max_score as f64
            * (2.0 * (parent.visit as f64).ln() / visits).sqrt();
        (mean + bonus).to_bits()
    }
}

/// Ranks a child by the sum of its values alone.
struct BySum;

impl ExplorationScore for BySum {
    fn score(&self, _parent: &NodeStats, child: &NodeStats) -> u64 {
        child.total_value as u64
    }
}

fn index(direction: Direction) -> usize {
    match direction {
        Direction::Up => 0,
        Direction::Down => 1,
        Direction::Left => 2,
        Direction::Right => 3,
    }
}

#[test]
fn random_strategy_plays_every_move() {
    let game = GameState::new();
    let mut seen = [0usize; 4];
    for _ in 0..4000 {
        seen[index(RandomStrategy.next_move(&game))] += 1;
    }
    assert!(seen.iter().all(|&n| n > 500));
}

#[test]
fn simulate_plays_to_the_end() {
    for _ in 0..20 {
        let mut game = GameState::new();
        assert!(simulate(&mut game));
        assert!(game.is_game_over());
        assert!(game.score > 0);
        assert!(game.grid.iter().flatten().all(|&v| v >= 2 && v.is_power_of_two()));
    }
}

#[test]
fn simulate_leaves_a_finished_game() {
    let stuck = [[2, 4, 2, 4], [4, 2, 4, 2], [2, 4, 2, 4], [4, 2, 4, 2]];
    let mut game = GameState { grid: stuck, score: 44 };
    assert!(simulate(&mut game));
    assert_eq!(game.grid, stuck);
    assert_eq!(game.score, 44);
}

#[test]
fn rollout_limit_is_the_largest_count() {
    assert_eq!(ROLLOUT_DRAWS, u64::MAX);
}

#[test]
fn best_sum_takes_the_last_of_the_highest() {
    assert_eq!(best_sum(&vec![3]), 0);
    assert_eq!(best_sum(&vec![1, 5, 3, 0]), 1);
    assert_eq!(best_sum(&vec![0, 0, 0, 0]), 3);
    assert_eq!(best_sum(&vec![9, 1, 9, 2]), 2);
    assert_eq!(best_sum(&vec![u128::MAX, 1, 2, 3]), 0);
}

#[test]
fn simple_random_strategy_without_games_names_the_last_move() {
    let game = GameState::new();
    assert_eq!(SimpleRandomStrategy { depth: 0 }.next_move(&game), Direction::Right);
}

#[test]
fn simple_random_strategy_names_a_move() {
    let game = GameState::new();
    let direction = SimpleRandomStrategy { depth: 3 }.next_move(&game);
    assert!(index(direction) < 4);
    assert_eq!(game.score, 0);
}

#[test]
fn select_follows_the_highest_score() {
    let mut tree = SearchTree::new();
    let first = expand(&mut tree, 0);
    let second = expand(&mut tree, 0);
    let third = expand(&mut tree, 0);
    tree.update(first, 10);
    tree.update(second, 30);
    tree.update(third, 20);
    tree.update(third, 20);
    assert_eq!(select(&tree, 0, &BySum), third);
    assert_eq!(select(&tree, 0, &Uct { c_param: 0.0 }), second);
    tree.update(first, 30);
    assert_eq!(select(&tree, 0, &BySum), first);
}

#[test]
fn select_weighs_exploration() {
    let mut tree = SearchTree::new();
    let often = expand(&mut tree, 0);
    let seldom = expand(&mut tree, 0);
    for _ in 0..50 {
        tree.update(often, 100);
    }
    tree.update(seldom, 90);
    assert_eq!(select(&tree, 0, &Uct { c_param: 0.0 }), often);
    assert_eq!(select(&tree, 0, &Uct { c_param: 1.4 }), seldom);
}

#[test]
fn mcts_without_tries_is_refused() {
    let made = MctsStrategy::new(0, Uct { c_param: 1.4 });
    assert!(matches!(made, Err(ConfigError::NoTries)));
    assert_eq!(ConfigError::NoTries, ConfigError::NoTries);
}

#[test]
fn mcts_with_one_try_names_the_only_move_tried() {
    let strategy = MctsStrategy::new(1, Uct { c_param: 1.4 }).ok().unwrap();
    assert_eq!(strategy.tries(), 1);
    for _ in 0..10 {
        let game = GameState::new();
        assert_eq!(strategy.next_move(&game), Direction::Right);
        assert_eq!(game.score, 0);
    }
}

#[test]
fn mcts_with_few_tries_names_a_move_it_tried() {
    let two = MctsStrategy::new(2, Uct { c_param: 1.4 }).ok().unwrap();
    let three = MctsStrategy::new(3, Uct { c_param: 1.4 }).ok().unwrap();
    for _ in 0..20 {
        let game = GameState::new();
        let direction = two.next_move(&game);
        assert!(direction == Direction::Right || direction == Direction::Left);
        let direction = three.next_move(&game);
        assert_ne!(direction, Direction::Up);
    }
}

#[test]
fn mcts_searches_past_the_root() {
    let strategy = MctsStrategy::new(60, Uct { c_param: 1.4 }).ok().unwrap();
    assert_eq!(strategy.tries(), 60);
    let mut game = GameState::new();
    for _ in 0..5 {
        if game.is_game_over() {
            break;
        }
        let direction = strategy.next_move(&game);
        game.move_tiles(direction);
    }
    assert!(game.grid.iter().flatten().any(|&v| v != 0));
}

#[test]
fn direction_of_maps_each_draw() {
    assert_eq!(direction_of(0), Direction::Up);
    assert_eq!(direction_of(1), Direction::Down);
    assert_eq!(direction_of(2), Direction::Left);
    assert_eq!(direction_of(3), Direction::Right);
    assert_eq!(direction_of(4), Direction::Right);
    assert_eq!(direction_of(usize::MAX), Direction::Right);
}

#[test]
fn best_direction_names_the_last_of_the_highest_sums() {
    assert_eq!(best_direction(&vec![9, 1, 2, 3]), Direction::Up);
    assert_eq!(best_direction(&vec![1, 9, 2, 3]), Direction::Down);
    assert_eq!(best_direction(&vec![1, 2, 9, 3]), Direction::Left);
    assert_eq!(best_direction(&vec![1, 2, 3, 9]), Direction::Right);
    assert_eq!(best_direction(&vec![5, 5, 1, 0]), Direction::Down);
    assert_eq!(best_direction(&vec![7, 0, 7, 0]), Direction::Left);
    assert_eq!(best_direction(&vec![0, 0, 0, 0]), Direction::Right);
}

#[test]
fn score_limit_bounds_a_finished_game() {
    assert_eq!(SCORE_LIMIT, 16 * 18 * 262144);
    for _ in 0..10 {
        let mut game = GameState::new();
        simulate(&mut game);
        assert!(game.score <= SCORE_LIMIT);
    }
}

const STUCK: [[u32; 4]; 4] = [[2, 4, 2, 4], [4, 2, 4, 2], [2, 4, 2, 4], [4, 2, 4, 2]];

#[test]
fn rollout_scores_are_one_sum_for_each_move() {
    let mut game = GameState::new();
    for _ in 0..6 {
        game.move_tiles(Direction::Left);
        game.move_tiles(Direction::Up);
    }
    let sums = SimpleRandomStrategy { depth: 3 }.rollout_scores(&game);
    assert_eq!(sums.len(), 4);
    for &sum in sums.iter() {
        assert!(sum >= 3 * game.score as u128);
        assert!(sum <= 3 * SCORE_LIMIT as u128);
        assert!(sum > 0);
    }
    assert_eq!(SimpleRandomStrategy { depth: 0 }.rollout_scores(&game), vec![0, 0, 0, 0]);
}

#[test]
fn rollout_scores_of_a_finished_game_repeat_its_score() {
    let game = GameState { grid: STUCK, score: 7 };
    assert_eq!(SimpleRandomStrategy { depth: 2 }.rollout_scores(&game), vec![14, 14, 14, 14]);
    assert_eq!(SimpleRandomStrategy { depth: 5 }.rollout_scores(&game), vec![35, 35, 35, 35]);
    assert_eq!(game.grid, STUCK);
    assert_eq!(game.score, 7);
}

#[test]
fn simple_random_strategy_names_right_on_a_finished_game() {
    let game = GameState { grid: STUCK, score: 7 };
    assert_eq!(SimpleRandomStrategy { depth: 2 }.next_move(&game), Direction::Right);
    assert_eq!(game.grid, STUCK);
    assert_eq!(game.score, 7);
}

#[test]
fn mcts_names_right_on_a_finished_game() {
    let game = GameState { grid: STUCK, score: 0 };
    let strategy = MctsStrategy::new(4, Uct { c_param: 1.4 }).ok().unwrap();
    assert_eq!(strategy.next_move(&game), Direction::Right);
    let tree = strategy.search(&game);
    assert_eq!(tree.len(), 5);
    assert_eq!(tree.node(0).visit, 4);
    assert_eq!(tree.child_count(0), 4);
    for k in 0..4 {
        let child = tree.node(tree.child(0, k));
        assert_eq!(child.visit, 1);
        assert_eq!(child.total_value, 0);
    }
    assert_eq!(decide(&tree), Direction::Right);
    assert_eq!(game.grid, STUCK);
    assert_eq!(game.score, 0);
}

#[test]
fn mcts_values_of_a_finished_game_repeat_its_score() {
    let game = GameState { grid: STUCK, score: 9 };
    let strategy = MctsStrategy::new(30, Uct { c_param: 1.4 }).ok().unwrap();
    let tree = strategy.search(&game);
    assert_eq!(tree.len(), 31);
    for id in 0..tree.len() {
        let node = tree.node(id);
        assert_eq!(node.total_value, 9 * node.visit as u128);
        assert_eq!(node.max_score, 9);
    }
    assert_eq!(decide(&tree), Direction::Right);
}

#[test]
fn mcts_search_adds_one_node_for_each_try() {
    let strategy = MctsStrategy::new(40, Uct { c_param: 1.4 }).ok().unwrap();
    let game = GameState::new();
    let tree = strategy.search(&game);
    assert_eq!(tree.len(), 41);
    assert_eq!(tree.node(0).visit, 40);
    assert_eq!(tree.child_count(0), 4);
    assert_eq!(tree.node(tree.child(0, 0)).from_action, Direction::Right);
    assert_eq!(tree.node(tree.child(0, 1)).from_action, Direction::Left);
    assert_eq!(tree.node(tree.child(0, 2)).from_action, Direction::Down);
    assert_eq!(tree.node(tree.child(0, 3)).from_action, Direction::Up);
    let mut visits = 0;
    for k in 0..4 {
        visits += tree.node(tree.child(0, k)).visit;
    }
    assert_eq!(visits, 40);
    for id in 1..tree.len() {
        assert!(tree.node(id).visit >= 1);
        assert!(tree.node(id).parent.unwrap() < id);
    }
    assert_eq!(game.score, 0);
}

#[test]
fn mcts_with_few_tries_leaves_moves_untried() {
    let game = GameState::new();
    for tries in 1..4 {
        let strategy = MctsStrategy::new(tries, Uct { c_param: 1.4 }).ok().unwrap();
        let tree = strategy.search(&game);
        assert_eq!(tree.len() as u64, tries + 1);
        assert_eq!(tree.child_count(0) as u64, tries);
        assert_eq!(tree.node(0).visit, tries);
        assert!(!tree.is_fully_expanded(0));
    }
}

#[test]
fn mcts_names_the_move_of_the_best_mean() {
    let strategy = MctsStrategy::new(25, Uct { c_param: 1.4 }).ok().unwrap();
    for _ in 0..5 {
        let game = GameState::new();
        let tree = strategy.search(&game);
        let direction = decide(&tree);
        let mut best = 0;
        for k in 1..tree.child_count(0) {
            let held = tree.node(tree.child(0, best));
            let next = tree.node(tree.child(0, k));
            if held.total_value * (next.visit as u128) < next.total_value * (held.visit as u128) {
                best = k;
            }
        }
        assert_eq!(direction, tree.node(tree.child(0, best)).from_action);
    }
}

#[test]
fn decide_reads_the_best_mean_off_the_root() {
    let mut tree = SearchTree::new();
    let right = expand(&mut tree, 0);
    let left = expand(&mut tree, 0);
    let down = expand(&mut tree, 0);
    tree.update(right, 1);
    tree.update(left, 5);
    tree.update(down, 3);
    assert_eq!(decide(&tree), Direction::Left);
    tree.update(down, 7);
    assert_eq!(decide(&tree), Direction::Left);
    tree.update(down, 8);
    assert_eq!(decide(&tree), Direction::Down);
    tree.update(right, 11);
    assert_eq!(decide(&tree), Direction::Right);
}
