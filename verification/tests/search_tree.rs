use mcts2048::game_logic::Direction;
use mcts2048::tree::{best_score, expand, mean_less, Node, NodeStats, SearchTree};

fn stats(total_value: u128, visit: u64) -> NodeStats {
    NodeStats { visit, total_value, max_score: 0 }
}

#[test]
fn new_node_is_unvisited_and_untried() {
    let node = Node::new(Direction::Left, Some(7));
    assert_eq!(node.visit, 0);
    assert_eq!(node.total_value, 0);
    assert_eq!(node.max_score, 0);
    assert_eq!(node.from_action, Direction::Left);
    assert_eq!(node.parent, Some(7));
    assert!(node.children.is_empty());
    assert_eq!(
        node.untried_actions,
        vec![Direction::Up, Direction::Down, Direction::Left, Direction::Right]
    );
    assert!(!node.is_fully_expanded());
}

#[test]
fn node_update_records_one_rollout() {
    let mut node = Node::new(Direction::Up, None);
    node.update(40);
    node.update(100);
    node.update(60);
    assert_eq!(node.visit, 3);
    assert_eq!(node.total_value, 200);
    assert_eq!(node.max_score, 100);
    let read = node.stats();
    assert_eq!((read.visit, read.total_value, read.max_score), (3, 200, 100));
}

#[test]
fn new_tree_holds_the_root() {
    let tree = SearchTree::new();
    assert_eq!(tree.len(), 1);
    assert_eq!(tree.node(0).parent, None);
    assert_eq!(tree.node(0).from_action, Direction::Down);
    assert_eq!(tree.child_count(0), 0);
    assert!(!tree.is_fully_expanded(0));
}

#[test]
fn expand_tries_the_moves_from_the_end() {
    let mut tree = SearchTree::new();
    let expected = [Direction::Right, Direction::Left, Direction::Down, Direction::Up];
    for (k, action) in expected.iter().enumerate() {
        assert!(!tree.is_fully_expanded(0));
        let child = expand(&mut tree, 0);
        assert_eq!(child, k + 1);
        assert_eq!(tree.len(), k + 2);
        assert_eq!(tree.node(child).from_action, *action);
        assert_eq!(tree.node(child).parent, Some(0));
        assert_eq!(tree.node(child).visit, 0);
        assert_eq!(tree.child_count(0), k + 1);
        assert_eq!(tree.child(0, k), child);
        assert_eq!(tree.node(0).untried_actions.len(), 3 - k);
    }
    assert!(tree.is_fully_expanded(0));
    assert_eq!(tree.node(0).children, vec![1, 2, 3, 4]);
}

#[test]
fn expand_below_the_root() {
    let mut tree = SearchTree::new();
    let a = expand(&mut tree, 0);
    let b = expand(&mut tree, a);
    let c = expand(&mut tree, a);
    assert_eq!((a, b, c), (1, 2, 3));
    assert_eq!(tree.node(b).parent, Some(a));
    assert_eq!(tree.node(c).parent, Some(a));
    assert_eq!(tree.node(b).from_action, Direction::Right);
    assert_eq!(tree.node(c).from_action, Direction::Left);
    assert_eq!(tree.node(a).children, vec![b, c]);
    assert_eq!(tree.node(0).children, vec![a]);
}

#[test]
fn update_reaches_every_ancestor() {
    let mut tree = SearchTree::new();
    let a = expand(&mut tree, 0);
    let b = expand(&mut tree, a);
    let leaf = expand(&mut tree, b);
    let aside = expand(&mut tree, 0);
    let below_aside = expand(&mut tree, b);
    tree.update(leaf, 100);
    for id in [0, a, b, leaf] {
        assert_eq!(tree.node(id).visit, 1);
        assert_eq!(tree.node(id).total_value, 100);
        assert_eq!(tree.node(id).max_score, 100);
    }
    for id in [aside, below_aside] {
        assert_eq!(tree.node(id).visit, 0);
        assert_eq!(tree.node(id).total_value, 0);
        assert_eq!(tree.node(id).max_score, 0);
    }
    tree.update(aside, 40);
    assert_eq!(tree.node(0).visit, 2);
    assert_eq!(tree.node(0).total_value, 140);
    assert_eq!(tree.node(0).max_score, 100);
    assert_eq!(tree.node(aside).visit, 1);
    assert_eq!(tree.node(aside).total_value, 40);
    assert_eq!(tree.node(aside).max_score, 40);
    assert_eq!(tree.node(a).visit, 1);
    tree.update(b, 300);
    assert_eq!(tree.node(0).visit, 3);
    assert_eq!(tree.node(0).total_value, 440);
    assert_eq!(tree.node(0).max_score, 300);
    assert_eq!(tree.node(a).total_value, 400);
    assert_eq!(tree.node(b).visit, 2);
    assert_eq!(tree.node(leaf).visit, 1);
    assert_eq!(tree.node(leaf).max_score, 100);
}

#[test]
fn update_keeps_the_shape_of_the_tree() {
    let mut tree = SearchTree::new();
    let a = expand(&mut tree, 0);
    let b = expand(&mut tree, a);
    tree.update(b, 8);
    assert_eq!(tree.len(), 3);
    assert_eq!(tree.node(0).children, vec![a]);
    assert_eq!(tree.node(a).children, vec![b]);
    assert_eq!(tree.node(a).parent, Some(0));
    assert_eq!(tree.node(b).from_action, Direction::Right);
    assert_eq!(tree.node(0).untried_actions.len(), 3);
}

#[test]
fn best_child_has_the_highest_mean() {
    let mut tree = SearchTree::new();
    let first = expand(&mut tree, 0);
    let second = expand(&mut tree, 0);
    let third = expand(&mut tree, 0);
    tree.update(first, 1);
    tree.update(second, 5);
    tree.update(third, 3);
    assert_eq!(tree.node(0).best_child(&tree), second);
    assert_eq!(tree.node(second).from_action, Direction::Left);
}

#[test]
fn best_child_goes_by_the_mean_and_not_by_the_sum() {
    let mut tree = SearchTree::new();
    let first = expand(&mut tree, 0);
    let second = expand(&mut tree, 0);
    let third = expand(&mut tree, 0);
    tree.update(first, 2);
    tree.update(first, 0);
    tree.update(second, 5);
    for _ in 0..3 {
        tree.update(third, 3);
    }
    assert_eq!(tree.node(third).total_value, 9);
    assert_eq!(tree.node(0).best_child(&tree), second);
}

#[test]
fn best_child_takes_the_first_of_equal_means() {
    let mut tree = SearchTree::new();
    let first = expand(&mut tree, 0);
    let second = expand(&mut tree, 0);
    let third = expand(&mut tree, 0);
    tree.update(first, 4);
    tree.update(second, 10);
    tree.update(second, 0);
    tree.update(third, 5);
    tree.update(third, 5);
    assert_eq!(tree.node(0).best_child(&tree), second);
    let mut only = SearchTree::new();
    let child = expand(&mut only, 0);
    only.update(child, 0);
    assert_eq!(only.node(0).best_child(&only), child);
}

#[test]
fn mean_less_compares_fractions() {
    assert!(mean_less(&stats(1, 1), &stats(5, 1)));
    assert!(!mean_less(&stats(5, 1), &stats(1, 1)));
    assert!(!mean_less(&stats(10, 2), &stats(5, 1)));
    assert!(!mean_less(&stats(5, 1), &stats(10, 2)));
    assert!(mean_less(&stats(7, 3), &stats(5, 2)));
    assert!(!mean_less(&stats(5, 2), &stats(7, 3)));
    assert!(mean_less(&stats(0, 9), &stats(1, 1000)));
}

#[test]
fn mean_less_is_exact_on_large_numbers() {
    let big = 1u128 << 120;
    assert!(mean_less(&stats(big, 3), &stats(big + 1, 3)));
    assert!(!mean_less(&stats(big + 1, 3), &stats(big, 3)));
    assert!(!mean_less(&stats(big, 3), &stats(big, 3)));
    let visits = u64::MAX;
    assert!(mean_less(&stats(big, visits), &stats(big, visits - 1)));
    assert!(!mean_less(&stats(big, visits - 1), &stats(big, visits)));
    assert!(mean_less(
        &stats(u128::MAX - 1, visits),
        &stats(u128::MAX, visits)
    ));
}

#[test]
fn best_score_takes_the_first_of_the_highest() {
    assert_eq!(best_score(&vec![3]), 0);
    assert_eq!(best_score(&vec![1, 5, 3]), 1);
    assert_eq!(best_score(&vec![7, 7, 7, 7]), 0);
    assert_eq!(best_score(&vec![1, 9, 2, 9]), 1);
    assert_eq!(best_score(&vec![0, 1, 2, u64::MAX]), 3);
}
