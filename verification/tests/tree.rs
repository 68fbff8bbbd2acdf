use minimax::interface::Winner;
use minimax::strategies::tree::{Node, NodeExpansion, INFINITE_SCORE};
use minimax::strategies::util::LazySlot;

fn leaf(m: u8, visits: u32, score: i64) -> Node<u8> {
    let mut node: Node<u8> = Node::new(Some(m));
    node.visits = visits;
    node.score = score;
    node
}

fn parent(visits: u32, children: Vec<Node<u8>>) -> Node<u8> {
    let mut node: Node<u8> = Node::new(None);
    node.visits = visits;
    node.expansion.try_set(Box::new(NodeExpansion { winner: None, children }));
    node
}

#[test]
fn slot_starts_empty() {
    let slot: LazySlot<u32> = LazySlot::new();
    assert!(slot.get().is_none());
    let other: LazySlot<u32> = LazySlot::default();
    assert!(other.get().is_none());
}

#[test]
fn slot_keeps_the_first_value() {
    let mut slot: LazySlot<u32> = LazySlot::new();
    assert_eq!(*slot.try_set(Box::new(7)), 7);
    assert_eq!(slot.get(), Some(&7));
    assert_eq!(*slot.try_set(Box::new(9)), 7);
    assert_eq!(slot.get(), Some(&7));
    assert_eq!(*slot.try_set(Box::new(11)), 7);
    assert_eq!(slot.get(), Some(&7));
}

#[test]
fn slot_value_can_be_changed_in_place() {
    let mut slot: LazySlot<u32> = LazySlot::new();
    assert!(slot.get_mut().is_none());
    slot.try_set(Box::new(1));
    *slot.get_mut().unwrap() = 5;
    assert_eq!(slot.get(), Some(&5));
}

#[test]
fn new_node_has_no_statistics() {
    let node: Node<u8> = Node::new(Some(3));
    assert_eq!(node.m, Some(3));
    assert_eq!(node.visits, 0);
    assert_eq!(node.score, 0);
    assert!(node.expansion.get().is_none());
    let root: Node<u8> = Node::new(None);
    assert_eq!(root.m, None);
}

#[test]
fn update_stats_counts_and_adds() {
    let mut node: Node<u8> = Node::new(Some(1));
    assert_eq!(node.update_stats(1), 1);
    assert_eq!((node.visits, node.score), (1, 1));
    assert_eq!(node.update_stats(-1), -1);
    assert_eq!((node.visits, node.score), (2, 0));
    assert_eq!(node.update_stats(0), 0);
    assert_eq!((node.visits, node.score), (3, 0));
    assert_eq!(node.update_stats(-1), -1);
    assert_eq!((node.visits, node.score), (4, -1));
    assert_eq!(node.m, Some(1));
    assert!(node.expansion.get().is_none());
}

#[test]
fn update_stats_in_either_order_ends_the_same() {
    let mut one: Node<u8> = leaf(4, 10, 2);
    let mut other: Node<u8> = leaf(4, 10, 2);
    one.update_stats(1);
    one.update_stats(-1);
    one.update_stats(-1);
    other.update_stats(-1);
    other.update_stats(-1);
    other.update_stats(1);
    assert_eq!((one.visits, one.score), (13, 1));
    assert_eq!((other.visits, other.score), (13, 1));
}

#[test]
fn uct_score_of_untried_node() {
    let node: Node<u8> = leaf(0, 0, 0);
    assert_eq!(node.uct_score(65536, 262144), INFINITE_SCORE);
    assert_eq!(node.uct_score(1, 0), INFINITE_SCORE);
    assert_eq!(node.uct_score(0, 262144), 0);
}

#[test]
fn uct_score_without_exploration_is_the_share_of_wins() {
    assert_eq!(leaf(0, 3, 3).uct_score(0, 262144), 65536);
    assert_eq!(leaf(0, 10, -10).uct_score(0, 262144), 0);
    assert_eq!(leaf(0, 8, 0).uct_score(0, 262144), 32768);
    assert_eq!(leaf(0, 3, 1).uct_score(0, 262144), 43690);
    assert_eq!(leaf(0, 4, 2).uct_score(0, 0), 49152);
}

#[test]
fn uct_score_with_exploration() {
    assert_eq!(leaf(0, 4, 2).uct_score(65536, 262144), 141833);
    assert_eq!(leaf(0, 1, 0).uct_score(32768, 65536), 79108);
    assert_eq!(leaf(0, 4, 2).uct_score(65536, 0), 49152);
}

#[test]
fn untried_node_scores_above_any_visited_node() {
    let untried: u64 = leaf(0, 0, 0).uct_score(1, 0);
    assert!(untried > leaf(0, 1, 1).uct_score(u32::MAX, u32::MAX));
    assert!(untried > leaf(0, u32::MAX, u32::MAX as i64).uct_score(u32::MAX, u32::MAX));
    assert!(untried > leaf(0, 7, -3).uct_score(65536, 2097151));
}

#[test]
fn best_child_of_unexpanded_node_is_none() {
    let node: Node<u8> = Node::new(None);
    assert!(node.best_child(65536).is_none());
    assert!(node.best_child_index(65536).is_none());
    assert!(node.best_child_from(0, 65536).is_none());
}

#[test]
fn best_child_of_node_without_children_is_none() {
    let mut node: Node<u8> = Node::new(None);
    node.expansion.try_set(Box::new(NodeExpansion {
        winner: Some(Winner::Draw),
        children: Vec::new(),
    }));
    assert!(node.best_child(0).is_none());
    assert!(node.best_child_index(0).is_none());
    assert!(node.best_child_from(0, 0).is_none());
}

#[test]
fn best_child_from_takes_the_highest_score() {
    let node = parent(9, vec![leaf(0, 3, -1), leaf(1, 3, 3), leaf(2, 3, 1)]);
    assert_eq!(node.best_child_from(0, 0), Some(1));
    assert_eq!(node.best_child_from(1, 0), Some(1));
    assert_eq!(node.best_child_from(2, 0), Some(1));
}

#[test]
fn best_child_from_breaks_ties_by_the_order_of_the_scan() {
    let node = parent(6, vec![leaf(0, 2, 0), leaf(1, 2, 2), leaf(2, 2, 2), leaf(3, 0, 0)]);
    assert_eq!(node.best_child_from(0, 0), Some(1));
    assert_eq!(node.best_child_from(1, 0), Some(1));
    assert_eq!(node.best_child_from(2, 0), Some(2));
    assert_eq!(node.best_child_from(3, 0), Some(1));
}

#[test]
fn best_child_from_starts_with_the_first_among_equals() {
    let node = parent(8, vec![leaf(0, 2, 0), leaf(1, 2, 0), leaf(2, 2, 0), leaf(3, 2, 0)]);
    let mut start: usize = 0;
    while start < 4 {
        assert_eq!(node.best_child_from(start, 0), Some(start));
        assert_eq!(node.best_child_from(start, 65536), Some(start));
        start += 1;
    }
}

#[test]
fn best_child_from_prefers_untried_children_when_exploring() {
    let node = parent(6, vec![leaf(0, 3, 3), leaf(1, 3, 3), leaf(2, 0, 0)]);
    assert_eq!(node.best_child_from(0, 65536), Some(2));
    assert_eq!(node.best_child_from(1, 65536), Some(2));
    assert_eq!(node.best_child_from(2, 65536), Some(2));
    assert_eq!(node.best_child_from(0, 0), Some(0));
    assert_eq!(node.best_child_from(1, 0), Some(1));
    assert_eq!(node.best_child_from(2, 0), Some(0));
}

#[test]
fn best_child_from_weighs_rare_visits_up() {
    // Shares of wins 3/4 and 1/2; the second child has a single visit.
    let node = parent(9, vec![leaf(0, 8, 4), leaf(1, 1, 0)]);
    assert_eq!(node.best_child_from(0, 0), Some(0));
    assert_eq!(node.best_child_from(0, 65536), Some(1));
}

#[test]
fn best_child_index_is_always_in_range() {
    let node = parent(8, vec![leaf(0, 2, 0), leaf(1, 2, 0), leaf(2, 2, 0), leaf(3, 2, 0)]);
    let mut seen: Vec<bool> = vec![false, false, false, false];
    let mut round: u32 = 0;
    while round < 400 {
        let i: usize = node.best_child_index(0).unwrap();
        assert!(i < 4);
        seen[i] = true;
        round += 1;
    }
    // Every child is the first of the scan now and then.
    assert_eq!(seen, vec![true, true, true, true]);
}

#[test]
fn best_child_is_one_of_the_children() {
    let node = parent(9, vec![leaf(10, 3, -1), leaf(11, 3, 3), leaf(12, 3, 1)]);
    let mut round: u32 = 0;
    while round < 50 {
        let best = node.best_child(0).unwrap();
        assert_eq!(best.m, Some(11));
        assert_eq!((best.visits, best.score), (3, 3));
        round += 1;
    }
    let only = parent(1, vec![leaf(5, 1, 1)]);
    assert_eq!(only.best_child(65536).unwrap().m, Some(5));
    assert_eq!(only.best_child_index(65536), Some(0));
}
