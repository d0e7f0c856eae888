use oisy_trade::queue::{OrderIter, OrderQueue, OrderQueueIter};
use std::collections::BTreeMap;

/// Levels in ascending key order, as a map of key to values holds them.
fn map_of<K: Ord + Copy, V, const N: usize>(entries: [(K, Vec<V>); N]) -> Vec<(K, Vec<V>)> {
    let map: BTreeMap<K, Vec<V>> = entries.into_iter().collect();
    map.into_iter().collect()
}

fn items<'a>(mut it: OrderIter<'a, u32, &'static str>) -> Vec<(u32, &'static str)> {
    it.rest().into_iter().map(|(k, v)| (*k, *v)).collect()
}

#[test]
fn yields_nothing_for_empty_map() {
    let map: Vec<(u32, Vec<&str>)> = Vec::new();
    assert_eq!(OrderQueueIter::new(&map).rest().len(), 0);
}

#[test]
fn yields_single_entry_for_one_level_with_one_value() {
    let map = map_of([(1u32, vec!["a"])]);
    assert_eq!(items(OrderQueueIter::new(&map)), vec![(1, "a")]);
}

#[test]
fn preserves_fifo_within_a_level() {
    let map = map_of([(1u32, vec!["a", "b", "c"])]);
    assert_eq!(items(OrderQueueIter::new(&map)), vec![(1, "a"), (1, "b"), (1, "c")]);
}

#[test]
fn walks_levels_in_ascending_key_order() {
    let map = map_of([(3u32, vec!["c"]), (1, vec!["a"]), (2, vec!["b"])]);
    assert_eq!(items(OrderQueueIter::new(&map)), vec![(1, "a"), (2, "b"), (3, "c")]);
}

#[test]
fn interleaves_levels_and_preserves_fifo() {
    let map = map_of([(1u32, vec!["a", "b"]), (2, vec!["c", "d"])]);
    assert_eq!(items(OrderQueueIter::new(&map)), vec![(1, "a"), (1, "b"), (2, "c"), (2, "d")]);
}

#[test]
fn skips_empty_inner_deques() {
    let map = map_of([(1u32, vec![]), (2, vec!["b"]), (3, vec![])]);
    assert_eq!(items(OrderQueueIter::new(&map)), vec![(2, "b")]);
}

#[test]
fn returns_none_repeatedly_after_exhaustion() {
    let map = map_of([(1u32, vec!["a"])]);
    let mut iter = OrderQueueIter::new(&map);
    assert!(iter.next().is_some());
    assert!(iter.next().is_none());
    assert!(iter.next().is_none());
}

#[test]
fn is_empty_when_new() {
    let queue: OrderQueue<u32, &str> = OrderQueue::new();
    assert!(queue.is_empty());
    assert_eq!(queue.len(), 0);
}

fn queue_items(queue: &OrderQueue<u32, &'static str>) -> Vec<(u32, &'static str)> {
    items(queue.iter())
}

#[test]
fn groups_into_levels() {
    let mut queue: OrderQueue<u32, &str> = OrderQueue::new();
    queue.push_back(1, "a");
    queue.push_back(1, "b");
    queue.push_back(2, "c");
    assert_eq!(queue.len(), 2);
    assert_eq!(queue_items(&queue), vec![(1, "a"), (1, "b"), (2, "c")]);
}

#[test]
fn drains_in_fifo_order() {
    let mut queue: OrderQueue<u32, &str> = OrderQueue::new();
    queue.push_back(1, "a");
    queue.push_back(1, "b");
    queue.push_back(2, "c");
    assert_eq!(queue.pop_front(), Some((1, "a")));
    assert_eq!(queue.pop_front(), Some((1, "b")));
    assert_eq!(queue.pop_front(), Some((2, "c")));
    assert_eq!(queue.pop_front(), None);
}

#[test]
fn removes_emptied_level() {
    let mut queue: OrderQueue<u32, &str> = OrderQueue::new();
    queue.push_back(1, "a");
    queue.push_back(2, "b");
    assert_eq!(queue.pop_front(), Some((1, "a")));
    assert_eq!(queue.len(), 1);
    assert_eq!(queue.iter().next(), Some((&2, &"b")));
}

#[test]
fn returns_best_without_popping() {
    let mut queue: OrderQueue<u32, &str> = OrderQueue::new();
    queue.push_back(1, "a");
    queue.push_back(1, "b");
    let (k, v) = queue.front_mut().unwrap();
    assert_eq!(k, 1);
    assert_eq!(*v, "a");
    assert_eq!(queue.len(), 1);
    assert_eq!(queue.iter().rest().len(), 2);
}

#[test]
fn matches_first_value_in_level() {
    let mut queue: OrderQueue<u32, &str> = OrderQueue::new();
    queue.push_back(1, "a");
    queue.push_back(1, "b");
    let removed = queue.remove(1, |v: &&str| *v == "b");
    assert_eq!(removed, Some("b"));
    assert_eq!(queue_items(&queue), vec![(1, "a")]);
}

#[test]
fn drops_level_when_last_value_removed() {
    let mut queue: OrderQueue<u32, &str> = OrderQueue::new();
    queue.push_back(1, "a");
    let removed = queue.remove(1, |v: &&str| *v == "a");
    assert_eq!(removed, Some("a"));
    assert!(queue.is_empty());
}

#[test]
fn returns_none_for_absent_level() {
    let mut queue: OrderQueue<u32, &str> = OrderQueue::new();
    queue.push_back(1, "a");
    assert_eq!(queue.remove(2, |_: &&str| true), None);
}

#[test]
fn returns_none_when_predicate_matches_nothing() {
    let mut queue: OrderQueue<u32, &str> = OrderQueue::new();
    queue.push_back(1, "a");
    assert_eq!(queue.remove(1, |v: &&str| *v == "z"), None);
}

#[test]
fn drops_empty_levels() {
    let queue = OrderQueue::from_levels(map_of([(1u32, vec![]), (2, vec!["b"]), (3, vec![])]));
    // Empty levels are dropped, so the best level is non-empty and pop_front
    // does not trap.
    assert_eq!(queue.len(), 1);
    assert_eq!(queue_items(&queue), vec![(2, "b")]);
}

#[test]
fn front_mut_changes_the_oldest_value_in_place() {
    let mut queue: OrderQueue<u32, u64> = OrderQueue::new();
    queue.push_back(5, 10);
    queue.push_back(5, 20);
    if let Some((_, v)) = queue.front_mut() {
        *v = 11;
    }
    assert_eq!(queue.pop_front(), Some((5, 11)));
    assert_eq!(queue.pop_front(), Some((5, 20)));
}
