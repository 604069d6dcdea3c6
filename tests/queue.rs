use rust_queue::{render, DoublePriorityQueue, IndexOutOfRange};

/// Keys in halves, so that 10.5 orders between 10 and 11.
fn half_key(x: f64) -> i64 {
    (x * 2.0) as i64
}

fn queue_of(values: &[f64]) -> DoublePriorityQueue<f64> {
    let mut q = DoublePriorityQueue::new();
    for &v in values {
        q.push(v, half_key(v));
    }
    q
}

fn scenario_queue() -> DoublePriorityQueue<f64> {
    queue_of(&[5.0, 0.0, 10.0, 10.0, 10.5, 5.0, 3.0, 6.0, 2.0])
}

fn drain<T: Clone>(q: &DoublePriorityQueue<T>) -> Vec<T> {
    let mut out = Vec::new();
    let mut it = q.iterate();
    while let Some(x) = it.next(q) {
        out.push(x.clone());
    }
    out
}

#[test]
fn iterate_yields_descending_order() {
    let q = scenario_queue();
    assert_eq!(drain(&q), vec![10.5, 10.0, 10.0, 6.0, 5.0, 5.0, 3.0, 2.0, 0.0]);
}

#[test]
fn pop_max_then_peek_max() {
    let mut q = scenario_queue();
    assert_eq!(q.pop_max(), Some(10.5));
    assert_eq!(q.length(), 8);
    assert_eq!(q.peek_max(), Some(&10.0));
}

#[test]
fn remove_at_takes_the_second_ten() {
    let mut q = DoublePriorityQueue::new();
    for (i, v) in [5.0, 0.0, 10.0, 10.0, 10.5, 5.0, 3.0, 6.0, 2.0].iter().enumerate() {
        q.push((*v, i), half_key(*v));
    }
    assert_eq!(q.get_at(2), Ok(&(10.0, 2)));
    assert_eq!(q.remove_at(2), Ok(()));
    assert_eq!(q.get_at(2), Ok(&(6.0, 7)));
    assert_eq!(q.get_at(1), Ok(&(10.0, 3)));
    assert_eq!(q.length(), 8);
}

#[test]
fn removing_the_next_pending_node_ends_the_walk() {
    let mut q = scenario_queue();
    let mut it = q.iterate();
    assert_eq!(it.next(&q), Some(&10.5));
    assert_eq!(q.remove_at(1), Ok(()));
    assert_eq!(it.next(&q), None);
    assert_eq!(it.next(&q), None);
}

#[test]
fn removing_a_deeper_pending_node_ends_the_walk() {
    let mut q = scenario_queue();
    let mut it = q.iterate();
    assert_eq!(it.next(&q), Some(&10.5));
    assert_eq!(q.remove_at(2), Ok(()));
    assert_eq!(it.next(&q), None);
}

#[test]
fn pushing_during_a_walk_keeps_it_going() {
    let mut q = scenario_queue();
    let mut it = q.iterate();
    assert_eq!(it.next(&q), Some(&10.5));
    q.push(1.0, half_key(1.0));
    let mut rest = Vec::new();
    while let Some(x) = it.next(&q) {
        rest.push(*x);
    }
    assert_eq!(rest, vec![10.0, 10.0, 6.0, 5.0, 5.0, 3.0, 2.0, 1.0, 0.0]);
}

#[test]
fn equal_keys_come_out_latest_first() {
    let mut q = DoublePriorityQueue::new();
    q.push("first five", 5);
    q.push("three", 3);
    q.push("second five", 5);
    assert_eq!(drain(&q), vec!["second five", "first five", "three"]);
    assert_eq!(q.pop_max(), Some("second five"));
    assert_eq!(q.pop_min(), Some("three"));
    assert_eq!(q.pop_min(), Some("first five"));
    assert_eq!(q.pop_min(), None);
}

#[test]
fn two_walks_agree() {
    let q = queue_of(&[4.0, 8.0, 1.0, 8.0, 3.0, 9.0, 0.5]);
    assert_eq!(drain(&q), drain(&q));
}

#[test]
fn descending_walk_is_reverse_of_ascending_pops() {
    let values = [7.0, 2.0, 9.0, 2.0, 4.0, 11.0, 0.0, 6.0, 6.0, 1.0];
    let q = queue_of(&values);
    let walked = drain(&q);
    let mut q2 = queue_of(&values);
    let mut ascending = Vec::new();
    while let Some(x) = q2.pop_min() {
        ascending.push(x);
    }
    for w in ascending.windows(2) {
        assert!(w[0] <= w[1]);
    }
    ascending.reverse();
    assert_eq!(walked, ascending);
}

#[test]
fn length_follows_pushes_pops_removals_and_clear() {
    let mut q = scenario_queue();
    assert_eq!(q.length(), 9);
    q.push(1.0, half_key(1.0));
    assert_eq!(q.length(), 10);
    q.pop_max();
    q.pop_min();
    assert_eq!(q.length(), 8);
    assert_eq!(q.remove_at(3), Ok(()));
    assert_eq!(q.length(), 7);
    assert_eq!(q.remove_at(7), Err(IndexOutOfRange { index: 7, length: 7 }));
    assert_eq!(q.length(), 7);
    q.clear();
    assert_eq!(q.length(), 0);
    assert!(q.is_empty());
}

#[test]
fn get_then_remove_takes_that_item() {
    for r in 0..9usize {
        let mut q = DoublePriorityQueue::new();
        for (i, v) in [5.0, 0.0, 10.0, 10.0, 10.5, 5.0, 3.0, 6.0, 2.0].iter().enumerate() {
            q.push((*v, i), half_key(*v));
        }
        let before = drain(&q);
        let got = *q.get_at(r).unwrap();
        assert_eq!(q.remove_at(r), Ok(()));
        assert_eq!(q.length(), 8);
        let mut expected = before.clone();
        let removed = expected.remove(r);
        assert_eq!(removed, got);
        assert_eq!(drain(&q), expected);
    }
}

#[test]
fn rank_ends_match_peeks() {
    let q = scenario_queue();
    assert_eq!(q.get_at(0).ok(), q.peek_max());
    assert_eq!(q.get_at(q.length() - 1).ok(), q.peek_min());
    assert_eq!(q.peek_min(), Some(&0.0));
    assert_eq!(q.get_at(9), Err(IndexOutOfRange { index: 9, length: 9 }));
}

#[test]
fn remove_at_length_is_out_of_range() {
    let mut q = scenario_queue();
    assert_eq!(q.remove_at(9), Err(IndexOutOfRange { index: 9, length: 9 }));
    assert_eq!(q.length(), 9);
    assert_eq!(drain(&q), vec![10.5, 10.0, 10.0, 6.0, 5.0, 5.0, 3.0, 2.0, 0.0]);
}

#[test]
fn remove_root_and_inner_nodes() {
    let mut q = scenario_queue();
    // The first push is the root; it sits at rank 5 (the earlier 5).
    assert_eq!(q.remove_at(5), Ok(()));
    assert_eq!(drain(&q), vec![10.5, 10.0, 10.0, 6.0, 5.0, 3.0, 2.0, 0.0]);
    assert_eq!(q.remove_at(0), Ok(()));
    assert_eq!(q.remove_at(6), Ok(()));
    assert_eq!(drain(&q), vec![10.0, 10.0, 6.0, 5.0, 3.0, 2.0]);
    while q.length() > 0 {
        assert_eq!(q.remove_at(q.length() / 2), Ok(()));
    }
    assert!(q.is_empty());
    assert_eq!(q.pop_max(), None);
}

#[test]
fn empty_queue_answers() {
    let mut q: DoublePriorityQueue<u32> = DoublePriorityQueue::new();
    assert!(q.is_empty());
    assert_eq!(q.length(), 0);
    assert_eq!(q.peek_max(), None);
    assert_eq!(q.peek_min(), None);
    assert_eq!(q.pop_max(), None);
    assert_eq!(q.pop_min(), None);
    assert_eq!(q.get_at(0), Err(IndexOutOfRange { index: 0, length: 0 }));
    assert_eq!(q.remove_at(0), Err(IndexOutOfRange { index: 0, length: 0 }));
    assert!(!q.contains(0));
    let mut it = q.iterate();
    assert_eq!(it.next(&q), None);
}

#[test]
fn contains_finds_keys() {
    let q = scenario_queue();
    assert!(q.contains(half_key(10.5)));
    assert!(q.contains(half_key(0.0)));
    assert!(q.contains(half_key(6.0)));
    assert!(!q.contains(half_key(7.0)));
    assert!(!q.contains(half_key(-1.0)));
    assert!(!q.contains(half_key(11.0)));
}

#[test]
fn extreme_keys() {
    let mut q = DoublePriorityQueue::new();
    q.push('a', i64::MAX);
    q.push('b', i64::MIN);
    q.push('c', 0);
    q.push('d', i64::MAX);
    assert_eq!(drain(&q), vec!['d', 'a', 'c', 'b']);
    assert_eq!(q.pop_min(), Some('b'));
    assert_eq!(q.pop_max(), Some('d'));
}

#[test]
fn has_room_on_a_fresh_queue() {
    let q: DoublePriorityQueue<u8> = DoublePriorityQueue::new();
    assert!(q.has_room_for_push());
}

#[test]
fn render_brackets_and_commas() {
    let q = scenario_queue();
    let parts: Vec<String> = drain(&q).iter().map(|x| format!("{}", x)).collect();
    assert_eq!(render(&parts), "[10.5, 10, 10, 6, 5, 5, 3, 2, 0]");
    assert_eq!(render(&Vec::new()), "[]");
    assert_eq!(render(&vec!["x".to_string()]), "[x]");
}
