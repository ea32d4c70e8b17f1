use lib::process::hibou_process::{NextToProcess, NextToProcessKind, ProcessQueue};

fn node(id: u32) -> NextToProcess<u8> {
    NextToProcess::new(vec![0, id], id, NextToProcessKind::Execute(id as u8))
}

#[test]
fn new_queue_is_empty() {
    let mut q: ProcessQueue<u8> = ProcessQueue::new();
    assert!(q.high_priority.is_empty());
    assert!(q.medium_priority.is_empty());
    assert!(q.low_priority.is_empty());
    assert_eq!(q.get_next(), None);
}

#[test]
fn node_new_keeps_its_parts() {
    let n = NextToProcess::new(vec![1, 2, 3], 7, NextToProcessKind::Execute(9u8));
    assert_eq!(n.state_id, vec![1, 2, 3]);
    assert_eq!(n.id_as_child, 7);
    assert_eq!(n.kind, NextToProcessKind::Execute(9u8));
}

#[test]
fn priority_one_or_more_is_high_zero_is_medium() {
    let mut q = ProcessQueue::new();
    q.insert_item_right(node(1), 1);
    q.insert_item_right(node(2), 7);
    q.insert_item_right(node(3), 0);
    q.insert_item_left(node(4), u32::MAX);
    q.insert_item_left(node(5), 0);
    assert_eq!(q.high_priority, vec![node(4), node(1), node(2)]);
    assert_eq!(q.medium_priority, vec![node(5), node(3)]);
    assert!(q.low_priority.is_empty());
}

#[test]
fn high_level_is_served_before_medium_and_low() {
    let mut q = ProcessQueue::new();
    q.low_priority.push(node(9));
    q.insert_item_right(node(1), 0);
    q.insert_item_right(node(2), 3);
    q.insert_item_right(node(3), 0);
    q.insert_item_right(node(4), 1);
    assert_eq!(q.get_next(), Some(node(2)));
    assert_eq!(q.get_next(), Some(node(4)));
    assert_eq!(q.get_next(), Some(node(1)));
    assert_eq!(q.get_next(), Some(node(3)));
    assert_eq!(q.get_next(), Some(node(9)));
    assert_eq!(q.get_next(), None);
}

#[test]
fn insert_left_then_next_gives_it_back() {
    let mut q = ProcessQueue::new();
    q.insert_item_right(node(1), 1);
    q.insert_item_right(node(2), 0);
    q.insert_item_left(node(3), 1);
    assert_eq!(q.get_next(), Some(node(3)));
    assert_eq!(q.high_priority, vec![node(1)]);
    assert_eq!(q.medium_priority, vec![node(2)]);
}

#[test]
fn insert_into_empty_then_next_empties_again() {
    let mut q = ProcessQueue::new();
    q.insert_item_right(node(1), 0);
    assert_eq!(q.get_next(), Some(node(1)));
    assert_eq!(q.get_next(), None);
    q.insert_item_left(node(2), 5);
    assert_eq!(q.get_next(), Some(node(2)));
    assert_eq!(q.get_next(), None);
}

#[test]
fn insert_right_is_first_in_first_out() {
    let mut q = ProcessQueue::new();
    for i in 0..5 {
        q.insert_item_right(node(i), 2);
    }
    for i in 0..5 {
        assert_eq!(q.get_next(), Some(node(i)));
    }
    assert_eq!(q.get_next(), None);
}

#[test]
fn insert_left_is_last_in_first_out() {
    let mut q = ProcessQueue::new();
    for i in 0..4 {
        q.insert_item_left(node(i), 0);
    }
    for i in (0..4).rev() {
        assert_eq!(q.get_next(), Some(node(i)));
    }
}

#[test]
fn counts_grow_and_shrink_by_one() {
    let mut q = ProcessQueue::new();
    q.insert_item_right(node(1), 0);
    q.insert_item_left(node(2), 1);
    q.insert_item_right(node(3), 4);
    let len = |q: &ProcessQueue<u8>| q.high_priority.len() + q.medium_priority.len() + q.low_priority.len();
    assert_eq!(len(&q), 3);
    let mut taken = Vec::new();
    while let Some(n) = q.get_next() {
        taken.push(n);
    }
    assert_eq!(len(&q), 0);
    taken.sort_by_key(|n| n.id_as_child);
    assert_eq!(taken, vec![node(1), node(2), node(3)]);
}

#[test]
fn draining_gives_every_node_once_in_serving_order() {
    let mut q = ProcessQueue::new();
    q.low_priority.push(node(8));
    q.low_priority.push(node(9));
    q.insert_item_right(node(1), 0);
    q.insert_item_left(node(2), 2);
    q.insert_item_right(node(3), 1);
    q.insert_item_left(node(4), 0);
    let order: Vec<NextToProcess<u8>> = q
        .high_priority
        .iter()
        .chain(q.medium_priority.iter())
        .chain(q.low_priority.iter())
        .cloned()
        .collect();
    assert_eq!(order, vec![node(2), node(3), node(4), node(1), node(8), node(9)]);
    let k = order.len();
    for i in 0..k {
        assert_eq!(q.get_next(), Some(order[i].clone()));
    }
    assert_eq!(q.get_next(), None);
    assert!(q.high_priority.is_empty() && q.medium_priority.is_empty() && q.low_priority.is_empty());
}
