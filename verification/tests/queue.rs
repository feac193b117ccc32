use hierseg::queue::{EdgeQueue, QueueEntry};

#[test]
fn queue_hands_out_the_lightest_first() {
    let mut queue = EdgeQueue::new();
    assert_eq!(queue.len(), 0);
    assert_eq!(queue.pop(), None);
    let weights = [50u64, 20, 90, 10, 70, 30, 60, 40, 80, 0];
    for (edge, weight) in weights.iter().enumerate() {
        queue.push(QueueEntry { weight: *weight, edge });
    }
    assert_eq!(queue.len(), 10);
    let mut out = Vec::new();
    while let Some(entry) = queue.pop() {
        assert_eq!(weights[entry.edge], entry.weight);
        out.push(entry.weight);
    }
    assert_eq!(out, vec![0, 10, 20, 30, 40, 50, 60, 70, 80, 90]);
    assert_eq!(queue.len(), 0);
}

#[test]
fn queue_keeps_entries_of_equal_weight() {
    let mut queue = EdgeQueue::new();
    for edge in 0..5 {
        queue.push(QueueEntry { weight: 7, edge });
    }
    queue.push(QueueEntry { weight: 3, edge: 9 });
    assert_eq!(queue.pop(), Some(QueueEntry { weight: 3, edge: 9 }));
    let mut edges: Vec<usize> = Vec::new();
    while let Some(entry) = queue.pop() {
        assert_eq!(entry.weight, 7);
        edges.push(entry.edge);
    }
    edges.sort();
    assert_eq!(edges, vec![0, 1, 2, 3, 4]);
}
