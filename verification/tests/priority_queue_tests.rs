use algolab::priority_queue::PriorityQueue;

#[test]
fn new_queue_is_empty() {
    let mut queue: PriorityQueue<i32> = PriorityQueue::new();
    assert!(queue.is_empty());
    assert_eq!(queue.len(), 0);
    assert_eq!(queue.peek(), None);
    assert_eq!(queue.pop(), None);
}

#[test]
fn pop_returns_the_maximum_and_peek_the_next() {
    let mut queue: PriorityQueue<i32> = PriorityQueue::new();
    queue.push(1);
    queue.push(2);
    queue.push(4);
    queue.push(16);
    queue.push(32);
    assert!(!queue.is_empty());
    assert_eq!(queue.len(), 5);
    assert_eq!(queue.pop(), Some(32));
    assert_eq!(queue.len(), 4);
    assert_eq!(queue.peek(), Some(&16));
    assert_eq!(queue.len(), 4);
}

#[test]
fn peek_follows_every_push() {
    let mut queue: PriorityQueue<u32> = PriorityQueue::new();
    let pushes = [5u32, 3, 8, 8, 1, 13, 2];
    let mut greatest = 0;
    for value in pushes {
        queue.push(value);
        if value > greatest {
            greatest = value;
        }
        assert_eq!(queue.peek(), Some(&greatest));
    }
}

#[test]
fn full_drain_is_non_increasing() {
    let mut queue: PriorityQueue<i64> = PriorityQueue::new();
    let values = [7i64, -3, 12, 0, 7, 99, -50, 12, 3, 1, 1, 42];
    for value in values {
        queue.push(value);
    }
    let mut drained = Vec::new();
    while let Some(value) = queue.pop() {
        drained.push(value);
    }
    let mut expected = values.to_vec();
    expected.sort();
    expected.reverse();
    assert_eq!(drained, expected);
    assert!(queue.is_empty());
}

#[test]
fn duplicates_are_kept() {
    let mut queue: PriorityQueue<u8> = PriorityQueue::new();
    queue.push(4);
    queue.push(4);
    queue.push(4);
    assert_eq!(queue.len(), 3);
    assert_eq!(queue.pop(), Some(4));
    assert_eq!(queue.pop(), Some(4));
    assert_eq!(queue.pop(), Some(4));
    assert_eq!(queue.pop(), None);
}

#[test]
fn interleaved_pushes_and_pops() {
    let mut queue: PriorityQueue<i32> = PriorityQueue::new();
    queue.push(3);
    queue.push(9);
    assert_eq!(queue.pop(), Some(9));
    queue.push(5);
    queue.push(1);
    assert_eq!(queue.pop(), Some(5));
    assert_eq!(queue.pop(), Some(3));
    queue.push(2);
    assert_eq!(queue.pop(), Some(2));
    assert_eq!(queue.pop(), Some(1));
    assert_eq!(queue.pop(), None);
}
