use battlesnake_alphazero::utils::BoundedDeque;

#[test]
fn push_back_drops_the_oldest_item_when_full() {
    let mut queue: BoundedDeque<u32> = BoundedDeque::new(3);
    queue.push_back(1);
    queue.push_back(2);
    queue.push_back(3);
    queue.push_back(4);
    let held: Vec<u32> = queue.deque.iter().copied().collect();
    assert_eq!(held, vec![2, 3, 4]);
}

#[test]
fn append_keeps_only_the_newest_items() {
    let mut queue: BoundedDeque<u32> = BoundedDeque::new(4);
    queue.push_back(1);
    queue.push_back(2);
    queue.append(vec![3, 4, 5, 6, 7]);
    let held: Vec<u32> = queue.deque.iter().copied().collect();
    assert_eq!(held, vec![4, 5, 6, 7]);
}

#[test]
fn append_below_the_bound_keeps_everything() {
    let mut queue: BoundedDeque<u32> = BoundedDeque::new(10);
    queue.append(vec![1, 2]);
    queue.append(vec![3]);
    let held: Vec<u32> = queue.deque.iter().copied().collect();
    assert_eq!(held, vec![1, 2, 3]);
}

#[test]
fn push_front_drops_the_newest_item_when_full() {
    let mut queue: BoundedDeque<u32> = BoundedDeque::new(2);
    queue.push_back(1);
    queue.push_back(2);
    queue.push_front(0);
    let held: Vec<u32> = queue.deque.iter().copied().collect();
    assert_eq!(held, vec![0, 1]);
}

#[test]
fn a_queue_with_the_bound_zero_keeps_nothing() {
    let mut queue: BoundedDeque<u32> = BoundedDeque::new(0);
    queue.push_back(1);
    assert!(queue.deque.is_empty());
    queue.push_front(2);
    assert!(queue.deque.is_empty());
    queue.append(vec![3, 4]);
    assert!(queue.deque.is_empty());
}

#[test]
fn a_queue_never_holds_more_than_its_bound() {
    let mut queue: BoundedDeque<u32> = BoundedDeque::new(2);
    for item in 0..10 {
        queue.push_back(item);
        assert!(queue.deque.len() <= 2);
        assert_eq!(queue.deque.len(), (item as usize + 1).min(2));
        assert_eq!(queue.deque.back(), Some(&item));
    }
    let held: Vec<u32> = queue.deque.iter().copied().collect();
    assert_eq!(held, vec![8, 9]);
    queue.push_front(7);
    let held: Vec<u32> = queue.deque.iter().copied().collect();
    assert_eq!(held, vec![7, 8]);
    // a queue that was filled past its bound from outside is cut back
    queue.deque.push_back(100);
    queue.deque.push_back(101);
    queue.push_back(102);
    let held: Vec<u32> = queue.deque.iter().copied().collect();
    assert_eq!(held, vec![101, 102]);
}
