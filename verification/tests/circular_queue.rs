use rstl::{CircularQueue, Collection, Disposable, QueueError};

fn as_vec<T: Clone>(q: &CircularQueue<T>) -> Vec<T> {
    Collection::collect(q)
}

#[test]
fn circular_queue_constructor_should_validate_capacity() {
    assert!(matches!(
        CircularQueue::<i32>::new(0),
        Err(QueueError::InvalidCapacity { capacity: 0 })
    ));
    assert!(CircularQueue::<i32>::new(1).is_ok());
}

#[test]
fn queue_like_ops_should_work() {
    let mut q = CircularQueue::new(4).expect("new should work");

    assert_eq!(q.dequeue(), None);

    q.enqueue(1);
    q.enqueues(vec![2, 3, 4]);
    assert_eq!(as_vec(&q), vec![1, 2, 3, 4]);

    q.enqueue(5);
    assert_eq!(as_vec(&q), vec![2, 3, 4, 5]);

    assert_eq!(q.front(), Some(&2));
    assert_eq!(q.replace_front(6), Some(2));
    assert_eq!(as_vec(&q), vec![3, 4, 5, 6]);
}

#[test]
fn circular_queue_replace_front_should_handle_empty_and_single_item() {
    let mut q = CircularQueue::new(3).expect("new should work");

    assert_eq!(q.replace_front(10), None);
    assert_eq!(as_vec(&q), vec![10]);

    assert_eq!(q.replace_front(20), Some(10));
    assert_eq!(as_vec(&q), vec![20]);
}

#[test]
fn front_and_back_should_return_none_on_empty_queue() {
    let q = CircularQueue::<i32>::new(3).expect("new should work");

    assert_eq!(q.front(), None);
    assert_eq!(q.back(), None);
}

#[test]
fn dequeue_and_dequeue_back_should_handle_single_and_empty_states() {
    let mut q = CircularQueue::new(3).expect("new should work");

    assert_eq!(q.dequeue(), None);
    assert_eq!(q.dequeue_back(), None);

    q.enqueue(42);
    assert_eq!(q.dequeue(), Some(42));
    assert!(q.is_empty());

    q.enqueue(7);
    assert_eq!(q.dequeue_back(), Some(7));
    assert!(q.is_empty());
}

#[test]
fn enqueues_should_keep_latest_elements_when_over_capacity() {
    let mut q = CircularQueue::new(4).expect("new should work");

    q.enqueues((1..=10).collect());

    assert_eq!(as_vec(&q), vec![7, 8, 9, 10]);
    assert_eq!(q.front(), Some(&7));
    assert_eq!(q.back(), Some(&10));
}

#[test]
fn deque_like_ops_should_work() {
    let mut q = CircularQueue::new(4).expect("new should work");

    q.enqueues(vec![1, 2]);
    q.enqueue_front(9);
    q.enqueue_front(8);
    assert_eq!(as_vec(&q), vec![8, 9, 1, 2]);

    q.enqueues_front(vec![7, 6]);
    assert_eq!(as_vec(&q), vec![6, 7, 8, 9]);

    assert_eq!(q.back(), Some(&9));
    assert_eq!(q.dequeue_back(), Some(9));
    assert_eq!(q.replace_back(5), Some(8));
    assert_eq!(as_vec(&q), vec![5, 6, 7]);
}

#[test]
fn replace_back_should_handle_empty_and_single_item() {
    let mut q = CircularQueue::new(3).expect("new should work");

    assert_eq!(q.replace_back(10), None);
    assert_eq!(as_vec(&q), vec![10]);

    assert_eq!(q.replace_back(20), Some(10));
    assert_eq!(as_vec(&q), vec![20]);
}

#[test]
fn enqueues_front_should_keep_latest_front_inserted_elements() {
    let mut q = CircularQueue::new(4).expect("new should work");

    q.enqueues_front(vec![1, 2, 3, 4, 5]);

    assert_eq!(as_vec(&q), vec![5, 4, 3, 2]);
    assert_eq!(q.front(), Some(&5));
    assert_eq!(q.back(), Some(&2));
}

#[test]
fn enqueue_front_should_handle_empty_and_full_queue() {
    let mut q = CircularQueue::new(3).expect("new should work");

    q.enqueue_front(1);
    assert_eq!(as_vec(&q), vec![1]);

    q.enqueue(2);
    q.enqueue(3);
    assert_eq!(as_vec(&q), vec![1, 2, 3]);

    q.enqueue_front(9);
    assert_eq!(as_vec(&q), vec![9, 1, 2]);
}

#[test]
fn circular_queue_like_ops_should_work() {
    let mut q = CircularQueue::new(4).expect("new should work");
    q.enqueues(vec![1, 2, 3, 4, 5]);

    assert_eq!(q.capacity(), 4);
    assert_eq!(q.at(-1), None);
    assert_eq!(q.at(0), Some(&2));
    assert_eq!(q.at(3), Some(&5));
    assert_eq!(q.at(4), None);

    assert_eq!(
        q.resize(3),
        Err(QueueError::InsufficientCapacity {
            current_size: 4,
            requested_capacity: 3,
        })
    );

    q.resize(6).expect("resize should work");
    assert_eq!(q.capacity(), 6);

    q.enqueue(7);
    q.rearrange();
    assert_eq!(as_vec(&q), vec![2, 3, 4, 5, 7]);
}

#[test]
fn rearrange_should_preserve_order_after_wraparound() {
    let mut q = CircularQueue::new(5).expect("new should work");

    q.enqueues(vec![1, 2, 3, 4, 5, 6, 7]);
    assert_eq!(as_vec(&q), vec![3, 4, 5, 6, 7]);

    q.rearrange();
    assert_eq!(as_vec(&q), vec![3, 4, 5, 6, 7]);

    q.enqueue(8);
    assert_eq!(as_vec(&q), vec![4, 5, 6, 7, 8]);
}

#[test]
fn rearrange_should_handle_empty_and_non_wrapped_shifted_state() {
    let mut q = CircularQueue::new(6).expect("new should work");

    q.rearrange();
    assert!(q.is_empty());

    q.enqueues(vec![1, 2, 3, 4]);
    assert_eq!(q.dequeue(), Some(1));
    assert_eq!(q.dequeue(), Some(2));
    assert_eq!(as_vec(&q), vec![3, 4]);

    q.rearrange();
    assert_eq!(as_vec(&q), vec![3, 4]);

    q.enqueue(5);
    assert_eq!(as_vec(&q), vec![3, 4, 5]);
}

#[test]
fn rearrange_should_handle_sparse_wrapped_state() {
    let mut q = CircularQueue::new(10).expect("new should work");

    q.enqueues((1..=10).collect());
    for expected in 1..=6 {
        assert_eq!(q.dequeue(), Some(expected));
    }
    q.enqueues(vec![11, 12]);
    assert_eq!(as_vec(&q), vec![7, 8, 9, 10, 11, 12]);

    q.rearrange();
    assert_eq!(as_vec(&q), vec![7, 8, 9, 10, 11, 12]);

    q.enqueue(13);
    assert_eq!(as_vec(&q), vec![7, 8, 9, 10, 11, 12, 13]);
}

#[test]
fn enqueues_should_support_empty_input_without_side_effects() {
    let mut q = CircularQueue::new(4).expect("new should work");

    q.enqueues(Vec::new());
    assert!(q.is_empty());

    q.enqueues(vec![1, 2]);
    q.enqueues(Vec::new());
    assert_eq!(as_vec(&q), vec![1, 2]);
}

#[test]
fn resize_should_support_exact_shrink_and_followup_push() {
    let mut q = CircularQueue::new(5).expect("new should work");

    q.enqueues(vec![1, 2, 3]);
    q.resize(3).expect("resize to exact size should work");
    assert_eq!(q.capacity(), 3);
    assert_eq!(as_vec(&q), vec![1, 2, 3]);

    q.enqueue(4);
    assert_eq!(as_vec(&q), vec![2, 3, 4]);
}

#[test]
fn circular_queue_resize_should_reject_zero_capacity() {
    let mut q = CircularQueue::<i32>::new(5).expect("new should work");

    assert_eq!(q.resize(0), Err(QueueError::InvalidCapacity { capacity: 0 }));
}

#[test]
fn retain_should_work_on_wrapped_queue() {
    let mut q = CircularQueue::new(6).expect("new should work");

    q.enqueues(vec![1, 2, 3, 4, 5, 6]);
    assert_eq!(q.dequeue(), Some(1));
    assert_eq!(q.dequeue(), Some(2));
    q.enqueues(vec![7, 8]);
    assert_eq!(as_vec(&q), vec![3, 4, 5, 6, 7, 8]);

    let removed = q.retain(|x| *x % 2 == 0);
    assert_eq!(removed, 3);
    assert_eq!(as_vec(&q), vec![4, 6, 8]);
}

#[test]
fn retain_should_support_keep_all_and_remove_all() {
    let mut q = CircularQueue::new(4).expect("new should work");

    q.enqueues(vec![1, 2, 3, 4]);
    let removed_none = q.retain(|_| true);
    assert_eq!(removed_none, 0);
    assert_eq!(as_vec(&q), vec![1, 2, 3, 4]);

    let removed_all = q.retain(|_| false);
    assert_eq!(removed_all, 4);
    assert!(q.is_empty());
}

#[test]
fn retain_should_return_zero_on_empty_queue() {
    let mut q = CircularQueue::<i32>::new(4).expect("new should work");

    let removed = q.retain(|_| true);
    assert_eq!(removed, 0);
    assert!(q.is_empty());
}

#[test]
fn circular_queue_iter_and_into_iter_should_report_exact_size_hint() {
    let mut q = CircularQueue::new(4).expect("new should work");
    q.enqueues(vec![1, 2, 3]);

    let mut it = q.iter().into_iter();
    assert_eq!(it.size_hint(), (3, Some(3)));
    assert_eq!(it.next(), Some(&1));
    assert_eq!(it.size_hint(), (2, Some(2)));
    assert_eq!(it.next(), Some(&2));
    assert_eq!(it.next(), Some(&3));
    assert_eq!(it.size_hint(), (0, Some(0)));
    assert_eq!(it.next(), None);

    let from_into_iter: Vec<i32> = q.iter().into_iter().copied().collect();
    assert_eq!(from_into_iter, vec![1, 2, 3]);
}

#[test]
fn circular_queue_collection_and_dispose_contract_should_work() {
    let mut q = CircularQueue::new(6).expect("new should work");
    q.enqueues(vec![1, 2, 3, 4, 5, 6]);

    assert_eq!(Collection::size(&q), 6);
    assert_eq!(q.count(|x| *x % 2 == 0), 3);
    assert_eq!(Collection::collect(&q), vec![1, 2, 3, 4, 5, 6]);

    let removed = q.retain(|x| *x % 2 == 1);
    assert_eq!(removed, 3);
    assert_eq!(Collection::collect(&q), vec![1, 3, 5]);

    Collection::clear(&mut q);
    assert!(Collection::is_empty(&q));
    assert_eq!(Collection::size(&q), 0);

    assert!(!Disposable::is_disposed(&q));
    Disposable::dispose(&mut q);
    assert!(Disposable::is_disposed(&q));
    assert!(Collection::is_empty(&q));
}

#[test]
fn error_display_should_format_invalid_capacity() {
    let err = QueueError::InvalidCapacity { capacity: 0 };
    assert_eq!(
        err.to_string(),
        "[CircularQueue] capacity is expected to be a positive integer, but got (0)."
    );

    let err = rstl::StackError::InvalidCapacity { capacity: 0 };
    assert_eq!(
        err.to_string(),
        "[CircularStack] capacity is expected to be a positive integer, but got (0)."
    );

    let err = rstl::HistoryError::InvalidCapacity { capacity: 0 };
    assert_eq!(
        err.to_string(),
        "[History] capacity is expected to be a positive integer, but got (0)."
    );
}

#[test]
fn display_should_format_insufficient_capacity() {
    let err = QueueError::InsufficientCapacity {
        current_size: 3,
        requested_capacity: 2,
    };

    assert_eq!(
        err.to_string(),
        "[CircularQueue] failed to resize, the new queue space is insufficient. current size (3), requested capacity (2)."
    );
}
