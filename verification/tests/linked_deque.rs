use rstl::{Collection, Disposable, LinkedDeque};

fn drain_front(q: &mut LinkedDeque<i32>) -> Vec<i32> {
    let mut out = Vec::new();
    while let Some(x) = q.dequeue() {
        out.push(x);
    }
    out
}

#[test]
fn queue_like_should_work() {
    let mut q = LinkedDeque::new();

    assert_eq!(q.front(), None);
    assert_eq!(q.back(), None);
    assert_eq!(q.dequeue(), None);

    q.enqueues(vec![1, 2, 3]);
    assert_eq!(q.front(), Some(&1));
    assert_eq!(q.back(), Some(&3));

    assert_eq!(q.dequeue(), Some(1));
    assert_eq!(q.dequeue(), Some(2));
    assert_eq!(q.dequeue(), Some(3));
    assert_eq!(q.dequeue(), None);
}

#[test]
fn deque_like_should_work() {
    let mut q = LinkedDeque::new();

    q.enqueue_front(2);
    q.enqueue_front(1);
    q.enqueue(3);
    q.enqueue(4);

    assert_eq!(q.front(), Some(&1));
    assert_eq!(q.back(), Some(&4));
    assert_eq!(q.dequeue_back(), Some(4));
    assert_eq!(q.dequeue_back(), Some(3));
    assert_eq!(q.dequeue_back(), Some(2));
    assert_eq!(q.dequeue_back(), Some(1));
    assert_eq!(q.dequeue_back(), None);
}

#[test]
fn replace_front_should_follow_queue_contract() {
    let mut q = LinkedDeque::new();

    assert_eq!(q.replace_front(10), None);
    assert_eq!(drain_front(&mut q), vec![10]);

    q.enqueues(vec![1, 2, 3]);
    assert_eq!(q.replace_front(4), Some(1));
    assert_eq!(drain_front(&mut q), vec![2, 3, 4]);
}

#[test]
fn replace_back_should_follow_deque_contract() {
    let mut q = LinkedDeque::new();

    assert_eq!(q.replace_back(10), None);
    assert_eq!(drain_front(&mut q), vec![10]);

    q.enqueues(vec![1, 2, 3]);
    assert_eq!(q.replace_back(0), Some(3));
    assert_eq!(drain_front(&mut q), vec![0, 1, 2]);
}

#[test]
fn enqueues_front_default_impl_should_keep_reverse_input_order() {
    let mut q = LinkedDeque::new();
    q.enqueues(vec![3, 4]);
    q.enqueues_front(vec![1, 2]);

    assert_eq!(drain_front(&mut q), vec![2, 1, 3, 4]);
}

#[test]
fn retain_should_filter_and_report_removed_count() {
    let mut q = LinkedDeque::new();
    q.enqueues((1..=8).collect());

    assert_eq!(q.retain(|x| *x % 2 == 0), 4);
    assert_eq!(drain_front(&mut q), vec![2, 4, 6, 8]);

    assert_eq!(q.retain(|_| true), 0);
    assert_eq!(q.retain(|_| false), 0);
}

#[test]
fn collection_contract_should_work() {
    let mut q = LinkedDeque::new();
    q.enqueues(vec![3, 1, 2]);

    assert_eq!(Collection::size(&q), 3);
    assert_eq!(q.count(|x| *x >= 2), 2);
    assert_eq!(Collection::collect(&q), vec![3, 1, 2]);

    let mut out = Vec::new();
    out.extend(Collection::collect(&q));
    assert_eq!(out, vec![3, 1, 2]);

    Collection::clear(&mut q);
    assert!(Collection::is_empty(&q));
}

#[test]
fn iterable_should_be_complete() {
    let mut q = LinkedDeque::new();
    q.enqueues(vec![7, 8, 9]);

    let a: Vec<i32> = q.iter().into_iter().copied().collect();
    assert_eq!(a, vec![7, 8, 9]);

    let b: Vec<i32> = q.iter().into_iter().copied().collect();
    assert_eq!(b, vec![7, 8, 9]);
}

#[test]
fn dispose_should_clear_and_mark_disposed() {
    let mut q = LinkedDeque::new();
    q.enqueues(vec![1, 2, 3]);

    assert!(!q.is_disposed());
    Disposable::dispose(&mut q);
    assert!(q.is_disposed());
    assert!(q.is_empty());
}
