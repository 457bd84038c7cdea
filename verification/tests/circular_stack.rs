use rstl::{CircularStack, Collection, Disposable, StackError};

fn as_vec_top<T: Clone>(q: &CircularStack<T>) -> Vec<T> {
    q.collect()
}

#[test]
fn circular_stack_constructor_should_validate_capacity() {
    assert!(matches!(
        CircularStack::<i32>::new(0),
        Err(StackError::InvalidCapacity { capacity: 0 })
    ));
    assert!(CircularStack::<i32>::new(1).is_ok());
}

#[test]
fn stack_like_ops_should_work() {
    let mut s = CircularStack::new(4).expect("new should work");

    assert_eq!(s.top(), None);
    assert_eq!(s.pop(), None);

    s.pushes(vec![1, 2, 3, 4]);
    assert_eq!(as_vec_top(&s), vec![4, 3, 2, 1]);
    assert_eq!(s.top(), Some(&4));

    s.push(5);
    assert_eq!(as_vec_top(&s), vec![5, 4, 3, 2]);
    assert_eq!(s.at(0), Some(&2));
    assert_eq!(s.at(3), Some(&5));

    assert_eq!(s.replace_top(8), Some(5));
    assert_eq!(as_vec_top(&s), vec![8, 4, 3, 2]);

    assert_eq!(s.pop(), Some(8));
    assert_eq!(as_vec_top(&s), vec![4, 3, 2]);
}

#[test]
fn push_pop_and_replace_top_should_handle_single_and_empty_states() {
    let mut s = CircularStack::new(3).expect("new should work");

    assert_eq!(s.replace_top(10), None);
    assert_eq!(as_vec_top(&s), vec![10]);

    assert_eq!(s.pop(), Some(10));
    assert!(s.is_empty());

    s.push(20);
    assert_eq!(s.top(), Some(&20));
    assert_eq!(as_vec_top(&s), vec![20]);
}

#[test]
fn pushes_should_support_empty_input_without_side_effects() {
    let mut s = CircularStack::new(4).expect("new should work");

    s.pushes(Vec::new());
    assert!(s.is_empty());

    s.pushes(vec![1, 2]);
    s.pushes(Vec::new());
    assert_eq!(as_vec_top(&s), vec![2, 1]);
}

#[test]
fn at_and_update_should_work() {
    let mut s = CircularStack::new(4).expect("new should work");

    s.pushes(vec![1, 2, 3, 4, 5]);
    assert_eq!(as_vec_top(&s), vec![5, 4, 3, 2]);
    assert_eq!(s.at(-1), None);
    assert_eq!(s.at(0), Some(&2));
    assert_eq!(s.at(1), Some(&3));
    assert_eq!(s.at(2), Some(&4));
    assert_eq!(s.at(3), Some(&5));
    assert_eq!(s.at(4), None);

    assert!(s.update(1, -3));
    assert_eq!(s.at(1), Some(&-3));
    assert_eq!(as_vec_top(&s), vec![5, 4, -3, 2]);

    assert!(!s.update(-1, 9));
    assert!(!s.update(4, 9));
    assert_eq!(as_vec_top(&s), vec![5, 4, -3, 2]);
}

#[test]
fn resize_should_keep_latest_on_shrink_and_support_growth() {
    let mut s = CircularStack::new(4).expect("new should work");

    s.pushes(vec![1, 2, 3, 4]);
    s.resize(3).expect("resize should work");
    assert_eq!(s.capacity(), 3);
    assert_eq!(as_vec_top(&s), vec![4, 3, 2]);

    s.push(5);
    assert_eq!(as_vec_top(&s), vec![5, 4, 3]);

    s.resize(5).expect("resize should work");
    s.push(6);
    assert_eq!(s.capacity(), 5);
    assert_eq!(as_vec_top(&s), vec![6, 5, 4, 3]);

    s.resize(2).expect("resize should work");
    assert_eq!(s.capacity(), 2);
    assert_eq!(as_vec_top(&s), vec![6, 5]);
}

#[test]
fn resize_grow_should_preserve_order_for_shifted_non_wrapped_state() {
    let mut s = CircularStack::new(5).expect("new should work");
    s.pushes(vec![1, 2, 3, 4, 5, 6, 7]);

    assert_eq!(s.pop(), Some(7));
    assert_eq!(s.pop(), Some(6));
    assert_eq!(as_vec_top(&s), vec![5, 4, 3]);

    s.resize(8).expect("resize should work");
    assert_eq!(s.capacity(), 8);
    assert_eq!(as_vec_top(&s), vec![5, 4, 3]);
    assert_eq!(s.at(0), Some(&3));
    assert_eq!(s.at(2), Some(&5));

    s.push(8);
    assert_eq!(as_vec_top(&s), vec![8, 5, 4, 3]);

    s.resize(8).expect("resize should work");
    assert_eq!(as_vec_top(&s), vec![8, 5, 4, 3]);
}

#[test]
fn circular_stack_resize_should_reject_zero_capacity() {
    let mut s = CircularStack::<i32>::new(5).expect("new should work");

    assert_eq!(
        s.resize(0),
        Err(StackError::InvalidCapacity { capacity: 0 })
    );
}

#[test]
fn rearrange_should_preserve_order_for_dense_wrapped_state() {
    let mut s = CircularStack::new(8).expect("new should work");
    s.pushes((1..=10).collect());

    let before = as_vec_top(&s);
    s.rearrange();
    assert_eq!(as_vec_top(&s), before);

    s.push(11);
    assert_eq!(as_vec_top(&s), vec![11, 10, 9, 8, 7, 6, 5, 4]);
}

#[test]
fn rearrange_should_handle_empty_and_sparse_shifted_non_wrapped_state() {
    let mut s = CircularStack::new(10).expect("new should work");

    s.rearrange();
    assert!(s.is_empty());

    s.pushes((1..=12).collect());
    for _ in 0..3 {
        assert!(s.pop().is_some());
    }

    let before = as_vec_top(&s);
    s.rearrange();
    assert_eq!(as_vec_top(&s), before);

    s.push(13);
    assert_eq!(as_vec_top(&s), vec![13, 9, 8, 7, 6, 5, 4, 3]);
}

#[test]
fn rearrange_should_preserve_order_for_sparse_wrapped_state() {
    let mut s = CircularStack::new(16).expect("new should work");
    s.pushes((1..=30).collect());
    for _ in 0..12 {
        assert!(s.pop().is_some());
    }

    let before = as_vec_top(&s);
    s.rearrange();
    assert_eq!(as_vec_top(&s), before);

    s.pushes(vec![31, 32]);
    assert_eq!(as_vec_top(&s), vec![32, 31, 18, 17, 16, 15]);
}

#[test]
fn retain_should_filter_and_preserve_order() {
    let mut s = CircularStack::new(6).expect("new should work");
    s.pushes(vec![1, 2, 3, 4, 5, 6, 7, 8]);

    let removed = s.retain(|x| *x % 2 == 0);
    assert_eq!(removed, 3);
    assert_eq!(as_vec_top(&s), vec![8, 6, 4]);

    let removed_none = s.retain(|_| true);
    assert_eq!(removed_none, 0);
    assert_eq!(as_vec_top(&s), vec![8, 6, 4]);

    let removed_all = s.retain(|_| false);
    assert_eq!(removed_all, 3);
    assert!(s.is_empty());
}

#[test]
fn retain_should_return_zero_on_empty_stack() {
    let mut s = CircularStack::<i32>::new(4).expect("new should work");

    let removed = s.retain(|_| true);
    assert_eq!(removed, 0);
    assert!(s.is_empty());
}

#[test]
fn circular_stack_iter_and_into_iter_should_report_exact_size_hint() {
    let mut s = CircularStack::new(4).expect("new should work");
    s.pushes(vec![1, 2, 3]);

    let items = s.collect();
    assert_eq!(items.len(), 3);
    assert_eq!(items, vec![3, 2, 1]);
    assert_eq!(s.size(), 3);
}

#[test]
fn circular_stack_collection_and_dispose_contract_should_work() {
    let mut s = CircularStack::new(6).expect("new should work");
    s.pushes(vec![1, 2, 3, 4, 5, 6]);

    assert_eq!(Collection::size(&s), 6);
    assert_eq!(s.count(|x| *x % 2 == 0), 3);
    assert_eq!(Collection::collect(&s), vec![6, 5, 4, 3, 2, 1]);

    let removed = s.retain(|x| *x % 2 == 1);
    assert_eq!(removed, 3);
    assert_eq!(Collection::collect(&s), vec![5, 3, 1]);

    Collection::clear(&mut s);
    assert!(Collection::is_empty(&s));

    assert!(!Disposable::is_disposed(&s));
    s.pushes(vec![7, 8]);
    Disposable::dispose(&mut s);
    assert!(s.is_disposed());
    assert!(s.is_empty());
}

#[test]
fn circular_stack_like_ops_should_work() {
    let mut s = CircularStack::new(5).expect("new should work");

    s.pushes(vec![1, 2, 3, 4, 5, 6]);
    assert_eq!(s.capacity(), 5);
    assert_eq!(as_vec_top(&s), vec![6, 5, 4, 3, 2]);

    assert_eq!(s.at(0), Some(&2));
    assert_eq!(s.at(4), Some(&6));
    assert_eq!(s.at(5), None);

    assert!(s.update(2, 40));
    assert_eq!(as_vec_top(&s), vec![6, 5, 40, 3, 2]);

    s.rearrange();
    assert_eq!(as_vec_top(&s), vec![6, 5, 40, 3, 2]);

    s.resize(3).expect("resize should work");
    assert_eq!(as_vec_top(&s), vec![6, 5, 40]);
}

#[test]
fn fork_should_create_independent_snapshot() {
    let mut s = CircularStack::new(5).expect("new should work");
    s.pushes(vec![1, 2, 3, 4, 5, 6, 7]);

    let mut forked = s.fork();
    assert_eq!(as_vec_top(&s), as_vec_top(&forked));
    assert_eq!(s.capacity(), forked.capacity());

    s.push(8);
    assert_eq!(as_vec_top(&s), vec![8, 7, 6, 5, 4]);
    assert_eq!(as_vec_top(&forked), vec![7, 6, 5, 4, 3]);

    forked.push(9);
    assert_eq!(as_vec_top(&forked), vec![9, 7, 6, 5, 4]);
    assert_eq!(as_vec_top(&s), vec![8, 7, 6, 5, 4]);
}

#[test]
fn fork_should_preserve_wrapped_layout_observable_behavior() {
    let mut s = CircularStack::new(8).expect("new should work");
    s.pushes((1..=12).collect());
    for _ in 0..3 {
        assert!(s.pop().is_some());
    }
    s.pushes(vec![13, 14]);

    let forked = s.fork();
    assert_eq!(as_vec_top(&forked), as_vec_top(&s));
    assert_eq!(forked.capacity(), s.capacity());

    for i in 0..s.size() {
        assert_eq!(forked.at(i as isize), s.at(i as isize));
    }
}

fn bottom_up<T: Clone>(s: &CircularStack<T>) -> Vec<T> {
    let mut v = s.collect();
    v.reverse();
    v
}

#[test]
fn default_pushes_should_push_elements_in_order() {
    let mut s = CircularStack::new(8).expect("new should work");

    s.pushes(vec![1, 2, 3]);
    assert_eq!(bottom_up(&s), vec![1, 2, 3]);
    assert_eq!(s.top(), Some(&3));
}

#[test]
fn default_replace_top_should_work_for_empty_and_non_empty_stack() {
    let mut s = CircularStack::new(8).expect("new should work");

    assert_eq!(s.replace_top(10), None);
    assert_eq!(bottom_up(&s), vec![10]);
    assert_eq!(s.top(), Some(&10));

    assert_eq!(s.replace_top(20), Some(10));
    assert_eq!(bottom_up(&s), vec![20]);
    assert_eq!(s.top(), Some(&20));
}

#[test]
fn default_fork_should_clone_stack_snapshot() {
    let mut s = CircularStack::new(8).expect("new should work");
    s.pushes(vec![1, 2, 3]);

    let forked = s.fork();
    assert_eq!(bottom_up(&forked), vec![1, 2, 3]);
    assert_eq!(forked.top(), Some(&3));
}

#[test]
fn stack_display_should_format_invalid_capacity() {
    let err = StackError::InvalidCapacity { capacity: 0 };
    assert_eq!(
        err.to_string(),
        "[CircularStack] capacity is expected to be a positive integer, but got (0)."
    );
}
