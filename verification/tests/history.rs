use rstl::{History, HistoryError};

fn as_vec_top<T: Clone, E: rstl::Equivalence<T>>(history: &History<T, E>) -> Vec<T> {
    history.iter().into_iter().cloned().collect()
}

fn assert_state(
    history: &History<i32>,
    expected: &[i32],
    expected_present_element: Option<i32>,
    expected_present_index: isize,
) {
    assert_eq!(as_vec_top(history), expected.to_vec());
    assert_eq!(history.present().0.copied(), expected_present_element);
    assert_eq!(history.present().1, expected_present_index);
    assert_eq!(history.top().copied(), expected.first().copied());
}

#[test]
fn history_constructor_should_validate_capacity() {
    assert!(History::<i32>::new("demo", 1).is_ok());
    assert!(matches!(
        History::<i32>::new("demo", 0),
        Err(HistoryError::InvalidCapacity { capacity: 0 })
    ));
}

#[test]
fn backward_forward_and_go_should_support_clamp_and_negative_step() {
    let mut history = History::new("demo", 4).expect("history should be created");

    assert_eq!(history.backward(), (None, true));
    assert_eq!(history.forward(), (None, true));

    history.push(1).push(2).push(3).push(4);
    assert_state(&history, &[4, 3, 2, 1], Some(4), 3);

    assert_eq!(history.backward(), (Some(&3), false));
    assert_eq!(history.backward_by(2), (Some(&1), true));
    assert_eq!(history.backward(), (Some(&1), true));
    assert_state(&history, &[4, 3, 2, 1], Some(1), 0);

    assert_eq!(history.forward(), (Some(&2), false));
    assert_eq!(history.forward_by(10), (Some(&4), true));
    assert_state(&history, &[4, 3, 2, 1], Some(4), 3);

    assert_eq!(history.forward_by(-2), (Some(&2), false));
    assert_eq!(history.backward_by(-1), (Some(&3), false));
    assert_state(&history, &[4, 3, 2, 1], Some(3), 2);

    assert_eq!(history.go(-10), Some(&1));
    assert_eq!(history.forward_by(-10), (Some(&1), false));
    assert_eq!(history.go(100), Some(&4));
    assert_eq!(history.backward_by(-1), (Some(&4), false));
}

#[test]
fn push_should_reuse_history_and_truncate_future() {
    let mut history = History::new("demo", 4).expect("history should be created");

    history.push(1).push(2).push(3);
    assert_state(&history, &[3, 2, 1], Some(3), 2);

    let _ = history.backward();
    let _ = history.backward();
    assert_state(&history, &[3, 2, 1], Some(1), 0);

    history.push(1);
    assert_state(&history, &[3, 2, 1], Some(1), 0);

    history.push(2);
    assert_state(&history, &[3, 2, 1], Some(2), 1);

    history.push(4);
    assert_state(&history, &[4, 2, 1], Some(4), 2);

    history.push(5).push(6);
    assert_state(&history, &[6, 5, 4, 2], Some(6), 3);
}

#[test]
fn clear_should_keep_top_when_exists() {
    let mut history = History::new("demo", 4).expect("history should be created");

    history.clear();
    assert_state(&history, &[], None, -1);

    history.push(1).push(2).push(3);
    history.clear();
    assert_state(&history, &[3], Some(3), 0);

    history.push(4);
    assert_state(&history, &[4, 3], Some(4), 1);
}

#[test]
fn fork_should_clone_snapshot_and_rename() {
    let mut history = History::new("main", 4).expect("history should be created");
    history.push(1).push(2).push(3);
    let _ = history.backward();

    let mut forked = history.fork("forked");
    assert_eq!(forked.name(), "forked");
    assert_state(&forked, &[3, 2, 1], Some(2), 1);

    forked.push(9);
    assert_state(&forked, &[9, 2, 1], Some(9), 2);
    assert_state(&history, &[3, 2, 1], Some(2), 1);
}

#[test]
fn rearrange_should_keep_present_stable_when_possible() {
    let mut history = History::new("demo", 6).expect("history should be created");
    history.push(1).push(2).push(3).push(4).push(5);

    let _ = history.backward_by(2);
    assert_state(&history, &[5, 4, 3, 2, 1], Some(3), 2);

    history.rearrange(|x, _| x % 2 == 1);
    assert_state(&history, &[5, 3, 1], Some(3), 1);

    history.rearrange(|x, _| *x > 3);
    assert_state(&history, &[5], Some(5), 0);

    history.rearrange(|_, _| false);
    assert_state(&history, &[], None, -1);
}

#[test]
fn rearrange_should_keep_present_when_filter_keeps_all() {
    let mut history = History::new("demo", 5).expect("history should be created");
    history.push(1).push(2).push(3).push(4);
    let _ = history.go(1);

    history.rearrange(|_, _| true);
    assert_state(&history, &[4, 3, 2, 1], Some(2), 1);
}

#[test]
fn update_top_should_only_change_top() {
    let mut history = History::new("demo", 4).expect("history should be created");

    history.update_top(100);
    assert_state(&history, &[], None, -1);

    history.push(1).push(2).push(3);
    history.update_top(9);
    assert_state(&history, &[9, 2, 1], Some(9), 2);
}

#[test]
fn iter_and_count_should_work() {
    let mut history = History::new("demo", 4).expect("history should be created");
    history.push(1).push(2).push(3);

    let from_ref_iter: Vec<i32> = history.iter().into_iter().copied().collect();
    assert_eq!(from_ref_iter, vec![3, 2, 1]);
    assert_eq!(history.count(|x| *x % 2 == 1), 2);
}

#[test]
fn with_equals_should_support_custom_compare() {
    let mut history = History::with_equals("demo", 8, |a: &String, b: &String| {
        a.to_lowercase() == b.to_lowercase()
    })
    .expect("history should be created");

    history.push("Hello".to_string());
    history.push("HELLO".to_string());
    history.push("World".to_string());

    let values: Vec<String> = history.iter().into_iter().cloned().collect();
    assert_eq!(values, vec!["World".to_string(), "Hello".to_string()]);
}

#[test]
fn history_display_should_format_invalid_capacity() {
    let err = HistoryError::InvalidCapacity { capacity: 0 };
    assert_eq!(
        err.to_string(),
        "[History] capacity is expected to be a positive integer, but got (0)."
    );
}
