use rstl::{Collection, Disposable, Trie, TrieError, TrieNodeData, TrieOptions, alpha_numeric_idx, digit_idx, lowercase_idx, uppercase_idx};

#[derive(Debug, Clone, Copy, PartialEq, Eq)]
enum Stroke {
    Ctrl,
    Shift,
    Alt,
    KeyA,
    KeyB,
}

fn stroke_idx(stroke: &Stroke) -> usize {
    match stroke {
        Stroke::Ctrl => 0,
        Stroke::Shift => 1,
        Stroke::Alt => 2,
        Stroke::KeyA => 3,
        Stroke::KeyB => 4,
    }
}

fn chars(text: &str) -> Vec<char> {
    text.chars().collect()
}

#[test]
fn new_should_validate_sigma_size() {
    let trie = Trie::<char, i32, _, _>::new(TrieOptions {
        sigma_size: 0,
        idx: alpha_numeric_idx,
        merge_node_value: |_x, y| y,
    });

    assert_eq!(
        trie.err(),
        Some(TrieError::InvalidSigmaSize { sigma_size: 0 })
    );
}

#[test]
fn try_insert_try_get_try_remove_should_work() {
    let mut trie = Trie::new(TrieOptions {
        sigma_size: 62,
        idx: alpha_numeric_idx,
        merge_node_value: |x, y| x + y,
    })
    .unwrap();

    let cat = chars("cat");
    let ca = chars("ca");
    let c = chars("c");

    assert_eq!(trie.try_get(&cat).unwrap(), None);
    trie.try_insert(&c, 1).unwrap();
    trie.try_insert(&ca, 2).unwrap();
    trie.try_insert(&cat, 3).unwrap();
    trie.try_insert(&cat, 20).unwrap();

    assert_eq!(trie.size(), 3);
    assert_eq!(trie.try_get(&c).unwrap(), Some(&1));
    assert_eq!(trie.try_get(&ca).unwrap(), Some(&2));
    assert_eq!(trie.try_get(&cat).unwrap(), Some(&23));

    assert!(trie.try_remove(&cat).unwrap());
    assert_eq!(trie.try_get(&cat).unwrap(), None);
    assert!(!trie.try_remove(&cat).unwrap());
}

#[test]
fn range_ops_should_work() {
    let mut trie = Trie::new(TrieOptions {
        sigma_size: 62,
        idx: alpha_numeric_idx,
        merge_node_value: |x, y| x + y,
    })
    .unwrap();

    let cat = chars("cat");
    trie.try_insert_range(&cat, 0..1, 1).unwrap();
    trie.try_insert_range(&cat, 0..2, 2).unwrap();
    trie.try_insert_range(&cat, 0..3, 3).unwrap();
    trie.try_insert_range(&cat, 1..2, 4).unwrap();
    trie.try_insert_range(&cat, 1..3, 100).unwrap();
    trie.try_insert_range(&cat, 2..3, 103).unwrap();
    trie.try_insert_range(&cat, 3..3, 120).unwrap();

    assert_eq!(trie.size(), 7);
    assert_eq!(trie.try_get_range(&cat, 3..3).unwrap(), Some(&120));
    assert_eq!(trie.try_get_range(&cat, 0..3).unwrap(), Some(&3));
    assert_eq!(trie.try_get_range(&cat, 1..2).unwrap(), Some(&4));

    assert!(trie.try_remove_range(&cat, 0..3).unwrap());
    assert_eq!(trie.try_get_range(&cat, 0..3).unwrap(), None);

    assert!(trie.try_contains_prefix_range(&cat, 0..2).unwrap());
    assert!(trie.try_contains_prefix_range(&cat, 1..3).unwrap());
}

#[test]
fn try_matches_should_work() {
    let mut trie = Trie::new(TrieOptions {
        sigma_size: 26,
        idx: |c: &char| (*c as usize) - ('a' as usize),
        merge_node_value: |_x, y| y,
    })
    .unwrap();

    let ban = chars("ban");
    let banana = chars("banana");
    let apple = chars("apple");

    trie.try_insert(&ban, 2).unwrap();
    trie.try_insert(&banana, 1).unwrap();
    trie.try_insert(&apple, 3).unwrap();

    let matched = trie.try_matches(&banana).unwrap();
    assert_eq!(
        matched,
        vec![
            TrieNodeData { end: 3, val: &2 },
            TrieNodeData { end: 6, val: &1 }
        ]
    );

    let matched = trie.try_matches_range(&banana, 0..3).unwrap();
    assert_eq!(matched, vec![TrieNodeData { end: 3, val: &2 }]);

    let empty: Vec<char> = vec![];
    trie.try_insert(&empty, 99).unwrap();
    assert_eq!(
        trie.try_matches(&empty).unwrap(),
        vec![TrieNodeData { end: 0, val: &99 }]
    );
    assert_eq!(
        trie.try_matches_range(&apple, 3..3).unwrap(),
        vec![TrieNodeData { end: 3, val: &99 }]
    );
}

#[test]
fn try_matches_should_report_stored_empty_key_first() {
    let mut trie = Trie::new(TrieOptions {
        sigma_size: 26,
        idx: |c: &char| (*c as usize) - ('a' as usize),
        merge_node_value: |_x, y| y,
    })
    .unwrap();
    let empty: Vec<char> = vec![];
    trie.try_insert(&chars("ban"), 2).unwrap();
    trie.try_insert(&empty, 99).unwrap();
    assert_eq!(
        trie.try_matches(&chars("banana")).unwrap(),
        vec![TrieNodeData { end: 0, val: &99 }, TrieNodeData { end: 3, val: &2 }]
    );
    assert_eq!(
        trie.try_matches_range(&chars("xban"), 1..4).unwrap(),
        vec![TrieNodeData { end: 1, val: &99 }, TrieNodeData { end: 4, val: &2 }]
    );
}

#[test]
fn generic_keystroke_sequences_should_work() {
    let mut trie = Trie::new(TrieOptions {
        sigma_size: 5,
        idx: stroke_idx,
        merge_node_value: |_x, y| y,
    })
    .unwrap();

    let k1 = [Stroke::Ctrl, Stroke::KeyA];
    let k2 = [Stroke::Ctrl, Stroke::Shift, Stroke::KeyA];
    let k3 = [Stroke::Alt, Stroke::KeyB];
    let p1 = [Stroke::Ctrl];

    trie.try_insert(&k1, 10).unwrap();
    trie.try_insert(&k2, 20).unwrap();
    trie.try_insert(&k3, 30).unwrap();

    assert_eq!(trie.try_get(&k1).unwrap(), Some(&10));
    assert_eq!(trie.try_get(&k2).unwrap(), Some(&20));
    assert_eq!(trie.try_get(&k3).unwrap(), Some(&30));
    assert!(trie.try_contains_prefix(&p1).unwrap());
}

#[test]
fn invalid_range_should_return_error() {
    let trie = Trie::<char, i32, _, _>::new(TrieOptions {
        sigma_size: 62,
        idx: alpha_numeric_idx,
        merge_node_value: |_x, y| y,
    })
    .unwrap();

    let text = chars("cat");
    let err = trie.try_get_range(&text, 2..5).unwrap_err();
    assert_eq!(
        err,
        TrieError::InvalidRange {
            start: 2,
            end: 5,
            len: 3
        }
    );
}

#[test]
fn index_out_of_range_should_return_error() {
    let mut trie = Trie::new(TrieOptions {
        sigma_size: 2,
        idx: |_c: &u8| 9,
        merge_node_value: |_x, y| y,
    })
    .unwrap();

    let key = [1u8, 2u8];
    let err = match trie.try_insert(&key, 1) {
        Ok(_) => panic!("expected index out of range"),
        Err(err) => err,
    };
    assert_eq!(
        err,
        TrieError::IndexOutOfRange {
            index: 9,
            sigma_size: 2
        }
    );
}

#[test]
fn collection_and_iter_should_work() {
    let mut trie = Trie::new(TrieOptions {
        sigma_size: 62,
        idx: alpha_numeric_idx,
        merge_node_value: |_x, y| y,
    })
    .unwrap();

    let cat = chars("cat");
    let car = chars("car");
    let dog = chars("dog");
    let empty: Vec<char> = vec![];

    trie.try_insert(&cat, 1).unwrap();
    trie.try_insert(&car, 2).unwrap();
    trie.try_insert(&dog, 3).unwrap();
    trie.try_insert(&empty, 4).unwrap();

    let values = trie.iter().into_iter().copied().collect::<Vec<i32>>();
    assert_eq!(values.len(), 4);
    assert_eq!(Collection::size(&trie), 4);

    let removed = trie.retain(|v| *v % 2 == 0);
    assert_eq!(removed, 2);
    assert_eq!(Collection::size(&trie), 2);
    assert_eq!(trie.try_get(&cat).unwrap(), None);
    assert_eq!(trie.try_get(&car).unwrap(), Some(&2));
}

#[test]
fn dispose_should_be_idempotent_and_clear_data() {
    let mut trie = Trie::new(TrieOptions {
        sigma_size: 62,
        idx: alpha_numeric_idx,
        merge_node_value: |_x, y| y,
    })
    .unwrap();

    let apple = chars("apple");

    assert!(!Disposable::is_disposed(&trie));
    trie.try_insert(&apple, 2).unwrap();

    Disposable::dispose(&mut trie);
    assert!(Disposable::is_disposed(&trie));
    assert_eq!(trie.size(), 0);
    assert_eq!(trie.try_get(&apple).unwrap(), None);

    trie.try_insert(&apple, 9).unwrap();
    assert_eq!(trie.try_get(&apple).unwrap(), Some(&9));

    Disposable::dispose(&mut trie);
    assert!(Disposable::is_disposed(&trie));
    assert_eq!(trie.size(), 0);
}



#[test]
fn display_should_format_invalid_sigma_size() {
    let err = TrieError::InvalidSigmaSize { sigma_size: 0 };

    assert_eq!(
        err.to_string(),
        "[Trie] sigma_size is expected to be a positive integer, but got (0)."
    );
}

#[test]
fn display_should_format_invalid_range() {
    let err = TrieError::InvalidRange {
        start: 3,
        end: 8,
        len: 4,
    };

    assert_eq!(
        err.to_string(),
        "[Trie] invalid range [3, 8) for sequence length (4)."
    );
}

#[test]
fn display_should_format_index_out_of_range() {
    let err = TrieError::IndexOutOfRange {
        index: 9,
        sigma_size: 8,
    };

    assert_eq!(
        err.to_string(),
        "[Trie] mapped index (9) is out of range [0, 8)."
    );
}

#[test]
fn display_should_format_node_overflow() {
    let err = TrieError::NodeOverflow { max_nodes: 123 };

    assert_eq!(
        err.to_string(),
        "[Trie] node index overflow, maximum supported nodes is (123)."
    );
}

#[test]
fn display_should_format_capacity_overflow() {
    let err = TrieError::CapacityOverflow {
        requested_nodes: 456,
        sigma_size: 62,
    };

    assert_eq!(
        err.to_string(),
        "[Trie] capacity overflow for nodes (456) with sigma_size (62)."
    );
}





#[test]
fn digit_idx_should_map_digits() {
    let letters: Vec<char> = "0123456789".chars().collect();
    for (i, c) in letters.into_iter().enumerate() {
        assert_eq!(digit_idx(&c), i);
    }
}

#[test]
fn uppercase_idx_should_map_uppercase_letters() {
    let letters: Vec<char> = "ABCDEFGHIJKLMNOPQRSTUVWXYZ".chars().collect();
    for (i, c) in letters.into_iter().enumerate() {
        assert_eq!(uppercase_idx(&c), i);
    }
}

#[test]
fn lowercase_idx_should_map_lowercase_letters() {
    let letters: Vec<char> = "abcdefghijklmnopqrstuvwxyz".chars().collect();
    for (i, c) in letters.into_iter().enumerate() {
        assert_eq!(lowercase_idx(&c), i);
    }
}

#[test]
fn alpha_numeric_idx_should_map_all_supported_chars() {
    let digits: Vec<char> = "0123456789".chars().collect();
    for (i, c) in digits.into_iter().enumerate() {
        assert_eq!(alpha_numeric_idx(&c), i);
    }

    let upper_letters: Vec<char> = "ABCDEFGHIJKLMNOPQRSTUVWXYZ".chars().collect();
    for (i, c) in upper_letters.into_iter().enumerate() {
        assert_eq!(alpha_numeric_idx(&c), i + 10);
    }

    let lower_letters: Vec<char> = "abcdefghijklmnopqrstuvwxyz".chars().collect();
    for (i, c) in lower_letters.into_iter().enumerate() {
        assert_eq!(alpha_numeric_idx(&c), i + 36);
    }
}

#[test]
fn trie_iter_should_list_values_in_slot_order() {
    let mut trie = Trie::new(TrieOptions {
        sigma_size: 62,
        idx: alpha_numeric_idx,
        merge_node_value: |_x, y| y,
    })
    .unwrap();

    trie.try_insert(&chars("dog"), 3).unwrap();
    trie.try_insert(&chars("cat"), 1).unwrap();
    trie.try_insert(&chars("car"), 2).unwrap();
    trie.try_insert(&chars(""), 4).unwrap();
    trie.try_insert(&chars("ca"), 5).unwrap();

    let values = trie.iter().into_iter().copied().collect::<Vec<i32>>();
    assert_eq!(values, vec![4, 5, 2, 1, 3]);
    assert_eq!(Collection::collect(&trie), vec![4, 5, 2, 1, 3]);
}

#[test]
fn trie_insert_then_remove_should_restore_contents() {
    let mut trie = Trie::new(TrieOptions {
        sigma_size: 62,
        idx: alpha_numeric_idx,
        merge_node_value: |x, y| x + y,
    })
    .unwrap();

    trie.try_insert(&chars("ab"), 1).unwrap();
    let before = trie.iter().into_iter().copied().collect::<Vec<i32>>();
    assert_eq!(trie.size(), 1);

    trie.try_insert(&chars("abc"), 7).unwrap();
    assert_eq!(trie.size(), 2);
    assert_eq!(trie.try_get(&chars("abc")).unwrap(), Some(&7));
    assert!(trie.try_remove(&chars("abc")).unwrap());

    assert_eq!(trie.size(), 1);
    assert_eq!(trie.iter().into_iter().copied().collect::<Vec<i32>>(), before);
    assert!(!trie.try_contains_prefix(&chars("abc")).unwrap());
    assert!(trie.try_contains_prefix(&chars("a")).unwrap());
}

#[test]
fn trie_reserve_nodes_should_report_overflow() {
    let mut trie = Trie::<char, i32, _, _>::new(TrieOptions {
        sigma_size: 62,
        idx: alpha_numeric_idx,
        merge_node_value: |_x, y| y,
    })
    .unwrap();

    assert_eq!(trie.reserve_nodes(10), Ok(()));
    assert_eq!(
        trie.reserve_nodes(usize::MAX),
        Err(TrieError::NodeOverflow { max_nodes: 1usize << 32 })
    );
}
