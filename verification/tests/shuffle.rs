use rstl::{knuth_shuffle, knuth_shuffle_range, knuth_shuffle_range_with, knuth_shuffle_with, next_state, random_int, random_int_from};

#[derive(Clone)]
struct Lcg {
    state: u64,
}

impl Lcg {
    fn new(seed: u64) -> Self {
        Self { state: seed }
    }

    fn next_usize(&mut self, upper_exclusive: usize) -> usize {
        if upper_exclusive == 0 {
            return 0;
        }

        self.state = self
            .state
            .wrapping_mul(6364136223846793005)
            .wrapping_add(1442695040888963407);
        ((self.state >> 32) as usize) % upper_exclusive
    }
}

fn assert_same_multiset(a: &[usize], b: &[usize]) {
    let mut x = a.to_vec();
    let mut y = b.to_vec();
    x.sort_unstable();
    y.sort_unstable();
    assert_eq!(x, y);
}

#[test]
fn knuth_shuffle_with_and_range_with_should_match_on_full_range() {
    let mut a: Vec<usize> = (0..64).collect();
    let mut b = a.clone();

    let mut rng_a = Lcg::new(0x1234_5678_9ABC_DEF0);
    knuth_shuffle_with(&mut a, |n| rng_a.next_usize(n));

    let mut rng_b = Lcg::new(0x1234_5678_9ABC_DEF0);
    let b_len = b.len();
    knuth_shuffle_range_with(&mut b, 0, b_len, |n| rng_b.next_usize(n));

    assert_eq!(a, b);
}

#[test]
fn knuth_shuffle_range_with_should_only_modify_target_subrange() {
    let mut values: Vec<usize> = (0..20).collect();
    let origin = values.clone();

    knuth_shuffle_range_with(&mut values, 4, 16, |_| 0);

    assert_eq!(&values[..4], &origin[..4]);
    assert_eq!(&values[16..], &origin[16..]);
    assert_same_multiset(&values[4..16], &origin[4..16]);
    assert_ne!(&values[4..16], &origin[4..16]);
}

#[test]
fn knuth_shuffle_range_with_should_clamp_bounds() {
    let mut values: Vec<usize> = (0..10).collect();
    let origin = values.clone();

    knuth_shuffle_range_with(&mut values, 8, 99, |_| 0);
    assert_eq!(&values[..8], &origin[..8]);
    assert_same_multiset(&values[8..], &origin[8..]);

    let values_after = values.clone();
    knuth_shuffle_range_with(&mut values, 20, 50, |_| 0);
    assert_eq!(values, values_after);
}

#[test]
fn knuth_shuffle_range_with_should_pass_expected_bounds_to_rng() {
    let mut values: Vec<usize> = (0..8).collect();
    let mut bounds = Vec::new();

    knuth_shuffle_range_with(&mut values, 2, 7, |n| {
        bounds.push(n);
        0
    });

    assert_eq!(bounds, vec![5, 4, 3, 2]);
}

#[test]
fn knuth_shuffle_range_should_keep_noop_for_short_or_reversed_ranges() {
    let mut values: Vec<usize> = (0..10).collect();
    let origin = values.clone();

    knuth_shuffle_range(&mut values, 6, 6);
    assert_eq!(values, origin);

    knuth_shuffle_range(&mut values, 9, 2);
    assert_eq!(values, origin);

    knuth_shuffle_range(&mut values, 9, 10);
    assert_eq!(values, origin);
}

#[test]
fn knuth_shuffle_default_should_preserve_multiset() {
    let mut values: Vec<usize> = (0..128).collect();
    let origin = values.clone();

    knuth_shuffle(&mut values);

    assert_same_multiset(&values, &origin);
}

#[test]
fn random_int_zero_should_return_zero() {
    assert_eq!(random_int(0), 0);
}

#[test]
fn random_int_should_stay_in_range_and_vary() {
    let n = 100;
    let mut values = Vec::new();
    for _ in 0..200 {
        values.push(random_int(n));
    }

    assert!(values.iter().all(|&x| x < n));
    assert!(values.iter().any(|&x| x != values[0]));
}

#[test]
fn next_state_should_follow_xorshift() {
    let mut state: u64 = 1;
    assert_eq!(next_state(&mut state), 1082269761);
    assert_eq!(state, 1082269761);
    assert_eq!(next_state(&mut state), 1152992998833853505);
}

#[test]
fn random_int_from_should_draw_from_the_state() {
    let mut state: u64 = 1;
    assert_eq!(random_int_from(&mut state, 0), 0);
    assert_eq!(state, 1);
    assert_eq!(random_int_from(&mut state, 10), 1);
    assert_eq!(state, 1082269761);
}
