use creative_zone::random::Random;

#[test]
fn equal_seeds_produce_equal_sequences() {
    let mut first = Random::new(1234);
    let mut second = Random::new(1234);

    for _ in 0..20 {
        assert_eq!(first.range(7), second.range(7));
    }
}

#[test]
fn generated_values_stay_inside_the_requested_range() {
    let mut random = Random::new(9876);
    for _ in 0..100 {
        assert!(random.range(7) < 7);
    }
}

#[test]
fn first_draw_from_seed_zero_follows_the_generator_step() {
    let mut random = Random::new(0);
    assert_eq!(random.range(7), 4);
    let mut again = Random::new(0);
    assert_eq!(again.range(100), 14);
}

#[test]
fn draws_from_a_seed_follow_the_generator_sequence() {
    let mut random = Random::new(1234);
    let draws: Vec<usize> = (0..5).map(|_| random.range(7)).collect();
    assert_eq!(draws, vec![5, 1, 2, 3, 2]);
}

#[test]
fn a_zero_bound_draws_zero_and_keeps_the_state() {
    let mut random = Random::new(1234);
    assert_eq!(random.range(0), 0);
    assert_eq!(random.range(7), 5);
}

#[test]
fn shuffle_follows_the_generator_and_keeps_the_items() {
    let mut random = Random::new(42);
    let mut values = vec![0, 1, 2, 3, 4];
    random.shuffle(&mut values);
    assert_eq!(values, vec![2, 3, 0, 1, 4]);
    let mut sorted = values.clone();
    sorted.sort();
    assert_eq!(sorted, vec![0, 1, 2, 3, 4]);
}

#[test]
fn shuffling_nothing_or_one_item_changes_nothing() {
    let mut random = Random::new(3);
    let mut empty: Vec<u8> = Vec::new();
    random.shuffle(&mut empty);
    assert!(empty.is_empty());
    let mut one = vec![9];
    random.shuffle(&mut one);
    assert_eq!(one, vec![9]);
}
