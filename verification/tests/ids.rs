//! Randomized ordering oracles and concrete scenarios for the
//! identifier library.

use fracindex::CompositeId;
use fracindex::Id;
use rand::rngs::StdRng;
use rand::Rng;
use rand::SeedableRng;

#[test]
fn test_composite_id_generation() {
    for seed in 0..50u64 {
        println!("Seed {:?}", seed);
        const MAX_VALUE: u16 = 2;
        let mut rng = StdRng::seed_from_u64(seed);
        let mut ids = vec![CompositeId::new(0), CompositeId::new(MAX_VALUE)];
        for _i in 0..200 {
            let index = rng.gen_range(1..ids.len());
            let middle = {
                let left = &ids[index - 1];
                let right = &ids[index];
                CompositeId::between_with_max(left, right, MAX_VALUE)
            };
            ids.insert(index, middle);

            let mut sorted_ids = ids.clone();
            sorted_ids.sort_by(|a, b| a.partial_cmp(b).unwrap());
            assert_eq!(ids, sorted_ids);
        }
    }
}

#[test]
fn test_primitive_id_generation() {
    for seed in 0..100u64 {
        println!("Seed {:?}", seed);
        const MAX_VALUE: u16 = 4;
        let mut rng = StdRng::seed_from_u64(seed);
        let mut ids = vec![Id::new(0), Id::new(MAX_VALUE)];
        for _i in 0..50 {
            let index = rng.gen_range(1..ids.len());
            let left = ids[index - 1];
            let right = ids[index];
            ids.insert(index, Id::between_with_max(left, right, MAX_VALUE).unwrap());

            let mut sorted_ids = ids.clone();
            sorted_ids.sort_by(|a, b| a.partial_cmp(b).unwrap());
            assert_eq!(ids, sorted_ids);
        }
    }
}

#[test]
fn base_three_scenario() {
    // With max = 2, the midpoint of 0 and 2 is the single digit 1.
    let low = CompositeId::new(0);
    let high = CompositeId::new(2);
    let mid = CompositeId::between_with_max(&low, &high, 2);
    assert_eq!(mid, CompositeId::new(1));
    assert!(low < mid);
    assert!(mid < high);

    // Between 0 and 1 no single-lane value exists; precision extends by
    // one lane, yielding 0 followed by a digit strictly between 0 and 2.
    let deeper = CompositeId::between_with_max(&low, &mid, 2);
    assert_eq!(deeper.level_count(), 1);
    assert_eq!(deeper.level_digits(0), vec![0, 1]);
    assert!(low < deeper);
    assert!(deeper < mid);
}

#[test]
fn digit_midpoint_exact() {
    let mid = Id::between_with_max(Id::new(0), Id::new(4), 4).unwrap();
    assert_eq!(mid, Id::new(2));
    assert_eq!(mid.significant(), vec![2]);
}

#[test]
fn digit_extension_exact() {
    // Adjacent values leave no room at the first lane; the midpoint
    // extends to a second lane.
    let mid = Id::between_with_max(Id::new(0), Id::new(1), 2).unwrap();
    assert_eq!(mid.significant(), vec![0, 1]);
    assert!(Id::new(0) < mid);
    assert!(mid < Id::new(1));
}

#[test]
fn digit_overflow_is_reported() {
    // With max = 1 every lane gap is at most 1: no midpoint exists at
    // any precision within one digit.
    assert!(Id::between_with_max(Id::new(0), Id::new(1), 1).is_err());
}

#[test]
fn masking_ignores_insignificant_lanes() {
    // Two digits that differ only beyond their significant length are
    // equal and order identically against any third digit.
    let mut a_lanes = [7u16; 16];
    let mut b_lanes = [7u16; 16];
    a_lanes[1] = 100;
    b_lanes[1] = 55555;
    let a = Id { entries: a_lanes, len: 1 };
    let b = Id { entries: b_lanes, len: 1 };
    assert_eq!(a, b);
    let probe = Id::new(7);
    assert_eq!(a.cmp(&probe), b.cmp(&probe));
    assert_eq!(probe.cmp(&a), probe.cmp(&b));
    let lower = Id::new(3);
    assert!(lower < a && lower < b);
}

#[test]
fn digit_order_is_masked_lexicographic() {
    let mut lanes = [9u16; 16];
    lanes[0] = 2;
    lanes[1] = 5;
    let two_five = Id { entries: lanes, len: 2 };
    assert!(Id::new(2) < two_five);
    assert!(two_five < Id::new(3));
    assert_eq!(two_five.significant(), vec![2, 5]);
    assert_eq!(two_five.entries()[2], 0);
}

#[test]
fn composite_prefix_orders_below_extension() {
    let low = CompositeId::new(0);
    let high = CompositeId::new(2);
    let a = CompositeId::between_with_max(&low, &high, 2);
    let b = CompositeId::between_with_max(&a, &high, 2);
    assert!(a < b);
    assert!(b < high);
    assert_ne!(a, b);
}

#[test]
fn repeated_left_insertion_stays_sorted() {
    // Drive precision growth by always splitting the lowest interval.
    const MAX_VALUE: u16 = 2;
    let mut ids = vec![CompositeId::new(0), CompositeId::new(MAX_VALUE)];
    for _i in 0..40 {
        let middle = CompositeId::between_with_max(&ids[0], &ids[1], MAX_VALUE);
        ids.insert(1, middle);
        let mut sorted_ids = ids.clone();
        sorted_ids.sort_by(|a, b| a.partial_cmp(b).unwrap());
        assert_eq!(ids, sorted_ids);
    }
}

#[test]
fn between_is_deterministic() {
    let low = CompositeId::new(0);
    let high = CompositeId::new(7);
    let first = CompositeId::between_with_max(&low, &high, 7);
    let second = CompositeId::between_with_max(&low, &high, 7);
    assert_eq!(first, second);
    assert_eq!(first.level_count(), second.level_count());
    assert_eq!(first.level_digits(0), second.level_digits(0));
}
