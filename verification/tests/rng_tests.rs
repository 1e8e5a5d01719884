use rogue::rng::Rng;

#[test]
fn same_seed_same_sequence() {
    let a: Vec<usize> = (0..32).map(|_| Rng::new(7).below(100)).collect();
    let mut r = Rng::new(7);
    let b: Vec<usize> = (0..32).map(|_| r.below(100)).collect();
    assert_eq!(a[0], b[0]);

    let mut x = Rng::new(1234);
    let mut y = Rng::new(1234);
    for _ in 0..1000 {
        assert_eq!(x.below(1000), y.below(1000));
    }
}

#[test]
fn different_seeds_diverge() {
    let mut x = Rng::new(1);
    let mut y = Rng::new(2);
    let xs: Vec<usize> = (0..16).map(|_| x.below(1000)).collect();
    let ys: Vec<usize> = (0..16).map(|_| y.below(1000)).collect();
    assert_ne!(xs, ys);
}

#[test]
fn range_is_inclusive_and_in_bounds() {
    let mut r = Rng::new(99);
    for _ in 0..1000 {
        let v = r.range(3, 7);
        assert!((3..=7).contains(&v), "{v} out of range");
    }
    assert_eq!(r.range(5, 5), 5);
}

#[test]
fn chance_with_a_full_numerator_always_holds() {
    let mut r = Rng::new(3);
    for _ in 0..200 {
        assert!(r.chance(4, 4));
        assert!(!r.chance(0, 4));
    }
}

#[test]
fn shuffle_permutes_the_items() {
    let mut r = Rng::new(5);
    let mut items: Vec<u32> = (0..20).collect();
    r.shuffle(&mut items);
    let mut sorted = items.clone();
    sorted.sort();
    assert_eq!(sorted, (0..20).collect::<Vec<u32>>());
    assert_ne!(items, (0..20).collect::<Vec<u32>>(), "seed 5 moves something");
}

#[test]
fn shuffle_is_deterministic_per_seed() {
    let mut a: Vec<u32> = (0..10).collect();
    let mut b: Vec<u32> = (0..10).collect();
    Rng::new(77).shuffle(&mut a);
    Rng::new(77).shuffle(&mut b);
    assert_eq!(a, b);
}
