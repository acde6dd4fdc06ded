use plant_sim::rng::Rng;

#[test]
fn uniform_stays_below_its_bound() {
    let mut rng = Rng::from_seed(1);
    for max in [1usize, 2, 3, 10, 1000] {
        for _ in 0..200 {
            assert!(rng.uniform(max) < max);
        }
    }
}

#[test]
fn uniform_reaches_every_number_below_its_bound() {
    let mut rng = Rng::from_seed(2);
    let mut seen = [false; 5];
    for _ in 0..500 {
        seen[rng.uniform(5)] = true;
    }
    assert_eq!(seen, [true; 5]);
}

#[test]
fn the_same_seed_gives_the_same_numbers() {
    let mut one = Rng::from_seed(77);
    let mut other = Rng::from_seed(77);
    let mut third = Rng::from_seed(78);
    let first: Vec<usize> = (0..50).map(|_| one.uniform(1_000_000)).collect();
    let second: Vec<usize> = (0..50).map(|_| other.uniform(1_000_000)).collect();
    let different: Vec<usize> = (0..50).map(|_| third.uniform(1_000_000)).collect();
    assert_eq!(first, second);
    assert_ne!(first, different);
}

#[test]
fn shuffle_keeps_the_values() {
    let mut rng = Rng::from_seed(5);
    let mut values: Vec<u32> = (0..50).collect();
    rng.shuffle(&mut values);
    assert_ne!(values, (0..50).collect::<Vec<u32>>());
    let mut back = values.clone();
    back.sort();
    assert_eq!(back, (0..50).collect::<Vec<u32>>());
}

#[test]
fn shuffle_keeps_repeated_values() {
    let mut rng = Rng::from_seed(6);
    let mut values = vec![1, 1, 2, 2, 2, 3];
    rng.shuffle(&mut values);
    values.sort();
    assert_eq!(values, vec![1, 1, 2, 2, 2, 3]);
    let mut none: Vec<u8> = Vec::new();
    rng.shuffle(&mut none);
    assert!(none.is_empty());
}

#[test]
fn shuffle_follows_the_seed() {
    let shuffled = |seed: u64| {
        let mut rng = Rng::from_seed(seed);
        let mut values: Vec<u32> = (0..30).collect();
        rng.shuffle(&mut values);
        values
    };
    assert_eq!(shuffled(8), shuffled(8));
    assert_ne!(shuffled(8), shuffled(9));
}
