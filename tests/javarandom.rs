use slime_finder::javarandom::JavaRandom;

#[test]
fn test_java_random() {
    let mut random = JavaRandom::new(0);
    assert_eq!(random.next_int(100), 60);
    assert_eq!(random.next_int(100), 48);
    assert_eq!(random.next_int(100), 29);
    assert_eq!(random.next_int(100), 47);
}

#[test]
fn next_int_power_of_two_bound() {
    let mut random = JavaRandom::new(0);
    let mut seen_nonzero = false;
    for _ in 0..100 {
        let v = random.next_int(16);
        assert!((0..16).contains(&v));
        if v != 0 {
            seen_nonzero = true;
        }
    }
    assert!(seen_nonzero);
}

#[test]
fn next_int_bound_one_is_zero() {
    let mut random = JavaRandom::new(42);
    for _ in 0..50 {
        assert_eq!(random.next_int(1), 0);
    }
}

#[test]
fn next_int_stays_below_bound_for_many_seeds() {
    let mut source = JavaRandom::new(987654321);
    for n in 0..10_000i64 {
        let seed = (source.next_int(i32::MAX) as i64) * 7919 - n * 104729;
        let bound = if n % 2 == 0 {
            1i32 << (source.next_int(31) as u32)
        } else {
            1 + source.next_int(i32::MAX - 1)
        };
        let mut random = JavaRandom::new(seed);
        let v = random.next_int(bound);
        assert!(v >= 0 && v < bound, "seed {} bound {} gave {}", seed, bound, v);
    }
}

#[test]
fn next_int_large_bound_in_range() {
    let mut random = JavaRandom::new(-1);
    for _ in 0..1000 {
        let v = random.next_int(i32::MAX);
        assert!(v >= 0 && v < i32::MAX);
        let w = random.next_int(0x4000_0001);
        assert!(w >= 0 && w < 0x4000_0001);
    }
}

#[test]
fn next_gives_signed_top_bits() {
    let mut random = JavaRandom::new(0);
    assert_eq!(random.next(32), -1155484576);
    assert_eq!(random.next(31), 1785505948);
}
