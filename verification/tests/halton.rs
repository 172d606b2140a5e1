use rusty_ray::tracer::halton::HaltonSeq;

#[test]
fn base_two_halves_the_gaps() {
    let mut seq = HaltonSeq::new(2);
    let expected: [(u128, u128); 9] =
        [(0, 1), (1, 2), (1, 4), (3, 4), (1, 8), (5, 8), (3, 8), (7, 8), (1, 16)];
    for e in expected {
        assert_eq!(seq.next(), e);
    }
}

#[test]
fn base_three_thirds_the_gaps() {
    let mut seq = HaltonSeq::new(3);
    let expected: [(u128, u128); 10] = [
        (0, 1),
        (1, 3),
        (2, 3),
        (1, 9),
        (4, 9),
        (7, 9),
        (2, 9),
        (5, 9),
        (8, 9),
        (1, 27),
    ];
    for e in expected {
        assert_eq!(seq.next(), e);
    }
}

#[test]
fn base_ten_reverses_the_digits() {
    let mut seq = HaltonSeq::new(10);
    seq.discard(1234);
    assert_eq!(seq.next(), (4321, 10000));
    assert_eq!(seq.next(), (5321, 10000));
    seq.discard(64);
    // element 1300: 0.0031
    assert_eq!(seq.next(), (31, 10000));
}

#[test]
fn discard_skips_elements() {
    let mut skipped = HaltonSeq::new(5);
    skipped.discard(0);
    skipped.discard(17);
    skipped.discard(3);
    let mut stepped = HaltonSeq::new(5);
    for _ in 0..20 {
        stepped.next();
    }
    for _ in 0..50 {
        assert_eq!(skipped.next(), stepped.next());
    }
}

#[test]
fn elements_lie_in_the_unit_interval() {
    for base in [2usize, 3, 7, 16, 1000] {
        let mut seq = HaltonSeq::new(base);
        assert_eq!(seq.next(), (0, 1));
        for _ in 0..2000 {
            let (num, den) = seq.next();
            assert!(0 < num && num < den);
        }
    }
}

#[test]
fn large_elements_fit() {
    let mut seq = HaltonSeq::new(2);
    seq.discard(usize::MAX - 1);
    // all digits are ones but the lowest
    let (num, den) = seq.next();
    assert_eq!(den, 1u128 << usize::BITS);
    assert_eq!(num, (1u128 << (usize::BITS - 1)) - 1);
    let mut seq = HaltonSeq::new(usize::MAX);
    seq.discard(usize::MAX - 1);
    let (num, den) = seq.next();
    assert_eq!(den, usize::MAX as u128);
    assert_eq!(num, usize::MAX as u128 - 1);
}
