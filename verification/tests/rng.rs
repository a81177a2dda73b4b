use leek_game::rng::OfficialRng;

fn get_double(rng: &mut OfficialRng) -> f64 {
    rng.draw() as f64 / 65536.0
}

#[test]
fn get_double_matches_java_seed_42() {
    let mut rng = OfficialRng::new(42);
    let expected = [
        f64::from_bits(0x3FE9_5120_0000_0000),
        f64::from_bits(0x3FD0_A280_0000_0000),
        f64::from_bits(0x3FE7_74A0_0000_0000),
        f64::from_bits(0x3FEC_6EA0_0000_0000),
        f64::from_bits(0x3FCB_1080_0000_0000),
        f64::from_bits(0x3FE0_88A0_0000_0000),
        f64::from_bits(0x3FE6_ADA0_0000_0000),
        f64::from_bits(0x3FD9_E140_0000_0000),
    ];
    for (i, want) in expected.into_iter().enumerate() {
        assert_eq!(get_double(&mut rng), want, "draw {i}");
    }
}

#[test]
fn get_double_matches_java_negative_seed() {
    let mut rng = OfficialRng::new(-7);
    let expected = [
        f64::from_bits(0x3FC9_CA80_0000_0000),
        f64::from_bits(0x3F76_A000_0000_0000),
        f64::from_bits(0x3FC1_CA00_0000_0000),
        f64::from_bits(0x3FD5_0E00_0000_0000),
    ];
    for (i, want) in expected.into_iter().enumerate() {
        assert_eq!(get_double(&mut rng), want, "draw {i}");
    }
}

#[test]
fn get_int_matches_java() {
    let mut rng = OfficialRng::new(42);
    let expected = [484, 159, 449, 544, 129, 316, 434, 247];
    for (i, want) in expected.into_iter().enumerate() {
        assert_eq!(rng.get_int(0, 612), want, "draw {i}");
    }
}

#[test]
fn get_int_matches_java_wide_seed() {
    let mut rng = OfficialRng::new(1_234_567_890_123);
    let expected = [5, 8, 8, 5];
    for (i, want) in expected.into_iter().enumerate() {
        assert_eq!(rng.get_int(1, 17), want, "draw {i}");
    }
}

#[test]
fn degenerate_ranges_return_zero() {
    let mut rng = OfficialRng::new(42);
    assert_eq!(rng.get_int(5, 4), 0);
    assert_eq!(rng.get_int(i32::MIN, i32::MAX), 0);
    assert_eq!(rng.get_long(9, 3), 0);
    assert_eq!(rng.get_int(0, 612), 484);
}

#[test]
fn long_draws_stay_in_their_range() {
    let mut rng = OfficialRng::new(7);
    for _ in 0..100 {
        let n = rng.get_long(-5, 5);
        assert!((-5..=5).contains(&n));
    }
}

#[test]
fn a_stream_starts_over_from_its_seed() {
    let mut rng = OfficialRng::new(42);
    let first: Vec<i32> = (0..4).map(|_| rng.get_int(0, 612)).collect();
    rng.seed(42);
    let again: Vec<i32> = (0..4).map(|_| rng.get_int(0, 612)).collect();
    assert_eq!(first, again);
}

#[test]
fn long_draws_over_wide_ranges_stay_in_them() {
    let (min, max) = (-(1i64 << 62), (1i64 << 62) - 2);
    let mut rng = OfficialRng::new(42);
    let first: Vec<i64> = (0..3).map(|_| rng.get_long(min, max)).collect();
    assert_eq!(
        first,
        vec![2685412015308013568, -2214363641782730752, 2148920709697503232]
    );
    for seed in [0, 1, -7, i64::MAX, i64::MIN] {
        let mut rng = OfficialRng::new(seed);
        for top in 0..63 {
            let max = i64::MAX >> top;
            let n = rng.get_long(1, max);
            assert!((1..=max).contains(&n));
        }
    }
}
