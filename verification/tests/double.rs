use netalert::double::Double;

fn number(x: f64) -> Double {
    Double::from_bits(x.to_bits())
}

fn samples() -> Vec<f64> {
    let mut all = vec![
        0.0,
        -0.0,
        1.0,
        -1.0,
        0.1,
        0.8,
        1.1,
        8.0,
        1e-320,
        5e-324,
        -5e-324,
        f64::MIN_POSITIVE,
        f64::MAX,
        f64::MIN,
        f64::INFINITY,
        f64::NEG_INFINITY,
        f64::NAN,
        300_000_000.0,
    ];
    let mut seed: u64 = 88172645463325252;
    for _ in 0..300 {
        seed ^= seed << 13;
        seed ^= seed >> 7;
        seed ^= seed << 17;
        all.push(f64::from_bits(seed));
        all.push((seed % 1_000_000) as f64 / 1000.0);
    }
    all
}

fn integers() -> Vec<u128> {
    let mut all: Vec<u128> = vec![
        0,
        1,
        2,
        3,
        7,
        10,
        (1 << 53) - 1,
        1 << 53,
        (1 << 53) + 1,
        (1 << 53) + 2,
        (1 << 53) + 3,
        u64::MAX as u128,
        u128::MAX,
        u128::MAX - 1,
        1 << 127,
    ];
    let mut seed: u64 = 1234567891011;
    for _ in 0..200 {
        seed ^= seed << 13;
        seed ^= seed >> 7;
        seed ^= seed << 17;
        all.push(seed as u128);
        all.push((seed >> (seed % 60)) as u128);
        all.push((seed as u128) << (seed % 64));
    }
    all
}

#[test]
fn comparisons_agree_with_the_processor() {
    for &a in &samples() {
        for &b in &samples() {
            assert_eq!(number(a).below(number(b)), a < b, "{a} < {b}");
            assert_eq!(number(a).at_least(number(b)), a >= b, "{a} >= {b}");
        }
    }
}

#[test]
fn products_agree_with_the_processor() {
    for &a in &samples() {
        for &b in &samples() {
            let expected = a * b;
            let found = f64::from_bits(number(a).times(number(b)).to_bits());
            if expected.is_nan() {
                assert!(found.is_nan(), "{a} * {b}");
            } else {
                assert_eq!(found.to_bits(), expected.to_bits(), "{a} * {b}");
            }
        }
    }
}

#[test]
fn integers_agree_with_the_processor() {
    for &n in &integers() {
        assert_eq!(Double::from_integer(n).to_bits(), (n as f64).to_bits(), "{n}");
    }
}

#[test]
fn ratios_agree_with_the_processor() {
    for &a in &integers() {
        for &b in &integers() {
            if b > 0 {
                let expected = a as f64 / b as f64;
                assert_eq!(Double::ratio(a, b).to_bits(), expected.to_bits(), "{a} / {b}");
            }
        }
    }
}

#[test]
fn bit_rates_agree_with_the_processor() {
    for &total in &integers() {
        for window in [1u128, 3, 7, 10, 60, 3600] {
            let expected = (total as f64 * 8.0) / window as f64;
            let found = Double::from_integer(total)
                .eightfold()
                .over(Double::from_integer(window));
            assert_eq!(found.to_bits(), expected.to_bits(), "{total} * 8 / {window}");
        }
    }
}

#[test]
fn larger_part_has_the_larger_share() {
    let third = Double::ratio(1, 3);
    let half = Double::ratio(1, 2);
    assert!(third.below(half));
    assert!(!half.below(third));
    assert_eq!(half, number(0.5));
}
