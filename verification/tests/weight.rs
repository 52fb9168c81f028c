use wicker::weight::{below, nan, probability, total_key, usable_weight, zero, ONE};

fn samples() -> Vec<f64> {
    vec![
        0.0,
        -0.0,
        1.0,
        -1.0,
        0.3,
        10.0,
        -2.5,
        f64::MIN_POSITIVE,
        -f64::MIN_POSITIVE,
        5e-324,
        -5e-324,
        f64::MAX,
        f64::MIN,
        f64::INFINITY,
        f64::NEG_INFINITY,
        f64::NAN,
        -f64::NAN,
        f64::from_bits(0x7FF0_0000_0000_0001),
        f64::from_bits(0xFFFF_FFFF_FFFF_FFFF),
        0.9999999999999999,
        1.0000000000000002,
    ]
}

#[test]
fn total_key_orders_as_total_cmp() {
    for a in samples() {
        for b in samples() {
            let keys = total_key(a.to_bits()).cmp(&total_key(b.to_bits()));
            assert_eq!(keys, a.total_cmp(&b), "{a:?} against {b:?}");
        }
    }
}

#[test]
fn total_key_exact_values() {
    assert_eq!(total_key(0), 0);
    assert_eq!(total_key(0x8000_0000_0000_0000), -1);
    assert_eq!(total_key(1.0f64.to_bits()), 0x3FF0_0000_0000_0000);
    assert_eq!(total_key((-1.0f64).to_bits()), -0x3FF0_0000_0000_0001);
    assert_eq!(total_key(u64::MAX), i64::MIN);
    assert_eq!(total_key(0x7FFF_FFFF_FFFF_FFFF), i64::MAX);
}

#[test]
fn below_is_less_than() {
    for a in samples() {
        for b in samples() {
            assert_eq!(below(a.to_bits(), b.to_bits()), a < b, "{a:?} against {b:?}");
        }
    }
}

#[test]
fn nan_is_is_nan() {
    for a in samples() {
        assert_eq!(nan(a.to_bits()), a.is_nan(), "{a:?}");
    }
}

#[test]
fn usable_weight_is_finite_and_not_negative() {
    for a in samples() {
        assert_eq!(usable_weight(a.to_bits()), a.is_finite() && a >= 0.0, "{a:?}");
    }
}

#[test]
fn zero_is_either_zero() {
    for a in samples() {
        assert_eq!(zero(a.to_bits()), a == 0.0, "{a:?}");
    }
}

#[test]
fn probability_is_the_unit_interval() {
    for a in samples() {
        assert_eq!(probability(a.to_bits()), (0.0..=1.0).contains(&a), "{a:?}");
    }
}

#[test]
fn one_is_one() {
    assert_eq!(ONE, 1.0f64.to_bits());
}
