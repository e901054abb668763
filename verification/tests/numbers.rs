use schema_infer::number::Number;
use schema_infer::schema::number::NumberSchema;

fn double(x: f64) -> Number {
    Number::Float(x.to_bits())
}

fn strictly_before(a: Number, b: Number) -> bool {
    a.precedes(&b) && !b.precedes(&a)
}

#[test]
fn integers_are_ordered_by_value() {
    assert!(strictly_before(Number::from_i64(-3), Number::from_i64(5)));
    assert!(strictly_before(Number::from_i64(i64::MIN), Number::from_i64(i64::MIN + 1)));
    assert!(strictly_before(Number::from_i64(i64::MAX), Number::PosInt(i64::MAX as u64 + 1)));
    assert!(strictly_before(Number::PosInt(u64::MAX - 1), Number::PosInt(u64::MAX)));
    assert!(strictly_before(Number::NegInt(-1), Number::PosInt(0)));
    assert!(Number::PosInt(7).precedes(&Number::PosInt(7)));
}

#[test]
fn from_i64_picks_the_variant_by_sign() {
    assert_eq!(Number::from_i64(0), Number::PosInt(0));
    assert_eq!(Number::from_i64(12), Number::PosInt(12));
    assert_eq!(Number::from_i64(-12), Number::NegInt(-12));
    assert_eq!(Number::from_i64(i64::MIN), Number::NegInt(i64::MIN));
}

#[test]
fn is_integer_tells_integers_from_doubles() {
    assert!(Number::PosInt(1).is_integer());
    assert!(Number::NegInt(-1).is_integer());
    assert!(!double(1.0).is_integer());
    assert!(!double(0.5).is_integer());
}

#[test]
fn doubles_are_ordered_by_value() {
    let ascending = [
        f64::NEG_INFINITY,
        -1.0e300,
        -2.5,
        -1.0,
        -f64::MIN_POSITIVE,
        -5.0e-324,
        5.0e-324,
        f64::MIN_POSITIVE,
        0.1,
        0.5,
        1.0,
        1.0000000000000002,
        2.5,
        1.0e300,
        f64::MAX,
        f64::INFINITY,
    ];
    for i in 0..ascending.len() {
        for j in 0..ascending.len() {
            let a = double(ascending[i]);
            let b = double(ascending[j]);
            assert_eq!(a.precedes(&b), i <= j, "{} and {}", ascending[i], ascending[j]);
        }
    }
}

#[test]
fn integers_and_doubles_are_ordered_by_exact_value() {
    assert!(strictly_before(double(2.5), Number::PosInt(3)));
    assert!(strictly_before(Number::PosInt(2), double(2.5)));
    assert!(strictly_before(Number::NegInt(-3), double(-2.5)));
    assert!(strictly_before(double(-2.5), Number::NegInt(-2)));
    assert!(strictly_before(double(0.999), Number::PosInt(1)));
    assert!(strictly_before(Number::PosInt(0), double(5.0e-324)));
    assert!(strictly_before(double(-5.0e-324), Number::PosInt(0)));
    assert!(strictly_before(Number::PosInt(u64::MAX), double(1.0e20)));
    assert!(strictly_before(double(-1.0e20), Number::NegInt(i64::MIN)));
    assert!(strictly_before(Number::PosInt(u64::MAX), double(f64::INFINITY)));
    // Beyond 2^53 a double stands for one integer only among its neighbours.
    let two_53 = 9_007_199_254_740_992u64;
    assert!(strictly_before(double(two_53 as f64), Number::PosInt(two_53 + 1)));
    assert!(strictly_before(Number::PosInt(two_53 - 1), double(two_53 as f64)));
    assert!(strictly_before(Number::PosInt(u64::MAX), double(18_446_744_073_709_551_616.0)));
    assert!(strictly_before(double(-9_223_372_036_854_775_808.0 * 2.0), Number::NegInt(i64::MIN)));
}

#[test]
fn equal_values_are_ordered_by_how_they_are_written() {
    // An integer comes before the double of the same value.
    assert!(strictly_before(Number::PosInt(5), double(5.0)));
    assert!(strictly_before(Number::NegInt(-5), double(-5.0)));
    assert!(strictly_before(Number::PosInt(0), double(0.0)));
    assert!(strictly_before(double(0.0), double(-0.0)));
    assert!(strictly_before(Number::PosInt(5), Number::NegInt(5)));
    assert!(strictly_before(Number::NegInt(i64::MIN), double(-9_223_372_036_854_775_808.0)));
    assert!(strictly_before(Number::PosInt(1 << 63), double(9_223_372_036_854_775_808.0)));
}

#[test]
fn the_order_is_total_and_antisymmetric_on_samples() {
    let samples = vec![
        Number::PosInt(0),
        Number::PosInt(1),
        Number::PosInt(u64::MAX),
        Number::NegInt(-1),
        Number::NegInt(1),
        Number::NegInt(i64::MIN),
        double(0.0),
        double(-0.0),
        double(1.0),
        double(-1.0),
        double(1.5),
        double(f64::NAN),
        double(f64::INFINITY),
        double(f64::NEG_INFINITY),
        double(1.8446744073709552e19),
    ];
    for a in &samples {
        assert!(a.precedes(a));
        for b in &samples {
            assert!(a.precedes(b) || b.precedes(a));
            if a.precedes(b) && b.precedes(a) {
                assert_eq!(a, b);
            }
            for c in &samples {
                if a.precedes(b) && b.precedes(c) {
                    assert!(a.precedes(c));
                }
            }
        }
    }
}

#[test]
fn number_bounds_widen() {
    let a = NumberSchema {
        minimum: Some(double(0.5)),
        maximum: Some(Number::PosInt(3)),
        exclusive_minimum: Some(Number::NegInt(-1)),
        exclusive_maximum: Some(double(3.5)),
        multiple_of: Some(double(0.5)),
        enumeration: Some(vec![double(0.5), Number::PosInt(1)]),
        ..NumberSchema::default()
    };
    let b = NumberSchema {
        minimum: Some(Number::PosInt(1)),
        maximum: Some(double(2.75)),
        exclusive_minimum: Some(double(-1.5)),
        exclusive_maximum: Some(Number::PosInt(3)),
        multiple_of: Some(double(0.5)),
        enumeration: Some(vec![Number::PosInt(1), double(1.0)]),
        ..NumberSchema::default()
    };
    let merged = a.merge(b);
    assert_eq!(merged.minimum, Some(double(0.5)));
    assert_eq!(merged.maximum, Some(Number::PosInt(3)));
    assert_eq!(merged.exclusive_minimum, Some(double(-1.5)));
    assert_eq!(merged.exclusive_maximum, Some(double(3.5)));
    assert_eq!(merged.multiple_of, Some(double(0.5)));
    assert_eq!(merged.enumeration, Some(vec![double(0.5), Number::PosInt(1), double(1.0)]));
}
