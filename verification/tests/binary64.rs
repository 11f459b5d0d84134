use gyroflow_bench::binary64::Binary64;

fn b(x: f64) -> Binary64 {
    Binary64 { bits: x.to_bits() }
}

#[test]
fn order_is_that_of_the_values() {
    let values = [
        f64::NEG_INFINITY,
        -1e300,
        -2.5,
        -1.0,
        -f64::MIN_POSITIVE,
        -0.0,
        0.0,
        f64::from_bits(1),
        f64::MIN_POSITIVE,
        1.0,
        2.5,
        5.0,
        1e300,
        f64::INFINITY,
        f64::NAN,
        -f64::NAN,
    ];
    for x in values {
        for y in values {
            assert_eq!(b(x).less(b(y)), x < y, "{x} {y}");
        }
    }
}

#[test]
fn negation_flips_the_sign() {
    for x in [0.0f64, -0.0, 1.5, -7.25, f64::INFINITY] {
        assert_eq!(b(x).negate(), b(-x));
        assert_eq!(b(x).negate().negate(), b(x));
    }
}
