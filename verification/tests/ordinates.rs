use geodatafusion_parquet::ordinate::{Ordinate, INFINITY_KEY, NAN_BITS};

fn of(value: f64) -> Ordinate {
    Ordinate::from_bits(value.to_bits())
}

#[test]
fn zeros_are_one_ordinate() {
    assert_eq!(of(0.0), Ordinate::Number(0));
    assert_eq!(of(-0.0), Ordinate::Number(0));
    assert_eq!(of(0.0).to_bits(), 0);
}

#[test]
fn infinities_are_the_outermost_ordinates() {
    assert_eq!(of(f64::INFINITY), Ordinate::Number(INFINITY_KEY));
    assert_eq!(of(f64::NEG_INFINITY), Ordinate::Number(-INFINITY_KEY));
    assert!(of(f64::MAX).less_than(&of(f64::INFINITY)));
    assert!(of(f64::NEG_INFINITY).less_than(&of(f64::MIN)));
}

#[test]
fn nan_compares_with_nothing() {
    assert_eq!(of(f64::NAN), Ordinate::Nan);
    assert_eq!(of(-f64::NAN), Ordinate::Nan);
    assert!(!Ordinate::Nan.less_than(&of(1.0)));
    assert!(!of(1.0).less_than(&Ordinate::Nan));
    assert_eq!(Ordinate::Nan.to_bits(), NAN_BITS);
    assert!(f64::from_bits(NAN_BITS).is_nan());
}

#[test]
fn ordinates_order_like_numbers() {
    let values = [
        f64::NEG_INFINITY, f64::MIN, -104.778104, -1.0, -1e-300, -5e-324, -0.0, 0.0, 5e-324, 1e-300,
        1.0, 39.597333, f64::MAX, f64::INFINITY, f64::NAN,
    ];
    for a in values {
        for b in values {
            assert_eq!(of(a).less_than(&of(b)), a < b, "{a} {b}");
        }
    }
}

#[test]
fn bits_read_back() {
    for value in [1.5, -1.5, 39.597333, -104.778104, f64::MAX, f64::NEG_INFINITY, 5e-324] {
        assert_eq!(of(value).to_bits(), value.to_bits());
    }
}

#[test]
fn nan_gives_way_to_a_number() {
    assert_eq!(Ordinate::Nan.raised(7), 7);
    assert_eq!(Ordinate::Nan.lowered(7), 7);
    assert_eq!(Ordinate::Number(9).raised(7), 9);
    assert_eq!(Ordinate::Number(9).lowered(7), 7);
    assert_eq!(Ordinate::Number(5).raised(7), 7);
    assert_eq!(Ordinate::Number(5).lowered(7), 5);
}

#[test]
fn ordinates_beyond_infinity_have_no_bits() {
    assert!(Ordinate::Nan.has_bits());
    assert!(Ordinate::Number(INFINITY_KEY).has_bits());
    assert!(Ordinate::Number(-INFINITY_KEY).has_bits());
    assert!(!Ordinate::Number(INFINITY_KEY + 1).has_bits());
    assert!(!Ordinate::Number(-INFINITY_KEY - 1).has_bits());
}
