use h2o_qwen2::number::{greater, not_a_number};

fn gt(a: f64, b: f64) -> bool {
    greater(a.to_bits(), b.to_bits())
}

#[test]
fn doubles_compare_by_their_bits() {
    let xs = [
        f64::NEG_INFINITY,
        -1e300,
        -2.5,
        -1.0,
        -1e-310,
        -0.0,
        0.0,
        1e-310,
        0.99,
        1.0,
        2.5,
        1e300,
        f64::INFINITY,
        f64::NAN,
        -f64::NAN,
    ];
    for a in xs {
        for b in xs {
            assert_eq!(gt(a, b), a > b, "{a} {b}");
        }
    }
}

#[test]
fn only_what_is_no_number_is_told_apart() {
    assert!(not_a_number(f64::NAN.to_bits()));
    assert!(not_a_number((-f64::NAN).to_bits()));
    assert!(not_a_number(0x7FF0_0000_0000_0001));
    for x in [0.0, -0.0, 1.0, f64::INFINITY, f64::NEG_INFINITY, f64::MAX] {
        assert!(!not_a_number(x.to_bits()));
    }
}
