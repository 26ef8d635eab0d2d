//! The bit-level scalar operations against the hardware's own binary32
//! arithmetic.

use monitor_tool::scalar::feq;
use monitor_tool::scalar::is_finite;
use monitor_tool::scalar::is_nan;
use monitor_tool::scalar::is_normal;
use monitor_tool::scalar::is_zero;
use monitor_tool::scalar::le;
use monitor_tool::scalar::lt;

fn samples() -> Vec<f32> {
    vec![
        0.0,
        -0.0,
        1.0,
        -1.0,
        1.5,
        -3.25,
        640.0,
        480.0,
        f32::NAN,
        f32::INFINITY,
        f32::NEG_INFINITY,
        f32::MIN_POSITIVE,
        f32::MIN_POSITIVE / 2.0,
        f32::MAX,
        f32::MIN,
        1e-40,
        -1e-40,
    ]
}

#[test]
fn classification_matches_hardware() {
    for v in samples() {
        let b = v.to_bits();
        assert_eq!(is_nan(b), v.is_nan(), "is_nan of {v}");
        assert_eq!(is_finite(b), v.is_finite(), "is_finite of {v}");
        assert_eq!(is_normal(b), v.is_normal(), "is_normal of {v}");
        assert_eq!(is_zero(b), v == 0.0, "is_zero of {v}");
    }
}

#[test]
fn ordering_matches_hardware() {
    for a in samples() {
        for b in samples() {
            let (x, y) = (a.to_bits(), b.to_bits());
            assert_eq!(lt(x, y), a < b, "lt of {a} and {b}");
            assert_eq!(le(x, y), a <= b, "le of {a} and {b}");
            assert_eq!(feq(x, y), a == b, "feq of {a} and {b}");
        }
    }
}
