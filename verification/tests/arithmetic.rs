use anarchy_time_control::bounds::TimeControlVerticalBounds;
use anarchy_time_control::double::Double;

fn double(value: f64) -> Double {
    Double::from_bits(value.to_bits())
}

fn float(value: Double) -> f64 {
    f64::from_bits(value.to_bits())
}

fn assert_same(actual: Double, expected: f64) {
    if expected.is_nan() {
        assert!(actual.is_nan());
    } else {
        assert_eq!(actual.to_bits(), expected.to_bits());
    }
}

/// Numbers of every kind: zeros, subnormal ones, powers of two and their
/// neighbours, fractions, whole numbers, infinities, and what is no number.
fn samples() -> Vec<f64> {
    let mut samples = vec![
        0.0,
        f64::from_bits(1),
        f64::from_bits(2),
        f64::from_bits(3),
        f64::from_bits(0x000f_ffff_ffff_ffff),
        f64::MIN_POSITIVE,
        f64::from_bits(0x0010_0000_0000_0001),
        1e-300,
        1e-16,
        1.1e-16,
        2.2e-16,
        0.000_001,
        0.1,
        0.3,
        0.499_999_999_999_999_94,
        0.5,
        0.75,
        0.999_999_999_999_999_9,
        1.0,
        1.000_000_000_000_000_2,
        1.5,
        2.0,
        2.5,
        3.0,
        3.5,
        std::f64::consts::PI,
        10.0,
        255.5,
        65535.0,
        65535.5,
        65536.0,
        1e6,
        4503599627370495.5,
        4503599627370496.0,
        9007199254740991.0,
        9007199254740992.0,
        9007199254740994.0,
        9223372036854775807.0,
        18446744073709551615.0,
        1e19,
        1e100,
        1e300,
        f64::MAX / 2.0,
        f64::MAX,
        f64::INFINITY,
        f64::NAN,
    ];
    let mut state = 0x9e37_79b9_7f4a_7c15_u64;
    for _ in 0..60 {
        state ^= state << 13;
        state ^= state >> 7;
        state ^= state << 17;
        samples.push(f64::from_bits(state >> 1));
    }
    let negative: Vec<f64> = samples.iter().map(|value| -value).collect();
    samples.extend(negative);
    samples
}

#[test]
fn sums_are_those_of_the_machine() {
    for a in samples() {
        for b in samples() {
            assert_same(double(a).plus(double(b)), a + b);
            assert_same(double(a).minus(double(b)), a - b);
        }
    }
}

#[test]
fn products_are_those_of_the_machine() {
    for a in samples() {
        for b in samples() {
            assert_same(double(a).times(double(b)), a * b);
        }
    }
}

#[test]
fn quotients_are_those_of_the_machine() {
    for a in samples() {
        for b in samples() {
            assert_same(double(a).over(double(b)), a / b);
        }
    }
}

#[test]
fn comparisons_are_those_of_the_machine() {
    for a in samples() {
        for b in samples() {
            assert_eq!(double(a).equals(double(b)), a == b);
            assert_eq!(double(a).is_less(double(b)), a < b);
            assert_eq!(double(a).is_at_most(double(b)), a <= b);
            assert_eq!(
                double(a).has_sign_of(double(b)),
                a.signum() == b.signum()
            );
            let larger = a.max(b);
            if larger.is_nan() {
                assert!(double(a).max(double(b)).is_nan());
            } else {
                assert_eq!(float(double(a).max(double(b))), larger);
            }
            let smaller = a.min(b);
            if smaller.is_nan() {
                assert!(double(a).min(double(b)).is_nan());
            } else {
                assert_eq!(float(double(a).min(double(b))), smaller);
            }
        }
        assert_same(double(a).clamp(double(-0.5), double(2.5)), a.clamp(-0.5, 2.5));
        assert_same(double(a).abs(), a.abs());
        assert_same(double(a).negate(), -a);
        assert_eq!(double(a).is_nan(), a.is_nan());
        assert_eq!(double(a).is_infinite(), a.is_infinite());
        assert_eq!(double(a).is_negative(), a.is_sign_negative());
    }
}

#[test]
fn whole_numbers_are_those_of_the_machine() {
    for a in samples() {
        assert_same(double(a).round(), a.round());
        assert_same(double(a).floor(), a.floor());
        assert_same(double(a).ceil(), a.ceil());
        assert_eq!(double(a).to_i64(), a as i64);
        assert_eq!(double(a).to_u16(), a as u16);
        assert_eq!(double(a).to_usize(), a as usize);
    }
    for k in [
        0,
        1,
        2,
        65535,
        1 << 53,
        (1 << 53) + 1,
        (1 << 53) + 2,
        (1 << 53) + 3,
        u64::MAX - 1024,
        u64::MAX - 1023,
        u64::MAX,
    ] {
        assert_same(Double::from_u64(k), k as f64);
    }
}

#[test]
fn results_are_the_nearest_numbers() {
    // A sum exactly half way between two numbers goes to the even one.
    let step = 2.0_f64.powi(-53);
    assert_eq!(float(double(1.0).plus(double(step))), 1.0);
    assert_eq!(
        float(double(1.000_000_000_000_000_2).plus(double(step))),
        1.000_000_000_000_000_4
    );
    assert_eq!(float(double(1.0).over(double(3.0))), 1.0 / 3.0);
    assert!(double(f64::MAX).plus(double(f64::MAX)).is_infinite());
    assert_eq!(
        double(f64::from_bits(1)).over(double(2.0)).to_bits(),
        0.0_f64.to_bits()
    );
}

fn bounds(min_y: f64, max_y: f64) -> TimeControlVerticalBounds {
    TimeControlVerticalBounds {
        min_y: double(min_y),
        max_y: double(max_y),
    }
}

#[test]
fn bounds_are_measured_and_moved() {
    assert_eq!(bounds(-1.0, 3.0).y_range(), double(4.0));
    assert_eq!(bounds(-1.0, 3.0).center(), double(1.0));
    assert_eq!(bounds(-1.0, 3.0).translate(double(0.5)), bounds(-0.5, 3.5));
    assert_eq!(bounds(-1.0, 3.0).union(bounds(0.0, 7.0)), bounds(-1.0, 7.0));
    assert_eq!(bounds(0.0, 7.0).union(bounds(-1.0, 3.0)), bounds(-1.0, 7.0));
    assert_eq!(
        TimeControlVerticalBounds::with_center_and_range(double(1.0), double(4.0)),
        bounds(-1.0, 3.0)
    );
    assert_eq!(
        TimeControlVerticalBounds::with_anchor_and_range(double(1.0), double(0.25), double(4.0)),
        bounds(0.0, 4.0)
    );
}

#[test]
fn bounds_are_held_inside_the_content() {
    let content = bounds(0.0, 8.0);
    // Inside already.
    assert_eq!(bounds(2.0, 4.0).clamp_to_content(content), bounds(2.0, 4.0));
    // Moved up and down.
    assert_eq!(bounds(-1.0, 1.0).clamp_to_content(content), bounds(0.0, 2.0));
    assert_eq!(bounds(7.0, 9.0).clamp_to_content(content), bounds(6.0, 8.0));
    // As high as the content or higher.
    assert_eq!(bounds(-3.0, 20.0).clamp_to_content(content), content);
    assert_eq!(bounds(1.0, 9.0).clamp_to_content(content), content);
    // At least an eighth of the content.
    assert_eq!(
        bounds(4.0, 4.0).clamp_to_content(content),
        bounds(3.5, 4.5)
    );
    // A content without height counts as a millionth.
    assert_eq!(
        bounds(0.0, 1.0).clamp_to_content(bounds(2.0, 2.0)),
        bounds(2.0, 2.0)
    );
    let lowest = 0.000_001 / 8.0;
    let center = 0.0;
    let mut expected = bounds(center - lowest / 2.0, center + lowest / 2.0);
    expected = expected.translate(double(2.0 - float(expected.min_y)));
    if 2.0 < float(expected.max_y) {
        expected = expected.translate(double(2.0 - float(expected.max_y)));
    }
    assert_eq!(
        bounds(0.0, 0.0).clamp_to_content(bounds(2.0, 2.0)),
        expected
    );
}

#[test]
fn bounds_stay_where_they_are_held() {
    let slack = 16.0 * 100.0 * f64::EPSILON;
    let content = bounds(-0.1, 1.3);
    for (low, high) in [
        (0.1, 0.9),
        (-3.7, -3.1),
        (0.7, 0.2),
        (55.5, 55.500_01),
        (1.1, 1.29),
        (0.3, 0.3),
    ] {
        let view = bounds(low, high);
        let once = view.clamp_to_content(content);
        let twice = once.clamp_to_content(content);
        assert!(float(once.min_y) >= -0.1 - slack);
        assert!(float(once.max_y) <= 1.3 + slack);
        let height = (high - low).clamp(1.4 / 8.0, 1.4);
        assert!((float(once.max_y) - float(once.min_y) - height).abs() <= slack);
        assert!((float(twice.min_y) - float(once.min_y)).abs() <= slack);
        assert!((float(twice.max_y) - float(once.max_y)).abs() <= slack);
    }
    let inside = bounds(0.1, 0.9).clamp_to_content(content);
    assert!((float(inside.min_y) - 0.1).abs() <= slack);
    assert!((float(inside.max_y) - 0.9).abs() <= slack);
    assert_eq!(bounds(-7.3, 9.1).clamp_to_content(content), content);
}

#[test]
fn bounds_of_any_size_are_held_where_no_sum_overflows() {
    let size = f64::MAX / 2.5;
    let slack = 256.0 * (size / 9_007_199_254_740_992.0);
    let content = bounds(-size, 0.75 * size);
    for (low, high) in [
        (-size, -0.5 * size),
        (0.6 * size, size),
        (size, -size),
        (0.9 * size, 0.9 * size),
    ] {
        let once = bounds(low, high).clamp_to_content(content);
        let twice = once.clamp_to_content(content);
        assert!(float(once.min_y) >= -size - slack);
        assert!(float(once.max_y) <= 0.75 * size + slack);
        let height = (high - low).clamp(1.75 * size / 8.0, 1.75 * size);
        assert!((float(once.max_y) - float(once.min_y) - height).abs() <= slack);
        assert!((float(twice.min_y) - float(once.min_y)).abs() <= slack);
        assert!((float(twice.max_y) - float(once.max_y)).abs() <= slack);
    }
    // A view whose height is infinite is as high as the content.
    let endless = bounds(-f64::MAX, f64::MAX);
    assert_eq!(endless.clamp_to_content(content), content);
    // Where a sum is infinite, so is the result.
    let far = bounds(f64::MAX, f64::MAX).clamp_to_content(bounds(0.0, 1.0));
    assert!(!float(far.min_y).is_finite());
}
