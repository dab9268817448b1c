use graphql_ish_schema_validator::numeric::{double_text_of, float_integral, i64_to_double};

fn shown(x: i64) -> String {
    double_text_of(i64_to_double(x))
}

#[test]
fn integer_doubles_print_like_f64() {
    let samples: Vec<i64> = vec![
        0,
        1,
        -1,
        42,
        -17,
        1_000_000,
        9_007_199_254_740_992,
        9_007_199_254_740_993,
        9_007_199_254_740_995,
        18_014_398_509_481_985,
        123_456_789_012_345_678,
        999_999_999_999_999_999,
        i64::MAX,
        i64::MIN,
        i64::MIN + 1,
        -9_007_199_254_740_993,
        4_611_686_018_427_387_904,
        1_152_921_504_606_846_976,
        72_057_594_037_927_936,
        10_000_000_000_000_000,
        99_999_999_999_999_999,
    ];
    for x in samples {
        assert_eq!(shown(x), format!("{}", x as f64), "x = {}", x);
    }
}

#[test]
fn integer_doubles_print_like_f64_sweep() {
    let mut x: i64 = 1;
    let mut step: i64 = 1;
    while x < i64::MAX / 3 {
        for d in [-2i64, -1, 0, 1, 2] {
            let y = x.saturating_add(d);
            assert_eq!(shown(y), format!("{}", y as f64), "y = {}", y);
            assert_eq!(shown(-y), format!("{}", (-y) as f64), "y = {}", -y);
        }
        x = x.saturating_mul(3).saturating_add(step);
        step = step.wrapping_mul(7).wrapping_add(1) % 1_000_003;
    }
}

#[test]
fn float_integral_matches_cast() {
    let samples: Vec<f64> = vec![
        0.0,
        -0.0,
        1.0,
        -1.0,
        2.5,
        1e18,
        -1e18,
        1e19,
        -1e19,
        9.3e18,
        f64::INFINITY,
        f64::NEG_INFINITY,
        f64::NAN,
        4503599627370496.5,
        123456.0,
    ];
    for f in samples {
        let expected = if f == f.floor() && f.is_finite() {
            Some(f as i64)
        } else {
            None
        };
        assert_eq!(float_integral(f.to_bits()), expected, "f = {}", f);
    }
}
