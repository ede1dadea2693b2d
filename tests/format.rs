use shortest_double::decimal::{shortest, Decimal};
use shortest_double::format::{format_many, format_one};

fn text(v: f64) -> String {
    format_one(v.to_bits())
}

/// A fixed pseudo-random stream of bit patterns.
fn patterns(count: usize) -> Vec<u64> {
    let mut state: u64 = 0x9e37_79b9_7f4a_7c15;
    let mut out = Vec::new();
    for _ in 0..count {
        state = state
            .wrapping_mul(6364136223846793005)
            .wrapping_add(1442695040888963407);
        let mut z = state;
        z = (z ^ (z >> 30)).wrapping_mul(0xbf58_476d_1ce4_e5b9);
        z = (z ^ (z >> 27)).wrapping_mul(0x94d0_49bb_1331_11eb);
        out.push(z ^ (z >> 31));
    }
    out
}

fn interesting() -> Vec<f64> {
    vec![
        1.0,
        -1.0,
        2.5,
        0.1,
        0.2,
        0.3,
        1.0 / 3.0,
        2.0 / 3.0,
        100.0,
        123456.789,
        1e15,
        1e16,
        1e17,
        1e21,
        1e22,
        1e23,
        9007199254740993.0,
        0.0001,
        0.00001,
        1.5e-7,
        5e-324,
        1e-323,
        2.2250738585072014e-308,
        2.225073858507201e-308,
        f64::MAX,
        f64::MIN_POSITIVE,
        f64::EPSILON,
        std::f64::consts::PI,
        std::f64::consts::E,
        299792458.0,
        4.35,
        0.5,
        1e300,
        1.7976931348623157e308,
    ]
}

#[test]
fn one_is_one_point_zero() {
    assert_eq!(text(1.0), "1.0");
}

#[test]
fn hundred_uses_fixed_notation() {
    let s = text(100.0);
    assert_eq!(s, "100.0");
    assert!(!s.contains('e'));
}

#[test]
fn large_power_of_ten_uses_scientific_notation() {
    let s = text(1e21);
    assert_eq!(s, "1e21");
    assert!(s.contains('e'));
}

#[test]
fn smallest_subnormal_round_trips() {
    let v = 4.9e-324;
    let s = text(v);
    assert_eq!(s, "5e-324");
    assert_eq!(s.parse::<f64>().unwrap().to_bits(), v.to_bits());
}

#[test]
fn special_values() {
    assert_eq!(text(f64::NAN), "NaN");
    assert_eq!(text(-f64::NAN), "NaN");
    assert_eq!(format_one(0x7ff0_0000_0000_0001), "NaN");
    assert_eq!(text(f64::INFINITY), "Infinity");
    assert_eq!(text(f64::NEG_INFINITY), "-Infinity");
}

#[test]
fn signed_zero() {
    assert_eq!(text(0.0), "0.0");
    assert_eq!(text(-0.0), "-0.0");
    assert!(text(-0.0).starts_with('-'));
    assert!(!text(0.0).starts_with('-'));
}

#[test]
fn fixed_thresholds() {
    assert_eq!(text(1e15), "1000000000000000.0");
    assert_eq!(text(1e16), "1e16");
    assert_eq!(text(123456.789), "123456.789");
    assert_eq!(text(0.0001), "0.0001");
    assert_eq!(text(0.00001), "0.00001");
    assert_eq!(text(0.000001), "1e-6");
    assert_eq!(text(1.5e-7), "1.5e-7");
    assert_eq!(text(2.5), "2.5");
    assert_eq!(text(-2.5), "-2.5");
}

#[test]
fn closest_and_shortest_digits() {
    assert_eq!(text(0.1), "0.1");
    assert_eq!(text(0.3), "0.3");
    assert_eq!(text(0.1 + 0.2), "0.30000000000000004");
    assert_eq!(text(1.0 / 3.0), "0.3333333333333333");
    assert_eq!(text(f64::MAX), "1.7976931348623157e308");
    assert_eq!(text(f64::MIN_POSITIVE), "2.2250738585072014e-308");
    assert_eq!(text(9007199254740993.0), "9007199254740992.0");
    assert_eq!(text(5e-324 * 2.0), "1e-323");
}

#[test]
fn shortest_decimal_of_one() {
    // 1.0 has a zero mantissa field and the biased exponent 1023.
    assert_eq!(shortest(0, 1023), Decimal { mantissa: 1, exponent: 0 });
    // 2.5 is 1.25 * 2^1.
    assert_eq!(shortest(1 << 50, 1024), Decimal { mantissa: 25, exponent: -1 });
    // The smallest subnormal.
    assert_eq!(shortest(1, 0), Decimal { mantissa: 5, exponent: -324 });
}

#[test]
fn round_trip_interesting_values() {
    for v in interesting() {
        for w in [v, -v] {
            let s = text(w);
            assert_eq!(s.parse::<f64>().unwrap().to_bits(), w.to_bits(), "{}", s);
        }
    }
}

#[test]
fn agrees_with_ryu_on_interesting_values() {
    let mut buffer = ryu::Buffer::new();
    for v in interesting() {
        assert_eq!(text(v), buffer.format_finite(v));
        assert_eq!(text(-v), buffer.format_finite(-v));
    }
}

#[test]
fn round_trip_and_shortest_on_random_bits() {
    let mut buffer = ryu::Buffer::new();
    for bits in patterns(3000) {
        let v = f64::from_bits(bits);
        if !v.is_finite() {
            continue;
        }
        let s = format_one(bits);
        assert_eq!(s.parse::<f64>().unwrap().to_bits(), bits, "{}", s);
        assert_eq!(s, buffer.format_finite(v), "bits {:#x}", bits);
    }
}

#[test]
fn format_of_parse_is_idempotent() {
    for bits in patterns(500) {
        let v = f64::from_bits(bits);
        if !v.is_finite() {
            continue;
        }
        let s = format_one(bits);
        let again = format_one(s.parse::<f64>().unwrap().to_bits());
        assert_eq!(again, s);
    }
}

#[test]
fn array_join_keeps_order() {
    let values = vec![1.0f64.to_bits(), 2.5f64.to_bits()];
    let joined = format_many(&values);
    assert_eq!(joined, format!("{} {} ", text(1.0), text(2.5)));
    assert_eq!(joined, "1.0 2.5 ");
}

#[test]
fn array_join_of_nothing_is_empty() {
    assert_eq!(format_many(&Vec::new()), "");
}

#[test]
fn array_join_with_specials() {
    let values = vec![
        f64::NAN.to_bits(),
        (-0.0f64).to_bits(),
        f64::NEG_INFINITY.to_bits(),
        1e21f64.to_bits(),
    ];
    assert_eq!(format_many(&values), "NaN -0.0 -Infinity 1e21 ");
}
