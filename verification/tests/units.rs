use picobench::count;

fn float_reference(count: u64) -> String {
    if count < 10_000 {
        format!("{}", count)
    } else if count < 1_000_000 {
        format!("{:.1}k", count as f64 / 1e3)
    } else if count < 1_000_000_000 {
        format!("{:.1}m", count as f64 / 1e6)
    } else if count < 1_000_000_000_000 {
        format!("{:.1}b", count as f64 / 1e9)
    } else if count < 1_000_000_000_000_000 {
        format!("{:.1}t", count as f64 / 1e12)
    } else {
        "inf".to_string()
    }
}

#[test]
fn count_small_values_are_plain_decimals() {
    assert_eq!(count(0), "0");
    assert_eq!(count(7), "7");
    assert_eq!(count(10), "10");
    assert_eq!(count(9999), "9999");
}

#[test]
fn count_uses_suffixes() {
    assert_eq!(count(10_000), "10.0k");
    assert_eq!(count(123_456), "123.5k");
    assert_eq!(count(1_234_567), "1.2m");
    assert_eq!(count(7_000_000_000), "7.0b");
    assert_eq!(count(1_500_000_000_000), "1.5t");
    assert_eq!(count(1_000_000_000_000_000), "inf");
    assert_eq!(count(u64::MAX), "inf");
}

#[test]
fn count_rounds_like_binary_floating_point() {
    // 12.25 is exact in binary and rounds to the even digit.
    assert_eq!(count(12_250), "12.2k");
    assert_eq!(count(12_750), "12.8k");
    // 12.35 is just below in binary, so it rounds down.
    assert_eq!(count(12_350), float_reference(12_350));
    assert_eq!(count(999_950), float_reference(999_950));
    assert_eq!(count(999_999_999_999_999), "1000.0t");
}

#[test]
fn count_agrees_with_float_formatting_on_a_range() {
    for c in 9_000u64..400_000 {
        assert_eq!(count(c), float_reference(c), "count {}", c);
    }
}

#[test]
fn count_agrees_with_float_formatting_at_ties() {
    let scales: [u64; 4] = [1_000, 1_000_000, 1_000_000_000, 1_000_000_000_000];
    for &d in scales.iter() {
        for whole in [10u64, 11, 12, 99, 100, 123, 511, 512, 999] {
            for tenth in 0..10u64 {
                let base = whole * d + tenth * (d / 10) + d / 20;
                for delta in [0u64, 1, 2] {
                    for c in [base - delta, base + delta] {
                        if c >= 10_000 {
                            assert_eq!(count(c), float_reference(c), "count {}", c);
                        }
                    }
                }
            }
        }
    }
}

#[test]
fn count_agrees_with_float_formatting_on_spread_values() {
    let mut x: u64 = 0x9E37_79B9_7F4A_7C15;
    for _ in 0..200_000 {
        x ^= x << 13;
        x ^= x >> 7;
        x ^= x << 17;
        let c = x % 1_100_000_000_000_000;
        assert_eq!(count(c), float_reference(c), "count {}", c);
    }
}

#[test]
fn count_is_within_a_tenth_of_the_quotient() {
    for c in (10_000u64..2_000_000).step_by(37) {
        let text = count(c);
        let (value, unit) = text.split_at(text.len() - 1);
        let scale = match unit {
            "k" => 1e3,
            "m" => 1e6,
            _ => panic!("unexpected unit in {}", text),
        };
        let shown: f64 = value.parse().unwrap();
        assert!((shown - c as f64 / scale).abs() <= 0.1 + 1e-9, "{} for {}", text, c);
    }
}

#[test]
fn count_reads_back_below_ten_thousand() {
    for c in [0u64, 1, 9, 10, 42, 999, 1000, 9999] {
        assert_eq!(count(c).parse::<u64>(), Ok(c));
    }
    for c in [10_000u64, 10_049, 123_456, 999_999_999, u64::MAX] {
        assert!(count(c).parse::<u64>().is_err());
    }
}
