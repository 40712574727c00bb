use with_limits::{format_bytes, Binary64, CpuLimit, Duration, HumanDuration, MemorySpec};

fn exact(x: f64) -> Binary64 {
    Binary64::from_bits(x.to_bits())
}

fn native(x: Binary64) -> f64 {
    f64::from_bits(x.to_bits())
}

#[test]
fn parses_memory_sizes() {
    assert_eq!(
        "2GiB".parse(),
        Ok(MemorySpec::Bytes(2 * 1024 * 1024 * 1024))
    );
    assert_eq!("1.5 GB".parse(), Ok(MemorySpec::Bytes(1_500_000_000)));
    assert_eq!("50%".parse(), Ok(MemorySpec::AvailableFraction(exact(0.5))));
    assert_eq!("auto".parse(), Ok(MemorySpec::AvailableFraction(exact(0.7))));
}

#[test]
fn parses_gnu_style_durations() {
    assert_eq!(
        "250ms".parse(),
        Ok(HumanDuration(Duration::from_millis(250)))
    );
    assert_eq!("1.5m".parse(), Ok(HumanDuration(Duration::from_secs(90))));
    assert_eq!("2h".parse(), Ok(HumanDuration(Duration::from_secs(7200))));
}

#[test]
fn rejects_non_positive_values() {
    assert!("0".parse::<CpuLimit>().is_err());
    assert!("101%".parse::<MemorySpec>().is_err());
    assert!("-1s".parse::<HumanDuration>().is_err());
}

#[test]
fn numbers_agree_with_the_processor() {
    let texts = [
        "0", "-0", "1", "0.1", "0.2", "0.3", "1.001", "2.3", "123456789.987654321", "1e22", "1e23",
        "9007199254740993", "9007199254740992.5", "5e-324", "2.4703282292062327e-324",
        "2.4703282292062328e-324", "2.2250738585072014e-308", "1.7976931348623157e308",
        "1.7976931348623159e308", "1e309", "1e-400", "1e99999999999999999999999", "0e999999999999",
        "1e-99999999999999999999999", ".5", "5.", "+7.25", "-7.25E+2", "1e-7", "0.000001",
        "3.14159265358979323846264338327950288419716939937510582097494459230781640628620899",
        "inf", "-Infinity", "+iNf",
    ];
    for text in texts {
        let chars: Vec<char> = text.chars().collect();
        let x = with_limits::number::parse_number(&chars).unwrap();
        assert_eq!(x.to_bits(), text.parse::<f64>().unwrap().to_bits(), "{text}");
    }
    let nan: Vec<char> = "NaN".chars().collect();
    assert!(native(with_limits::number::parse_number(&nan).unwrap()).is_nan());
}

#[test]
fn arithmetic_agrees_with_the_processor() {
    let values = [
        0.0, -0.0, 1.0, -1.0, 0.1, 0.7, 100.0, 1e-320, 5e-324, 1e300, 1.7976931348623157e308,
        f64::INFINITY, f64::NEG_INFINITY, f64::NAN, 12345.678, 3.0, 1e16, -7.5, 0.3333333333333333,
    ];
    for a in values {
        for b in values {
            let (x, y) = (exact(a), exact(b));
            for (r, n) in [
                (x.times(y), a * b),
                (x.over(y), a / b),
                (x.plus(y), a + b),
                (x.minus(y), a - b),
            ] {
                if n.is_nan() {
                    assert!(native(r).is_nan(), "{a} {b}");
                } else {
                    assert_eq!(r.to_bits(), n.to_bits(), "{a} {b}");
                }
            }
            assert_eq!(x.less_than(y), a < b);
            assert_eq!(x.at_most(y), a <= b);
            assert_eq!(x == y, a == b);
        }
        assert_eq!(exact(a).to_u64(), a as u64);
        assert_eq!(exact(a).is_finite(), a.is_finite());
    }
}

#[test]
fn sizes_agree_with_the_processor() {
    for bytes in [
        0, 1, 1023, 1024, 1075, 1076, 1127, 1280, 1792, 1048575, 1048576, 1310720, 123456789,
        1073741823, 1073741824, 999999999999, 1099511627776, 1374389534720, 9007199254740993,
        u64::MAX - 1, u64::MAX,
    ] {
        let mut expected = format!("{bytes} B");
        for (unit, divisor) in [("KiB", 1_u64 << 10), ("MiB", 1 << 20), ("GiB", 1 << 30), ("TiB", 1 << 40)] {
            if bytes >= divisor {
                expected = format!("{:.1} {unit}", bytes as f64 / divisor as f64);
            }
        }
        assert_eq!(format_bytes(bytes), expected);
    }
}

#[test]
fn whole_sizes_are_exact() {
    for (text, bytes) in [
        ("1", 1),
        ("1024b", 1024),
        ("3k", 3_000),
        ("3 KB", 3_000),
        ("7m", 7_000_000),
        ("9007mb", 9_007_000_000),
        ("2g", 2_000_000_000),
        ("9007tb", 9_007_000_000_000_000),
        ("5T", 5_000_000_000_000),
        ("5ki", 5 << 10),
        ("24MiB", 24 << 20),
        ("6mi", 6 << 20),
        ("8gi", 8_u64 << 30),
        ("8191TiB", 8191 << 40),
        ("3ti", 3 << 40),
        ("\u{a0}9007199254740991\u{3000}", 9_007_199_254_740_991),
        ("0.9", 0),
        ("1.9999KiB", 2047),
    ] {
        assert_eq!(text.parse(), Ok(MemorySpec::Bytes(bytes)), "{text}");
    }
}

#[test]
fn memory_limits_read_alike_in_any_case() {
    for (a, b) in [
        ("AUTO", "auto"),
        (" 2GIB ", "2gib"),
        ("1E1%", "1e1%"),
        ("12.5Mb", "12.5mB"),
    ] {
        let (x, y) = (a.parse::<MemorySpec>(), b.parse::<MemorySpec>());
        assert!(x.is_ok());
        assert_eq!(x, y);
    }
}

#[test]
fn says_what_is_wrong_with_a_memory_limit() {
    for (text, error) in [
        ("", "invalid memory size \"\""),
        ("GiB", "invalid memory size \"\""),
        ("1..5GiB", "invalid memory size \"1..5\""),
        ("0GiB", "memory size must be positive"),
        ("0.0", "memory size must be positive"),
        ("5 Parsecs", "unknown memory-size suffix \"parsecs\""),
        ("5\u{e9}\n\u{7}x", "unknown memory-size suffix \"\u{e9}\\n\\u{7}x\""),
        ("99999999999999999999999999", "memory size is too large"),
        ("17000000tib", "memory size is too large"),
        ("%", "invalid memory percentage \"\""),
        ("lots%", "invalid memory percentage \"lots\""),
        ("0%", "memory percentage must be positive"),
        ("-5%", "memory percentage must be positive"),
        ("NaN%", "memory percentage must be positive"),
        ("inf%", "memory percentage must be positive"),
        ("101%", "memory percentage must not exceed 100%"),
        ("100.1%", "memory percentage must not exceed 100%"),
    ] {
        assert_eq!(text.parse::<MemorySpec>(), Err(error.to_string()), "{text}");
    }
    assert_eq!("100%".parse(), Ok(MemorySpec::AvailableFraction(exact(1.0))));
    for percent in 1..=100_u32 {
        assert_eq!(
            format!("{percent}%").parse(),
            Ok(MemorySpec::AvailableFraction(exact(
                f64::from(percent) / 100.0
            )))
        );
    }
}

#[test]
fn cpu_limits_are_at_least_a_hundredth() {
    assert_eq!("0.5".parse(), Ok(CpuLimit(exact(0.5))));
    assert_eq!("0.01".parse(), Ok(CpuLimit(exact(0.01))));
    assert_eq!("1E2".parse(), Ok(CpuLimit(exact(100.0))));
    assert_eq!("1E2".parse::<CpuLimit>(), "1e2".parse());
    for (text, error) in [
        ("0.0099999", "CPU limit must be at least 0.01"),
        ("0", "CPU limit must be positive"),
        ("-2", "CPU limit must be positive"),
        ("inf", "CPU limit must be positive"),
        ("nan", "CPU limit must be positive"),
        (" 1", "invalid CPU limit \" 1\""),
        ("two", "invalid CPU limit \"two\""),
    ] {
        assert_eq!(text.parse::<CpuLimit>(), Err(error.to_string()), "{text}");
    }
}

#[test]
fn shares_are_taken_of_what_is_available() {
    let share = |text: &str| text.parse::<MemorySpec>().unwrap();
    assert_eq!(share("auto").resolve(10_000), 7_000);
    assert_eq!(share("50%").resolve(1_001), 500);
    assert_eq!(share("100%").resolve(12_345), 12_345);
    assert_eq!(share("4KiB").resolve(1), 4_096);
    for available in [0_u64, 1, 999, 123_456_789_012, u64::MAX] {
        assert_eq!(
            share("auto").resolve(available),
            (available as f64 * 0.7) as u64
        );
    }
}
