use with_limits::{Binary64, Duration, HumanDuration};

fn exact(x: f64) -> Binary64 {
    Binary64::from_bits(x.to_bits())
}

#[test]
fn seconds_agree_with_the_standard_library() {
    for secs in [
        0.0, -0.0, 1.0, 0.1, 0.25, 1.5, 2.7, 5e-10, 5.000000001e-10, 1.0000000005, 1e-9, 2.5e-9, 3.5e-9,
        123456.789012345, 1e9, 1e18, 18446744073709549568.0, 18446744073709551616.0, 1e300, -1.0,
        -1e-30, 5e-324, f64::INFINITY, f64::NEG_INFINITY, f64::NAN,
    ] {
        let ours = Duration::from_seconds(exact(secs)).map(|d| (d.as_secs(), d.subsec_nanos()));
        let theirs = std::time::Duration::try_from_secs_f64(secs)
            .ok()
            .map(|d| (d.as_secs(), d.subsec_nanos()));
        assert_eq!(ours, theirs, "{secs}");
    }
    for (secs, nanos) in [
        (0, 0), (0, 1), (1, 500_000_000), (123, 456_789_012), (u64::MAX, 999_999_999), (1 << 53, 1),
        (7, 999_999_999),
    ] {
        assert_eq!(
            Duration::new(secs, nanos).as_seconds().to_bits(),
            std::time::Duration::new(secs, nanos).as_secs_f64().to_bits()
        );
    }
}

#[test]
fn spans_add_up_and_run_out() {
    let longest = Duration::new(u64::MAX, 999_999_999);
    assert_eq!(
        Duration::from_millis(1_999).checked_add(Duration::from_millis(2)),
        Some(Duration::new(2, 1_000_000))
    );
    assert_eq!(longest.checked_add(Duration::new(0, 1)), None);
    assert_eq!(
        Duration::from_secs(2).saturating_sub(Duration::from_millis(500)),
        Duration::from_millis(1_500)
    );
    assert_eq!(
        Duration::from_secs(2).saturating_sub(Duration::from_secs(3)),
        Duration::zero()
    );
    assert!(Duration::from_millis(999).shorter_than(Duration::from_secs(1)));
    assert!(!Duration::from_secs(1).shorter_than(Duration::from_secs(1)));
    assert_eq!(Duration::from_secs(1).min(longest), Duration::from_secs(1));
    assert!(Duration::zero().is_zero());
}

#[test]
fn durations_are_read_exactly() {
    let span = |text: &str| text.parse::<HumanDuration>().map(|d| d.0);
    for (text, expected) in [
        ("1ms", Duration::from_millis(1)),
        ("8388607999MS", Duration::from_millis(8_388_607_999)),
        (" 30 ", Duration::from_secs(30)),
        ("30s", Duration::from_secs(30)),
        ("1 D", Duration::from_secs(86_400)),
        ("104249991374d", Duration::from_secs(104_249_991_374 * 86_400)),
        ("0.5h", Duration::from_secs(1_800)),
        (".25s", Duration::from_millis(250)),
    ] {
        assert_eq!(span(text), Ok(expected), "{text}");
    }
    for (text, error) in [
        ("", "invalid duration \"\""),
        ("soon", "invalid duration \"\""),
        ("1.2.3s", "invalid duration \"1.2.3\""),
        ("0ms", "duration must be positive"),
        ("5 Weeks", "unknown duration suffix \"weeks\""),
        ("5\t\"", "unknown duration suffix \"\\\"\""),
        ("18446744073709551616", "duration is too large"),
        ("99999999999999999999d", "duration is too large"),
    ] {
        assert_eq!(span(text), Err(error.to_string()), "{text}");
    }
}

#[test]
fn printed_durations_read_back() {
    let read_back = |secs: u64, nanos: u32| {
        let printed = std::time::Duration::new(secs, nanos).as_secs_f64();
        format!("{printed}s").parse::<HumanDuration>().unwrap().0
    };
    let millis = [1, 2, 9, 10, 250, 999, 1_000, 1_001, 90_000, 123_456_789, 999_999_999, 1_000_000_000];
    for k in millis.into_iter().chain((1..2_000).map(|i| i * 499_979)) {
        assert_eq!(
            read_back(k / 1_000, (k % 1_000) as u32 * 1_000_000),
            Duration::from_millis(k)
        );
    }
    for (secs, nanos) in [(0, 1), (0, 999_999_999), (7, 123_456_789), (8_388_607, 999_999_999)] {
        assert_eq!(read_back(secs, nanos), Duration::new(secs, nanos));
    }
}

#[test]
fn milliseconds_written_as_seconds_read_back() {
    for (text, millis) in [
        ("0.001s", 1),
        ("0.25s", 250),
        ("0.250s", 250),
        ("1.5000000s", 1_500),
        ("2s", 2_000),
        ("8388607.999s", 8_388_607_999),
    ] {
        assert_eq!(
            text.parse(),
            Ok(HumanDuration(Duration::from_millis(millis))),
            "{text}"
        );
    }
}
