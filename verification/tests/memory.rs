use with_limits::memory::{available_source, AvailableSource};
use with_limits::{
    host_reserve_crossed, parse_linux_mem_available, parse_memory_pressure_available,
    resolve_memory_budget, Binary64, MemoryBudget, MemorySpec, Platform,
};

const MACOS_MEMORY_PRESSURE: &str = "The system has 17179869184 (1048576 pages with a page size of 16384).\nSystem-wide memory free percentage: 34%\n";

#[test]
fn parses_linux_mem_available_fixture() {
    let fixture = "MemTotal:       16384000 kB\nMemFree:         1024000 kB\nMemAvailable:    8388608 kB\nBuffers:          128000 kB\n";
    assert_eq!(
        parse_linux_mem_available(fixture).unwrap(),
        8 * 1024 * 1024 * 1024
    );
}

#[test]
fn rejects_linux_meminfo_schema_drift_and_invalid_values() {
    for fixture in [
        "MemTotal: 1000 kB\n",
        "MemAvailable: 12 MB\n",
        "MemAvailable: many kB\n",
        "MemAvailable: 12 kB extra\n",
        "MemAvailable: 0 kB\n",
        "MemAvailable: 18446744073709551615 kB\n",
    ] {
        assert!(
            parse_linux_mem_available(fixture).is_err(),
            "unexpectedly accepted {fixture:?}"
        );
    }
}

#[test]
fn parses_macos_memory_pressure_fixture() {
    assert_eq!(
        parse_memory_pressure_available(MACOS_MEMORY_PRESSURE).unwrap(),
        5_841_155_522
    );
}

#[test]
fn rejects_macos_memory_pressure_schema_drift_and_invalid_values() {
    for fixture in [
        "System-wide memory free percentage: 34%\n",
        "The system has 17179869184 bytes.\n",
        "The system has many bytes.\nSystem-wide memory free percentage: 34%\n",
        "The system has 17179869184 bytes.\nSystem-wide memory free percentage: many%\n",
        "The system has 17179869184 bytes.\nSystem-wide memory free percentage: 101%\n",
        "The system has 17179869184 bytes.\nSystem-wide memory free percentage: 0%\n",
    ] {
        assert!(
            parse_memory_pressure_available(fixture).is_err(),
            "unexpectedly accepted {fixture:?}"
        );
    }
}

#[test]
fn percentage_memory_budget_preserves_a_shared_host_reserve() {
    let share = Binary64::from_bits(0.7_f64.to_bits());
    let budget = resolve_memory_budget(Some(MemorySpec::AvailableFraction(share)), 10_000).unwrap();
    assert_eq!(
        budget,
        MemoryBudget {
            process_limit: Some(7_000),
            host_reserve: Some(3_000),
        }
    );

    assert!(!host_reserve_crossed(3_000, 3_000));
    assert!(host_reserve_crossed(3_000, 2_999));
    assert!(
        host_reserve_crossed(budget.host_reserve.unwrap(), 2_999),
        "every agent launched from the same snapshot observes the same crossed reserve"
    );
}

#[test]
fn absolute_memory_budget_does_not_claim_a_host_reserve() {
    assert_eq!(
        resolve_memory_budget(Some(MemorySpec::Bytes(4_096)), 10_000).unwrap(),
        MemoryBudget {
            process_limit: Some(4_096),
            host_reserve: None,
        }
    );
    assert_eq!(
        resolve_memory_budget(None, 10_000).unwrap(),
        MemoryBudget {
            process_limit: None,
            host_reserve: None,
        }
    );
}

#[test]
fn says_what_is_wrong_with_meminfo() {
    for (fixture, error) in [
        ("MemTotal: 1000 kB\n", "/proc/meminfo does not contain MemAvailable"),
        ("MemAvailable: 12\n", "MemAvailable has an unexpected field layout"),
        ("MemAvailable: 12 kB extra\n", "MemAvailable has an unexpected field layout"),
        ("MemAvailable: 12 MB\n", "MemAvailable uses unexpected unit \"MB\""),
        (
            "MemAvailable: many kB\n",
            "MemAvailable is not an unsigned integer: invalid digit found in string",
        ),
        ("MemAvailable: 0 kB\n", "MemAvailable reports zero available memory"),
        (
            "MemAvailable: 18446744073709551615 kB\n",
            "MemAvailable overflows a byte count",
        ),
    ] {
        assert_eq!(parse_linux_mem_available(fixture), Err(error.to_string()));
    }
    assert_eq!(
        parse_linux_mem_available("MemTotal: 2 kB\r\nMemAvailable:\t12  kB\r\nMemAvailable: x\r\n"),
        Ok(12_288)
    );
}

#[test]
fn says_what_is_wrong_with_memory_pressure() {
    for (fixture, error) in [
        (
            "System-wide memory free percentage: 34%\n",
            "memory_pressure output does not report total memory",
        ),
        (
            "The system has many bytes.\nSystem-wide memory free percentage: 34%\n",
            "memory_pressure total memory is not an unsigned integer: invalid digit found in string",
        ),
        (
            "The system has 17179869184 bytes.\n",
            "memory_pressure output does not report a percentage",
        ),
        (
            "The system has 17179869184 bytes.\nSystem-wide memory free percentage: many%\n",
            "memory_pressure percentage is not numeric: invalid float literal",
        ),
        (
            "The system has 17179869184 bytes.\nSystem-wide memory free percentage: %\n",
            "memory_pressure percentage is not numeric: cannot parse float from empty string",
        ),
        (
            "The system has 17179869184 bytes.\nSystem-wide memory free percentage: 101%\n",
            "memory_pressure returned an invalid free-memory percentage",
        ),
        (
            "The system has 17179869184 bytes.\nSystem-wide memory free percentage: 0%\n",
            "memory_pressure reports zero available memory",
        ),
    ] {
        assert_eq!(
            parse_memory_pressure_available(fixture),
            Err(error.to_string())
        );
    }
}

#[test]
fn available_memory_is_looked_up_where_it_is_not_reported() {
    assert_eq!(
        available_source(Platform::Linux, 5),
        AvailableSource::Sampled(5)
    );
    assert_eq!(available_source(Platform::Linux, 0), AvailableSource::MemInfo);
    assert_eq!(
        available_source(Platform::MacOs, 0),
        AvailableSource::MemoryPressure
    );
    assert_eq!(
        available_source(Platform::Windows, 0),
        AvailableSource::Unreported
    );
}

#[test]
fn a_share_and_its_reserve_make_up_the_whole() {
    for available in [1_u64, 10_000, 17_179_869_184, (1 << 53) - 1] {
        for text in ["auto", "1%", "33.3%", "60%", "99.9%", "100%"] {
            let budget = resolve_memory_budget(Some(text.parse().unwrap()), available).unwrap();
            assert_eq!(
                budget.process_limit.unwrap() + budget.host_reserve.unwrap(),
                available
            );
        }
    }
    for available in [0, (1 << 53) + 1, u64::MAX - 1, u64::MAX] {
        let budget = resolve_memory_budget(Some("auto".parse().unwrap()), available).unwrap();
        assert_eq!(
            budget.process_limit.unwrap() + budget.host_reserve.unwrap(),
            available
        );
    }
}
