use with_limits::nice::lower_priority;
use with_limits::{parse_nice_adjustment, NiceSetting};

#[test]
fn parses_nice_adjustment_and_disable_values() {
    assert_eq!(parse_nice_adjustment(NiceSetting::Unset).unwrap(), Some(10));
    assert_eq!(
        parse_nice_adjustment(NiceSetting::Text(" 5 ")).unwrap(),
        Some(5)
    );
    for value in ["0", "off", "OFF", "false", "no"] {
        assert_eq!(
            parse_nice_adjustment(NiceSetting::Text(value)).unwrap(),
            None
        );
    }
}

#[test]
fn rejects_invalid_nice_adjustments() {
    for value in ["", "-1", "20", "low", "1.5"] {
        assert!(
            parse_nice_adjustment(NiceSetting::Text(value)).is_err(),
            "unexpectedly accepted {value:?}"
        );
    }
}

#[test]
fn says_what_is_wrong_with_a_nice_adjustment() {
    let error = |value| parse_nice_adjustment(value).unwrap_err();
    assert_eq!(
        error(NiceSetting::NotText),
        "WITH_LIMITS_NICE contains non-UTF-8 text"
    );
    for (value, fault) in [
        ("", "cannot parse integer from empty string"),
        ("low", "invalid digit found in string"),
        ("99999999999", "number too large to fit in target type"),
        ("-99999999999", "number too small to fit in target type"),
    ] {
        assert_eq!(
            error(NiceSetting::Text(value)),
            format!("WITH_LIMITS_NICE must be an integer from 1 through 19, or off: {fault}")
        );
    }
    for value in ["-1", "20", "00", "-2147483648", "2147483647"] {
        assert_eq!(
            error(NiceSetting::Text(value)),
            "WITH_LIMITS_NICE must be from 1 through 19, or off"
        );
    }
    assert_eq!(parse_nice_adjustment(NiceSetting::Text("\t+19\n")), Ok(Some(19)));
}

#[test]
fn niceness_is_raised_up_to_the_highest() {
    assert_eq!(lower_priority(0, 10), Some(10));
    assert_eq!(lower_priority(12, 10), Some(19));
    assert_eq!(lower_priority(18, 1), Some(19));
    assert_eq!(lower_priority(19, 10), None);
    assert_eq!(lower_priority(-20, 5), Some(-15));
    assert_eq!(lower_priority(i32::MAX, i32::MAX), None);
    assert_eq!(lower_priority(0, -3), None);
}

#[test]
fn nested_commands_add_up() {
    let nested = |current: i32, outer, inner| {
        let once = lower_priority(current, outer).unwrap_or(current);
        lower_priority(once, inner).unwrap_or(once)
    };
    assert_eq!(nested(0, 5, 3), 8);
    assert_eq!(nested(0, 10, 10), 19);
    assert_eq!(nested(-20, 10, 10), 0);
}
