use with_limits::throttle::{sleep_slice, slept, ThrottleError};
use with_limits::{Binary64, CpuThrottle, Duration};

fn exact(x: f64) -> Binary64 {
    Binary64::from_bits(x.to_bits())
}

#[test]
fn cpu_throttle_accumulates_and_consumes_multi_interval_debt() {
    let mut throttle = CpuThrottle::new();
    throttle
        .record(exact(400.0), exact(1.0), Duration::from_secs(1))
        .unwrap();

    assert_eq!(
        throttle.pending_pause(Duration::from_secs(1)),
        Duration::from_secs(1)
    );
    throttle.consume_pause(Duration::from_secs(1));
    assert_eq!(
        throttle.pending_pause(Duration::from_secs(1)),
        Duration::from_secs(1)
    );
    throttle.consume_pause(Duration::from_secs(1));
    throttle.consume_pause(Duration::from_secs(1));
    assert_eq!(throttle.pause_debt, Duration::zero());
}

#[test]
fn cpu_throttle_ignores_samples_within_the_allowance() {
    let mut throttle = CpuThrottle::new();
    throttle
        .record(exact(49.9), exact(0.5), Duration::from_secs(10))
        .unwrap();
    assert_eq!(throttle.pause_debt, Duration::zero());
}

#[test]
fn cpu_throttle_rejects_non_finite_samples() {
    let mut throttle = CpuThrottle::new();
    assert!(throttle
        .record(exact(f64::NAN), exact(1.0), Duration::from_secs(1))
        .is_err());
    assert!(throttle
        .record(exact(f64::INFINITY), exact(1.0), Duration::from_secs(1))
        .is_err());
}

#[test]
fn a_sample_owes_what_it_shows_above_the_allowance() {
    let mut throttle = CpuThrottle::new();
    throttle
        .record(exact(150.0), exact(0.5), Duration::from_millis(250))
        .unwrap();
    assert_eq!(throttle.pause_debt, Duration::from_millis(500));
    assert_eq!(throttle.pause(), Some(Duration::from_millis(500)));
    throttle
        .record(exact(200.0), exact(1.0), Duration::from_secs(2))
        .unwrap();
    assert_eq!(throttle.pause(), Some(Duration::from_secs(1)));
    throttle.consume_pause(Duration::from_secs(9));
    assert_eq!(throttle.pause(), None);
}

#[test]
fn samples_that_cannot_be_paused_for_are_refused() {
    let mut throttle = CpuThrottle::new();
    let e = throttle
        .record(exact(f64::NAN), exact(1.0), Duration::from_secs(1))
        .unwrap_err();
    assert_eq!(e, ThrottleError::Interval);
    assert_eq!(
        e.message(),
        "CPU throttle interval is too large: cannot convert float seconds to Duration: value is either too big or NaN"
    );
    let e = throttle
        .record(exact(100.0), exact(-1.0), Duration::from_secs(1))
        .unwrap_err();
    assert_eq!(e, ThrottleError::Negative);
    assert_eq!(
        e.message(),
        "CPU throttle interval is too large: cannot convert float seconds to Duration: value is negative"
    );
    throttle.pause_debt = Duration::new(u64::MAX, 0);
    let e = throttle
        .record(exact(200.0), exact(1.0), Duration::from_secs(5))
        .unwrap_err();
    assert_eq!(e, ThrottleError::Debt);
    assert_eq!(e.message(), "CPU throttle debt overflowed");
    assert_eq!(throttle.pause_debt, Duration::new(u64::MAX, 0));
}

#[test]
fn a_pause_is_slept_in_slices_until_the_deadline() {
    let pause = Duration::from_millis(60);
    assert_eq!(
        sleep_slice(pause, Duration::zero(), false),
        Some(Duration::from_millis(25))
    );
    assert_eq!(
        sleep_slice(pause, Duration::from_millis(50), false),
        Some(Duration::from_millis(10))
    );
    assert_eq!(sleep_slice(pause, Duration::from_millis(50), true), None);
    assert_eq!(sleep_slice(pause, pause, false), None);
    assert_eq!(slept(Duration::from_millis(61), pause), pause);
    assert_eq!(
        slept(Duration::from_millis(30), pause),
        Duration::from_millis(30)
    );
}

#[test]
fn pauses_hold_the_average_for_fractions_of_a_core() {
    for (observed, cores, millis) in [
        (73.1_f64, 0.5_f64, 251_u64),
        (100.0, 0.01, 333),
        (799.9, 2.7, 12_345),
        (50.1, 0.5, 999),
    ] {
        let sample = Duration::from_millis(millis);
        let mut throttle = CpuThrottle::new();
        throttle
            .record(exact(observed), exact(cores), sample)
            .unwrap();
        let pause = throttle.pause_debt.as_seconds();
        let pause = f64::from_bits(pause.to_bits());
        let sample = millis as f64 / 1_000.0;
        let average = observed * sample / (sample + pause);
        assert!((average - cores * 100.0).abs() < 1e-5, "{average}");
    }
}
