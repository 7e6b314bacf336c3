use macrdp::env::Environment;
use macrdp::health::{parse_secs, parse_u32, should_arm, HealthConfig, Verdict, Watchdog};
use macrdp::time::Duration;

#[test]
fn worker_never_arms_even_with_env_on() {
    assert!(!should_arm(true, false, Some("1")));
    assert!(!should_arm(true, false, None));
}

#[test]
fn explicit_env_override_wins_over_tty() {
    assert!(should_arm(false, true, Some("1")));
    assert!(should_arm(false, true, Some("on")));
    assert!(should_arm(false, true, Some(" TRUE ")));
    assert!(!should_arm(false, false, Some("0")));
    assert!(!should_arm(false, false, Some("off")));
}

#[test]
fn default_is_on_headless_off_interactive() {
    assert!(should_arm(false, false, None));
    assert!(!should_arm(false, true, None));
    assert!(should_arm(false, false, Some("maybe")));
}

#[test]
fn parse_secs_falls_back_on_bad_or_zero() {
    let d = Duration::from_secs(30);
    assert_eq!(parse_secs(Some("45"), d), Duration::from_secs(45));
    assert_eq!(parse_secs(Some("0"), d), d);
    assert_eq!(parse_secs(Some("nope"), d), d);
    assert_eq!(parse_secs(None, d), d);
}

#[test]
fn parse_u32_falls_back_on_bad_or_zero() {
    assert_eq!(parse_u32(Some("3"), 2), 3);
    assert_eq!(parse_u32(Some("0"), 2), 2);
    assert_eq!(parse_u32(Some(""), 2), 2);
    assert_eq!(parse_u32(None, 2), 2);
}

#[test]
fn default_config_is_conservative() {
    let c = HealthConfig::default();
    let worst = c
        .probe_interval
        .checked_add(c.timeout)
        .unwrap()
        .checked_mul(c.failures_before_exit)
        .unwrap();
    assert!(worst.nanos >= Duration::from_secs(60).nanos);
}

#[test]
fn settings_come_from_the_environment() {
    let env = Environment::new(Vec::new());
    let c = HealthConfig::from_env(&env);
    let d = HealthConfig::default();
    assert_eq!(c.probe_interval, d.probe_interval);
    assert_eq!(c.timeout, d.timeout);
    assert_eq!(c.failures_before_exit, d.failures_before_exit);
}

#[test]
fn only_misses_in_a_row_end_the_process() {
    let cfg = HealthConfig {
        probe_interval: Duration::from_secs(1),
        timeout: Duration::from_secs(1),
        failures_before_exit: 2,
    };
    let mut w = Watchdog::new();
    let first = w.on_probe(false, &cfg);
    assert!(!matches!(first, Verdict::Exit(_)));
    assert_eq!(w.consecutive_misses, 1);
    assert!(!matches!(w.on_probe(true, &cfg), Verdict::Exit(_)));
    assert_eq!(w.consecutive_misses, 0);
    assert!(!matches!(w.on_probe(false, &cfg), Verdict::Exit(_)));
    assert_eq!(w.on_probe(false, &cfg), Verdict::Exit(70));
}
