use macrdp::auth_guard::{
    audit_accept, audit_disconnect, audit_enabled, audit_reject, canonical_ip, classify_outcome,
    escalated_cooldown, AuditEvent, AuthGuardCore, AuthGuardHandler, Decision, GuardConfig, IpAddr,
    Outcome,
};
use macrdp::env::Environment;
use macrdp::time::{Duration, Instant};

fn test_cfg() -> GuardConfig {
    GuardConfig {
        window: Duration::from_secs(60),
        max_attempts: 10,
        failure_threshold: 5,
        failfast_window: Duration::from_secs(3),
        base_cooldown: Duration::from_secs(30),
        max_cooldown: Duration::from_secs(900),
    }
}

fn guard() -> AuthGuardCore {
    AuthGuardCore::with_config(test_cfg())
}

fn v4(a: u8, b: u8, c: u8, d: u8) -> IpAddr {
    IpAddr::V4(u32::from_be_bytes([a, b, c, d]))
}

fn mapped(a: u8, b: u8, c: u8, d: u8) -> IpAddr {
    IpAddr::V6(0xFFFF_0000_0000 + u128::from(u32::from_be_bytes([a, b, c, d])))
}

fn ip(n: u8) -> IpAddr {
    v4(203, 0, 113, n)
}

fn now() -> Instant {
    Instant { nanos: 1_000_000_000_000 }
}

fn after(t: Instant, secs: u64) -> Instant {
    t.checked_add(Duration::from_secs(secs)).unwrap()
}

fn env(vars: &[(&str, &str)]) -> Environment {
    Environment::new(vars.iter().map(|(k, v)| (k.to_string(), v.to_string())).collect())
}

#[test]
fn classify_outcome_only_counts_fast_errored_connections() {
    let w = Duration::from_secs(3);
    assert_eq!(classify_outcome(true, Duration::from_millis(1), w), Outcome::Failure);
    assert_eq!(classify_outcome(true, Duration::from_millis(900), w), Outcome::Failure);
    assert_eq!(classify_outcome(true, Duration::from_secs(7), w), Outcome::Success);
    assert_eq!(classify_outcome(true, Duration::from_millis(3001), w), Outcome::Success);
    assert_eq!(classify_outcome(false, Duration::from_millis(1), w), Outcome::Success);
    assert_eq!(classify_outcome(false, Duration::from_secs(3600), w), Outcome::Success);
}

#[test]
fn reconnecting_client_with_session_errors_is_not_locked_out() {
    let mut c = guard();
    let t0 = now();
    let peer = ip(20);
    let w = c.failfast_window();
    for k in 0..20 {
        let dur = Duration::from_secs(7);
        c.record_outcome(after(t0, k * 10), peer, classify_outcome(true, dur, w));
        assert_eq!(
            c.decide(after(t0, k * 10 + 1), peer),
            Decision::Accept,
            "iteration {k}: a reconnecting client must stay accepted"
        );
    }
}

#[test]
fn rate_limit_trips_at_cap_then_recovers_after_window() {
    let mut c = guard();
    let t0 = now();
    let peer = ip(1);
    for i in 0..10 {
        assert_eq!(c.decide(after(t0, i), peer), Decision::Accept, "attempt {i}");
    }
    assert_eq!(
        c.decide(after(t0, 10), peer),
        Decision::RejectRateLimit { window_attempts: 10 }
    );
    assert_eq!(c.decide(after(t0, 61), peer), Decision::Accept);
}

#[test]
fn rejected_attempt_not_counted_in_window() {
    let mut c = guard();
    let t0 = now();
    let peer = ip(2);
    for i in 0..10 {
        assert_eq!(c.decide(after(t0, i), peer), Decision::Accept);
    }
    for _ in 0..5 {
        assert!(matches!(c.decide(after(t0, 9), peer), Decision::RejectRateLimit { .. }));
    }
    assert_eq!(c.decide(after(t0, 61), peer), Decision::Accept);
    assert!(matches!(c.decide(after(t0, 61), peer), Decision::RejectRateLimit { .. }));
}

#[test]
fn cooldown_escalates_and_auto_expires() {
    let mut c = guard();
    let t0 = now();
    let peer = ip(3);
    for _ in 0..5 {
        c.record_outcome(t0, peer, Outcome::Failure);
    }
    match c.decide(t0, peer) {
        Decision::RejectCooldown { retry_after } => {
            assert_eq!(retry_after, Duration::from_secs(30));
        }
        other => panic!("expected cooldown, got {other:?}"),
    }
    c.record_outcome(t0, peer, Outcome::Failure);
    match c.decide(t0, peer) {
        Decision::RejectCooldown { retry_after } => {
            assert_eq!(retry_after, Duration::from_secs(60));
        }
        other => panic!("expected escalated cooldown, got {other:?}"),
    }
    assert_eq!(c.decide(after(t0, 61), peer), Decision::Accept);
}

#[test]
fn cooldown_is_capped() {
    let dur = escalated_cooldown(25, 5, Duration::from_secs(30), Duration::from_secs(900));
    assert_eq!(dur, Duration::from_secs(900));
}

#[test]
fn cooldown_doubles_with_each_failure() {
    let base = Duration::from_secs(30);
    let max = Duration::from_secs(900);
    assert_eq!(escalated_cooldown(5, 5, base, max), Duration::from_secs(30));
    assert_eq!(escalated_cooldown(6, 5, base, max), Duration::from_secs(60));
    assert_eq!(escalated_cooldown(8, 5, base, max), Duration::from_secs(240));
    assert_eq!(escalated_cooldown(3, 5, base, max), Duration::from_secs(30));
    assert_eq!(escalated_cooldown(u32::MAX, 5, base, max), Duration::from_secs(900));
    assert_eq!(escalated_cooldown(45, 5, Duration { nanos: 1 }, max), max);
    assert_eq!(escalated_cooldown(44, 5, Duration { nanos: 1 }, max), Duration { nanos: 1 << 39 });
    assert_eq!(escalated_cooldown(u32::MAX, 5, Duration { nanos: 0 }, max), Duration { nanos: 0 });
}

#[test]
fn success_resets_failures() {
    let mut c = guard();
    let t0 = now();
    let peer = ip(4);
    for _ in 0..4 {
        c.record_outcome(t0, peer, Outcome::Failure);
    }
    c.record_outcome(t0, peer, Outcome::Success);
    for _ in 0..4 {
        c.record_outcome(t0, peer, Outcome::Failure);
    }
    assert_eq!(c.decide(t0, peer), Decision::Accept);
}

#[test]
fn benign_single_error_then_success_never_locks() {
    let mut c = guard();
    let t0 = now();
    let peer = ip(5);
    for k in 0..50 {
        let t = after(t0, k * 20);
        c.record_outcome(t, peer, Outcome::Failure);
        c.record_outcome(after(t, 1), peer, Outcome::Success);
        assert_eq!(
            c.decide(after(t, 2), peer),
            Decision::Accept,
            "iteration {k} must stay accepted"
        );
    }
}

#[test]
fn loopback_is_exempt_and_untracked() {
    let mut c = guard();
    let t0 = now();
    for lo in [v4(127, 0, 0, 1), IpAddr::V6(1), mapped(127, 0, 0, 1)] {
        for _ in 0..100 {
            c.record_outcome(t0, lo, Outcome::Failure);
        }
        for _ in 0..100 {
            assert_eq!(c.decide(t0, lo), Decision::Accept);
        }
        assert!(!c.tracks(lo), "loopback must never be tracked: {lo:?}");
    }
}

#[test]
fn ipv4_mapped_keys_to_v4() {
    let mut c = guard();
    let t0 = now();
    for _ in 0..5 {
        c.record_outcome(t0, mapped(198, 51, 100, 7), Outcome::Failure);
    }
    assert!(matches!(
        c.decide(t0, v4(198, 51, 100, 7)),
        Decision::RejectCooldown { .. }
    ));
    assert_eq!(canonical_ip(mapped(198, 51, 100, 7)), v4(198, 51, 100, 7));
    assert_eq!(canonical_ip(IpAddr::V6(0x2001_0db8)), IpAddr::V6(0x2001_0db8));
}

#[test]
fn stale_entries_are_evicted() {
    let mut c = guard();
    let t0 = now();
    let peer = ip(6);
    assert_eq!(c.decide(t0, peer), Decision::Accept);
    assert!(c.tracks(peer));
    let _ = c.decide(after(t0, 120), ip(7));
    assert!(!c.tracks(peer), "idle entry should have been evicted");
}

#[test]
fn the_table_never_outgrows_its_cap() {
    let mut c = guard();
    let t0 = now();
    let nth = |n: u32| IpAddr::V4(0x0A00_0000 + n);
    for n in 0..50_000 {
        c.record_outcome(after(t0, u64::from(n / 5_000)), nth(n), Outcome::Failure);
    }
    assert!(c.tracks(nth(0)));
    c.record_outcome(after(t0, 100), nth(7), Outcome::Failure);
    assert!(c.tracks(nth(0)), "a known address needs no room");
    c.record_outcome(after(t0, 101), nth(50_000), Outcome::Failure);
    let kept = (0..=50_000).filter(|n| c.tracks(nth(*n))).count();
    assert_eq!(kept, 50_000 - 5_001 + 1);
    assert!(c.tracks(nth(50_000)) && c.tracks(nth(7)) && c.tracks(nth(49_999)));
    assert!(!c.tracks(nth(0)));
}

#[test]
fn accepts_in_a_window_stay_within_the_limit() {
    let mut c = guard();
    let t0 = now();
    let mut accepted: Vec<u64> = Vec::new();
    for s in 0..300u64 {
        let d = c.decide(after(t0, s), ip(12));
        let recent = accepted.iter().filter(|t| **t + 60 >= s).count();
        match d {
            Decision::Accept => {
                accepted.push(s);
                assert!(recent < 10);
            }
            Decision::RejectRateLimit { window_attempts } => {
                assert_eq!((window_attempts, recent), (10, 10));
            }
            other => panic!("unexpected {other:?}"),
        }
    }
}

#[test]
fn disabled_lockout_threshold_zero() {
    let mut cfg = test_cfg();
    cfg.failure_threshold = 0;
    let mut c = AuthGuardCore::with_config(cfg);
    let t0 = now();
    let peer = ip(8);
    for _ in 0..50 {
        c.record_outcome(t0, peer, Outcome::Failure);
    }
    assert_eq!(c.decide(t0, peer), Decision::Accept);
}

#[test]
fn disabled_rate_limit_max_zero() {
    let mut cfg = test_cfg();
    cfg.max_attempts = 0;
    let mut c = AuthGuardCore::with_config(cfg);
    let t0 = now();
    let peer = ip(9);
    for _ in 0..1000 {
        assert_eq!(c.decide(t0, peer), Decision::Accept);
    }
}

#[test]
fn sweeping_keeps_a_locked_peer_locked() {
    let mut c = guard();
    let t0 = now();
    for _ in 0..10 {
        c.record_outcome(t0, ip(10), Outcome::Failure);
    }
    assert_eq!(c.decide(after(t0, 200), ip(11)), Decision::Accept);
    assert_eq!(
        c.decide(after(t0, 200), ip(10)),
        Decision::RejectCooldown { retry_after: Duration::from_secs(700) }
    );
}

#[test]
fn guard_settings_come_from_the_environment() {
    assert!(AuthGuardCore::from_env(&env(&[("MACRDP_CONN_GUARD", "off")])).is_none());
    assert!(AuthGuardHandler::from_env(&env(&[("MACRDP_CONN_GUARD", "0")])).is_none());
    assert!(AuthGuardHandler::from_env(&env(&[])).is_some());
    assert!(AuthGuardCore::from_env(&env(&[("MACRDP_CONN_GUARD", "1")])).is_some());
}

#[test]
fn handler_reports_what_the_audit_log_says() {
    let mut h = AuthGuardHandler { core: guard() };
    let t0 = now();
    let peer = ip(12);
    assert_eq!(h.on_accept(t0, peer), (true, Decision::Accept));
    for _ in 0..5 {
        assert_eq!(
            h.on_disconnected(t0, peer, Duration::from_millis(5), true),
            Outcome::Failure
        );
    }
    let (served, verdict) = h.on_accept(t0, peer);
    assert!(!served);
    assert_eq!(
        audit_reject(true, peer, verdict),
        Some(AuditEvent::RejectLockout { ip: peer, retry_after_secs: 30 })
    );
    assert_eq!(
        h.on_disconnected(t0, peer, Duration::from_secs(9), true),
        Outcome::Success
    );
    assert_eq!(h.on_accept(t0, peer), (true, Decision::Accept));
}

#[test]
fn audit_lines() {
    assert!(audit_enabled(&env(&[])));
    assert!(!audit_enabled(&env(&[("MACRDP_AUDIT_LOG", " No ")])));
    assert_eq!(
        audit_accept(true, ip(1), 50000),
        Some(AuditEvent::Accept { ip: ip(1), port: 50000 })
    );
    assert_eq!(audit_accept(false, ip(1), 50000), None);
    assert_eq!(audit_reject(true, ip(1), Decision::Accept), None);
    assert_eq!(
        audit_reject(true, ip(1), Decision::RejectRateLimit { window_attempts: 10 }),
        Some(AuditEvent::RejectRateLimit { ip: ip(1), window_attempts: 10 })
    );
    assert_eq!(
        audit_reject(false, ip(1), Decision::RejectRateLimit { window_attempts: 10 }),
        None
    );
    assert_eq!(
        audit_disconnect(true, ip(1), Duration::from_millis(1500), Outcome::Success),
        Some(AuditEvent::Disconnect { ip: ip(1), duration_ms: 1500, outcome: Outcome::Success })
    );
    assert_eq!(
        audit_disconnect(false, ip(1), Duration::from_millis(1500), Outcome::Success),
        None
    );
}
