use macrdp::capture::DesktopSize;
use macrdp::env::Environment;
use macrdp::h264::{
    aimd_bitrate, avcc_to_annex_b, begin_ship, caps_indicate_avc, frame_payload, frame_region,
    frame_timestamp, monitor_edges, recovery_config_from_env, should_demigrate_to_tcp,
    should_force_recovery_idr, CapabilitySet, ConnectionContext, EncodedFrame, Gate, GfxConfig,
    Link, Prepare, RecoveryParams, ShipError, WireFormat,
};
use macrdp::multitransport::{env_truthy, offers_lossy_audio};
use macrdp::time::{Duration, Instant};

fn recovery_params() -> RecoveryParams {
    RecoveryParams {
        active_window: Duration::from_millis(500),
        ack_stall: Duration::from_millis(200),
        min_recovery_interval: Duration::from_millis(1000),
    }
}

fn ms(v: u64) -> Duration {
    Duration::from_millis(v)
}

fn wd_active() -> Duration {
    ms(1000)
}

fn wd_wedge() -> Duration {
    ms(3000)
}

/// The lower bitrate, as the caller computes it from the factor.
fn lowered(current: u32, factor: f32) -> u32 {
    (current as f32 * factor) as u32
}

fn aimd(current: u32, loss: u64, floor: u32, ceiling: u32, increase: u32, factor: f32) -> u32 {
    aimd_bitrate(current, loss, floor, ceiling, increase, lowered(current, factor))
}

#[test]
fn recovery_fires_on_ack_stall_while_shipping_on_lossy() {
    let p = recovery_params();
    assert!(should_force_recovery_idr(ms(30), ms(300), ms(5000), false, true, &p));
}

#[test]
fn recovery_suppressed_when_acks_suspended() {
    let p = recovery_params();
    assert!(!should_force_recovery_idr(ms(30), ms(300), ms(5000), true, true, &p));
}

#[test]
fn recovery_never_on_reliable_or_tcp() {
    let p = recovery_params();
    assert!(!should_force_recovery_idr(ms(30), ms(300), ms(5000), false, false, &p));
}

#[test]
fn recovery_not_when_acks_fresh() {
    let p = recovery_params();
    assert!(!should_force_recovery_idr(ms(30), ms(50), ms(5000), false, true, &p));
}

#[test]
fn recovery_not_when_idle_not_shipping() {
    let p = recovery_params();
    assert!(!should_force_recovery_idr(ms(2000), ms(300), ms(5000), false, true, &p));
}

#[test]
fn recovery_rate_limited() {
    let p = recovery_params();
    assert!(!should_force_recovery_idr(ms(30), ms(300), ms(200), false, true, &p));
}

#[test]
fn recovery_thresholds_are_inclusive() {
    let p = recovery_params();
    assert!(should_force_recovery_idr(ms(500), ms(200), ms(1000), false, true, &p));
}

#[test]
fn watchdog_fires_on_reliable_udp_wedge_while_shipping() {
    assert!(should_demigrate_to_tcp(
        ms(30), ms(4000), false, true, false, false, wd_active(), wd_wedge()
    ));
}

#[test]
fn watchdog_never_on_tcp() {
    assert!(!should_demigrate_to_tcp(
        ms(30), ms(4000), false, false, false, false, wd_active(), wd_wedge()
    ));
}

#[test]
fn watchdog_never_on_lossy_tunnel() {
    assert!(!should_demigrate_to_tcp(
        ms(30), ms(4000), false, true, true, false, wd_active(), wd_wedge()
    ));
}

#[test]
fn watchdog_suppressed_when_acks_suspended() {
    assert!(!should_demigrate_to_tcp(
        ms(30), ms(4000), true, true, false, false, wd_active(), wd_wedge()
    ));
}

#[test]
fn watchdog_latches_one_way() {
    assert!(!should_demigrate_to_tcp(
        ms(30), ms(4000), false, true, false, true, wd_active(), wd_wedge()
    ));
}

#[test]
fn watchdog_not_when_acks_fresh() {
    assert!(!should_demigrate_to_tcp(
        ms(30), ms(500), false, true, false, false, wd_active(), wd_wedge()
    ));
}

#[test]
fn watchdog_not_when_static_screen() {
    assert!(!should_demigrate_to_tcp(
        ms(2000), ms(4000), false, true, false, false, wd_active(), wd_wedge()
    ));
}

#[test]
fn watchdog_thresholds_are_inclusive() {
    assert!(should_demigrate_to_tcp(
        ms(1000), ms(3000), false, true, false, false, wd_active(), wd_wedge()
    ));
}

#[test]
fn aimd_decreases_multiplicatively_on_loss() {
    assert_eq!(aimd(10_000_000, 3, 1_000_000, 10_000_000, 500_000, 0.7), 7_000_000);
}

#[test]
fn aimd_decrease_clamps_to_floor() {
    assert_eq!(aimd(1_200_000, 5, 1_000_000, 10_000_000, 500_000, 0.7), 1_000_000);
}

#[test]
fn aimd_increases_additively_when_clean() {
    assert_eq!(aimd(5_000_000, 0, 1_000_000, 10_000_000, 500_000, 0.7), 5_500_000);
}

#[test]
fn aimd_increase_clamps_to_ceiling() {
    assert_eq!(aimd(9_800_000, 0, 1_000_000, 10_000_000, 500_000, 0.7), 10_000_000);
}

#[test]
fn aimd_at_ceiling_clean_is_stable() {
    assert_eq!(aimd(10_000_000, 0, 1_000_000, 10_000_000, 500_000, 0.7), 10_000_000);
}

#[test]
fn aimd_at_floor_with_loss_is_stable() {
    assert_eq!(aimd(1_000_000, 9, 1_000_000, 10_000_000, 500_000, 0.7), 1_000_000);
}

#[test]
fn avcc_to_annex_b_rewrites_length_prefixes() {
    let mut avcc = Vec::new();
    avcc.extend_from_slice(&3u32.to_be_bytes());
    avcc.extend_from_slice(&[0xAA, 0xAA, 0xAA]);
    avcc.extend_from_slice(&5u32.to_be_bytes());
    avcc.extend_from_slice(&[0xBB, 0xBB, 0xBB, 0xBB, 0xBB]);
    let out = avcc_to_annex_b(&avcc, &[], false);
    let expected: Vec<u8> = [
        0, 0, 0, 1, 0xAA, 0xAA, 0xAA, 0, 0, 0, 1, 0xBB, 0xBB, 0xBB, 0xBB, 0xBB,
    ]
    .into();
    assert_eq!(out, expected);
}

#[test]
fn avcc_to_annex_b_prepends_parameter_sets_on_keyframe() {
    let sps = vec![0x67, 0x42, 0x00];
    let pps = vec![0x68, 0xCE, 0x06];
    let avcc = {
        let mut v = Vec::new();
        v.extend_from_slice(&2u32.to_be_bytes());
        v.extend_from_slice(&[0x65, 0x88]);
        v
    };
    let out = avcc_to_annex_b(&avcc, &[sps.clone(), pps.clone()], true);
    assert_eq!(&out[0..4], &[0, 0, 0, 1]);
    assert_eq!(&out[4..7], sps.as_slice());
    assert_eq!(&out[7..11], &[0, 0, 0, 1]);
    assert_eq!(&out[11..14], pps.as_slice());
    assert_eq!(&out[14..18], &[0, 0, 0, 1]);
    assert_eq!(&out[18..20], &[0x65, 0x88]);
}

#[test]
fn truncated_units_are_left_out() {
    let mut avcc = Vec::new();
    avcc.extend_from_slice(&1u32.to_be_bytes());
    avcc.push(0xAA);
    avcc.extend_from_slice(&9u32.to_be_bytes());
    avcc.push(0xBB);
    assert_eq!(avcc_to_annex_b(&avcc, &[], false), vec![0, 0, 0, 1, 0xAA]);
    assert_eq!(avcc_to_annex_b(&[0, 0], &[], false), Vec::<u8>::new());
}

fn frame() -> EncodedFrame {
    EncodedFrame {
        data: vec![0, 0, 0, 1, 0x41],
        parameter_sets: vec![vec![0x67]],
        is_keyframe: false,
    }
}

#[test]
fn payload_follows_the_wire_format() {
    assert_eq!(frame_payload(WireFormat::AnnexB, &frame()), vec![0, 0, 0, 1, 0x41]);
    let f = EncodedFrame { data: vec![0, 0, 0, 2, 7, 8], parameter_sets: vec![vec![9]], is_keyframe: true };
    assert_eq!(
        frame_payload(WireFormat::AnnexB, &f),
        vec![0, 0, 0, 1, 9, 0, 0, 0, 1, 7, 8]
    );
}

fn cfg() -> GfxConfig {
    GfxConfig::from_env(&Environment::new(Vec::new()), 60, 6_000_000, 2, true)
}

fn tcp() -> Link {
    Link { on_udp: false, on_lossy: false }
}

fn t0() -> Instant {
    Instant { nanos: 1_000_000_000_000 }
}

fn later(millis: u64) -> Instant {
    t0().checked_add(ms(millis)).unwrap()
}

fn ready() -> ConnectionContext {
    let mut c = ConnectionContext::open(t0(), 6_000_000, 0);
    c.on_capabilities(&vec![CapabilitySet::V10_7 { avc_disabled: false }]);
    c.on_ready();
    c.on_surface(1, DesktopSize { width: 800, height: 600 });
    c.on_encoder();
    c
}

#[test]
fn frames_in_flight_hold_back_further_frames() {
    let mut c = ready();
    let cfg = cfg();
    assert!(matches!(
        c.prepare(&cfg, tcp(), later(10), true),
        Prepare::Ready { demigrate: false, .. }
    ));
    assert_eq!(c.gate(&cfg, tcp(), later(10)), Gate::Encode { force_keyframe: true });
    c.on_encoded();
    assert!(matches!(c.gate(&cfg, tcp(), later(20)), Gate::Encode { .. }));
    c.on_encoded();
    assert_eq!(c.gate(&cfg, tcp(), later(30)), Gate::Drop);
    c.on_batch_shipped(2);
    assert!(matches!(c.gate(&cfg, tcp(), later(40)), Gate::Encode { .. }));
}

#[test]
fn nothing_is_prepared_before_the_client_is_ready() {
    let mut c = ConnectionContext::open(t0(), 6_000_000, 0);
    assert_eq!(c.prepare(&cfg(), tcp(), later(10), false), Prepare::NotReady);
}

#[test]
fn acks_that_are_suspended_say_so() {
    let mut c = ready();
    c.on_frame_ack(later(5), 1, 0xFFFF_FFFF);
    assert!(c.acks_suspended);
    c.on_frame_ack(later(6), 2, 0);
    assert!(!c.acks_suspended);
}

#[test]
fn capabilities_decide_on_avc() {
    assert!(!caps_indicate_avc(&vec![CapabilitySet::V8]));
    assert!(caps_indicate_avc(&vec![CapabilitySet::V8_1 { avc420_enabled: true }]));
    assert!(!caps_indicate_avc(&vec![CapabilitySet::V8_1 { avc420_enabled: false }]));
    assert!(caps_indicate_avc(&vec![CapabilitySet::V8, CapabilitySet::V10 { avc_disabled: false }]));
    assert!(!caps_indicate_avc(&vec![CapabilitySet::V10_4 { avc_disabled: true }]));
}

#[test]
fn shipping_needs_a_connection_and_a_surface() {
    let mut none: Option<ConnectionContext> = None;
    assert!(matches!(begin_ship(&mut none, t0()), Err(ShipError::NoConnection)));
    let mut bare = Some(ConnectionContext::open(t0(), 1, 0));
    assert!(matches!(begin_ship(&mut bare, t0()), Err(ShipError::NoSurface)));
    let mut whole = Some(ready());
    let target = begin_ship(&mut whole, later(7)).unwrap();
    assert_eq!(target.surface_id, 1);
    assert_eq!(target.dims, DesktopSize { width: 800, height: 600 });
}

#[test]
fn frame_geometry_and_clock() {
    let r = frame_region(DesktopSize { width: 1920, height: 1080 });
    assert_eq!((r.left, r.top), (0, 0));
    assert_eq!((r.right, r.bottom), (1919, 1079));
    assert_eq!(monitor_edges(DesktopSize { width: 1920, height: 1080 }), (1919, 1079));
    assert_eq!(frame_timestamp(ms(0)), 0);
    assert_eq!(frame_timestamp(ms(1234)), 1234);
}

fn set(name: &str, value: &str) -> Environment {
    Environment::new(vec![(name.to_string(), value.to_string())])
}

#[test]
fn switches_of_the_transport_are_off_unless_set() {
    let plain = GfxConfig::from_env(&Environment::new(Vec::new()), 60, 6_000_000, 2, false);
    assert!(!plain.recovery_enabled && !plain.adaptive_enabled);
    let env = set("MACRDP_UDP_ADAPTIVE_BITRATE", "1");
    assert!(GfxConfig::from_env(&env, 60, 6_000_000, 2, false).adaptive_enabled);
    let env = set("MACRDP_UDP_ADAPTIVE_BITRATE", " Off ");
    assert!(!GfxConfig::from_env(&env, 60, 6_000_000, 2, false).adaptive_enabled);
    assert!(GfxConfig::from_env(&env, 60, 6_000_000, 2, true).adaptive_enabled);
    assert!(recovery_config_from_env(&set("MACRDP_UDP_EGFX_ACK_RECOVERY", "yes")).0);
    assert!(!recovery_config_from_env(&set("MACRDP_UDP_EGFX_ACK_RECOVERY", "no")).0);
    let env = set("MACRDP_UDP_LOSSY_AUDIO", "1");
    assert!(env_truthy(&env, "MACRDP_UDP_LOSSY_AUDIO"));
    assert!(offers_lossy_audio(&env, true));
    assert!(!offers_lossy_audio(&env, false));
    assert!(!offers_lossy_audio(&Environment::new(Vec::new()), true));
}

#[test]
fn the_bitrate_is_steered_once_per_interval() {
    let mut c = ready();
    let mut on = cfg();
    on.adaptive_enabled = true;
    on.adaptive_interval = ms(1000);
    on.adaptive_floor_bps = 1_000_000;
    on.adaptive_increase_bps = 250_000;
    assert_eq!(c.adaptive_bitrate_step(&on, true, later(999), 7, 3_000_000), None);
    assert_eq!(c.adaptive_bitrate_step(&on, false, later(1000), 7, 3_000_000), None);
    assert_eq!(c.adaptive_bitrate_step(&on, true, later(1000), 7, 3_000_000), Some(3_000_000));
    assert_eq!(c.adaptive_bitrate_step(&on, true, later(1500), 9, 1_500_000), None);
    assert_eq!(c.adaptive_bitrate_step(&on, true, later(2000), 7, 1_500_000), Some(3_250_000));
    on.adaptive_enabled = false;
    assert_eq!(c.adaptive_bitrate_step(&on, true, later(9000), 90, 1_500_000), None);
}

#[test]
fn a_closed_channel_is_set_up_again() {
    let mut c = ready();
    c.on_frame_sent(41);
    assert_eq!(c.last_shipped_frame_id, 41);
    c.on_close();
    assert!(!c.is_ready && !c.has_encoder && c.surface_id.is_none() && c.need_keyframe);
    assert_eq!(c.prepare(&cfg(), tcp(), later(10), false), Prepare::NotReady);
    c.on_ready();
    assert!(!matches!(c.prepare(&cfg(), tcp(), later(20), false), Prepare::NotReady));
}
