//! The H.264 video pipeline: when a frame is encoded, when it must be a keyframe,
//! how congestion steers the bitrate, and how encoded frames are framed.
use crate::capture::DesktopSize;
use crate::env::{env_millis, env_positive, env_u64, Environment};
use crate::multitransport::env_truthy;
use crate::text::{chars_of, lower, same, same_text};
use crate::time::{since, Duration, Instant};
use crate::wire::{append_bytes, be32, be32_at, push_be32, read32};
use vstd::prelude::*;

verus! {

/// While the client lags, one frame per this span still goes out.
pub const UDP_THROTTLE_FLOOR_MS: u64 = 100;

/// How the units of a frame are told apart on the wire.
#[derive(Debug, Clone, Copy, PartialEq, Eq, Structural)]
pub enum WireFormat {
    LengthPrefixed,
    AnnexB,
}

pub open spec fn says_true(v: Seq<char>) -> bool {
    v == "1"@ || crate::text::lowered(v) == "true"@
}

pub open spec fn says_false(v: Seq<char>) -> bool {
    v == "0"@ || crate::text::lowered(v) == "false"@
}

fn is_word(v: &str, digit: &str, word: &str) -> (r: bool)
    ensures
        r == (v@ == digit@ || crate::text::lowered(v@) == word@),
{
    if same_text(v, digit) {
        return true;
    }
    let chars: Vec<char> = chars_of(v);
    same(&lower(&chars), word)
}

impl WireFormat {
    pub fn from_env(env: &Environment) -> (w: Self)
        ensures
            w == (match env.value("MACRDP_H264_LENGTH_PREFIXED"@) {
                Some(v) => if says_true(v) {
                    WireFormat::LengthPrefixed
                } else {
                    WireFormat::AnnexB
                },
                None => WireFormat::AnnexB,
            }),
    {
        match env.get("MACRDP_H264_LENGTH_PREFIXED") {
            Some(v) => if is_word(v, "1", "true") {
                WireFormat::LengthPrefixed
            } else {
                WireFormat::AnnexB
            },
            None => WireFormat::AnnexB,
        }
    }
}

#[derive(Debug, Clone, Copy, PartialEq, Eq, Structural)]
pub struct RecoveryParams {
    pub active_window: Duration,
    pub ack_stall: Duration,
    pub min_recovery_interval: Duration,
}

/// Frames are shipped over a lossy transport, acknowledgements have stalled, and the
/// last recovery is long enough ago.
pub open spec fn recovery_due(
    since_ship: nat,
    since_ack: nat,
    since_recovery: nat,
    acks_suspended: bool,
    egfx_on_lossy: bool,
    p: RecoveryParams,
) -> bool {
    &&& egfx_on_lossy
    &&& !acks_suspended
    &&& since_ship <= p.active_window@
    &&& since_ack >= p.ack_stall@
    &&& since_recovery >= p.min_recovery_interval@
}

pub fn should_force_recovery_idr(
    since_ship: Duration,
    since_ack: Duration,
    since_recovery: Duration,
    acks_suspended: bool,
    egfx_on_lossy: bool,
    p: &RecoveryParams,
) -> (r: bool)
    ensures
        r == recovery_due(
            since_ship@,
            since_ack@,
            since_recovery@,
            acks_suspended,
            egfx_on_lossy,
            *p,
        ),
{
    egfx_on_lossy && !acks_suspended && since_ship.nanos <= p.active_window.nanos
        && since_ack.nanos >= p.ack_stall.nanos && since_recovery.nanos
        >= p.min_recovery_interval.nanos
}

/// Frames are shipped over reliable UDP, but the client has stopped acknowledging.
pub open spec fn demigration_due(
    since_ship: nat,
    since_ack: nat,
    acks_suspended: bool,
    egfx_on_udp: bool,
    egfx_on_lossy: bool,
    already_demigrated: bool,
    active_window: nat,
    wedge_timeout: nat,
) -> bool {
    &&& egfx_on_udp
    &&& !egfx_on_lossy
    &&& !already_demigrated
    &&& !acks_suspended
    &&& since_ship <= active_window
    &&& since_ack >= wedge_timeout
}

#[allow(clippy::too_many_arguments)]
pub fn should_demigrate_to_tcp(
    since_ship: Duration,
    since_ack: Duration,
    acks_suspended: bool,
    egfx_on_udp: bool,
    egfx_on_lossy: bool,
    already_demigrated: bool,
    active_window: Duration,
    wedge_timeout: Duration,
) -> (r: bool)
    ensures
        r == demigration_due(
            since_ship@,
            since_ack@,
            acks_suspended,
            egfx_on_udp,
            egfx_on_lossy,
            already_demigrated,
            active_window@,
            wedge_timeout@,
        ),
{
    egfx_on_udp && !egfx_on_lossy && !already_demigrated && !acks_suspended && since_ship.nanos
        <= active_window.nanos && since_ack.nanos >= wedge_timeout.nanos
}

/// The next bitrate: after losses the decreased one, no lower than the floor; else
/// one step up, no higher than the ceiling.
pub open spec fn next_bitrate(
    current: u32,
    loss_delta: u64,
    floor_bps: u32,
    ceiling_bps: u32,
    increase_bps: u32,
    decreased: u32,
) -> int {
    if loss_delta > 0 {
        crate::order::larger(decreased as int, floor_bps as int)
    } else {
        crate::order::smaller(
            crate::order::smaller(current + increase_bps, u32::MAX as int),
            ceiling_bps as int,
        )
    }
}

/// Additive increase, multiplicative decrease. `decreased` is the current bitrate
/// times the factor for a loss.
pub fn aimd_bitrate(
    current: u32,
    loss_delta: u64,
    floor_bps: u32,
    ceiling_bps: u32,
    increase_bps: u32,
    decreased: u32,
) -> (r: u32)
    ensures
        r == next_bitrate(current, loss_delta, floor_bps, ceiling_bps, increase_bps, decreased),
{
    if loss_delta > 0 {
        if decreased >= floor_bps {
            decreased
        } else {
            floor_bps
        }
    } else {
        let up: u32 = current.saturating_add(increase_bps);
        if up <= ceiling_bps {
            up
        } else {
            ceiling_bps
        }
    }
}

/// The settings of a video pipeline.
#[derive(Debug, Clone, Copy, PartialEq, Eq, Structural)]
pub struct GfxConfig {
    pub fps: u32,
    pub bitrate_bps: u32,
    /// Frames encoded but not yet shipped, at most.
    pub max_in_flight: u32,
    pub wire_format: WireFormat,
    pub recovery_enabled: bool,
    pub recovery_params: RecoveryParams,
    /// Unacknowledged frames beyond which the client counts as lagging.
    pub max_frame_lag: u64,
    pub watchdog_enabled: bool,
    pub watchdog_wedge_timeout: Duration,
    pub watchdog_active_window: Duration,
    pub adaptive_enabled: bool,
    pub adaptive_floor_bps: u32,
    pub adaptive_increase_bps: u32,
    pub adaptive_interval: Duration,
}

pub open spec fn ms_or(v: Option<Seq<char>>, default: int) -> int {
    crate::env::number_or(v, u64::MAX as int, default) * crate::time::NANOS_PER_MILLI
}

pub open spec fn positive_ms(v: Option<Seq<char>>, default: int) -> int {
    crate::env::positive_or(v, u64::MAX as int, default) * crate::time::NANOS_PER_MILLI
}

impl RecoveryParams {
    pub open spec fn read_from(&self, env: &Environment) -> bool {
        &&& self.active_window@ == ms_or(env.value("MACRDP_UDP_EGFX_ACK_ACTIVE_MS"@), 500)
        &&& self.ack_stall@ == ms_or(env.value("MACRDP_UDP_EGFX_ACK_STALL_MS"@), 200)
        &&& self.min_recovery_interval@ == ms_or(
            env.value("MACRDP_UDP_EGFX_ACK_RECOVERY_MS"@),
            1000,
        )
    }
}

/// Whether lost frames are recovered from, and how.
pub fn recovery_config_from_env(env: &Environment) -> (r: (bool, RecoveryParams))
    ensures
        r.0 == crate::env::switch_value(env.value("MACRDP_UDP_EGFX_ACK_RECOVERY"@), false),
        r.1.read_from(env),
{
    let enabled: bool = env_truthy(env, "MACRDP_UDP_EGFX_ACK_RECOVERY");
    let params: RecoveryParams = RecoveryParams {
        active_window: Duration::from_millis(env_u64(env, "MACRDP_UDP_EGFX_ACK_ACTIVE_MS", 500)),
        ack_stall: Duration::from_millis(env_u64(env, "MACRDP_UDP_EGFX_ACK_STALL_MS", 200)),
        min_recovery_interval: Duration::from_millis(
            env_u64(env, "MACRDP_UDP_EGFX_ACK_RECOVERY_MS", 1000),
        ),
    };
    (enabled, params)
}

impl GfxConfig {
    /// The settings that the environment names, each with its default.
    pub open spec fn read_from(&self, env: &Environment) -> bool {
        let rate = self.bitrate_bps as int;
        &&& self.wire_format == (match env.value("MACRDP_H264_LENGTH_PREFIXED"@) {
            Some(v) => if says_true(v) {
                WireFormat::LengthPrefixed
            } else {
                WireFormat::AnnexB
            },
            None => WireFormat::AnnexB,
        })
        &&& self.recovery_enabled == crate::env::switch_value(
            env.value("MACRDP_UDP_EGFX_ACK_RECOVERY"@),
            false,
        )
        &&& self.recovery_params.read_from(env)
        &&& self.max_frame_lag == crate::env::positive_or(
            env.value("MACRDP_UDP_EGFX_MAX_FRAME_LAG"@),
            u64::MAX as int,
            16,
        )
        &&& self.watchdog_enabled == (match env.value("MACRDP_UDP_EGFX_WATCHDOG"@) {
            Some(v) => !says_false(v),
            None => true,
        })
        &&& self.watchdog_wedge_timeout@ == positive_ms(
            env.value("MACRDP_UDP_EGFX_WATCHDOG_MS"@),
            3000,
        )
        &&& self.watchdog_active_window@ == positive_ms(
            env.value("MACRDP_UDP_EGFX_WATCHDOG_ACTIVE_MS"@),
            1000,
        )
        &&& self.adaptive_floor_bps == crate::order::smaller(
            crate::env::positive_or(
                env.value("MACRDP_UDP_ADAPTIVE_FLOOR_BPS"@),
                u32::MAX as int,
                crate::order::larger(rate / 8, 500_000),
            ),
            crate::order::larger(rate, 1),
        )
        &&& self.adaptive_increase_bps == crate::env::positive_or(
            env.value("MACRDP_UDP_ADAPTIVE_INCREASE_BPS"@),
            u32::MAX as int,
            crate::order::larger(rate / 16, 250_000),
        )
        &&& self.adaptive_interval@ == positive_ms(
            env.value("MACRDP_UDP_ADAPTIVE_INTERVAL_MS"@),
            300,
        )
    }

    /// The bitrate adapts where the command line asks for it or the environment does.
    pub fn from_env(
        env: &Environment,
        fps: u32,
        bitrate_bps: u32,
        max_in_flight: u32,
        adaptive_bitrate: bool,
    ) -> (c: Self)
        ensures
            c.fps == fps,
            c.bitrate_bps == bitrate_bps,
            c.max_in_flight == max_in_flight,
            c.adaptive_enabled == (adaptive_bitrate || crate::env::switch_value(
                env.value("MACRDP_UDP_ADAPTIVE_BITRATE"@),
                false,
            )),
            c.read_from(env),
    {
        let (recovery_enabled, recovery_params) = recovery_config_from_env(env);
        let watchdog_enabled: bool = match env.get("MACRDP_UDP_EGFX_WATCHDOG") {
            Some(v) => !is_word(v, "0", "false"),
            None => true,
        };
        let floor_default: u32 = if bitrate_bps / 8 >= 500_000 {
            bitrate_bps / 8
        } else {
            500_000
        };
        let floor: u32 = env_positive(
            env,
            "MACRDP_UDP_ADAPTIVE_FLOOR_BPS",
            u32::MAX as u64,
            floor_default as u64,
        ) as u32;
        let top: u32 = if bitrate_bps >= 1 {
            bitrate_bps
        } else {
            1
        };
        let increase_default: u32 = if bitrate_bps / 16 >= 250_000 {
            bitrate_bps / 16
        } else {
            250_000
        };
        GfxConfig {
            fps,
            bitrate_bps,
            max_in_flight,
            wire_format: WireFormat::from_env(env),
            recovery_enabled,
            recovery_params,
            max_frame_lag: env_positive(env, "MACRDP_UDP_EGFX_MAX_FRAME_LAG", u64::MAX, 16),
            watchdog_enabled,
            watchdog_wedge_timeout: env_millis(env, "MACRDP_UDP_EGFX_WATCHDOG_MS", 3000),
            watchdog_active_window: env_millis(env, "MACRDP_UDP_EGFX_WATCHDOG_ACTIVE_MS", 1000),
            adaptive_enabled: adaptive_bitrate || env_truthy(env, "MACRDP_UDP_ADAPTIVE_BITRATE"),
            adaptive_floor_bps: if floor <= top {
                floor
            } else {
                top
            },
            adaptive_increase_bps: env_positive(
                env,
                "MACRDP_UDP_ADAPTIVE_INCREASE_BPS",
                u32::MAX as u64,
                increase_default as u64,
            ) as u32,
            adaptive_interval: env_millis(env, "MACRDP_UDP_ADAPTIVE_INTERVAL_MS", 300),
        }
    }
}

/// Which transport carries the video at the moment.
#[derive(Debug, Clone, Copy, PartialEq, Eq, Structural)]
pub struct Link {
    pub on_udp: bool,
    pub on_lossy: bool,
}

/// The video state of one connection.
#[derive(Debug, Clone, Copy, PartialEq, Eq, Structural)]
pub struct ConnectionContext {
    pub surface_id: Option<u16>,
    pub has_encoder: bool,
    pub is_ready: bool,
    pub epoch: Instant,
    pub need_keyframe: bool,
    pub client_supports_avc: bool,
    pub submitted: u64,
    pub shipped: u64,
    pub dims: DesktopSize,
    pub last_ack_at: Instant,
    pub acks_suspended: bool,
    pub last_ship_at: Instant,
    pub last_recovery_at: Instant,
    pub last_shipped_frame_id: u64,
    pub last_acked_frame_id: u64,
    pub egfx_acks_seen: bool,
    pub last_throttle_ship: Instant,
    pub demigrated: bool,
    pub adaptive_target_bps: u32,
    pub adaptive_last_control: Instant,
    pub adaptive_last_retransmits: u64,
}

/// The first half of submitting a frame.
#[derive(Debug, Clone, Copy, PartialEq, Eq, Structural)]
pub enum Prepare {
    /// The client takes no video, so the frame goes another way.
    NotReady,
    /// `demigrate` asks for the video to move back to the main connection; the other
    /// two tell what is still to be set up.
    Ready { demigrate: bool, setup_surface: bool, setup_encoder: bool },
}

/// The second half of submitting a frame.
#[derive(Debug, Clone, Copy, PartialEq, Eq, Structural)]
pub enum Gate {
    /// The frame is skipped.
    Drop,
    Encode { force_keyframe: bool },
}

pub open spec fn recovers(c: ConnectionContext, cfg: GfxConfig, link: Link, now: Instant) -> bool {
    cfg.recovery_enabled && recovery_due(
        since(now, c.last_ship_at),
        since(now, c.last_ack_at),
        since(now, c.last_recovery_at),
        c.acks_suspended,
        link.on_lossy,
        cfg.recovery_params,
    )
}

pub open spec fn demigrates(c: ConnectionContext, cfg: GfxConfig, link: Link, now: Instant) -> bool {
    cfg.watchdog_enabled && demigration_due(
        since(now, c.last_ship_at),
        since(now, c.last_ack_at),
        c.acks_suspended,
        link.on_udp,
        link.on_lossy,
        c.demigrated,
        cfg.watchdog_active_window@,
        cfg.watchdog_wedge_timeout@,
    )
}

/// The state after a frame arrives at a client that takes video.
pub open spec fn prepared(
    c: ConnectionContext,
    cfg: GfxConfig,
    link: Link,
    now: Instant,
    request_keyframe: bool,
) -> ConnectionContext {
    let r = recovers(c, cfg, link, now);
    let d = demigrates(c, cfg, link, now);
    ConnectionContext {
        need_keyframe: c.need_keyframe || request_keyframe || r || d,
        last_recovery_at: if r {
            now
        } else {
            c.last_recovery_at
        },
        last_acked_frame_id: if d {
            c.last_shipped_frame_id
        } else {
            c.last_acked_frame_id
        },
        demigrated: c.demigrated || d,
        ..c
    }
}

pub open spec fn less(a: u64, b: u64) -> int {
    if a >= b {
        a - b
    } else {
        0
    }
}

pub open spec fn full(c: ConnectionContext, cfg: GfxConfig) -> bool {
    less(c.submitted, c.shipped) >= cfg.max_in_flight
}

pub open spec fn lagging(c: ConnectionContext, cfg: GfxConfig, link: Link) -> bool {
    &&& link.on_udp
    &&& c.egfx_acks_seen
    &&& !c.acks_suspended
    &&& less(c.last_shipped_frame_id, c.last_acked_frame_id) > cfg.max_frame_lag
}

/// Whether the frame is encoded, and the state after that: not while too many are
/// under way, and only now and then while the client lags.
pub open spec fn gated(c: ConnectionContext, cfg: GfxConfig, link: Link, now: Instant) -> (
    Gate,
    ConnectionContext,
) {
    if full(c, cfg) {
        (Gate::Drop, c)
    } else if lagging(c, cfg, link) && since(now, c.last_throttle_ship) < UDP_THROTTLE_FLOOR_MS
        * crate::time::NANOS_PER_MILLI {
        (Gate::Drop, c)
    } else {
        (
            Gate::Encode { force_keyframe: c.need_keyframe },
            ConnectionContext {
                need_keyframe: false,
                last_throttle_ship: if lagging(c, cfg, link) {
                    now
                } else {
                    c.last_throttle_ship
                },
                ..c
            },
        )
    }
}

/// The bitrate control: at most once per interval, and only over UDP.
pub open spec fn steered(
    c: ConnectionContext,
    cfg: GfxConfig,
    on_udp: bool,
    now: Instant,
    retransmits: u64,
    decreased: u32,
) -> (Option<u32>, ConnectionContext) {
    if !cfg.adaptive_enabled || !on_udp || since(now, c.adaptive_last_control)
        < cfg.adaptive_interval@ {
        (None, c)
    } else {
        let target = next_bitrate(
            c.adaptive_target_bps,
            less(retransmits, c.adaptive_last_retransmits) as u64,
            cfg.adaptive_floor_bps,
            crate::order::larger(cfg.bitrate_bps as int, 1) as u32,
            cfg.adaptive_increase_bps,
            decreased,
        ) as u32;
        (
            if target != c.adaptive_target_bps {
                Some(target)
            } else {
                None
            },
            ConnectionContext {
                adaptive_last_control: now,
                adaptive_last_retransmits: retransmits,
                adaptive_target_bps: target,
                ..c
            },
        )
    }
}

/// What a client says of its video abilities, as far as it matters here.
#[derive(Debug, Clone, Copy, PartialEq, Eq, Structural)]
pub enum CapabilitySet {
    V8,
    V8_1 { avc420_enabled: bool },
    V10 { avc_disabled: bool },
    V10_1,
    V10_2 { avc_disabled: bool },
    V10_3 { avc_disabled: bool },
    V10_4 { avc_disabled: bool },
    V10_5 { avc_disabled: bool },
    V10_6 { avc_disabled: bool },
    V10_6Err { avc_disabled: bool },
    V10_7 { avc_disabled: bool },
}

/// Whether a capability set allows H.264.
pub open spec fn allows_avc(c: CapabilitySet) -> bool {
    match c {
        CapabilitySet::V8 => false,
        CapabilitySet::V8_1 { avc420_enabled } => avc420_enabled,
        CapabilitySet::V10 { avc_disabled } => !avc_disabled,
        CapabilitySet::V10_1 => false,
        CapabilitySet::V10_2 { avc_disabled } => !avc_disabled,
        CapabilitySet::V10_3 { avc_disabled } => !avc_disabled,
        CapabilitySet::V10_4 { avc_disabled } => !avc_disabled,
        CapabilitySet::V10_5 { avc_disabled } => !avc_disabled,
        CapabilitySet::V10_6 { avc_disabled } => !avc_disabled,
        CapabilitySet::V10_6Err { avc_disabled } => !avc_disabled,
        CapabilitySet::V10_7 { avc_disabled } => !avc_disabled,
    }
}

/// Whether any of the client's capability sets allows H.264.
pub fn caps_indicate_avc(caps: &Vec<CapabilitySet>) -> (r: bool)
    ensures
        r == exists|i: int| 0 <= i < caps@.len() && allows_avc(#[trigger] caps@[i]),
{
    let mut i: usize = 0;
    while i < caps.len()
        invariant
            i <= caps.len(),
            forall|k: int| 0 <= k < i ==> !allows_avc(#[trigger] caps@[k]),
        decreases caps.len() - i,
    {
        let ok: bool = match caps[i] {
            CapabilitySet::V8 => false,
            CapabilitySet::V8_1 { avc420_enabled } => avc420_enabled,
            CapabilitySet::V10 { avc_disabled } => !avc_disabled,
            CapabilitySet::V10_1 => false,
            CapabilitySet::V10_2 { avc_disabled } => !avc_disabled,
            CapabilitySet::V10_3 { avc_disabled } => !avc_disabled,
            CapabilitySet::V10_4 { avc_disabled } => !avc_disabled,
            CapabilitySet::V10_5 { avc_disabled } => !avc_disabled,
            CapabilitySet::V10_6 { avc_disabled } => !avc_disabled,
            CapabilitySet::V10_6Err { avc_disabled } => !avc_disabled,
            CapabilitySet::V10_7 { avc_disabled } => !avc_disabled,
        };
        if ok {
            assert(allows_avc(caps@[i as int]));
            return true;
        }
        i = i + 1;
    }
    false
}

/// What a frame that arrives finds to do.
pub open spec fn preparation(c: ConnectionContext, cfg: GfxConfig, link: Link, now: Instant) -> Prepare {
    if !c.is_ready {
        Prepare::NotReady
    } else {
        Prepare::Ready {
            demigrate: demigrates(c, cfg, link, now),
            setup_surface: c.surface_id is None,
            setup_encoder: !c.has_encoder,
        }
    }
}

/// A connection that has just been opened.
pub open spec fn opened(now: Instant, bitrate_bps: u32, retransmits: u64) -> ConnectionContext {
    ConnectionContext {
        surface_id: None,
        has_encoder: false,
        is_ready: false,
        epoch: now,
        need_keyframe: true,
        client_supports_avc: false,
        submitted: 0,
        shipped: 0,
        dims: DesktopSize { width: 0, height: 0 },
        last_ack_at: now,
        acks_suspended: false,
        last_ship_at: now,
        last_recovery_at: now,
        last_shipped_frame_id: 0,
        last_acked_frame_id: 0,
        egfx_acks_seen: false,
        last_throttle_ship: now,
        demigrated: false,
        adaptive_target_bps: bitrate_bps,
        adaptive_last_control: now,
        adaptive_last_retransmits: retransmits,
    }
}

/// The state after the encoder took a frame.
pub open spec fn encoded(c: ConnectionContext) -> ConnectionContext {
    ConnectionContext {
        submitted: if c.submitted == u64::MAX {
            0
        } else {
            (c.submitted + 1) as u64
        },
        ..c
    }
}

/// The state after a batch of frames left the encoder.
pub open spec fn batch_shipped(c: ConnectionContext, frames: u64) -> ConnectionContext {
    ConnectionContext {
        shipped: if c.shipped + frames > u64::MAX {
            (c.shipped + frames - 0x1_0000_0000_0000_0000) as u64
        } else {
            (c.shipped + frames) as u64
        },
        ..c
    }
}

/// The state after a surface was created.
pub open spec fn surfaced(c: ConnectionContext, surface_id: u16, size: DesktopSize) -> ConnectionContext {
    ConnectionContext { surface_id: Some(surface_id), dims: size, ..c }
}

/// The state after an encoder was started.
pub open spec fn with_encoder(c: ConnectionContext) -> ConnectionContext {
    ConnectionContext { has_encoder: true, submitted: 0, shipped: 0, ..c }
}

/// The state after a frame was sent under this number.
pub open spec fn frame_sent(c: ConnectionContext, frame_id: u32) -> ConnectionContext {
    ConnectionContext { last_shipped_frame_id: frame_id as u64, ..c }
}

/// The state after the client told its abilities.
pub open spec fn told(c: ConnectionContext, caps: Seq<CapabilitySet>) -> ConnectionContext {
    ConnectionContext {
        client_supports_avc: exists|i: int| 0 <= i < caps.len() && allows_avc(#[trigger] caps[i]),
        ..c
    }
}

/// The state after the channel opened.
pub open spec fn readied(c: ConnectionContext) -> ConnectionContext {
    ConnectionContext {
        is_ready: c.client_supports_avc,
        need_keyframe: c.need_keyframe || c.client_supports_avc,
        ..c
    }
}

/// The state after an acknowledgement.
pub open spec fn acked(c: ConnectionContext, now: Instant, frame_id: u32, queue_depth: u32) -> ConnectionContext {
    if queue_depth == ACKS_SUSPENDED_DEPTH {
        ConnectionContext { last_ack_at: now, acks_suspended: true, ..c }
    } else {
        ConnectionContext {
            last_ack_at: now,
            acks_suspended: false,
            last_acked_frame_id: frame_id as u64,
            egfx_acks_seen: true,
            ..c
        }
    }
}

/// The state after the channel closed.
pub open spec fn closed_down(c: ConnectionContext) -> ConnectionContext {
    ConnectionContext {
        is_ready: false,
        has_encoder: false,
        surface_id: None,
        need_keyframe: true,
        ..c
    }
}

/// Shipping a batch at `now`: where it goes, and the state after it.
pub open spec fn shipping(ctx: Option<ConnectionContext>, now: Instant) -> (
    Result<ShipTarget, ShipError>,
    Option<ConnectionContext>,
) {
    match ctx {
        None => (Err(ShipError::NoConnection), ctx),
        Some(c) => match c.surface_id {
            None => (Err(ShipError::NoSurface), ctx),
            Some(surface_id) => (
                Ok(ShipTarget { surface_id, dims: c.dims, epoch: c.epoch }),
                Some(ConnectionContext { last_ship_at: now, ..c }),
            ),
        },
    }
}

/// The queue depth by which a client says that it sends no more acknowledgements.
pub const ACKS_SUSPENDED_DEPTH: u32 = 0xFFFF_FFFF;

impl ConnectionContext {
    /// The state of a connection that has just been opened.
    pub fn open(now: Instant, bitrate_bps: u32, retransmits: u64) -> (c: Self)
        ensures
            c == opened(now, bitrate_bps, retransmits),
    {
        ConnectionContext {
            surface_id: None,
            has_encoder: false,
            is_ready: false,
            epoch: now,
            need_keyframe: true,
            client_supports_avc: false,
            submitted: 0,
            shipped: 0,
            dims: DesktopSize { width: 0, height: 0 },
            last_ack_at: now,
            acks_suspended: false,
            last_ship_at: now,
            last_recovery_at: now,
            last_shipped_frame_id: 0,
            last_acked_frame_id: 0,
            egfx_acks_seen: false,
            last_throttle_ship: now,
            demigrated: false,
            adaptive_target_bps: bitrate_bps,
            adaptive_last_control: now,
            adaptive_last_retransmits: retransmits,
        }
    }

    /// A frame arrives. Decides whether it must be a keyframe, and whether the video
    /// has to leave a transport on which the client no longer answers.
    pub fn prepare(&mut self, cfg: &GfxConfig, link: Link, now: Instant, request_keyframe: bool) -> (r:
        Prepare)
        ensures
            r == preparation(*old(self), *cfg, link, now),
            *final(self) == (if old(self).is_ready {
                prepared(*old(self), *cfg, link, now, request_keyframe)
            } else {
                *old(self)
            }),
    {
        if !self.is_ready {
            return Prepare::NotReady;
        }
        if request_keyframe {
            self.need_keyframe = true;
        }
        if cfg.recovery_enabled {
            let due: bool = should_force_recovery_idr(
                now.saturating_duration_since(self.last_ship_at),
                now.saturating_duration_since(self.last_ack_at),
                now.saturating_duration_since(self.last_recovery_at),
                self.acks_suspended,
                link.on_lossy,
                &cfg.recovery_params,
            );
            if due {
                self.need_keyframe = true;
                self.last_recovery_at = now;
            }
        }
        let mut demigrate: bool = false;
        if cfg.watchdog_enabled {
            let due: bool = should_demigrate_to_tcp(
                now.saturating_duration_since(self.last_ship_at),
                now.saturating_duration_since(self.last_ack_at),
                self.acks_suspended,
                link.on_udp,
                link.on_lossy,
                self.demigrated,
                cfg.watchdog_active_window,
                cfg.watchdog_wedge_timeout,
            );
            if due {
                self.need_keyframe = true;
                self.last_acked_frame_id = self.last_shipped_frame_id;
                self.demigrated = true;
                demigrate = true;
            }
        }
        Prepare::Ready {
            demigrate,
            setup_surface: self.surface_id.is_none(),
            setup_encoder: !self.has_encoder,
        }
    }

    /// Decides whether a prepared frame is encoded or skipped.
    pub fn gate(&mut self, cfg: &GfxConfig, link: Link, now: Instant) -> (r: Gate)
        ensures
            (r, *final(self)) == gated(*old(self), *cfg, link, now),
    {
        let outstanding: u64 = self.submitted.saturating_sub(self.shipped);
        if outstanding >= cfg.max_in_flight as u64 {
            return Gate::Drop;
        }
        if link.on_udp && self.egfx_acks_seen && !self.acks_suspended {
            let lag: u64 = self.last_shipped_frame_id.saturating_sub(self.last_acked_frame_id);
            if lag > cfg.max_frame_lag {
                let floor: Duration = Duration::from_millis(UDP_THROTTLE_FLOOR_MS);
                if now.saturating_duration_since(self.last_throttle_ship).nanos < floor.nanos {
                    return Gate::Drop;
                }
                self.last_throttle_ship = now;
            }
        }
        let force_keyframe: bool = self.need_keyframe;
        self.need_keyframe = false;
        Gate::Encode { force_keyframe }
    }

    /// A new bitrate for the encoder, where congestion calls for one. `retransmits`
    /// counts all retransmissions so far; `decreased` is the present bitrate times
    /// the factor for a loss.
    pub fn adaptive_bitrate_step(
        &mut self,
        cfg: &GfxConfig,
        on_udp: bool,
        now: Instant,
        retransmits: u64,
        decreased: u32,
    ) -> (r: Option<u32>)
        ensures
            (r, *final(self)) == steered(*old(self), *cfg, on_udp, now, retransmits, decreased),
    {
        if !cfg.adaptive_enabled || !on_udp {
            return None;
        }
        if now.saturating_duration_since(self.adaptive_last_control).nanos
            < cfg.adaptive_interval.nanos {
            return None;
        }
        self.adaptive_last_control = now;
        let delta: u64 = retransmits.saturating_sub(self.adaptive_last_retransmits);
        self.adaptive_last_retransmits = retransmits;
        let ceiling: u32 = if cfg.bitrate_bps >= 1 {
            cfg.bitrate_bps
        } else {
            1
        };
        let target: u32 = aimd_bitrate(
            self.adaptive_target_bps,
            delta,
            cfg.adaptive_floor_bps,
            ceiling,
            cfg.adaptive_increase_bps,
            decreased,
        );
        if target != self.adaptive_target_bps {
            self.adaptive_target_bps = target;
            Some(target)
        } else {
            None
        }
    }

    /// The encoder took a frame.
    pub fn on_encoded(&mut self)
        ensures
            *final(self) == encoded(*old(self)),
    {
        self.submitted = self.submitted.wrapping_add(1);
    }

    /// The surface was created at the desktop's size, which is kept from then on.
    pub fn on_surface(&mut self, surface_id: u16, size: DesktopSize)
        ensures
            *final(self) == surfaced(*old(self), surface_id, size),
    {
        self.dims = size;
        self.surface_id = Some(surface_id);
    }

    /// An encoder was started; frames are counted anew.
    pub fn on_encoder(&mut self)
        ensures
            *final(self) == with_encoder(*old(self)),
    {
        self.has_encoder = true;
        self.submitted = 0;
        self.shipped = 0;
    }

    /// A batch of frames left the encoder, whether or not it could be sent.
    pub fn on_batch_shipped(&mut self, frames: u64)
        ensures
            *final(self) == batch_shipped(*old(self), frames),
    {
        self.shipped = self.shipped.wrapping_add(frames);
    }

    /// A frame was sent under this number.
    pub fn on_frame_sent(&mut self, frame_id: u32)
        ensures
            *final(self) == frame_sent(*old(self), frame_id),
    {
        self.last_shipped_frame_id = frame_id as u64;
    }

    pub fn on_capabilities(&mut self, caps: &Vec<CapabilitySet>)
        ensures
            *final(self) == told(*old(self), caps@),
    {
        self.client_supports_avc = caps_indicate_avc(caps);
    }

    /// The channel is open: video goes out if the client can decode it, from a
    /// keyframe on.
    pub fn on_ready(&mut self)
        ensures
            *final(self) == readied(*old(self)),
    {
        if self.client_supports_avc {
            self.is_ready = true;
            self.need_keyframe = true;
        } else {
            self.is_ready = false;
        }
    }

    /// The client acknowledges a frame, or says that it will acknowledge no more.
    pub fn on_frame_ack(&mut self, now: Instant, frame_id: u32, queue_depth: u32)
        ensures
            *final(self) == acked(*old(self), now, frame_id, queue_depth),
    {
        self.last_ack_at = now;
        self.acks_suspended = queue_depth == ACKS_SUSPENDED_DEPTH;
        if !self.acks_suspended {
            self.last_acked_frame_id = frame_id as u64;
            self.egfx_acks_seen = true;
        }
    }

    /// The channel closed: everything is set up again when it reopens.
    pub fn on_close(&mut self)
        ensures
            *final(self) == closed_down(*old(self)),
    {
        self.is_ready = false;
        self.has_encoder = false;
        self.surface_id = None;
        self.need_keyframe = true;
    }
}

/// Why a batch of frames cannot be shipped.
#[derive(Debug, Clone, Copy, PartialEq, Eq, Structural)]
pub enum ShipError {
    NoConnection,
    NoSurface,
}

/// Where a batch of frames goes.
#[derive(Debug, Clone, Copy, PartialEq, Eq, Structural)]
pub struct ShipTarget {
    pub surface_id: u16,
    pub dims: DesktopSize,
    pub epoch: Instant,
}

/// Starts shipping a batch of frames at `now`.
pub fn begin_ship(ctx: &mut Option<ConnectionContext>, now: Instant) -> (r: Result<
    ShipTarget,
    ShipError,
>)
    ensures
        (r, *final(ctx)) == shipping(*old(ctx), now),
{
    match *ctx {
        None => Err(ShipError::NoConnection),
        Some(c) => match c.surface_id {
            None => Err(ShipError::NoSurface),
            Some(surface_id) => {
                *ctx = Some(ConnectionContext { last_ship_at: now, ..c });
                Ok(ShipTarget { surface_id, dims: c.dims, epoch: c.epoch })
            },
        },
    }
}

/// The region of the surface that a frame covers, with the coding quality.
#[derive(Debug, Clone, Copy, PartialEq, Eq, Structural)]
pub struct Region {
    pub left: u16,
    pub top: u16,
    pub right: u16,
    pub bottom: u16,
    pub quantization_parameter: u8,
    pub quality: u8,
}

pub open spec fn region_of(dims: DesktopSize) -> Region {
    Region {
        left: 0,
        top: 0,
        right: crate::order::larger(dims.width - 1, 0) as u16,
        bottom: crate::order::larger(dims.height - 1, 0) as u16,
        quantization_parameter: 22,
        quality: 100,
    }
}

/// All of a surface of this size; the right and bottom edges belong to it.
pub fn frame_region(dims: DesktopSize) -> (r: Region)
    ensures
        r == region_of(dims),
{
    Region {
        left: 0,
        top: 0,
        right: dims.width.saturating_sub(1),
        bottom: dims.height.saturating_sub(1),
        quantization_parameter: 22,
        quality: 100,
    }
}

/// The right and the bottom edge of the one monitor that is announced.
pub fn monitor_edges(size: DesktopSize) -> (r: (i32, i32))
    ensures
        r.0 == size.width - 1,
        r.1 == size.height - 1,
{
    (size.width as i32 - 1, size.height as i32 - 1)
}

pub open spec fn timestamp_at(nanos: nat) -> nat {
    (nanos / crate::time::NANOS_PER_MILLI as nat) % u32::MAX as nat
}

/// A frame's time stamp: milliseconds since the connection was opened, wrapping
/// before the largest `u32`.
pub fn frame_timestamp(elapsed: Duration) -> (ts: u32)
    ensures
        ts == timestamp_at(elapsed@),
{
    (elapsed.as_millis() % u32::MAX as u128) as u32
}

/// A frame from the encoder: its units, each after its length, and the parameter sets
/// that a keyframe needs.
#[derive(Debug)]
pub struct EncodedFrame {
    pub data: Vec<u8>,
    pub parameter_sets: Vec<Vec<u8>>,
    pub is_keyframe: bool,
}

pub open spec fn start_code() -> Seq<u8> {
    seq![0u8, 0u8, 0u8, 1u8]
}

/// The units, each after a start code.
pub open spec fn start_coded(units: Seq<Seq<u8>>) -> Seq<u8>
    decreases units.len(),
{
    if units.len() == 0 {
        Seq::empty()
    } else {
        start_coded(units.drop_last()) + start_code() + units.last()
    }
}

/// The units, each after its length in four bytes.
pub open spec fn length_prefixed(units: Seq<Seq<u8>>) -> Seq<u8>
    decreases units.len(),
{
    if units.len() == 0 {
        Seq::empty()
    } else {
        length_prefixed(units.drop_last()) + be32(units.last().len() as u32) + units.last()
    }
}

/// The units of a length-prefixed stream, up to the first one that is cut short.
pub open spec fn units_of(s: Seq<u8>) -> Seq<Seq<u8>>
    decreases s.len(),
{
    if s.len() < 4 || 4 + read32(s) > s.len() {
        Seq::empty()
    } else {
        let n = read32(s) as int;
        seq![s.subrange(4, 4 + n)] + units_of(s.skip(4 + n))
    }
}

pub open spec fn sets_of(v: Seq<Vec<u8>>) -> Seq<Seq<u8>> {
    v.map_values(|p: Vec<u8>| p@)
}

fn push_start_code(out: &mut Vec<u8>)
    ensures
        final(out)@ == old(out)@ + start_code(),
{
    out.push(0);
    out.push(0);
    out.push(0);
    out.push(1);
    assert(out@ =~= old(out)@ + start_code());
}

proof fn lemma_start_coded_push(units: Seq<Seq<u8>>, u: Seq<u8>)
    ensures
        start_coded(units.push(u)) == start_coded(units) + start_code() + u,
{
    assert(units.push(u).drop_last() =~= units);
}

/// Rewrites a frame from lengths to start codes, with the parameter sets in front of
/// a keyframe.
pub fn avcc_to_annex_b(avcc: &[u8], parameter_sets: &[Vec<u8>], is_keyframe: bool) -> (out: Vec<u8>)
    ensures
        out@ == (if is_keyframe {
            start_coded(sets_of(parameter_sets@))
        } else {
            Seq::empty()
        }) + start_coded(units_of(avcc@)),
{
    let len: usize = avcc.len();
    let mut out: Vec<u8> = Vec::new();
    let ghost sets = sets_of(parameter_sets@);
    if is_keyframe {
        let mut k: usize = 0;
        assert(sets.take(0) =~= Seq::<Seq<u8>>::empty());
        while k < parameter_sets.len()
            invariant
                k <= parameter_sets@.len(),
                sets == sets_of(parameter_sets@),
                out@ == start_coded(sets.take(k as int)),
            decreases parameter_sets@.len() - k,
        {
            push_start_code(&mut out);
            append_bytes(&mut out, parameter_sets[k].as_slice());
            proof {
                lemma_start_coded_push(sets.take(k as int), sets[k as int]);
                assert(sets.take(k + 1) =~= sets.take(k as int).push(sets[k as int]));
            }
            k = k + 1;
        }
        assert(sets.take(k as int) =~= sets);
    }
    let ghost head = out@;
    let ghost mut done: Seq<Seq<u8>> = Seq::empty();
    let mut i: usize = 0;
    proof {
        assert(avcc@.skip(0) =~= avcc@);
        assert(done + units_of(avcc@) =~= units_of(avcc@));
        assert(head + start_coded(done) =~= head);
    }
    loop
        invariant
            i <= len,
            avcc@.len() == len,
            units_of(avcc@) == done + units_of(avcc@.skip(i as int)),
            out@ == head + start_coded(done),
        ensures
            out@ == head + start_coded(units_of(avcc@)),
        decreases len - i,
    {
        let ghost rest = avcc@.skip(i as int);
        if len - i < 4 {
            assert(done + units_of(rest) =~= done);
            break;
        }
        let nal_len: usize = be32_at(avcc, i) as usize;
        if nal_len > len - i - 4 {
            assert(done + units_of(rest) =~= done);
            break;
        }
        let from: usize = i + 4;
        push_start_code(&mut out);
        append_bytes(&mut out, vstd::slice::slice_subrange(avcc, from, from + nal_len));
        proof {
            let u = rest.subrange(4, 4 + nal_len);
            assert(avcc@.subrange(from as int, from + nal_len) =~= u);
            lemma_start_coded_push(done, u);
            assert(rest.skip(4 + nal_len) =~= avcc@.skip(from + nal_len));
            assert(done + (seq![u] + units_of(rest.skip(4 + nal_len))) =~= done.push(u) + units_of(
                rest.skip(4 + nal_len),
            ));
            assert(out@ =~= head + (start_coded(done) + start_code() + u));
            done = done.push(u);
        }
        i = from + nal_len;
    }
    assert(out@ =~= (if is_keyframe {
        start_coded(sets)
    } else {
        Seq::empty()
    }) + start_coded(units_of(avcc@)));
    out
}

/// A frame as it goes out.
pub open spec fn payload(wire: WireFormat, data: Seq<u8>, sets: Seq<Seq<u8>>, is_keyframe: bool) -> Seq<
    u8,
> {
    match wire {
        WireFormat::LengthPrefixed => if is_keyframe {
            length_prefixed(sets) + data
        } else {
            data
        },
        WireFormat::AnnexB => (if is_keyframe {
            start_coded(sets)
        } else {
            Seq::empty()
        }) + start_coded(units_of(data)),
    }
}

pub fn frame_payload(wire: WireFormat, f: &EncodedFrame) -> (out: Vec<u8>)
    ensures
        out@ == payload(wire, f.data@, sets_of(f.parameter_sets@), f.is_keyframe),
{
    match wire {
        WireFormat::LengthPrefixed => {
            let mut out: Vec<u8> = Vec::new();
            let ghost sets = sets_of(f.parameter_sets@);
            if f.is_keyframe {
                let mut k: usize = 0;
                assert(sets.take(0) =~= Seq::<Seq<u8>>::empty());
                while k < f.parameter_sets.len()
                    invariant
                        k <= f.parameter_sets@.len(),
                        sets == sets_of(f.parameter_sets@),
                        out@ == length_prefixed(sets.take(k as int)),
                    decreases f.parameter_sets@.len() - k,
                {
                    push_be32(&mut out, f.parameter_sets[k].len() as u32);
                    append_bytes(&mut out, f.parameter_sets[k].as_slice());
                    proof {
                        assert(sets.take(k + 1) =~= sets.take(k as int).push(sets[k as int]));
                        assert(sets.take(k + 1).drop_last() =~= sets.take(k as int));
                    }
                    k = k + 1;
                }
                assert(sets.take(k as int) =~= sets);
            }
            append_bytes(&mut out, f.data.as_slice());
            assert(out@ =~= payload(wire, f.data@, sets, f.is_keyframe));
            out
        },
        WireFormat::AnnexB => avcc_to_annex_b(
            f.data.as_slice(),
            f.parameter_sets.as_slice(),
            f.is_keyframe,
        ),
    }
}

/// Splitting a length-prefixed stream gives back the units it was made of.
pub proof fn length_prefixes_round_trip(units: Seq<Seq<u8>>)
    requires
        forall|i: int| 0 <= i < units.len() ==> #[trigger] units[i].len() <= u32::MAX,
    ensures
        units_of(length_prefixed(units)) == units,
    decreases units.len(),
{
    lemma_units_then(units, Seq::empty());
    assert(length_prefixed(units) + Seq::<u8>::empty() =~= length_prefixed(units));
    assert(units + units_of(Seq::<u8>::empty()) =~= units);
}

proof fn lemma_units_then(units: Seq<Seq<u8>>, tail: Seq<u8>)
    requires
        forall|i: int| 0 <= i < units.len() ==> #[trigger] units[i].len() <= u32::MAX,
    ensures
        units_of(length_prefixed(units) + tail) == units + units_of(tail),
    decreases units.len(),
{
    if units.len() == 0 {
        assert(length_prefixed(units) + tail =~= tail);
        assert(units + units_of(tail) =~= units_of(tail));
    } else {
        let u = units.last();
        let front = units.drop_last();
        let n = u.len() as u32;
        let t = be32(n) + u + tail;
        assert forall|i: int| 0 <= i < front.len() implies #[trigger] front[i].len()
            <= u32::MAX by {
            assert(front[i] == units[i]);
        }
        lemma_units_then(front, t);
        assert(length_prefixed(units) + tail =~= length_prefixed(front) + t);
        assert(t.len() == 4 + n + tail.len());
        assert(t[0] == be32(n)[0] && t[1] == be32(n)[1] && t[2] == be32(n)[2] && t[3] == be32(n)[3]);
        crate::wire::numbers_round_trip(0, n);
        assert(read32(t) == n);
        assert(t.subrange(4, 4 + n) =~= u);
        assert(t.skip(4 + n) =~= tail);
        assert(front + (seq![u] + units_of(tail)) =~= units + units_of(tail));
    }
}

/// A request for a keyframe is never lost: it stands until a frame is encoded, and
/// that frame is the keyframe.
pub proof fn keyframe_requests_stand(
    c: ConnectionContext,
    cfg: GfxConfig,
    link: Link,
    now: Instant,
)
    ensures
        prepared(c, cfg, link, now, true).need_keyframe,
        c.need_keyframe ==> prepared(c, cfg, link, now, false).need_keyframe,
        gated(c, cfg, link, now).0 is Drop ==> gated(c, cfg, link, now).1.need_keyframe
            == c.need_keyframe,
        gated(c, cfg, link, now).0 matches Gate::Encode { force_keyframe } ==> force_keyframe
            == c.need_keyframe && !gated(c, cfg, link, now).1.need_keyframe,
{
}

/// The video leaves a transport once: a connection that was moved back stays there.
pub proof fn demigration_happens_once(
    c: ConnectionContext,
    cfg: GfxConfig,
    link: Link,
    now: Instant,
    request_keyframe: bool,
)
    ensures
        c.demigrated ==> !demigrates(c, cfg, link, now),
        c.demigrated ==> prepared(c, cfg, link, now, request_keyframe).demigrated,
        demigrates(c, cfg, link, now) ==> prepared(c, cfg, link, now, request_keyframe).demigrated
            && !lagging(prepared(c, cfg, link, now, request_keyframe), cfg, link),
        c.demigrated ==> gated(c, cfg, link, now).1.demigrated,
{
}

/// Recoveries keep their distance: none follows another within the least interval.
pub proof fn recoveries_keep_their_distance(
    c: ConnectionContext,
    cfg: GfxConfig,
    link: Link,
    first: Instant,
    second: Instant,
    request_keyframe: bool,
)
    requires
        recovers(c, cfg, link, first),
        since(second, first) < cfg.recovery_params.min_recovery_interval@,
    ensures
        !recovers(prepared(c, cfg, link, first, request_keyframe), cfg, link, second),
{
}

/// A client that has suspended its acknowledgements is neither recovered, nor moved,
/// nor held back.
pub proof fn suspended_acks_change_nothing(
    c: ConnectionContext,
    cfg: GfxConfig,
    link: Link,
    now: Instant,
)
    requires
        c.acks_suspended,
    ensures
        !recovers(c, cfg, link, now),
        !demigrates(c, cfg, link, now),
        !lagging(c, cfg, link),
{
}

/// A frame is encoded only while fewer than the allowed number are under way.
pub proof fn frames_in_flight_are_bounded(
    c: ConnectionContext,
    cfg: GfxConfig,
    link: Link,
    now: Instant,
)
    ensures
        gated(c, cfg, link, now).0 is Encode ==> less(c.submitted, c.shipped)
            < cfg.max_in_flight,
{
}

/// The bitrate stays between its floor and its ceiling.
pub proof fn bitrate_stays_in_range(
    current: u32,
    loss_delta: u64,
    floor_bps: u32,
    ceiling_bps: u32,
    increase_bps: u32,
    decreased: u32,
)
    requires
        floor_bps <= current <= ceiling_bps,
        decreased <= current,
    ensures
        floor_bps <= next_bitrate(
            current,
            loss_delta,
            floor_bps,
            ceiling_bps,
            increase_bps,
            decreased,
        ) <= ceiling_bps,
        loss_delta > 0 ==> next_bitrate(
            current,
            loss_delta,
            floor_bps,
            ceiling_bps,
            increase_bps,
            decreased,
        ) <= current,
        loss_delta == 0 ==> next_bitrate(
            current,
            loss_delta,
            floor_bps,
            ceiling_bps,
            increase_bps,
            decreased,
        ) >= current,
{
}

/// While the client lags and there is room for a frame, one that comes a tenth of a second
/// or more after the last such frame is encoded, and the wait starts anew; one that comes
/// sooner is skipped, and nothing changes.
pub proof fn lagging_clients_get_a_trickle(
    c: ConnectionContext,
    cfg: GfxConfig,
    link: Link,
    now: Instant,
)
    requires
        link.on_udp,
        c.egfx_acks_seen,
        !c.acks_suspended,
        c.last_shipped_frame_id > c.last_acked_frame_id + cfg.max_frame_lag,
        cfg.max_in_flight > 0,
        c.submitted < c.shipped + cfg.max_in_flight,
    ensures
        now.nanos >= c.last_throttle_ship.nanos + 100_000_000 ==> gated(c, cfg, link, now) == (
            Gate::Encode { force_keyframe: c.need_keyframe },
            ConnectionContext { need_keyframe: false, last_throttle_ship: now, ..c },
        ),
        now.nanos < c.last_throttle_ship.nanos + 100_000_000 ==> gated(c, cfg, link, now) == (
            Gate::Drop,
            c,
        ),
{
}

/// A client that does not lag gets every frame for which there is room: one on the main
/// connection, one that never acknowledged a frame or says that it will not, and one that
/// is no more than the allowed number of frames behind.
pub proof fn other_clients_get_every_frame(
    c: ConnectionContext,
    cfg: GfxConfig,
    link: Link,
    now: Instant,
)
    requires
        !link.on_udp || !c.egfx_acks_seen || c.acks_suspended || c.last_shipped_frame_id
            <= c.last_acked_frame_id + cfg.max_frame_lag,
        cfg.max_in_flight > 0,
        c.submitted < c.shipped + cfg.max_in_flight,
    ensures
        gated(c, cfg, link, now) == (
            Gate::Encode { force_keyframe: c.need_keyframe },
            ConnectionContext { need_keyframe: false, ..c },
        ),
{
}

/// With the allowed number of frames under way a frame is skipped, and nothing changes.
pub proof fn no_frame_without_room(
    c: ConnectionContext,
    cfg: GfxConfig,
    link: Link,
    now: Instant,
)
    requires
        c.submitted >= c.shipped + cfg.max_in_flight || cfg.max_in_flight == 0,
    ensures
        gated(c, cfg, link, now) == (Gate::Drop, c),
{
}

/// The state after frames came at these times, none of them acknowledged.
pub open spec fn after_frames(
    c: ConnectionContext,
    cfg: GfxConfig,
    link: Link,
    times: Seq<Instant>,
) -> ConnectionContext
    decreases times.len(),
{
    if times.len() == 0 {
        c
    } else {
        gated(after_frames(c, cfg, link, times.drop_last()), cfg, link, times.last()).1
    }
}

/// Whether frame `i` of these was encoded.
pub open spec fn went_out(
    c: ConnectionContext,
    cfg: GfxConfig,
    link: Link,
    times: Seq<Instant>,
    i: int,
) -> bool {
    gated(after_frames(c, cfg, link, times.take(i)), cfg, link, times[i]).0 is Encode
}

/// What a client that lags and has room keeps over a run of frames.
spec fn lags_with_room(c: ConnectionContext, cfg: GfxConfig, link: Link) -> bool {
    &&& link.on_udp
    &&& c.egfx_acks_seen
    &&& !c.acks_suspended
    &&& c.last_shipped_frame_id > c.last_acked_frame_id + cfg.max_frame_lag
    &&& cfg.max_in_flight > 0
    &&& c.submitted < c.shipped + cfg.max_in_flight
}

proof fn lemma_still_lags(c: ConnectionContext, cfg: GfxConfig, link: Link, times: Seq<Instant>)
    requires
        lags_with_room(c, cfg, link),
    ensures
        lags_with_room(after_frames(c, cfg, link, times), cfg, link),
    decreases times.len(),
{
    if times.len() > 0 {
        lemma_still_lags(c, cfg, link, times.drop_last());
    }
}

/// The last frame that went out is the one that the state remembers.
proof fn lemma_last_trickle(
    c: ConnectionContext,
    cfg: GfxConfig,
    link: Link,
    times: Seq<Instant>,
    i: int,
    j: int,
)
    requires
        lags_with_room(c, cfg, link),
        0 <= i < j <= times.len(),
        went_out(c, cfg, link, times, i),
        forall|a: int, b: int| 0 <= a <= b < times.len() ==> times[a].nanos <= times[b].nanos,
    ensures
        after_frames(c, cfg, link, times.take(j)).last_throttle_ship.nanos >= times[i].nanos,
    decreases j - i,
{
    let before = times.take(j - 1);
    assert(times.take(j).drop_last() =~= before);
    assert(times.take(j).last() == times[j - 1]);
    lemma_still_lags(c, cfg, link, before);
    if i < j - 1 {
        lemma_last_trickle(c, cfg, link, times, i, j - 1);
    }
}

/// Over a run of frames to a client that lags, a tenth of a second lies between any two
/// that go out.
pub proof fn trickling_frames_keep_their_distance(
    c: ConnectionContext,
    cfg: GfxConfig,
    link: Link,
    times: Seq<Instant>,
    i: int,
    j: int,
)
    requires
        link.on_udp,
        c.egfx_acks_seen,
        !c.acks_suspended,
        c.last_shipped_frame_id > c.last_acked_frame_id + cfg.max_frame_lag,
        cfg.max_in_flight > 0,
        c.submitted < c.shipped + cfg.max_in_flight,
        forall|a: int, b: int| 0 <= a <= b < times.len() ==> times[a].nanos <= times[b].nanos,
        0 <= i < j < times.len(),
        went_out(c, cfg, link, times, i),
        went_out(c, cfg, link, times, j),
    ensures
        times[j].nanos >= times[i].nanos + 100_000_000,
{
    lemma_last_trickle(c, cfg, link, times, i, j);
    lemma_still_lags(c, cfg, link, times.take(j));
}

/// And the video never freezes: a frame that comes a tenth of a second or more after all
/// those that went out before it, and after the last one before the run, goes out.
pub proof fn trickling_frames_never_stop(
    c: ConnectionContext,
    cfg: GfxConfig,
    link: Link,
    times: Seq<Instant>,
    j: int,
)
    requires
        link.on_udp,
        c.egfx_acks_seen,
        !c.acks_suspended,
        c.last_shipped_frame_id > c.last_acked_frame_id + cfg.max_frame_lag,
        cfg.max_in_flight > 0,
        c.submitted < c.shipped + cfg.max_in_flight,
        0 <= j < times.len(),
        times[j].nanos >= c.last_throttle_ship.nanos + 100_000_000,
        forall|i: int|
            0 <= i < j && #[trigger] went_out(c, cfg, link, times, i) ==> times[j].nanos
                >= times[i].nanos + 100_000_000,
    ensures
        went_out(c, cfg, link, times, j),
{
    lemma_remembered(c, cfg, link, times, j, j);
    lemma_still_lags(c, cfg, link, times.take(j));
}

proof fn lemma_remembered(
    c: ConnectionContext,
    cfg: GfxConfig,
    link: Link,
    times: Seq<Instant>,
    k: int,
    j: int,
)
    requires
        lags_with_room(c, cfg, link),
        0 <= k <= j < times.len(),
        times[j].nanos >= c.last_throttle_ship.nanos + 100_000_000,
        forall|i: int|
            0 <= i < j && #[trigger] went_out(c, cfg, link, times, i) ==> times[j].nanos
                >= times[i].nanos + 100_000_000,
    ensures
        times[j].nanos >= after_frames(c, cfg, link, times.take(k)).last_throttle_ship.nanos
            + 100_000_000,
    decreases k,
{
    if k > 0 {
        lemma_remembered(c, cfg, link, times, k - 1, j);
        assert(times.take(k).drop_last() =~= times.take(k - 1));
        assert(times.take(k).last() == times[k - 1]);
        lemma_still_lags(c, cfg, link, times.take(k - 1));
        let w = went_out(c, cfg, link, times, k - 1);
    }
}

/// An acknowledgement of the last frame ends the lag: the next frame for which there is
/// room goes out. So does saying that no more acknowledgements come.
pub proof fn acknowledging_ends_the_lag(
    c: ConnectionContext,
    cfg: GfxConfig,
    link: Link,
    now: Instant,
    frame_id: u32,
    queue_depth: u32,
)
    requires
        cfg.max_in_flight > 0,
        c.submitted < c.shipped + cfg.max_in_flight,
    ensures
        gated(acked(frame_sent(c, frame_id), now, frame_id, queue_depth), cfg, link, now).0
            is Encode,
        gated(acked(c, now, frame_id, 0xFFFF_FFFF), cfg, link, now).0 is Encode,
        acked(c, now, frame_id, queue_depth).last_ack_at == now,
        queue_depth < 0xFFFF_FFFF ==> !acked(c, now, frame_id, queue_depth).acks_suspended && acked(
            c,
            now,
            frame_id,
            queue_depth,
        ).egfx_acks_seen,
        acked(c, now, frame_id, 0xFFFF_FFFF).last_acked_frame_id == c.last_acked_frame_id,
{
}

/// A client falls behind frame by frame: with the last frame acknowledged, the frame that
/// is one beyond the allowed number makes it lag.
pub proof fn unacknowledged_frames_make_a_lag(
    c: ConnectionContext,
    cfg: GfxConfig,
    now: Instant,
    frame_id: u32,
    sent: u32,
    on_lossy: bool,
)
    requires
        cfg.max_in_flight > 0,
        c.submitted < c.shipped + cfg.max_in_flight,
        sent > frame_id,
    ensures
        gated(
            ConnectionContext { last_throttle_ship: now, ..frame_sent(acked(c, now, frame_id, 0), sent) },
            cfg,
            Link { on_udp: true, on_lossy },
            now,
        ).0 is Drop <==> sent - frame_id > cfg.max_frame_lag,
{
}

/// A frame that is encoded and shipped leaves as many under way as before; one that is
/// only encoded leaves one more.
pub proof fn frames_under_way_are_counted(c: ConnectionContext, frames: u64)
    requires
        c.submitted < u64::MAX,
        c.shipped + frames <= u64::MAX,
    ensures
        encoded(c).submitted - encoded(c).shipped == c.submitted - c.shipped + 1,
        batch_shipped(c, frames).submitted - batch_shipped(c, frames).shipped == c.submitted
            - c.shipped - frames,
        with_encoder(c).submitted == with_encoder(c).shipped,
{
}

/// A client is asked for nothing until it said that it can decode the video; after that
/// the first frame is a keyframe, and finds the surface and the encoder to be set up. The
/// same holds after the channel was closed and opened again.
pub proof fn video_starts_from_a_keyframe(
    now: Instant,
    bitrate_bps: u32,
    retransmits: u64,
    c: ConnectionContext,
    cfg: GfxConfig,
    link: Link,
    size: DesktopSize,
    surface_id: u16,
)
    ensures
        preparation(opened(now, bitrate_bps, retransmits), cfg, link, now) is NotReady,
        preparation(readied(opened(now, bitrate_bps, retransmits)), cfg, link, now) is NotReady,
        preparation(closed_down(c), cfg, link, now) is NotReady,
        c.client_supports_avc ==> readied(c).need_keyframe && (preparation(
            readied(closed_down(c)),
            cfg,
            link,
            now,
        ) matches Prepare::Ready { setup_surface, setup_encoder, .. } && setup_surface
            && setup_encoder),
        preparation(surfaced(readied(c), surface_id, size), cfg, link, now) matches Prepare::Ready {
            setup_surface,
            ..
        } ==> !setup_surface,
        preparation(with_encoder(readied(c)), cfg, link, now) matches Prepare::Ready {
            setup_encoder,
            ..
        } ==> !setup_encoder,
        !c.client_supports_avc ==> preparation(readied(c), cfg, link, now) is NotReady,
{
}

/// Batches go to the surface that was made, at its size, and the time is noted; without a
/// surface none goes out.
pub proof fn batches_go_to_the_surface(
    c: ConnectionContext,
    surface_id: u16,
    size: DesktopSize,
    now: Instant,
)
    ensures
        shipping(Some(surfaced(c, surface_id, size)), now).0 matches Ok(t) && t.surface_id
            == surface_id && t.dims == size && t.epoch == c.epoch,
        shipping(Some(surfaced(c, surface_id, size)), now).1 matches Some(d) && d.last_ship_at == now,
        shipping(Some(closed_down(c)), now) == (
            Err::<ShipTarget, ShipError>(ShipError::NoSurface),
            Some(closed_down(c)),
        ),
        shipping(None, now).0 == Err::<ShipTarget, ShipError>(ShipError::NoConnection),
{
}

/// Only the sets of the versions that name H.264 allow it, and one such set is enough.
pub proof fn one_able_set_is_enough(c: ConnectionContext, caps: Seq<CapabilitySet>, i: int, off: bool)
    requires
        0 <= i < caps.len(),
    ensures
        caps[i] == (CapabilitySet::V8_1 { avc420_enabled: true }) ==> told(c, caps).client_supports_avc,
        caps[i] == (CapabilitySet::V10 { avc_disabled: false }) ==> told(c, caps).client_supports_avc,
        caps[i] == (CapabilitySet::V10_2 { avc_disabled: false }) ==> told(c, caps).client_supports_avc,
        caps[i] == (CapabilitySet::V10_3 { avc_disabled: false }) ==> told(c, caps).client_supports_avc,
        caps[i] == (CapabilitySet::V10_4 { avc_disabled: false }) ==> told(c, caps).client_supports_avc,
        caps[i] == (CapabilitySet::V10_5 { avc_disabled: false }) ==> told(c, caps).client_supports_avc,
        caps[i] == (CapabilitySet::V10_6 { avc_disabled: false }) ==> told(c, caps).client_supports_avc,
        caps[i] == (CapabilitySet::V10_6Err { avc_disabled: false }) ==> told(c, caps).client_supports_avc,
        caps[i] == (CapabilitySet::V10_7 { avc_disabled: false }) ==> told(c, caps).client_supports_avc,
        (forall|k: int|
            0 <= k < caps.len() ==> #[trigger] caps[k] is V8 || caps[k] is V10_1 || caps[k]
                == (CapabilitySet::V8_1 { avc420_enabled: false }) || caps[k]
                == (CapabilitySet::V10 { avc_disabled: true }) || caps[k]
                == (CapabilitySet::V10_2 { avc_disabled: true }) || caps[k]
                == (CapabilitySet::V10_3 { avc_disabled: true }) || caps[k]
                == (CapabilitySet::V10_4 { avc_disabled: true }) || caps[k]
                == (CapabilitySet::V10_5 { avc_disabled: true }) || caps[k]
                == (CapabilitySet::V10_6 { avc_disabled: true }) || caps[k]
                == (CapabilitySet::V10_6Err { avc_disabled: true }) || caps[k]
                == (CapabilitySet::V10_7 { avc_disabled: true })) ==> !told(c, caps).client_supports_avc,
{
    assert(allows_avc(caps[i]) ==> told(c, caps).client_supports_avc);
}

/// A stalled client on a lossy transport is recovered with a keyframe: frames went out
/// lately, no acknowledgement came for the stall time, and the last recovery is the least
/// interval ago. Where one of these does not hold, no recovery is noted.
pub proof fn stalled_clients_are_recovered(
    c: ConnectionContext,
    cfg: GfxConfig,
    link: Link,
    now: Instant,
)
    requires
        now.nanos >= c.last_ship_at.nanos,
        now.nanos >= c.last_ack_at.nanos,
        now.nanos >= c.last_recovery_at.nanos,
    ensures
        cfg.recovery_enabled && link.on_lossy && !c.acks_suspended && now.nanos
            - c.last_ship_at.nanos <= cfg.recovery_params.active_window.nanos && now.nanos
            - c.last_ack_at.nanos >= cfg.recovery_params.ack_stall.nanos && now.nanos
            - c.last_recovery_at.nanos >= cfg.recovery_params.min_recovery_interval.nanos
            ==> prepared(c, cfg, link, now, false).need_keyframe && prepared(
            c,
            cfg,
            link,
            now,
            false,
        ).last_recovery_at == now,
        !cfg.recovery_enabled || !link.on_lossy || c.acks_suspended || now.nanos
            - c.last_ship_at.nanos > cfg.recovery_params.active_window.nanos || now.nanos
            - c.last_ack_at.nanos < cfg.recovery_params.ack_stall.nanos || now.nanos
            - c.last_recovery_at.nanos < cfg.recovery_params.min_recovery_interval.nanos
            ==> prepared(c, cfg, link, now, false).last_recovery_at == c.last_recovery_at,
{
}

/// A client that stopped answering on reliable UDP is moved back to the main connection,
/// where it counts as having acknowledged everything and gets a keyframe; any other stays.
pub proof fn wedged_clients_are_moved(
    c: ConnectionContext,
    cfg: GfxConfig,
    link: Link,
    now: Instant,
    request_keyframe: bool,
)
    requires
        c.is_ready,
        now.nanos >= c.last_ship_at.nanos,
        now.nanos >= c.last_ack_at.nanos,
    ensures
        cfg.watchdog_enabled && link.on_udp && !link.on_lossy && !c.demigrated && !c.acks_suspended
            && now.nanos - c.last_ship_at.nanos <= cfg.watchdog_active_window.nanos && now.nanos
            - c.last_ack_at.nanos >= cfg.watchdog_wedge_timeout.nanos ==> {
            let d = prepared(c, cfg, link, now, request_keyframe);
            &&& preparation(c, cfg, link, now) matches Prepare::Ready { demigrate, .. } && demigrate
            &&& d.need_keyframe
            &&& d.demigrated
            &&& d.last_acked_frame_id == c.last_shipped_frame_id
        },
        !cfg.watchdog_enabled || !link.on_udp || link.on_lossy || c.demigrated || c.acks_suspended
            || now.nanos - c.last_ship_at.nanos > cfg.watchdog_active_window.nanos || now.nanos
            - c.last_ack_at.nanos < cfg.watchdog_wedge_timeout.nanos ==> {
            let d = prepared(c, cfg, link, now, request_keyframe);
            &&& preparation(c, cfg, link, now) matches Prepare::Ready { demigrate, .. } && !demigrate
            &&& d.demigrated == c.demigrated
            &&& d.last_acked_frame_id == c.last_acked_frame_id
        },
{
}

/// A frame is no keyframe for nothing: without a request, a recovery or a move the need
/// for one stays as it was.
pub proof fn keyframes_need_a_reason(
    c: ConnectionContext,
    cfg: GfxConfig,
    link: Link,
    now: Instant,
    request_keyframe: bool,
)
    ensures
        request_keyframe || c.need_keyframe ==> prepared(c, cfg, link, now, request_keyframe).need_keyframe,
        !request_keyframe && !c.need_keyframe && !cfg.recovery_enabled && !cfg.watchdog_enabled
            ==> !prepared(c, cfg, link, now, request_keyframe).need_keyframe,
        !request_keyframe && !c.need_keyframe && prepared(c, cfg, link, now, request_keyframe).need_keyframe
            ==> link.on_udp || link.on_lossy,
        prepared(c, cfg, link, now, request_keyframe).last_throttle_ship == c.last_throttle_ship,
        prepared(c, cfg, link, now, request_keyframe).submitted == c.submitted,
        prepared(c, cfg, link, now, request_keyframe).shipped == c.shipped,
{
}

/// Without losses the bitrate grows by one step until it reaches the ceiling; after a loss
/// it is the decreased one, or the floor where that is higher.
pub proof fn bitrate_grows_by_steps_and_falls_at_once(
    current: u32,
    loss_delta: u64,
    floor_bps: u32,
    ceiling_bps: u32,
    increase_bps: u32,
    decreased: u32,
)
    ensures
        current + increase_bps <= ceiling_bps ==> next_bitrate(
            current,
            0,
            floor_bps,
            ceiling_bps,
            increase_bps,
            decreased,
        ) == current + increase_bps,
        current + increase_bps > ceiling_bps ==> next_bitrate(
            current,
            0,
            floor_bps,
            ceiling_bps,
            increase_bps,
            decreased,
        ) == ceiling_bps,
        loss_delta > 0 && decreased >= floor_bps ==> next_bitrate(
            current,
            loss_delta,
            floor_bps,
            ceiling_bps,
            increase_bps,
            decreased,
        ) == decreased,
        loss_delta > 0 && decreased < floor_bps ==> next_bitrate(
            current,
            loss_delta,
            floor_bps,
            ceiling_bps,
            increase_bps,
            decreased,
        ) == floor_bps,
{
}

/// The bitrate is steered on UDP only, where that is asked for, and once per interval: then
/// retransmissions since the last time lower it, and their absence raises it. The encoder
/// is told a bitrate exactly when it changes, and it is the one that is kept.
pub proof fn bitrate_follows_the_losses(
    c: ConnectionContext,
    cfg: GfxConfig,
    on_udp: bool,
    now: Instant,
    retransmits: u64,
    decreased: u32,
)
    requires
        now.nanos >= c.adaptive_last_control.nanos,
    ensures
        !cfg.adaptive_enabled || !on_udp || now.nanos - c.adaptive_last_control.nanos
            < cfg.adaptive_interval.nanos ==> steered(c, cfg, on_udp, now, retransmits, decreased)
            == (None::<u32>, c),
        cfg.adaptive_enabled && on_udp && now.nanos - c.adaptive_last_control.nanos
            >= cfg.adaptive_interval.nanos ==> {
            let (told, d) = steered(c, cfg, on_udp, now, retransmits, decreased);
            &&& d.adaptive_last_control == now
            &&& d.adaptive_last_retransmits == retransmits
            &&& told is Some <==> d.adaptive_target_bps != c.adaptive_target_bps
            &&& told matches Some(bps) ==> bps == d.adaptive_target_bps
            &&& retransmits > c.adaptive_last_retransmits ==> d.adaptive_target_bps == (if decreased
                >= cfg.adaptive_floor_bps {
                decreased
            } else {
                cfg.adaptive_floor_bps
            })
            &&& retransmits <= c.adaptive_last_retransmits && c.adaptive_target_bps
                + cfg.adaptive_increase_bps <= cfg.bitrate_bps ==> d.adaptive_target_bps
                == c.adaptive_target_bps + cfg.adaptive_increase_bps
            &&& retransmits <= c.adaptive_last_retransmits && c.adaptive_target_bps
                + cfg.adaptive_increase_bps > cfg.bitrate_bps && cfg.bitrate_bps > 0
                ==> d.adaptive_target_bps == cfg.bitrate_bps
            &&& d.need_keyframe == c.need_keyframe && d.submitted == c.submitted && d.shipped
                == c.shipped
        },
{
}

/// On the wire every unit of a frame follows four bytes: a start code, which is three
/// zeros and a one, or its own length. A keyframe has its parameter sets in front, and any
/// other frame has none.
pub proof fn units_are_marked_on_the_wire(units: Seq<Seq<u8>>, set: Seq<u8>)
    requires
        forall|i: int| 0 <= i < units.len() ==> #[trigger] units[i].len() <= u32::MAX,
        set.len() <= u32::MAX,
    ensures
        payload(WireFormat::LengthPrefixed, length_prefixed(units), seq![set], false)
            == length_prefixed(units),
        payload(WireFormat::LengthPrefixed, length_prefixed(units), seq![set], true)
            == length_prefixed(seq![set] + units),
        payload(WireFormat::AnnexB, length_prefixed(units), seq![set], false) == start_coded(units),
        payload(WireFormat::AnnexB, length_prefixed(units), seq![set], true) == start_coded(
            seq![set] + units,
        ),
        start_coded(seq![set]) == seq![0u8, 0u8, 0u8, 1u8] + set,
        start_coded(seq![set] + units) == seq![0u8, 0u8, 0u8, 1u8] + set + start_coded(units),
        length_prefixed(seq![set]).len() == 4 + set.len(),
        length_prefixed(seq![set]).skip(4) == set,
        length_prefixed(seq![set])[0] * 0x100_0000 + length_prefixed(seq![set])[1] * 0x1_0000
            + length_prefixed(seq![set])[2] * 0x100 + length_prefixed(seq![set])[3] == set.len(),
{
    let one = seq![set];
    length_prefixes_round_trip(units);
    lemma_start_coded_front(set, units);
    lemma_length_prefixed_front(set, units);
    assert(one.drop_last() =~= Seq::<Seq<u8>>::empty());
    assert(one.last() == set);
    assert(start_coded(one.drop_last()) =~= Seq::<u8>::empty());
    assert(length_prefixed(one.drop_last()) =~= Seq::<u8>::empty());
    assert(start_coded(one) =~= start_code() + set);
    assert(length_prefixed(one) =~= be32(set.len() as u32) + set);
    assert(Seq::<u8>::empty() + start_coded(units) =~= start_coded(units));
    assert(length_prefixed(one).skip(4) =~= set);
    crate::wire::numbers_are_big_endian(0, set.len() as u32);
}

proof fn lemma_start_coded_front(set: Seq<u8>, units: Seq<Seq<u8>>)
    ensures
        start_coded(seq![set] + units) == start_code() + set + start_coded(units),
    decreases units.len(),
{
    let all = seq![set] + units;
    if units.len() == 0 {
        assert(all.drop_last() =~= Seq::<Seq<u8>>::empty());
        assert(all.last() == set);
        assert(start_coded(all.drop_last()) =~= Seq::<u8>::empty());
        assert(start_coded(all) =~= start_code() + set + start_coded(units));
    } else {
        assert(all.drop_last() =~= seq![set] + units.drop_last());
        lemma_start_coded_front(set, units.drop_last());
        assert(start_coded(all) =~= start_code() + set + start_coded(units));
    }
}

proof fn lemma_length_prefixed_front(set: Seq<u8>, units: Seq<Seq<u8>>)
    ensures
        length_prefixed(seq![set] + units) == length_prefixed(seq![set]) + length_prefixed(units),
    decreases units.len(),
{
    let all = seq![set] + units;
    if units.len() == 0 {
        assert(all =~= seq![set]);
        assert(length_prefixed(seq![set]) + length_prefixed(units) =~= length_prefixed(seq![set]));
    } else {
        assert(all.drop_last() =~= seq![set] + units.drop_last());
        lemma_length_prefixed_front(set, units.drop_last());
        assert(length_prefixed(all) =~= length_prefixed(seq![set]) + length_prefixed(units));
    }
}

/// A frame's region holds exactly the pixels of the surface.
pub proof fn a_frame_covers_its_surface(dims: DesktopSize, x: int, y: int)
    requires
        dims.width > 0,
        dims.height > 0,
    ensures
        region_of(dims).left <= x <= region_of(dims).right && region_of(dims).top <= y <= region_of(
            dims,
        ).bottom <==> 0 <= x < dims.width && 0 <= y < dims.height,
        region_of(dims).quantization_parameter == 22,
        region_of(dims).quality == 100,
{
}

/// Time stamps start at 0 and advance by one with each millisecond, up to the last one
/// before the largest `u32`; then they start again.
pub proof fn timestamps_count_milliseconds(nanos: nat)
    ensures
        nanos < 1_000_000 ==> timestamp_at(nanos) == 0,
        timestamp_at(nanos) < 0xFFFF_FFFE ==> timestamp_at(nanos + 1_000_000) == timestamp_at(nanos)
            + 1,
        timestamp_at(nanos) >= 0xFFFF_FFFE ==> timestamp_at(nanos + 1_000_000) == 0,
        nanos < 0xFFFF_FFFF * 1_000_000 ==> 1_000_000 * timestamp_at(nanos) <= nanos < 1_000_000 * (
        timestamp_at(nanos) + 1),
{
    assert((nanos + 1_000_000) / 1_000_000 == nanos / 1_000_000 + 1);
    if nanos < 0xFFFF_FFFF * 1_000_000 {
        assert(nanos / 1_000_000 < 0xFFFF_FFFF);
        assert((nanos / 1_000_000) % 0xFFFF_FFFF == nanos / 1_000_000);
    }
}

/// With none of the variables set the settings are these: annex B, no recovery but its
/// times at hand, a lag of 16 frames, a watchdog of 3 seconds, a floor of an eighth of the
/// bitrate and steps of a sixteenth.
pub proof fn settings_have_defaults(c: GfxConfig, env: &Environment)
    requires
        c.read_from(env),
        env.vars@.len() == 0,
    ensures
        c.wire_format is AnnexB,
        !c.recovery_enabled,
        c.recovery_params.active_window.nanos == 500_000_000,
        c.recovery_params.ack_stall.nanos == 200_000_000,
        c.recovery_params.min_recovery_interval.nanos == 1_000_000_000,
        c.max_frame_lag == 16,
        c.watchdog_enabled,
        c.watchdog_wedge_timeout.nanos == 3_000_000_000,
        c.watchdog_active_window.nanos == 1_000_000_000,
        c.adaptive_interval.nanos == 300_000_000,
        c.bitrate_bps >= 4_000_000 ==> c.adaptive_floor_bps == c.bitrate_bps / 8
            && c.adaptive_increase_bps == c.bitrate_bps / 16,
        500_000 <= c.bitrate_bps < 4_000_000 ==> c.adaptive_floor_bps == 500_000
            && c.adaptive_increase_bps == 250_000,
        0 < c.bitrate_bps < 500_000 ==> c.adaptive_floor_bps == c.bitrate_bps,
{
}

/// Each variable sets its own setting.
pub proof fn settings_follow_their_variables(c: GfxConfig, env: &Environment, n: nat)
    requires
        c.read_from(env),
        0 < n <= u32::MAX,
    ensures
        env.value("MACRDP_UDP_EGFX_MAX_FRAME_LAG"@) == Some(crate::text::digits(n)) ==> c.max_frame_lag == n,
        env.value("MACRDP_UDP_EGFX_ACK_ACTIVE_MS"@) == Some(crate::text::digits(n))
            ==> c.recovery_params.active_window.nanos == n * 1_000_000,
        env.value("MACRDP_UDP_EGFX_ACK_STALL_MS"@) == Some(crate::text::digits(n))
            ==> c.recovery_params.ack_stall.nanos == n * 1_000_000,
        env.value("MACRDP_UDP_EGFX_ACK_RECOVERY_MS"@) == Some(crate::text::digits(n))
            ==> c.recovery_params.min_recovery_interval.nanos == n * 1_000_000,
        env.value("MACRDP_UDP_EGFX_WATCHDOG_MS"@) == Some(crate::text::digits(n))
            ==> c.watchdog_wedge_timeout.nanos == n * 1_000_000,
        env.value("MACRDP_UDP_EGFX_WATCHDOG_ACTIVE_MS"@) == Some(crate::text::digits(n))
            ==> c.watchdog_active_window.nanos == n * 1_000_000,
        env.value("MACRDP_UDP_ADAPTIVE_INTERVAL_MS"@) == Some(crate::text::digits(n))
            ==> c.adaptive_interval.nanos == n * 1_000_000,
        env.value("MACRDP_UDP_ADAPTIVE_INCREASE_BPS"@) == Some(crate::text::digits(n))
            ==> c.adaptive_increase_bps == n,
        env.value("MACRDP_UDP_ADAPTIVE_FLOOR_BPS"@) == Some(crate::text::digits(n)) && n
            <= c.bitrate_bps ==> c.adaptive_floor_bps == n,
{
    crate::env::plain_numbers_are_read(n, u32::MAX as int);
    crate::env::plain_numbers_are_read(n, u64::MAX as int);
}

} // verus!
