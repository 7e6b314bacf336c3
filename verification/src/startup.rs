//! What the command line and the environment ask for: the part a process plays, what it
//! refuses, and how a session is set up.
use crate::auth_guard::IpAddr;
use crate::capture::KeyframeOnChange;
use crate::env::Environment;
use crate::text::{chars_of, join_path, parse_decimal, parse_i32, string_of};
use crate::time::Duration;
use vstd::prelude::*;

verus! {

/// The size of the desktop where no display is found.
pub const FALLBACK_WIDTH: u16 = 1280;

pub const FALLBACK_HEIGHT: u16 = 720;

/// The command line.
#[derive(Debug)]
pub struct Args {
    pub bind_ip: IpAddr,
    pub width: Option<u16>,
    pub height: Option<u16>,
    pub hidpi: bool,
    pub fps: Option<u32>,
    pub username: Option<String>,
    pub password_given: bool,
    pub skip_auth: bool,
    pub keychain: bool,
    pub cert_dir: Option<String>,
    pub verbose: bool,
    pub allow_sleep: bool,
    pub virtual_display: bool,
    pub make_primary: bool,
    pub detach_primary: bool,
    pub capture_primary: bool,
    pub enable_h264: bool,
    /// In millions of bits per second.
    pub bitrate: u32,
    pub keyframe_on_change: bool,
    pub keyframe_change_pct: u64,
    pub keyframe_click_pct: u64,
    pub keyframe_click_window_ms: u64,
    pub h264_frames_in_flight: u32,
    pub no_lazy_paste: bool,
    pub no_mute_on_minimize: bool,
    pub enable_aac: bool,
    pub enable_drive_redirection: bool,
    pub enable_smartcard_redirection: bool,
    pub enable_udp_multitransport: bool,
    pub no_client_resolution: bool,
    pub app_switcher_hud: bool,
    pub fork_workers: bool,
}

/// Why a process does not start.
#[derive(Debug, Clone, Copy, PartialEq, Eq, Structural)]
pub enum StartError {
    /// Going headless needs a virtual display.
    HeadlessNeedsVirtualDisplay,
    MakePrimaryNeedsVirtualDisplay,
    DetachNeedsVirtualDisplay,
    CaptureNeedsVirtualDisplay,
    /// The two ways of going headless exclude each other.
    CaptureExcludesDetach,
    VirtualDisplayNeedsWidth,
    VirtualDisplayNeedsHeight,
    NoUsername,
    /// Without authentication only the machine itself may connect.
    SkipAuthNeedsLoopback,
    HomeNotSet,
}

/// What is logged.
#[derive(Debug, Clone, Copy, PartialEq, Eq, Structural)]
pub enum LogFilter {
    /// What the environment asks for.
    Environment,
    Debug,
    Default,
}

pub open spec fn filter_for(env_filter: bool, verbose: bool) -> LogFilter {
    if env_filter {
        LogFilter::Environment
    } else if verbose {
        LogFilter::Debug
    } else {
        LogFilter::Default
    }
}

pub fn log_filter(env_filter: bool, verbose: bool) -> (f: LogFilter)
    ensures
        f == filter_for(env_filter, verbose),
{
    if env_filter {
        LogFilter::Environment
    } else if verbose {
        LogFilter::Debug
    } else {
        LogFilter::Default
    }
}

/// The directives of a filter that the environment does not give.
pub open spec fn directives(f: LogFilter) -> Seq<char> {
    if f == LogFilter::Debug {
        "debug"@
    } else {
        "info,rustls=error,ironrdp_server::encoder=error,ironrdp_server::server=error"@
    }
}

pub fn log_directives(f: LogFilter) -> (s: &'static str)
    ensures
        s@ == directives(f),
{
    match f {
        LogFilter::Debug => "debug",
        _ => "info,rustls=error,ironrdp_server::encoder=error,ironrdp_server::server=error",
    }
}

/// The part that a process plays.
#[derive(Debug, Clone, Copy, PartialEq, Eq, Structural)]
pub enum Role {
    /// Hands each connection to a worker.
    Supervisor,
    /// Serves the one connection on a socket that it inherited.
    Worker(i32),
    /// Serves every connection itself.
    Single,
}

/// The socket that a worker inherits.
pub open spec fn inherited_socket(env: &Environment) -> Option<int> {
    match env.value("MACRDP_WORKER_FD"@) {
        Some(v) => crate::text::signed_value(v),
        None => None,
    }
}

/// The virtual display that a worker shows.
pub open spec fn inherited_display(env: &Environment) -> Option<int> {
    match env.value("MACRDP_VD_ID"@) {
        Some(v) => crate::text::bounded_decimal(v, u32::MAX as int),
        None => None,
    }
}

pub fn worker_socket(env: &Environment) -> (r: Option<i32>)
    ensures
        r is Some <==> inherited_socket(env) is Some,
        r matches Some(fd) ==> inherited_socket(env) == Some(fd as int),
{
    match env.get("MACRDP_WORKER_FD") {
        Some(v) => parse_i32(v),
        None => None,
    }
}

pub fn supervisor_display(env: &Environment) -> (r: Option<u32>)
    ensures
        r is Some <==> inherited_display(env) is Some,
        r matches Some(id) ==> inherited_display(env) == Some(id as int),
{
    match env.get("MACRDP_VD_ID") {
        Some(v) => match parse_decimal(&chars_of(v), u32::MAX as u64) {
            Some(n) => Some(n as u32),
            None => None,
        },
        None => None,
    }
}

pub open spec fn role_of(args: &Args, worker_fd: Option<i32>) -> Role {
    match worker_fd {
        Some(fd) => Role::Worker(fd),
        None => if args.fork_workers {
            Role::Supervisor
        } else {
            Role::Single
        },
    }
}

/// Decides which part a process plays.
pub fn role(args: &Args, worker_fd: Option<i32>) -> (r: Role)
    ensures
        r == role_of(args, worker_fd),
{
    match worker_fd {
        Some(fd) => Role::Worker(fd),
        None => if args.fork_workers {
            Role::Supervisor
        } else {
            Role::Single
        },
    }
}

/// How the physical displays are kept out of the way.
#[derive(Debug, Clone, Copy, PartialEq, Eq, Structural)]
pub enum BlankMode {
    Off,
    Detach,
    Capture,
    MakePrimary,
}

pub open spec fn blank_mode_of(args: &Args) -> BlankMode {
    if args.detach_primary {
        BlankMode::Detach
    } else if args.capture_primary {
        BlankMode::Capture
    } else if args.make_primary {
        BlankMode::MakePrimary
    } else {
        BlankMode::Off
    }
}

pub fn blank_mode(args: &Args) -> (m: BlankMode)
    ensures
        m == blank_mode_of(args),
{
    if args.detach_primary {
        BlankMode::Detach
    } else if args.capture_primary {
        BlankMode::Capture
    } else if args.make_primary {
        BlankMode::MakePrimary
    } else {
        BlankMode::Off
    }
}

/// The size that the command line gives the virtual display.
pub open spec fn asked_size(args: &Args) -> Result<(u16, u16), StartError> {
    match (args.width, args.height) {
        (Some(w), Some(h)) => Ok((w, h)),
        (None, _) => Err(StartError::VirtualDisplayNeedsWidth),
        _ => Err(StartError::VirtualDisplayNeedsHeight),
    }
}

fn virtual_size(args: &Args) -> (r: Result<(u16, u16), StartError>)
    ensures
        r == asked_size(args),
{
    match args.width {
        None => Err(StartError::VirtualDisplayNeedsWidth),
        Some(w) => match args.height {
            None => Err(StartError::VirtualDisplayNeedsHeight),
            Some(h) => Ok((w, h)),
        },
    }
}

/// What a supervisor sets up before it listens.
#[derive(Debug, Clone, Copy, PartialEq, Eq)]
pub struct SupervisorPlan {
    /// The size of the virtual display to attach.
    pub display: Option<(u16, u16)>,
    pub blank: BlankMode,
    pub prevent_sleep: bool,
    pub hud_helper: bool,
    /// UDP was asked for, and is not offered by a supervisor.
    pub udp_left_out: bool,
}

pub open spec fn supervised(args: &Args) -> Result<SupervisorPlan, StartError> {
    if (args.capture_primary || args.detach_primary || args.make_primary)
        && !args.virtual_display {
        Err(StartError::HeadlessNeedsVirtualDisplay)
    } else if args.capture_primary && args.detach_primary {
        Err(StartError::CaptureExcludesDetach)
    } else if args.virtual_display && asked_size(args) is Err {
        Err(asked_size(args)->Err_0)
    } else {
        Ok(
            SupervisorPlan {
                display: if args.virtual_display {
                    Some(asked_size(args)->Ok_0)
                } else {
                    None
                },
                blank: blank_mode_of(args),
                prevent_sleep: !args.allow_sleep,
                hud_helper: args.app_switcher_hud,
                udp_left_out: args.enable_udp_multitransport,
            },
        )
    }
}

/// Plans a supervisor, or tells why it does not start.
pub fn plan_supervisor(args: &Args) -> (r: Result<SupervisorPlan, StartError>)
    ensures
        r == supervised(args),
{
    if (args.capture_primary || args.detach_primary || args.make_primary)
        && !args.virtual_display {
        return Err(StartError::HeadlessNeedsVirtualDisplay);
    }
    if args.capture_primary && args.detach_primary {
        return Err(StartError::CaptureExcludesDetach);
    }
    let display: Option<(u16, u16)> = if args.virtual_display {
        match virtual_size(args) {
            Ok(size) => Some(size),
            Err(e) => {
                return Err(e);
            },
        }
    } else {
        None
    };
    Ok(
        SupervisorPlan {
            display,
            blank: blank_mode(args),
            prevent_sleep: !args.allow_sleep,
            hud_helper: args.app_switcher_hud,
            udp_left_out: args.enable_udp_multitransport,
        },
    )
}

pub open spec fn flags_checked(args: &Args) -> Result<(), StartError> {
    if args.make_primary && !args.virtual_display {
        Err(StartError::MakePrimaryNeedsVirtualDisplay)
    } else if args.detach_primary && !args.virtual_display {
        Err(StartError::DetachNeedsVirtualDisplay)
    } else if args.capture_primary && !args.virtual_display {
        Err(StartError::CaptureNeedsVirtualDisplay)
    } else if args.capture_primary && args.detach_primary {
        Err(StartError::CaptureExcludesDetach)
    } else {
        Ok(())
    }
}

/// Refuses flags that do not go together, in a process that serves connections.
pub fn check_flags(args: &Args) -> (r: Result<(), StartError>)
    ensures
        r == flags_checked(args),
{
    if args.make_primary && !args.virtual_display {
        return Err(StartError::MakePrimaryNeedsVirtualDisplay);
    }
    if args.detach_primary && !args.virtual_display {
        return Err(StartError::DetachNeedsVirtualDisplay);
    }
    if args.capture_primary && !args.virtual_display {
        return Err(StartError::CaptureNeedsVirtualDisplay);
    }
    if args.capture_primary && args.detach_primary {
        return Err(StartError::CaptureExcludesDetach);
    }
    Ok(())
}

/// The virtual display that a process has to attach itself.
pub open spec fn attached(args: &Args, supervisor_vd: Option<u32>) -> Result<
    Option<(u16, u16)>,
    StartError,
> {
    if args.virtual_display && supervisor_vd is None {
        match asked_size(args) {
            Ok(size) => Ok(Some(size)),
            Err(e) => Err(e),
        }
    } else {
        Ok(None)
    }
}

pub fn own_display(args: &Args, supervisor_vd: Option<u32>) -> (r: Result<
    Option<(u16, u16)>,
    StartError,
>)
    ensures
        r == attached(args, supervisor_vd),
{
    if args.virtual_display && supervisor_vd.is_none() {
        match virtual_size(args) {
            Ok(size) => Ok(Some(size)),
            Err(e) => Err(e),
        }
    } else {
        Ok(None)
    }
}

/// Whether the pointer goes back to the main display when a session ends. On a virtual
/// display of its own the process would leave it where no panel shows it.
pub fn returns_cursor(own_vd: Option<u32>) -> (r: bool)
    ensures
        r == (own_vd is Some),
{
    own_vd.is_some()
}

pub open spec fn overlay_of(args: &Args, worker: bool) -> BlankMode {
    if worker {
        BlankMode::Off
    } else {
        blank_mode_of(args)
    }
}

/// How a process that serves connections keeps the physical displays out of the way. A
/// worker leaves that to its supervisor.
pub fn overlay_mode(args: &Args, worker: bool) -> (m: BlankMode)
    ensures
        m == overlay_of(args, worker),
{
    if worker {
        BlankMode::Off
    } else {
        blank_mode(args)
    }
}

/// The name to log in with.
pub open spec fn login_name(args: &Args, user: Option<Seq<char>>) -> Option<Seq<char>> {
    match args.username {
        Some(n) => Some(n@),
        None => user,
    }
}

/// The name to log in with: the one given, or that of who runs the program.
pub fn username(args: &Args, user: Option<&str>) -> (r: Result<String, StartError>)
    ensures
        r is Ok <==> login_name(args, crate::text::text_of(user)) is Some,
        r matches Err(e) ==> e == StartError::NoUsername,
        r matches Ok(s) ==> login_name(args, crate::text::text_of(user)) == Some(s@),
{
    match &args.username {
        Some(n) => Ok(string_of(&chars_of(n.as_str()))),
        None => match user {
            Some(u) => Ok(string_of(&chars_of(u))),
            None => Err(StartError::NoUsername),
        },
    }
}

/// Where the password comes from.
#[derive(Debug, Clone, Copy, PartialEq, Eq, Structural)]
pub enum PasswordSource {
    Keychain,
    CommandLine,
    Prompt,
}

pub open spec fn source_of(args: &Args) -> PasswordSource {
    if args.keychain {
        PasswordSource::Keychain
    } else if args.password_given {
        PasswordSource::CommandLine
    } else {
        PasswordSource::Prompt
    }
}

pub fn password_source(args: &Args) -> (s: PasswordSource)
    ensures
        s == source_of(args),
{
    if args.keychain {
        PasswordSource::Keychain
    } else if args.password_given {
        PasswordSource::CommandLine
    } else {
        PasswordSource::Prompt
    }
}

pub open spec fn authentication(args: &Args) -> Result<bool, StartError> {
    if !args.skip_auth {
        Ok::<bool, StartError>(true)
    } else if crate::auth_guard::loopback(args.bind_ip) {
        Ok(false)
    } else {
        Err(StartError::SkipAuthNeedsLoopback)
    }
}

/// Whether the password is to be checked. Leaving the check out is refused unless only
/// the machine itself can connect.
pub fn must_authenticate(args: &Args) -> (r: Result<bool, StartError>)
    ensures
        r == authentication(args),
{
    if !args.skip_auth {
        return Ok(true);
    }
    if args.bind_ip.is_loopback() {
        Ok(false)
    } else {
        Err(StartError::SkipAuthNeedsLoopback)
    }
}

/// Where certificate and key are kept: the directory given, or one in the home directory.
pub open spec fn cert_place(given: Option<Seq<char>>, home: Option<Seq<char>>) -> Option<Seq<char>> {
    if given is Some {
        given
    } else {
        match home {
            Some(h) => Some(crate::text::joined(h, "Library/Application Support/macrdp"@)),
            None => None,
        }
    }
}

pub open spec fn given_dir(args: &Args) -> Option<Seq<char>> {
    match args.cert_dir {
        Some(d) => Some(d@),
        None => None,
    }
}

/// Where certificate and key are kept by default.
pub fn default_cert_dir(home: Option<&str>) -> (r: Result<String, StartError>)
    ensures
        r is Ok <==> cert_place(None, crate::text::text_of(home)) is Some,
        r matches Err(e) ==> e == StartError::HomeNotSet,
        r matches Ok(s) ==> cert_place(None, crate::text::text_of(home)) == Some(s@),
{
    match home {
        Some(h) => Ok(join_path(h, "Library/Application Support/macrdp")),
        None => Err(StartError::HomeNotSet),
    }
}

/// Where certificate and key are kept.
pub fn cert_dir(args: &Args, home: Option<&str>) -> (r: Result<String, StartError>)
    ensures
        r is Ok <==> cert_place(given_dir(args), crate::text::text_of(home)) is Some,
        r matches Err(e) ==> e == StartError::HomeNotSet,
        r matches Ok(s) ==> cert_place(given_dir(args), crate::text::text_of(home)) == Some(s@),
{
    match &args.cert_dir {
        Some(d) => Ok(string_of(&chars_of(d.as_str()))),
        None => default_cert_dir(home),
    }
}

pub open spec fn mode_size(mode: Option<(u64, u64)>) -> Option<(u16, u16)> {
    match mode {
        Some((w, h)) => if w <= u16::MAX && h <= u16::MAX {
            Some((w as u16, h as u16))
        } else {
            None
        },
        None => None,
    }
}

/// The size in pixels of a display mode, where it is small enough for the protocol.
pub fn primary_backing_size(mode: Option<(u64, u64)>) -> (r: Option<(u16, u16)>)
    ensures
        r == mode_size(mode),
{
    match mode {
        Some((w, h)) => if w <= u16::MAX as u64 && h <= u16::MAX as u64 {
            Some((w as u16, h as u16))
        } else {
            None
        },
        None => None,
    }
}

/// The desktop that is served.
#[derive(Debug, Clone, Copy, PartialEq, Eq, Structural)]
pub struct Desktop {
    pub width: u16,
    pub height: u16,
    /// The display that it shows, where it is not the main one.
    pub display_id: Option<u32>,
}

/// The size of the main display's desktop.
pub open spec fn main_desktop(
    args: &Args,
    detected: Option<(u16, u16)>,
    backing: Option<(u16, u16)>,
) -> (u16, u16) {
    if args.hidpi && args.width is None && args.height is None && backing is Some {
        backing->0
    } else {
        (
            match args.width {
                Some(w) => w,
                None => match detected {
                    Some(d) => d.0,
                    None => FALLBACK_WIDTH,
                },
            },
            match args.height {
                Some(h) => h,
                None => match detected {
                    Some(d) => d.1,
                    None => FALLBACK_HEIGHT,
                },
            },
        )
    }
}

pub open spec fn desktop_of(
    args: &Args,
    supervisor_vd: Option<u32>,
    own_vd: Option<u32>,
    detected: Option<(u16, u16)>,
    backing: Option<(u16, u16)>,
) -> Result<Desktop, StartError> {
    let vd = if supervisor_vd is Some {
        supervisor_vd
    } else {
        own_vd
    };
    if vd is Some {
        match asked_size(args) {
            Ok((width, height)) => Ok(Desktop { width, height, display_id: vd }),
            Err(e) => Err(e),
        }
    } else {
        let size = main_desktop(args, detected, backing);
        Ok(Desktop { width: size.0, height: size.1, display_id: None })
    }
}

/// Decides on the size of the desktop: that of the virtual display, the supervisor's or
/// the process's own, or else what was asked for, what was detected, or the fallback.
pub fn session_desktop(
    args: &Args,
    supervisor_vd: Option<u32>,
    own_vd: Option<u32>,
    detected: Option<(u16, u16)>,
    backing: Option<(u16, u16)>,
) -> (r: Result<Desktop, StartError>)
    ensures
        r == desktop_of(args, supervisor_vd, own_vd, detected, backing),
{
    let vd: Option<u32> = if supervisor_vd.is_some() {
        supervisor_vd
    } else {
        own_vd
    };
    if vd.is_some() {
        return match virtual_size(args) {
            Ok((width, height)) => Ok(Desktop { width, height, display_id: vd }),
            Err(e) => Err(e),
        };
    }
    if args.hidpi && args.width.is_none() && args.height.is_none() {
        if let Some((width, height)) = backing {
            return Ok(Desktop { width, height, display_id: None });
        }
    }
    let width: u16 = match args.width {
        Some(w) => w,
        None => match detected {
            Some(d) => d.0,
            None => FALLBACK_WIDTH,
        },
    };
    let height: u16 = match args.height {
        Some(h) => h,
        None => match detected {
            Some(d) => d.1,
            None => FALLBACK_HEIGHT,
        },
    };
    Ok(Desktop { width, height, display_id: None })
}

/// How the picture is encoded as H.264.
#[derive(Debug, Clone, Copy, PartialEq, Eq, Structural)]
pub struct VideoPlan {
    /// In bits per second.
    pub bitrate: u32,
    pub frames_in_flight: u32,
}

/// What becomes of UDP.
#[derive(Debug, Clone, Copy, PartialEq, Eq, Structural)]
pub enum UdpPlan {
    Off,
    /// Listen for it, and offer it.
    Listen,
    /// Offer it only.
    OfferOnly,
}

/// How a session is set up.
#[derive(Debug, Clone, Copy, PartialEq, Eq)]
pub struct SessionPlan {
    pub fps: u32,
    /// The client decides on the size.
    pub auto_size: bool,
    pub video: Option<VideoPlan>,
    pub keyframes: KeyframeOnChange,
    /// Clicks are watched, for the sake of keyframes.
    pub click_signal: bool,
    /// Sessions are counted, for the sake of the physical displays.
    pub track_sessions: bool,
    pub prevent_sleep: bool,
    pub hud_helper: bool,
    pub lazy_paste: bool,
    pub mute_on_minimize: bool,
    /// Drives and smart cards, where either is redirected.
    pub redirect: Option<(bool, bool)>,
    pub udp: UdpPlan,
}

/// Megabits as bits, at least one megabit, at most what can be said.
pub open spec fn bits_per_second(megabits: u32) -> int {
    let m = if megabits < 1 {
        1
    } else {
        megabits as int
    };
    if m * 1_000_000 > u32::MAX {
        u32::MAX as int
    } else {
        m * 1_000_000
    }
}

pub open spec fn at_least_one(n: u32) -> u32 {
    if n < 1 {
        1
    } else {
        n
    }
}

/// The client decides on the size where nothing else does.
pub open spec fn client_decides(args: &Args) -> bool {
    !args.no_client_resolution && !args.virtual_display && !args.hidpi && args.width is None
        && args.height is None
}

pub open spec fn planned(args: &Args, worker: bool, p: SessionPlan) -> bool {
    &&& p.fps == (match args.fps {
        Some(f) => f,
        None => if args.enable_h264 {
            60
        } else {
            15
        },
    })
    &&& p.auto_size == client_decides(args)
    &&& p.video is Some <==> args.enable_h264
    &&& p.video matches Some(v) ==> v.bitrate == bits_per_second(args.bitrate) && v.frames_in_flight
        == at_least_one(args.h264_frames_in_flight)
    &&& p.keyframes.enabled == args.keyframe_on_change
    &&& p.keyframes.change_pct == args.keyframe_change_pct
    &&& p.keyframes.click_pct == args.keyframe_click_pct
    &&& p.keyframes.click_window@ == args.keyframe_click_window_ms * crate::time::NANOS_PER_MILLI
    &&& p.click_signal == (args.enable_h264 && args.keyframe_on_change)
    &&& p.track_sessions == (args.detach_primary || args.capture_primary)
    &&& p.prevent_sleep == (!args.allow_sleep && !worker)
    &&& p.hud_helper == (args.app_switcher_hud && !worker)
    &&& p.lazy_paste == !args.no_lazy_paste
    &&& p.mute_on_minimize == !args.no_mute_on_minimize
    &&& p.redirect == (if args.enable_drive_redirection || args.enable_smartcard_redirection {
        Some((args.enable_drive_redirection, args.enable_smartcard_redirection))
    } else {
        None
    })
    &&& p.udp == (if !args.enable_udp_multitransport {
        UdpPlan::Off
    } else if worker {
        UdpPlan::OfferOnly
    } else {
        UdpPlan::Listen
    })
}

/// Plans a session.
pub fn plan_session(args: &Args, worker: bool) -> (p: SessionPlan)
    ensures
        planned(args, worker, p),
{
    let fps: u32 = match args.fps {
        Some(f) => f,
        None => if args.enable_h264 {
            60
        } else {
            15
        },
    };
    let megabits: u32 = if args.bitrate < 1 {
        1
    } else {
        args.bitrate
    };
    let bits: u64 = megabits as u64 * 1_000_000;
    let bitrate: u32 = if bits > u32::MAX as u64 {
        u32::MAX
    } else {
        bits as u32
    };
    let frames_in_flight: u32 = if args.h264_frames_in_flight < 1 {
        1
    } else {
        args.h264_frames_in_flight
    };
    let keyframes = KeyframeOnChange {
        enabled: args.keyframe_on_change,
        change_pct: args.keyframe_change_pct,
        click_pct: args.keyframe_click_pct,
        click_window: Duration::from_millis(args.keyframe_click_window_ms),
    };
    SessionPlan {
        fps,
        auto_size: !args.no_client_resolution && !args.virtual_display && !args.hidpi
            && args.width.is_none() && args.height.is_none(),
        video: if args.enable_h264 {
            Some(VideoPlan { bitrate, frames_in_flight })
        } else {
            None
        },
        keyframes,
        click_signal: args.enable_h264 && args.keyframe_on_change,
        track_sessions: args.detach_primary || args.capture_primary,
        prevent_sleep: !args.allow_sleep && !worker,
        hud_helper: args.app_switcher_hud && !worker,
        lazy_paste: !args.no_lazy_paste,
        mute_on_minimize: !args.no_mute_on_minimize,
        redirect: if args.enable_drive_redirection || args.enable_smartcard_redirection {
            Some((args.enable_drive_redirection, args.enable_smartcard_redirection))
        } else {
            None
        },
        udp: if !args.enable_udp_multitransport {
            UdpPlan::Off
        } else if worker {
            UdpPlan::OfferOnly
        } else {
            UdpPlan::Listen
        },
    }
}

/// A way to encode a bitmap.
#[derive(Debug, Clone, Copy, PartialEq, Eq, Structural)]
pub enum BitmapCodec {
    NsCodec { dynamic_fidelity: bool, subsampling: bool, color_loss_level: u8 },
    RemoteFx,
    ImageRemoteFx,
    Qoi,
    QoiZ,
}

pub open spec fn offered_codecs() -> Seq<BitmapCodec> {
    seq![
        BitmapCodec::NsCodec { dynamic_fidelity: false, subsampling: false, color_loss_level: 3 },
        BitmapCodec::RemoteFx,
        BitmapCodec::ImageRemoteFx,
        BitmapCodec::Qoi,
        BitmapCodec::QoiZ,
    ]
}

/// The ways to encode a bitmap that are offered.
pub fn bitmap_codecs() -> (v: Vec<BitmapCodec>)
    ensures
        v@ == offered_codecs(),
{
    let mut v: Vec<BitmapCodec> = Vec::new();
    v.push(
        BitmapCodec::NsCodec { dynamic_fidelity: false, subsampling: false, color_loss_level: 3 },
    );
    v.push(BitmapCodec::RemoteFx);
    v.push(BitmapCodec::ImageRemoteFx);
    v.push(BitmapCodec::Qoi);
    v.push(BitmapCodec::QoiZ);
    v
}

/// Why no password came out of the keychain.
#[derive(Debug, Clone, Copy, PartialEq, Eq, Structural)]
pub enum KeychainError {
    NotFound,
    NotText,
    Empty,
}

/// A text without the line break at its end.
pub open spec fn without_break(s: Seq<char>) -> Seq<char> {
    if s.len() > 0 && s.last() == '\n' {
        s.drop_last()
    } else {
        s
    }
}

/// The password in what the keychain tool printed.
pub open spec fn printed_password(success: bool, stdout: Seq<u8>) -> Result<Seq<char>, KeychainError> {
    if !success {
        Err(KeychainError::NotFound)
    } else if !vstd::utf8::valid_utf8(stdout) {
        Err(KeychainError::NotText)
    } else {
        let s = without_break(vstd::utf8::decode_utf8(stdout));
        if s.len() == 0 {
            Err(KeychainError::Empty)
        } else {
            Ok(s)
        }
    }
}

/// Takes the password from what the keychain tool printed.
pub fn keychain_password(success: bool, stdout: Vec<u8>) -> (r: Result<String, KeychainError>)
    ensures
        r is Ok <==> printed_password(success, stdout@) is Ok,
        r matches Ok(p) ==> printed_password(success, stdout@) == Ok::<Seq<char>, KeychainError>(p@),
        r matches Err(e) ==> printed_password(success, stdout@) == Err::<Seq<char>, KeychainError>(e),
{
    if !success {
        return Err(KeychainError::NotFound);
    }
    match crate::text::utf8_exact(stdout) {
        None => Err(KeychainError::NotText),
        Some(text) => {
            let mut chars: Vec<char> = chars_of(text.as_str());
            if chars.len() > 0 && chars[chars.len() - 1] == '\n' {
                chars.pop();
            }
            assert(chars@ =~= without_break(text@));
            if chars.len() == 0 {
                return Err(KeychainError::Empty);
            }
            Ok(string_of(&chars))
        },
    }
}

/// Whatever asks for a headless machine also has a virtual display to fall back on:
/// a process that starts is never left without a usable display.
pub proof fn headless_has_a_display(args: &Args)
    ensures
        flags_checked(args) is Ok && blank_mode_of(args) != BlankMode::Off
            ==> args.virtual_display,
        supervised(args) matches Ok(p) ==> (p.blank != BlankMode::Off ==> p.display is Some),
{
}

/// A supervisor refuses every combination of flags that a single process refuses.
pub proof fn supervisors_are_as_strict(args: &Args)
    ensures
        flags_checked(args) is Err ==> supervised(args) is Err,
        supervised(args) is Ok ==> flags_checked(args) is Ok,
{
}

/// Where the client decides on the size, the desktop shown before it connects is that of
/// the main display, at the size that was detected.
pub proof fn sizes_are_decided_once(
    args: &Args,
    detected: Option<(u16, u16)>,
    backing: Option<(u16, u16)>,
)
    requires
        client_decides(args),
        detected is Some,
    ensures
        attached(args, None) == Ok::<Option<(u16, u16)>, StartError>(None),
        desktop_of(args, None, None, detected, backing) == Ok::<Desktop, StartError>(
            Desktop { width: (detected->0).0, height: (detected->0).1, display_id: None },
        ),
{
}

/// The video bitrate is the megabits that were asked for, a million bits each: none counts
/// as one, and what cannot be said counts as the most that can. Twice the megabits are
/// twice the bits as long as they can be said.
pub proof fn megabits_are_a_million_bits_each(
    args: &Args,
    twice: &Args,
    worker: bool,
    p: SessionPlan,
    q: SessionPlan,
)
    requires
        planned(args, worker, p),
        planned(twice, worker, q),
        args.enable_h264,
        twice.enable_h264,
    ensures
        p.video is Some,
        1 <= args.bitrate <= 4294 ==> p.video->0.bitrate == args.bitrate * 1_000_000,
        args.bitrate == 0 ==> p.video->0.bitrate == 1_000_000,
        args.bitrate > 4294 ==> p.video->0.bitrate == 0xFFFF_FFFF,
        args.bitrate >= 1 && twice.bitrate == 2 * args.bitrate && twice.bitrate <= 4294
            ==> q.video->0.bitrate == 2 * p.video->0.bitrate,
{
}

/// A session is planned flag by flag: the frame rate that was asked for, or 60 with video
/// and 15 without; video, keyframes, clicks and the rest as their flags say.
pub proof fn each_flag_plans_its_own_part(args: &Args, worker: bool, p: SessionPlan)
    requires
        planned(args, worker, p),
    ensures
        args.fps matches Some(f) ==> p.fps == f,
        args.fps is None && args.enable_h264 ==> p.fps == 60,
        args.fps is None && !args.enable_h264 ==> p.fps == 15,
        !args.enable_h264 ==> p.video is None,
        args.enable_h264 && args.h264_frames_in_flight >= 1 ==> p.video->0.frames_in_flight
            == args.h264_frames_in_flight,
        args.enable_h264 && args.h264_frames_in_flight == 0 ==> p.video->0.frames_in_flight == 1,
        p.keyframes.enabled <==> args.keyframe_on_change,
        p.keyframes.change_pct == args.keyframe_change_pct,
        p.keyframes.click_pct == args.keyframe_click_pct,
        p.keyframes.click_window.nanos == args.keyframe_click_window_ms * 1_000_000,
        p.click_signal <==> args.enable_h264 && args.keyframe_on_change,
        args.detach_primary || args.capture_primary ==> p.track_sessions,
        !args.detach_primary && !args.capture_primary ==> !p.track_sessions,
        worker ==> !p.prevent_sleep && !p.hud_helper,
        !worker ==> p.prevent_sleep == !args.allow_sleep && p.hud_helper == args.app_switcher_hud,
        p.lazy_paste != args.no_lazy_paste,
        p.mute_on_minimize != args.no_mute_on_minimize,
{
}

/// Devices are redirected as each of the two flags says, and UDP is offered where it was
/// asked for: listened for as well, but not by a worker.
pub proof fn devices_and_transports_follow_their_flags(args: &Args, worker: bool, p: SessionPlan)
    requires
        planned(args, worker, p),
    ensures
        p.redirect is Some <==> args.enable_drive_redirection || args.enable_smartcard_redirection,
        p.redirect matches Some((drives, cards)) ==> drives == args.enable_drive_redirection && cards
            == args.enable_smartcard_redirection,
        !args.enable_udp_multitransport ==> p.udp is Off,
        args.enable_udp_multitransport && worker ==> p.udp is OfferOnly,
        args.enable_udp_multitransport && !worker ==> p.udp is Listen,
{
}

/// The client decides on the size exactly where nothing on the command line does.
pub proof fn nothing_else_decides_on_the_size(args: &Args, worker: bool, p: SessionPlan)
    requires
        planned(args, worker, p),
    ensures
        args.width is Some ==> !p.auto_size,
        args.height is Some ==> !p.auto_size,
        args.hidpi ==> !p.auto_size,
        args.virtual_display ==> !p.auto_size,
        args.no_client_resolution ==> !p.auto_size,
        args.width is None && args.height is None && !args.hidpi && !args.virtual_display
            && !args.no_client_resolution ==> p.auto_size,
{
}

/// Logging follows the environment where it says something, else the flag.
pub proof fn the_environment_filters_first(verbose: bool)
    ensures
        filter_for(true, verbose) is Environment,
        filter_for(false, true) is Debug,
        filter_for(false, false) is Default,
        directives(LogFilter::Debug) == "debug"@,
        directives(LogFilter::Default)
            == "info,rustls=error,ironrdp_server::encoder=error,ironrdp_server::server=error"@,
{
}

/// An inherited socket makes a worker, whatever the flags say; without one the flag decides
/// between a supervisor and a process that serves everybody. A worker leaves the displays
/// alone.
pub proof fn an_inherited_socket_makes_a_worker(args: &Args, fd: i32)
    ensures
        role_of(args, Some(fd)) == Role::Worker(fd),
        args.fork_workers ==> role_of(args, None) is Supervisor,
        !args.fork_workers ==> role_of(args, None) is Single,
        overlay_of(args, true) is Off,
        overlay_of(args, false) == blank_mode_of(args),
{
}

/// The numbers that a worker inherits are read from its environment as they are written.
pub proof fn workers_read_their_numbers(env: &Environment, n: nat)
    ensures
        env.value("MACRDP_WORKER_FD"@) == Some(crate::text::digits(n)) && n <= 0x7FFF_FFFF
            ==> inherited_socket(env) == Some(n as int),
        env.value("MACRDP_VD_ID"@) == Some(crate::text::digits(n)) && n <= 0xFFFF_FFFF
            ==> inherited_display(env) == Some(n as int),
        env.value("MACRDP_WORKER_FD"@) is None ==> inherited_socket(env) is None,
        env.value("MACRDP_VD_ID"@) is None ==> inherited_display(env) is None,
{
    crate::text::decimal_round_trip(n);
    assert(crate::text::is_digit(crate::text::digits(n)[0]));
}

/// Displays are set aside in one way: detached, else captured, else moved aside, else not
/// at all.
pub proof fn detaching_comes_first(args: &Args)
    ensures
        args.detach_primary ==> blank_mode_of(args) is Detach,
        !args.detach_primary && args.capture_primary ==> blank_mode_of(args) is Capture,
        !args.detach_primary && !args.capture_primary && args.make_primary ==> blank_mode_of(args)
            is MakePrimary,
        !args.detach_primary && !args.capture_primary && !args.make_primary ==> blank_mode_of(args)
            is Off,
{
}

/// A virtual display has the width and the height that were asked for, each in its place;
/// without either it is refused.
pub proof fn virtual_displays_have_the_size_asked_for(args: &Args, id: u32, w: u16, h: u16)
    requires
        args.virtual_display,
    ensures
        args.width == Some(w) && args.height == Some(h) ==> {
            &&& attached(args, None) == Ok::<Option<(u16, u16)>, StartError>(Some((w, h)))
            &&& attached(args, Some(id)) == Ok::<Option<(u16, u16)>, StartError>(None)
            &&& desktop_of(args, Some(id), None, None, None) == Ok::<Desktop, StartError>(
                Desktop { width: w, height: h, display_id: Some(id) },
            )
            &&& desktop_of(args, None, Some(id), None, None) == Ok::<Desktop, StartError>(
                Desktop { width: w, height: h, display_id: Some(id) },
            )
        },
        args.width is None ==> attached(args, None) == Err::<Option<(u16, u16)>, StartError>(
            StartError::VirtualDisplayNeedsWidth,
        ),
        args.width is Some && args.height is None ==> attached(args, None) == Err::<
            Option<(u16, u16)>,
            StartError,
        >(StartError::VirtualDisplayNeedsHeight),
{
}

/// The supervisor's display is shown before the process's own.
pub proof fn the_supervisors_display_comes_first(
    args: &Args,
    a: u32,
    b: u32,
    detected: Option<(u16, u16)>,
    backing: Option<(u16, u16)>,
)
    ensures
        desktop_of(args, Some(a), Some(b), detected, backing) matches Ok(d) ==> d.display_id == Some(
            a,
        ),
        desktop_of(args, None, Some(b), detected, backing) matches Ok(d) ==> d.display_id == Some(b),
        desktop_of(args, None, None, detected, backing) matches Ok(d) && d.display_id is None,
        !args.virtual_display ==> attached(args, None) == Ok::<Option<(u16, u16)>, StartError>(None),
{
}

/// The desktop of the main display has each side that was asked for; a side that was not is
/// as detected, or 1280 by 720 where nothing was. In full resolution with no side asked for
/// it has the display's pixels.
pub proof fn main_desktops_have_the_sides_asked_for(
    args: &Args,
    detected: (u16, u16),
    backing: (u16, u16),
)
    ensures
        args.width matches Some(w) ==> main_desktop(args, Some(detected), Some(backing)).0 == w,
        args.height matches Some(h) ==> main_desktop(args, Some(detected), Some(backing)).1 == h,
        !args.hidpi && args.width is None ==> main_desktop(args, Some(detected), Some(backing)).0
            == detected.0 && main_desktop(args, None, Some(backing)).0 == 1280,
        !args.hidpi && args.height is None ==> main_desktop(args, Some(detected), Some(backing)).1
            == detected.1 && main_desktop(args, None, Some(backing)).1 == 720,
        args.hidpi && args.width is None && args.height is None ==> main_desktop(
            args,
            Some(detected),
            Some(backing),
        ) == backing && main_desktop(args, Some(detected), None) == detected,
        desktop_of(args, None, None, Some(detected), Some(backing)) == Ok::<Desktop, StartError>(
            Desktop {
                width: main_desktop(args, Some(detected), Some(backing)).0,
                height: main_desktop(args, Some(detected), Some(backing)).1,
                display_id: None,
            },
        ),
{
}

/// A mode's width and height are taken as they are, where both can be named.
pub proof fn modes_are_taken_as_they_are(w: u64, h: u64)
    ensures
        w <= 65535 && h <= 65535 ==> (mode_size(Some((w, h))) matches Some(s) && s.0 == w && s.1 == h),
        w > 65535 || h > 65535 ==> mode_size(Some((w, h))) is None,
        mode_size(None) is None,
{
}

/// A supervisor that starts attaches the display that was asked for, blanks as asked, and
/// keeps the machine awake unless it may sleep.
pub proof fn supervisors_do_what_is_asked(args: &Args, w: u16, h: u16)
    ensures
        supervised(args) matches Ok(p) ==> {
            &&& p.blank == blank_mode_of(args)
            &&& p.prevent_sleep != args.allow_sleep
            &&& p.hud_helper == args.app_switcher_hud
            &&& p.udp_left_out == args.enable_udp_multitransport
            &&& args.virtual_display && args.width == Some(w) && args.height == Some(h) ==> p.display
                == Some((w, h))
            &&& !args.virtual_display ==> p.display is None
        },
        !args.virtual_display && (args.capture_primary || args.detach_primary || args.make_primary)
            ==> supervised(args) == Err::<SupervisorPlan, StartError>(
            StartError::HeadlessNeedsVirtualDisplay,
        ),
        args.virtual_display && args.capture_primary && args.detach_primary ==> supervised(args)
            == Err::<SupervisorPlan, StartError>(StartError::CaptureExcludesDetach),
        args.virtual_display && !(args.capture_primary && args.detach_primary) && args.width is Some
            && args.height is Some ==> supervised(args) is Ok,
        !args.virtual_display && !args.capture_primary && !args.detach_primary && !args.make_primary
            ==> supervised(args) is Ok,
{
}

/// A process that serves connections starts with flags that go together: going headless
/// only with a virtual display, and not both ways at once.
pub proof fn flags_go_together(args: &Args)
    ensures
        flags_checked(args) is Ok <==> (args.virtual_display || !args.make_primary
            && !args.detach_primary && !args.capture_primary) && !(args.capture_primary
            && args.detach_primary),
        args.make_primary && !args.virtual_display ==> flags_checked(args) == Err::<(), StartError>(
            StartError::MakePrimaryNeedsVirtualDisplay,
        ),
        !args.make_primary && args.detach_primary && !args.virtual_display ==> flags_checked(args)
            == Err::<(), StartError>(StartError::DetachNeedsVirtualDisplay),
        !args.make_primary && !args.detach_primary && args.capture_primary && !args.virtual_display
            ==> flags_checked(args) == Err::<(), StartError>(
            StartError::CaptureNeedsVirtualDisplay,
        ),
        args.virtual_display && args.capture_primary && args.detach_primary ==> flags_checked(args)
            == Err::<(), StartError>(StartError::CaptureExcludesDetach),
{
}

/// The password is checked unless that is left out, which is allowed only on an address
/// that nobody else can reach. It comes from the keychain where that is asked for, else from
/// the command line where it is given, else from whoever sits there.
pub proof fn passwords_are_checked(args: &Args)
    ensures
        !args.skip_auth ==> authentication(args) == Ok::<bool, StartError>(true),
        args.skip_auth && (args.bind_ip matches IpAddr::V4(a) && a / 0x100_0000 == 127)
            ==> authentication(args) == Ok::<bool, StartError>(false),
        args.skip_auth && (args.bind_ip matches IpAddr::V4(a) && a / 0x100_0000 != 127)
            ==> authentication(args) == Err::<bool, StartError>(StartError::SkipAuthNeedsLoopback),
        args.skip_auth && (args.bind_ip matches IpAddr::V6(a) && a == 1) ==> authentication(args)
            == Ok::<bool, StartError>(false),
        args.skip_auth && (args.bind_ip matches IpAddr::V6(a) && a != 1) ==> authentication(args)
            == Err::<bool, StartError>(StartError::SkipAuthNeedsLoopback),
        args.keychain ==> source_of(args) is Keychain,
        !args.keychain && args.password_given ==> source_of(args) is CommandLine,
        !args.keychain && !args.password_given ==> source_of(args) is Prompt,
{
}

/// The name that was given comes before that of who runs the program, and a directory that
/// was given before the one in the home directory.
pub proof fn what_was_given_comes_first(args: &Args, user: Seq<char>, home: Seq<char>, dir: Seq<char>)
    ensures
        args.username matches Some(n) ==> login_name(args, Some(user)) == Some(n@),
        args.username is None ==> login_name(args, Some(user)) == Some(user) && login_name(
            args,
            None,
        ) is None,
        cert_place(Some(dir), Some(home)) == Some(dir),
        cert_place(Some(dir), None) == Some(dir),
        cert_place(None, Some(home)) == Some(
            crate::text::joined(home, "Library/Application Support/macrdp"@),
        ),
        cert_place(None, None) is None,
        args.cert_dir matches Some(d) ==> given_dir(args) == Some(d@),
        args.cert_dir is None ==> given_dir(args) is None,
{
}

/// The keychain tool prints the password and a line break. Without success there is none;
/// what is no text is none; and neither is an empty one.
pub proof fn the_keychain_prints_a_line(password: Seq<char>, stdout: Seq<u8>)
    requires
        vstd::utf8::valid_utf8(stdout),
    ensures
        printed_password(false, stdout) == Err::<Seq<char>, KeychainError>(KeychainError::NotFound),
        vstd::utf8::decode_utf8(stdout) == password.push('\n') && password.len() > 0
            ==> printed_password(true, stdout) == Ok::<Seq<char>, KeychainError>(password),
        vstd::utf8::decode_utf8(stdout) == password && password.len() > 0 && password.last() != '\n'
            ==> printed_password(true, stdout) == Ok::<Seq<char>, KeychainError>(password),
        vstd::utf8::decode_utf8(stdout) == seq!['\n'] ==> printed_password(true, stdout) == Err::<
            Seq<char>,
            KeychainError,
        >(KeychainError::Empty),
        vstd::utf8::decode_utf8(stdout).len() == 0 ==> printed_password(true, stdout) == Err::<
            Seq<char>,
            KeychainError,
        >(KeychainError::Empty),
{
    assert(password.push('\n').drop_last() =~= password);
    assert(seq!['\n'].drop_last().len() == 0);
}

/// Five ways to encode a bitmap are offered, each once, the first without loss of colour
/// beyond level 3.
pub proof fn five_codecs_are_offered()
    ensures
        offered_codecs().len() == 5,
        offered_codecs()[0] == (BitmapCodec::NsCodec {
            dynamic_fidelity: false,
            subsampling: false,
            color_loss_level: 3,
        }),
        offered_codecs()[1] is RemoteFx,
        offered_codecs()[2] is ImageRemoteFx,
        offered_codecs()[3] is Qoi,
        offered_codecs()[4] is QoiZ,
{
}

} // verus!
