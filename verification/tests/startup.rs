use macrdp::auth_guard::IpAddr;
use macrdp::env::Environment;
use macrdp::startup::{
    bitmap_codecs, blank_mode, cert_dir, check_flags, default_cert_dir, keychain_password,
    log_directives, log_filter, must_authenticate, overlay_mode, own_display, password_source,
    plan_session, plan_supervisor, primary_backing_size, returns_cursor, role, session_desktop,
    supervisor_display, username, worker_socket, Args, BitmapCodec, BlankMode, Desktop, KeychainError, LogFilter,
    PasswordSource, Role, StartError, UdpPlan, VideoPlan,
};
use macrdp::supervisor::{
    locate_hud_helper, worker_exit_code, worker_settle, worker_variables, Accepted, OverlayWatcher,
    Supervisor, Watch,
};
use macrdp::time::{Duration, Instant};

fn args() -> Args {
    Args {
        bind_ip: IpAddr::V4(0x7F00_0001),
        width: None,
        height: None,
        hidpi: false,
        fps: None,
        username: None,
        password_given: false,
        skip_auth: false,
        keychain: false,
        cert_dir: None,
        verbose: false,
        allow_sleep: false,
        virtual_display: false,
        make_primary: false,
        detach_primary: false,
        capture_primary: false,
        enable_h264: false,
        bitrate: 6,
        keyframe_on_change: false,
        keyframe_change_pct: 20,
        keyframe_click_pct: 5,
        keyframe_click_window_ms: 400,
        h264_frames_in_flight: 2,
        no_lazy_paste: false,
        no_mute_on_minimize: false,
        enable_aac: false,
        enable_drive_redirection: false,
        enable_smartcard_redirection: false,
        enable_udp_multitransport: false,
        no_client_resolution: false,
        app_switcher_hud: false,
        fork_workers: false,
    }
}

fn env(vars: &[(&str, &str)]) -> Environment {
    Environment::new(vars.iter().map(|(k, v)| (k.to_string(), v.to_string())).collect())
}

#[test]
fn logging_follows_the_environment_first() {
    assert_eq!(log_filter(true, true), LogFilter::Environment);
    assert_eq!(log_filter(false, true), LogFilter::Debug);
    assert_eq!(log_filter(false, false), LogFilter::Default);
    assert_eq!(log_directives(LogFilter::Debug), "debug");
    assert!(log_directives(LogFilter::Default).starts_with("info,"));
}

#[test]
fn a_worker_knows_its_socket() {
    assert_eq!(worker_socket(&env(&[("MACRDP_WORKER_FD", "9")])), Some(9));
    assert_eq!(worker_socket(&env(&[("MACRDP_WORKER_FD", "-3")])), Some(-3));
    assert_eq!(worker_socket(&env(&[("MACRDP_WORKER_FD", "2147483648")])), None);
    assert_eq!(worker_socket(&env(&[("MACRDP_WORKER_FD", "-2147483648")])), Some(i32::MIN));
    assert_eq!(worker_socket(&env(&[("MACRDP_WORKER_FD", "-+3")])), None);
    assert_eq!(worker_socket(&env(&[])), None);
    let mut a = args();
    assert_eq!(role(&a, None), Role::Single);
    a.fork_workers = true;
    assert_eq!(role(&a, None), Role::Supervisor);
    assert_eq!(role(&a, Some(9)), Role::Worker(9));
}

#[test]
fn workers_read_what_they_are_told() {
    let vars = worker_variables(12, Some(4_000_000_000));
    let e = Environment::new(vars);
    assert_eq!(worker_socket(&e), Some(12));
    assert_eq!(supervisor_display(&e), Some(4_000_000_000));
    let e = Environment::new(worker_variables(0, None));
    assert_eq!(worker_socket(&e), Some(0));
    assert_eq!(supervisor_display(&e), None);
}

#[test]
fn flags_that_do_not_go_together_are_refused() {
    let mut a = args();
    assert_eq!(check_flags(&a), Ok(()));
    a.make_primary = true;
    assert_eq!(check_flags(&a), Err(StartError::MakePrimaryNeedsVirtualDisplay));
    assert!(matches!(plan_supervisor(&a), Err(StartError::HeadlessNeedsVirtualDisplay)));
    a.make_primary = false;
    a.detach_primary = true;
    assert_eq!(check_flags(&a), Err(StartError::DetachNeedsVirtualDisplay));
    a.detach_primary = false;
    a.capture_primary = true;
    assert_eq!(check_flags(&a), Err(StartError::CaptureNeedsVirtualDisplay));
    a.detach_primary = true;
    a.virtual_display = true;
    assert_eq!(check_flags(&a), Err(StartError::CaptureExcludesDetach));
    assert!(matches!(plan_supervisor(&a), Err(StartError::CaptureExcludesDetach)));
}

#[test]
fn a_supervisor_attaches_the_display() {
    let mut a = args();
    a.virtual_display = true;
    assert!(matches!(plan_supervisor(&a), Err(StartError::VirtualDisplayNeedsWidth)));
    a.width = Some(1920);
    assert!(matches!(plan_supervisor(&a), Err(StartError::VirtualDisplayNeedsHeight)));
    a.height = Some(1080);
    a.capture_primary = true;
    a.enable_udp_multitransport = true;
    let p = plan_supervisor(&a).unwrap();
    assert_eq!(p.display, Some((1920, 1080)));
    assert_eq!(p.blank, BlankMode::Capture);
    assert!(p.prevent_sleep && p.udp_left_out && !p.hud_helper);
}

#[test]
fn detaching_comes_before_capturing() {
    let mut a = args();
    assert_eq!(blank_mode(&a), BlankMode::Off);
    a.make_primary = true;
    assert_eq!(blank_mode(&a), BlankMode::MakePrimary);
    a.capture_primary = true;
    assert_eq!(blank_mode(&a), BlankMode::Capture);
    a.detach_primary = true;
    assert_eq!(blank_mode(&a), BlankMode::Detach);
    assert_eq!(overlay_mode(&a, false), BlankMode::Detach);
    assert_eq!(overlay_mode(&a, true), BlankMode::Off);
}

#[test]
fn a_worker_leaves_the_display_to_its_supervisor() {
    let mut a = args();
    assert_eq!(own_display(&a, None), Ok(None));
    a.virtual_display = true;
    assert_eq!(own_display(&a, Some(3)), Ok(None));
    assert_eq!(own_display(&a, None), Err(StartError::VirtualDisplayNeedsWidth));
    a.width = Some(1);
    a.height = Some(2);
    assert_eq!(own_display(&a, None), Ok(Some((1, 2))));
}

#[test]
fn the_pointer_returns_from_a_display_of_its_own() {
    assert!(returns_cursor(Some(7)));
    assert!(returns_cursor(Some(0)));
    assert!(!returns_cursor(None));
}

#[test]
fn names_and_passwords() {
    let mut a = args();
    assert_eq!(username(&a, None), Err(StartError::NoUsername));
    assert_eq!(username(&a, Some("me")), Ok("me".to_string()));
    a.username = Some("alice".to_string());
    assert_eq!(username(&a, Some("me")), Ok("alice".to_string()));
    assert_eq!(password_source(&a), PasswordSource::Prompt);
    a.password_given = true;
    assert_eq!(password_source(&a), PasswordSource::CommandLine);
    a.keychain = true;
    assert_eq!(password_source(&a), PasswordSource::Keychain);
}

#[test]
fn skipping_authentication_needs_loopback() {
    let mut a = args();
    assert_eq!(must_authenticate(&a), Ok(true));
    a.skip_auth = true;
    assert_eq!(must_authenticate(&a), Ok(false));
    a.bind_ip = IpAddr::V6(1);
    assert_eq!(must_authenticate(&a), Ok(false));
    a.bind_ip = IpAddr::V4(0);
    assert_eq!(must_authenticate(&a), Err(StartError::SkipAuthNeedsLoopback));
    a.skip_auth = false;
    assert_eq!(must_authenticate(&a), Ok(true));
}

#[test]
fn keychain_output_is_one_line() {
    assert_eq!(keychain_password(true, b"secret\n".to_vec()), Ok("secret".to_string()));
    assert_eq!(keychain_password(true, b"two\n\n".to_vec()), Ok("two\n".to_string()));
    assert_eq!(keychain_password(true, b"\n".to_vec()), Err(KeychainError::Empty));
    assert_eq!(keychain_password(true, vec![0xff]), Err(KeychainError::NotText));
    assert_eq!(keychain_password(false, b"secret\n".to_vec()), Err(KeychainError::NotFound));
    assert_eq!(
        keychain_password(true, "p\u{e4}ss\n".as_bytes().to_vec()),
        Ok("p\u{e4}ss".to_string())
    );
}

#[test]
fn certificates_live_in_the_home_directory() {
    let dir = "/Users/a/Library/Application Support/macrdp".to_string();
    assert_eq!(default_cert_dir(Some("/Users/a")), Ok(dir.clone()));
    assert_eq!(default_cert_dir(None), Err(StartError::HomeNotSet));
    let mut a = args();
    assert_eq!(cert_dir(&a, Some("/Users/a")), Ok(dir));
    a.cert_dir = Some("/etc/macrdp".to_string());
    assert_eq!(cert_dir(&a, None), Ok("/etc/macrdp".to_string()));
}

#[test]
fn desktop_sizes() {
    let mut a = args();
    let plain = |width, height| Ok(Desktop { width, height, display_id: None });
    assert_eq!(session_desktop(&a, None, None, None, None), plain(1280, 720));
    assert_eq!(session_desktop(&a, None, None, Some((1512, 982)), None), plain(1512, 982));
    a.width = Some(800);
    assert_eq!(session_desktop(&a, None, None, Some((1512, 982)), None), plain(800, 982));
    a.width = None;
    a.hidpi = true;
    assert_eq!(
        session_desktop(&a, None, None, Some((1512, 982)), Some((3024, 1964))),
        plain(3024, 1964)
    );
    assert_eq!(
        session_desktop(&a, Some(5), None, None, None),
        Err(StartError::VirtualDisplayNeedsWidth)
    );
    a.width = Some(1920);
    a.height = Some(1080);
    assert_eq!(
        session_desktop(&a, Some(5), Some(6), None, None),
        Ok(Desktop { width: 1920, height: 1080, display_id: Some(5) })
    );
    assert_eq!(primary_backing_size(Some((3024, 1964))), Some((3024, 1964)));
    assert_eq!(primary_backing_size(Some((70000, 1))), None);
    assert_eq!(primary_backing_size(None), None);
}

#[test]
fn sessions_are_planned_from_the_command_line() {
    let mut a = args();
    let p = plan_session(&a, false);
    assert_eq!(p.fps, 15);
    assert!(p.auto_size && p.prevent_sleep && p.lazy_paste && p.mute_on_minimize);
    assert!(p.video.is_none() && p.redirect.is_none());
    assert_eq!(p.udp, UdpPlan::Off);
    a.enable_h264 = true;
    a.keyframe_on_change = true;
    a.bitrate = 0;
    a.h264_frames_in_flight = 0;
    a.enable_udp_multitransport = true;
    a.enable_smartcard_redirection = true;
    a.app_switcher_hud = true;
    let p = plan_session(&a, false);
    assert_eq!(p.fps, 60);
    assert_eq!(p.video, Some(VideoPlan { bitrate: 1_000_000, frames_in_flight: 1 }));
    assert!(p.click_signal && p.hud_helper);
    assert_eq!(p.redirect, Some((false, true)));
    assert_eq!(p.udp, UdpPlan::Listen);
    assert_eq!(p.keyframes.click_window, Duration::from_millis(400));
    let w = plan_session(&a, true);
    assert_eq!(w.udp, UdpPlan::OfferOnly);
    assert!(!w.prevent_sleep && !w.hud_helper);
    a.bitrate = u32::MAX;
    a.fps = Some(30);
    a.width = Some(800);
    let p = plan_session(&a, false);
    assert_eq!(p.video.unwrap().bitrate, u32::MAX);
    assert_eq!(p.fps, 30);
    assert!(!p.auto_size);
}

#[test]
fn codecs_in_order_of_preference() {
    assert_eq!(
        bitmap_codecs(),
        vec![
            BitmapCodec::NsCodec { dynamic_fidelity: false, subsampling: false, color_loss_level: 3 },
            BitmapCodec::RemoteFx,
            BitmapCodec::ImageRemoteFx,
            BitmapCodec::Qoi,
            BitmapCodec::QoiZ,
        ]
    );
}

#[test]
fn the_displays_are_engaged_with_the_first_client() {
    let mut s = Supervisor::new(BlankMode::Capture, Some(8));
    assert_eq!(s.on_accept(), Accepted { engage: Some(8), drain: None });
    s.on_spawned(Some(100));
    assert_eq!(s.on_accept(), Accepted { engage: None, drain: Some(100) });
    s.on_spawned(None);
    assert_eq!(s.on_accept(), Accepted { engage: None, drain: None });
    let mut off = Supervisor::new(BlankMode::Off, Some(8));
    assert_eq!(off.on_accept(), Accepted { engage: None, drain: None });
}

#[test]
fn workers_settle_and_end() {
    assert_eq!(worker_settle(&env(&[])), Duration::from_millis(0));
    assert_eq!(
        worker_settle(&env(&[("MACRDP_WORKER_SCK_SETTLE_MS", "250")])),
        Duration::from_millis(250)
    );
    assert_eq!(
        worker_settle(&env(&[("MACRDP_WORKER_SCK_SETTLE_MS", "soon")])),
        Duration::from_millis(0)
    );
    assert_eq!(worker_exit_code(true), 0);
    assert_eq!(worker_exit_code(false), 1);
}

#[test]
fn the_helper_is_looked_for_in_order() {
    assert_eq!(
        locate_hud_helper(&env(&[("MACRDP_HUD_HELPER", "/x")]), Some("/app/MacOS"), Some("/src")),
        vec!["/x", "/app/MacOS/../Resources/macrdphud", "/src/gui/.build/release/macrdphud"]
    );
    assert_eq!(locate_hud_helper(&env(&[]), None, None), Vec::<String>::new());
}

fn t(millis: u64) -> Instant {
    Instant { nanos: 1_000_000_000_000 }.checked_add(Duration::from_millis(millis)).unwrap()
}

#[test]
fn a_client_that_stays_sets_the_displays_aside() {
    let mut w = OverlayWatcher::new();
    assert_eq!(w.on_wake(0, t(0)), Watch::Idle);
    assert_eq!(w.on_wake(1, t(0)), Watch::Debounce(Duration::from_millis(750)));
    assert_eq!(w.on_debounced(1), Watch::Install);
    w.on_installed(true, t(750));
    assert_eq!(w.on_wake(2, t(800)), Watch::Idle);
    assert_eq!(
        w.on_wake(0, t(1750)),
        Watch::Release { after: Duration::from_millis(2000), engaged: true }
    );
    assert_eq!(w, OverlayWatcher::new());
}

#[test]
fn a_client_that_flaps_changes_nothing() {
    let mut w = OverlayWatcher::new();
    assert_eq!(w.on_wake(1, t(0)), Watch::Debounce(Duration::from_millis(750)));
    assert_eq!(w.on_debounced(0), Watch::Idle);
    assert_eq!(w, OverlayWatcher::new());
}

#[test]
fn displays_that_could_not_be_set_aside_are_not_brought_back() {
    let mut w = OverlayWatcher::new();
    w.on_wake(1, t(0));
    w.on_installed(false, t(750));
    assert_eq!(
        w.on_wake(0, t(9000)),
        Watch::Release { after: Duration::from_millis(0), engaged: false }
    );
}
