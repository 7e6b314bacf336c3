use macrdp::config::{args_from_config, Config};

fn flag(argv: &[String], name: &str) -> bool {
    argv.iter().any(|a| a == name)
}

fn value<'a>(argv: &'a [String], name: &str) -> Option<&'a str> {
    let at = argv.iter().position(|a| a == name)?;
    argv.get(at + 1).map(|s| s.as_str())
}

#[test]
fn parses_full_config_into_flags() {
    let args = args_from_config(
        "# a comment, then a blank line\n\
         \n\
         export BIND=0.0.0.0:3390\n\
         USERNAME=alice\n\
         ENABLE_H264=1\n\
         ENABLE_AAC=0\n\
         HIDPI=1\n\
         UNMINIMIZE=1\n\
         VIRTUAL_DISPLAY=1\n\
         VD_WIDTH=2560\n\
         VD_HEIGHT=1440\n\
         PRIMARY_MODE=detach\n\
         FORK_WORKERS=1\n\
         ENABLE_UDP_MULTITRANSPORT=1\n\
         EXTRA_FLAGS=\"--fps 30\"\n",
        Some("me"),
    );
    assert_eq!(args[0], "macrdp");
    assert_eq!(value(&args, "--bind"), Some("0.0.0.0:3390"));
    assert_eq!(value(&args, "--username"), Some("alice"));
    assert!(flag(&args, "--enable-h264"));
    assert!(!flag(&args, "--enable-aac"));
    assert!(flag(&args, "--hidpi"));
    assert!(flag(&args, "--unminimize-on-switch"));
    assert!(flag(&args, "--virtual-display"));
    assert_eq!(value(&args, "--width"), Some("2560"));
    assert_eq!(value(&args, "--height"), Some("1440"));
    assert!(flag(&args, "--detach-primary"));
    assert!(!flag(&args, "--capture-primary"));
    assert!(flag(&args, "--fork-workers"));
    assert!(flag(&args, "--enable-udp-multitransport"));
    assert!(flag(&args, "--keychain"));
    assert_eq!(value(&args, "--fps"), Some("30"));
}

#[test]
fn empty_config_matches_wrapper_defaults() {
    let args = args_from_config("\n# nothing set\n", None);
    assert_eq!(value(&args, "--bind"), Some("127.0.0.1:3390"));
    assert!(flag(&args, "--keychain"));
    assert!(!flag(&args, "--virtual-display"));
    assert!(!flag(&args, "--enable-h264"));
    assert!(!flag(&args, "--fork-workers"));
    assert!(!flag(&args, "--enable-udp-multitransport"));
    assert_eq!(args, vec!["macrdp", "--bind", "127.0.0.1:3390", "--keychain"]);
}

#[test]
fn capture_primary_backcompat() {
    let args = args_from_config(
        "VIRTUAL_DISPLAY=1\n\
         VD_WIDTH=1920\n\
         VD_HEIGHT=1080\n\
         CAPTURE_PRIMARY=1\n\
         USE_KEYCHAIN=0\n",
        None,
    );
    assert!(flag(&args, "--capture-primary"));
    assert!(!flag(&args, "--detach-primary"));
    assert!(!flag(&args, "--keychain"));
}

#[test]
fn primary_mode_wins_over_legacy_capture_primary() {
    let args = args_from_config(
        "VIRTUAL_DISPLAY=1\nVD_WIDTH=1920\nVD_HEIGHT=1080\nPRIMARY_MODE=detach\nCAPTURE_PRIMARY=1\n",
        None,
    );
    assert!(flag(&args, "--detach-primary"));
    assert!(!flag(&args, "--capture-primary"));
}

#[test]
fn who_runs_the_program_is_the_default_user() {
    assert_eq!(value(&args_from_config("", Some("me")), "--username"), Some("me"));
    assert!(!flag(&args_from_config("USERNAME=\n", Some("me")), "--username"));
}

#[test]
fn settings_are_read_as_a_shell_would() {
    let c = Config::parse("  A = 1 \n#B=2\nC='x y'\nD=\"\nE=a=b\nnothing\nA=3\n F=\"q'\n");
    let get = |k: &str| c.get(k).map(|v| v.iter().collect::<String>());
    assert_eq!(get("A"), Some("3".to_string()));
    assert_eq!(get("B"), None);
    assert_eq!(get("C"), Some("x y".to_string()));
    assert_eq!(get("D"), Some("\"".to_string()));
    assert_eq!(get("E"), Some("a=b".to_string()));
    assert_eq!(get("F"), Some("\"q'".to_string()));
    assert_eq!(get("nothing"), None);
    assert!(!c.on("A", true));
    assert!(c.on("G", true));
}

#[test]
fn lists_and_layouts_are_passed_on() {
    let args = args_from_config(
        "NO_REMAP_APPS=a,b\nKEYBOARD_LAYOUT=fr\nEXTRA_FLAGS=' --stretch  -v '\n",
        None,
    );
    assert_eq!(value(&args, "--no-remap-apps"), Some("a,b"));
    assert_eq!(value(&args, "--keyboard-layout"), Some("fr"));
    assert_eq!(&args[args.len() - 2..], &["--stretch", "-v"]);
}
