use macrdp::file_promise_lazy::{
    clear_pasteboard_if_stale, plan_paste, register_shutdown_cleanup, screen_entries,
    shutdown_cleanup, spawn_lazy_paste, PasteState, Presenters, ReadAction, RemoteEntry, Screen,
    Spawn,
};

fn file(index: i32, size: Option<u64>, below: Option<&str>) -> RemoteEntry {
    RemoteEntry { index, is_dir: false, size, relative_path: below.map(|s| s.to_string()) }
}

fn dir(index: i32, below: Option<&str>) -> RemoteEntry {
    RemoteEntry { index, is_dir: true, size: None, relative_path: below.map(|s| s.to_string()) }
}

#[test]
fn offers_need_sizes() {
    assert_eq!(screen_entries(&Vec::new()), Screen::Nothing);
    assert_eq!(screen_entries(&vec![dir(0, None), file(1, None, Some("a"))]), Screen::Refuse);
    assert_eq!(screen_entries(&vec![dir(0, None), file(1, Some(3), Some("a"))]), Screen::Proceed);
}

#[test]
fn outer_directories_are_made_first() {
    let entries = vec![
        dir(0, Some("a\\b")),
        file(1, Some(7), Some("a\\b\\f")),
        dir(2, None),
        file(3, Some(9), None),
        dir(4, Some("c")),
    ];
    let depths = vec![Some(5), Some(6), Some(3), Some(3), Some(4)];
    let p = plan_paste(&entries, &depths).unwrap();
    assert_eq!(p.dirs, vec![2, 4, 0]);
    assert_eq!(p.files, vec![(1, 7), (3, 9)]);
    assert_eq!(p.top_level, vec![2, 3]);
    assert!(plan_paste(&entries, &vec![Some(1), None, Some(1), Some(1), Some(1)]).is_none());
}

#[test]
fn a_file_is_fetched_once() {
    let mut p = Presenters::new();
    let a = p.register();
    let b = p.register();
    assert_eq!((a, b), (1, 2));
    assert_eq!(p.on_read(a), ReadAction::Download);
    assert!(!p.on_download(a, true));
    assert_eq!(p.on_read(a), ReadAction::Release);
    assert!(p.on_download(b, false));
    assert_eq!(p.on_read(b), ReadAction::Release);
    assert_eq!(p.on_read(99), ReadAction::Release);
}

#[test]
fn a_new_paste_clears_the_one_before() {
    let mut p = Presenters::new();
    let a = p.register();
    p.present(a);
    let b = p.register();
    let mut s = PasteState::new();
    s.temp_dir = Some("/tmp/x".to_string());
    assert_eq!(s.cleanup_previous(&mut p), (Some("/tmp/x".to_string()), vec![a]));
    assert_eq!(s.temp_dir, None);
    assert_eq!(p.on_read(a), ReadAction::Release);
    assert_eq!(p.on_read(b), ReadAction::Download);
    assert_eq!(s.cleanup_previous(&mut p), (None, Vec::new()));
}

#[test]
fn the_pasteboard_is_cleared_only_while_it_is_ours() {
    assert!(clear_pasteboard_if_stale(5, 5));
    assert!(!clear_pasteboard_if_stale(5, 6));
    assert!(!clear_pasteboard_if_stale(-1, -1));
    let mut p = Presenters::new();
    let mut s = PasteState::new();
    s.on_pasteboard_changed(4);
    let c = s.cleanup_on_disconnect(&mut p, 4);
    assert!(c.clear_pasteboard);
    assert_eq!(c.remove_dir, None);
    assert!(!s.cleanup_on_disconnect(&mut p, 7).clear_pasteboard);
}

#[test]
fn the_first_registration_is_cleaned_up() {
    let mut p = Presenters::new();
    let mut slot = None;
    assert!(shutdown_cleanup(&mut slot, &mut p, 0).is_none());
    let mut first = PasteState::new();
    first.temp_dir = Some("/tmp/first".to_string());
    register_shutdown_cleanup(&mut slot, first);
    let mut second = PasteState::new();
    second.temp_dir = Some("/tmp/second".to_string());
    register_shutdown_cleanup(&mut slot, second);
    let c = shutdown_cleanup(&mut slot, &mut p, 0).unwrap();
    assert_eq!(c.remove_dir, Some("/tmp/first".to_string()));
}

#[test]
fn an_offer_that_is_refused_leaves_the_earlier_paste() {
    let mut p = Presenters::new();
    let a = p.register();
    p.present(a);
    let mut s = PasteState::new();
    s.temp_dir = Some("/tmp/x".to_string());
    assert!(matches!(spawn_lazy_paste(&Vec::new(), &mut s, &mut p), Spawn::Nothing));
    let unsized_file = vec![file(1, None, None)];
    assert!(matches!(spawn_lazy_paste(&unsized_file, &mut s, &mut p), Spawn::Fallback));
    assert_eq!(p.on_read(a), ReadAction::Download);
    assert_eq!(s.temp_dir, Some("/tmp/x".to_string()));
    match spawn_lazy_paste(&vec![file(1, Some(2), None)], &mut s, &mut p) {
        Spawn::Clear { remove_dir, unregister } => {
            assert_eq!(remove_dir, Some("/tmp/x".to_string()));
            assert_eq!(unregister, vec![a]);
        }
        other => panic!("expected a clean start, got {other:?}"),
    }
    assert_eq!(p.on_read(a), ReadAction::Release);
}
