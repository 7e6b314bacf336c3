use macrdp::file_promise_lazy;
use macrdp::rdpdr;
use macrdp::reaper::{for_each_stale, pid_from_tagged, process_is_alive, SignalResult, ESRCH};

fn names(v: &[&str]) -> Vec<String> {
    v.iter().map(|s| s.to_string()).collect()
}

#[test]
fn pid_from_tagged_parses_both_schemes() {
    assert_eq!(pid_from_tagged("macrdp-rdpdr-1234", "macrdp-rdpdr-", true), Some(1234));
    assert_eq!(pid_from_tagged("macrdp-paste-1234-99", "macrdp-paste-", false), Some(1234));
    assert_eq!(
        pid_from_tagged("macrdp-lazy-paste-1234-99", "macrdp-lazy-paste-", false),
        Some(1234)
    );
    assert_eq!(pid_from_tagged("macrdp-lazy-paste-1234-99", "macrdp-paste-", false), None);
    assert_eq!(pid_from_tagged("macrdp-rdpdr-abc", "macrdp-rdpdr-", true), None);
    assert_eq!(pid_from_tagged("something-else", "macrdp-rdpdr-", true), None);
    assert_eq!(pid_from_tagged("macrdp-rdpdr-0", "macrdp-rdpdr-", true), None);
}

#[test]
fn for_each_stale_only_actions_dead_non_self_dirs() {
    let base = names(&["macrdp-paste-100-1", "macrdp-paste-200-2", "macrdp-paste-300-3"]);
    let is_alive = |pid: i32| pid == 200;
    let reaped: Vec<String> = for_each_stale(&base, "macrdp-paste-", false, 300, is_alive)
        .into_iter()
        .map(|i| base[i].clone())
        .collect();
    assert_eq!(reaped, vec!["macrdp-paste-100-1".to_string()]);
}

#[test]
fn paste_directories_are_reaped_by_their_process() {
    let own = file_promise_lazy::temp_dir_name(300, 99);
    assert_eq!(own, "macrdp-lazy-paste-300-99");
    let base = names(&["macrdp-lazy-paste-100-1", "other", own.as_str()]);
    assert_eq!(file_promise_lazy::reap_stale(&base, 300, |_| false), vec![0]);
    assert_eq!(file_promise_lazy::reap_stale(&base, 1, |_| false), vec![0, 2]);
    assert_eq!(file_promise_lazy::reap_stale(&base, 1, |_| true), Vec::<usize>::new());
}

#[test]
fn mount_points_are_reaped_by_their_process() {
    let base = names(&["macrdp-rdpdr-100", "macrdp-rdpdr-200"]);
    assert_eq!(rdpdr::reap_stale(&base, 300, |pid: i32| pid == 200), vec![0]);
}

#[test]
fn only_a_missing_process_is_dead() {
    assert!(process_is_alive(10, SignalResult::Delivered));
    assert!(process_is_alive(10, SignalResult::Failed(Some(1))));
    assert!(!process_is_alive(10, SignalResult::Failed(Some(ESRCH))));
}
