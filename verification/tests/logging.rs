use macrdp::env::Environment;
use macrdp::logging::{
    default_log_dir, env_u64, env_usize, file_name, log_dir, rotation_plan, FileOp, Rotator,
    DEFAULT_MAX_BYTES, DEFAULT_MAX_FILES,
};
use std::collections::HashMap;

/// A directory in memory, and the writer that keeps its log in it.
struct Logs {
    files: HashMap<String, Vec<u8>>,
    rotator: Rotator,
}

impl Logs {
    fn open(max_bytes: u64, max_files: usize) -> Logs {
        let mut files = HashMap::new();
        files.insert(file_name(0), Vec::new());
        Logs { files, rotator: Rotator::open(0, max_bytes, max_files) }
    }

    fn holds(&self, name: &str) -> bool {
        self.files.contains_key(name)
    }

    fn write_all(&mut self, bytes: &[u8]) {
        if self.rotator.needs_rotation(bytes.len() as u64) {
            let max_files = self.rotator.max_files;
            let present: Vec<bool> = (0..max_files).map(|n| self.holds(&file_name(n))).collect();
            for op in rotation_plan(&present, max_files) {
                match op {
                    FileOp::Rename { from, to } => {
                        let body = self.files.remove(&file_name(from)).unwrap();
                        self.files.insert(file_name(to), body);
                    }
                    FileOp::Remove(n) => {
                        self.files.remove(&file_name(n));
                    }
                    FileOp::Create(n) => {
                        self.files.insert(file_name(n), Vec::new());
                    }
                }
            }
            self.rotator.rotated();
        }
        self.files.get_mut(&file_name(0)).unwrap().extend_from_slice(bytes);
        self.rotator.wrote(bytes.len() as u64);
    }
}

#[test]
fn rotates_at_threshold() {
    let mut r = Logs::open(100, 5);
    r.write_all(&[b'a'; 80]);
    assert!(!r.holds("macrdp.log.1"));
    r.write_all(&[b'b'; 80]);
    assert!(r.holds("macrdp.log.1"), "archive should exist");
    let live = &r.files["macrdp.log"];
    assert_eq!(live.len(), 80);
    assert_eq!(live[0], b'b');
    assert_eq!(r.files["macrdp.log.1"], vec![b'a'; 80]);
}

#[test]
fn respects_max_files_cap() {
    let max_files = 2;
    let mut r = Logs::open(50, max_files);
    for _ in 0..6 {
        r.write_all(&[b'x'; 60]);
    }
    assert!(r.holds("macrdp.log"));
    assert!(r.holds("macrdp.log.1"));
    assert!(r.holds("macrdp.log.2"));
    assert!(
        !r.holds(&format!("macrdp.log.{}", max_files + 1)),
        "must not keep more than max_files archives"
    );
}

#[test]
fn appends_and_seeds_counter_on_open() {
    let r = Rotator::open("preexisting-content".len() as u64, 1024, 5);
    assert_eq!(r.written, "preexisting-content".len() as u64);
}

#[test]
fn env_parsing_falls_back_to_defaults() {
    let env = Environment::new(Vec::new());
    assert_eq!(
        env_u64(&env, "MACRDP_LOG_MAX_BYTES_NOPE", DEFAULT_MAX_BYTES),
        DEFAULT_MAX_BYTES
    );
    assert_eq!(
        env_usize(&env, "MACRDP_LOG_MAX_FILES_NOPE", DEFAULT_MAX_FILES),
        DEFAULT_MAX_FILES
    );
}

#[test]
fn without_archives_the_log_starts_anew() {
    let mut r = Logs::open(50, 0);
    r.write_all(&[b'a'; 40]);
    r.write_all(&[b'b'; 40]);
    assert_eq!(r.files["macrdp.log"], vec![b'b'; 40]);
    assert!(!r.holds("macrdp.log.1"));
}

#[test]
fn the_oldest_archive_makes_room() {
    let mut r = Logs::open(1, 2);
    for c in [b'a', b'b', b'c', b'd'] {
        r.write_all(&[c]);
    }
    assert_eq!(r.files["macrdp.log"], vec![b'd']);
    assert_eq!(r.files["macrdp.log.1"], vec![b'c']);
    assert_eq!(r.files["macrdp.log.2"], vec![b'b']);
}

#[test]
fn logs_go_to_the_home_directory_unless_told_otherwise() {
    assert_eq!(default_log_dir(Some("/Users/a")), Some("/Users/a/Library/Logs".to_string()));
    assert_eq!(default_log_dir(None), None);
    assert_eq!(log_dir(Some("/tmp/x"), true, None), Some("/tmp/x".to_string()));
    assert_eq!(log_dir(None, true, Some("/Users/a")), None);
    assert_eq!(
        log_dir(None, false, Some("/Users/a")),
        Some("/Users/a/Library/Logs".to_string())
    );
}

#[test]
fn limits_come_from_the_environment() {
    let env = Environment::new(vec![
        ("MACRDP_LOG_MAX_BYTES".to_string(), "123".to_string()),
        ("MACRDP_LOG_MAX_FILES".to_string(), "7".to_string()),
    ]);
    let r = Rotator::from_env(&env, 5);
    assert_eq!((r.written, r.max_bytes, r.max_files), (5, 123, 7));
}
