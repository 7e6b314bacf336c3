use macrdp::env::{env_millis, env_on, env_positive, env_u64, Environment};
use macrdp::multitransport::{MacMultitransport, RequestedProtocol};
use macrdp::order::sorted_positions;
use macrdp::text::{
    chars_of, concat2, decimal_text, join_path, lines, lower, parse_hex32, parse_i32, parse_u64,
    split_once, string_of, strip_prefix, trim, words,
};
use macrdp::time::{Duration, Instant};
use macrdp::wire::{be32_at, push_be16, push_be32};

fn text(v: &[char]) -> String {
    v.iter().collect()
}

fn texts(v: &[Vec<char>]) -> Vec<String> {
    v.iter().map(|t| text(t)).collect()
}

#[test]
fn texts_are_cut_as_the_standard_library_does() {
    for s in ["", " a ", "\t\u{a0}x\u{2003}", "a\nb\r\nc", "a\n", "\n", " one  two\tthree ", "k=v=w"] {
        let c = chars_of(s);
        assert_eq!(text(&trim(&c)), s.trim());
        assert_eq!(texts(&lines(&c)), s.lines().map(|l| l.to_string()).collect::<Vec<_>>());
        assert_eq!(
            texts(&words(&c)),
            s.split_whitespace().map(|w| w.to_string()).collect::<Vec<_>>()
        );
        assert_eq!(
            split_once(&c, '=').map(|(a, b)| (text(&a), text(&b))),
            s.split_once('=').map(|(a, b)| (a.to_string(), b.to_string()))
        );
        assert_eq!(text(&lower(&c)), s.to_ascii_lowercase());
        assert_eq!(string_of(&c), s);
    }
    assert_eq!(strip_prefix(&chars_of("export A"), "export ").map(|v| text(&v)), Some("A".into()));
    assert_eq!(strip_prefix(&chars_of("exp"), "export "), None);
    assert_eq!(concat2("a", "b"), "ab");
}

#[test]
fn numerals_are_read_as_the_standard_library_does() {
    for s in ["", "0", "+7", "-7", "00012", "18446744073709551615", "18446744073709551616", "1a", "+", "--1", "2147483647", "2147483648", "-2147483649"] {
        assert_eq!(parse_u64(s), s.parse::<u64>().ok(), "{s:?}");
        assert_eq!(parse_i32(s), s.parse::<i32>().ok(), "{s:?}");
    }
    for n in [0u128, 7, 10, 12345678901234567890] {
        assert_eq!(decimal_text(n), n.to_string());
    }
    assert_eq!(parse_hex32(&chars_of("040c")), Some(0x040c));
    assert_eq!(parse_hex32(&chars_of("g")), None);
}

#[test]
fn paths_are_joined_with_one_slash() {
    assert_eq!(join_path("/a", "b"), "/a/b");
    assert_eq!(join_path("/a/", "b"), "/a/b");
}

fn env(vars: &[(&str, &str)]) -> Environment {
    Environment::new(vars.iter().map(|(k, v)| (k.to_string(), v.to_string())).collect())
}

#[test]
fn switches_and_numbers_come_from_the_environment() {
    let e = env(&[("A", "1"), ("B", " OFF "), ("C", ""), ("N", " 12 "), ("Z", "0"), ("A", "0")]);
    assert!(env_on(&e, "A", false));
    assert!(!env_on(&e, "B", true));
    assert!(!env_on(&e, "C", true));
    assert!(env_on(&e, "missing", true));
    assert_eq!(env_u64(&e, "N", 5), 12);
    assert_eq!(env_u64(&e, "Z", 5), 0);
    assert_eq!(env_positive(&e, "Z", 100, 5), 5);
    assert_eq!(env_positive(&e, "N", 11, 5), 5);
    assert_eq!(env_millis(&e, "N", 5), Duration::from_millis(12));
}

#[test]
fn sorting_keeps_equal_keys_in_order() {
    assert_eq!(sorted_positions(&vec![3, 1, 3, 2, 1]), vec![1, 4, 3, 0, 2]);
    assert_eq!(sorted_positions(&Vec::new()), Vec::<usize>::new());
}

#[test]
fn numbers_on_the_wire_are_big_endian() {
    let mut b = Vec::new();
    push_be16(&mut b, 0x0102);
    push_be32(&mut b, 0x0304_0506);
    assert_eq!(b, vec![1, 2, 3, 4, 5, 6]);
    assert_eq!(be32_at(&b, 2), 0x0304_0506);
}

#[test]
fn time_does_not_run_backwards() {
    let t = Instant { nanos: 5_000_000_000 };
    let later = t.checked_add(Duration::from_secs(2)).unwrap();
    assert_eq!(later.saturating_duration_since(t), Duration::from_secs(2));
    assert_eq!(t.saturating_duration_since(later), Duration::from_secs(0));
    assert_eq!(t.checked_sub(Duration::from_secs(6)), None);
    assert_eq!(Duration::from_millis(1500).as_millis(), 1500);
    assert_eq!(
        Duration::from_secs(2).min(Duration::from_secs(1)),
        Duration::from_secs(1)
    );
}

#[test]
fn only_the_reliable_transport_is_offered() {
    assert_eq!(MacMultitransport.requested_protocol(), RequestedProtocol::UdpFecR);
}
