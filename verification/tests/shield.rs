use macrdp::env::Environment;
use macrdp::shield::{
    connect_failed, encode_hide, encode_show, hide_all, port, show, Retry, ShieldError,
};
use macrdp::time::Duration;

#[test]
fn show_frame_is_opcode_count_then_ids() {
    assert_eq!(
        encode_show(&[0x0102_0304, 0x0A0B_0C0D]),
        vec![1, 0, 2, 0x01, 0x02, 0x03, 0x04, 0x0A, 0x0B, 0x0C, 0x0D]
    );
}

#[test]
fn show_frame_with_one_display() {
    assert_eq!(encode_show(&[7]), vec![1, 0, 1, 0, 0, 0, 7]);
}

#[test]
fn hide_frame_is_bare_opcode() {
    assert_eq!(encode_hide(), vec![3]);
    assert_eq!(hide_all(), vec![3]);
}

#[test]
fn show_rejects_an_empty_display_list() {
    assert!(show(&[]).is_err());
    assert_eq!(show(&[]), Err(ShieldError::NoDisplays));
    assert_eq!(show(&[7]), Ok(vec![1, 0, 1, 0, 0, 0, 7]));
}

#[test]
fn the_port_can_be_set() {
    let env = |v: &str| {
        Environment::new(vec![("MACRDP_SHIELD_PORT".to_string(), v.to_string())])
    };
    assert_eq!(port(&Environment::new(Vec::new())), 40244);
    assert_eq!(port(&env("5000")), 5000);
    assert_eq!(port(&env("70000")), 40244);
    assert_eq!(port(&env(" 5000")), 40244);
}

#[test]
fn the_helper_is_tried_three_times() {
    assert_eq!(connect_failed(0), Retry::After(Duration::from_millis(100)));
    assert_eq!(connect_failed(1), Retry::After(Duration::from_millis(100)));
    assert_eq!(connect_failed(2), Retry::GiveUp);
}
