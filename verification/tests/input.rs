use macrdp::keyboard_layout::{
    is_translatable_keycode, modifier_state, parse_klid, probe_order, resolve, reverse_map,
    spec_to_language, spec_to_source_id,
};
use macrdp::scancodes::{is_numeric_pad_vk, scancode_to_cgkeycode};

#[test]
fn normal_letters_and_modifiers_map() {
    assert_eq!(scancode_to_cgkeycode(0x1E, false), Some(0x00));
    assert_eq!(scancode_to_cgkeycode(0x10, false), Some(0x0C));
    assert_eq!(scancode_to_cgkeycode(0x39, false), Some(0x31));
    assert_eq!(scancode_to_cgkeycode(0x1C, false), Some(0x24));
    assert_eq!(scancode_to_cgkeycode(0x1D, false), Some(0x3B));
    assert_eq!(scancode_to_cgkeycode(0x2A, false), Some(0x38));
}

#[test]
fn extended_flag_selects_a_different_table() {
    assert_eq!(scancode_to_cgkeycode(0x1D, false), Some(0x3B));
    assert_eq!(scancode_to_cgkeycode(0x1D, true), Some(0x3E));
    assert_eq!(scancode_to_cgkeycode(0x48, false), Some(0x5B));
    assert_eq!(scancode_to_cgkeycode(0x48, true), Some(0x7E));
    assert_eq!(scancode_to_cgkeycode(0x5B, true), Some(0x37));
    assert_eq!(scancode_to_cgkeycode(0x5B, false), None);
}

#[test]
fn unmapped_scancodes_return_none() {
    assert_eq!(scancode_to_cgkeycode(0x00, false), None);
    assert_eq!(scancode_to_cgkeycode(0xFF, false), None);
    assert_eq!(scancode_to_cgkeycode(0x46, false), None);
    assert_eq!(scancode_to_cgkeycode(0x00, true), None);
    assert_eq!(scancode_to_cgkeycode(0xFF, true), None);
}

#[test]
fn numeric_pad_classification() {
    assert!(is_numeric_pad_vk(0x52));
    assert!(is_numeric_pad_vk(0x59));
    assert!(is_numeric_pad_vk(0x4C));
    assert!(!is_numeric_pad_vk(0x00));
    assert!(!is_numeric_pad_vk(0x24));
    assert!(!is_numeric_pad_vk(0x46));
}

#[test]
fn keys_of_one_table_are_told_apart() {
    for extended in [false, true] {
        let mut seen: Vec<u16> = Vec::new();
        for code in 0..=255u8 {
            if let Some(vk) = scancode_to_cgkeycode(code, extended) {
                assert!(!seen.contains(&vk), "{vk:#x} is mapped twice");
                seen.push(vk);
            }
        }
        assert!(!seen.is_empty());
    }
}

#[test]
fn spec_resolution_prefers_names_then_klids() {
    assert_eq!(spec_to_source_id("french"), Some("com.apple.keylayout.French"));
    assert_eq!(spec_to_source_id("FR"), Some("com.apple.keylayout.French"));
    assert_eq!(spec_to_source_id("de"), Some("com.apple.keylayout.German"));
    assert_eq!(spec_to_source_id("0x040C"), Some("com.apple.keylayout.French"));
    assert_eq!(spec_to_source_id("040c"), Some("com.apple.keylayout.French"));
    assert_eq!(spec_to_source_id("0x0407"), Some("com.apple.keylayout.German"));
    assert_eq!(spec_to_source_id("nonsense"), None);
}

#[test]
fn translatable_range_excludes_return_tab_space() {
    assert!(is_translatable_keycode(0x00));
    assert!(is_translatable_keycode(0x0A));
    assert!(is_translatable_keycode(0x32));
    assert!(!is_translatable_keycode(0x24));
    assert!(!is_translatable_keycode(0x30));
    assert!(!is_translatable_keycode(0x31));
    assert!(!is_translatable_keycode(0x33));
    assert!(!is_translatable_keycode(0x37));
    assert!(!is_translatable_keycode(0x7E));
}

#[test]
fn layout_numbers_are_hexadecimal() {
    assert_eq!(parse_klid("0x040C"), Some(0x040C));
    assert_eq!(parse_klid("00000407"), Some(0x0407));
    assert_eq!(parse_klid("xyz"), None);
    assert_eq!(parse_klid("de"), None);
    assert_eq!(parse_klid("BE"), None);
    assert_eq!(parse_klid("da"), Some(0xDA));
    assert_eq!(parse_klid("0xde"), Some(0xDE));
    assert_eq!(parse_klid("123456789"), None);
}

#[test]
fn unknown_layouts_resolve_to_nothing() {
    let r = resolve("nonsense");
    assert_eq!(r.label(false, false), None);
    assert_eq!(spec_to_language("nonsense"), None);
}

#[test]
fn modifiers_combine() {
    assert_eq!(modifier_state(false, false, false), 0);
    let all = modifier_state(true, true, true);
    assert_eq!(
        all,
        modifier_state(true, false, false)
            + modifier_state(false, true, false)
            + modifier_state(false, false, true)
    );
}

#[test]
fn typed_characters_come_from_the_first_keystroke_that_makes_them() {
    let order = probe_order();
    let texts: Vec<Option<String>> = order
        .iter()
        .map(|&(vk, shift, option)| match (vk, shift, option) {
            (0x00, false, false) => Some("a".to_string()),
            (0x00, true, false) => Some("A".to_string()),
            (0x31, _, false) => Some(" ".to_string()),
            (0x12, true, false) => Some("!".to_string()),
            _ => None,
        })
        .collect();
    let map = reverse_map(&texts);
    assert_eq!(map.get('a'), Some((0x00, false, false)));
    assert_eq!(map.get('A'), Some((0x00, true, false)));
    assert_eq!(map.get(' '), Some((0x31, false, false)));
    assert_eq!(map.get('!'), Some((0x12, true, false)));
    assert_eq!(map.get('z'), None);
}
