//! Keyboard scancodes and the virtual key codes of macOS.
use vstd::prelude::*;

verus! {

/// Marks a scancode without a key.
pub const NONE: u16 = 0xFFFF;

/// The key of a plain scancode.
pub open spec fn normal_key(sc: u8) -> u16 {
    if sc == 0x01 {
        0x35
    } else if sc == 0x02 {
        0x12
    } else if sc == 0x03 {
        0x13
    } else if sc == 0x04 {
        0x14
    } else if sc == 0x05 {
        0x15
    } else if sc == 0x06 {
        0x17
    } else if sc == 0x07 {
        0x16
    } else if sc == 0x08 {
        0x1A
    } else if sc == 0x09 {
        0x1C
    } else if sc == 0x0A {
        0x19
    } else if sc == 0x0B {
        0x1D
    } else if sc == 0x0C {
        0x1B
    } else if sc == 0x0D {
        0x18
    } else if sc == 0x0E {
        0x33
    } else if sc == 0x0F {
        0x30
    } else if sc == 0x10 {
        0x0C
    } else if sc == 0x11 {
        0x0D
    } else if sc == 0x12 {
        0x0E
    } else if sc == 0x13 {
        0x0F
    } else if sc == 0x14 {
        0x11
    } else if sc == 0x15 {
        0x10
    } else if sc == 0x16 {
        0x20
    } else if sc == 0x17 {
        0x22
    } else if sc == 0x18 {
        0x1F
    } else if sc == 0x19 {
        0x23
    } else if sc == 0x1A {
        0x21
    } else if sc == 0x1B {
        0x1E
    } else if sc == 0x1C {
        0x24
    } else if sc == 0x1D {
        0x3B
    } else if sc == 0x1E {
        0x00
    } else if sc == 0x1F {
        0x01
    } else if sc == 0x20 {
        0x02
    } else if sc == 0x21 {
        0x03
    } else if sc == 0x22 {
        0x05
    } else if sc == 0x23 {
        0x04
    } else if sc == 0x24 {
        0x26
    } else if sc == 0x25 {
        0x28
    } else if sc == 0x26 {
        0x25
    } else if sc == 0x27 {
        0x29
    } else if sc == 0x28 {
        0x27
    } else if sc == 0x29 {
        0x32
    } else if sc == 0x2A {
        0x38
    } else if sc == 0x2B {
        0x2A
    } else if sc == 0x2C {
        0x06
    } else if sc == 0x2D {
        0x07
    } else if sc == 0x2E {
        0x08
    } else if sc == 0x2F {
        0x09
    } else if sc == 0x30 {
        0x0B
    } else if sc == 0x31 {
        0x2D
    } else if sc == 0x32 {
        0x2E
    } else if sc == 0x33 {
        0x2B
    } else if sc == 0x34 {
        0x2F
    } else if sc == 0x35 {
        0x2C
    } else if sc == 0x36 {
        0x3C
    } else if sc == 0x37 {
        0x43
    } else if sc == 0x38 {
        0x3A
    } else if sc == 0x39 {
        0x31
    } else if sc == 0x3A {
        0x39
    } else if sc == 0x3B {
        0x7A
    } else if sc == 0x3C {
        0x78
    } else if sc == 0x3D {
        0x63
    } else if sc == 0x3E {
        0x76
    } else if sc == 0x3F {
        0x60
    } else if sc == 0x40 {
        0x61
    } else if sc == 0x41 {
        0x62
    } else if sc == 0x42 {
        0x64
    } else if sc == 0x43 {
        0x65
    } else if sc == 0x44 {
        0x6D
    } else if sc == 0x47 {
        0x59
    } else if sc == 0x48 {
        0x5B
    } else if sc == 0x49 {
        0x5C
    } else if sc == 0x4A {
        0x4E
    } else if sc == 0x4B {
        0x56
    } else if sc == 0x4C {
        0x57
    } else if sc == 0x4D {
        0x58
    } else if sc == 0x4E {
        0x45
    } else if sc == 0x4F {
        0x53
    } else if sc == 0x50 {
        0x54
    } else if sc == 0x51 {
        0x55
    } else if sc == 0x52 {
        0x52
    } else if sc == 0x53 {
        0x41
    } else if sc == 0x57 {
        0x67
    } else if sc == 0x58 {
        0x6F
    } else {
        NONE
    }
}

/// The key of a scancode after the extension prefix.
pub open spec fn extended_key(sc: u8) -> u16 {
    if sc == 0x1C {
        0x4C
    } else if sc == 0x1D {
        0x3E
    } else if sc == 0x35 {
        0x4B
    } else if sc == 0x38 {
        0x3D
    } else if sc == 0x47 {
        0x73
    } else if sc == 0x48 {
        0x7E
    } else if sc == 0x49 {
        0x74
    } else if sc == 0x4B {
        0x7B
    } else if sc == 0x4D {
        0x7C
    } else if sc == 0x4F {
        0x77
    } else if sc == 0x50 {
        0x7D
    } else if sc == 0x51 {
        0x79
    } else if sc == 0x52 {
        0x72
    } else if sc == 0x53 {
        0x75
    } else if sc == 0x5B {
        0x37
    } else if sc == 0x5C {
        0x36
    } else {
        NONE
    }
}

/// The keys of all plain scancodes.
#[verifier::rlimit(60)]
pub fn build_scancode_normal() -> (t: [u16; 256])
    ensures
        forall|i: int| 0 <= i < 256 ==> #[trigger] t@[i] == normal_key(i as u8),
{
    let mut t: [u16; 256] = [NONE; 256];
    t[0x01] = 0x35;  // Esc
    t[0x02] = 0x12;  // 1
    t[0x03] = 0x13;  // 2
    t[0x04] = 0x14;  // 3
    t[0x05] = 0x15;  // 4
    t[0x06] = 0x17;  // 5
    t[0x07] = 0x16;  // 6
    t[0x08] = 0x1A;  // 7
    t[0x09] = 0x1C;  // 8
    t[0x0A] = 0x19;  // 9
    t[0x0B] = 0x1D;  // 0
    t[0x0C] = 0x1B;  // -
    assert forall|i: int| 0 <= i < 13 implies #[trigger] t@[i] == normal_key(i as u8) by {}
    assert(forall|i: int| 13 <= i < 256 ==> #[trigger] t@[i] == NONE);
    t[0x0D] = 0x18;  // =
    t[0x0E] = 0x33;  // Backspace
    t[0x0F] = 0x30;  // Tab
    t[0x10] = 0x0C;  // Q
    t[0x11] = 0x0D;  // W
    t[0x12] = 0x0E;  // E
    t[0x13] = 0x0F;  // R
    t[0x14] = 0x11;  // T
    t[0x15] = 0x10;  // Y
    t[0x16] = 0x20;  // U
    t[0x17] = 0x22;  // I
    t[0x18] = 0x1F;  // O
    assert forall|i: int| 0 <= i < 25 implies #[trigger] t@[i] == normal_key(i as u8) by {}
    assert(forall|i: int| 25 <= i < 256 ==> #[trigger] t@[i] == NONE);
    t[0x19] = 0x23;  // P
    t[0x1A] = 0x21;  // [
    t[0x1B] = 0x1E;  // ]
    t[0x1C] = 0x24;  // Enter
    t[0x1D] = 0x3B;  // Left Ctrl
    t[0x1E] = 0x00;  // A
    t[0x1F] = 0x01;  // S
    t[0x20] = 0x02;  // D
    t[0x21] = 0x03;  // F
    t[0x22] = 0x05;  // G
    t[0x23] = 0x04;  // H
    t[0x24] = 0x26;  // J
    assert forall|i: int| 0 <= i < 37 implies #[trigger] t@[i] == normal_key(i as u8) by {}
    assert(forall|i: int| 37 <= i < 256 ==> #[trigger] t@[i] == NONE);
    t[0x25] = 0x28;  // K
    t[0x26] = 0x25;  // L
    t[0x27] = 0x29;  // ;
    t[0x28] = 0x27;  // '
    t[0x29] = 0x32;  // `
    t[0x2A] = 0x38;  // Left Shift
    t[0x2B] = 0x2A;  // backslash
    t[0x2C] = 0x06;  // Z
    t[0x2D] = 0x07;  // X
    t[0x2E] = 0x08;  // C
    t[0x2F] = 0x09;  // V
    t[0x30] = 0x0B;  // B
    assert forall|i: int| 0 <= i < 49 implies #[trigger] t@[i] == normal_key(i as u8) by {}
    assert(forall|i: int| 49 <= i < 256 ==> #[trigger] t@[i] == NONE);
    t[0x31] = 0x2D;  // N
    t[0x32] = 0x2E;  // M
    t[0x33] = 0x2B;  // ,
    t[0x34] = 0x2F;  // .
    t[0x35] = 0x2C;  // /
    t[0x36] = 0x3C;  // Right Shift
    t[0x37] = 0x43;  // numpad *
    t[0x38] = 0x3A;  // Left Alt (Option)
    t[0x39] = 0x31;  // Space
    t[0x3A] = 0x39;  // CapsLock
    t[0x3B] = 0x7A;  // F1
    t[0x3C] = 0x78;  // F2
    assert forall|i: int| 0 <= i < 61 implies #[trigger] t@[i] == normal_key(i as u8) by {}
    assert(forall|i: int| 61 <= i < 256 ==> #[trigger] t@[i] == NONE);
    t[0x3D] = 0x63;  // F3
    t[0x3E] = 0x76;  // F4
    t[0x3F] = 0x60;  // F5
    t[0x40] = 0x61;  // F6
    t[0x41] = 0x62;  // F7
    t[0x42] = 0x64;  // F8
    t[0x43] = 0x65;  // F9
    t[0x44] = 0x6D;  // F10
    t[0x47] = 0x59;  // numpad 7
    t[0x48] = 0x5B;  // numpad 8
    t[0x49] = 0x5C;  // numpad 9
    t[0x4A] = 0x4E;  // numpad -
    assert forall|i: int| 0 <= i < 75 implies #[trigger] t@[i] == normal_key(i as u8) by {}
    assert(forall|i: int| 75 <= i < 256 ==> #[trigger] t@[i] == NONE);
    t[0x4B] = 0x56;  // numpad 4
    t[0x4C] = 0x57;  // numpad 5
    t[0x4D] = 0x58;  // numpad 6
    t[0x4E] = 0x45;  // numpad +
    t[0x4F] = 0x53;  // numpad 1
    t[0x50] = 0x54;  // numpad 2
    t[0x51] = 0x55;  // numpad 3
    t[0x52] = 0x52;  // numpad 0
    t[0x53] = 0x41;  // numpad .
    t[0x57] = 0x67;  // F11
    t[0x58] = 0x6F;  // F12
    assert forall|i: int| 0 <= i < 89 implies #[trigger] t@[i] == normal_key(i as u8) by {}
    assert(forall|i: int| 89 <= i < 256 ==> #[trigger] t@[i] == NONE);
    t
}

/// The keys of all scancodes after the extension prefix.
pub fn build_scancode_extended() -> (t: [u16; 256])
    ensures
        forall|i: int| 0 <= i < 256 ==> #[trigger] t@[i] == extended_key(i as u8),
{
    let mut t: [u16; 256] = [NONE; 256];
    t[0x1C] = 0x4C;  // numpad Enter → kVK_ANSI_KeypadEnter
    t[0x1D] = 0x3E;  // right Ctrl → kVK_RightControl
    t[0x35] = 0x4B;  // numpad / → kVK_ANSI_KeypadDivide
    t[0x38] = 0x3D;  // right Alt (Option) → kVK_RightOption
    t[0x47] = 0x73;  // Home → kVK_Home
    t[0x48] = 0x7E;  // Up arrow
    t[0x49] = 0x74;  // PageUp
    t[0x4B] = 0x7B;  // Left arrow
    t[0x4D] = 0x7C;  // Right arrow
    t[0x4F] = 0x77;  // End
    t[0x50] = 0x7D;  // Down arrow
    t[0x51] = 0x79;  // PageDown
    t[0x52] = 0x72;  // Insert (no macOS equivalent — map to Help)
    t[0x53] = 0x75;  // Delete (forward delete)
    t[0x5B] = 0x37;  // left GUI / Windows → kVK_Command
    t[0x5C] = 0x36;  // right GUI → kVK_RightCommand
    t
}

/// The key that a scancode stands for.
pub open spec fn key_of(scancode: u8, extended: bool) -> Option<u16> {
    let entry = if extended {
        extended_key(scancode)
    } else {
        normal_key(scancode)
    };
    if entry == NONE {
        None
    } else {
        Some(entry)
    }
}

/// The virtual key code of a scancode, if it has one.
pub fn scancode_to_cgkeycode(scancode: u8, extended: bool) -> (r: Option<u16>)
    ensures
        r == key_of(scancode, extended),
{
    let table: [u16; 256] = if extended {
        build_scancode_extended()
    } else {
        build_scancode_normal()
    };
    let entry: u16 = table[scancode as usize];
    if entry == NONE {
        None
    } else {
        Some(entry)
    }
}

/// The virtual key codes of the numeric pad.
pub open spec fn on_numeric_pad(vk: u16) -> bool {
    ||| vk == 0x41
    ||| vk == 0x43
    ||| vk == 0x45
    ||| vk == 0x47
    ||| vk == 0x4B
    ||| vk == 0x4C
    ||| vk == 0x4E
    ||| vk == 0x51
    ||| vk == 0x52
    ||| vk == 0x53
    ||| vk == 0x54
    ||| vk == 0x55
    ||| vk == 0x56
    ||| vk == 0x57
    ||| vk == 0x58
    ||| vk == 0x59
    ||| vk == 0x5B
    ||| vk == 0x5C
}

/// Whether a virtual key belongs to the numeric pad.
pub fn is_numeric_pad_vk(vk: u16) -> (r: bool)
    ensures
        r == on_numeric_pad(vk),
{
    matches!(
        vk,
        0x41 | 0x43 | 0x45 | 0x47 | 0x4B | 0x4C | 0x4E | 0x51 | 0x52 | 0x53 | 0x54 | 0x55 | 0x56
            | 0x57 | 0x58 | 0x59 | 0x5B | 0x5C
    )
}

/// No two plain scancodes share a key, and no two extended ones do.
pub proof fn keys_are_told_apart(a: u8, b: u8)
    ensures
        normal_key(a) != NONE && normal_key(a) == normal_key(b) ==> a == b,
        extended_key(a) != NONE && extended_key(a) == extended_key(b) ==> a == b,
{
    assert(normal_key(a) != 0xFFFF && normal_key(a) == normal_key(b) ==> a == b) by (bit_vector);
    assert(extended_key(a) != 0xFFFF && extended_key(a) == extended_key(b) ==> a == b)
        by (bit_vector);
}

/// A key has either a plain scancode or an extended one, never both.
pub proof fn plain_and_extended_keys_differ(a: u8, b: u8)
    ensures
        normal_key(a) != NONE ==> normal_key(a) != extended_key(b),
{
    assert(normal_key(a) != 0xFFFF ==> normal_key(a) != extended_key(b)) by (bit_vector);
}

/// Every plain scancode gives the key that it is printed on, and no other scancode gives any.
pub proof fn plain_keys_keep_their_meaning(sc: u8)
    ensures
        sc == 0x01 ==> key_of(sc, false) == Some(0x35u16),  // Esc
        sc == 0x02 ==> key_of(sc, false) == Some(0x12u16),  // 1
        sc == 0x03 ==> key_of(sc, false) == Some(0x13u16),  // 2
        sc == 0x04 ==> key_of(sc, false) == Some(0x14u16),  // 3
        sc == 0x05 ==> key_of(sc, false) == Some(0x15u16),  // 4
        sc == 0x06 ==> key_of(sc, false) == Some(0x17u16),  // 5
        sc == 0x07 ==> key_of(sc, false) == Some(0x16u16),  // 6
        sc == 0x08 ==> key_of(sc, false) == Some(0x1Au16),  // 7
        sc == 0x09 ==> key_of(sc, false) == Some(0x1Cu16),  // 8
        sc == 0x0A ==> key_of(sc, false) == Some(0x19u16),  // 9
        sc == 0x0B ==> key_of(sc, false) == Some(0x1Du16),  // 0
        sc == 0x0C ==> key_of(sc, false) == Some(0x1Bu16),  // -
        sc == 0x0D ==> key_of(sc, false) == Some(0x18u16),  // =
        sc == 0x0E ==> key_of(sc, false) == Some(0x33u16),  // Backspace
        sc == 0x0F ==> key_of(sc, false) == Some(0x30u16),  // Tab
        sc == 0x10 ==> key_of(sc, false) == Some(0x0Cu16),  // Q
        sc == 0x11 ==> key_of(sc, false) == Some(0x0Du16),  // W
        sc == 0x12 ==> key_of(sc, false) == Some(0x0Eu16),  // E
        sc == 0x13 ==> key_of(sc, false) == Some(0x0Fu16),  // R
        sc == 0x14 ==> key_of(sc, false) == Some(0x11u16),  // T
        sc == 0x15 ==> key_of(sc, false) == Some(0x10u16),  // Y
        sc == 0x16 ==> key_of(sc, false) == Some(0x20u16),  // U
        sc == 0x17 ==> key_of(sc, false) == Some(0x22u16),  // I
        sc == 0x18 ==> key_of(sc, false) == Some(0x1Fu16),  // O
        sc == 0x19 ==> key_of(sc, false) == Some(0x23u16),  // P
        sc == 0x1A ==> key_of(sc, false) == Some(0x21u16),  // [
        sc == 0x1B ==> key_of(sc, false) == Some(0x1Eu16),  // ]
        sc == 0x1C ==> key_of(sc, false) == Some(0x24u16),  // Enter
        sc == 0x1D ==> key_of(sc, false) == Some(0x3Bu16),  // Left Ctrl
        sc == 0x1E ==> key_of(sc, false) == Some(0x00u16),  // A
        sc == 0x1F ==> key_of(sc, false) == Some(0x01u16),  // S
        sc == 0x20 ==> key_of(sc, false) == Some(0x02u16),  // D
        sc == 0x21 ==> key_of(sc, false) == Some(0x03u16),  // F
        sc == 0x22 ==> key_of(sc, false) == Some(0x05u16),  // G
        sc == 0x23 ==> key_of(sc, false) == Some(0x04u16),  // H
        sc == 0x24 ==> key_of(sc, false) == Some(0x26u16),  // J
        sc == 0x25 ==> key_of(sc, false) == Some(0x28u16),  // K
        sc == 0x26 ==> key_of(sc, false) == Some(0x25u16),  // L
        sc == 0x27 ==> key_of(sc, false) == Some(0x29u16),  // ;
        sc == 0x28 ==> key_of(sc, false) == Some(0x27u16),  // '
        sc == 0x29 ==> key_of(sc, false) == Some(0x32u16),  // `
        sc == 0x2A ==> key_of(sc, false) == Some(0x38u16),  // Left Shift
        sc == 0x2B ==> key_of(sc, false) == Some(0x2Au16),  // backslash
        sc == 0x2C ==> key_of(sc, false) == Some(0x06u16),  // Z
        sc == 0x2D ==> key_of(sc, false) == Some(0x07u16),  // X
        sc == 0x2E ==> key_of(sc, false) == Some(0x08u16),  // C
        sc == 0x2F ==> key_of(sc, false) == Some(0x09u16),  // V
        sc == 0x30 ==> key_of(sc, false) == Some(0x0Bu16),  // B
        sc == 0x31 ==> key_of(sc, false) == Some(0x2Du16),  // N
        sc == 0x32 ==> key_of(sc, false) == Some(0x2Eu16),  // M
        sc == 0x33 ==> key_of(sc, false) == Some(0x2Bu16),  // ,
        sc == 0x34 ==> key_of(sc, false) == Some(0x2Fu16),  // .
        sc == 0x35 ==> key_of(sc, false) == Some(0x2Cu16),  // /
        sc == 0x36 ==> key_of(sc, false) == Some(0x3Cu16),  // Right Shift
        sc == 0x37 ==> key_of(sc, false) == Some(0x43u16),  // numpad *
        sc == 0x38 ==> key_of(sc, false) == Some(0x3Au16),  // Left Alt (Option)
        sc == 0x39 ==> key_of(sc, false) == Some(0x31u16),  // Space
        sc == 0x3A ==> key_of(sc, false) == Some(0x39u16),  // CapsLock
        sc == 0x3B ==> key_of(sc, false) == Some(0x7Au16),  // F1
        sc == 0x3C ==> key_of(sc, false) == Some(0x78u16),  // F2
        sc == 0x3D ==> key_of(sc, false) == Some(0x63u16),  // F3
        sc == 0x3E ==> key_of(sc, false) == Some(0x76u16),  // F4
        sc == 0x3F ==> key_of(sc, false) == Some(0x60u16),  // F5
        sc == 0x40 ==> key_of(sc, false) == Some(0x61u16),  // F6
        sc == 0x41 ==> key_of(sc, false) == Some(0x62u16),  // F7
        sc == 0x42 ==> key_of(sc, false) == Some(0x64u16),  // F8
        sc == 0x43 ==> key_of(sc, false) == Some(0x65u16),  // F9
        sc == 0x44 ==> key_of(sc, false) == Some(0x6Du16),  // F10
        sc == 0x47 ==> key_of(sc, false) == Some(0x59u16),  // numpad 7
        sc == 0x48 ==> key_of(sc, false) == Some(0x5Bu16),  // numpad 8
        sc == 0x49 ==> key_of(sc, false) == Some(0x5Cu16),  // numpad 9
        sc == 0x4A ==> key_of(sc, false) == Some(0x4Eu16),  // numpad -
        sc == 0x4B ==> key_of(sc, false) == Some(0x56u16),  // numpad 4
        sc == 0x4C ==> key_of(sc, false) == Some(0x57u16),  // numpad 5
        sc == 0x4D ==> key_of(sc, false) == Some(0x58u16),  // numpad 6
        sc == 0x4E ==> key_of(sc, false) == Some(0x45u16),  // numpad +
        sc == 0x4F ==> key_of(sc, false) == Some(0x53u16),  // numpad 1
        sc == 0x50 ==> key_of(sc, false) == Some(0x54u16),  // numpad 2
        sc == 0x51 ==> key_of(sc, false) == Some(0x55u16),  // numpad 3
        sc == 0x52 ==> key_of(sc, false) == Some(0x52u16),  // numpad 0
        sc == 0x53 ==> key_of(sc, false) == Some(0x41u16),  // numpad .
        sc == 0x57 ==> key_of(sc, false) == Some(0x67u16),  // F11
        sc == 0x58 ==> key_of(sc, false) == Some(0x6Fu16),  // F12
        sc == 0 || 0x45 <= sc <= 0x46 || 0x54 <= sc <= 0x56 || sc > 0x58 ==> key_of(sc, false) is None,
{
}

/// So does every scancode after the extension prefix.
pub proof fn extended_keys_keep_their_meaning(sc: u8)
    ensures
        sc == 0x1C ==> key_of(sc, true) == Some(0x4Cu16),  // numpad Enter
        sc == 0x1D ==> key_of(sc, true) == Some(0x3Eu16),  // right Ctrl
        sc == 0x35 ==> key_of(sc, true) == Some(0x4Bu16),  // numpad /
        sc == 0x38 ==> key_of(sc, true) == Some(0x3Du16),  // right Alt (Option)
        sc == 0x47 ==> key_of(sc, true) == Some(0x73u16),  // Home
        sc == 0x48 ==> key_of(sc, true) == Some(0x7Eu16),  // Up arrow
        sc == 0x49 ==> key_of(sc, true) == Some(0x74u16),  // PageUp
        sc == 0x4B ==> key_of(sc, true) == Some(0x7Bu16),  // Left arrow
        sc == 0x4D ==> key_of(sc, true) == Some(0x7Cu16),  // Right arrow
        sc == 0x4F ==> key_of(sc, true) == Some(0x77u16),  // End
        sc == 0x50 ==> key_of(sc, true) == Some(0x7Du16),  // Down arrow
        sc == 0x51 ==> key_of(sc, true) == Some(0x79u16),  // PageDown
        sc == 0x52 ==> key_of(sc, true) == Some(0x72u16),  // Insert
        sc == 0x53 ==> key_of(sc, true) == Some(0x75u16),  // Delete (forward delete)
        sc == 0x5B ==> key_of(sc, true) == Some(0x37u16),  // left GUI / Windows
        sc == 0x5C ==> key_of(sc, true) == Some(0x36u16),  // right GUI
        sc < 0x1C || 0x1E <= sc <= 0x34 || 0x36 <= sc <= 0x37 || 0x39 <= sc <= 0x46 || sc == 0x4A || sc
            == 0x4C || sc == 0x4E || 0x54 <= sc <= 0x5A || sc > 0x5C ==> key_of(sc, true) is None,
{
}

/// The numeric pad: its digits, its four operators, the equals sign, the point, clear and
/// enter, and no key outside it; in particular the arrows are not on it.
pub proof fn the_numeric_pad_is_known(sc: u8)
    ensures
        0x47 <= sc <= 0x53 || sc == 0x37 ==> on_numeric_pad(key_of(sc, false)->0),
        sc < 0x37 || 0x38 <= sc <= 0x44 || 0x57 <= sc <= 0x58 ==> !on_numeric_pad(
            key_of(sc, false)->0,
        ) || key_of(sc, false) is None,
        sc == 0x1C || sc == 0x35 ==> on_numeric_pad(key_of(sc, true)->0),
        0x47 <= sc <= 0x5C || sc == 0x1D || sc == 0x38 ==> !on_numeric_pad(key_of(sc, true)->0)
            || key_of(sc, true) is None,
        on_numeric_pad(0x51),  // =
        on_numeric_pad(0x47),  // clear
        forall|vk: u16|
            vk < 0x41 || vk > 0x5C || vk == 0x42 || vk == 0x44 || vk == 0x46 || 0x48 <= vk <= 0x4A
                || vk == 0x4D || vk == 0x4F || vk == 0x50 || vk == 0x5A ==> !(#[trigger] on_numeric_pad(
                vk,
            )),
{
}

} // verus!
