//! Input injection into the host desktop: which key, button and mapping requests
//! an input event becomes, and what is held down meanwhile.
//!
//! Coordinates and scroll distances arrive here already turned into whole
//! pixels and clicks.
use vstd::prelude::*;

use crate::proto::{KeyCode, MouseButton};
use crate::text::{chars_of, code_point};
use crate::xkeys::{
    cell, char_keysym, empty_keys, empty_row, key_for, keysym_of_char, row_count, slot_with, Layout,
    PoolState, ScratchPool,
};

verus! {

/// The character that a key types without Shift on a US keyboard.
pub open spec fn typed_by(key: KeyCode) -> Option<char> {
    match key {
        KeyCode::A => Some('a'), KeyCode::B => Some('b'), KeyCode::C => Some('c'),
        KeyCode::D => Some('d'), KeyCode::E => Some('e'), KeyCode::F => Some('f'),
        KeyCode::G => Some('g'), KeyCode::H => Some('h'), KeyCode::I => Some('i'),
        KeyCode::J => Some('j'), KeyCode::K => Some('k'), KeyCode::L => Some('l'),
        KeyCode::M => Some('m'), KeyCode::N => Some('n'), KeyCode::O => Some('o'),
        KeyCode::P => Some('p'), KeyCode::Q => Some('q'), KeyCode::R => Some('r'),
        KeyCode::S => Some('s'), KeyCode::T => Some('t'), KeyCode::U => Some('u'),
        KeyCode::V => Some('v'), KeyCode::W => Some('w'), KeyCode::X => Some('x'),
        KeyCode::Y => Some('y'), KeyCode::Z => Some('z'), KeyCode::Digit0 => Some('0'),
        KeyCode::Digit1 => Some('1'), KeyCode::Digit2 => Some('2'),
        KeyCode::Digit3 => Some('3'), KeyCode::Digit4 => Some('4'),
        KeyCode::Digit5 => Some('5'), KeyCode::Digit6 => Some('6'),
        KeyCode::Digit7 => Some('7'), KeyCode::Digit8 => Some('8'),
        KeyCode::Digit9 => Some('9'), KeyCode::Space => Some(' '),
        KeyCode::Minus => Some('-'), KeyCode::Equal => Some('='),
        KeyCode::BracketLeft => Some('['), KeyCode::BracketRight => Some(']'),
        KeyCode::Backslash => Some('\\'), KeyCode::Semicolon => Some(';'),
        KeyCode::Quote => Some('\''), KeyCode::Backquote => Some('`'),
        KeyCode::Comma => Some(','), KeyCode::Period => Some('.'),
        KeyCode::Slash => Some('/'),
        _ => None,
    }
}

/// The keysym of a key that types no character.
pub open spec fn control_keysym(key: KeyCode) -> u32 {
    match key {
        KeyCode::F1 => 0xffbe, KeyCode::F2 => 0xffbf, KeyCode::F3 => 0xffc0,
        KeyCode::F4 => 0xffc1, KeyCode::F5 => 0xffc2, KeyCode::F6 => 0xffc3,
        KeyCode::F7 => 0xffc4, KeyCode::F8 => 0xffc5, KeyCode::F9 => 0xffc6,
        KeyCode::F10 => 0xffc7, KeyCode::F11 => 0xffc8, KeyCode::F12 => 0xffc9,
        KeyCode::ShiftLeft => 0xffe1, KeyCode::ShiftRight => 0xffe2,
        KeyCode::ControlLeft => 0xffe3, KeyCode::ControlRight => 0xffe4,
        KeyCode::AltLeft => 0xffe9, KeyCode::AltRight => 0xffea,
        KeyCode::MetaLeft => 0xffeb, KeyCode::MetaRight => 0xffec,
        KeyCode::Escape => 0xff1b, KeyCode::Tab => 0xff09, KeyCode::CapsLock => 0xffe5,
        KeyCode::Enter => 0xff0d, KeyCode::Backspace => 0xff08, KeyCode::Delete => 0xffff,
        KeyCode::Insert => 0xff63, KeyCode::Home => 0xff50, KeyCode::End => 0xff57,
        KeyCode::PageUp => 0xff55, KeyCode::PageDown => 0xff56, KeyCode::ArrowUp => 0xff52,
        KeyCode::ArrowDown => 0xff54, KeyCode::ArrowLeft => 0xff51,
        KeyCode::ArrowRight => 0xff53,
        _ => 0,
    }
}

/// The X keysym of a key: the character that it types, or the number of the
/// function that it has.
pub open spec fn keysym_of(key: KeyCode) -> u32 {
    match typed_by(key) {
        Some(c) => c as u32,
        None => control_keysym(key),
    }
}

/// X keysym for each portable key.
pub fn keysym(key: KeyCode) -> (r: u32)
    ensures
        r == keysym_of(key),
{
    match key {
        KeyCode::A => 0x61, KeyCode::B => 0x62, KeyCode::C => 0x63, KeyCode::D => 0x64,
        KeyCode::E => 0x65, KeyCode::F => 0x66, KeyCode::G => 0x67, KeyCode::H => 0x68,
        KeyCode::I => 0x69, KeyCode::J => 0x6a, KeyCode::K => 0x6b, KeyCode::L => 0x6c,
        KeyCode::M => 0x6d, KeyCode::N => 0x6e, KeyCode::O => 0x6f, KeyCode::P => 0x70,
        KeyCode::Q => 0x71, KeyCode::R => 0x72, KeyCode::S => 0x73, KeyCode::T => 0x74,
        KeyCode::U => 0x75, KeyCode::V => 0x76, KeyCode::W => 0x77, KeyCode::X => 0x78,
        KeyCode::Y => 0x79, KeyCode::Z => 0x7a, KeyCode::Digit0 => 0x30,
        KeyCode::Digit1 => 0x31, KeyCode::Digit2 => 0x32, KeyCode::Digit3 => 0x33,
        KeyCode::Digit4 => 0x34, KeyCode::Digit5 => 0x35, KeyCode::Digit6 => 0x36,
        KeyCode::Digit7 => 0x37, KeyCode::Digit8 => 0x38, KeyCode::Digit9 => 0x39,
        KeyCode::Space => 0x20, KeyCode::Minus => 0x2d, KeyCode::Equal => 0x3d,
        KeyCode::BracketLeft => 0x5b, KeyCode::BracketRight => 0x5d,
        KeyCode::Backslash => 0x5c, KeyCode::Semicolon => 0x3b, KeyCode::Quote => 0x27,
        KeyCode::Backquote => 0x60, KeyCode::Comma => 0x2c, KeyCode::Period => 0x2e,
        KeyCode::Slash => 0x2f, KeyCode::F1 => 0xffbe, KeyCode::F2 => 0xffbf,
        KeyCode::F3 => 0xffc0, KeyCode::F4 => 0xffc1, KeyCode::F5 => 0xffc2,
        KeyCode::F6 => 0xffc3, KeyCode::F7 => 0xffc4, KeyCode::F8 => 0xffc5,
        KeyCode::F9 => 0xffc6, KeyCode::F10 => 0xffc7, KeyCode::F11 => 0xffc8,
        KeyCode::F12 => 0xffc9, KeyCode::ShiftLeft => 0xffe1,
        KeyCode::ShiftRight => 0xffe2, KeyCode::ControlLeft => 0xffe3,
        KeyCode::ControlRight => 0xffe4, KeyCode::AltLeft => 0xffe9,
        KeyCode::AltRight => 0xffea, KeyCode::MetaLeft => 0xffeb,
        KeyCode::MetaRight => 0xffec, KeyCode::Escape => 0xff1b, KeyCode::Tab => 0xff09,
        KeyCode::CapsLock => 0xffe5, KeyCode::Enter => 0xff0d,
        KeyCode::Backspace => 0xff08, KeyCode::Delete => 0xffff, KeyCode::Insert => 0xff63,
        KeyCode::Home => 0xff50, KeyCode::End => 0xff57, KeyCode::PageUp => 0xff55,
        KeyCode::PageDown => 0xff56, KeyCode::ArrowUp => 0xff52,
        KeyCode::ArrowDown => 0xff54, KeyCode::ArrowLeft => 0xff51,
        KeyCode::ArrowRight => 0xff53,
    }
}

/// Every key has a keysym of its own.
pub proof fn keysyms_tell_keys_apart(a: KeyCode, b: KeyCode)
    ensures
        keysym_of(a) != 0,
        keysym_of(a) == keysym_of(b) ==> a == b,
{
}

/// The PS/2 set-1 scan code of a key, and whether it takes the extended prefix.
pub open spec fn scancode_of(key: KeyCode) -> (u16, bool) {
    match key {
        KeyCode::Escape => (0x01, false), KeyCode::Digit1 => (0x02, false),
        KeyCode::Digit2 => (0x03, false), KeyCode::Digit3 => (0x04, false),
        KeyCode::Digit4 => (0x05, false), KeyCode::Digit5 => (0x06, false),
        KeyCode::Digit6 => (0x07, false), KeyCode::Digit7 => (0x08, false),
        KeyCode::Digit8 => (0x09, false), KeyCode::Digit9 => (0x0a, false),
        KeyCode::Digit0 => (0x0b, false), KeyCode::Minus => (0x0c, false),
        KeyCode::Equal => (0x0d, false), KeyCode::Backspace => (0x0e, false),
        KeyCode::Tab => (0x0f, false), KeyCode::Q => (0x10, false),
        KeyCode::W => (0x11, false), KeyCode::E => (0x12, false),
        KeyCode::R => (0x13, false), KeyCode::T => (0x14, false),
        KeyCode::Y => (0x15, false), KeyCode::U => (0x16, false),
        KeyCode::I => (0x17, false), KeyCode::O => (0x18, false),
        KeyCode::P => (0x19, false), KeyCode::BracketLeft => (0x1a, false),
        KeyCode::BracketRight => (0x1b, false), KeyCode::Enter => (0x1c, false),
        KeyCode::ControlLeft => (0x1d, false), KeyCode::A => (0x1e, false),
        KeyCode::S => (0x1f, false), KeyCode::D => (0x20, false),
        KeyCode::F => (0x21, false), KeyCode::G => (0x22, false),
        KeyCode::H => (0x23, false), KeyCode::J => (0x24, false),
        KeyCode::K => (0x25, false), KeyCode::L => (0x26, false),
        KeyCode::Semicolon => (0x27, false), KeyCode::Quote => (0x28, false),
        KeyCode::Backquote => (0x29, false), KeyCode::ShiftLeft => (0x2a, false),
        KeyCode::Backslash => (0x2b, false), KeyCode::Z => (0x2c, false),
        KeyCode::X => (0x2d, false), KeyCode::C => (0x2e, false),
        KeyCode::V => (0x2f, false), KeyCode::B => (0x30, false),
        KeyCode::N => (0x31, false), KeyCode::M => (0x32, false),
        KeyCode::Comma => (0x33, false), KeyCode::Period => (0x34, false),
        KeyCode::Slash => (0x35, false), KeyCode::ShiftRight => (0x36, false),
        KeyCode::AltLeft => (0x38, false), KeyCode::Space => (0x39, false),
        KeyCode::CapsLock => (0x3a, false), KeyCode::F1 => (0x3b, false),
        KeyCode::F2 => (0x3c, false), KeyCode::F3 => (0x3d, false),
        KeyCode::F4 => (0x3e, false), KeyCode::F5 => (0x3f, false),
        KeyCode::F6 => (0x40, false), KeyCode::F7 => (0x41, false),
        KeyCode::F8 => (0x42, false), KeyCode::F9 => (0x43, false),
        KeyCode::F10 => (0x44, false), KeyCode::F11 => (0x57, false),
        KeyCode::F12 => (0x58, false), KeyCode::ControlRight => (0x1d, true),
        KeyCode::AltRight => (0x38, true), KeyCode::Home => (0x47, true),
        KeyCode::ArrowUp => (0x48, true), KeyCode::PageUp => (0x49, true),
        KeyCode::ArrowLeft => (0x4b, true), KeyCode::ArrowRight => (0x4d, true),
        KeyCode::End => (0x4f, true), KeyCode::ArrowDown => (0x50, true),
        KeyCode::PageDown => (0x51, true), KeyCode::Insert => (0x52, true),
        KeyCode::Delete => (0x53, true), KeyCode::MetaLeft => (0x5b, true),
        KeyCode::MetaRight => (0x5c, true),
    }
}

/// PS/2 set-1 scan code for a key, plus whether it needs the extended prefix.
/// Scan codes keep the host's keyboard layout out of the picture: the viewer
/// sends physical keys, the host applies its own layout.
pub fn scancode(key: KeyCode) -> (r: (u16, bool))
    ensures
        r == scancode_of(key),
{
    match key {
        KeyCode::Escape => (0x01, false), KeyCode::Digit1 => (0x02, false),
        KeyCode::Digit2 => (0x03, false), KeyCode::Digit3 => (0x04, false),
        KeyCode::Digit4 => (0x05, false), KeyCode::Digit5 => (0x06, false),
        KeyCode::Digit6 => (0x07, false), KeyCode::Digit7 => (0x08, false),
        KeyCode::Digit8 => (0x09, false), KeyCode::Digit9 => (0x0a, false),
        KeyCode::Digit0 => (0x0b, false), KeyCode::Minus => (0x0c, false),
        KeyCode::Equal => (0x0d, false), KeyCode::Backspace => (0x0e, false),
        KeyCode::Tab => (0x0f, false), KeyCode::Q => (0x10, false),
        KeyCode::W => (0x11, false), KeyCode::E => (0x12, false),
        KeyCode::R => (0x13, false), KeyCode::T => (0x14, false),
        KeyCode::Y => (0x15, false), KeyCode::U => (0x16, false),
        KeyCode::I => (0x17, false), KeyCode::O => (0x18, false),
        KeyCode::P => (0x19, false), KeyCode::BracketLeft => (0x1a, false),
        KeyCode::BracketRight => (0x1b, false), KeyCode::Enter => (0x1c, false),
        KeyCode::ControlLeft => (0x1d, false), KeyCode::A => (0x1e, false),
        KeyCode::S => (0x1f, false), KeyCode::D => (0x20, false),
        KeyCode::F => (0x21, false), KeyCode::G => (0x22, false),
        KeyCode::H => (0x23, false), KeyCode::J => (0x24, false),
        KeyCode::K => (0x25, false), KeyCode::L => (0x26, false),
        KeyCode::Semicolon => (0x27, false), KeyCode::Quote => (0x28, false),
        KeyCode::Backquote => (0x29, false), KeyCode::ShiftLeft => (0x2a, false),
        KeyCode::Backslash => (0x2b, false), KeyCode::Z => (0x2c, false),
        KeyCode::X => (0x2d, false), KeyCode::C => (0x2e, false),
        KeyCode::V => (0x2f, false), KeyCode::B => (0x30, false),
        KeyCode::N => (0x31, false), KeyCode::M => (0x32, false),
        KeyCode::Comma => (0x33, false), KeyCode::Period => (0x34, false),
        KeyCode::Slash => (0x35, false), KeyCode::ShiftRight => (0x36, false),
        KeyCode::AltLeft => (0x38, false), KeyCode::Space => (0x39, false),
        KeyCode::CapsLock => (0x3a, false), KeyCode::F1 => (0x3b, false),
        KeyCode::F2 => (0x3c, false), KeyCode::F3 => (0x3d, false),
        KeyCode::F4 => (0x3e, false), KeyCode::F5 => (0x3f, false),
        KeyCode::F6 => (0x40, false), KeyCode::F7 => (0x41, false),
        KeyCode::F8 => (0x42, false), KeyCode::F9 => (0x43, false),
        KeyCode::F10 => (0x44, false), KeyCode::F11 => (0x57, false),
        KeyCode::F12 => (0x58, false), KeyCode::ControlRight => (0x1d, true),
        KeyCode::AltRight => (0x38, true), KeyCode::Home => (0x47, true),
        KeyCode::ArrowUp => (0x48, true), KeyCode::PageUp => (0x49, true),
        KeyCode::ArrowLeft => (0x4b, true), KeyCode::ArrowRight => (0x4d, true),
        KeyCode::End => (0x4f, true), KeyCode::ArrowDown => (0x50, true),
        KeyCode::PageDown => (0x51, true), KeyCode::Insert => (0x52, true),
        KeyCode::Delete => (0x53, true), KeyCode::MetaLeft => (0x5b, true),
        KeyCode::MetaRight => (0x5c, true),
    }
}

/// Every key has a scan code of its own.
pub proof fn scancodes_tell_keys_apart(a: KeyCode, b: KeyCode)
    ensures
        scancode_of(a) == scancode_of(b) ==> a == b,
{
}

/// Letters, digits and function keys have consecutive keysyms, in the order of the alphabet and
/// of their numbers; a letter's is the code of the small letter and a digit's that of the digit.
pub proof fn keysyms_count_up(i: int)
    ensures
        ({
            let letters = seq![
                KeyCode::A, KeyCode::B, KeyCode::C, KeyCode::D, KeyCode::E, KeyCode::F,
                KeyCode::G, KeyCode::H, KeyCode::I, KeyCode::J, KeyCode::K, KeyCode::L,
                KeyCode::M, KeyCode::N, KeyCode::O, KeyCode::P, KeyCode::Q, KeyCode::R,
                KeyCode::S, KeyCode::T, KeyCode::U, KeyCode::V, KeyCode::W, KeyCode::X,
                KeyCode::Y, KeyCode::Z,
            ];
            let digits = seq![
                KeyCode::Digit0, KeyCode::Digit1, KeyCode::Digit2, KeyCode::Digit3,
                KeyCode::Digit4, KeyCode::Digit5, KeyCode::Digit6, KeyCode::Digit7,
                KeyCode::Digit8, KeyCode::Digit9,
            ];
            let functions = seq![
                KeyCode::F1, KeyCode::F2, KeyCode::F3, KeyCode::F4, KeyCode::F5, KeyCode::F6,
                KeyCode::F7, KeyCode::F8, KeyCode::F9, KeyCode::F10, KeyCode::F11,
                KeyCode::F12,
            ];
            &&& 0 <= i < 26 ==> keysym_of(letters[i]) == 'a' as int + i
            &&& 0 <= i < 10 ==> keysym_of(digits[i]) == '0' as int + i
            &&& 0 <= i < 12 ==> keysym_of(functions[i]) == 0xffbe + i
        }),
{
}

/// The punctuation keys have the code of what they type unshifted, keys with an ASCII control
/// code have that code behind 0xff, the right one of a pair of modifiers follows the left one,
/// and the keys that move the cursor follow each other.
pub proof fn keysyms_follow_the_x_convention()
    ensures
        keysym_of(KeyCode::Space) == ' ' as u32 && keysym_of(KeyCode::Minus) == '-' as u32,
        keysym_of(KeyCode::Equal) == '=' as u32 && keysym_of(KeyCode::BracketLeft) == '[' as u32,
        keysym_of(KeyCode::BracketRight) == ']' as u32 && keysym_of(KeyCode::Backslash)
            == '\\' as u32,
        keysym_of(KeyCode::Semicolon) == ';' as u32 && keysym_of(KeyCode::Quote) == '\'' as u32,
        keysym_of(KeyCode::Backquote) == '`' as u32 && keysym_of(KeyCode::Comma) == ',' as u32,
        keysym_of(KeyCode::Period) == '.' as u32 && keysym_of(KeyCode::Slash) == '/' as u32,
        keysym_of(KeyCode::Backspace) == 0xff00 + 8,
        keysym_of(KeyCode::Tab) == 0xff00 + '\t' as int,
        keysym_of(KeyCode::Enter) == 0xff00 + '\r' as int,
        keysym_of(KeyCode::Escape) == 0xff00 + 27,
        keysym_of(KeyCode::Delete) == 0xff00 + 255,
        keysym_of(KeyCode::ShiftLeft) == 0xffe1,
        keysym_of(KeyCode::ShiftRight) == keysym_of(KeyCode::ShiftLeft) + 1,
        keysym_of(KeyCode::ControlLeft) == keysym_of(KeyCode::ShiftRight) + 1,
        keysym_of(KeyCode::ControlRight) == keysym_of(KeyCode::ControlLeft) + 1,
        keysym_of(KeyCode::CapsLock) == keysym_of(KeyCode::ControlRight) + 1,
        keysym_of(KeyCode::AltLeft) == 0xffe9,
        keysym_of(KeyCode::AltRight) == keysym_of(KeyCode::AltLeft) + 1,
        keysym_of(KeyCode::MetaLeft) == keysym_of(KeyCode::AltRight) + 1,
        keysym_of(KeyCode::MetaRight) == keysym_of(KeyCode::MetaLeft) + 1,
        keysym_of(KeyCode::Home) == 0xff50,
        keysym_of(KeyCode::ArrowLeft) == keysym_of(KeyCode::Home) + 1,
        keysym_of(KeyCode::ArrowUp) == keysym_of(KeyCode::ArrowLeft) + 1,
        keysym_of(KeyCode::ArrowRight) == keysym_of(KeyCode::ArrowUp) + 1,
        keysym_of(KeyCode::ArrowDown) == keysym_of(KeyCode::ArrowRight) + 1,
        keysym_of(KeyCode::PageUp) == keysym_of(KeyCode::ArrowDown) + 1,
        keysym_of(KeyCode::PageDown) == keysym_of(KeyCode::PageUp) + 1,
        keysym_of(KeyCode::End) == keysym_of(KeyCode::PageDown) + 1,
        keysym_of(KeyCode::Insert) == 0xff63,
{
}

/// Scan codes follow the keyboard: from the key left of 1 to the right Shift key they count up
/// row by row, and so do the first ten function keys. The keys of the cursor block lie as on
/// the number pad, with the extended prefix; the right one of a pair has the left one's code
/// with that prefix.
pub proof fn scancodes_follow_the_keyboard(i: int)
    ensures
        ({
            let rows = seq![
                KeyCode::Escape, KeyCode::Digit1, KeyCode::Digit2, KeyCode::Digit3,
                KeyCode::Digit4, KeyCode::Digit5, KeyCode::Digit6, KeyCode::Digit7,
                KeyCode::Digit8, KeyCode::Digit9, KeyCode::Digit0, KeyCode::Minus,
                KeyCode::Equal, KeyCode::Backspace, KeyCode::Tab, KeyCode::Q, KeyCode::W,
                KeyCode::E, KeyCode::R, KeyCode::T, KeyCode::Y, KeyCode::U, KeyCode::I,
                KeyCode::O, KeyCode::P, KeyCode::BracketLeft, KeyCode::BracketRight,
                KeyCode::Enter, KeyCode::ControlLeft, KeyCode::A, KeyCode::S, KeyCode::D,
                KeyCode::F, KeyCode::G, KeyCode::H, KeyCode::J, KeyCode::K, KeyCode::L,
                KeyCode::Semicolon, KeyCode::Quote, KeyCode::Backquote, KeyCode::ShiftLeft,
                KeyCode::Backslash, KeyCode::Z, KeyCode::X, KeyCode::C, KeyCode::V,
                KeyCode::B, KeyCode::N, KeyCode::M, KeyCode::Comma, KeyCode::Period,
                KeyCode::Slash, KeyCode::ShiftRight,
            ];
            let functions = seq![
                KeyCode::F1, KeyCode::F2, KeyCode::F3, KeyCode::F4, KeyCode::F5, KeyCode::F6,
                KeyCode::F7, KeyCode::F8, KeyCode::F9, KeyCode::F10,
            ];
            &&& 0 <= i < rows.len() ==> scancode_of(rows[i]) == ((1 + i) as u16, false)
            &&& 0 <= i < functions.len() ==> scancode_of(functions[i]) == ((0x3b + i) as u16, false)
        }),
        scancode_of(KeyCode::F11) == (0x57u16, false),
        scancode_of(KeyCode::F12) == (0x58u16, false),
        scancode_of(KeyCode::AltLeft) == (0x38u16, false),
        scancode_of(KeyCode::Space) == (0x39u16, false),
        scancode_of(KeyCode::CapsLock) == (0x3au16, false),
        scancode_of(KeyCode::ControlRight) == (scancode_of(KeyCode::ControlLeft).0, true),
        scancode_of(KeyCode::AltRight) == (scancode_of(KeyCode::AltLeft).0, true),
        scancode_of(KeyCode::MetaLeft) == (0x5bu16, true),
        scancode_of(KeyCode::MetaRight) == ((scancode_of(KeyCode::MetaLeft).0 + 1) as u16, true),
        // 7 8 9 on the number pad, then 4 and 6, 1 2 3, 0 and the point.
        scancode_of(KeyCode::Home) == (0x47u16, true),
        scancode_of(KeyCode::ArrowUp) == (0x48u16, true),
        scancode_of(KeyCode::PageUp) == (0x49u16, true),
        scancode_of(KeyCode::ArrowLeft) == (0x4bu16, true),
        scancode_of(KeyCode::ArrowRight) == (0x4du16, true),
        scancode_of(KeyCode::End) == (0x4fu16, true),
        scancode_of(KeyCode::ArrowDown) == (0x50u16, true),
        scancode_of(KeyCode::PageDown) == (0x51u16, true),
        scancode_of(KeyCode::Insert) == (0x52u16, true),
        scancode_of(KeyCode::Delete) == (0x53u16, true),
{
}

/// An input event with its distances in the host's own units.
pub enum Gesture {
    /// Put the pointer on a pixel.
    MoveTo { x: i32, y: i32 },
    Button { button: MouseButton, down: bool },
    /// Scroll: positive is up and right.
    Wheel { vertical: i32, horizontal: i32 },
    Key { key: KeyCode, down: bool },
    Text { text: String },
}

/// One request to the X server.
#[derive(Debug, Clone, Copy, PartialEq, Eq, Structural)]
pub enum Fake {
    Key { code: u8, down: bool },
    Button { button: u8, down: bool },
    Motion { x: i16, y: i16 },
    /// Give a keycode one keysym, before it is pressed.
    Remap { code: u8, keysym: u32 },
}

/// Spare keycodes borrowed for characters that the layout lacks.
pub const SCRATCH_KEYS: usize = 8;

/// `held` with `k` in it.
pub open spec fn with<T>(held: Seq<T>, k: T) -> Seq<T> {
    if held.contains(k) {
        held
    } else {
        held.push(k)
    }
}

/// `held` without `k`.
pub open spec fn without<T>(held: Seq<T>, k: T) -> Seq<T>
    decreases held.len(),
{
    if held.len() == 0 {
        held
    } else if held.last() == k {
        without(held.drop_last(), k)
    } else {
        without(held.drop_last(), k).push(held.last())
    }
}

/// `held` after `k` went down or up.
pub open spec fn turned<T>(held: Seq<T>, k: T, down: bool) -> Seq<T> {
    if down {
        with(held, k)
    } else {
        without(held, k)
    }
}

/// Nothing is held twice after a key went down or up, if nothing was before.
proof fn lemma_turned_once<T>(held: Seq<T>, k: T, down: bool)
    requires
        held.no_duplicates(),
    ensures
        turned(held, k, down).no_duplicates(),
    decreases held.len(),
{
    if !down && held.len() > 0 {
        let rest = held.drop_last();
        lemma_turned_once(rest, k, false);
        lemma_without(rest, k);
        let w = without(held, k);
        if held.last() != k {
            let v = without(rest, k);
            assert forall|i: int, j: int| 0 <= i < w.len() && 0 <= j < w.len() && i != j implies w[i]
                != w[j] by {
                if i == v.len() || j == v.len() {
                    let o = if i == v.len() {
                        j
                    } else {
                        i
                    };
                    assert(v.contains(v[o]));
                    assert(rest.contains(v[o]));
                    let m = choose|m: int| 0 <= m < rest.len() && rest[m] == v[o];
                    assert(held[m] != held[held.len() - 1]);
                }
            }
        }
    } else if down && !held.contains(k) {
        let w = with(held, k);
        assert forall|i: int, j: int| 0 <= i < w.len() && 0 <= j < w.len() && i != j implies w[i]
            != w[j] by {
            if i < held.len() {
                assert(held.contains(held[i]));
            }
            if j < held.len() {
                assert(held.contains(held[j]));
            }
        }
    }
}

proof fn lemma_without<T>(held: Seq<T>, k: T)
    ensures
        forall|x: T| #[trigger] without(held, k).contains(x) <==> held.contains(x) && x != k,
    decreases held.len(),
{
    if held.len() > 0 {
        let rest = held.drop_last();
        lemma_without(rest, k);
        assert forall|x: T| #[trigger] without(held, k).contains(x) <==> held.contains(x) && x
            != k by {
            if held.contains(x) && x != k {
                let i = choose|i: int| 0 <= i < held.len() && held[i] == x;
                if i < rest.len() {
                    assert(rest[i] == x);
                    assert(rest.contains(x));
                    assert(without(rest, k).contains(x));
                    let j = choose|j: int|
                        0 <= j < without(rest, k).len() && without(rest, k)[j] == x;
                    assert(without(held, k)[j] == x);
                } else {
                    assert(without(held, k)[without(rest, k).len() as int] == x);
                }
            }
            if without(held, k).contains(x) {
                let i = choose|i: int| 0 <= i < without(held, k).len() && without(held, k)[i] == x;
                if i < without(rest, k).len() {
                    assert(without(rest, k)[i] == x);
                    assert(without(rest, k).contains(x));
                    assert(rest.contains(x));
                    let j = choose|j: int| 0 <= j < rest.len() && rest[j] == x;
                    assert(held[j] == x);
                } else {
                    assert(x == held.last());
                    assert(held[held.len() - 1] == x);
                }
            }
        }
    }
}

proof fn lemma_with<T>(held: Seq<T>, k: T)
    ensures
        forall|x: T| #[trigger] with(held, k).contains(x) <==> held.contains(x) || x == k,
{
    assert forall|x: T| #[trigger] with(held, k).contains(x) <==> held.contains(x) || x == k by {
        if !held.contains(k) {
            let p = held.push(k);
            if held.contains(x) {
                let i = choose|i: int| 0 <= i < held.len() && held[i] == x;
                assert(p[i] == x);
            }
            if x == k {
                assert(p[held.len() as int] == x);
            }
            if p.contains(x) && x != k {
                let i = choose|i: int| 0 <= i < p.len() && p[i] == x;
                assert(held[i] == x);
            }
        }
    }
}

/// Things that can be told apart by a test.
pub trait Same: Copy {
    fn same(self, other: Self) -> (r: bool)
        ensures
            r == (self == other),
    ;
}

impl Same for u8 {
    fn same(self, other: Self) -> (r: bool) {
        self == other
    }
}

impl Same for KeyCode {
    fn same(self, other: Self) -> (r: bool) {
        self == other
    }
}

impl Same for MouseButton {
    fn same(self, other: Self) -> (r: bool) {
        self == other
    }
}

fn is_held<T: Same>(held: &Vec<T>, k: T) -> (r: bool)
    ensures
        r == held@.contains(k),
{
    let mut i: usize = 0;
    while i < held.len()
        invariant
            i <= held.len(),
            forall|j: int| 0 <= j < i ==> held@[j] != k,
        decreases held.len() - i,
    {
        if held[i].same(k) {
            assert(held@[i as int] == k);
            return true;
        }
        i = i + 1;
    }
    false
}

/// Records that `k` went down or up.
pub(crate) fn turn<T: Same>(held: &mut Vec<T>, k: T, down: bool)
    ensures
        final(held)@ == turned(old(held)@, k, down),
        old(held)@.no_duplicates() ==> final(held)@.no_duplicates(),
{
    proof {
        if held@.no_duplicates() {
            lemma_turned_once(held@, k, down);
        }
    }
    if down {
        if !is_held(held, k) {
            held.push(k);
        }
        return;
    }
    let mut out: Vec<T> = Vec::new();
    let mut i: usize = 0;
    assert(held@.take(0) =~= Seq::<T>::empty());
    while i < held.len()
        invariant
            i <= held.len(),
            *held == *old(held),
            out@ == without(held@.take(i as int), k),
        decreases held.len() - i,
    {
        assert(held@.take(i + 1).drop_last() =~= held@.take(i as int));
        if !held[i].same(k) {
            out.push(held[i]);
        }
        i = i + 1;
    }
    assert(held@.take(i as int) =~= held@);
    *held = out;
}

/// The keys of `shifts` that are held, in the order of `shifts`.
pub open spec fn held_among(shifts: Seq<u8>, held: Seq<u8>) -> Seq<u8>
    decreases shifts.len(),
{
    if shifts.len() == 0 {
        shifts
    } else if held.contains(shifts.last()) {
        held_among(shifts.drop_last(), held).push(shifts.last())
    } else {
        held_among(shifts.drop_last(), held)
    }
}

/// One key event for each of `codes`.
pub open spec fn each_key(codes: Seq<u8>, down: bool) -> Seq<Fake> {
    codes.map_values(|code: u8| Fake::Key { code, down })
}

/// One button event for each of `buttons`.
pub open spec fn each_button(buttons: Seq<u8>, down: bool) -> Seq<Fake> {
    buttons.map_values(|button: u8| Fake::Button { button, down })
}

/// What happens before the key goes down: Shift is brought into the wanted
/// state.
pub open spec fn shift_before(shifts: Seq<u8>, held: Seq<u8>, shifted: bool) -> Seq<Fake> {
    let down = held_among(shifts, held);
    if !shifted {
        each_key(down, false)
    } else if down.len() == 0 && shifts.len() > 0 {
        seq![Fake::Key { code: shifts[0], down: true }]
    } else {
        Seq::empty()
    }
}

/// What happens after the key came up: Shift is put back.
pub open spec fn shift_after(shifts: Seq<u8>, held: Seq<u8>, shifted: bool) -> Seq<Fake> {
    let down = held_among(shifts, held);
    if !shifted {
        each_key(down, true)
    } else if down.len() == 0 && shifts.len() > 0 {
        seq![Fake::Key { code: shifts[0], down: false }]
    } else {
        Seq::empty()
    }
}

/// Press and release `kc` with Shift in the wanted state, then put Shift back.
pub open spec fn tap(shifts: Seq<u8>, held: Seq<u8>, kc: u8, shifted: bool) -> Seq<Fake> {
    shift_before(shifts, held, shifted) + seq![
        Fake::Key { code: kc, down: true },
        Fake::Key { code: kc, down: false },
    ] + shift_after(shifts, held, shifted)
}

/// How one character is typed: on the layout's own key where it has one, else on
/// a spare keycode that carries the character, else not at all.
pub open spec fn typed_char(
    layout: &Layout,
    shifts: Seq<u8>,
    held: Seq<u8>,
    pool: PoolState,
    ch: char,
) -> (PoolState, Seq<Fake>) {
    let sym = keysym_of_char(ch) as u32;
    match layout.key(sym) {
        Some((kc, shifted)) => (pool, tap(shifts, held, kc, shifted)),
        None => if pool.slots.len() == 0 {
            (pool, Seq::empty())
        } else {
            let kc = pool.slots[pool.chosen(sym)].0;
            let first = if slot_with(pool.slots, sym, 0) is None {
                seq![Fake::Remap { code: kc, keysym: sym }]
            } else {
                Seq::empty()
            };
            (pool.after(sym), first + tap(shifts, held, kc, false))
        },
    }
}

/// How a text is typed: character by character.
pub open spec fn typed_text(
    layout: &Layout,
    shifts: Seq<u8>,
    held: Seq<u8>,
    pool: PoolState,
    text: Seq<char>,
) -> (PoolState, Seq<Fake>)
    decreases text.len(),
{
    if text.len() == 0 {
        (pool, Seq::empty())
    } else {
        let before = typed_text(layout, shifts, held, pool, text.drop_last());
        let last = typed_char(layout, shifts, held, before.0, text.last());
        (last.0, before.1 + last.1)
    }
}

/// `n` clicks of a button.
pub open spec fn clicks(button: u8, n: int) -> Seq<Fake>
    decreases n,
{
    if n <= 0 {
        Seq::empty()
    } else {
        clicks(button, n - 1) + seq![
            Fake::Button { button, down: true },
            Fake::Button { button, down: false },
        ]
    }
}

/// The X number of a mouse button.
pub open spec fn button_number(button: MouseButton) -> u8 {
    match button {
        MouseButton::Left => 1,
        MouseButton::Middle => 2,
        MouseButton::Right => 3,
        MouseButton::Back => 8,
        MouseButton::Forward => 9,
    }
}

/// The nearest `i16`.
pub open spec fn saturated(v: int) -> int {
    if v < i16::MIN {
        i16::MIN as int
    } else if v > i16::MAX {
        i16::MAX as int
    } else {
        v
    }
}

/// The key and button state of an injector, and its spare keycodes.
pub struct Held {
    pub keys: Seq<u8>,
    pub buttons: Seq<u8>,
    pub pool: PoolState,
}

/// What a gesture does to the state, and what it asks of the X server. X models
/// scrolling as clicks: button 4 up, 5 down, 6 left, 7 right.
pub open spec fn injected(
    layout: &Layout,
    shifts: Seq<u8>,
    held: Held,
    gesture: &Gesture,
) -> (Held, Seq<Fake>) {
    match gesture {
        Gesture::MoveTo { x, y } => (
            held,
            seq![Fake::Motion { x: saturated(*x as int) as i16, y: saturated(*y as int) as i16 }],
        ),
        Gesture::Button { button, down } => (
            Held { buttons: turned(held.buttons, button_number(*button), *down), ..held },
            seq![Fake::Button { button: button_number(*button), down: *down }],
        ),
        Gesture::Wheel { vertical, horizontal } => {
            let up = if *vertical > 0 {
                clicks(4, *vertical as int)
            } else {
                clicks(5, -*vertical)
            };
            let across = if *horizontal > 0 {
                clicks(7, *horizontal as int)
            } else {
                clicks(6, -*horizontal)
            };
            let v = if *vertical > 0 {
                4u8
            } else {
                5u8
            };
            let h = if *horizontal > 0 {
                7u8
            } else {
                6u8
            };
            let once = if *vertical != 0 {
                without(held.buttons, v)
            } else {
                held.buttons
            };
            let twice = if *horizontal != 0 {
                without(once, h)
            } else {
                once
            };
            (Held { buttons: twice, ..held }, up + across)
        },
        Gesture::Key { key, down } => match layout.key(keysym_of(*key)) {
            None => (held, Seq::empty()),
            Some((kc, _)) => (
                Held { keys: turned(held.keys, kc, *down), ..held },
                seq![Fake::Key { code: kc, down: *down }],
            ),
        },
        Gesture::Text { text } => {
            let typed = typed_text(layout, shifts, held.keys, held.pool, text@);
            (Held { pool: typed.0, ..held }, typed.1)
        },
    }
}

/// Whether the requests for a gesture that types nothing are what the gesture is for, and the
/// record of what is held follows.
///
/// A move puts the pointer on its pixel, or the nearest that X can name. A button or a key makes
/// one request, and counts as held exactly while it is down. A scroll is as many clicks as it
/// is far: of button 4 up or 5 down, then of 7 right or 6 left.
pub open spec fn does_as_asked(
    layout: &Layout,
    before: Held,
    gesture: &Gesture,
    after: Held,
    r: Seq<Fake>,
) -> bool {
    match gesture {
        Gesture::MoveTo { x, y } => {
            &&& r.len() == 1
            &&& r[0] matches Fake::Motion { x: px, y: py } && {
                &&& -0x8000 <= *x <= 0x7fff ==> px == *x
                &&& -0x8000 <= *y <= 0x7fff ==> py == *y
                &&& *x < -0x8000 ==> px == -0x8000
                &&& *x > 0x7fff ==> px == 0x7fff
                &&& *y < -0x8000 ==> py == -0x8000
                &&& *y > 0x7fff ==> py == 0x7fff
            }
            &&& after == before
        },
        Gesture::Button { button, down } => {
            &&& r.len() == 1
            &&& r[0] matches Fake::Button { button: n, down: d } && {
                &&& d == *down
                &&& *button == MouseButton::Left ==> n == 1
                &&& *button == MouseButton::Middle ==> n == 2
                &&& *button == MouseButton::Right ==> n == 3
                &&& *button == MouseButton::Back ==> n == 8
                &&& *button == MouseButton::Forward ==> n == 9
                &&& forall|b: u8| #[trigger]
                    after.buttons.contains(b) <==> if b == n {
                        *down
                    } else {
                        before.buttons.contains(b)
                    }
            }
            &&& after.keys == before.keys
            &&& after.pool == before.pool
        },
        Gesture::Wheel { vertical, horizontal } => {
            let (v, h) = (
                if *vertical < 0 {
                    -*vertical
                } else {
                    *vertical as int
                },
                if *horizontal < 0 {
                    -*horizontal
                } else {
                    *horizontal as int
                },
            );
            &&& r.len() == 2 * v + 2 * h
            &&& forall|i: int|
                0 <= i < r.len() ==> #[trigger] r[i] == (Fake::Button {
                    button: if i < 2 * v {
                        if *vertical > 0 {
                            4u8
                        } else {
                            5u8
                        }
                    } else if *horizontal > 0 {
                        7u8
                    } else {
                        6u8
                    },
                    down: i % 2 == 0,
                })
            &&& forall|b: u8|
                b != 4 && b != 5 && b != 6 && b != 7 ==> (#[trigger] after.buttons.contains(b)
                    <==> before.buttons.contains(b))
            &&& after.keys == before.keys
            &&& after.pool == before.pool
        },
        Gesture::Key { key, down } => match layout.key(keysym_of(*key)) {
            Some((kc, _)) => {
                &&& r.len() == 1
                &&& r[0] == (Fake::Key { code: kc, down: *down })
                &&& forall|k: u8| #[trigger]
                    after.keys.contains(k) <==> if k == kc {
                        *down
                    } else {
                        before.keys.contains(k)
                    }
                &&& after.buttons == before.buttons
                &&& after.pool == before.pool
            },
            None => r.len() == 0 && after == before,
        },
        Gesture::Text { .. } => after.keys == before.keys && after.buttons == before.buttons,
    }
}

proof fn lemma_clicks_alternate(button: u8, n: int)
    requires
        n >= 0,
    ensures
        clicks(button, n).len() == 2 * n,
        forall|i: int|
            0 <= i < 2 * n ==> #[trigger] clicks(button, n)[i] == (Fake::Button {
                button,
                down: i % 2 == 0,
            }),
    decreases n,
{
    if n > 0 {
        lemma_clicks_alternate(button, n - 1);
    }
}

/// Every gesture does what it is for.
pub proof fn gestures_do_as_asked(
    layout: &Layout,
    shifts: Seq<u8>,
    held: Held,
    gesture: &Gesture,
)
    ensures
        ({
            let step = injected(layout, shifts, held, gesture);
            does_as_asked(layout, held, gesture, step.0, step.1)
        }),
{
    let (after, r) = injected(layout, shifts, held, gesture);
    match gesture {
        Gesture::Button { button, down } => {
            lemma_turned_holds(held.buttons, button_number(*button), *down);
        },
        Gesture::Key { key, down } => {
            if let Some((kc, _)) = layout.key(keysym_of(*key)) {
                lemma_turned_holds(held.keys, kc, *down);
            }
        },
        Gesture::Wheel { vertical, horizontal } => {
            let (v, h) = (
                if *vertical < 0 {
                    -*vertical
                } else {
                    *vertical as int
                },
                if *horizontal < 0 {
                    -*horizontal
                } else {
                    *horizontal as int
                },
            );
            let (bv, bh) = (
                if *vertical > 0 {
                    4u8
                } else {
                    5u8
                },
                if *horizontal > 0 {
                    7u8
                } else {
                    6u8
                },
            );
            lemma_clicks_alternate(bv, v);
            lemma_clicks_alternate(bh, h);
            assert(r == clicks(bv, v) + clicks(bh, h));
            assert forall|i: int| 0 <= i < r.len() implies #[trigger] r[i] == (Fake::Button {
                button: if i < 2 * v {
                    bv
                } else {
                    bh
                },
                down: i % 2 == 0,
            }) by {
                if i >= 2 * v {
                    assert(r[i] == clicks(bh, h)[i - 2 * v]);
                }
            }
            lemma_without(held.buttons, bv);
            let once = if *vertical != 0 {
                without(held.buttons, bv)
            } else {
                held.buttons
            };
            lemma_without(once, bh);
        },
        _ => {},
    }
}

pub(crate) proof fn lemma_turned_holds<T>(held: Seq<T>, k: T, down: bool)
    ensures
        forall|x: T| #[trigger]
            turned(held, k, down).contains(x) <==> if x == k {
                down
            } else {
                held.contains(x)
            },
{
    lemma_without(held, k);
    if down && !held.contains(k) {
        let w = held.push(k);
        assert(w[held.len() as int] == k);
        assert forall|x: T| #[trigger] w.contains(x) <==> x == k || held.contains(x) by {
            if held.contains(x) {
                let i = choose|i: int| 0 <= i < held.len() && held[i] == x;
                assert(w[i] == x);
            }
            if w.contains(x) {
                let i = choose|i: int| 0 <= i < w.len() && w[i] == x;
                if i < held.len() {
                    assert(held[i] == x);
                }
            }
        }
    }
}

/// The Shift keys of a layout, left before right.
pub open spec fn shift_keys_of(layout: &Layout) -> Seq<u8> {
    let left = match layout.key(keysym_of(KeyCode::ShiftLeft)) {
        Some((kc, _)) => seq![kc],
        None => Seq::empty(),
    };
    let right = match layout.key(keysym_of(KeyCode::ShiftRight)) {
        Some((kc, _)) => seq![kc],
        None => Seq::empty(),
    };
    left + right
}

/// The X11 injector: what the server's layout can type, and what is held.
pub struct XTestInput {
    layout: Layout,
    scratch: ScratchPool,
    shift_keys: Vec<u8>,
    held_keys: Vec<u8>,
    held_buttons: Vec<u8>,
}

fn push_keys(out: &mut Vec<Fake>, codes: &Vec<u8>, down: bool)
    ensures
        final(out)@ == old(out)@ + each_key(codes@, down),
{
    let mut i: usize = 0;
    assert(out@ =~= old(out)@ + each_key(codes@.take(0), down));
    while i < codes.len()
        invariant
            i <= codes.len(),
            out@ == old(out)@ + each_key(codes@.take(i as int), down),
        decreases codes.len() - i,
    {
        out.push(Fake::Key { code: codes[i], down });
        i = i + 1;
        assert(out@ =~= old(out)@ + each_key(codes@.take(i as int), down));
    }
    assert(codes@.take(i as int) =~= codes@);
}

fn push_buttons(out: &mut Vec<Fake>, buttons: &Vec<u8>)
    ensures
        final(out)@ == old(out)@ + each_button(buttons@, false),
{
    let mut i: usize = 0;
    assert(out@ =~= old(out)@ + each_button(buttons@.take(0), false));
    while i < buttons.len()
        invariant
            i <= buttons.len(),
            out@ == old(out)@ + each_button(buttons@.take(i as int), false),
        decreases buttons.len() - i,
    {
        out.push(Fake::Button { button: buttons[i], down: false });
        i = i + 1;
        assert(out@ =~= old(out)@ + each_button(buttons@.take(i as int), false));
    }
    assert(buttons@.take(i as int) =~= buttons@);
}

fn push_clicks(out: &mut Vec<Fake>, button: u8, n: u32)
    ensures
        final(out)@ == old(out)@ + clicks(button, n as int),
{
    let mut i: u32 = 0;
    assert(out@ =~= old(out)@ + clicks(button, 0));
    while i < n
        invariant
            i <= n,
            out@ == old(out)@ + clicks(button, i as int),
        decreases n - i,
    {
        out.push(Fake::Button { button, down: true });
        out.push(Fake::Button { button, down: false });
        i = i + 1;
        assert(out@ =~= old(out)@ + clicks(button, i as int));
    }
}

fn to_i16(v: i32) -> (r: i16)
    ensures
        r == saturated(v as int),
{
    if v < -32768 {
        -32768
    } else if v > 32767 {
        32767
    } else {
        v as i16
    }
}

/// How far a signed distance goes.
fn distance(v: i32) -> (r: u32)
    ensures
        r == if v > 0 {
            v as int
        } else {
            -v
        },
{
    if v > 0 {
        v as u32
    } else {
        (0i64 - v as i64) as u32
    }
}

impl XTestInput {
    /// What the server's layout can type.
    pub closed spec fn layout(&self) -> &Layout {
        &self.layout
    }

    /// The Shift keys of the layout.
    pub closed spec fn shifts(&self) -> Seq<u8> {
        self.shift_keys@
    }

    /// What is held, and the spare keycodes.
    pub closed spec fn held(&self) -> Held {
        Held { keys: self.held_keys@, buttons: self.held_buttons@, pool: self.scratch@ }
    }

    /// The pool of spare keycodes is in order, the Shift keys are those of the layout, and
    /// nothing is held twice.
    pub open spec fn wf(&self) -> bool {
        &&& self.held().pool.wf()
        &&& self.shifts() == shift_keys_of(self.layout())
        &&& self.held().keys.no_duplicates()
        &&& self.held().buttons.no_duplicates()
    }

    /// An injector for a server whose keyboard mapping is `keysyms`, `per` for
    /// each keycode from `min` on. Nothing is held.
    pub fn new(min: u8, per: usize, keysyms: &[u32]) -> (r: Self)
        ensures
            r.wf(),
            r.held().keys.len() == 0,
            r.held().buttons.len() == 0,
            r.held().pool.next == 0,
            forall|sym: u32| #[trigger]
                r.layout().key(sym) == key_for(
                    min as int,
                    per as int,
                    keysyms@,
                    row_count(min as int, per as int, keysyms@),
                    sym,
                ),
            ({
                let spare = empty_keys(
                    min as int,
                    per as int,
                    keysyms@,
                    row_count(min as int, per as int, keysyms@),
                );
                r.held().pool.slots == Seq::new(
                    (if spare.len() <= SCRATCH_KEYS { spare.len() } else { SCRATCH_KEYS as nat }),
                    |i: int| (spare[i], 0u32),
                )
            }),
    {
        let layout = Layout::from_mapping(min, per, keysyms);
        let mut shift_keys: Vec<u8> = Vec::new();
        if let Some(k) = layout.lookup(keysym(KeyCode::ShiftLeft)) {
            shift_keys.push(k.0);
        }
        if let Some(k) = layout.lookup(keysym(KeyCode::ShiftRight)) {
            shift_keys.push(k.0);
        }
        assert(shift_keys@ =~= shift_keys_of(&layout));
        let scratch = ScratchPool::new(layout.free_keycodes(), SCRATCH_KEYS);
        XTestInput {
            layout,
            scratch,
            shift_keys,
            held_keys: Vec::new(),
            held_buttons: Vec::new(),
        }
    }

    /// Whether characters outside the layout cannot be typed.
    pub fn has_no_spare_key(&self) -> (r: bool)
        ensures
            r == (self.held().pool.slots.len() == 0),
    {
        self.scratch.is_empty()
    }

    fn held_shifts(&self) -> (r: Vec<u8>)
        ensures
            r@ == held_among(self.shift_keys@, self.held_keys@),
    {
        let mut out: Vec<u8> = Vec::new();
        let mut i: usize = 0;
        assert(self.shift_keys@.take(0) =~= Seq::<u8>::empty());
        while i < self.shift_keys.len()
            invariant
                i <= self.shift_keys.len(),
                out@ == held_among(self.shift_keys@.take(i as int), self.held_keys@),
            decreases self.shift_keys.len() - i,
        {
            assert(self.shift_keys@.take(i + 1).drop_last() =~= self.shift_keys@.take(i as int));
            if is_held(&self.held_keys, self.shift_keys[i]) {
                out.push(self.shift_keys[i]);
            }
            i = i + 1;
        }
        assert(self.shift_keys@.take(i as int) =~= self.shift_keys@);
        out
    }

    /// Press and release `kc` with Shift in the wanted state, then put Shift back
    /// the way the operator has it. The temporary Shift changes are not recorded
    /// as held: that record mirrors the operator's fingers.
    fn tap_with_shift(&self, out: &mut Vec<Fake>, kc: u8, shifted: bool)
        ensures
            final(out)@ == old(out)@ + tap(self.shift_keys@, self.held_keys@, kc, shifted),
    {
        let held = self.held_shifts();
        let add = shifted && held.len() == 0 && self.shift_keys.len() > 0;
        if !shifted {
            push_keys(out, &held, false);
        }
        if add {
            out.push(Fake::Key { code: self.shift_keys[0], down: true });
        }
        out.push(Fake::Key { code: kc, down: true });
        out.push(Fake::Key { code: kc, down: false });
        if add {
            out.push(Fake::Key { code: self.shift_keys[0], down: false });
        }
        if !shifted {
            push_keys(out, &held, true);
        }
        assert(out@ =~= old(out)@ + tap(self.shift_keys@, self.held_keys@, kc, shifted));
    }

    /// Type one character.
    fn type_char(&mut self, out: &mut Vec<Fake>, ch: char)
        requires
            old(self).wf(),
        ensures
            final(self).wf(),
            final(self).layout() == old(self).layout(),
            final(self).shifts() == old(self).shifts(),
            final(self).held().keys == old(self).held().keys,
            final(self).held().buttons == old(self).held().buttons,
            ({
                let typed = typed_char(
                    old(self).layout(),
                    old(self).shifts(),
                    old(self).held().keys,
                    old(self).held().pool,
                    ch,
                );
                final(self).held().pool == typed.0 && final(out)@ == old(out)@ + typed.1
            }),
    {
        let sym: u32 = char_keysym(ch);
        if let Some(k) = self.layout.lookup(sym) {
            self.tap_with_shift(out, k.0, k.1);
            return;
        }
        match self.scratch.slot_for(sym) {
            None => {
                assert(out@ =~= old(out)@ + Seq::<Fake>::empty());
            },
            Some(k) => {
                if k.1 {
                    out.push(Fake::Remap { code: k.0, keysym: sym });
                }
                self.tap_with_shift(out, k.0, false);
                assert(out@ =~= old(out)@ + typed_char(
                    old(self).layout(),
                    old(self).shifts(),
                    old(self).held().keys,
                    old(self).held().pool,
                    ch,
                ).1);
            },
        }
    }

    /// Turns a gesture into requests to the X server, in order, and records what
    /// is held from then on.
    pub fn inject(&mut self, gesture: &Gesture) -> (r: Vec<Fake>)
        requires
            old(self).wf(),
        ensures
            final(self).wf(),
            final(self).layout() == old(self).layout(),
            ({
                let step = injected(
                    old(self).layout(),
                    old(self).shifts(),
                    old(self).held(),
                    gesture,
                );
                final(self).held() == step.0 && r@ == step.1
            }),
            does_as_asked(old(self).layout(), old(self).held(), gesture, final(self).held(), r@),
            gesture matches Gesture::MoveTo { x, y } ==> -0x8000 <= *x <= 0x7fff && -0x8000 <= *y
                <= 0x7fff ==> r@ == seq![Fake::Motion { x: *x as i16, y: *y as i16 }],
    {
        proof {
            gestures_do_as_asked(self.layout(), self.shifts(), self.held(), gesture);
        }
        let mut out: Vec<Fake> = Vec::new();
        match gesture {
            Gesture::MoveTo { x, y } => {
                out.push(Fake::Motion { x: to_i16(*x), y: to_i16(*y) });
            },
            Gesture::Button { button, down } => {
                let b: u8 = match *button {
                    MouseButton::Left => 1,
                    MouseButton::Middle => 2,
                    MouseButton::Right => 3,
                    MouseButton::Back => 8,
                    MouseButton::Forward => 9,
                };
                out.push(Fake::Button { button: b, down: *down });
                turn(&mut self.held_buttons, b, *down);
            },
            Gesture::Wheel { vertical, horizontal } => {
                let v: u8 = if *vertical > 0 {
                    4
                } else {
                    5
                };
                let h: u8 = if *horizontal > 0 {
                    7
                } else {
                    6
                };
                push_clicks(&mut out, v, distance(*vertical));
                push_clicks(&mut out, h, distance(*horizontal));
                if *vertical != 0 {
                    turn(&mut self.held_buttons, v, false);
                }
                if *horizontal != 0 {
                    turn(&mut self.held_buttons, h, false);
                }
            },
            Gesture::Key { key, down } => {
                if let Some(k) = self.layout.lookup(keysym(*key)) {
                    out.push(Fake::Key { code: k.0, down: *down });
                    turn(&mut self.held_keys, k.0, *down);
                }
            },
            Gesture::Text { text } => {
                let chars = chars_of(text);
                let mut i: usize = 0;
                let ghost start = *self;
                assert(chars@.take(0) =~= Seq::<char>::empty());
                while i < chars.len()
                    invariant
                        i <= chars.len(),
                        self.wf(),
                        self.layout() == start.layout(),
                        self.shifts() == start.shifts(),
                        self.held().keys == start.held().keys,
                        self.held().buttons == start.held().buttons,
                        ({
                            let typed = typed_text(
                                start.layout(),
                                start.shifts(),
                                start.held().keys,
                                start.held().pool,
                                chars@.take(i as int),
                            );
                            self.held().pool == typed.0 && out@ == typed.1
                        }),
                    decreases chars.len() - i,
                {
                    self.type_char(&mut out, chars[i]);
                    assert(chars@.take(i + 1).drop_last() =~= chars@.take(i as int));
                    i = i + 1;
                }
                assert(chars@.take(i as int) =~= text@);
            },
        }
        assert(out@ =~= injected(old(self).layout(), old(self).shifts(), old(self).held(), gesture).1);
        out
    }

    /// Release every key and button currently held. Called when a session ends so
    /// that a dropped connection cannot leave a robot driving on a stuck key.
    pub fn release_all(&mut self) -> (r: Vec<Fake>)
        requires
            old(self).wf(),
        ensures
            final(self).wf(),
            final(self).layout() == old(self).layout(),
            final(self).held().keys.len() == 0,
            final(self).held().buttons.len() == 0,
            final(self).held().pool == old(self).held().pool,
            r@ == each_key(old(self).held().keys, false) + each_button(
                old(self).held().buttons,
                false,
            ),
    {
        let mut out: Vec<Fake> = Vec::new();
        push_keys(&mut out, &self.held_keys, false);
        push_buttons(&mut out, &self.held_buttons);
        self.held_keys = Vec::new();
        self.held_buttons = Vec::new();
        out
    }

    /// Gives the borrowed keycodes back: each loses the keysym lent to it.
    pub fn restore(&self) -> (r: Vec<Fake>)
        ensures
            r@ == crate::xkeys::carrying(self.held().pool.slots).map_values(
                |code: u8| Fake::Remap { code, keysym: 0 },
            ),
    {
        let codes = self.scratch.mapped();
        let mut out: Vec<Fake> = Vec::new();
        let mut i: usize = 0;
        while i < codes.len()
            invariant
                i <= codes.len(),
                out@ == codes@.take(i as int).map_values(
                    |code: u8| Fake::Remap { code, keysym: 0 },
                ),
            decreases codes.len() - i,
        {
            out.push(Fake::Remap { code: codes[i], keysym: 0 });
            i = i + 1;
            assert(out@ =~= codes@.take(i as int).map_values(
                |code: u8| Fake::Remap { code, keysym: 0 },
            ));
        }
        assert(codes@.take(i as int) =~= codes@);
        out
    }
}

/// The keys that the server sees down after `acts`, from those down before.
pub open spec fn keys_down(start: Set<u8>, acts: Seq<Fake>) -> Set<u8>
    decreases acts.len(),
{
    if acts.len() == 0 {
        start
    } else {
        let before = keys_down(start, acts.drop_last());
        match acts.last() {
            Fake::Key { code, down } => if down {
                before.insert(code)
            } else {
                before.remove(code)
            },
            _ => before,
        }
    }
}

/// The buttons that the server sees down after `acts`, from those down before.
pub open spec fn buttons_down(start: Set<u8>, acts: Seq<Fake>) -> Set<u8>
    decreases acts.len(),
{
    if acts.len() == 0 {
        start
    } else {
        let before = buttons_down(start, acts.drop_last());
        match acts.last() {
            Fake::Button { button, down } => if down {
                before.insert(button)
            } else {
                before.remove(button)
            },
            _ => before,
        }
    }
}

proof fn lemma_one(start: Set<u8>, act: Fake)
    ensures
        keys_down(start, seq![act]) == (match act {
            Fake::Key { code, down } => if down {
                start.insert(code)
            } else {
                start.remove(code)
            },
            _ => start,
        }),
        buttons_down(start, seq![act]) == (match act {
            Fake::Button { button, down } => if down {
                start.insert(button)
            } else {
                start.remove(button)
            },
            _ => start,
        }),
{
    reveal_with_fuel(keys_down, 2);
    reveal_with_fuel(buttons_down, 2);
}

proof fn lemma_down_concat(start: Set<u8>, a: Seq<Fake>, b: Seq<Fake>)
    ensures
        keys_down(start, a + b) == keys_down(keys_down(start, a), b),
        buttons_down(start, a + b) == buttons_down(buttons_down(start, a), b),
    decreases b.len(),
{
    if b.len() == 0 {
        assert(a + b =~= a);
    } else {
        assert((a + b).drop_last() =~= a + b.drop_last());
        lemma_down_concat(start, a, b.drop_last());
    }
}

proof fn lemma_each_key(start: Set<u8>, codes: Seq<u8>, down: bool)
    ensures
        forall|k: u8| #[trigger]
            keys_down(start, each_key(codes, down)).contains(k) <==> if codes.contains(k) {
                down
            } else {
                start.contains(k)
            },
        buttons_down(start, each_key(codes, down)) == start,
    decreases codes.len(),
{
    let acts = each_key(codes, down);
    if codes.len() > 0 {
        let rest = codes.drop_last();
        lemma_each_key(start, rest, down);
        assert(acts.drop_last() =~= each_key(rest, down));
        assert forall|k: u8| #[trigger] keys_down(start, acts).contains(k) <==> if codes.contains(
            k,
        ) {
            down
        } else {
            start.contains(k)
        } by {
            assert(keys_down(start, each_key(rest, down)).contains(k) <==> if rest.contains(k) {
                down
            } else {
                start.contains(k)
            });
            if codes.contains(k) && k != codes.last() {
                let i = choose|i: int| 0 <= i < codes.len() && codes[i] == k;
                assert(rest[i] == k);
            }
            if rest.contains(k) {
                let i = choose|i: int| 0 <= i < rest.len() && rest[i] == k;
                assert(codes[i] == k);
            }
            if k == codes.last() {
                assert(codes[codes.len() - 1] == k);
            }
        }
    }
}

proof fn lemma_each_button(start: Set<u8>, buttons: Seq<u8>)
    ensures
        keys_down(start, each_button(buttons, false)) == start,
        forall|k: u8| #[trigger]
            buttons_down(start, each_button(buttons, false)).contains(k) <==> start.contains(k)
                && !buttons.contains(k),
    decreases buttons.len(),
{
    let acts = each_button(buttons, false);
    if buttons.len() > 0 {
        let rest = buttons.drop_last();
        lemma_each_button(start, rest);
        assert(acts.drop_last() =~= each_button(rest, false));
        assert forall|k: u8| #[trigger] buttons_down(start, acts).contains(k) <==> start.contains(k)
            && !buttons.contains(k) by {
            assert(buttons_down(start, each_button(rest, false)).contains(k) <==> start.contains(k)
                && !rest.contains(k));
            if buttons.contains(k) && k != buttons.last() {
                let i = choose|i: int| 0 <= i < buttons.len() && buttons[i] == k;
                assert(rest[i] == k);
            }
            if rest.contains(k) {
                let i = choose|i: int| 0 <= i < rest.len() && rest[i] == k;
                assert(buttons[i] == k);
            }
            if k == buttons.last() {
                assert(buttons[buttons.len() - 1] == k);
            }
        }
    }
}

proof fn lemma_held_among(shifts: Seq<u8>, held: Seq<u8>)
    ensures
        forall|k: u8| #[trigger]
            held_among(shifts, held).contains(k) <==> shifts.contains(k) && held.contains(k),
    decreases shifts.len(),
{
    if shifts.len() > 0 {
        let rest = shifts.drop_last();
        let sub = held_among(rest, held);
        lemma_held_among(rest, held);
        assert forall|k: u8| #[trigger] held_among(shifts, held).contains(k) <==> shifts.contains(k)
            && held.contains(k) by {
            assert(sub.contains(k) <==> rest.contains(k) && held.contains(k));
            let full = held_among(shifts, held);
            if shifts.contains(k) && k != shifts.last() {
                let i = choose|i: int| 0 <= i < shifts.len() && shifts[i] == k;
                assert(rest[i] == k);
            }
            if rest.contains(k) {
                let i = choose|i: int| 0 <= i < rest.len() && rest[i] == k;
                assert(shifts[i] == k);
            }
            if sub.contains(k) {
                let i = choose|i: int| 0 <= i < sub.len() && sub[i] == k;
                assert(full[i] == k);
            }
            if k == shifts.last() {
                assert(shifts[shifts.len() - 1] == k);
                if held.contains(k) {
                    assert(full[sub.len() as int] == k);
                }
            }
            if full.contains(k) && k != shifts.last() {
                let i = choose|i: int| 0 <= i < full.len() && full[i] == k;
                assert(sub[i] == k);
            }
        }
    }
}

/// Typing a key leaves every other key as it was: Shift comes back the way the
/// operator has it, and no button moves. This holds wherever the record of held
/// keys is right about the Shift keys.
pub proof fn typing_puts_shift_back(
    start: Set<u8>,
    shifts: Seq<u8>,
    held: Seq<u8>,
    kc: u8,
    shifted: bool,
)
    requires
        forall|s: u8| #[trigger] shifts.contains(s) ==> (start.contains(s) <==> held.contains(s)),
    ensures
        keys_down(start, tap(shifts, held, kc, shifted)).remove(kc) == start.remove(kc),
        buttons_down(start, tap(shifts, held, kc, shifted)) == start,
{
    lemma_tap(start, shifts, held, kc, shifted);
    let end = keys_down(start, tap(shifts, held, kc, shifted));
    lemma_held_among(shifts, held);
    assert forall|k: u8| end.remove(kc).contains(k) <==> start.remove(kc).contains(k) by {
        assert(shifts.contains(k) || !shifts.contains(k));
        if shifts.len() > 0 {
            assert(shifts.contains(shifts[0]));
            assert(held_among(shifts, held).len() == 0 ==> !held_among(shifts, held).contains(
                shifts[0],
            ));
        }
    }
    assert(end.remove(kc) =~= start.remove(kc));
}

/// When the key goes down, Shift is down exactly if the character needs it,
/// wherever the layout has a Shift key and the record of held keys is right
/// about the Shift keys.
pub proof fn the_key_goes_down_at_the_wanted_level(
    start: Set<u8>,
    shifts: Seq<u8>,
    held: Seq<u8>,
    kc: u8,
    shifted: bool,
)
    requires
        forall|s: u8| #[trigger] shifts.contains(s) ==> (start.contains(s) <==> held.contains(s)),
        shifts.len() > 0,
    ensures
        ({
            let acts = tap(shifts, held, kc, shifted);
            let at = shift_before(shifts, held, shifted).len() as int;
            &&& acts[at] == Fake::Key { code: kc, down: true }
            &&& acts[at + 1] == Fake::Key { code: kc, down: false }
            &&& shifted <==> exists|s: u8| #[trigger]
                shifts.contains(s) && keys_down(start, acts.take(at)).contains(s)
        }),
{
    let acts = tap(shifts, held, kc, shifted);
    let first = shift_before(shifts, held, shifted);
    let at = first.len() as int;
    let down = held_among(shifts, held);
    assert(acts.take(at) =~= first);
    lemma_held_among(shifts, held);
    lemma_each_key(start, down, false);
    assert(shifts.contains(shifts[0]));
    if shifted {
        if down.len() == 0 {
            lemma_one(start, first[0]);
            assert(keys_down(start, first) == start.insert(shifts[0]));
            assert(shifts.contains(shifts[0]) && keys_down(start, acts.take(at)).contains(
                shifts[0],
            ));
        } else {
            let s = down[0];
            assert(down.contains(s));
            assert(shifts.contains(s) && keys_down(start, acts.take(at)).contains(s));
        }
    } else {
        assert forall|s: u8| #[trigger] shifts.contains(s) implies !keys_down(
            start,
            acts.take(at),
        ).contains(s) by {
            assert(keys_down(start, each_key(down, false)).contains(s) <==> if down.contains(s) {
                false
            } else {
                start.contains(s)
            });
            assert(down.contains(s) <==> shifts.contains(s) && held.contains(s));
        }
    }
}

proof fn lemma_tap(start: Set<u8>, shifts: Seq<u8>, held: Seq<u8>, kc: u8, shifted: bool)
    ensures
        ({
            let end = keys_down(start, tap(shifts, held, kc, shifted));
            let down = held_among(shifts, held);
            forall|k: u8| #[trigger]
                end.contains(k) <==> if !shifted && down.contains(k) {
                    true
                } else if k == kc {
                    false
                } else if shifted && down.len() == 0 && shifts.len() > 0 && k == shifts[0] {
                    false
                } else {
                    start.contains(k)
                }
        }),
        buttons_down(start, tap(shifts, held, kc, shifted)) == start,
{
    let down = held_among(shifts, held);
    let press = seq![Fake::Key { code: kc, down: true }];
    let release = seq![Fake::Key { code: kc, down: false }];
    let a = shift_before(shifts, held, shifted);
    let c = shift_after(shifts, held, shifted);
    let acts = tap(shifts, held, kc, shifted);
    assert(acts =~= (a + press + release) + c);
    let s1 = keys_down(start, a);
    lemma_down_concat(start, a, press);
    lemma_down_concat(start, a + press, release);
    lemma_down_concat(start, a + press + release, c);
    let s2 = keys_down(s1, press);
    lemma_one(s1, press[0]);
    lemma_one(s2, release[0]);
    lemma_one(start, press[0]);
    lemma_one(start, release[0]);
    let s3 = keys_down(s2, release);
    assert(s2 == s1.insert(kc));
    assert(s3 == s2.remove(kc));
    assert(buttons_down(start, press) == start);
    assert(buttons_down(start, release) == start);
    lemma_each_key(start, down, false);
    lemma_each_key(s3, down, true);
    lemma_each_key(start, down, true);
    if shifted && down.len() == 0 && shifts.len() > 0 {
        lemma_one(start, a[0]);
        lemma_one(start, c[0]);
        lemma_one(s3, c[0]);
    }
    let end = keys_down(start, acts);
    assert(end == keys_down(s3, c));
    assert forall|k: u8| #[trigger] end.contains(k) <==> if !shifted && down.contains(k) {
        true
    } else if k == kc {
        false
    } else if shifted && down.len() == 0 && shifts.len() > 0 && k == shifts[0] {
        false
    } else {
        start.contains(k)
    } by {
        if !shifted {
            assert(keys_down(s3, each_key(down, true)).contains(k) <==> if down.contains(k) {
                true
            } else {
                s3.contains(k)
            });
            assert(keys_down(start, each_key(down, false)).contains(k) <==> if down.contains(k) {
                false
            } else {
                start.contains(k)
            });
        }
    }
}

/// Whether everything that the server sees down is recorded as held.
pub open spec fn accounted(down: Set<u8>, held: Seq<u8>) -> bool {
    forall|k: u8| #[trigger] down.contains(k) ==> held.contains(k)
}

proof fn lemma_clicks(start: Set<u8>, button: u8, n: int)
    ensures
        keys_down(start, clicks(button, n)) == start,
        buttons_down(start, clicks(button, n)) == if n > 0 {
            start.remove(button)
        } else {
            start
        },
    decreases n,
{
    if n > 0 {
        lemma_clicks(start, button, n - 1);
        let press = seq![Fake::Button { button, down: true }];
        let release = seq![Fake::Button { button, down: false }];
        let before = clicks(button, n - 1);
        assert(clicks(button, n) =~= before + press + release);
        lemma_down_concat(start, before, press);
        lemma_down_concat(start, before + press, release);
        let s = buttons_down(start, before);
        lemma_one(start, press[0]);
        lemma_one(start, release[0]);
        lemma_one(s, press[0]);
        lemma_one(s.insert(button), release[0]);
        assert(buttons_down(s, press) == s.insert(button));
        assert(buttons_down(s.insert(button), release) == s.insert(button).remove(button));
        assert(s.insert(button).remove(button) =~= start.remove(button));
        assert(keys_down(start, press) == start);
        assert(keys_down(start, release) == start);
    }
}

proof fn lemma_typed_text(
    layout: &Layout,
    shifts: Seq<u8>,
    held: Seq<u8>,
    pool: PoolState,
    text: Seq<char>,
    keys: Set<u8>,
    buttons: Set<u8>,
)
    requires
        accounted(keys, held),
    ensures
        accounted(keys_down(keys, typed_text(layout, shifts, held, pool, text).1), held),
        buttons_down(buttons, typed_text(layout, shifts, held, pool, text).1) == buttons,
    decreases text.len(),
{
    if text.len() > 0 {
        lemma_typed_text(layout, shifts, held, pool, text.drop_last(), keys, buttons);
        let before = typed_text(layout, shifts, held, pool, text.drop_last());
        let last = typed_char(layout, shifts, held, before.0, text.last());
        lemma_down_concat(keys, before.1, last.1);
        lemma_down_concat(buttons, before.1, last.1);
        let k1 = keys_down(keys, before.1);
        let sym = keysym_of_char(text.last()) as u32;
        lemma_held_among(shifts, held);
        match layout.key(sym) {
            Some((kc, shifted)) => {
                lemma_tap(k1, shifts, held, kc, shifted);
                lemma_tap(buttons, shifts, held, kc, shifted);
            },
            None => {
                if before.0.slots.len() > 0 {
                    let kc = before.0.slots[before.0.chosen(sym)].0;
                    let first = if slot_with(before.0.slots, sym, 0) is None {
                        seq![Fake::Remap { code: kc, keysym: sym }]
                    } else {
                        Seq::empty()
                    };
                    if first.len() > 0 {
                        lemma_one(k1, first[0]);
                        lemma_one(buttons, first[0]);
                    }
                    assert(keys_down(k1, first) == k1);
                    assert(buttons_down(buttons, first) == buttons);
                    lemma_down_concat(k1, first, tap(shifts, held, kc, false));
                    lemma_down_concat(buttons, first, tap(shifts, held, kc, false));
                    lemma_tap(k1, shifts, held, kc, false);
                    lemma_tap(buttons, shifts, held, kc, false);
                }
            },
        }
        assert forall|k: u8| #[trigger] keys_down(k1, last.1).contains(k) implies held.contains(
            k,
        ) by {
            if held_among(shifts, held).contains(k) {
                assert(held.contains(k));
            } else {
                assert(k1.contains(k));
            }
        }
    }
}

/// Whatever the operator does, nothing is down on the server that the injector
/// does not know of.
pub proof fn everything_down_is_accounted_for(
    layout: &Layout,
    shifts: Seq<u8>,
    held: Held,
    gesture: &Gesture,
    keys: Set<u8>,
    buttons: Set<u8>,
)
    requires
        accounted(keys, held.keys),
        accounted(buttons, held.buttons),
    ensures
        accounted(
            keys_down(keys, injected(layout, shifts, held, gesture).1),
            injected(layout, shifts, held, gesture).0.keys,
        ),
        accounted(
            buttons_down(buttons, injected(layout, shifts, held, gesture).1),
            injected(layout, shifts, held, gesture).0.buttons,
        ),
{
    let (after, acts) = injected(layout, shifts, held, gesture);
    match gesture {
        Gesture::MoveTo { x, y } => {
            lemma_one(keys, acts[0]);
                lemma_one(buttons, acts[0]);
        },
        Gesture::Button { button, down } => {
            lemma_one(keys, acts[0]);
                lemma_one(buttons, acts[0]);
            lemma_with(held.buttons, button_number(*button));
            lemma_without(held.buttons, button_number(*button));
            assert(keys_down(keys, acts) == keys);
            assert forall|k: u8| #[trigger] buttons_down(buttons, acts).contains(k) implies
                after.buttons.contains(k) by {
                assert(buttons.contains(k) ==> held.buttons.contains(k));
            }
        },
        Gesture::Key { key, down } => {
            if let Some((kc, _)) = layout.key(keysym_of(*key)) {
                lemma_one(keys, acts[0]);
                lemma_one(buttons, acts[0]);
                lemma_with(held.keys, kc);
                lemma_without(held.keys, kc);
                assert(buttons_down(buttons, acts) == buttons);
                assert forall|k: u8| #[trigger] keys_down(keys, acts).contains(k) implies
                    after.keys.contains(k) by {
                    assert(keys.contains(k) ==> held.keys.contains(k));
                }
            }
        },
        Gesture::Wheel { vertical, horizontal } => {
            let v = if *vertical > 0 {
                4u8
            } else {
                5u8
            };
            let h = if *horizontal > 0 {
                7u8
            } else {
                6u8
            };
            let nv = if *vertical > 0 {
                *vertical as int
            } else {
                -*vertical
            };
            let nh = if *horizontal > 0 {
                *horizontal as int
            } else {
                -*horizontal
            };
            let up = clicks(v, nv);
            let across = clicks(h, nh);
            assert(acts == up + across);
            lemma_clicks(keys, v, nv);
            lemma_clicks(keys, h, nh);
            lemma_down_concat(keys, up, across);
            lemma_down_concat(buttons, up, across);
            lemma_clicks(buttons, v, nv);
            let b1 = buttons_down(buttons, up);
            lemma_clicks(b1, h, nh);
            lemma_without(held.buttons, v);
            let once = if *vertical != 0 {
                without(held.buttons, v)
            } else {
                held.buttons
            };
            lemma_without(once, h);
            assert forall|k: u8| #[trigger] buttons_down(buttons, acts).contains(k) implies
                after.buttons.contains(k) by {
                assert(buttons.contains(k));
                assert(held.buttons.contains(k));
                assert(once.contains(k));
            }
        },
        Gesture::Text { text } => {
            lemma_typed_text(layout, shifts, held.keys, held.pool, text@, keys, buttons);
        },
    }
}

/// Once everything held is released, no key and no button is down: a session
/// that ends cannot leave anything pressed.
pub proof fn releasing_leaves_nothing_down(held: Held, keys: Set<u8>, buttons: Set<u8>)
    requires
        accounted(keys, held.keys),
        accounted(buttons, held.buttons),
    ensures
        ({
            let acts = each_key(held.keys, false) + each_button(held.buttons, false);
            &&& keys_down(keys, acts) == Set::<u8>::empty()
            &&& buttons_down(buttons, acts) == Set::<u8>::empty()
        }),
{
    let a = each_key(held.keys, false);
    let b = each_button(held.buttons, false);
    lemma_down_concat(keys, a, b);
    lemma_down_concat(buttons, a, b);
    lemma_each_key(keys, held.keys, false);
    lemma_each_key(buttons, held.keys, false);
    lemma_each_button(keys_down(keys, a), held.buttons);
    lemma_each_button(buttons, held.buttons);
    assert(keys_down(keys, a + b) =~= Set::<u8>::empty());
    assert(buttons_down(buttons, a + b) =~= Set::<u8>::empty());
}

/// What the server's keys carry after `acts`, without Shift and with it, from what they carried
/// before. A key that is mapped to one keysym carries it either way.
pub open spec fn carried(start: Map<(u8, bool), u32>, acts: Seq<Fake>) -> Map<(u8, bool), u32>
    decreases acts.len(),
{
    if acts.len() == 0 {
        start
    } else {
        let before = carried(start, acts.drop_last());
        match acts.last() {
            Fake::Remap { code, keysym } => before.insert((code, false), keysym).insert(
                (code, true),
                keysym,
            ),
            _ => before,
        }
    }
}

/// Whether one of the Shift keys is down.
pub open spec fn shift_is_down(shifts: Seq<u8>, down: Set<u8>) -> bool {
    exists|s: u8| #[trigger] shifts.contains(s) && down.contains(s)
}

/// The keysyms that the server hands to the application with the keys that go down, Shift keys
/// left out: each by what its key carries then, and by whether Shift is down then.
pub open spec fn produced(
    carries: Map<(u8, bool), u32>,
    down: Set<u8>,
    shifts: Seq<u8>,
    acts: Seq<Fake>,
) -> Seq<u32>
    decreases acts.len(),
{
    if acts.len() == 0 {
        Seq::empty()
    } else {
        let front = acts.drop_last();
        let before = produced(carries, down, shifts, front);
        match acts.last() {
            Fake::Key { code, down: true } => if shifts.contains(code) {
                before
            } else {
                before.push(
                    carried(carries, front)[(code, shift_is_down(shifts, keys_down(down, front)))],
                )
            },
            _ => before,
        }
    }
}

/// Whether an injector knows the server's keyboard: a key that its layout gives for a keysym
/// carries it, each spare keycode carries what the pool says, and Shift keys, keys of the layout
/// and spare keycodes are different keys.
pub open spec fn knows(
    layout: &Layout,
    shifts: Seq<u8>,
    pool: PoolState,
    carries: Map<(u8, bool), u32>,
) -> bool {
    &&& pool.wf()
    &&& shifts.len() > 0
    &&& forall|sym: u32| #[trigger]
        layout.key(sym) matches Some((kc, shifted)) ==> carries[(kc, shifted)] == sym
    &&& forall|ch: char|
        layout.key(#[trigger] keysym_of_char(ch) as u32) matches Some((kc, _)) ==> !shifts.contains(
            kc,
        )
    &&& forall|i: int|
        0 <= i < pool.slots.len() ==> carries[((#[trigger] pool.slots[i]).0, false)]
            == pool.slots[i].1 && !shifts.contains(pool.slots[i].0)
    &&& forall|i: int, sym: u32|
        0 <= i < pool.slots.len() ==> (#[trigger] layout.key(sym) matches Some((kc, _)) ==> kc != (
        #[trigger] pool.slots[i]).0)
    &&& forall|i: int, j: int|
        0 <= i < j < pool.slots.len() ==> (#[trigger] pool.slots[i]).0 != (
        #[trigger] pool.slots[j]).0
}

/// Whether the record of held keys is right about the Shift keys.
pub open spec fn shifts_as_recorded(down: Set<u8>, shifts: Seq<u8>, held: Seq<u8>) -> bool {
    forall|s: u8| #[trigger] shifts.contains(s) ==> (down.contains(s) <==> held.contains(s))
}

/// Whether a character can be typed: the layout has it, or there is a spare keycode.
pub open spec fn typable(layout: &Layout, pool: PoolState, ch: char) -> bool {
    layout.key(keysym_of_char(ch) as u32) is Some || pool.slots.len() > 0
}

proof fn lemma_produced_concat(
    m: Map<(u8, bool), u32>,
    d: Set<u8>,
    shifts: Seq<u8>,
    a: Seq<Fake>,
    b: Seq<Fake>,
)
    ensures
        carried(m, a + b) == carried(carried(m, a), b),
        produced(m, d, shifts, a + b) == produced(m, d, shifts, a) + produced(
            carried(m, a),
            keys_down(d, a),
            shifts,
            b,
        ),
    decreases b.len(),
{
    if b.len() == 0 {
        assert(a + b =~= a);
        assert(produced(m, d, shifts, a + b) =~= produced(m, d, shifts, a) + produced(
            carried(m, a),
            keys_down(d, a),
            shifts,
            b,
        ));
    } else {
        let front = b.drop_last();
        assert((a + b).drop_last() =~= a + front);
        lemma_produced_concat(m, d, shifts, a, front);
        lemma_down_concat(d, a, front);
        assert(produced(m, d, shifts, a + b) =~= produced(m, d, shifts, a) + produced(
            carried(m, a),
            keys_down(d, a),
            shifts,
            b,
        ));
    }
}

proof fn lemma_shift_types_nothing(
    m: Map<(u8, bool), u32>,
    d: Set<u8>,
    shifts: Seq<u8>,
    acts: Seq<Fake>,
)
    requires
        forall|i: int|
            0 <= i < acts.len() ==> (#[trigger] acts[i] matches Fake::Key { code, .. }
                && shifts.contains(code)),
    ensures
        carried(m, acts) == m,
        produced(m, d, shifts, acts) == Seq::<u32>::empty(),
    decreases acts.len(),
{
    if acts.len() > 0 {
        let front = acts.drop_last();
        assert forall|i: int| 0 <= i < front.len() implies (#[trigger] front[i] matches Fake::Key {
            code,
            ..
        } && shifts.contains(code)) by {
            assert(front[i] == acts[i]);
        }
        lemma_shift_types_nothing(m, d, shifts, front);
        assert(acts[acts.len() - 1] == acts.last());
    }
}

proof fn lemma_tap_types(
    m: Map<(u8, bool), u32>,
    d: Set<u8>,
    shifts: Seq<u8>,
    held: Seq<u8>,
    kc: u8,
    shifted: bool,
)
    requires
        shifts_as_recorded(d, shifts, held),
        shifts.len() > 0,
        !shifts.contains(kc),
    ensures
        produced(m, d, shifts, tap(shifts, held, kc, shifted)) == seq![m[(kc, shifted)]],
        carried(m, tap(shifts, held, kc, shifted)) == m,
        shifts_as_recorded(keys_down(d, tap(shifts, held, kc, shifted)), shifts, held),
{
    let acts = tap(shifts, held, kc, shifted);
    let a = shift_before(shifts, held, shifted);
    let c = shift_after(shifts, held, shifted);
    let press = seq![Fake::Key { code: kc, down: true }];
    let release = seq![Fake::Key { code: kc, down: false }];
    let down = held_among(shifts, held);
    lemma_held_among(shifts, held);
    assert(shifts.contains(shifts[0]));
    assert forall|i: int| 0 <= i < a.len() implies (#[trigger] a[i] matches Fake::Key { code, .. }
        && shifts.contains(code)) by {
        if !shifted {
            assert(down.contains(down[i]));
        }
    }
    assert forall|i: int| 0 <= i < c.len() implies (#[trigger] c[i] matches Fake::Key { code, .. }
        && shifts.contains(code)) by {
        if !shifted {
            assert(down.contains(down[i]));
        }
    }
    the_key_goes_down_at_the_wanted_level(d, shifts, held, kc, shifted);
    assert(acts.take(a.len() as int) =~= a);
    let d1 = keys_down(d, a);
    assert(shift_is_down(shifts, d1) == shifted);
    let d2 = keys_down(d, a + press);
    let d3 = keys_down(d, a + press + release);
    lemma_shift_types_nothing(m, d, shifts, a);
    lemma_shift_types_nothing(m, d3, shifts, c);
    lemma_produced_concat(m, d, shifts, a, press);
    lemma_produced_concat(m, d, shifts, a + press, release);
    lemma_produced_concat(m, d, shifts, a + press + release, c);
    assert(press.drop_last() =~= Seq::<Fake>::empty());
    assert(release.drop_last() =~= Seq::<Fake>::empty());
    assert(keys_down(d1, press.drop_last()) == d1);
    assert(carried(m, press.drop_last()) == m);
    assert(carried(m, release.drop_last()) == m);
    assert(produced(m, d1, shifts, press.drop_last()) =~= Seq::<u32>::empty());
    assert(produced(m, d2, shifts, release.drop_last()) =~= Seq::<u32>::empty());
    assert(produced(m, d1, shifts, press) =~= seq![m[(kc, shifted)]]);
    assert(produced(m, d2, shifts, release) =~= Seq::<u32>::empty());
    assert(acts =~= a + press + release + c);
    assert(produced(m, d, shifts, acts) =~= seq![m[(kc, shifted)]]);
    typing_puts_shift_back(d, shifts, held, kc, shifted);
    let end = keys_down(d, acts);
    assert forall|s: u8| #[trigger] shifts.contains(s) implies (end.contains(s) <==> held.contains(
        s,
    )) by {
        assert(end.remove(kc).contains(s) == d.remove(kc).contains(s));
    }
}

proof fn lemma_char_types(
    layout: &Layout,
    shifts: Seq<u8>,
    held: Seq<u8>,
    pool: PoolState,
    m: Map<(u8, bool), u32>,
    d: Set<u8>,
    ch: char,
)
    requires
        knows(layout, shifts, pool, m),
        shifts_as_recorded(d, shifts, held),
    ensures
        ({
            let (after, acts) = typed_char(layout, shifts, held, pool, ch);
            &&& produced(m, d, shifts, acts) == if typable(layout, pool, ch) {
                seq![keysym_of_char(ch) as u32]
            } else {
                Seq::empty()
            }
            &&& knows(layout, shifts, after, carried(m, acts))
            &&& shifts_as_recorded(keys_down(d, acts), shifts, held)
            &&& after.slots.len() == pool.slots.len()
        }),
{
    let sym = keysym_of_char(ch) as u32;
    let (after, acts) = typed_char(layout, shifts, held, pool, ch);
    match layout.key(sym) {
        Some((kc, shifted)) => {
            lemma_tap_types(m, d, shifts, held, kc, shifted);
        },
        None => {
            if pool.slots.len() > 0 {
                crate::xkeys::mapped_slots_are_found(pool.slots, sym, 0);
                let at = pool.chosen(sym);
                let kc = pool.slots[at].0;
                let first = if slot_with(pool.slots, sym, 0) is None {
                    seq![Fake::Remap { code: kc, keysym: sym }]
                } else {
                    Seq::empty()
                };
                let press = tap(shifts, held, kc, false);
                let m1 = carried(m, first);
                if first.len() > 0 {
                    lemma_one(d, first[0]);
                    assert(first.drop_last() =~= Seq::<Fake>::empty());
                    assert(carried(m, first.drop_last()) == m);
                    assert(produced(m, d, shifts, first.drop_last()) =~= Seq::<u32>::empty());
                    assert(m1 == m.insert((kc, false), sym).insert((kc, true), sym));
                }
                assert(keys_down(d, first) == d);
                assert(produced(m, d, shifts, first) =~= Seq::<u32>::empty());
                lemma_tap_types(m1, d, shifts, held, kc, false);
                lemma_produced_concat(m, d, shifts, first, press);
                lemma_down_concat(d, first, press);
                assert(produced(m, d, shifts, acts) =~= seq![m1[(kc, false)]]);
                assert(after.slots[at] == (kc, sym));
                assert forall|i: int| 0 <= i < after.slots.len() implies m1[(
                    (#[trigger] after.slots[i]).0,
                    false,
                )] == after.slots[i].1 && !shifts.contains(after.slots[i].0) by {
                    assert(after.slots[i].0 == pool.slots[i].0);
                    if i < at {
                        assert(pool.slots[i].0 != pool.slots[at].0);
                    }
                    if at < i {
                        assert(pool.slots[at].0 != pool.slots[i].0);
                    }
                }
                assert forall|i: int, s: u32| 0 <= i < after.slots.len() implies (
                #[trigger] layout.key(s) matches Some((k, _)) ==> k != (
                #[trigger] after.slots[i]).0) by {
                    assert(after.slots[i].0 == pool.slots[i].0);
                }
                assert forall|i: int, j: int| 0 <= i < j < after.slots.len() implies (
                #[trigger] after.slots[i]).0 != (#[trigger] after.slots[j]).0 by {
                    assert(after.slots[i].0 == pool.slots[i].0);
                    assert(after.slots[j].0 == pool.slots[j].0);
                }
                assert forall|s: u32|
                    (#[trigger] layout.key(s) matches Some((k, shifted)) ==> m1[(k, shifted)] == s) by {
                    assert(pool.slots[at].0 == kc);
                }
            }
        },
    }
}

/// Text arrives as it was typed: with an injector that knows the server's keyboard, and Shift as
/// it is recorded, the application gets the keysym of each character that can be typed, in
/// order and once, and nothing else; and the injector still knows the keyboard afterwards.
pub proof fn text_arrives_as_it_was_typed(
    layout: &Layout,
    shifts: Seq<u8>,
    held: Seq<u8>,
    pool: PoolState,
    carries: Map<(u8, bool), u32>,
    down: Set<u8>,
    text: Seq<char>,
)
    requires
        knows(layout, shifts, pool, carries),
        shifts_as_recorded(down, shifts, held),
    ensures
        ({
            let (after, acts) = typed_text(layout, shifts, held, pool, text);
            &&& produced(carries, down, shifts, acts) == text.filter(
                |ch: char| typable(layout, pool, ch),
            ).map_values(|ch: char| keysym_of_char(ch) as u32)
            &&& knows(layout, shifts, after, carried(carries, acts))
            &&& shifts_as_recorded(keys_down(down, acts), shifts, held)
            &&& after.slots.len() == pool.slots.len()
        }),
    decreases text.len(),
{
    reveal(Seq::filter);
    let can = |ch: char| typable(layout, pool, ch);
    let sym = |ch: char| keysym_of_char(ch) as u32;
    let (after, acts) = typed_text(layout, shifts, held, pool, text);
    if text.len() == 0 {
        assert(produced(carries, down, shifts, acts) =~= text.filter(can).map_values(sym));
    } else {
        let front = text.drop_last();
        text_arrives_as_it_was_typed(layout, shifts, held, pool, carries, down, front);
        let before = typed_text(layout, shifts, held, pool, front);
        let (m, d) = (carried(carries, before.1), keys_down(down, before.1));
        lemma_char_types(layout, shifts, held, before.0, m, d, text.last());
        let last = typed_char(layout, shifts, held, before.0, text.last());
        lemma_produced_concat(carries, down, shifts, before.1, last.1);
        lemma_down_concat(down, before.1, last.1);
        assert(produced(carries, down, shifts, acts) =~= text.filter(can).map_values(sym));
    }
}

/// An injector that was made for a server's keyboard knows it, as long as the keyboard has a
/// Shift key and no Shift key types a character.
pub proof fn a_new_injector_knows_the_keyboard(
    x: &XTestInput,
    min: u8,
    per: usize,
    table: Seq<u32>,
    carries: Map<(u8, bool), u32>,
)
    requires
        x.wf(),
        x.held().pool.next == 0,
        ({
            let n = row_count(min as int, per as int, table);
            let spare = empty_keys(min as int, per as int, table, n);
            &&& forall|sym: u32| #[trigger]
                x.layout().key(sym) == key_for(min as int, per as int, table, n, sym)
            &&& x.held().pool.slots == Seq::new(
                (if spare.len() <= SCRATCH_KEYS { spare.len() } else { SCRATCH_KEYS as nat }),
                |i: int| (spare[i], 0u32),
            )
            &&& forall|i: int|
                0 <= i < n ==> carries[((min + i) as u8, false)] == #[trigger] cell(
                    table,
                    per as int,
                    i,
                    0,
                )
            &&& forall|i: int|
                0 <= i < n ==> carries[((min + i) as u8, true)] == #[trigger] cell(
                    table,
                    per as int,
                    i,
                    1,
                )
        }),
        per > 0,
        x.shifts().len() > 0,
        forall|ch: char|
            x.layout().key(#[trigger] keysym_of_char(ch) as u32) matches Some((kc, _))
                ==> !x.shifts().contains(kc),
    ensures
        knows(x.layout(), x.shifts(), x.held().pool, carries),
{
    let (lo, p) = (min as int, per as int);
    let n = row_count(lo, p, table);
    let spare = empty_keys(lo, p, table, n);
    let pool = x.held().pool;
    let layout = x.layout();
    assert(n <= 256 - lo);
    assert(n >= 0) by (nonlinear_arith)
        requires
            p > 0,
            lo <= 255,
            n == (if (table.len() + p - 1) / p <= 256 - lo {
                (table.len() + p - 1) / p
            } else {
                256 - lo
            }),
            table.len() >= 0,
    ;
    assert forall|sym: u32|
        (#[trigger] layout.key(sym) matches Some((kc, shifted)) ==> carries[(kc, shifted)] == sym
            && sym != 0 && lo <= kc < lo + n && cell(table, p, kc - lo, if shifted {
            1
        } else {
            0
        }) == sym) by {
        if sym != 0 {
            crate::xkeys::a_plain_key_comes_first(lo, p, table, n, sym);
            if let Some((kc, shifted)) = layout.key(sym) {
                assert((lo + (kc - lo)) as u8 == kc);
            }
        } else {
            assert(key_for(lo, p, table, n, sym) is None);
        }
    }
    assert forall|i: int| 0 <= i < pool.slots.len() implies carries[(
        (#[trigger] pool.slots[i]).0,
        false,
    )] == pool.slots[i].1 && lo <= pool.slots[i].0 < lo + n && empty_row(
        table,
        p,
        pool.slots[i].0 - lo,
    ) by {
        let kc = spare[i];
        assert(pool.slots[i] == (kc, 0u32));
        assert(spare.contains(kc));
        crate::xkeys::spare_keys_carry_nothing(lo, p, table, n, kc);
        assert(cell(table, p, kc - lo, 0) == 0);
        assert((lo + (kc - lo)) as u8 == kc);
    }
    assert forall|i: int, sym: u32| 0 <= i < pool.slots.len() implies (
    #[trigger] layout.key(sym) matches Some((kc, _)) ==> kc != (#[trigger] pool.slots[i]).0) by {
        if let Some((kc, shifted)) = layout.key(sym) {
            if kc == pool.slots[i].0 {
                let level = if shifted {
                    1int
                } else {
                    0
                };
                assert(empty_row(table, p, kc - lo));
                assert(cell(table, p, kc - lo, level) == 0);
            }
        }
    }
    assert forall|i: int, j: int| 0 <= i < j < pool.slots.len() implies (
    #[trigger] pool.slots[i]).0 != (#[trigger] pool.slots[j]).0 by {
        crate::xkeys::spare_keys_carry_nothing(lo, p, table, n, spare[i]);
        assert(spare[i] < spare[j]);
    }
    assert forall|i: int| 0 <= i < pool.slots.len() implies !x.shifts().contains(
        (#[trigger] pool.slots[i]).0,
    ) by {
        let (left, right) = (
            layout.key(keysym_of(KeyCode::ShiftLeft)),
            layout.key(keysym_of(KeyCode::ShiftRight)),
        );
        let s = x.shifts();
        if s.contains(pool.slots[i].0) {
            let k = choose|k: int| 0 <= k < s.len() && s[k] == pool.slots[i].0;
            assert((left matches Some((kc, _)) && kc == s[k]) || (right matches Some((kc, _)) && kc
                == s[k]));
        }
    }
}

/// The desktop-coordinate origin of a monitor, from the list of all of them.
pub fn monitor_origin(origins: &Vec<(i32, i32)>, monitor: u32) -> (r: Option<(i32, i32)>)
    ensures
        r == if monitor < origins.len() {
            Some(origins@[monitor as int])
        } else {
            None
        },
{
    if (monitor as usize) < origins.len() {
        Some(origins[monitor as usize])
    } else {
        None
    }
}

/// One event for `SendInput`.
#[derive(Debug, Clone, Copy, PartialEq, Eq, Structural)]
pub enum WinEvent {
    Mouse { dx: i32, dy: i32, data: i32, flags: u32 },
    Key { scan: u16, flags: u32 },
}

pub const KEYEVENTF_EXTENDEDKEY: u32 = 0x0001;

pub const KEYEVENTF_KEYUP: u32 = 0x0002;

pub const KEYEVENTF_UNICODE: u32 = 0x0004;

pub const KEYEVENTF_SCANCODE: u32 = 0x0008;

pub const MOUSEEVENTF_LEFTDOWN: u32 = 0x0002;

pub const MOUSEEVENTF_LEFTUP: u32 = 0x0004;

pub const MOUSEEVENTF_RIGHTDOWN: u32 = 0x0008;

pub const MOUSEEVENTF_RIGHTUP: u32 = 0x0010;

pub const MOUSEEVENTF_MIDDLEDOWN: u32 = 0x0020;

pub const MOUSEEVENTF_MIDDLEUP: u32 = 0x0040;

pub const MOUSEEVENTF_XDOWN: u32 = 0x0080;

pub const MOUSEEVENTF_XUP: u32 = 0x0100;

pub const MOUSEEVENTF_WHEEL: u32 = 0x0800;

/// Move, to an absolute position, on the whole virtual desktop.
pub const MOUSEEVENTF_MOVE_ABSOLUTE: u32 = 0xC001;

pub const XBUTTON1: i32 = 1;

pub const XBUTTON2: i32 = 2;

/// The flags of a physical-key event.
pub open spec fn key_flags(extended: bool, down: bool) -> int {
    KEYEVENTF_SCANCODE + (if extended {
        KEYEVENTF_EXTENDEDKEY as int
    } else {
        0
    }) + (if down {
        0
    } else {
        KEYEVENTF_KEYUP as int
    })
}

/// The event of a physical key.
pub open spec fn key_event(key: KeyCode, down: bool) -> WinEvent {
    let (scan, extended) = scancode_of(key);
    WinEvent::Key { scan, flags: key_flags(extended, down) as u32 }
}

/// The flags of a button event, and which extra button it is.
pub open spec fn button_flags_of(button: MouseButton, down: bool) -> (u32, i32) {
    match button {
        MouseButton::Left => (if down { MOUSEEVENTF_LEFTDOWN } else { MOUSEEVENTF_LEFTUP }, 0),
        MouseButton::Right => (if down { MOUSEEVENTF_RIGHTDOWN } else { MOUSEEVENTF_RIGHTUP }, 0),
        MouseButton::Middle => (if down { MOUSEEVENTF_MIDDLEDOWN } else { MOUSEEVENTF_MIDDLEUP }, 0),
        MouseButton::Back => (if down { MOUSEEVENTF_XDOWN } else { MOUSEEVENTF_XUP }, XBUTTON1),
        MouseButton::Forward => (if down { MOUSEEVENTF_XDOWN } else { MOUSEEVENTF_XUP }, XBUTTON2),
    }
}

/// The event of a mouse button.
pub open spec fn button_event(button: MouseButton, down: bool) -> WinEvent {
    let (flags, data) = button_flags_of(button, down);
    WinEvent::Mouse { dx: 0, dy: 0, data, flags }
}

/// The UTF-16 code units of a character.
pub open spec fn utf16(c: char) -> Seq<u16> {
    let n = c as int;
    if n < 0x10000 {
        seq![n as u16]
    } else {
        seq![
            (0xD800 + (n - 0x10000) / 0x400) as u16,
            (0xDC00 + (n - 0x10000) % 0x400) as u16,
        ]
    }
}

/// A press and a release of one code unit.
pub open spec fn unit_events(unit: u16) -> Seq<WinEvent> {
    seq![
        WinEvent::Key { scan: unit, flags: KEYEVENTF_UNICODE },
        WinEvent::Key { scan: unit, flags: (KEYEVENTF_UNICODE + KEYEVENTF_KEYUP) as u32 },
    ]
}

/// A press and a release of each code unit of a text.
pub open spec fn text_events(text: Seq<char>) -> Seq<WinEvent>
    decreases text.len(),
{
    if text.len() == 0 {
        Seq::empty()
    } else {
        let units = utf16(text.last());
        let before = text_events(text.drop_last()) + unit_events(units[0]);
        if units.len() == 1 {
            before
        } else {
            before + unit_events(units[1])
        }
    }
}

/// The keys and buttons that a Windows injector holds down.
pub struct WinHeld {
    pub keys: Seq<KeyCode>,
    pub buttons: Seq<MouseButton>,
}

/// What a gesture does to what is held, and the events that it becomes. A wheel
/// distance of zero is no event at all.
pub open spec fn sent(held: WinHeld, gesture: &Gesture) -> (WinHeld, Seq<WinEvent>) {
    match gesture {
        Gesture::MoveTo { x, y } => (
            held,
            seq![WinEvent::Mouse { dx: *x, dy: *y, data: 0, flags: MOUSEEVENTF_MOVE_ABSOLUTE }],
        ),
        Gesture::Button { button, down } => (
            WinHeld { buttons: turned(held.buttons, *button, *down), ..held },
            seq![button_event(*button, *down)],
        ),
        Gesture::Wheel { vertical, .. } => (
            held,
            if *vertical == 0 {
                Seq::empty()
            } else {
                seq![WinEvent::Mouse { dx: 0, dy: 0, data: *vertical, flags: MOUSEEVENTF_WHEEL }]
            },
        ),
        Gesture::Key { key, down } => (
            WinHeld { keys: turned(held.keys, *key, *down), ..held },
            seq![key_event(*key, *down)],
        ),
        Gesture::Text { text } => (held, text_events(text@)),
    }
}

/// The Windows injector: what is held.
pub struct WinInput {
    held_keys: Vec<KeyCode>,
    held_buttons: Vec<MouseButton>,
}

impl WinInput {
    /// What is held.
    pub closed spec fn held(&self) -> WinHeld {
        WinHeld { keys: self.held_keys@, buttons: self.held_buttons@ }
    }

    /// Nothing is held twice.
    pub open spec fn wf(&self) -> bool {
        self.held().keys.no_duplicates() && self.held().buttons.no_duplicates()
    }

    /// An injector that holds nothing.
    pub fn new() -> (r: Self)
        ensures
            r.wf(),
            r.held().keys.len() == 0,
            r.held().buttons.len() == 0,
    {
        WinInput { held_keys: Vec::new(), held_buttons: Vec::new() }
    }

    /// A mouse event.
    pub fn mouse(&self, dx: i32, dy: i32, data: i32, flags: u32) -> (r: WinEvent)
        ensures
            r == (WinEvent::Mouse { dx, dy, data, flags }),
    {
        WinEvent::Mouse { dx, dy, data, flags }
    }

    /// A physical-key event.
    pub fn key_input(&self, scan: u16, extended: bool, down: bool) -> (r: WinEvent)
        ensures
            r == (WinEvent::Key { scan, flags: key_flags(extended, down) as u32 }),
            r matches WinEvent::Key { flags, .. } && flags == 8 + (if extended {
                1int
            } else {
                0
            }) + (if down {
                0int
            } else {
                2
            }),
    {
        let mut flags: u32 = KEYEVENTF_SCANCODE;
        if extended {
            flags = flags + KEYEVENTF_EXTENDEDKEY;
        }
        if !down {
            flags = flags + KEYEVENTF_KEYUP;
        }
        WinEvent::Key { scan, flags }
    }

    /// The flags of a button event, and which extra button it is.
    pub fn button_flags(button: MouseButton, down: bool) -> (r: (u32, i32))
        ensures
            r == button_flags_of(button, down),
            button == MouseButton::Left ==> r == (if down { 0x02u32 } else { 0x04u32 }, 0i32),
            button == MouseButton::Right ==> r == (if down { 0x08u32 } else { 0x10u32 }, 0i32),
            button == MouseButton::Middle ==> r == (if down { 0x20u32 } else { 0x40u32 }, 0i32),
            button == MouseButton::Back ==> r == (if down { 0x80u32 } else { 0x100u32 }, 1i32),
            button == MouseButton::Forward ==> r == (if down { 0x80u32 } else { 0x100u32 }, 2i32),
    {
        match (button, down) {
            (MouseButton::Left, true) => (MOUSEEVENTF_LEFTDOWN, 0),
            (MouseButton::Left, false) => (MOUSEEVENTF_LEFTUP, 0),
            (MouseButton::Right, true) => (MOUSEEVENTF_RIGHTDOWN, 0),
            (MouseButton::Right, false) => (MOUSEEVENTF_RIGHTUP, 0),
            (MouseButton::Middle, true) => (MOUSEEVENTF_MIDDLEDOWN, 0),
            (MouseButton::Middle, false) => (MOUSEEVENTF_MIDDLEUP, 0),
            (MouseButton::Back, true) => (MOUSEEVENTF_XDOWN, XBUTTON1),
            (MouseButton::Back, false) => (MOUSEEVENTF_XUP, XBUTTON1),
            (MouseButton::Forward, true) => (MOUSEEVENTF_XDOWN, XBUTTON2),
            (MouseButton::Forward, false) => (MOUSEEVENTF_XUP, XBUTTON2),
        }
    }

    fn push_unit(out: &mut Vec<WinEvent>, unit: u16)
        ensures
            final(out)@ == old(out)@ + unit_events(unit),
    {
        out.push(WinEvent::Key { scan: unit, flags: KEYEVENTF_UNICODE });
        out.push(WinEvent::Key { scan: unit, flags: KEYEVENTF_UNICODE + KEYEVENTF_KEYUP });
        assert(out@ =~= old(out)@ + unit_events(unit));
    }

    /// Turns a gesture into events, in order, and records what is held from then
    /// on.
    pub fn inject(&mut self, gesture: &Gesture) -> (r: Vec<WinEvent>)
        requires
            old(self).wf(),
        ensures
            final(self).wf(),
            final(self).held() == sent(old(self).held(), gesture).0,
            r@ == sent(old(self).held(), gesture).1,
            gesture matches Gesture::MoveTo { x, y } ==> r@ == seq![
                WinEvent::Mouse { dx: *x, dy: *y, data: 0, flags: 0xC001 },
            ],
            gesture matches Gesture::Wheel { vertical, .. } ==> r@ == if *vertical == 0 {
                Seq::empty()
            } else {
                seq![WinEvent::Mouse { dx: 0, dy: 0, data: *vertical, flags: 0x0800 }]
            },
            gesture matches Gesture::Key { key, down } ==> {
                &&& r@.len() == 1
                &&& r@[0] matches WinEvent::Key { scan, flags } && scan == scancode_of(*key).0
                    && flags == 8 + (if scancode_of(*key).1 {
                    1int
                } else {
                    0
                }) + (if *down {
                    0int
                } else {
                    2
                })
                &&& forall|k: KeyCode| #[trigger]
                    final(self).held().keys.contains(k) <==> if k == *key {
                        *down
                    } else {
                        old(self).held().keys.contains(k)
                    }
                &&& final(self).held().buttons == old(self).held().buttons
            },
            gesture matches Gesture::Button { button, down } ==> {
                &&& r@.len() == 1
                &&& forall|b: MouseButton| #[trigger]
                    final(self).held().buttons.contains(b) <==> if b == *button {
                        *down
                    } else {
                        old(self).held().buttons.contains(b)
                    }
                &&& final(self).held().keys == old(self).held().keys
            },
    {
        proof {
            match gesture {
                Gesture::Key { key, down } => {
                    lemma_turned_holds(self.held().keys, *key, *down);
                },
                Gesture::Button { button, down } => {
                    lemma_turned_holds(self.held().buttons, *button, *down);
                },
                _ => {},
            }
        }
        let mut out: Vec<WinEvent> = Vec::new();
        match gesture {
            Gesture::MoveTo { x, y } => {
                out.push(self.mouse(*x, *y, 0, MOUSEEVENTF_MOVE_ABSOLUTE));
            },
            Gesture::Button { button, down } => {
                let (flags, data) = Self::button_flags(*button, *down);
                out.push(self.mouse(0, 0, data, flags));
                turn(&mut self.held_buttons, *button, *down);
            },
            Gesture::Wheel { vertical, .. } => {
                if *vertical != 0 {
                    out.push(self.mouse(0, 0, *vertical, MOUSEEVENTF_WHEEL));
                }
            },
            Gesture::Key { key, down } => {
                let (scan, extended) = scancode(*key);
                out.push(self.key_input(scan, extended, *down));
                turn(&mut self.held_keys, *key, *down);
            },
            Gesture::Text { text } => {
                let chars = chars_of(text);
                let mut i: usize = 0;
                assert(chars@.take(0) =~= Seq::<char>::empty());
                while i < chars.len()
                    invariant
                        i <= chars.len(),
                        out@ == text_events(chars@.take(i as int)),
                        *self == *old(self),
                    decreases chars.len() - i,
                {
                    assert(chars@.take(i + 1).drop_last() =~= chars@.take(i as int));
                    let n: u32 = code_point(chars[i]);
                    if n < 0x10000 {
                        Self::push_unit(&mut out, n as u16);
                    } else {
                        Self::push_unit(&mut out, (0xD800 + (n - 0x10000) / 0x400) as u16);
                        Self::push_unit(&mut out, (0xDC00 + (n - 0x10000) % 0x400) as u16);
                    }
                    i = i + 1;
                }
                assert(chars@.take(i as int) =~= text@);
            },
        }
        assert(out@ =~= sent(old(self).held(), gesture).1);
        out
    }

    /// Release every key and button currently held.
    pub fn release_all(&mut self) -> (r: Vec<WinEvent>)
        requires
            old(self).wf(),
        ensures
            final(self).wf(),
            final(self).held().keys.len() == 0,
            final(self).held().buttons.len() == 0,
            r@ == old(self).held().keys.map_values(|k: KeyCode| key_event(k, false)) + old(
                self,
            ).held().buttons.map_values(|b: MouseButton| button_event(b, false)),
    {
        let mut out: Vec<WinEvent> = Vec::new();
        let mut i: usize = 0;
        while i < self.held_keys.len()
            invariant
                *self == *old(self),
                i <= self.held_keys.len(),
                out@ == self.held_keys@.take(i as int).map_values(
                    |k: KeyCode| key_event(k, false),
                ),
            decreases self.held_keys.len() - i,
        {
            let (scan, extended) = scancode(self.held_keys[i]);
            out.push(self.key_input(scan, extended, false));
            i = i + 1;
            assert(out@ =~= self.held_keys@.take(i as int).map_values(
                |k: KeyCode| key_event(k, false),
            ));
        }
        assert(self.held_keys@.take(i as int) =~= self.held_keys@);
        let ghost first = out@;
        let mut j: usize = 0;
        assert(out@ =~= first + self.held_buttons@.take(0).map_values(
            |b: MouseButton| button_event(b, false),
        ));
        while j < self.held_buttons.len()
            invariant
                *self == *old(self),
                j <= self.held_buttons.len(),
                out@ == first + self.held_buttons@.take(j as int).map_values(
                    |b: MouseButton| button_event(b, false),
                ),
            decreases self.held_buttons.len() - j,
        {
            let (flags, data) = Self::button_flags(self.held_buttons[j], false);
            out.push(self.mouse(0, 0, data, flags));
            j = j + 1;
            assert(out@ =~= first + self.held_buttons@.take(j as int).map_values(
                |b: MouseButton| button_event(b, false),
            ));
        }
        assert(self.held_buttons@.take(j as int) =~= self.held_buttons@);
        self.held_keys = Vec::new();
        self.held_buttons = Vec::new();
        out
    }
}

/// Two texts one after the other are typed one after the other, and a character is typed by
/// its UTF-16 code units: each is pressed and released, and together they stand for the
/// character.
pub proof fn text_is_typed_in_code_units(a: Seq<char>, b: Seq<char>, c: char)
    ensures
        text_events(a + b) == text_events(a) + text_events(b),
        ({
            let e = text_events(seq![c]);
            if (c as int) < 0x10000 {
                &&& e.len() == 2
                &&& e[0] matches WinEvent::Key { scan, flags } && scan == c as int && flags == 4
                &&& e[1] matches WinEvent::Key { scan, flags } && scan == c as int && flags == 6
            } else {
                &&& e.len() == 4
                &&& e[0] matches WinEvent::Key { scan: high, flags: f0 } && e[1] matches WinEvent::Key {
                    scan: h2,
                    flags: f1,
                } && e[2] matches WinEvent::Key { scan: low, flags: f2 } && e[3] matches WinEvent::Key {
                    scan: l2,
                    flags: f3,
                } && {
                    &&& f0 == 4 && f1 == 6 && f2 == 4 && f3 == 6
                    &&& h2 == high && l2 == low
                    &&& 0xD800 <= high < 0xDC00 <= low < 0xE000
                    &&& 0x10000 + (high - 0xD800) * 0x400 + (low - 0xDC00) == c as int
                }
            }
        }),
    decreases b.len(),
{
    let one = seq![c];
    assert(one.drop_last() =~= Seq::<char>::empty());
    assert(text_events(one.drop_last()) =~= Seq::<WinEvent>::empty());
    if b.len() == 0 {
        assert(a + b =~= a);
        assert(text_events(a) + text_events(b) =~= text_events(a));
    } else {
        text_is_typed_in_code_units(a, b.drop_last(), c);
        assert((a + b).drop_last() =~= a + b.drop_last());
        assert(text_events(a + b) =~= text_events(a) + text_events(b));
    }
}

/// The Shift keys are those on which the layout has the left and the right Shift, and no others.
pub proof fn shift_keys_are_those_of_the_layout(layout: &Layout, kc: u8)
    ensures
        shift_keys_of(layout).contains(kc) <==> (layout.key(0xffe1) matches Some((k, _)) && k == kc)
            || (layout.key(0xffe2) matches Some((k, _)) && k == kc),
{
    let s = shift_keys_of(layout);
    if s.contains(kc) {
        let i = choose|i: int| 0 <= i < s.len() && s[i] == kc;
        assert(i == 0 || i == 1);
    }
    if let Some((k, _)) = layout.key(0xffe1) {
        assert(s[0] == k);
    }
    if let Some((k, _)) = layout.key(0xffe2) {
        assert(s[s.len() - 1] == k);
    }
}

} // verus!
