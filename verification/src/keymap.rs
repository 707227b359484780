//! From what the window reports to portable input.
use vstd::prelude::*;

use crate::proto::{KeyCode, MouseButton};
use crate::text::chars_of;

verus! {

/// The keys that a window can report, those without a portable code as `Other`.
#[derive(Debug, Clone, Copy, PartialEq, Eq, Structural)]
pub enum Key {
    A, B, C, D, E, F, G, H, I, J, K, L, M,
    N, O, P, Q, R, S, T, U, V, W, X, Y, Z,
    Num0, Num1, Num2, Num3, Num4, Num5, Num6, Num7, Num8, Num9,
    F1, F2, F3, F4, F5, F6, F7, F8, F9, F10, F11, F12,
    Escape, Tab, Space, Enter, Backspace, Delete, Insert,
    Home, End, PageUp, PageDown,
    ArrowUp, ArrowDown, ArrowLeft, ArrowRight,
    Minus, Equals, OpenBracket, CloseBracket, Backslash,
    Semicolon, Quote, Backtick, Comma, Period, Slash,
    Colon, Plus, Pipe, Questionmark, Exclamationmark,
    OpenCurlyBracket, CloseCurlyBracket,
    Other,
}

/// The modifiers that are held.
#[derive(Debug, Clone, Copy, PartialEq, Eq, Structural)]
pub struct Modifiers {
    pub alt: bool,
    pub ctrl: bool,
    pub shift: bool,
    pub command: bool,
}

/// The buttons of a pointer.
#[derive(Debug, Clone, Copy, PartialEq, Eq, Structural)]
pub enum PointerButton {
    Primary,
    Secondary,
    Middle,
    Extra1,
    Extra2,
}

/// The portable name of a pointer button.
pub open spec fn button_name(button: PointerButton) -> MouseButton {
    match button {
        PointerButton::Primary => MouseButton::Left,
        PointerButton::Secondary => MouseButton::Right,
        PointerButton::Middle => MouseButton::Middle,
        PointerButton::Extra1 => MouseButton::Back,
        PointerButton::Extra2 => MouseButton::Forward,
    }
}

/// The portable name of a pointer button.
pub fn mouse_button(button: PointerButton) -> (r: Option<MouseButton>)
    ensures
        r == Some(button_name(button)),
        r is Some,
        button == PointerButton::Primary <==> r == Some(MouseButton::Left),
        button == PointerButton::Secondary <==> r == Some(MouseButton::Right),
        button == PointerButton::Middle <==> r == Some(MouseButton::Middle),
        button == PointerButton::Extra1 <==> r == Some(MouseButton::Back),
        button == PointerButton::Extra2 <==> r == Some(MouseButton::Forward),
{
    Some(
        match button {
            PointerButton::Primary => MouseButton::Left,
            PointerButton::Secondary => MouseButton::Right,
            PointerButton::Middle => MouseButton::Middle,
            PointerButton::Extra1 => MouseButton::Back,
            PointerButton::Extra2 => MouseButton::Forward,
        },
    )
}

/// The physical key that a reported key lies on. The window names a shifted symbol
/// rather than the key under it.
pub open spec fn key_under(key: Key) -> Option<KeyCode> {
    match key {
        Key::A => Some(KeyCode::A), Key::B => Some(KeyCode::B), Key::C => Some(KeyCode::C),
        Key::D => Some(KeyCode::D), Key::E => Some(KeyCode::E), Key::F => Some(KeyCode::F),
        Key::G => Some(KeyCode::G), Key::H => Some(KeyCode::H), Key::I => Some(KeyCode::I),
        Key::J => Some(KeyCode::J), Key::K => Some(KeyCode::K), Key::L => Some(KeyCode::L),
        Key::M => Some(KeyCode::M), Key::N => Some(KeyCode::N), Key::O => Some(KeyCode::O),
        Key::P => Some(KeyCode::P), Key::Q => Some(KeyCode::Q), Key::R => Some(KeyCode::R),
        Key::S => Some(KeyCode::S), Key::T => Some(KeyCode::T), Key::U => Some(KeyCode::U),
        Key::V => Some(KeyCode::V), Key::W => Some(KeyCode::W), Key::X => Some(KeyCode::X),
        Key::Y => Some(KeyCode::Y), Key::Z => Some(KeyCode::Z),
        Key::Num0 => Some(KeyCode::Digit0), Key::Num1 => Some(KeyCode::Digit1),
        Key::Num2 => Some(KeyCode::Digit2), Key::Num3 => Some(KeyCode::Digit3),
        Key::Num4 => Some(KeyCode::Digit4), Key::Num5 => Some(KeyCode::Digit5),
        Key::Num6 => Some(KeyCode::Digit6), Key::Num7 => Some(KeyCode::Digit7),
        Key::Num8 => Some(KeyCode::Digit8), Key::Num9 => Some(KeyCode::Digit9),
        Key::F1 => Some(KeyCode::F1), Key::F2 => Some(KeyCode::F2),
        Key::F3 => Some(KeyCode::F3), Key::F4 => Some(KeyCode::F4),
        Key::F5 => Some(KeyCode::F5), Key::F6 => Some(KeyCode::F6),
        Key::F7 => Some(KeyCode::F7), Key::F8 => Some(KeyCode::F8),
        Key::F9 => Some(KeyCode::F9), Key::F10 => Some(KeyCode::F10),
        Key::F11 => Some(KeyCode::F11), Key::F12 => Some(KeyCode::F12),
        Key::Escape => Some(KeyCode::Escape), Key::Tab => Some(KeyCode::Tab),
        Key::Space => Some(KeyCode::Space), Key::Enter => Some(KeyCode::Enter),
        Key::Backspace => Some(KeyCode::Backspace), Key::Delete => Some(KeyCode::Delete),
        Key::Insert => Some(KeyCode::Insert), Key::Home => Some(KeyCode::Home),
        Key::End => Some(KeyCode::End), Key::PageUp => Some(KeyCode::PageUp),
        Key::PageDown => Some(KeyCode::PageDown), Key::ArrowUp => Some(KeyCode::ArrowUp),
        Key::ArrowDown => Some(KeyCode::ArrowDown), Key::ArrowLeft => Some(KeyCode::ArrowLeft),
        Key::ArrowRight => Some(KeyCode::ArrowRight), Key::Minus => Some(KeyCode::Minus),
        Key::Equals => Some(KeyCode::Equal), Key::OpenBracket => Some(KeyCode::BracketLeft),
        Key::CloseBracket => Some(KeyCode::BracketRight),
        Key::Backslash => Some(KeyCode::Backslash), Key::Semicolon => Some(KeyCode::Semicolon),
        Key::Quote => Some(KeyCode::Quote), Key::Backtick => Some(KeyCode::Backquote),
        Key::Comma => Some(KeyCode::Comma), Key::Period => Some(KeyCode::Period),
        Key::Slash => Some(KeyCode::Slash), Key::Colon => Some(KeyCode::Semicolon),
        Key::Plus => Some(KeyCode::Equal), Key::Pipe => Some(KeyCode::Backslash),
        Key::Questionmark => Some(KeyCode::Slash),
        Key::Exclamationmark => Some(KeyCode::Digit1),
        Key::OpenCurlyBracket => Some(KeyCode::BracketLeft),
        Key::CloseCurlyBracket => Some(KeyCode::BracketRight),
        Key::Other => None,
    }
}

/// Map a reported key. Keys outside the portable set give `None`; their text is sent
/// instead.
pub fn key(reported: Key) -> (r: Option<KeyCode>)
    ensures
        r == key_under(reported),
{
    match reported {
        Key::A => Some(KeyCode::A), Key::B => Some(KeyCode::B), Key::C => Some(KeyCode::C),
        Key::D => Some(KeyCode::D), Key::E => Some(KeyCode::E), Key::F => Some(KeyCode::F),
        Key::G => Some(KeyCode::G), Key::H => Some(KeyCode::H), Key::I => Some(KeyCode::I),
        Key::J => Some(KeyCode::J), Key::K => Some(KeyCode::K), Key::L => Some(KeyCode::L),
        Key::M => Some(KeyCode::M), Key::N => Some(KeyCode::N), Key::O => Some(KeyCode::O),
        Key::P => Some(KeyCode::P), Key::Q => Some(KeyCode::Q), Key::R => Some(KeyCode::R),
        Key::S => Some(KeyCode::S), Key::T => Some(KeyCode::T), Key::U => Some(KeyCode::U),
        Key::V => Some(KeyCode::V), Key::W => Some(KeyCode::W), Key::X => Some(KeyCode::X),
        Key::Y => Some(KeyCode::Y), Key::Z => Some(KeyCode::Z),
        Key::Num0 => Some(KeyCode::Digit0), Key::Num1 => Some(KeyCode::Digit1),
        Key::Num2 => Some(KeyCode::Digit2), Key::Num3 => Some(KeyCode::Digit3),
        Key::Num4 => Some(KeyCode::Digit4), Key::Num5 => Some(KeyCode::Digit5),
        Key::Num6 => Some(KeyCode::Digit6), Key::Num7 => Some(KeyCode::Digit7),
        Key::Num8 => Some(KeyCode::Digit8), Key::Num9 => Some(KeyCode::Digit9),
        Key::F1 => Some(KeyCode::F1), Key::F2 => Some(KeyCode::F2),
        Key::F3 => Some(KeyCode::F3), Key::F4 => Some(KeyCode::F4),
        Key::F5 => Some(KeyCode::F5), Key::F6 => Some(KeyCode::F6),
        Key::F7 => Some(KeyCode::F7), Key::F8 => Some(KeyCode::F8),
        Key::F9 => Some(KeyCode::F9), Key::F10 => Some(KeyCode::F10),
        Key::F11 => Some(KeyCode::F11), Key::F12 => Some(KeyCode::F12),
        Key::Escape => Some(KeyCode::Escape), Key::Tab => Some(KeyCode::Tab),
        Key::Space => Some(KeyCode::Space), Key::Enter => Some(KeyCode::Enter),
        Key::Backspace => Some(KeyCode::Backspace), Key::Delete => Some(KeyCode::Delete),
        Key::Insert => Some(KeyCode::Insert), Key::Home => Some(KeyCode::Home),
        Key::End => Some(KeyCode::End), Key::PageUp => Some(KeyCode::PageUp),
        Key::PageDown => Some(KeyCode::PageDown), Key::ArrowUp => Some(KeyCode::ArrowUp),
        Key::ArrowDown => Some(KeyCode::ArrowDown), Key::ArrowLeft => Some(KeyCode::ArrowLeft),
        Key::ArrowRight => Some(KeyCode::ArrowRight), Key::Minus => Some(KeyCode::Minus),
        Key::Equals => Some(KeyCode::Equal), Key::OpenBracket => Some(KeyCode::BracketLeft),
        Key::CloseBracket => Some(KeyCode::BracketRight),
        Key::Backslash => Some(KeyCode::Backslash), Key::Semicolon => Some(KeyCode::Semicolon),
        Key::Quote => Some(KeyCode::Quote), Key::Backtick => Some(KeyCode::Backquote),
        Key::Comma => Some(KeyCode::Comma), Key::Period => Some(KeyCode::Period),
        Key::Slash => Some(KeyCode::Slash), Key::Colon => Some(KeyCode::Semicolon),
        Key::Plus => Some(KeyCode::Equal), Key::Pipe => Some(KeyCode::Backslash),
        Key::Questionmark => Some(KeyCode::Slash),
        Key::Exclamationmark => Some(KeyCode::Digit1),
        Key::OpenCurlyBracket => Some(KeyCode::BracketLeft),
        Key::CloseCurlyBracket => Some(KeyCode::BracketRight),
        Key::Other => None,
    }
}

/// Whether a key carries a punctuation character, plain or shifted.
pub open spec fn is_punctuation_key(key: Key) -> bool {
    match key_under(key) {
        Some(k) => match crate::input::typed_by(k) {
            Some(c) => is_ascii_punctuation(c) || key == Key::Exclamationmark,
            None => false,
        },
        None => false,
    }
}

/// Whether a key is a digit of the top row.
pub open spec fn is_digit_key(key: Key) -> bool {
    key == Key::Num0 || key == Key::Num1 || key == Key::Num2 || key == Key::Num3 || key == Key::Num4
        || key == Key::Num5 || key == Key::Num6 || key == Key::Num7 || key == Key::Num8 || key
        == Key::Num9
}

/// Whether a key press is left to the text event that follows it: punctuation, and
/// digits with Shift, unless a shortcut is being pressed.
pub open spec fn left_to_text(key: Key, m: Modifiers) -> bool {
    !m.ctrl && !m.alt && !m.command && (is_punctuation_key(key) || (is_digit_key(key) && m.shift))
}

/// Whether a key press should be left to the text event that follows it.
///
/// Letters, digits and shortcuts travel as keys, so that the robot sees real key
/// presses. What punctuation produces depends on the robot's keyboard layout, so it
/// travels as the exact character. With Ctrl, Alt or Cmd held there is no text event,
/// and the key itself is what a shortcut needs.
pub fn typed_as_text(key: Key, m: Modifiers) -> (r: bool)
    ensures
        r == left_to_text(key, m),
{
    if m.ctrl || m.alt || m.command {
        return false;
    }
    match key {
        Key::Minus | Key::Equals | Key::Plus | Key::OpenBracket | Key::CloseBracket
        | Key::OpenCurlyBracket | Key::CloseCurlyBracket | Key::Backslash | Key::Pipe
        | Key::Semicolon | Key::Colon | Key::Quote | Key::Backtick | Key::Comma | Key::Period
        | Key::Slash | Key::Questionmark | Key::Exclamationmark => true,
        Key::Num0 | Key::Num1 | Key::Num2 | Key::Num3 | Key::Num4 | Key::Num5 | Key::Num6
        | Key::Num7 | Key::Num8 | Key::Num9 => m.shift,
        _ => false,
    }
}

/// Whether `c` is an ASCII punctuation character.
pub open spec fn is_ascii_punctuation(c: char) -> bool {
    let n = c as int;
    0x21 <= n <= 0x2F || 0x3A <= n <= 0x40 || 0x5B <= n <= 0x60 || 0x7B <= n <= 0x7E
}

/// Whether `c` is something that the key path does not carry.
pub open spec fn needs_text(c: char) -> bool {
    c as int >= 0x80 || is_ascii_punctuation(c)
}

/// Whether a text event carries something the key path did not: anything outside
/// ASCII, or ASCII punctuation. Letters, digits and spaces already arrived as keys and
/// would otherwise be typed twice.
pub fn send_as_text(text: &str) -> (r: bool)
    ensures
        r == exists|i: int| 0 <= i < text@.len() && needs_text(#[trigger] text@[i]),
{
    let v = chars_of(text);
    let mut i: usize = 0;
    while i < v.len()
        invariant
            i <= v.len(),
            v@ == text@,
            forall|j: int| 0 <= j < i ==> !needs_text(#[trigger] text@[j]),
        decreases v.len() - i,
    {
        let c: char = v[i];
        let n: u32 = crate::text::code_point(c);
        if n >= 0x80 || (0x21 <= n && n <= 0x2F) || (0x3A <= n && n <= 0x40) || (0x5B <= n && n
            <= 0x60) || (0x7B <= n && n <= 0x7E) {
            assert(needs_text(text@[i as int]));
            return true;
        }
        i = i + 1;
    }
    false
}

/// The modifiers as keys of their own. The window reports them as flags on each event,
/// so that the host would otherwise never see them go down.
pub fn modifier_keys(m: Modifiers) -> (r: [(KeyCode, bool); 4])
    ensures
        r@ == seq![
            (KeyCode::ShiftLeft, m.shift),
            (KeyCode::ControlLeft, m.ctrl),
            (KeyCode::AltLeft, m.alt),
            (KeyCode::MetaLeft, m.command && !m.ctrl),
        ],
{
    let r = [
        (KeyCode::ShiftLeft, m.shift),
        (KeyCode::ControlLeft, m.ctrl),
        (KeyCode::AltLeft, m.alt),
        (KeyCode::MetaLeft, m.command && !m.ctrl),
    ];
    assert(r@ =~= seq![
        (KeyCode::ShiftLeft, m.shift),
        (KeyCode::ControlLeft, m.ctrl),
        (KeyCode::AltLeft, m.alt),
        (KeyCode::MetaLeft, m.command && !m.ctrl),
    ]);
    r
}

/// Nothing is typed twice: what one plain key press types, on its own key and without
/// Shift, travels as a key exactly if its text does not travel as text.
pub proof fn a_plain_key_is_typed_once(key: Key, k: KeyCode, c: char)
    requires
        key_under(key) == Some(k),
        crate::input::typed_by(k) == Some(c),
        key != Key::Exclamationmark,
    ensures
        left_to_text(
            key,
            (Modifiers { alt: false, ctrl: false, shift: false, command: false }),
        ) <==> needs_text(c),
{
}

/// No shortcut is lost to text: with Ctrl, Alt or Cmd held every key travels as a key.
pub proof fn a_shortcut_is_never_text(key: Key, m: Modifiers)
    requires
        m.ctrl || m.alt || m.command,
    ensures
        !left_to_text(key, m),
{
}

/// A letter or digit lies on the key that types it, and the function keys keep their numbers.
pub proof fn letters_and_digits_lie_on_their_keys(i: int)
    ensures
        ({
            let letters = seq![
                Key::A, Key::B, Key::C, Key::D, Key::E, Key::F, Key::G, Key::H, Key::I, Key::J,
                Key::K, Key::L, Key::M, Key::N, Key::O, Key::P, Key::Q, Key::R, Key::S, Key::T,
                Key::U, Key::V, Key::W, Key::X, Key::Y, Key::Z,
            ];
            let digits = seq![
                Key::Num0, Key::Num1, Key::Num2, Key::Num3, Key::Num4, Key::Num5, Key::Num6,
                Key::Num7, Key::Num8, Key::Num9,
            ];
            let functions = seq![
                Key::F1, Key::F2, Key::F3, Key::F4, Key::F5, Key::F6, Key::F7, Key::F8, Key::F9,
                Key::F10, Key::F11, Key::F12,
            ];
            &&& 0 <= i < 26 ==> (key_under(letters[i]) matches Some(k)
                && crate::input::keysym_of(k) == 'a' as int + i)
            &&& 0 <= i < 10 ==> (key_under(digits[i]) matches Some(k)
                && crate::input::keysym_of(k) == '0' as int + i)
            &&& 0 <= i < 12 ==> (key_under(functions[i]) matches Some(k)
                && crate::input::keysym_of(k) == 0xffbe + i)
        }),
{
}

/// A symbol lies on the key that carries it, whether plain or with Shift: the shifted ones on
/// the key of the plain one that is printed below them.
pub proof fn symbols_lie_on_their_keys()
    ensures
        key_under(Key::Minus) == Some(KeyCode::Minus),
        key_under(Key::Equals) == Some(KeyCode::Equal),
        key_under(Key::Plus) == key_under(Key::Equals),
        key_under(Key::OpenBracket) == Some(KeyCode::BracketLeft),
        key_under(Key::OpenCurlyBracket) == key_under(Key::OpenBracket),
        key_under(Key::CloseBracket) == Some(KeyCode::BracketRight),
        key_under(Key::CloseCurlyBracket) == key_under(Key::CloseBracket),
        key_under(Key::Backslash) == Some(KeyCode::Backslash),
        key_under(Key::Pipe) == key_under(Key::Backslash),
        key_under(Key::Semicolon) == Some(KeyCode::Semicolon),
        key_under(Key::Colon) == key_under(Key::Semicolon),
        key_under(Key::Quote) == Some(KeyCode::Quote),
        key_under(Key::Backtick) == Some(KeyCode::Backquote),
        key_under(Key::Comma) == Some(KeyCode::Comma),
        key_under(Key::Period) == Some(KeyCode::Period),
        key_under(Key::Slash) == Some(KeyCode::Slash),
        key_under(Key::Questionmark) == key_under(Key::Slash),
        key_under(Key::Exclamationmark) == key_under(Key::Num1),
        key_under(Key::Space) == Some(KeyCode::Space),
{
}

/// The keys that type nothing keep their names, and a key without a portable code has none.
pub proof fn other_keys_keep_their_names(reported: Key)
    ensures
        key_under(Key::Escape) == Some(KeyCode::Escape),
        key_under(Key::Tab) == Some(KeyCode::Tab),
        key_under(Key::Enter) == Some(KeyCode::Enter),
        key_under(Key::Backspace) == Some(KeyCode::Backspace),
        key_under(Key::Delete) == Some(KeyCode::Delete),
        key_under(Key::Insert) == Some(KeyCode::Insert),
        key_under(Key::Home) == Some(KeyCode::Home),
        key_under(Key::End) == Some(KeyCode::End),
        key_under(Key::PageUp) == Some(KeyCode::PageUp),
        key_under(Key::PageDown) == Some(KeyCode::PageDown),
        key_under(Key::ArrowUp) == Some(KeyCode::ArrowUp),
        key_under(Key::ArrowDown) == Some(KeyCode::ArrowDown),
        key_under(Key::ArrowLeft) == Some(KeyCode::ArrowLeft),
        key_under(Key::ArrowRight) == Some(KeyCode::ArrowRight),
        key_under(reported) is None <==> reported == Key::Other,
{
}

/// Letters and plain digits travel as keys, shifted digits and punctuation as text, as long as
/// no shortcut is being pressed; of the characters, those travel as text that are neither
/// control characters nor ASCII letters, digits or the space.
pub proof fn what_depends_on_the_layout_is_text(reported: Key, m: Modifiers, c: char)
    requires
        !m.ctrl && !m.alt && !m.command,
    ensures
        (key_under(reported) matches Some(k) && 'a' as int <= crate::input::keysym_of(k)
            <= 'z' as int) ==> !left_to_text(reported, m),
        (key_under(reported) matches Some(k) && '0' as int <= crate::input::keysym_of(k)
            <= '9' as int) && reported != Key::Exclamationmark ==> left_to_text(reported, m)
            == m.shift,
        reported == Key::Exclamationmark || reported == Key::Questionmark || reported == Key::Colon
            || reported == Key::Plus || reported == Key::Pipe || reported == Key::OpenCurlyBracket
            || reported == Key::CloseCurlyBracket ==> left_to_text(reported, m),
        key_under(reported) is None ==> !left_to_text(reported, m),
        needs_text(c) <==> c as int > 0x20 && c as int != 0x7f && !('a' as int <= c as int
            <= 'z' as int) && !('A' as int <= c as int <= 'Z' as int) && !('0' as int <= c as int
            <= '9' as int),
{
}

} // verus!
