//! Keys, buttons and text on their way from the window to the host's desktop.
use telekin::forward::{Forwarder, Pointer, WindowEvent};
use telekin::input::{
    keysym, monitor_origin, scancode, Fake, Gesture, WinEvent, WinInput, XTestInput,
    KEYEVENTF_KEYUP, KEYEVENTF_SCANCODE, MOUSEEVENTF_LEFTDOWN,
};
use telekin::keymap::{
    key, modifier_keys, mouse_button, send_as_text, typed_as_text, Key, Modifiers, PointerButton,
};
use telekin::proto::{InputEvent, KeyCode, MouseButton};
use telekin::xkeys::{char_keysym, Layout, ScratchPool};

const XK_SHIFT_L: u32 = 0xffe1;

const NONE: Modifiers = Modifiers { alt: false, ctrl: false, shift: false, command: false };

fn shift() -> Modifiers {
    Modifiers { shift: true, ..NONE }
}

fn ctrl() -> Modifiers {
    Modifiers { ctrl: true, ..NONE }
}

/// A slice of a US layout: 8/*, ;/:, a/A, Shift, and two empty keycodes.
fn us_mapping() -> Vec<u32> {
    let rows: [[u32; 4]; 6] = [
        [0x38, 0x2a, 0, 0],    // keycode 10: 8 *
        [0x3b, 0x3a, 0, 0],    // keycode 11: ; :
        [0, 0, 0, 0],          // keycode 12: free
        [0x61, 0x41, 0, 0],    // keycode 13: a A
        [XK_SHIFT_L, 0, 0, 0], // keycode 14: Shift_L
        [0, 0, 0, 0],          // keycode 15: free
    ];
    rows.iter().flatten().copied().collect()
}

fn us() -> Layout {
    Layout::from_mapping(10, 4, &us_mapping())
}

#[test]
fn plain_and_shifted_characters_resolve_to_the_key_under_them() {
    let l = us();
    assert_eq!(l.lookup(char_keysym('8')), Some((10, false)));
    assert_eq!(l.lookup(char_keysym('*')), Some((10, true)), "* is Shift+8");
    assert_eq!(l.lookup(char_keysym(':')), Some((11, true)), ": is Shift+;");
    assert_eq!(l.lookup(char_keysym('a')), Some((13, false)));
    assert_eq!(l.lookup(char_keysym('A')), Some((13, true)));
    assert_eq!(l.lookup(XK_SHIFT_L), Some((14, false)));
    assert_eq!(l.lookup(char_keysym('ก')), None, "Thai is not in a US layout");
    assert_eq!(l.free_keycodes(), &[12, 15]);
}

#[test]
fn a_plain_key_beats_a_shifted_one_and_other_groups_do_not_count() {
    // Keycode 10 has X only with Shift; keycode 11 has it plain but in the second group;
    // keycode 12 has it plain in the first group.
    let per = 4;
    let flat = [[0x61, 0x58, 0, 0], [0x62, 0x42, 0x58, 0], [0x58, 0x78, 0, 0]]
        .iter()
        .flatten()
        .copied()
        .collect::<Vec<u32>>();
    let l = Layout::from_mapping(10, per, &flat);
    assert_eq!(l.lookup(0x58), Some((12, false)));
    // Without keycode 12, Shift on keycode 10 is the only way we can actually press: a
    // second-group symbol needs a group switch.
    let l = Layout::from_mapping(10, per, &flat[..8]);
    assert_eq!(l.lookup(0x58), Some((10, true)));
}

#[test]
fn scratch_slots_rotate_and_reuse_a_mapping_already_in_place() {
    let mut pool = ScratchPool::new(&[12, 15, 99], 2);
    let thai_a = char_keysym('ก');
    let thai_b = char_keysym('ข');
    let thai_c = char_keysym('ค');
    assert_eq!(pool.slot_for(thai_a), Some((12, true)), "first use maps");
    assert_eq!(pool.slot_for(thai_b), Some((15, true)));
    assert_eq!(pool.slot_for(thai_a), Some((12, false)), "still mapped, no remap");
    assert_eq!(pool.slot_for(thai_c), Some((12, true)), "round robin takes the oldest slot");
    assert_eq!(pool.mapped(), vec![12, 15]);
}

#[test]
fn no_free_keycode_means_no_scratch() {
    let mut pool = ScratchPool::new(&[], 8);
    assert!(pool.is_empty());
    assert_eq!(pool.slot_for(char_keysym('ก')), None);
}

#[test]
fn keysyms_follow_the_x_convention() {
    assert_eq!(char_keysym('-'), 0x2d);
    assert_eq!(char_keysym('é'), 0xe9);
    assert_eq!(char_keysym('ก'), 0x0100_0e01);
}

#[test]
fn punctuation_and_shifted_digits_travel_as_text() {
    // The two keys that started this: `:` and `*`.
    assert!(typed_as_text(Key::Colon, shift()));
    assert!(typed_as_text(Key::Num8, shift()));
    assert!(send_as_text(":"));
    assert!(send_as_text("*"));
    // Plain punctuation too, so `;` is not typed twice.
    assert!(typed_as_text(Key::Semicolon, NONE));
    assert!(send_as_text(";"));
}

#[test]
fn letters_digits_and_shortcuts_stay_keys() {
    assert!(!typed_as_text(Key::A, NONE));
    assert!(!typed_as_text(Key::A, shift()));
    assert!(!typed_as_text(Key::Num8, NONE));
    assert!(!typed_as_text(Key::Semicolon, ctrl()));
    assert!(!typed_as_text(Key::Minus, ctrl()), "Ctrl+- is a shortcut, not text");
    assert!(!send_as_text("a"));
    assert!(!send_as_text("8"));
    assert!(!send_as_text(" "));
}

#[test]
fn non_ascii_text_is_always_sent() {
    assert!(send_as_text("ก"));
    assert!(send_as_text("é"));
}

#[test]
fn shifted_symbol_keys_map_to_the_key_under_them() {
    assert_eq!(key(Key::Colon), Some(KeyCode::Semicolon));
    assert_eq!(key(Key::Plus), Some(KeyCode::Equal));
    assert_eq!(key(Key::Pipe), Some(KeyCode::Backslash));
    assert_eq!(key(Key::Questionmark), Some(KeyCode::Slash));
    assert_eq!(key(Key::OpenCurlyBracket), Some(KeyCode::BracketLeft));
}

#[test]
fn modifiers_are_keys_of_their_own() {
    let keys = modifier_keys(Modifiers { alt: false, ctrl: true, shift: false, command: true });
    assert_eq!(keys[1], (KeyCode::ControlLeft, true));
    // Where the platform's command key is Ctrl itself, Meta is not pressed with it.
    assert_eq!(keys[3], (KeyCode::MetaLeft, false));
    assert_eq!(mouse_button(PointerButton::Secondary), Some(MouseButton::Right));
}

#[test]
fn key_tables_hold_known_values() {
    assert_eq!(keysym(KeyCode::A), 0x61);
    assert_eq!(keysym(KeyCode::Enter), 0xff0d);
    assert_eq!(scancode(KeyCode::A), (0x1e, false));
    assert_eq!(scancode(KeyCode::ArrowUp), (0x48, true));
    assert_eq!(monitor_origin(&vec![(0, 0), (1920, 0)], 1), Some((1920, 0)));
    assert_eq!(monitor_origin(&vec![(0, 0)], 3), None);
}

#[test]
fn a_shifted_character_puts_shift_back() {
    let mut x = XTestInput::new(10, 4, &us_mapping());
    assert!(!x.has_no_spare_key());
    let fakes = x.inject(&Gesture::Text { text: "*".into() });
    let keys: Vec<(u8, bool)> = fakes
        .iter()
        .filter_map(|f| match f {
            Fake::Key { code, down } => Some((*code, *down)),
            _ => None,
        })
        .collect();
    assert_eq!(keys, [(14, true), (10, true), (10, false), (14, false)]);
    // A character outside the layout borrows a free key.
    let fakes = x.inject(&Gesture::Text { text: "ก".into() });
    assert!(fakes.iter().any(|f| matches!(f, Fake::Key { code: 12, down: true })));
}

#[test]
fn everything_held_is_let_go() {
    let mut x = XTestInput::new(10, 4, &us_mapping());
    x.inject(&Gesture::Key { key: KeyCode::A, down: true });
    x.inject(&Gesture::Button { button: MouseButton::Left, down: true });
    let fakes = x.release_all();
    assert!(fakes.iter().any(|f| matches!(f, Fake::Key { code: 13, down: false })));
    assert!(fakes.iter().any(|f| matches!(f, Fake::Button { down: false, .. })));
    assert!(x.release_all().is_empty());

    let mut w = WinInput::new();
    assert_eq!(WinInput::button_flags(MouseButton::Left, true), (MOUSEEVENTF_LEFTDOWN, 0));
    w.inject(&Gesture::Key { key: KeyCode::A, down: true });
    let up = w.release_all();
    assert_eq!(up, [WinEvent::Key { scan: 0x1e, flags: KEYEVENTF_SCANCODE | KEYEVENTF_KEYUP }]);
    assert!(w.release_all().is_empty());
}

fn at(x: u32, y: u32, inside: bool) -> Pointer {
    Pointer { x, y, inside, differs: true, far: false }
}

#[test]
fn a_press_counts_inside_and_a_release_anywhere() {
    let mut f = Forwarder::new();
    let button = |pressed: bool, inside: bool| WindowEvent::Button {
        button: PointerButton::Primary,
        pressed,
        x: 5,
        y: 6,
        inside,
    };
    assert!(f.event(button(true, false)).inputs.is_empty());
    let sent = f.event(button(true, true)).inputs;
    assert!(matches!(sent[0], InputEvent::MouseMove { x: 5, y: 6 }));
    assert!(matches!(sent[1], InputEvent::MouseButton { button: MouseButton::Left, down: true }));
    assert_eq!(f.held_buttons, [MouseButton::Left]);
    assert_eq!(f.last_sent_pos, Some((5, 6)));
    // While a button is held, a trembling hand moves nothing.
    assert!(f.frame(NONE, true, Some(at(7, 7, false))).is_empty());
    let moved = f.frame(NONE, true, Some(Pointer { far: true, ..at(7, 7, false) }));
    assert!(matches!(moved[0], InputEvent::MouseMove { x: 7, y: 7 }));
    let sent = f.event(button(false, false)).inputs;
    assert_eq!(sent.len(), 1);
    assert!(f.held_buttons.is_empty());
}

#[test]
fn losing_the_window_releases_the_buttons() {
    let mut f = Forwarder::new();
    f.event(WindowEvent::Button {
        button: PointerButton::Primary,
        pressed: true,
        x: 1,
        y: 1,
        inside: true,
    });
    let sent = f.frame(shift(), false, None);
    assert!(matches!(sent[0], InputEvent::Key { key: KeyCode::ShiftLeft, down: true }));
    assert!(matches!(sent[1], InputEvent::MouseButton { button: MouseButton::Left, down: false }));
    assert!(f.held_buttons.is_empty());
    let sent = f.frame(NONE, true, None);
    assert!(matches!(sent[0], InputEvent::Key { key: KeyCode::ShiftLeft, down: false }));
}

#[test]
fn keys_text_and_the_clipboard() {
    let mut f = Forwarder::new();
    let press = |key: Key, pressed: bool, modifiers: Modifiers| WindowEvent::Key {
        key,
        pressed,
        repeat: false,
        modifiers,
    };
    assert!(f.event(press(Key::F11, true, NONE)).inputs.is_empty(), "F11 is the window's own");
    assert!(f.event(press(Key::Colon, true, shift())).inputs.is_empty(), "it comes as text");
    assert_eq!(f.event(press(Key::Colon, false, shift())).inputs.len(), 1);
    assert_eq!(f.event(press(Key::A, true, NONE)).inputs.len(), 1);
    assert!(f.event(press(Key::Other, true, NONE)).inputs.is_empty());
    let repeat =
        WindowEvent::Key { key: Key::A, pressed: true, repeat: true, modifiers: NONE };
    assert!(f.event(repeat).inputs.is_empty());
    assert_eq!(f.event(WindowEvent::Text { text: ":".into() }).inputs.len(), 1);
    assert!(f.event(WindowEvent::Text { text: "a".into() }).inputs.is_empty());
    let copy = f.event(WindowEvent::Copy).inputs;
    assert!(matches!(copy[0], InputEvent::Key { key: KeyCode::C, down: true }));
    assert!(matches!(f.event(WindowEvent::Cut).inputs[1], InputEvent::Key { key: KeyCode::X, down: false }));

    let paste = f.event(WindowEvent::Paste { text: "hi".into() });
    assert_eq!(paste.clipboard.as_deref(), Some("hi"));
    assert!(matches!(paste.inputs[0], InputEvent::Key { key: KeyCode::V, down: true }));
    assert!(f.event(WindowEvent::Paste { text: "hi".into() }).clipboard.is_none());
    // What the host copied does not go back to it.
    f.copied_there("from the robot");
    assert!(f.event(WindowEvent::Paste { text: "from the robot".into() }).clipboard.is_none());
    let long = "x".repeat(1_048_577);
    assert!(f.event(WindowEvent::Paste { text: long }).clipboard.is_none());
}
