//! What the operator does in the window, as events for the host.
//!
//! The host only knows what it is sent. So every modifier, button and key that goes down
//! there has to come up again, whatever happens to the window in between.
use vstd::prelude::*;

use crate::input::{turn, turned};
use crate::keymap::{
    button_name, key, key_under, left_to_text, modifier_keys, mouse_button, needs_text,
    send_as_text, typed_as_text, Key, Modifiers, PointerButton,
};
use crate::proto::{InputEvent, KeyCode, MouseButton, MAX_CLIPBOARD_BYTES};
use crate::session::shares_clipboard;
use crate::text::same;
use vstd::utf8::encode_utf8;

verus! {

/// Where the pointer is. The position is normalized to the picture and given as the bit
/// patterns of single-precision numbers.
#[derive(Debug, Clone, Copy, PartialEq, Eq, Structural)]
pub struct Pointer {
    pub x: u32,
    pub y: u32,
    /// Whether it is over the picture.
    pub inside: bool,
    /// Whether it is anywhere but at the position sent last.
    pub differs: bool,
    /// Whether it is further from the position sent last than a hand trembles.
    pub far: bool,
}

/// What a window reports.
#[derive(Debug)]
pub enum WindowEvent {
    Button { button: PointerButton, pressed: bool, x: u32, y: u32, inside: bool },
    Key { key: Key, pressed: bool, repeat: bool, modifiers: Modifiers },
    Text { text: String },
    Copy,
    Cut,
    Paste { text: String },
}

/// What goes to the host.
#[derive(Debug)]
pub struct Sent {
    pub inputs: Vec<InputEvent>,
    /// Text for the host's clipboard, ahead of the events.
    pub clipboard: Option<String>,
}

/// What the host has been told so far.
#[derive(Debug)]
pub struct Forwarder {
    /// Modifier state last sent: Shift, Ctrl, Alt and Meta.
    pub modifiers: [bool; 4],
    /// Whether the last pointer position was over the picture.
    pub pointer_in_video: bool,
    /// Last text exchanged with the host's clipboard, in either direction. Without it,
    /// text that the host sent would go straight back with the first paste.
    pub last_clipboard: String,
    /// The mouse buttons that the host believes are down.
    pub held_buttons: Vec<MouseButton>,
    /// Pointer position last sent.
    pub last_sent_pos: Option<(u32, u32)>,
}

/// The key events for the first `n` modifiers, from how they were and how they are.
pub open spec fn transitions(was: Seq<bool>, keys: Seq<(KeyCode, bool)>, n: int) -> Seq<InputEvent>
    decreases n,
{
    if n <= 0 {
        Seq::empty()
    } else {
        let before = transitions(was, keys, n - 1);
        let (key, down) = keys[n - 1];
        if was[n - 1] != down {
            before.push(InputEvent::Key { key, down })
        } else {
            before
        }
    }
}

/// The modifiers as keys of their own.
pub open spec fn modifier_flags(m: Modifiers) -> Seq<(KeyCode, bool)> {
    seq![
        (KeyCode::ShiftLeft, m.shift),
        (KeyCode::ControlLeft, m.ctrl),
        (KeyCode::AltLeft, m.alt),
        (KeyCode::MetaLeft, m.command && !m.ctrl),
    ]
}

/// A release of each of `buttons`.
pub open spec fn releases(buttons: Seq<MouseButton>) -> Seq<InputEvent> {
    buttons.map_values(|button: MouseButton| InputEvent::MouseButton { button, down: false })
}

/// The buttons that are down after some events, if those of `held` were down before.
pub open spec fn held_after(held: Seq<MouseButton>, events: Seq<InputEvent>) -> Seq<MouseButton>
    decreases events.len(),
{
    if events.len() == 0 {
        held
    } else {
        let before = held_after(held, events.drop_last());
        match events.last() {
            InputEvent::MouseButton { button, down } => turned(before, button, down),
            _ => before,
        }
    }
}

/// Whether a pointer position is worth sending: always the first, and after that any other
/// one, as long as the pointer is over the picture. While a button is held the pointer is
/// followed past the edge, and small motion is left out: the picture is mapped onto a
/// larger screen, where the trembling of a hand would turn a click into a drag.
pub open spec fn worth_sending(sent: Option<(u32, u32)>, dragging: bool, p: Pointer) -> bool {
    &&& p.inside || dragging
    &&& match sent {
        Some(_) => if dragging {
            p.far
        } else {
            p.differs
        },
        None => true,
    }
}

/// What the host gets at the start of a frame.
pub open spec fn opening_events(
    f: Forwarder,
    m: Modifiers,
    focused: bool,
    pointer: Option<Pointer>,
) -> Seq<InputEvent> {
    let mods = transitions(f.modifiers@, modifier_flags(m), 4);
    let let_go = if focused {
        Seq::empty()
    } else {
        releases(f.held_buttons@)
    };
    let dragging = focused && f.held_buttons@.len() > 0;
    let moves = match pointer {
        Some(p) => if worth_sending(f.last_sent_pos, dragging, p) {
            seq![InputEvent::MouseMove { x: p.x, y: p.y }]
        } else {
            Seq::empty()
        },
        None => Seq::empty(),
    };
    mods + let_go + moves
}

/// A key pressed and released.
pub open spec fn tap(key: KeyCode) -> Seq<InputEvent> {
    seq![InputEvent::Key { key, down: true }, InputEvent::Key { key, down: false }]
}

/// What the host gets for an event of the window.
pub open spec fn events_for(e: WindowEvent) -> Seq<InputEvent> {
    match e {
        WindowEvent::Button { button, pressed, x, y, inside } => {
            let up_or_down = InputEvent::MouseButton {
                button: button_name(button),
                down: pressed,
            };
            if !pressed {
                seq![up_or_down]
            } else if inside {
                seq![InputEvent::MouseMove { x, y }, up_or_down]
            } else {
                Seq::empty()
            }
        },
        WindowEvent::Key { key, pressed, repeat, modifiers } => if key == Key::F11 || repeat || (
        pressed && left_to_text(key, modifiers)) {
            Seq::empty()
        } else {
            match key_under(key) {
                Some(k) => seq![InputEvent::Key { key: k, down: pressed }],
                None => Seq::empty(),
            }
        },
        WindowEvent::Text { text } => if exists|i: int|
            0 <= i < text@.len() && needs_text(#[trigger] text@[i]) {
            seq![InputEvent::Text { text }]
        } else {
            Seq::empty()
        },
        WindowEvent::Copy => tap(KeyCode::C),
        WindowEvent::Cut => tap(KeyCode::X),
        WindowEvent::Paste { .. } => tap(KeyCode::V),
    }
}

/// Whether a pasted text goes to the host's clipboard first: not if it is there already,
/// and not if it is too long.
pub open spec fn pushes(last: Seq<char>, text: Seq<char>) -> bool {
    text != last && encode_utf8(text).len() <= MAX_CLIPBOARD_BYTES
}

/// One event after another leaves the buttons as the events together do.
pub proof fn events_add_up(held: Seq<MouseButton>, a: Seq<InputEvent>, b: Seq<InputEvent>)
    ensures
        held_after(held, a + b) == held_after(held_after(held, a), b),
    decreases b.len(),
{
    if b.len() == 0 {
        assert(a + b =~= a);
    } else {
        events_add_up(held, a, b.drop_last());
        assert((a + b).drop_last() =~= a + b.drop_last());
    }
}

proof fn lemma_transitions_hold(
    held: Seq<MouseButton>,
    was: Seq<bool>,
    keys: Seq<(KeyCode, bool)>,
    n: int,
)
    ensures
        held_after(held, transitions(was, keys, n)) == held,
    decreases n,
{
    if n > 0 {
        lemma_transitions_hold(held, was, keys, n - 1);
        let before = transitions(was, keys, n - 1);
        let (key, down) = keys[n - 1];
        let e = InputEvent::Key { key, down };
        assert(before.push(e).drop_last() =~= before);
    }
}

/// Taking the first button away from buttons that differ leaves the others.
proof fn lemma_without_first(held: Seq<MouseButton>)
    requires
        held.len() > 0,
        held.no_duplicates(),
    ensures
        crate::input::without(held, held[0]) == held.skip(1),
    decreases held.len(),
{
    let k = held[0];
    let rest = held.drop_last();
    reveal_with_fuel(crate::input::without, 2);
    if held.len() == 1 {
        assert(rest =~= Seq::<MouseButton>::empty());
        assert(held.skip(1) =~= Seq::<MouseButton>::empty());
    } else {
        assert(rest[0] == k);
        lemma_without_first(rest);
        assert(held.last() != k);
        assert(held.skip(1) =~= rest.skip(1).push(held.last()));
    }
}

proof fn lemma_releases(held: Seq<MouseButton>)
    requires
        held.no_duplicates(),
    ensures
        held_after(held, releases(held)) == Seq::<MouseButton>::empty(),
    decreases held.len(),
{
    let all = releases(held);
    if held.len() > 0 {
        let first = InputEvent::MouseButton { button: held[0], down: false };
        let rest = held.skip(1);
        assert(all =~= seq![first] + releases(rest));
        events_add_up(held, seq![first], releases(rest));
        assert(seq![first].drop_last() =~= Seq::<InputEvent>::empty());
        assert(held_after(held, seq![first].drop_last()) == held);
        lemma_without_first(held);
        lemma_releases(rest);
    }
}

/// Whatever the operator holds, losing the window lets go of all of it: its releases bring
/// up every button that is down.
pub proof fn losing_the_window_lets_go(held: Seq<MouseButton>)
    requires
        held.no_duplicates(),
    ensures
        held_after(held, releases(held)).len() == 0,
{
    lemma_releases(held);
}

impl Forwarder {
    /// Nothing sent yet.
    pub fn new() -> (r: Self)
        ensures
            r.modifiers@ == seq![false, false, false, false],
            !r.pointer_in_video,
            r.last_clipboard@.len() == 0,
            r.held_buttons@.len() == 0,
            r.last_sent_pos is None,
            r.wf(),
    {
        let r = Forwarder {
            modifiers: [false, false, false, false],
            pointer_in_video: false,
            last_clipboard: String::new(),
            held_buttons: Vec::new(),
            last_sent_pos: None,
        };
        assert(r.modifiers@ =~= seq![false, false, false, false]);
        r
    }

    /// No button is held twice.
    pub open spec fn wf(&self) -> bool {
        self.held_buttons@.no_duplicates()
    }

    /// The start of a frame. Modifiers are flags of the window, so their transitions are
    /// mirrored. A window that lost the focus will not hear of a release, so the buttons
    /// that are down come up. Then the pointer's position, if it is worth sending.
    pub fn frame(&mut self, m: Modifiers, focused: bool, pointer: Option<Pointer>) -> (r: Vec<
        InputEvent,
    >)
        requires
            old(self).wf(),
        ensures
            final(self).wf(),
            r@ == opening_events(*old(self), m, focused, pointer),
            final(self).held_buttons@ == held_after(old(self).held_buttons@, r@),
            final(self).held_buttons@ == if focused {
                old(self).held_buttons@
            } else {
                Seq::empty()
            },
            final(self).modifiers@ == modifier_flags(m).map_values(|f: (KeyCode, bool)| f.1),
            final(self).last_clipboard == old(self).last_clipboard,
            match pointer {
                Some(p) => final(self).pointer_in_video == p.inside && final(self).last_sent_pos
                    == if worth_sending(
                    old(self).last_sent_pos,
                    final(self).held_buttons@.len() > 0,
                    p,
                ) {
                    Some((p.x, p.y))
                } else {
                    old(self).last_sent_pos
                },
                None => {
                    &&& final(self).pointer_in_video == old(self).pointer_in_video
                    &&& final(self).last_sent_pos == old(self).last_sent_pos
                },
            },
    {
        let keys: [(KeyCode, bool); 4] = modifier_keys(m);
        let ghost flags = modifier_flags(m);
        let mut out: Vec<InputEvent> = Vec::new();
        let mut i: usize = 0;
        while i < 4
            invariant
                i <= 4,
                keys@ == flags,
                self == old(self),
                out@ == transitions(self.modifiers@, flags, i as int),
            decreases 4 - i,
        {
            let (key, down) = keys[i];
            if self.modifiers[i] != down {
                out.push(InputEvent::Key { key, down });
            }
            i = i + 1;
        }
        self.modifiers = [keys[0].1, keys[1].1, keys[2].1, keys[3].1];
        assert(self.modifiers@ =~= flags.map_values(|f: (KeyCode, bool)| f.1));
        let ghost mods = out@;
        if !focused {
            let mut k: usize = 0;
            while k < self.held_buttons.len()
                invariant
                    k <= self.held_buttons@.len(),
                    out@ == mods + releases(self.held_buttons@.take(k as int)),
                decreases self.held_buttons.len() - k,
            {
                let button: MouseButton = self.held_buttons[k];
                assert(releases(self.held_buttons@.take(k + 1)) =~= releases(
                    self.held_buttons@.take(k as int),
                ).push(InputEvent::MouseButton { button, down: false }));
                out.push(InputEvent::MouseButton { button, down: false });
                k = k + 1;
            }
            assert(self.held_buttons@.take(k as int) =~= self.held_buttons@);
            self.held_buttons = Vec::new();
        }
        let ghost let_go = if focused {
            Seq::empty()
        } else {
            releases(old(self).held_buttons@)
        };
        assert(out@ =~= mods + let_go);
        if let Some(p) = pointer {
            let dragging: bool = self.held_buttons.len() > 0;
            if p.inside || dragging {
                let moved: bool = match self.last_sent_pos {
                    Some(_) => if dragging {
                        p.far
                    } else {
                        p.differs
                    },
                    None => true,
                };
                if moved {
                    self.last_sent_pos = Some((p.x, p.y));
                    out.push(InputEvent::MouseMove { x: p.x, y: p.y });
                }
            }
            self.pointer_in_video = p.inside;
        }
        proof {
            let held = old(self).held_buttons@;
            let moves = out@.skip((mods + let_go).len() as int);
            assert(out@ =~= mods + let_go + moves);
            assert(out@ =~= opening_events(*old(self), m, focused, pointer));
            events_add_up(held, mods + let_go, moves);
            events_add_up(held, mods, let_go);
            lemma_transitions_hold(held, old(self).modifiers@, flags, 4);
            if !focused {
                lemma_releases(held);
            }
            lemma_short(held_after(held, mods + let_go), moves);
        }
        out
    }

    /// Takes in an event of the window.
    ///
    /// A press counts if it starts over the picture, and lands exactly where it was
    /// clicked. A release counts wherever the pointer ended up: one lost a pixel past the
    /// edge would leave the button down on the robot. F11 is the window's own key. The
    /// letters of Ctrl+C, Ctrl+X and Ctrl+V are swallowed on the way here, so they are
    /// pressed and released in their place, the pasted text going ahead.
    pub fn event(&mut self, e: WindowEvent) -> (r: Sent)
        requires
            old(self).wf(),
        ensures
            final(self).wf(),
            r.inputs@ == events_for(e),
            final(self).held_buttons@ == held_after(old(self).held_buttons@, r.inputs@),
            final(self).modifiers == old(self).modifiers,
            final(self).pointer_in_video == old(self).pointer_in_video,
            final(self).last_sent_pos == match e {
                WindowEvent::Button { pressed: true, x, y, inside: true, .. } => Some((x, y)),
                _ => old(self).last_sent_pos,
            },
            match e {
                WindowEvent::Paste { text } if pushes(old(self).last_clipboard@, text@) => {
                    &&& r.clipboard == Some(text)
                    &&& final(self).last_clipboard == text
                },
                _ => r.clipboard is None && final(self).last_clipboard == old(self).last_clipboard,
            },
    {
        let mut inputs: Vec<InputEvent> = Vec::new();
        let mut clipboard: Option<String> = None;
        let ghost held = self.held_buttons@;
        match e {
            WindowEvent::Button { button, pressed, x, y, inside } => {
                if let Some(b) = mouse_button(button) {
                    if pressed {
                        if inside {
                            self.last_sent_pos = Some((x, y));
                            inputs.push(InputEvent::MouseMove { x, y });
                            turn(&mut self.held_buttons, b, true);
                            inputs.push(InputEvent::MouseButton { button: b, down: true });
                        }
                    } else {
                        turn(&mut self.held_buttons, b, false);
                        inputs.push(InputEvent::MouseButton { button: b, down: false });
                    }
                }
            },
            WindowEvent::Key { key: reported, pressed, repeat, modifiers } => {
                let own: bool = match reported {
                    Key::F11 => true,
                    _ => false,
                };
                if !own && !repeat && !(pressed && typed_as_text(reported, modifiers)) {
                    if let Some(k) = key(reported) {
                        inputs.push(InputEvent::Key { key: k, down: pressed });
                    }
                }
            },
            WindowEvent::Text { text } => {
                if send_as_text(&text) {
                    inputs.push(InputEvent::Text { text });
                }
            },
            WindowEvent::Copy => {
                inputs.push(InputEvent::Key { key: KeyCode::C, down: true });
                inputs.push(InputEvent::Key { key: KeyCode::C, down: false });
            },
            WindowEvent::Cut => {
                inputs.push(InputEvent::Key { key: KeyCode::X, down: true });
                inputs.push(InputEvent::Key { key: KeyCode::X, down: false });
            },
            WindowEvent::Paste { text } => {
                if !same(&text, &self.last_clipboard) && shares_clipboard(&text) {
                    self.last_clipboard = text.clone();
                    clipboard = Some(text);
                }
                inputs.push(InputEvent::Key { key: KeyCode::V, down: true });
                inputs.push(InputEvent::Key { key: KeyCode::V, down: false });
            },
        }
        proof {
            assert(inputs@ =~= events_for(e));
            lemma_short(held, inputs@);
            lemma_turned_once(held, MouseButton::Left);
            lemma_turned_once(held, MouseButton::Right);
            lemma_turned_once(held, MouseButton::Middle);
            lemma_turned_once(held, MouseButton::Back);
            lemma_turned_once(held, MouseButton::Forward);
        }
        Sent { inputs, clipboard }
    }

    /// Takes over text that the host copied: it goes to this machine's clipboard, and is
    /// remembered so that a paste does not send it back.
    pub fn copied_there(&mut self, text: &str)
        ensures
            final(self).last_clipboard@ == text@,
            *final(self) == (Forwarder { last_clipboard: final(self).last_clipboard, ..*old(self) }),
    {
        self.last_clipboard = text.to_owned();
    }
}

/// The events of one frame are two at most, so they unfold.
proof fn lemma_short(held: Seq<MouseButton>, events: Seq<InputEvent>)
    requires
        events.len() <= 2,
    ensures
        events.len() == 0 ==> held_after(held, events) == held,
        events.len() == 1 ==> held_after(held, events) == (match events[0] {
            InputEvent::MouseButton { button, down } => turned(held, button, down),
            _ => held,
        }),
        events.len() == 2 && !(events[0] is MouseButton) ==> held_after(held, events) == (
        match events[1] {
            InputEvent::MouseButton { button, down } => turned(held, button, down),
            _ => held,
        }),
{
    reveal_with_fuel(held_after, 3);
}

proof fn lemma_turned_once(held: Seq<MouseButton>, k: MouseButton)
    requires
        held.no_duplicates(),
    ensures
        turned(held, k, true).no_duplicates(),
        turned(held, k, false).no_duplicates(),
        forall|x: MouseButton|
            #[trigger] turned(held, k, false).contains(x) ==> held.contains(x),
    decreases held.len(),
{
    if held.len() > 0 {
        let rest = held.drop_last();
        lemma_turned_once(rest, k);
        let left = turned(held, k, false);
        assert forall|x: MouseButton| left.contains(x) implies held.contains(x) by {
            let i = choose|i: int| 0 <= i < left.len() && left[i] == x;
            if held.last() != k && i == left.len() - 1 {
                assert(held[held.len() - 1] == x);
            } else {
                assert(turned(rest, k, false)[i] == x);
                assert(turned(rest, k, false).contains(x));
                assert(rest.contains(x));
                let j = choose|j: int| 0 <= j < rest.len() && rest[j] == x;
                assert(held[j] == x);
            }
        }
        if held.last() != k {
            assert(!rest.contains(held.last())) by {
                if rest.contains(held.last()) {
                    let j = choose|j: int| 0 <= j < rest.len() && rest[j] == held.last();
                    assert(held[j] == held[held.len() - 1]);
                }
            }
            let fewer = turned(rest, k, false);
            assert(!fewer.contains(held.last()));
            assert forall|i: int, j: int| 0 <= i < j < left.len() implies left[i] != left[j] by {
                assert(left[i] == fewer[i]);
                if j < fewer.len() {
                    assert(left[j] == fewer[j]);
                } else {
                    assert(fewer.contains(fewer[i]));
                }
            }
        }
    }
}

/// What the host itself put on the clipboard does not go back to it with a paste.
pub proof fn a_host_copy_is_not_sent_back(f: Forwarder, text: Seq<char>)
    requires
        f.last_clipboard@ == text,
    ensures
        !pushes(f.last_clipboard@, text),
{
}

/// F11 leaves the full screen, so it never reaches the host.
pub proof fn the_way_out_is_never_forwarded(pressed: bool, repeat: bool, modifiers: Modifiers)
    ensures
        events_for(
            (WindowEvent::Key { key: Key::F11, pressed, repeat, modifiers }),
        ).len() == 0,
{
}

/// No key stays down: whatever press of a key reaches the host, the release that follows
/// reaches it too, whichever modifiers are held by then.
pub proof fn a_pressed_key_comes_up(key: Key, repeat: bool, then: Modifiers, now: Modifiers)
    requires
        events_for((WindowEvent::Key { key, pressed: true, repeat, modifiers: now })).len() > 0,
    ensures
        events_for((WindowEvent::Key { key, pressed: false, repeat: false, modifiers: then }))
            == seq![InputEvent::Key { key: key_under(key).unwrap(), down: false }],
{
}

/// The host's modifiers follow the window's: a modifier that changed is pressed or released as
/// it is now, one that did not is left alone, and no other key is touched.
pub proof fn modifiers_follow_the_window(was: Seq<bool>, m: Modifiers, key: KeyCode, down: bool)
    requires
        was.len() == 4,
    ensures
        transitions(was, modifier_flags(m), 4).contains(InputEvent::Key { key, down }) <==> {
            ||| key == KeyCode::ShiftLeft && down == m.shift && was[0] != m.shift
            ||| key == KeyCode::ControlLeft && down == m.ctrl && was[1] != m.ctrl
            ||| key == KeyCode::AltLeft && down == m.alt && was[2] != m.alt
            ||| key == KeyCode::MetaLeft && down == (m.command && !m.ctrl) && was[3] != (m.command
                && !m.ctrl)
        },
        forall|i: int|
            0 <= i < transitions(was, modifier_flags(m), 4).len() ==> #[trigger] transitions(
                was,
                modifier_flags(m),
                4,
            )[i] is Key,
{
    let keys = modifier_flags(m);
    let e = InputEvent::Key { key, down };
    reveal_with_fuel(transitions, 5);
    let (t0, t1, t2, t3, t4) = (
        transitions(was, keys, 0),
        transitions(was, keys, 1),
        transitions(was, keys, 2),
        transitions(was, keys, 3),
        transitions(was, keys, 4),
    );
    lemma_pushed(t0, InputEvent::Key { key: keys[0].0, down: keys[0].1 }, e);
    lemma_pushed(t1, InputEvent::Key { key: keys[1].0, down: keys[1].1 }, e);
    lemma_pushed(t2, InputEvent::Key { key: keys[2].0, down: keys[2].1 }, e);
    lemma_pushed(t3, InputEvent::Key { key: keys[3].0, down: keys[3].1 }, e);
    assert(!t0.contains(e));
}

proof fn lemma_pushed(s: Seq<InputEvent>, x: InputEvent, e: InputEvent)
    ensures
        s.push(x).contains(e) <==> s.contains(e) || x == e,
{
    assert(s.push(x)[s.len() as int] == x);
    if s.contains(e) {
        let i = choose|i: int| 0 <= i < s.len() && s[i] == e;
        assert(s.push(x)[i] == e);
    }
    if s.push(x).contains(e) && x != e {
        let i = choose|i: int| 0 <= i < s.push(x).len() && s.push(x)[i] == e;
        assert(s[i] == e);
    }
}

/// A position outside the picture is never sent unless a button is held; the first one inside
/// always is. After that any other position is sent, and while a button is held any that is
/// further away than a hand trembles.
pub proof fn the_pointer_is_followed(sent: (u32, u32), p: Pointer)
    ensures
        !p.inside ==> !worth_sending(None, false, p) && !worth_sending(Some(sent), false, p),
        p.inside ==> worth_sending(None, false, p) && (worth_sending(Some(sent), false, p)
            <==> p.differs),
        worth_sending(None, true, p),
        worth_sending(Some(sent), true, p) <==> p.far,
{
}

/// A frame opens with the modifiers; buttons come up only where the window lost the focus, and
/// then all of them do; and the pointer's position, where it is worth sending, comes last and is
/// where the pointer is.
pub proof fn a_frame_opens_in_order(
    f: Forwarder,
    m: Modifiers,
    focused: bool,
    pointer: Option<Pointer>,
)
    ensures
        ({
            let events = opening_events(f, m, focused, pointer);
            let mods = transitions(f.modifiers@, modifier_flags(m), 4);
            let n = mods.len() as int;
            let let_go = if focused {
                0
            } else {
                f.held_buttons@.len() as int
            };
            &&& events.len() >= n + let_go
            &&& events.take(n) == mods
            &&& forall|i: int|
                0 <= i < let_go ==> #[trigger] events[n + i] == (InputEvent::MouseButton {
                    button: f.held_buttons@[i],
                    down: false,
                })
            &&& match pointer {
                Some(p) => if worth_sending(
                    f.last_sent_pos,
                    focused && f.held_buttons@.len() > 0,
                    p,
                ) {
                    events.len() == n + let_go + 1 && events.last() == (InputEvent::MouseMove {
                        x: p.x,
                        y: p.y,
                    })
                } else {
                    events.len() == n + let_go
                },
                None => events.len() == n + let_go,
            }
        }),
{
    let events = opening_events(f, m, focused, pointer);
    let mods = transitions(f.modifiers@, modifier_flags(m), 4);
    assert(events.take(mods.len() as int) =~= mods);
}

/// A press over the picture goes first to where it was made and then down; one beside it goes
/// nowhere. A release always comes through, and nothing but it.
pub proof fn a_click_lands_where_it_was_made(button: PointerButton, x: u32, y: u32, inside: bool)
    ensures
        ({
            let down = events_for(
                (WindowEvent::Button { button, pressed: true, x, y, inside }),
            );
            let up = events_for((WindowEvent::Button { button, pressed: false, x, y, inside }));
            &&& inside ==> down.len() == 2 && down[0] == (InputEvent::MouseMove { x, y })
                && down[1] == (InputEvent::MouseButton { button: button_name(button), down: true })
            &&& !inside ==> down.len() == 0
            &&& up.len() == 1 && up[0] == (InputEvent::MouseButton {
                button: button_name(button),
                down: false,
            })
        }),
{
}

/// Copy, cut and paste press and release the letter that the window swallowed, a text travels
/// unchanged if one of its characters has to, and a key goes down as the key that it lies on.
pub proof fn shortcuts_and_text_travel(text: String, key: Key, m: Modifiers)
    ensures
        ({
            let c = events_for(WindowEvent::Copy);
            c.len() == 2 && c[0] == (InputEvent::Key { key: KeyCode::C, down: true }) && c[1] == (
            InputEvent::Key { key: KeyCode::C, down: false })
        }),
        ({
            let c = events_for(WindowEvent::Cut);
            c.len() == 2 && c[0] == (InputEvent::Key { key: KeyCode::X, down: true }) && c[1] == (
            InputEvent::Key { key: KeyCode::X, down: false })
        }),
        ({
            let c = events_for((WindowEvent::Paste { text }));
            c.len() == 2 && c[0] == (InputEvent::Key { key: KeyCode::V, down: true }) && c[1] == (
            InputEvent::Key { key: KeyCode::V, down: false })
        }),
        ({
            let t = events_for((WindowEvent::Text { text }));
            if exists|i: int| 0 <= i < text@.len() && needs_text(#[trigger] text@[i]) {
                t.len() == 1 && t[0] == (InputEvent::Text { text })
            } else {
                t.len() == 0
            }
        }),
        ({
            let k = events_for(
                (WindowEvent::Key { key, pressed: true, repeat: false, modifiers: m }),
            );
            let again = events_for(
                (WindowEvent::Key { key, pressed: true, repeat: true, modifiers: m }),
            );
            &&& again.len() == 0
            &&& (k.len() == 1 <==> key != Key::F11 && key_under(key) is Some && !left_to_text(
                key,
                m,
            ))
            &&& k.len() > 0 ==> k.len() == 1 && k[0] == (InputEvent::Key {
                key: key_under(key)->0,
                down: true,
            })
        }),
{
    let t = events_for((WindowEvent::Text { text }));
    if exists|i: int| 0 <= i < text@.len() && needs_text(#[trigger] text@[i]) {
        let i = choose|i: int| 0 <= i < text@.len() && needs_text(#[trigger] text@[i]);
        assert(needs_text(text@[i]));
        assert(t =~= seq![InputEvent::Text { text }]);
    } else {
        assert forall|i: int| 0 <= i < text@.len() implies !needs_text(#[trigger] text@[i]) by {
        }
        assert(t =~= Seq::<InputEvent>::empty());
    }
}

/// A button is held after an event exactly if the event pressed it, or it was held before and
/// the event did not release it.
pub proof fn a_button_is_held_until_released(
    held: Seq<MouseButton>,
    events: Seq<InputEvent>,
    e: InputEvent,
    b: MouseButton,
)
    ensures
        held_after(held, events.push(e)).contains(b) <==> match e {
            InputEvent::MouseButton { button, down } => if button == b {
                down
            } else {
                held_after(held, events).contains(b)
            },
            _ => held_after(held, events).contains(b),
        },
{
    let all = events.push(e);
    assert(all.drop_last() =~= events);
    if let InputEvent::MouseButton { button, down } = e {
        crate::input::lemma_turned_holds(held_after(held, events), button, down);
    }
}

/// A pasted text goes ahead to the host's clipboard unless it is there already or is longer
/// than may be shared.
pub proof fn a_new_text_goes_ahead(last: Seq<char>, text: Seq<char>)
    ensures
        encode_utf8(text).len() > 0x10_0000 ==> !pushes(last, text),
        encode_utf8(text).len() <= 0x10_0000 ==> (pushes(last, text) <==> text != last),
{
}

} // verus!
