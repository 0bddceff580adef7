//! Which keys and mouse buttons are held, and which went down this frame;
//! and where a keyboard event goes: to the fullscreen switch, the console,
//! or the game's key state.
//!
//! Keys and buttons are numbered by the caller (from the window system's
//! codes). The pointer's position and movement are measured in floating
//! point and kept by the caller.
use vstd::prelude::*;
use crate::console::{keyboard_effect, Console, ConsoleCommand, ConsoleKey};
use crate::window::{toggle_fullscreen, WindowRequest, WindowState};

verus! {

/// A set of codes, each listed once.
pub struct CodeSet {
    codes: Vec<u32>,
}

impl CodeSet {
    pub closed spec fn set(&self) -> Set<u32> {
        self.codes@.to_set()
    }

    pub closed spec fn wf(&self) -> bool {
        self.codes@.no_duplicates()
    }

    pub fn new() -> (r: Self)
        ensures
            r.wf(),
            r.set().is_empty(),
    {
        let r = CodeSet { codes: Vec::new() };
        assert(r.set() =~= Set::<u32>::empty());
        r
    }

    fn index_of(&self, code: u32) -> (r: Option<usize>)
        ensures
            match r {
                Some(i) => i < self.codes@.len() && self.codes@[i as int] == code,
                None => !self.set().contains(code),
            },
    {
        let mut i: usize = 0;
        while i < self.codes.len()
            invariant
                i <= self.codes@.len(),
                forall|k: int| 0 <= k < i ==> self.codes@[k] != code,
            decreases self.codes@.len() - i,
        {
            if self.codes[i] == code {
                return Some(i);
            }
            i = i + 1;
        }
        proof {
            if self.set().contains(code) {
                let k = choose|k: int| 0 <= k < self.codes@.len() && self.codes@[k] == code;
                assert(self.codes@[k] == code);
            }
        }
        None
    }

    pub fn contains(&self, code: u32) -> (r: bool)
        ensures
            r == self.set().contains(code),
    {
        match self.index_of(code) {
            Some(i) => {
                assert(self.codes@.contains(self.codes@[i as int]));
                true
            },
            None => false,
        }
    }

    pub fn insert(&mut self, code: u32)
        requires
            old(self).wf(),
        ensures
            final(self).wf(),
            final(self).set() == old(self).set().insert(code),
    {
        let ghost before = self.codes@;
        match self.index_of(code) {
            Some(i) => {
                assert(before.contains(before[i as int]));
                assert(self.set() =~= old(self).set().insert(code));
            },
            None => {
                self.codes.push(code);
                proof {
                    assert forall|a: int, b: int| 0 <= a < b < self.codes@.len() implies self.codes@[a] != self.codes@[b] by {
                        if b == before.len() {
                            assert(before.contains(before[a]));
                        }
                    }
                    assert forall|x: u32| self.set().contains(x) == old(self).set().insert(code).contains(x) by {
                        vstd::seq_lib::lemma_seq_contains_after_push(before, code, x);
                    }
                    assert(self.set() =~= old(self).set().insert(code));
                }
            },
        }
    }

    pub fn remove(&mut self, code: u32)
        requires
            old(self).wf(),
        ensures
            final(self).wf(),
            final(self).set() == old(self).set().remove(code),
    {
        let ghost before = self.codes@;
        match self.index_of(code) {
            Some(i) => {
                self.codes.swap_remove(i);
                proof {
                    let after = self.codes@;
                    assert(after == before.update(i as int, before.last()).drop_last());
                    assert forall|k: int| 0 <= k < after.len() implies #[trigger] after[k] == before[if k == i { before.len() - 1 } else { k }] by {}
                    assert forall|a: int, b: int| 0 <= a < b < after.len() implies after[a] != after[b] by {
                        let a1 = if a == i { before.len() - 1 } else { a };
                        let b1 = if b == i { before.len() - 1 } else { b };
                        assert(after[a] == before[a1] && after[b] == before[b1]);
                    }
                    assert forall|x: u32| self.set().contains(x) == old(self).set().remove(code).contains(x) by {
                        if after.contains(x) {
                            let k = choose|k: int| 0 <= k < after.len() && after[k] == x;
                            let k1 = if k == i { before.len() - 1 } else { k };
                            assert(before[k1] == x);
                            assert(k1 != i);
                        }
                        if before.contains(x) && x != code {
                            let k = choose|k: int| 0 <= k < before.len() && before[k] == x;
                            assert(k != i);
                            if k == before.len() - 1 {
                                assert(after[i as int] == x);
                            } else {
                                assert(after[k] == x);
                            }
                        }
                    }
                    assert(self.set() =~= old(self).set().remove(code));
                }
            },
            None => {
                assert(self.set() =~= old(self).set().remove(code));
            },
        }
    }

    pub fn clear(&mut self)
        ensures
            final(self).wf(),
            final(self).set().is_empty(),
    {
        self.codes.clear();
        assert(self.set() =~= Set::<u32>::empty());
    }
}

/// The keys and mouse buttons the game sees.
pub struct InputState {
    pub keys_pressed: CodeSet,
    pub keys_just_pressed: CodeSet,
    pub mouse_buttons_pressed: CodeSet,
    pub mouse_buttons_just_pressed: CodeSet,
    pub mouse_buttons_just_released: CodeSet,
}

impl InputState {
    pub open spec fn wf(&self) -> bool {
        &&& self.keys_pressed.wf()
        &&& self.keys_just_pressed.wf()
        &&& self.mouse_buttons_pressed.wf()
        &&& self.mouse_buttons_just_pressed.wf()
        &&& self.mouse_buttons_just_released.wf()
    }

    /// Nothing held.
    pub fn new() -> (r: Self)
        ensures
            r.wf(),
            r.keys_pressed.set().is_empty(),
            r.keys_just_pressed.set().is_empty(),
            r.mouse_buttons_pressed.set().is_empty(),
            r.mouse_buttons_just_pressed.set().is_empty(),
            r.mouse_buttons_just_released.set().is_empty(),
    {
        InputState {
            keys_pressed: CodeSet::new(),
            keys_just_pressed: CodeSet::new(),
            mouse_buttons_pressed: CodeSet::new(),
            mouse_buttons_just_pressed: CodeSet::new(),
            mouse_buttons_just_released: CodeSet::new(),
        }
    }

    /// A key went down (`pressed`) or up.
    pub fn key_event(&mut self, key: u32, pressed: bool)
        requires
            old(self).wf(),
        ensures
            final(self).wf(),
            final(self).keys_pressed.set() == (if pressed { old(self).keys_pressed.set().insert(key) } else { old(self).keys_pressed.set().remove(key) }),
            final(self).keys_just_pressed.set() == (if pressed { old(self).keys_just_pressed.set().insert(key) } else { old(self).keys_just_pressed.set().remove(key) }),
            final(self).mouse_buttons_pressed.set() == old(self).mouse_buttons_pressed.set(),
            final(self).mouse_buttons_just_pressed.set() == old(self).mouse_buttons_just_pressed.set(),
            final(self).mouse_buttons_just_released.set() == old(self).mouse_buttons_just_released.set(),
    {
        if pressed {
            self.keys_pressed.insert(key);
            self.keys_just_pressed.insert(key);
        } else {
            self.keys_pressed.remove(key);
            self.keys_just_pressed.remove(key);
        }
    }

    /// A mouse button went down (`pressed`) or up.
    pub fn mouse_button_event(&mut self, button: u32, pressed: bool)
        requires
            old(self).wf(),
        ensures
            final(self).wf(),
            final(self).mouse_buttons_pressed.set() == (if pressed {
                old(self).mouse_buttons_pressed.set().insert(button)
            } else {
                old(self).mouse_buttons_pressed.set().remove(button)
            }),
            final(self).mouse_buttons_just_pressed.set() == (if pressed {
                old(self).mouse_buttons_just_pressed.set().insert(button)
            } else {
                old(self).mouse_buttons_just_pressed.set()
            }),
            final(self).mouse_buttons_just_released.set() == (if pressed {
                old(self).mouse_buttons_just_released.set()
            } else {
                old(self).mouse_buttons_just_released.set().insert(button)
            }),
            final(self).keys_pressed.set() == old(self).keys_pressed.set(),
            final(self).keys_just_pressed.set() == old(self).keys_just_pressed.set(),
    {
        if pressed {
            self.mouse_buttons_pressed.insert(button);
            self.mouse_buttons_just_pressed.insert(button);
        } else {
            self.mouse_buttons_pressed.remove(button);
            self.mouse_buttons_just_released.insert(button);
        }
    }

    /// Starts a new frame: nothing went down in it yet.
    pub fn update_frame(&mut self)
        requires
            old(self).wf(),
        ensures
            final(self).wf(),
            final(self).keys_just_pressed.set().is_empty(),
            final(self).mouse_buttons_just_pressed.set().is_empty(),
            final(self).keys_pressed.set() == old(self).keys_pressed.set(),
            final(self).mouse_buttons_pressed.set() == old(self).mouse_buttons_pressed.set(),
            final(self).mouse_buttons_just_released.set() == old(self).mouse_buttons_just_released.set(),
    {
        self.keys_just_pressed.clear();
        self.mouse_buttons_just_pressed.clear();
    }

    pub fn is_key_pressed(&self, key: u32) -> (r: bool)
        ensures
            r == self.keys_pressed.set().contains(key),
    {
        self.keys_pressed.contains(key)
    }

    pub fn is_key_just_pressed(&self, key: u32) -> (r: bool)
        ensures
            r == self.keys_just_pressed.set().contains(key),
    {
        self.keys_just_pressed.contains(key)
    }

    pub fn is_mouse_button_pressed(&self, button: u32) -> (r: bool)
        ensures
            r == self.mouse_buttons_pressed.set().contains(button),
    {
        self.mouse_buttons_pressed.contains(button)
    }

    pub fn is_mouse_button_just_pressed(&self, button: u32) -> (r: bool)
        ensures
            r == self.mouse_buttons_just_pressed.set().contains(button),
    {
        self.mouse_buttons_just_pressed.contains(button)
    }
}

/// A keyboard event as the window reports it.
pub struct KeyEvent {
    /// The key, as the console knows it.
    pub key: ConsoleKey,
    /// The key's code, for the game's key state.
    pub code: u32,
    /// Whether it is the fullscreen key (F11).
    pub is_fullscreen_key: bool,
    /// The text the key types, if any.
    pub text: Option<String>,
    pub pressed: bool,
    pub repeat: bool,
}

/// Hands a keyboard event on: a fresh press of the fullscreen key switches
/// fullscreen (and the window is asked to follow); any other event goes to
/// the console and then, while the console is closed, to the key state.
pub fn route_keyboard<C: ConsoleCommand>(
    event: KeyEvent,
    console: &mut Console<C>,
    input: &mut InputState,
    window: &mut WindowState,
) -> (r: Option<WindowRequest>)
    requires
        old(console).wf(),
        old(input).wf(),
    ensures
        final(console).wf(),
        final(input).wf(),
        event.is_fullscreen_key && event.pressed && !event.repeat ==> {
            &&& r == Some(WindowRequest::SetFullscreen(!old(window).fullscreen))
            &&& final(window).fullscreen == !old(window).fullscreen
            &&& final(console)@ == old(console)@
            &&& final(console).entries() == old(console).entries()
            &&& final(input).keys_pressed.set() == old(input).keys_pressed.set()
            &&& final(input).keys_just_pressed.set() == old(input).keys_just_pressed.set()
        },
        !(event.is_fullscreen_key && event.pressed && !event.repeat) ==> {
            &&& r is None
            &&& final(window).fullscreen == old(window).fullscreen
            &&& keyboard_effect(old(console)@, old(console).entries(), final(console)@, final(console).entries(),
                event.key, event.text, event.pressed, event.repeat)
            &&& (final(console)@.visible ==> final(input).keys_pressed.set() == old(input).keys_pressed.set()
                && final(input).keys_just_pressed.set() == old(input).keys_just_pressed.set())
            &&& (!final(console)@.visible ==> final(input).keys_pressed.set() == (if event.pressed {
                old(input).keys_pressed.set().insert(event.code)
            } else {
                old(input).keys_pressed.set().remove(event.code)
            }) && final(input).keys_just_pressed.set() == (if event.pressed {
                old(input).keys_just_pressed.set().insert(event.code)
            } else {
                old(input).keys_just_pressed.set().remove(event.code)
            }))
        },
        final(input).mouse_buttons_pressed.set() == old(input).mouse_buttons_pressed.set(),
        final(input).mouse_buttons_just_pressed.set() == old(input).mouse_buttons_just_pressed.set(),
        final(input).mouse_buttons_just_released.set() == old(input).mouse_buttons_just_released.set(),
{
    if event.is_fullscreen_key && event.pressed && !event.repeat {
        return Some(toggle_fullscreen(window));
    }
    let code = event.code;
    let pressed = event.pressed;
    console.handle_keyboard(event.key, event.text, event.pressed, event.repeat);
    if !console.is_visible() {
        input.key_event(code, pressed);
    }
    None
}

} // verus!
