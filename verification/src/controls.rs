//! What the keys do: each press or release of a movement key sets or clears
//! the flag of that movement, and a press of the quit key ends the session.

use vstd::prelude::*;

verus! {

/// A key, as far as the game tells keys apart.
#[derive(Clone, Copy, Debug, PartialEq, Eq, Structural)]
pub enum Key {
    Up,
    Down,
    Left,
    Right,
    Quit,
    Other,
}

/// What happened to a key.
#[derive(Clone, Copy, Debug, PartialEq, Eq, Structural)]
pub enum Signal {
    Press(Key),
    Release(Key),
}

/// Which movements are being asked for.
#[derive(Clone, Copy, Debug, PartialEq, Eq, Structural)]
pub struct Controls {
    pub forward: bool,
    pub backward: bool,
    pub left: bool,
    pub right: bool,
}

impl Controls {
    /// The flags after `signal`: the flag of a movement key is set by its
    /// press and cleared by its release; no other key changes anything.
    pub open spec fn after(self, signal: Signal) -> Controls {
        match signal {
            Signal::Press(Key::Up) => Controls { forward: true, ..self },
            Signal::Release(Key::Up) => Controls { forward: false, ..self },
            Signal::Press(Key::Down) => Controls { backward: true, ..self },
            Signal::Release(Key::Down) => Controls { backward: false, ..self },
            Signal::Press(Key::Left) => Controls { left: true, ..self },
            Signal::Release(Key::Left) => Controls { left: false, ..self },
            Signal::Press(Key::Right) => Controls { right: true, ..self },
            Signal::Release(Key::Right) => Controls { right: false, ..self },
            _ => self,
        }
    }

    /// No movement is asked for.
    pub fn new() -> (controls: Controls)
        ensures
            !controls.forward,
            !controls.backward,
            !controls.left,
            !controls.right,
    {
        Controls { forward: false, backward: false, left: false, right: false }
    }

    /// Takes one signal in. Says whether the session is to end, which only
    /// a press of the quit key asks for.
    pub fn handle(&mut self, signal: Signal) -> (quit: bool)
        ensures
            *final(self) == old(self).after(signal),
            quit == (signal == Signal::Press(Key::Quit)),
    {
        match signal {
            Signal::Press(Key::Up) => {
                self.forward = true;
            },
            Signal::Release(Key::Up) => {
                self.forward = false;
            },
            Signal::Press(Key::Down) => {
                self.backward = true;
            },
            Signal::Release(Key::Down) => {
                self.backward = false;
            },
            Signal::Press(Key::Left) => {
                self.left = true;
            },
            Signal::Release(Key::Left) => {
                self.left = false;
            },
            Signal::Press(Key::Right) => {
                self.right = true;
            },
            Signal::Release(Key::Right) => {
                self.right = false;
            },
            Signal::Press(Key::Quit) => {
                return true;
            },
            _ => {},
        }
        false
    }

    /// A signal that comes twice in a row does what it does once.
    pub proof fn lemma_repeat(self, signal: Signal)
        ensures
            self.after(signal).after(signal) == self.after(signal),
    {
    }
}

} // verus!
