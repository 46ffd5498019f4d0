//! Renderer-independent player input.
//!
//! Targets are in thousandths: 1000 is full forward throttle or full left steer.
use vstd::prelude::*;

verus! {

#[derive(Clone, Copy, Debug, PartialEq, Eq, Structural)]
pub struct Input {
    pub throttle_forward: bool,
    pub throttle_reverse: bool,
    pub steer_left: bool,
    pub steer_right: bool,
}

impl Default for Input {
    fn default() -> (i: Self)
        ensures
            !i.throttle_forward && !i.throttle_reverse && !i.steer_left && !i.steer_right,
    {
        Input { throttle_forward: false, throttle_reverse: false, steer_left: false, steer_right: false }
    }
}

impl Input {
    /// Throttle the keys ask for: full forward alone, a third-plus reverse
    /// alone (-350), nothing when both or neither are held.
    pub fn throttle_target(self) -> (t: i32)
        ensures
            t == if self.throttle_forward && !self.throttle_reverse {
                1000
            } else if !self.throttle_forward && self.throttle_reverse {
                -350
            } else {
                0
            },
    {
        match (self.throttle_forward, self.throttle_reverse) {
            (true, false) => 1000,
            (false, true) => -350,
            _ => 0,
        }
    }

    /// Steering the keys ask for: full left (1000) or full right (-1000)
    /// alone, centred when both or neither are held.
    pub fn steering_target(self) -> (s: i32)
        ensures
            s == if self.steer_left && !self.steer_right {
                1000
            } else if !self.steer_left && self.steer_right {
                -1000
            } else {
                0
            },
    {
        match (self.steer_left, self.steer_right) {
            (true, false) => 1000,
            (false, true) => -1000,
            _ => 0,
        }
    }
}

/// Keys the game reacts to; every other key is `Other`.
#[derive(Clone, Copy, Debug, PartialEq, Eq, Structural)]
pub enum Key {
    ArrowUp,
    KeyW,
    ArrowDown,
    KeyS,
    ArrowLeft,
    KeyA,
    ArrowRight,
    KeyD,
    KeyR,
    Space,
    Comma,
    Period,
    Escape,
    Other,
}

/// What a key press asks of the game beyond the held-key state.
#[derive(Clone, Copy, Debug, PartialEq, Eq, Structural)]
pub enum KeyAction {
    Nothing,
    Quit,
    Respawn,
    Jump,
    /// Roll impulse along the craft's forward axis (`,`).
    RollLeft,
    /// Roll impulse against the craft's forward axis (`.`).
    RollRight,
}

/// Held-key state after `key` went down (`pressed`) or up: W/↑ throttle,
/// S/↓ reverse, A/← left, D/→ right; other keys leave it unchanged.
pub open spec fn key_state(input: Input, key: Key, pressed: bool) -> Input {
    match key {
        Key::ArrowUp | Key::KeyW => Input { throttle_forward: pressed, ..input },
        Key::ArrowDown | Key::KeyS => Input { throttle_reverse: pressed, ..input },
        Key::ArrowLeft | Key::KeyA => Input { steer_left: pressed, ..input },
        Key::ArrowRight | Key::KeyD => Input { steer_right: pressed, ..input },
        _ => input,
    }
}

/// One-shot action of a key event: on press, R respawns, Space jumps, `,`
/// and `.` roll, and Escape quits where the build allows it.
pub open spec fn key_action(key: Key, pressed: bool, escape_quits: bool) -> KeyAction {
    match key {
        Key::Escape => if escape_quits { KeyAction::Quit } else { KeyAction::Nothing },
        Key::KeyR => if pressed { KeyAction::Respawn } else { KeyAction::Nothing },
        Key::Space => if pressed { KeyAction::Jump } else { KeyAction::Nothing },
        Key::Comma => if pressed { KeyAction::RollLeft } else { KeyAction::Nothing },
        Key::Period => if pressed { KeyAction::RollRight } else { KeyAction::Nothing },
        _ => KeyAction::Nothing,
    }
}

impl Input {
    /// Apply a keyboard event: update the held keys and report the one-shot
    /// action. `escape_quits` is false in the browser, where Escape does nothing.
    pub fn on_key(&mut self, key: Key, pressed: bool, escape_quits: bool) -> (a: KeyAction)
        ensures
            *final(self) == key_state(*old(self), key, pressed),
            a == key_action(key, pressed, escape_quits),
    {
        match key {
            Key::ArrowUp | Key::KeyW => {
                self.throttle_forward = pressed;
                KeyAction::Nothing
            },
            Key::ArrowDown | Key::KeyS => {
                self.throttle_reverse = pressed;
                KeyAction::Nothing
            },
            Key::ArrowLeft | Key::KeyA => {
                self.steer_left = pressed;
                KeyAction::Nothing
            },
            Key::ArrowRight | Key::KeyD => {
                self.steer_right = pressed;
                KeyAction::Nothing
            },
            Key::Escape => if escape_quits { KeyAction::Quit } else { KeyAction::Nothing },
            Key::KeyR => if pressed { KeyAction::Respawn } else { KeyAction::Nothing },
            Key::Space => if pressed { KeyAction::Jump } else { KeyAction::Nothing },
            Key::Comma => if pressed { KeyAction::RollLeft } else { KeyAction::Nothing },
            Key::Period => if pressed { KeyAction::RollRight } else { KeyAction::Nothing },
            Key::Other => KeyAction::Nothing,
        }
    }

    /// Key-up events are not guaranteed when the window loses focus, so all
    /// held keys are released.
    pub fn release_all(&mut self)
        ensures
            !final(self).throttle_forward && !final(self).throttle_reverse && !final(self).steer_left
                && !final(self).steer_right,
    {
        self.throttle_forward = false;
        self.throttle_reverse = false;
        self.steer_left = false;
        self.steer_right = false;
    }
}

/// Releasing a key that was pressed restores the held-key state, and a key
/// only ever changes its own flag.
pub proof fn lemma_press_release_restores(input: Input, key: Key)
    ensures
        key_state(key_state(input, key, true), key, false) == key_state(input, key, false),
        key_state(key_state(input, key, true), key, false) == input
            <== (key_state(input, key, false) == input),
{
}

/// Key bindings: W/↑ hold throttle, S/↓ reverse, A/← steer left, D/→ steer
/// right; a press sets exactly that key's flag (a release clears it) and
/// leaves the other three as they were, and every other key leaves all four.
pub proof fn lemma_key_bindings(input: Input, key: Key, pressed: bool)
    ensures
        ({
            let r = key_state(input, key, pressed);
            let throttle = key == Key::ArrowUp || key == Key::KeyW;
            let reverse = key == Key::ArrowDown || key == Key::KeyS;
            let left = key == Key::ArrowLeft || key == Key::KeyA;
            let right = key == Key::ArrowRight || key == Key::KeyD;
            &&& r.throttle_forward == (if throttle { pressed } else { input.throttle_forward })
            &&& r.throttle_reverse == (if reverse { pressed } else { input.throttle_reverse })
            &&& r.steer_left == (if left { pressed } else { input.steer_left })
            &&& r.steer_right == (if right { pressed } else { input.steer_right })
        }),
{
}

/// From centred steering, pressing D or → steers full right (-1000) and A or
/// ← full left (+1000).
pub proof fn lemma_steer_keys_direction(input: Input, key: Key)
    requires
        !input.steer_left,
        !input.steer_right,
    ensures
        (key == Key::ArrowRight || key == Key::KeyD) ==> {
            let r = key_state(input, key, true);
            r.steer_right && !r.steer_left
        },
        (key == Key::ArrowLeft || key == Key::KeyA) ==> {
            let r = key_state(input, key, true);
            r.steer_left && !r.steer_right
        },
{
}

/// One-shot actions come on a press only (Escape quits on either edge where
/// allowed): R respawns, Space jumps, `,` rolls left, `.` rolls right; the
/// held keys and every other key ask for nothing.
pub proof fn lemma_key_actions(key: Key, pressed: bool, escape_quits: bool)
    ensures
        key_action(key, pressed, escape_quits) == KeyAction::Quit <==> (key == Key::Escape && escape_quits),
        key_action(key, pressed, escape_quits) == KeyAction::Respawn <==> (key == Key::KeyR && pressed),
        key_action(key, pressed, escape_quits) == KeyAction::Jump <==> (key == Key::Space && pressed),
        key_action(key, pressed, escape_quits) == KeyAction::RollLeft <==> (key == Key::Comma && pressed),
        key_action(key, pressed, escape_quits) == KeyAction::RollRight <==> (key == Key::Period && pressed),
{
}

} // verus!
