//! The viewer's keyboard controls: which key was last pressed, the texture
//! and colour-cycling switches, and the rotation axis being animated.
//!
//! `Q` switches the texture on and off, `T` switches colour cycling (turning
//! it off resets the colours), `Y` reverses the rotation, and `W`, `E`, `R`
//! turn the rotation axis towards X, Y and Z.
use vstd::prelude::*;

verus! {

/// The keys the viewer reacts to; every other key is `Other`.
#[derive(Clone, Copy, Debug, PartialEq, Eq, Structural)]
pub enum Key {
    Q,
    T,
    Y,
    W,
    E,
    R,
    Other,
}

/// A rotation axis.
#[derive(Clone, Copy, Debug, PartialEq, Eq, Structural)]
pub enum Axis {
    X,
    Y,
    Z,
}

/// The state of the controls.
#[derive(Clone, Copy, Debug, PartialEq, Eq, Structural)]
pub struct Controls {
    /// The key of the last keyboard event.
    pub key: Key,
    /// Whether that event pressed the key.
    pub pressed: bool,
    /// Whether that event was a key repeat.
    pub repeat: bool,
    /// Whether the texture is shown (rather than the flat colours).
    pub textured: bool,
    /// Whether the face colours cycle.
    pub cycling: bool,
    /// The axis the rotation is being turned towards, while that lasts.
    pub turning: Option<Axis>,
}

/// What a redraw starts.
#[derive(Clone, Copy, Debug, PartialEq, Eq, Structural)]
pub struct RedrawPlan {
    /// Start reversing the rotation direction.
    pub reverse: bool,
    /// Start turning the rotation axis (from the beginning of the turn).
    pub turn: Option<Axis>,
}

/// The last keyboard event was a fresh press (not a repeat) of `k`.
pub open spec fn fresh_press(c: Controls, k: Key) -> bool {
    c.key == k && c.pressed && !c.repeat
}

/// A keyboard event: `Q` and `T` pressed afresh flip their switches, and the
/// event is remembered; the second component tells whether the colours are
/// reset, which happens when `T` switches cycling off.
pub open spec fn key_step(c: Controls, key: Key, pressed: bool, repeat: bool) -> (Controls, bool) {
    let fresh = pressed && !repeat;
    let textured = if key == Key::Q && fresh {
        !c.textured
    } else {
        c.textured
    };
    let cycling = if key == Key::T && fresh {
        !c.cycling
    } else {
        c.cycling
    };
    (
        Controls { key, pressed, repeat, textured, cycling, turning: c.turning },
        key == Key::T && fresh && !cycling,
    )
}

/// The axis that a key turns the rotation towards.
pub open spec fn axis_of(k: Key) -> Option<Axis> {
    match k {
        Key::W => Some(Axis::X),
        Key::E => Some(Axis::Y),
        Key::R => Some(Axis::Z),
        _ => None,
    }
}

/// A redraw: a fresh `Y` reverses the rotation; a fresh `W`, `E` or `R`
/// starts turning towards its axis.
pub open spec fn redraw_step(c: Controls) -> (Controls, RedrawPlan) {
    let fresh = c.pressed && !c.repeat;
    let turn = if fresh {
        axis_of(c.key)
    } else {
        None
    };
    (
        Controls {
            turning: if turn is Some {
                turn
            } else {
                c.turning
            },
            ..c
        },
        RedrawPlan { reverse: fresh_press(c, Key::Y), turn },
    )
}

impl Controls {
    /// The controls when the viewer starts: no key seen, no texture, no
    /// colour cycling, no turn.
    pub fn new() -> (r: Controls)
        ensures
            r == (Controls {
                key: Key::Other,
                pressed: false,
                repeat: false,
                textured: false,
                cycling: false,
                turning: None,
            }),
    {
        Controls {
            key: Key::Other,
            pressed: false,
            repeat: false,
            textured: false,
            cycling: false,
            turning: None,
        }
    }

    /// Whether the last keyboard event was a fresh press of `k`.
    pub fn is_fresh_press(&self, k: Key) -> (r: bool)
        ensures
            r == fresh_press(*self, k),
            r <==> (self.key == k && self.pressed && !self.repeat),
    {
        self.key == k && self.pressed && !self.repeat
    }

    /// Takes a keyboard event; returns whether the colours are to be reset.
    pub fn on_key(&mut self, key: Key, pressed: bool, repeat: bool) -> (reset: bool)
        ensures
            (*final(self), reset) == key_step(*old(self), key, pressed, repeat),
            final(self).key == key,
            final(self).pressed == pressed,
            final(self).repeat == repeat,
            final(self).turning == old(self).turning,
            final(self).textured != old(self).textured <==> (key == Key::Q && pressed && !repeat),
            final(self).cycling != old(self).cycling <==> (key == Key::T && pressed && !repeat),
            reset <==> (key == Key::T && pressed && !repeat && old(self).cycling),
    {
        let fresh = pressed && !repeat;
        if key == Key::Q && fresh {
            self.textured = !self.textured;
        }
        let mut reset = false;
        if key == Key::T && fresh {
            self.cycling = !self.cycling;
            reset = !self.cycling;
        }
        self.key = key;
        self.pressed = pressed;
        self.repeat = repeat;
        reset
    }

    /// Takes a redraw; returns what it starts.
    pub fn on_redraw(&mut self) -> (plan: RedrawPlan)
        ensures
            (*final(self), plan) == redraw_step(*old(self)),
            plan.reverse <==> (old(self).key == Key::Y && old(self).pressed && !old(self).repeat),
            plan.turn is Some ==> old(self).pressed && !old(self).repeat,
            old(self).pressed && !old(self).repeat && old(self).key == Key::W ==> plan.turn
                == Some(Axis::X),
            old(self).pressed && !old(self).repeat && old(self).key == Key::E ==> plan.turn
                == Some(Axis::Y),
            old(self).pressed && !old(self).repeat && old(self).key == Key::R ==> plan.turn
                == Some(Axis::Z),
            old(self).key != Key::W && old(self).key != Key::E && old(self).key != Key::R
                ==> plan.turn is None,
            final(self).key == old(self).key,
            final(self).pressed == old(self).pressed,
            final(self).repeat == old(self).repeat,
            final(self).textured == old(self).textured,
            final(self).cycling == old(self).cycling,
            final(self).turning == (if plan.turn is Some {
                plan.turn
            } else {
                old(self).turning
            }),
    {
        let fresh = self.pressed && !self.repeat;
        let reverse = self.is_fresh_press(Key::Y);
        let turn = if fresh {
            match self.key {
                Key::W => Some(Axis::X),
                Key::E => Some(Axis::Y),
                Key::R => Some(Axis::Z),
                _ => None,
            }
        } else {
            None
        };
        if turn.is_some() {
            self.turning = turn;
        }
        RedrawPlan { reverse, turn }
    }

    /// The turn towards the current axis is complete.
    pub fn finish_turn(&mut self)
        ensures
            *final(self) == (Controls { turning: None, ..*old(self) }),
    {
        self.turning = None;
    }
}

/// Pressing `Q` afresh twice gives the texture switch back its state.
pub proof fn lemma_texture_switch_twice(c: Controls)
    ensures
        key_step(key_step(c, Key::Q, true, false).0, Key::Q, true, false).0.textured == c.textured,
        key_step(c, Key::Q, true, false).0.textured != c.textured,
{
}

/// Only a fresh `Q` changes the texture switch and only a fresh `T` changes
/// colour cycling; no keyboard event changes the turn.
pub proof fn lemma_switches_only_move_on_their_key(
    c: Controls,
    key: Key,
    pressed: bool,
    repeat: bool,
)
    ensures
        key_step(c, key, pressed, repeat).0.textured != c.textured <==> (key == Key::Q && pressed
            && !repeat),
        key_step(c, key, pressed, repeat).0.cycling != c.cycling <==> (key == Key::T && pressed
            && !repeat),
        key_step(c, key, pressed, repeat).0.turning == c.turning,
{
}

/// The colours are reset exactly when a fresh `T` switches cycling off.
pub proof fn lemma_reset_when_cycling_stops(c: Controls, key: Key, pressed: bool, repeat: bool)
    ensures
        key_step(c, key, pressed, repeat).1 <==> (c.cycling && !key_step(
            c,
            key,
            pressed,
            repeat,
        ).0.cycling),
{
}

/// A redraw keeps the key state and the switches; a turn it starts is the
/// one it reports.
pub proof fn lemma_redraw_keeps_switches(c: Controls)
    ensures
        redraw_step(c).0.key == c.key,
        redraw_step(c).0.textured == c.textured,
        redraw_step(c).0.cycling == c.cycling,
        redraw_step(c).1.turn is Some ==> redraw_step(c).0.turning == redraw_step(c).1.turn,
        redraw_step(c).1.turn is None ==> redraw_step(c).0.turning == c.turning,
{
}

/// Every keyboard event is remembered as it came, repeats and releases
/// included.
pub proof fn lemma_key_event_remembered(c: Controls, key: Key, pressed: bool, repeat: bool)
    ensures
        key_step(c, key, pressed, repeat).0.key == key,
        key_step(c, key, pressed, repeat).0.pressed == pressed,
        key_step(c, key, pressed, repeat).0.repeat == repeat,
{
}

/// After a keyboard event, exactly the key of that event is freshly
/// pressed, and only when the event was a press that is not a repeat.
pub proof fn lemma_fresh_press_after_key(
    c: Controls,
    key: Key,
    pressed: bool,
    repeat: bool,
    k: Key,
)
    ensures
        fresh_press(key_step(c, key, pressed, repeat).0, k) <==> (k == key && pressed && !repeat),
{
}

/// A fresh press is a press that is not a repeat.
pub proof fn lemma_fresh_press_is_a_press(c: Controls, k: Key)
    ensures
        fresh_press(c, k) ==> c.pressed && !c.repeat && c.key == k,
        !c.pressed ==> !fresh_press(c, k),
        c.repeat ==> !fresh_press(c, k),
{
}

/// A redraw reverses the rotation only after a fresh press of `Y`, and
/// starts a turn only after a fresh press of `W`, `E` or `R`, towards X, Y
/// or Z.
pub proof fn lemma_redraw_starts_only_on_fresh_press(c: Controls)
    ensures
        redraw_step(c).1.reverse <==> (c.key == Key::Y && c.pressed && !c.repeat),
        redraw_step(c).1.turn is Some <==> (c.pressed && !c.repeat && (c.key == Key::W || c.key
            == Key::E || c.key == Key::R)),
        c.repeat ==> redraw_step(c).1.turn is None && !redraw_step(c).1.reverse,
        !c.pressed ==> redraw_step(c).1.turn is None && !redraw_step(c).1.reverse,
        c.pressed && !c.repeat && c.key == Key::W ==> redraw_step(c).1.turn == Some(Axis::X),
        c.pressed && !c.repeat && c.key == Key::E ==> redraw_step(c).1.turn == Some(Axis::Y),
        c.pressed && !c.repeat && c.key == Key::R ==> redraw_step(c).1.turn == Some(Axis::Z),
{
}

/// A held key: after a fresh press and a redraw, a repeat of the same key
/// makes the next redraw start nothing.
pub proof fn lemma_repeat_starts_nothing(c: Controls, key: Key)
    ensures
        ({
            let c1 = redraw_step(key_step(c, key, true, false).0).0;
            let c2 = key_step(c1, key, true, true).0;
            redraw_step(c2).1 == (RedrawPlan { reverse: false, turn: None })
        }),
{
}

/// A released key: after it, a redraw starts nothing.
pub proof fn lemma_release_starts_nothing(c: Controls, key: Key, repeat: bool)
    ensures
        redraw_step(key_step(c, key, false, repeat).0).1 == (RedrawPlan { reverse: false, turn: None }),
{
}

} // verus!
