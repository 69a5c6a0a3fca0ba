//! The controller-combo state machine.  The listener polls two buttons and
//! fires its callback once per combo: after both buttons have been held
//! together, the release of either one triggers.  The polling, the sleeps
//! and the callback live with the caller; the decision from state and
//! button readings to next state and trigger lives here.

use vstd::prelude::*;

verus! {

/// Where the combo detection stands between two polls.
#[derive(Clone, Copy, PartialEq, Eq, Structural, Debug)]
pub enum ControllerState {
    NotPressed,
    KeyA,
    KeyB,
    BothKeys,
}

/// The transition table: which state follows a poll reading, and whether
/// the combo fires on it.
pub open spec fn spec_combo_step(state: ControllerState, key_a: bool, key_b: bool) -> (
    ControllerState,
    bool,
) {
    match state {
        ControllerState::NotPressed => if key_b {
            (ControllerState::KeyB, false)
        } else if key_a {
            (ControllerState::KeyA, false)
        } else {
            (ControllerState::NotPressed, false)
        },
        ControllerState::KeyB => if key_a {
            (ControllerState::BothKeys, false)
        } else if !key_b {
            (ControllerState::NotPressed, false)
        } else {
            (ControllerState::KeyB, false)
        },
        ControllerState::KeyA => if key_b {
            (ControllerState::BothKeys, false)
        } else if !key_a {
            (ControllerState::NotPressed, false)
        } else {
            (ControllerState::KeyA, false)
        },
        ControllerState::BothKeys => if !key_b || !key_a {
            (ControllerState::NotPressed, true)
        } else {
            (ControllerState::BothKeys, false)
        },
    }
}

/// Advances the combo state by one poll of the two buttons; the second
/// component says whether the combo fires now.  The combo fires only out
/// of the both-buttons state, and every fire resets the detection.
pub fn combo_step(state: ControllerState, key_a_pressed: bool, key_b_pressed: bool) -> (r: (
    ControllerState,
    bool,
))
    ensures
        r == spec_combo_step(state, key_a_pressed, key_b_pressed),
        r.1 ==> state is BothKeys && r.0 is NotPressed,
{
    match state {
        ControllerState::NotPressed => {
            if key_b_pressed {
                (ControllerState::KeyB, false)
            } else if key_a_pressed {
                (ControllerState::KeyA, false)
            } else {
                (ControllerState::NotPressed, false)
            }
        },
        ControllerState::KeyB => {
            if key_a_pressed {
                (ControllerState::BothKeys, false)
            } else if !key_b_pressed {
                (ControllerState::NotPressed, false)
            } else {
                (ControllerState::KeyB, false)
            }
        },
        ControllerState::KeyA => {
            if key_b_pressed {
                (ControllerState::BothKeys, false)
            } else if !key_a_pressed {
                (ControllerState::NotPressed, false)
            } else {
                (ControllerState::KeyA, false)
            }
        },
        ControllerState::BothKeys => {
            if !key_b_pressed || !key_a_pressed {
                (ControllerState::NotPressed, true)
            } else {
                (ControllerState::BothKeys, false)
            }
        },
    }
}

} // verus!
