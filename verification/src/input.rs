use vstd::prelude::*;

use crate::messages::instruction::Instruction;

verus! {

/// The bit of a key event's modifiers that stands for Shift.
pub const MODIFIER_SHIFT: u8 = 0b0000_0001;

/// The bit of a key event's modifiers that stands for Control.
pub const MODIFIER_CONTROL: u8 = 0b0000_0010;

/// The key of a key event: a character, or any other key.
#[derive(Debug, Clone, Copy, PartialEq, Eq, Structural)]
pub enum KeyCode {
    Char(char),
    Other,
}

/// A terminal event, as far as the input handler tells them apart. The
/// modifiers are the terminal's modifier bits (`MODIFIER_SHIFT`,
/// `MODIFIER_CONTROL`, and the others that no rule here names).
#[derive(Debug, Clone, Copy, PartialEq, Eq, Structural)]
pub enum InputEvent {
    Resize { columns: u16, rows: u16 },
    Key { code: KeyCode, modifiers: u8 },
    Other,
}

/// What the input handler does with one terminal event.
#[derive(Debug, Clone, Copy, PartialEq, Eq, Structural)]
pub enum InputAction {
    /// Ask for the UI mode to be reset and for a render, then take the next event.
    ResetAndRender,
    /// Forward the key press, pause, then stop if the application no longer runs.
    ForwardMaybeQuit,
    /// Forward the event, and stop if it cannot be delivered.
    Forward,
}

/// The key presses after which the application may have stopped: `y` and
/// `q` with no modifier, `Q` with Shift alone, `c` with Control alone.
pub open spec fn is_quit_candidate(event: InputEvent) -> bool {
    match event {
        InputEvent::Key { code: KeyCode::Char(c), modifiers } => {
            ||| (c == 'y' || c == 'q') && modifiers == 0
            ||| c == 'Q' && modifiers == MODIFIER_SHIFT
            ||| c == 'c' && modifiers == MODIFIER_CONTROL
        },
        _ => false,
    }
}

/// What the input handler does with `event`.
pub open spec fn spec_input_action(event: InputEvent) -> InputAction {
    if event is Resize {
        InputAction::ResetAndRender
    } else if is_quit_candidate(event) {
        InputAction::ForwardMaybeQuit
    } else {
        InputAction::Forward
    }
}

/// Decides what the input handler does with `event`.
pub fn input_action(event: &InputEvent) -> (action: InputAction)
    ensures
        action == spec_input_action(*event),
        event is Resize ==> action == InputAction::ResetAndRender,
        !(event is Resize) ==> action != InputAction::ResetAndRender,
        action == InputAction::ForwardMaybeQuit <==> is_quit_candidate(*event),
{
    match event {
        InputEvent::Resize { .. } => InputAction::ResetAndRender,
        InputEvent::Key { code: KeyCode::Char(c), modifiers } => {
            let c = *c;
            let modifiers = *modifiers;
            if ((c == 'y' || c == 'q') && modifiers == 0) || (c == 'Q' && modifiers
                == MODIFIER_SHIFT) || (c == 'c' && modifiers == MODIFIER_CONTROL) {
                InputAction::ForwardMaybeQuit
            } else {
                InputAction::Forward
            }
        },
        _ => InputAction::Forward,
    }
}

/// Every resize, whatever its size, is answered by resetting the UI mode and
/// rendering; no resize is forwarded as a key press.
pub proof fn lemma_resize_resets_and_renders(columns: u16, rows: u16)
    ensures
        spec_input_action(InputEvent::Resize { columns, rows }) == InputAction::ResetAndRender,
{
}

/// Only a resize is answered by resetting the UI mode and rendering: every
/// other event is forwarded, and the handler waits to see whether the
/// application stopped exactly after `y` or `q` with no modifier, `Q` with
/// Shift alone and `c` with Control alone.
pub proof fn lemma_keys_forwarded(event: InputEvent)
    requires
        !(event is Resize),
    ensures
        spec_input_action(event) != InputAction::ResetAndRender,
        (spec_input_action(event) == InputAction::ForwardMaybeQuit) == (event matches InputEvent::Key {
            code: KeyCode::Char(c),
            modifiers: m,
        } && (((c == 'y' || c == 'q') && m == 0) || (c == 'Q' && m == 1) || (c == 'c' && m == 2))),
{
}

/// Whether the input handler takes another event after `action`, given
/// whether the forwarded event was delivered and whether the application
/// still runs (read after the pause).
pub fn input_continues(action: InputAction, delivered: bool, running: bool) -> (go_on: bool)
    ensures
        go_on == match action {
            InputAction::ResetAndRender => true,
            InputAction::ForwardMaybeQuit => running,
            InputAction::Forward => delivered,
        },
{
    match action {
        InputAction::ResetAndRender => true,
        InputAction::ForwardMaybeQuit => running,
        InputAction::Forward => delivered,
    }
}

/// What the input handler sends for a terminal `event` that it handles with
/// `action`: a request to reset the UI mode and one to render after a
/// resize; otherwise the event itself, unchanged, as a key press.
pub fn instructions_for_input<E>(event: E, action: InputAction) -> (sent: Vec<Instruction<E>>)
    ensures
        action is ResetAndRender ==> sent@ == seq![Instruction::<E>::ResetUiMode, Instruction::<E>::Render],
        !(action is ResetAndRender) ==> sent@ == seq![Instruction::Keypress(event)],
{
    let mut sent: Vec<Instruction<E>> = Vec::new();
    match action {
        InputAction::ResetAndRender => {
            sent.push(Instruction::ResetUiMode);
            sent.push(Instruction::Render);
        },
        _ => {
            sent.push(Instruction::Keypress(event));
        },
    }
    sent
}

} // verus!
