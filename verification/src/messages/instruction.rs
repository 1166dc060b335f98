use vstd::prelude::*;

use crate::state::files::file_or_folder::EntryMetadata;

verus! {

/// The screen the application shows, which decides how a key press is handled.
#[derive(Debug, Clone, Copy, PartialEq, Eq, Structural)]
pub enum UiMode {
    Loading,
    Normal,
    ScreenTooSmall,
    Exiting { app_loaded: bool },
}

/// A message to the application from the scanner, the input handler or the
/// loading animation. A key press carries the terminal's event, of type `E`,
/// as the terminal gave it.
#[derive(Debug)]
pub enum Instruction<E> {
    SetPathToRed,
    ResetCurrentPathColor,
    AddEntryToBaseFolder((EntryMetadata, Vec<String>)),
    StartUi,
    ToggleScanningVisualIndicator,
    RenderAndUpdateBoard,
    Render,
    ResetUiMode,
    Keypress(E),
    IncrementFailedToRead,
}

/// The application's operation that an instruction calls for.
#[derive(Debug, Clone, Copy, PartialEq, Eq, Structural)]
pub enum AppAction {
    SetPathToRed,
    ResetCurrentPathColor,
    AddEntryToBaseFolder,
    StartUi,
    IncrementLoadingProgressIndicator,
    RenderAndUpdateBoard,
    Render,
    ResetUiMode,
    HandleKeypressLoadingMode,
    HandleKeypressNormalMode,
    HandleKeypressScreenTooSmall,
    HandleKeypressExitingMode,
    IncrementFailedToRead,
}

/// The operation that `instruction` calls for while the screen is `ui_mode`:
/// a key press goes to the handler of the current mode, every other
/// instruction to its own operation.
pub open spec fn spec_action_for<E>(instruction: Instruction<E>, ui_mode: UiMode) -> AppAction {
    match instruction {
        Instruction::SetPathToRed => AppAction::SetPathToRed,
        Instruction::ResetCurrentPathColor => AppAction::ResetCurrentPathColor,
        Instruction::AddEntryToBaseFolder(_) => AppAction::AddEntryToBaseFolder,
        Instruction::StartUi => AppAction::StartUi,
        Instruction::ToggleScanningVisualIndicator => AppAction::IncrementLoadingProgressIndicator,
        Instruction::RenderAndUpdateBoard => AppAction::RenderAndUpdateBoard,
        Instruction::Render => AppAction::Render,
        Instruction::ResetUiMode => AppAction::ResetUiMode,
        Instruction::Keypress(_) => match ui_mode {
            UiMode::Loading => AppAction::HandleKeypressLoadingMode,
            UiMode::Normal => AppAction::HandleKeypressNormalMode,
            UiMode::ScreenTooSmall => AppAction::HandleKeypressScreenTooSmall,
            UiMode::Exiting { .. } => AppAction::HandleKeypressExitingMode,
        },
        Instruction::IncrementFailedToRead => AppAction::IncrementFailedToRead,
    }
}

/// Decides which operation of the application `instruction` calls for.
pub fn action_for<E>(instruction: &Instruction<E>, ui_mode: &UiMode) -> (action: AppAction)
    ensures
        action == spec_action_for(*instruction, *ui_mode),
        instruction is Keypress && ui_mode is Loading ==> action
            == AppAction::HandleKeypressLoadingMode,
        instruction is Keypress && ui_mode is Normal ==> action
            == AppAction::HandleKeypressNormalMode,
        instruction is Keypress && ui_mode is ScreenTooSmall ==> action
            == AppAction::HandleKeypressScreenTooSmall,
        instruction is Keypress && ui_mode is Exiting ==> action
            == AppAction::HandleKeypressExitingMode,
{
    match instruction {
        Instruction::SetPathToRed => AppAction::SetPathToRed,
        Instruction::ResetCurrentPathColor => AppAction::ResetCurrentPathColor,
        Instruction::AddEntryToBaseFolder(_) => AppAction::AddEntryToBaseFolder,
        Instruction::StartUi => AppAction::StartUi,
        Instruction::ToggleScanningVisualIndicator => AppAction::IncrementLoadingProgressIndicator,
        Instruction::RenderAndUpdateBoard => AppAction::RenderAndUpdateBoard,
        Instruction::Render => AppAction::Render,
        Instruction::ResetUiMode => AppAction::ResetUiMode,
        Instruction::Keypress(_) => match ui_mode {
            UiMode::Loading => AppAction::HandleKeypressLoadingMode,
            UiMode::Normal => AppAction::HandleKeypressNormalMode,
            UiMode::ScreenTooSmall => AppAction::HandleKeypressScreenTooSmall,
            UiMode::Exiting { .. } => AppAction::HandleKeypressExitingMode,
        },
        Instruction::IncrementFailedToRead => AppAction::IncrementFailedToRead,
    }
}

/// Whether the instruction loop goes on after handling `instruction`: it
/// stops only after a key press that left the application no longer running.
pub fn keeps_handling<E>(instruction: &Instruction<E>, app_is_running: bool) -> (go_on: bool)
    ensures
        go_on == !(instruction is Keypress && !app_is_running),
{
    match instruction {
        Instruction::Keypress(_) => app_is_running,
        _ => true,
    }
}

/// A key press while the exit prompt shows goes to the exit prompt's handler,
/// whether or not the scan has finished, and whatever the key.
pub proof fn lemma_exiting_keypress<E>(event: E, app_loaded: bool)
    ensures
        spec_action_for(Instruction::Keypress(event), UiMode::Exiting { app_loaded })
            == AppAction::HandleKeypressExitingMode,
{
}

/// The handler of a key press depends on the screen's kind alone: two key
/// presses, whatever their keys, on screens of one kind go to one handler.
pub proof fn lemma_keypress_handler_by_screen_kind<E>(
    first: E,
    second: E,
    first_mode: UiMode,
    second_mode: UiMode,
)
    requires
        first_mode is Loading <==> second_mode is Loading,
        first_mode is Normal <==> second_mode is Normal,
        first_mode is ScreenTooSmall <==> second_mode is ScreenTooSmall,
        first_mode is Exiting <==> second_mode is Exiting,
    ensures
        spec_action_for(Instruction::Keypress(first), first_mode) == spec_action_for(
            Instruction::Keypress(second),
            second_mode,
        ),
{
}

/// Every instruction but a key press calls for the same operation on every
/// screen, and a key press always goes to a key press handler.
pub proof fn lemma_only_keypresses_follow_the_screen<E>(
    instruction: Instruction<E>,
    first_mode: UiMode,
    second_mode: UiMode,
)
    ensures
        !(instruction is Keypress) ==> spec_action_for(instruction, first_mode) == spec_action_for(
            instruction,
            second_mode,
        ),
        instruction is Keypress ==> {
            let action = spec_action_for(instruction, first_mode);
            ||| action == AppAction::HandleKeypressLoadingMode
            ||| action == AppAction::HandleKeypressNormalMode
            ||| action == AppAction::HandleKeypressScreenTooSmall
            ||| action == AppAction::HandleKeypressExitingMode
        },
{
}

} // verus!
