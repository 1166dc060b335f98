use diskonaut::input::{instructions_for_input, input_action, input_continues, InputAction, InputEvent, KeyCode, MODIFIER_CONTROL, MODIFIER_SHIFT};
use diskonaut::messages::instruction::{action_for, keeps_handling, AppAction, Instruction, UiMode};
use diskonaut::os::unix::{is_admin_uid, is_user_admin};
use diskonaut::state::files::file_or_folder::EntryMetadata;
use diskonaut::workers::{instruction_for_entry, keeps_animating, scan_step, ScanStep, SendOutcome, MAX_SEND_RETRIES};

type Msg = Instruction<InputEvent>;

fn key(c: char, modifiers: u8) -> InputEvent {
    InputEvent::Key { code: KeyCode::Char(c), modifiers }
}

#[test]
fn resize_resets_and_renders() {
    assert_eq!(input_action(&InputEvent::Resize { columns: 80, rows: 24 }), InputAction::ResetAndRender);
}

#[test]
fn quit_keys_are_recognised() {
    assert_eq!(input_action(&key('y', 0)), InputAction::ForwardMaybeQuit);
    assert_eq!(input_action(&key('q', 0)), InputAction::ForwardMaybeQuit);
    assert_eq!(input_action(&key('Q', MODIFIER_SHIFT)), InputAction::ForwardMaybeQuit);
    assert_eq!(input_action(&key('c', MODIFIER_CONTROL)), InputAction::ForwardMaybeQuit);
}

#[test]
fn other_keys_are_forwarded() {
    assert_eq!(input_action(&key('q', MODIFIER_CONTROL)), InputAction::Forward);
    assert_eq!(input_action(&key('Q', 0)), InputAction::Forward);
    assert_eq!(input_action(&key('c', 0)), InputAction::Forward);
    assert_eq!(input_action(&key('c', MODIFIER_CONTROL | MODIFIER_SHIFT)), InputAction::Forward);
    assert_eq!(input_action(&key('x', 0)), InputAction::Forward);
    assert_eq!(input_action(&InputEvent::Key { code: KeyCode::Other, modifiers: 0 }), InputAction::Forward);
    assert_eq!(input_action(&InputEvent::Other), InputAction::Forward);
}

#[test]
fn input_loop_stops_as_expected() {
    assert!(input_continues(InputAction::ResetAndRender, false, false));
    assert!(input_continues(InputAction::ForwardMaybeQuit, false, true));
    assert!(!input_continues(InputAction::ForwardMaybeQuit, true, false));
    assert!(input_continues(InputAction::Forward, true, false));
    assert!(!input_continues(InputAction::Forward, false, true));
}

#[test]
fn key_presses_go_to_the_current_mode() {
    let press = Instruction::Keypress(key('x', 0));
    assert_eq!(action_for(&press, &UiMode::Loading), AppAction::HandleKeypressLoadingMode);
    assert_eq!(action_for(&press, &UiMode::Normal), AppAction::HandleKeypressNormalMode);
    assert_eq!(action_for(&press, &UiMode::ScreenTooSmall), AppAction::HandleKeypressScreenTooSmall);
    assert_eq!(action_for(&press, &UiMode::Exiting { app_loaded: true }), AppAction::HandleKeypressExitingMode);
}

#[test]
fn other_instructions_go_to_their_operation() {
    let mode = UiMode::Normal;
    assert_eq!(action_for(&Msg::SetPathToRed, &mode), AppAction::SetPathToRed);
    assert_eq!(action_for(&Msg::ResetCurrentPathColor, &mode), AppAction::ResetCurrentPathColor);
    let entry = (EntryMetadata { is_dir: false, len: 1, size_on_disk: None }, vec!["f".to_string()]);
    assert_eq!(action_for(&Msg::AddEntryToBaseFolder(entry), &mode), AppAction::AddEntryToBaseFolder);
    assert_eq!(action_for(&Msg::StartUi, &mode), AppAction::StartUi);
    assert_eq!(action_for(&Msg::ToggleScanningVisualIndicator, &mode), AppAction::IncrementLoadingProgressIndicator);
    assert_eq!(action_for(&Msg::RenderAndUpdateBoard, &mode), AppAction::RenderAndUpdateBoard);
    assert_eq!(action_for(&Msg::Render, &mode), AppAction::Render);
    assert_eq!(action_for(&Msg::ResetUiMode, &mode), AppAction::ResetUiMode);
    assert_eq!(action_for(&Msg::IncrementFailedToRead, &mode), AppAction::IncrementFailedToRead);
}

#[test]
fn instruction_loop_stops_after_a_final_key_press() {
    assert!(!keeps_handling(&Instruction::Keypress(key('y', 0)), false));
    assert!(keeps_handling(&Instruction::Keypress(key('y', 0)), true));
    assert!(keeps_handling(&Msg::Render, false));
}

#[test]
fn scanner_steps() {
    assert_eq!(scan_step(0, SendOutcome::Sent), ScanStep::NextEntry);
    assert_eq!(scan_step(7, SendOutcome::Disconnected), ScanStep::StopScanning);
    assert_eq!(scan_step(0, SendOutcome::Full), ScanStep::RetryAfterPause { retry_count: 1 });
    assert_eq!(scan_step(MAX_SEND_RETRIES - 1, SendOutcome::Full), ScanStep::RetryAfterPause { retry_count: MAX_SEND_RETRIES });
    assert_eq!(scan_step(MAX_SEND_RETRIES, SendOutcome::Full), ScanStep::GiveUpOnEntry);
}

#[test]
fn scanner_gives_up_after_the_limit() {
    let mut count = 0;
    let mut attempts = 0;
    loop {
        attempts += 1;
        match scan_step(count, SendOutcome::Full) {
            ScanStep::RetryAfterPause { retry_count } => count = retry_count,
            ScanStep::GiveUpOnEntry => break,
            other => panic!("unexpected {:?}", other),
        }
    }
    assert_eq!(attempts, MAX_SEND_RETRIES + 1);
}

#[test]
fn entries_become_instructions() {
    let metadata = EntryMetadata { is_dir: true, len: 0, size_on_disk: None };
    match instruction_for_entry::<InputEvent>(Some((metadata, vec!["d".to_string()]))) {
        Instruction::AddEntryToBaseFolder((m, p)) => {
            assert_eq!(m, metadata);
            assert_eq!(p, vec!["d".to_string()]);
        }
        other => panic!("unexpected {:?}", other),
    }
    assert!(matches!(instruction_for_entry::<InputEvent>(None), Instruction::IncrementFailedToRead));
}

#[test]
fn animation_runs_while_loading() {
    assert!(keeps_animating(true, false));
    assert!(!keeps_animating(true, true));
    assert!(!keeps_animating(false, false));
}

#[test]
fn root_is_the_administrator() {
    assert!(is_admin_uid(0));
    assert!(!is_admin_uid(1000));
}

#[test]
fn admin_check_runs() {
    let _ = is_user_admin();
}

#[test]
fn key_presses_are_forwarded_unchanged() {
    let event = key('x', MODIFIER_SHIFT);
    let sent = instructions_for_input(event, input_action(&event));
    assert_eq!(sent.len(), 1);
    assert!(matches!(sent[0], Instruction::Keypress(e) if e == event));
    let other = InputEvent::Other;
    let sent = instructions_for_input(other, input_action(&other));
    assert_eq!(sent.len(), 1);
    assert!(matches!(sent[0], Instruction::Keypress(InputEvent::Other)));
}

#[test]
fn a_resize_asks_for_reset_and_render() {
    let event = InputEvent::Resize { columns: 100, rows: 30 };
    let sent = instructions_for_input(event, input_action(&event));
    assert_eq!(sent.len(), 2);
    assert!(matches!(sent[0], Instruction::ResetUiMode));
    assert!(matches!(sent[1], Instruction::Render));
}
