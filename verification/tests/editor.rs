use bevy_ui::editor::{on_focused_keyboard_input, EditorAction, EditorModifiers, KeyboardInput, LogicalKey};

fn press(key: LogicalKey, modifiers: &mut EditorModifiers, macos: bool) -> Vec<EditorAction> {
    on_focused_keyboard_input(&KeyboardInput { logical_key: key, pressed: true }, modifiers, macos)
}

fn release(key: LogicalKey, modifiers: &mut EditorModifiers, macos: bool) -> Vec<EditorAction> {
    on_focused_keyboard_input(&KeyboardInput { logical_key: key, pressed: false }, modifiers, macos)
}

#[test]
fn modifiers_are_tracked_and_ask_for_nothing() {
    let mut m = EditorModifiers::default();
    assert!(press(LogicalKey::Shift, &mut m, false).is_empty());
    assert!(m.shift);
    assert!(press(LogicalKey::Control, &mut m, false).is_empty());
    assert!(m.command);
    assert!(release(LogicalKey::Shift, &mut m, false).is_empty());
    assert!(!m.shift);
    assert!(release(LogicalKey::Control, &mut m, false).is_empty());
    assert!(!m.command);
}

#[test]
fn super_is_the_command_key_on_macos_only() {
    let mut m = EditorModifiers::default();
    assert!(press(LogicalKey::Super, &mut m, true).is_empty());
    assert!(m.command);
    let mut m = EditorModifiers::default();
    assert!(press(LogicalKey::Super, &mut m, false).is_empty());
    assert!(!m.command);
}

#[test]
fn typing_inserts_and_shortcuts_need_the_command_key() {
    let mut m = EditorModifiers::default();
    assert_eq!(press(LogicalKey::Character("c".to_string()), &mut m, false), vec![EditorAction::InsertKeyText]);
    m.command = true;
    assert_eq!(
        press(LogicalKey::Character("C".to_string()), &mut m, false),
        vec![EditorAction::Copy, EditorAction::InsertKeyText]
    );
    assert_eq!(
        press(LogicalKey::Character("x".to_string()), &mut m, false),
        vec![EditorAction::Cut, EditorAction::InsertKeyText]
    );
    assert_eq!(
        press(LogicalKey::Character("v".to_string()), &mut m, false),
        vec![EditorAction::Paste, EditorAction::InsertKeyText]
    );
    assert_eq!(
        press(LogicalKey::Character("a".to_string()), &mut m, false),
        vec![EditorAction::SelectAll, EditorAction::InsertKeyText]
    );
    assert_eq!(press(LogicalKey::Character("q".to_string()), &mut m, false), vec![EditorAction::InsertKeyText]);
    assert_eq!(press(LogicalKey::Character(String::new()), &mut m, false), vec![EditorAction::InsertKeyText]);
}

#[test]
fn arrows_move_or_select() {
    let mut m = EditorModifiers::default();
    assert_eq!(press(LogicalKey::ArrowLeft, &mut m, false), vec![EditorAction::MoveLeft]);
    m.shift = true;
    assert_eq!(press(LogicalKey::ArrowDown, &mut m, false), vec![EditorAction::SelectDown]);
    m.command = true;
    assert_eq!(
        press(LogicalKey::ArrowRight, &mut m, false),
        vec![EditorAction::MoveWordRight, EditorAction::SelectRight]
    );
    assert_eq!(
        press(LogicalKey::Home, &mut m, false),
        vec![EditorAction::SelectToTextStart, EditorAction::SelectToLineStart]
    );
    m.shift = false;
    assert_eq!(press(LogicalKey::End, &mut m, false), vec![EditorAction::MoveToTextEnd, EditorAction::MoveToLineEnd]);
}

#[test]
fn editing_keys() {
    let mut m = EditorModifiers::default();
    assert_eq!(press(LogicalKey::Space, &mut m, false), vec![EditorAction::InsertSpace]);
    assert_eq!(press(LogicalKey::Enter, &mut m, false), vec![EditorAction::InsertNewline]);
    assert_eq!(press(LogicalKey::Backspace, &mut m, false), vec![EditorAction::Backdelete]);
    assert_eq!(press(LogicalKey::Delete, &mut m, false), vec![EditorAction::Delete]);
    assert_eq!(press(LogicalKey::Escape, &mut m, false), vec![EditorAction::CollapseSelection]);
    assert!(press(LogicalKey::Other, &mut m, false).is_empty());
    m.shift = true;
    assert_eq!(press(LogicalKey::Delete, &mut m, false), vec![EditorAction::DeleteSelection]);
    assert!(release(LogicalKey::Enter, &mut m, false).is_empty());
}
