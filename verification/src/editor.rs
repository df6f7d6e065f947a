//! The decisions of a text input field: which editing actions a key press asks for, given
//! the modifier keys held. Performing the actions on the text editor is left to the caller.
use vstd::prelude::*;

verus! {

/// The logical keys a text field tells apart.
#[derive(PartialEq, Eq, Debug, Clone)]
pub enum LogicalKey {
    Shift,
    Control,
    Super,
    /// A key that types text.
    Character(String),
    Space,
    ArrowLeft,
    ArrowRight,
    ArrowUp,
    ArrowDown,
    Backspace,
    Delete,
    Home,
    End,
    Escape,
    Enter,
    /// Any other key.
    Other,
}

/// A key press or release delivered to the focused text field.
pub struct KeyboardInput {
    pub logical_key: LogicalKey,
    /// Whether the key was pressed (and not released).
    pub pressed: bool,
}

/// The modifier keys held, as far as the text field tracks them.
#[derive(PartialEq, Eq, Structural, Clone, Copy, Debug, Default)]
pub struct EditorModifiers {
    pub shift: bool,
    /// Control, or Super on macOS.
    pub command: bool,
}

/// An editing action on the text field's editor.
#[derive(PartialEq, Eq, Structural, Clone, Copy, Debug)]
pub enum EditorAction {
    /// Put the selected text, if any, on the field's clipboard.
    Copy,
    /// Put the selected text, if any, on the field's clipboard and delete it.
    Cut,
    /// Insert the field's clipboard text in place of the selection.
    Paste,
    SelectAll,
    MoveWordLeft,
    MoveWordRight,
    SelectToTextStart,
    MoveToTextStart,
    SelectToTextEnd,
    MoveToTextEnd,
    /// Insert the text of the pressed key in place of the selection.
    InsertKeyText,
    /// Insert a space in place of the selection.
    InsertSpace,
    /// Insert a line break in place of the selection.
    InsertNewline,
    SelectLeft,
    MoveLeft,
    SelectRight,
    MoveRight,
    SelectUp,
    MoveUp,
    SelectDown,
    MoveDown,
    Backdelete,
    DeleteSelection,
    Delete,
    SelectToLineStart,
    MoveToLineStart,
    SelectToLineEnd,
    MoveToLineEnd,
    CollapseSelection,
}

/// The command shortcut of a typed character: c copies, x cuts, v pastes, a selects all,
/// in either case.
pub open spec fn shortcut_spec(c: char) -> Option<EditorAction> {
    if c == 'c' || c == 'C' {
        Some(EditorAction::Copy)
    } else if c == 'x' || c == 'X' {
        Some(EditorAction::Cut)
    } else if c == 'v' || c == 'V' {
        Some(EditorAction::Paste)
    } else if c == 'a' || c == 'A' {
        Some(EditorAction::SelectAll)
    } else {
        None
    }
}

/// The actions a held command modifier adds for a pressed key.
pub open spec fn command_actions_spec(key: LogicalKey, shift: bool) -> Seq<EditorAction> {
    match key {
        LogicalKey::Character(s) => if s@.len() > 0 {
            match shortcut_spec(s@[0]) {
                Some(a) => seq![a],
                None => Seq::empty(),
            }
        } else {
            Seq::empty()
        },
        LogicalKey::ArrowLeft => seq![EditorAction::MoveWordLeft],
        LogicalKey::ArrowRight => seq![EditorAction::MoveWordRight],
        LogicalKey::Home => if shift {
            seq![EditorAction::SelectToTextStart]
        } else {
            seq![EditorAction::MoveToTextStart]
        },
        LogicalKey::End => if shift {
            seq![EditorAction::SelectToTextEnd]
        } else {
            seq![EditorAction::MoveToTextEnd]
        },
        _ => Seq::empty(),
    }
}

/// The action a pressed key asks for whatever the command modifier.
pub open spec fn plain_actions_spec(key: LogicalKey, shift: bool) -> Seq<EditorAction> {
    match key {
        LogicalKey::Space => seq![EditorAction::InsertSpace],
        LogicalKey::Character(_) => seq![EditorAction::InsertKeyText],
        LogicalKey::ArrowLeft => seq![if shift { EditorAction::SelectLeft } else { EditorAction::MoveLeft }],
        LogicalKey::ArrowRight => seq![if shift { EditorAction::SelectRight } else { EditorAction::MoveRight }],
        LogicalKey::ArrowUp => seq![if shift { EditorAction::SelectUp } else { EditorAction::MoveUp }],
        LogicalKey::ArrowDown => seq![if shift { EditorAction::SelectDown } else { EditorAction::MoveDown }],
        LogicalKey::Backspace => seq![EditorAction::Backdelete],
        LogicalKey::Delete => seq![if shift { EditorAction::DeleteSelection } else { EditorAction::Delete }],
        LogicalKey::Home => seq![if shift { EditorAction::SelectToLineStart } else { EditorAction::MoveToLineStart }],
        LogicalKey::End => seq![if shift { EditorAction::SelectToLineEnd } else { EditorAction::MoveToLineEnd }],
        LogicalKey::Escape => seq![EditorAction::CollapseSelection],
        LogicalKey::Enter => seq![EditorAction::InsertNewline],
        _ => Seq::empty(),
    }
}

/// Whether the key is a modifier the field tracks: Shift, Control, and Super on macOS.
pub open spec fn is_tracked_modifier(key: LogicalKey, macos: bool) -> bool {
    key is Shift || key is Control || (macos && key is Super)
}

/// The modifiers after the input: a tracked modifier key sets its flag to whether it is
/// pressed; other keys leave them.
pub open spec fn modifiers_after(input_key: LogicalKey, pressed: bool, m: EditorModifiers, macos: bool) -> EditorModifiers {
    match input_key {
        LogicalKey::Shift => EditorModifiers { shift: pressed, command: m.command },
        LogicalKey::Control => EditorModifiers { shift: m.shift, command: pressed },
        LogicalKey::Super => if macos {
            EditorModifiers { shift: m.shift, command: pressed }
        } else {
            m
        },
        _ => m,
    }
}

/// The actions of the input: none for a tracked modifier or a release; otherwise the
/// command actions (where command is held) followed by the plain actions.
pub open spec fn actions_spec(input_key: LogicalKey, pressed: bool, m: EditorModifiers, macos: bool) -> Seq<EditorAction> {
    if is_tracked_modifier(input_key, macos) || !pressed {
        Seq::empty()
    } else if m.command {
        command_actions_spec(input_key, m.shift) + plain_actions_spec(input_key, m.shift)
    } else {
        plain_actions_spec(input_key, m.shift)
    }
}

fn shortcut(c: char) -> (r: Option<EditorAction>)
    ensures
        r == shortcut_spec(c),
{
    if c == 'c' || c == 'C' {
        Some(EditorAction::Copy)
    } else if c == 'x' || c == 'X' {
        Some(EditorAction::Cut)
    } else if c == 'v' || c == 'V' {
        Some(EditorAction::Paste)
    } else if c == 'a' || c == 'A' {
        Some(EditorAction::SelectAll)
    } else {
        None
    }
}

fn command_actions(key: &LogicalKey, shift: bool, out: &mut Vec<EditorAction>)
    ensures
        final(out)@ == old(out)@ + command_actions_spec(*key, shift),
{
    match key {
        LogicalKey::Character(s) => {
            let n = s.as_str().unicode_len();
            if n > 0 {
                let c = s.as_str().get_char(0);
                match shortcut(c) {
                    Some(a) => {
                        out.push(a);
                        assert(out@ =~= old(out)@ + seq![a]);
                    },
                    None => {
                        assert(out@ =~= old(out)@ + Seq::<EditorAction>::empty());
                    },
                }
            } else {
                assert(out@ =~= old(out)@ + Seq::<EditorAction>::empty());
            }
        },
        LogicalKey::ArrowLeft => {
            out.push(EditorAction::MoveWordLeft);
            assert(out@ =~= old(out)@ + seq![EditorAction::MoveWordLeft]);
        },
        LogicalKey::ArrowRight => {
            out.push(EditorAction::MoveWordRight);
            assert(out@ =~= old(out)@ + seq![EditorAction::MoveWordRight]);
        },
        LogicalKey::Home => {
            let a = if shift {
                EditorAction::SelectToTextStart
            } else {
                EditorAction::MoveToTextStart
            };
            out.push(a);
            assert(out@ =~= old(out)@ + seq![a]);
        },
        LogicalKey::End => {
            let a = if shift {
                EditorAction::SelectToTextEnd
            } else {
                EditorAction::MoveToTextEnd
            };
            out.push(a);
            assert(out@ =~= old(out)@ + seq![a]);
        },
        _ => {
            assert(out@ =~= old(out)@ + Seq::<EditorAction>::empty());
        },
    }
}

fn plain_action(key: &LogicalKey, shift: bool) -> (r: Option<EditorAction>)
    ensures
        r matches Some(a) ==> plain_actions_spec(*key, shift) == seq![a],
        r is None ==> plain_actions_spec(*key, shift) == Seq::<EditorAction>::empty(),
{
    match key {
        LogicalKey::Space => Some(EditorAction::InsertSpace),
        LogicalKey::Character(_) => Some(EditorAction::InsertKeyText),
        LogicalKey::ArrowLeft => Some(if shift { EditorAction::SelectLeft } else { EditorAction::MoveLeft }),
        LogicalKey::ArrowRight => Some(if shift { EditorAction::SelectRight } else { EditorAction::MoveRight }),
        LogicalKey::ArrowUp => Some(if shift { EditorAction::SelectUp } else { EditorAction::MoveUp }),
        LogicalKey::ArrowDown => Some(if shift { EditorAction::SelectDown } else { EditorAction::MoveDown }),
        LogicalKey::Backspace => Some(EditorAction::Backdelete),
        LogicalKey::Delete => Some(if shift { EditorAction::DeleteSelection } else { EditorAction::Delete }),
        LogicalKey::Home => Some(if shift { EditorAction::SelectToLineStart } else { EditorAction::MoveToLineStart }),
        LogicalKey::End => Some(if shift { EditorAction::SelectToLineEnd } else { EditorAction::MoveToLineEnd }),
        LogicalKey::Escape => Some(EditorAction::CollapseSelection),
        LogicalKey::Enter => Some(EditorAction::InsertNewline),
        _ => None,
    }
}

/// Handles a keyboard input on the focused text field: updates the tracked modifiers and
/// returns the editing actions, in the order they are to be performed. `macos` tells
/// whether Super acts as the command modifier.
pub fn on_focused_keyboard_input(
    input: &KeyboardInput,
    modifiers: &mut EditorModifiers,
    macos: bool,
) -> (r: Vec<EditorAction>)
    ensures
        *final(modifiers) == modifiers_after(input.logical_key, input.pressed, *old(modifiers), macos),
        r@ == actions_spec(input.logical_key, input.pressed, *old(modifiers), macos),
{
    let mut out: Vec<EditorAction> = Vec::new();
    match &input.logical_key {
        LogicalKey::Shift => {
            modifiers.shift = input.pressed;
            return out;
        },
        LogicalKey::Control => {
            modifiers.command = input.pressed;
            return out;
        },
        LogicalKey::Super => {
            if macos {
                modifiers.command = input.pressed;
                return out;
            }
        },
        _ => {},
    }
    if input.pressed {
        if modifiers.command {
            command_actions(&input.logical_key, modifiers.shift, &mut out);
        }
        let ghost before = out@;
        match plain_action(&input.logical_key, modifiers.shift) {
            Some(a) => {
                out.push(a);
                assert(out@ =~= before + seq![a]);
            },
            None => {
                assert(out@ =~= before + Seq::<EditorAction>::empty());
            },
        }
        proof {
            if !modifiers.command {
                assert(before =~= Seq::<EditorAction>::empty());
                assert(out@ =~= plain_actions_spec(input.logical_key, modifiers.shift));
            } else {
                assert(before =~= command_actions_spec(input.logical_key, modifiers.shift));
            }
        }
    }
    out
}

/// Arrow keys move or select in their own direction: a pressed arrow key yields, as its last
/// action, the move in the arrow's direction, or with shift held the selection in that
/// direction. Up and down yield nothing else; left and right yield, where the command
/// modifier is held, the move by a word in the same direction first.
pub proof fn lemma_arrows_follow_their_direction(m: EditorModifiers, macos: bool)
    ensures
        actions_spec(LogicalKey::ArrowUp, true, m, macos)
            == seq![if m.shift { EditorAction::SelectUp } else { EditorAction::MoveUp }],
        actions_spec(LogicalKey::ArrowDown, true, m, macos)
            == seq![if m.shift { EditorAction::SelectDown } else { EditorAction::MoveDown }],
        actions_spec(LogicalKey::ArrowLeft, true, m, macos)
            == (if m.command { seq![EditorAction::MoveWordLeft] } else { Seq::empty() })
                .push(if m.shift { EditorAction::SelectLeft } else { EditorAction::MoveLeft }),
        actions_spec(LogicalKey::ArrowRight, true, m, macos)
            == (if m.command { seq![EditorAction::MoveWordRight] } else { Seq::empty() })
                .push(if m.shift { EditorAction::SelectRight } else { EditorAction::MoveRight }),
{
    assert(actions_spec(LogicalKey::ArrowUp, true, m, macos)
        =~= seq![if m.shift { EditorAction::SelectUp } else { EditorAction::MoveUp }]);
    assert(actions_spec(LogicalKey::ArrowDown, true, m, macos)
        =~= seq![if m.shift { EditorAction::SelectDown } else { EditorAction::MoveDown }]);
    assert(actions_spec(LogicalKey::ArrowLeft, true, m, macos)
        =~= (if m.command { seq![EditorAction::MoveWordLeft] } else { Seq::empty() })
            .push(if m.shift { EditorAction::SelectLeft } else { EditorAction::MoveLeft }));
    assert(actions_spec(LogicalKey::ArrowRight, true, m, macos)
        =~= (if m.command { seq![EditorAction::MoveWordRight] } else { Seq::empty() })
            .push(if m.shift { EditorAction::SelectRight } else { EditorAction::MoveRight }));
}

/// Releasing a key asks for no action.
pub proof fn lemma_release_asks_nothing(key: LogicalKey, m: EditorModifiers, macos: bool)
    ensures
        actions_spec(key, false, m, macos) == Seq::<EditorAction>::empty(),
{
}

/// The other keys, whatever the modifiers and platform: space, backspace, escape and enter
/// insert a space, delete backwards, collapse the selection and insert a line break; delete
/// deletes forwards, or with shift deletes the selection; home and end move to (or with shift
/// select to) the start and end of the line, preceded where the command modifier is held by
/// the same move or selection to the start or end of the whole text.
pub proof fn lemma_editing_keys(m: EditorModifiers, macos: bool)
    ensures
        actions_spec(LogicalKey::Space, true, m, macos) == seq![EditorAction::InsertSpace],
        actions_spec(LogicalKey::Backspace, true, m, macos) == seq![EditorAction::Backdelete],
        actions_spec(LogicalKey::Escape, true, m, macos) == seq![EditorAction::CollapseSelection],
        actions_spec(LogicalKey::Enter, true, m, macos) == seq![EditorAction::InsertNewline],
        actions_spec(LogicalKey::Delete, true, m, macos)
            == seq![if m.shift { EditorAction::DeleteSelection } else { EditorAction::Delete }],
        actions_spec(LogicalKey::Home, true, m, macos)
            == (if m.command { seq![if m.shift { EditorAction::SelectToTextStart } else { EditorAction::MoveToTextStart }] } else { Seq::empty() })
                .push(if m.shift { EditorAction::SelectToLineStart } else { EditorAction::MoveToLineStart }),
        actions_spec(LogicalKey::End, true, m, macos)
            == (if m.command { seq![if m.shift { EditorAction::SelectToTextEnd } else { EditorAction::MoveToTextEnd }] } else { Seq::empty() })
                .push(if m.shift { EditorAction::SelectToLineEnd } else { EditorAction::MoveToLineEnd }),
        actions_spec(LogicalKey::Other, true, m, macos) == Seq::<EditorAction>::empty(),
{
    assert(actions_spec(LogicalKey::Space, true, m, macos) =~= seq![EditorAction::InsertSpace]);
    assert(actions_spec(LogicalKey::Backspace, true, m, macos) =~= seq![EditorAction::Backdelete]);
    assert(actions_spec(LogicalKey::Escape, true, m, macos) =~= seq![EditorAction::CollapseSelection]);
    assert(actions_spec(LogicalKey::Enter, true, m, macos) =~= seq![EditorAction::InsertNewline]);
    assert(actions_spec(LogicalKey::Delete, true, m, macos)
        =~= seq![if m.shift { EditorAction::DeleteSelection } else { EditorAction::Delete }]);
    assert(actions_spec(LogicalKey::Home, true, m, macos)
        =~= (if m.command { seq![if m.shift { EditorAction::SelectToTextStart } else { EditorAction::MoveToTextStart }] } else { Seq::empty() })
            .push(if m.shift { EditorAction::SelectToLineStart } else { EditorAction::MoveToLineStart }));
    assert(actions_spec(LogicalKey::End, true, m, macos)
        =~= (if m.command { seq![if m.shift { EditorAction::SelectToTextEnd } else { EditorAction::MoveToTextEnd }] } else { Seq::empty() })
            .push(if m.shift { EditorAction::SelectToLineEnd } else { EditorAction::MoveToLineEnd }));
    assert(actions_spec(LogicalKey::Other, true, m, macos) =~= Seq::<EditorAction>::empty());
}

/// A typed character inserts its text; where the command modifier is held and the character
/// is c, x, v or a (in either case), the copy, cut, paste or select-all shortcut comes first.
pub proof fn lemma_typed_characters(text: String, m: EditorModifiers, macos: bool)
    ensures
        !m.command ==> actions_spec(LogicalKey::Character(text), true, m, macos) == seq![EditorAction::InsertKeyText],
        m.command && text@.len() > 0 && (text@[0] == 'c' || text@[0] == 'C')
            ==> actions_spec(LogicalKey::Character(text), true, m, macos) == seq![EditorAction::Copy, EditorAction::InsertKeyText],
        m.command && text@.len() > 0 && (text@[0] == 'x' || text@[0] == 'X')
            ==> actions_spec(LogicalKey::Character(text), true, m, macos) == seq![EditorAction::Cut, EditorAction::InsertKeyText],
        m.command && text@.len() > 0 && (text@[0] == 'v' || text@[0] == 'V')
            ==> actions_spec(LogicalKey::Character(text), true, m, macos) == seq![EditorAction::Paste, EditorAction::InsertKeyText],
        m.command && text@.len() > 0 && (text@[0] == 'a' || text@[0] == 'A')
            ==> actions_spec(LogicalKey::Character(text), true, m, macos) == seq![EditorAction::SelectAll, EditorAction::InsertKeyText],
        m.command && (text@.len() == 0 || !(text@[0] == 'c' || text@[0] == 'C' || text@[0] == 'x' || text@[0] == 'X'
            || text@[0] == 'v' || text@[0] == 'V' || text@[0] == 'a' || text@[0] == 'A'))
            ==> actions_spec(LogicalKey::Character(text), true, m, macos) == seq![EditorAction::InsertKeyText],
{
    let k = LogicalKey::Character(text);
    let a = actions_spec(k, true, m, macos);
    if !m.command {
        assert(a =~= seq![EditorAction::InsertKeyText]);
    } else {
        if text@.len() > 0 {
            let c = text@[0];
            if c == 'c' || c == 'C' {
                assert(a =~= seq![EditorAction::Copy, EditorAction::InsertKeyText]);
            } else if c == 'x' || c == 'X' {
                assert(a =~= seq![EditorAction::Cut, EditorAction::InsertKeyText]);
            } else if c == 'v' || c == 'V' {
                assert(a =~= seq![EditorAction::Paste, EditorAction::InsertKeyText]);
            } else if c == 'a' || c == 'A' {
                assert(a =~= seq![EditorAction::SelectAll, EditorAction::InsertKeyText]);
            } else {
                assert(a =~= seq![EditorAction::InsertKeyText]);
            }
        } else {
            assert(a =~= seq![EditorAction::InsertKeyText]);
        }
    }
}

/// Modifier tracking: pressing or releasing Shift sets the shift flag to whether it is down,
/// Control (and Super on macOS) the command flag, and such a key asks for no action; every
/// other key leaves the flags as they were.
pub proof fn lemma_modifier_tracking(key: LogicalKey, pressed: bool, m: EditorModifiers, macos: bool)
    ensures
        key is Shift ==> modifiers_after(key, pressed, m, macos) == (EditorModifiers { shift: pressed, command: m.command }),
        key is Control || (macos && key is Super)
            ==> modifiers_after(key, pressed, m, macos) == (EditorModifiers { shift: m.shift, command: pressed }),
        key is Shift || key is Control || (macos && key is Super) ==> actions_spec(key, pressed, m, macos) == Seq::<EditorAction>::empty(),
        !(key is Shift || key is Control || (macos && key is Super)) ==> modifiers_after(key, pressed, m, macos) == m,
{
}

} // verus!
