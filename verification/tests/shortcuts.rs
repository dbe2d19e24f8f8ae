use synthia::shortcuts::{shortcut, KeyOutcome, NudgeDirection, Shortcut};

fn outcome(key: &str, command: bool, shift: bool, has_selection: bool) -> KeyOutcome {
    shortcut(key, command, shift, has_selection, false)
}

#[test]
fn escape_clears_the_selection_without_suppressing_the_key() {
    assert_eq!(outcome("Escape", false, false, false), KeyOutcome { shortcut: Some(Shortcut::ClearSelection), prevent_default: false });
}

#[test]
fn delete_and_arrows_need_a_selection() {
    assert_eq!(outcome("Delete", false, false, true), KeyOutcome { shortcut: Some(Shortcut::DeleteSelection), prevent_default: true });
    assert_eq!(outcome("Delete", false, false, false), KeyOutcome { shortcut: None, prevent_default: false });
    assert_eq!(
        outcome("ArrowUp", false, true, true),
        KeyOutcome { shortcut: Some(Shortcut::Nudge { direction: NudgeDirection::Up, large: true }), prevent_default: true }
    );
    assert_eq!(
        outcome("ArrowLeft", false, false, true).shortcut,
        Some(Shortcut::Nudge { direction: NudgeDirection::Left, large: false })
    );
    assert_eq!(outcome("ArrowDown", false, false, false).shortcut, None);
}

#[test]
fn command_letters_ignore_case() {
    assert_eq!(outcome("z", true, false, false).shortcut, Some(Shortcut::Undo));
    assert_eq!(outcome("Z", true, true, false).shortcut, Some(Shortcut::Redo));
    assert_eq!(outcome("v", true, false, false).shortcut, Some(Shortcut::Paste));
    assert_eq!(outcome("G", true, false, false).shortcut, Some(Shortcut::Group));
    assert_eq!(outcome("g", true, true, false).shortcut, Some(Shortcut::Ungroup));
    assert_eq!(outcome("d", true, false, true).shortcut, Some(Shortcut::Duplicate));
    assert_eq!(outcome("d", true, false, false), KeyOutcome { shortcut: None, prevent_default: false });
    assert_eq!(outcome("C", true, false, true).shortcut, Some(Shortcut::Copy));
}

#[test]
fn letters_without_a_command_key_and_other_keys_do_nothing() {
    assert_eq!(outcome("z", false, false, true).shortcut, None);
    assert_eq!(outcome("zz", true, false, true).shortcut, None);
    assert_eq!(outcome("Enter", true, false, true).shortcut, None);
    assert_eq!(shortcut("Delete", false, false, true, true), KeyOutcome { shortcut: None, prevent_default: false });
}
