//! Keyboard shortcuts on the canvas: which key, with which modifiers, asks
//! for what. The application reads the key event, asks `shortcut`, and
//! dispatches the matching action (working out nudge distances itself).

use vstd::prelude::*;

use crate::text::chars_of;

verus! {

#[derive(Clone, Copy, Debug, PartialEq, Eq, Structural)]
pub enum NudgeDirection {
    Left,
    Right,
    Up,
    Down,
}

#[derive(Clone, Copy, Debug, PartialEq, Eq, Structural)]
pub enum Shortcut {
    ClearSelection,
    DeleteSelection,
    /// Move the selection one step (ten with Shift) in a direction.
    Nudge { direction: NudgeDirection, large: bool },
    Undo,
    Redo,
    Duplicate,
    Copy,
    Paste,
    Group,
    Ungroup,
}

/// What a key press asks for, and whether the browser's own handling of it
/// is to be suppressed.
#[derive(Clone, Copy, Debug, PartialEq, Eq, Structural)]
pub struct KeyOutcome {
    pub shortcut: Option<Shortcut>,
    pub prevent_default: bool,
}

/// ASCII letters in lower case, every other character as it is.
pub open spec fn ascii_lower(c: char) -> char {
    if 'A' <= c <= 'Z' {
        ((c as u32) + 32) as char
    } else {
        c
    }
}

/// `key` is `letter` (a lower-case ASCII letter) in either case.
pub open spec fn is_letter_key(key: Seq<char>, letter: char) -> bool {
    key.len() == 1 && ascii_lower(key[0]) == letter
}

/// The outcome of pressing `key` (as the browser names it) with Ctrl or
/// Cmd (`command`) and Shift held or not, while `has_selection` says
/// whether anything is selected. Keys typed into a text field are never
/// shortcuts.
pub open spec fn key_outcome(key: Seq<char>, command: bool, shift: bool, has_selection: bool, in_text_field: bool) -> KeyOutcome {
    let none = KeyOutcome { shortcut: None, prevent_default: false };
    let arrow = if key == "ArrowLeft"@ {
        Some(NudgeDirection::Left)
    } else if key == "ArrowRight"@ {
        Some(NudgeDirection::Right)
    } else if key == "ArrowUp"@ {
        Some(NudgeDirection::Up)
    } else if key == "ArrowDown"@ {
        Some(NudgeDirection::Down)
    } else {
        None
    };
    if in_text_field {
        none
    } else if key == "Escape"@ {
        KeyOutcome { shortcut: Some(Shortcut::ClearSelection), prevent_default: false }
    } else if key == "Delete"@ {
        if has_selection {
            KeyOutcome { shortcut: Some(Shortcut::DeleteSelection), prevent_default: true }
        } else {
            none
        }
    } else if arrow is Some {
        if has_selection {
            KeyOutcome { shortcut: Some(Shortcut::Nudge { direction: arrow->0, large: shift }), prevent_default: true }
        } else {
            none
        }
    } else if command && is_letter_key(key, 'z') {
        KeyOutcome { shortcut: Some(if shift { Shortcut::Redo } else { Shortcut::Undo }), prevent_default: true }
    } else if command && is_letter_key(key, 'd') {
        if has_selection {
            KeyOutcome { shortcut: Some(Shortcut::Duplicate), prevent_default: true }
        } else {
            none
        }
    } else if command && is_letter_key(key, 'c') {
        if has_selection {
            KeyOutcome { shortcut: Some(Shortcut::Copy), prevent_default: true }
        } else {
            none
        }
    } else if command && is_letter_key(key, 'v') {
        KeyOutcome { shortcut: Some(Shortcut::Paste), prevent_default: true }
    } else if command && is_letter_key(key, 'g') {
        KeyOutcome { shortcut: Some(if shift { Shortcut::Ungroup } else { Shortcut::Group }), prevent_default: true }
    } else {
        none
    }
}

fn lower_of(c: char) -> (l: char)
    ensures
        l == ascii_lower(c),
{
    if 'A' <= c && c <= 'Z' {
        ((c as u32) + 32) as u8 as char
    } else {
        c
    }
}

/// Whether `key` is exactly the characters of `name`.
fn key_is(key: &Vec<char>, name: &str) -> (b: bool)
    ensures
        b == (key@ == name@),
{
    let n = chars_of(name);
    if n.len() != key.len() {
        return false;
    }
    let mut i: usize = 0;
    while i < n.len()
        invariant
            n@ == name@,
            n.len() == key.len(),
            i <= n.len(),
            forall|j: int| 0 <= j < i ==> key@[j] == n@[j],
        decreases n.len() - i,
    {
        if key[i] != n[i] {
            return false;
        }
        i += 1;
    }
    assert(key@ =~= n@);
    true
}

/// The shortcut a key press asks for; see `key_outcome`.
pub fn shortcut(key: &str, command: bool, shift: bool, has_selection: bool, in_text_field: bool) -> (outcome: KeyOutcome)
    ensures
        outcome == key_outcome(key@, command, shift, has_selection, in_text_field),
{
    let none = KeyOutcome { shortcut: None, prevent_default: false };
    let k = chars_of(key);
    let letter = if k.len() == 1 { Some(lower_of(k[0])) } else { None };
    let arrow = if key_is(&k, "ArrowLeft") {
        Some(NudgeDirection::Left)
    } else if key_is(&k, "ArrowRight") {
        Some(NudgeDirection::Right)
    } else if key_is(&k, "ArrowUp") {
        Some(NudgeDirection::Up)
    } else if key_is(&k, "ArrowDown") {
        Some(NudgeDirection::Down)
    } else {
        None
    };
    if in_text_field {
        none
    } else if key_is(&k, "Escape") {
        KeyOutcome { shortcut: Some(Shortcut::ClearSelection), prevent_default: false }
    } else if key_is(&k, "Delete") {
        if has_selection {
            KeyOutcome { shortcut: Some(Shortcut::DeleteSelection), prevent_default: true }
        } else {
            none
        }
    } else if let Some(direction) = arrow {
        if has_selection {
            KeyOutcome { shortcut: Some(Shortcut::Nudge { direction, large: shift }), prevent_default: true }
        } else {
            none
        }
    } else if command && letter == Some('z') {
        KeyOutcome { shortcut: Some(if shift { Shortcut::Redo } else { Shortcut::Undo }), prevent_default: true }
    } else if command && letter == Some('d') {
        if has_selection {
            KeyOutcome { shortcut: Some(Shortcut::Duplicate), prevent_default: true }
        } else {
            none
        }
    } else if command && letter == Some('c') {
        if has_selection {
            KeyOutcome { shortcut: Some(Shortcut::Copy), prevent_default: true }
        } else {
            none
        }
    } else if command && letter == Some('v') {
        KeyOutcome { shortcut: Some(Shortcut::Paste), prevent_default: true }
    } else if command && letter == Some('g') {
        KeyOutcome { shortcut: Some(if shift { Shortcut::Ungroup } else { Shortcut::Group }), prevent_default: true }
    } else {
        none
    }
}


/// With something selected and outside a text field, each arrow key nudges
/// the selection its own way (Left, Right, Up, Down), one step or, with
/// Shift, ten; the browser's own scrolling is suppressed. Ctrl or Cmd makes
/// no difference. Without a selection an arrow key does nothing.
pub proof fn lemma_arrow_keys_nudge(command: bool, shift: bool)
    ensures
        key_outcome("ArrowLeft"@, command, shift, true, false) == (KeyOutcome {
            shortcut: Some(Shortcut::Nudge { direction: NudgeDirection::Left, large: shift }),
            prevent_default: true,
        }),
        key_outcome("ArrowRight"@, command, shift, true, false) == (KeyOutcome {
            shortcut: Some(Shortcut::Nudge { direction: NudgeDirection::Right, large: shift }),
            prevent_default: true,
        }),
        key_outcome("ArrowUp"@, command, shift, true, false) == (KeyOutcome {
            shortcut: Some(Shortcut::Nudge { direction: NudgeDirection::Up, large: shift }),
            prevent_default: true,
        }),
        key_outcome("ArrowDown"@, command, shift, true, false) == (KeyOutcome {
            shortcut: Some(Shortcut::Nudge { direction: NudgeDirection::Down, large: shift }),
            prevent_default: true,
        }),
        key_outcome("ArrowLeft"@, command, shift, false, false).shortcut is None,
        key_outcome("ArrowRight"@, command, shift, false, false).shortcut is None,
        key_outcome("ArrowUp"@, command, shift, false, false).shortcut is None,
        key_outcome("ArrowDown"@, command, shift, false, false).shortcut is None,
{
    reveal_strlit("ArrowLeft");
    reveal_strlit("ArrowRight");
    reveal_strlit("ArrowUp");
    reveal_strlit("ArrowDown");
    reveal_strlit("Escape");
    reveal_strlit("Delete");
    assert("ArrowLeft"@ != "ArrowRight"@) by {
        assert("ArrowLeft"@[5] != "ArrowRight"@[5]);
    }
    assert("ArrowLeft"@ != "ArrowDown"@) by {
        assert("ArrowLeft"@[5] != "ArrowDown"@[5]);
    }
    assert("ArrowRight"@ != "ArrowDown"@) by {
        assert("ArrowRight"@.len() != "ArrowDown"@.len());
    }
    assert("ArrowRight"@ != "ArrowUp"@) by {
        assert("ArrowRight"@.len() != "ArrowUp"@.len());
    }
    assert("ArrowLeft"@ != "ArrowUp"@) by {
        assert("ArrowLeft"@.len() != "ArrowUp"@.len());
    }
    assert("ArrowUp"@ != "ArrowDown"@) by {
        assert("ArrowUp"@.len() != "ArrowDown"@.len());
    }
    assert("ArrowLeft"@ != "Escape"@ && "ArrowRight"@ != "Escape"@ && "ArrowUp"@ != "Escape"@ && "ArrowDown"@ != "Escape"@) by {
        assert("ArrowLeft"@[0] != "Escape"@[0]);
        assert("ArrowRight"@[0] != "Escape"@[0]);
        assert("ArrowUp"@[0] != "Escape"@[0]);
        assert("ArrowDown"@[0] != "Escape"@[0]);
    }
    assert("ArrowLeft"@ != "Delete"@ && "ArrowRight"@ != "Delete"@ && "ArrowUp"@ != "Delete"@ && "ArrowDown"@ != "Delete"@) by {
        assert("ArrowLeft"@[0] != "Delete"@[0]);
        assert("ArrowRight"@[0] != "Delete"@[0]);
        assert("ArrowUp"@[0] != "Delete"@[0]);
        assert("ArrowDown"@[0] != "Delete"@[0]);
    }
}

/// A key typed into a text field is never a shortcut, whatever it is.
pub proof fn lemma_text_field_keys_are_not_shortcuts(key: Seq<char>, command: bool, shift: bool, has_selection: bool)
    ensures
        key_outcome(key, command, shift, has_selection, true) == (KeyOutcome { shortcut: None, prevent_default: false }),
{
}

/// With Ctrl or Cmd, Z undoes and Shift+Z redoes, D duplicates, C copies,
/// V pastes, G groups and Shift+G ungroups, whichever case the letter
/// comes in; duplicate and copy only with a selection.
pub proof fn lemma_command_letters(c: char, shift: bool, has_selection: bool)
    requires
        'a' <= c <= 'z',
    ensures
        ({
            let upper = ((c as u32) - 32) as char;
            &&& key_outcome(seq![c], true, shift, has_selection, false) == key_outcome(seq![upper], true, shift, has_selection, false)
            &&& c == 'z' ==> key_outcome(seq![c], true, shift, has_selection, false).shortcut == Some(
                if shift { Shortcut::Redo } else { Shortcut::Undo },
            )
            &&& c == 'g' ==> key_outcome(seq![c], true, shift, has_selection, false).shortcut == Some(
                if shift { Shortcut::Ungroup } else { Shortcut::Group },
            )
            &&& c == 'v' ==> key_outcome(seq![c], true, shift, has_selection, false).shortcut == Some(Shortcut::Paste)
            &&& c == 'd' ==> key_outcome(seq![c], true, shift, has_selection, false).shortcut == (if has_selection {
                Some(Shortcut::Duplicate)
            } else {
                None
            })
            &&& c == 'c' ==> key_outcome(seq![c], true, shift, has_selection, false).shortcut == (if has_selection {
                Some(Shortcut::Copy)
            } else {
                None
            })
            &&& key_outcome(seq![c], false, shift, has_selection, false).shortcut is None
        }),
{
    reveal_strlit("ArrowLeft");
    reveal_strlit("ArrowRight");
    reveal_strlit("ArrowUp");
    reveal_strlit("ArrowDown");
    reveal_strlit("Escape");
    reveal_strlit("Delete");
    let upper = ((c as u32) - 32) as char;
    assert(seq![c].len() == 1 && seq![upper].len() == 1);
    assert(seq![c] != "ArrowLeft"@ && seq![c] != "ArrowRight"@ && seq![c] != "ArrowUp"@ && seq![c] != "ArrowDown"@);
    assert(seq![c] != "Escape"@ && seq![c] != "Delete"@);
    assert(seq![upper] != "ArrowLeft"@ && seq![upper] != "ArrowRight"@ && seq![upper] != "ArrowUp"@ && seq![upper] != "ArrowDown"@);
    assert(seq![upper] != "Escape"@ && seq![upper] != "Delete"@);
    assert(ascii_lower(upper) == c);
    assert(ascii_lower(c) == c);
}


/// Outside a text field, Escape clears the selection (leaving the browser's
/// own handling alone), and Delete deletes the selection when there is one.
pub proof fn lemma_escape_and_delete(command: bool, shift: bool, has_selection: bool)
    ensures
        key_outcome("Escape"@, command, shift, has_selection, false) == (KeyOutcome {
            shortcut: Some(Shortcut::ClearSelection),
            prevent_default: false,
        }),
        has_selection ==> key_outcome("Delete"@, command, shift, has_selection, false) == (KeyOutcome {
            shortcut: Some(Shortcut::DeleteSelection),
            prevent_default: true,
        }),
        !has_selection ==> key_outcome("Delete"@, command, shift, has_selection, false).shortcut is None,
{
    reveal_strlit("Escape");
    reveal_strlit("Delete");
    assert("Escape"@ != "Delete"@) by {
        assert("Escape"@[0] != "Delete"@[0]);
    }
}

} // verus!
