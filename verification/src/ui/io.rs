use vstd::prelude::*;

use crate::entry::Entry;

verus! {

/// What the interface is asked to do.
#[derive(Debug, Clone, PartialEq, Eq)]
pub enum Action {
    Exit,
    MoveDown,
    MoveUp,
    SwapEntryUp,
    SwapEntryDown,
    NextPage,
    PreviousPage,
    DeleteSelectedEntry,
    SyncEntries { entries: Vec<Entry> },
    Resize { y_size: u16, x_size: u16 },
    JumpDown,
    JumpUp,
    JumpToTop,
    JumpToBottom,
}

/// The key of a key press, as far as the interface tells keys apart.
#[derive(Debug, Clone, Copy, PartialEq, Eq)]
pub enum KeyInput {
    Esc,
    Char(char),
    Down,
    Up,
    Other,
}

/// The modifier bit of the control key, as the terminal reports it.
pub const CONTROL_BITS: u8 = 0b0000_0010;

/// A key press: the key, and the set of modifier keys held, as bits.
#[derive(Debug, Clone, Copy, PartialEq, Eq)]
pub struct KeyPress {
    pub code: KeyInput,
    pub modifiers: u8,
}

/// The kind of a mouse event, as far as the interface tells them apart.
#[derive(Debug, Clone, Copy, PartialEq, Eq)]
pub enum MouseInput {
    ScrollDown,
    ScrollUp,
    Other,
}

/// The action that a key press asks for: `q` or Escape quits, as does
/// Control-C; Control-D and Control-U jump down and up; `G` and `g` jump to the
/// bottom and the top; `j` or Down and `k` or Up move; `h` and `l` move the
/// selected entry up and down; `d` deletes. Other keys ask for nothing.
pub open spec fn key_action(k: KeyPress) -> Result<Action, ()> {
    let control = k.modifiers == CONTROL_BITS;
    match k.code {
        KeyInput::Esc => Ok(Action::Exit),
        KeyInput::Char(c) => {
            if c == 'q' {
                Ok(Action::Exit)
            } else if c == 'c' && control {
                Ok(Action::Exit)
            } else if c == 'd' && control {
                Ok(Action::JumpDown)
            } else if c == 'u' && control {
                Ok(Action::JumpUp)
            } else if c == 'G' {
                Ok(Action::JumpToBottom)
            } else if c == 'g' {
                Ok(Action::JumpToTop)
            } else if c == 'j' {
                Ok(Action::MoveDown)
            } else if c == 'k' {
                Ok(Action::MoveUp)
            } else if c == 'h' {
                Ok(Action::SwapEntryUp)
            } else if c == 'l' {
                Ok(Action::SwapEntryDown)
            } else if c == 'd' {
                Ok(Action::DeleteSelectedEntry)
            } else {
                Err(())
            }
        },
        KeyInput::Down => Ok(Action::MoveDown),
        KeyInput::Up => Ok(Action::MoveUp),
        KeyInput::Other => Err(()),
    }
}

/// The action that a mouse event asks for: scrolling moves the selection.
pub open spec fn mouse_action(m: MouseInput) -> Result<Action, ()> {
    match m {
        MouseInput::ScrollDown => Ok(Action::MoveDown),
        MouseInput::ScrollUp => Ok(Action::MoveUp),
        MouseInput::Other => Err(()),
    }
}

/// A character key asks for the same action whatever modifiers are held,
/// except for `c`, `d` and `u`, which Control changes: so a capital `G`, which
/// arrives with Shift held, still jumps to the bottom.
pub proof fn modifiers_matter_only_with_control(ch: char, m: u8)
    requires
        ch != 'c' && ch != 'd' && ch != 'u',
    ensures
        key_action((KeyPress { code: KeyInput::Char(ch), modifiers: m })) == key_action(
            (KeyPress { code: KeyInput::Char(ch), modifiers: 0 }),
        ),
{
}

/// The key bindings, for every set of modifiers `m`: Escape and `q` quit, `G`
/// and `g` jump to the bottom and the top, `j` or Down and `k` or Up move the
/// selection, `h` and `l` move the selected entry; with Control alone, `c`
/// quits and `d` and `u` jump down and up, while otherwise `d` deletes and `c`
/// and `u` ask for nothing; scrolling the mouse moves the selection.
pub proof fn key_bindings(m: u8)
    ensures
        key_action((KeyPress { code: KeyInput::Esc, modifiers: m })) == Ok::<Action, ()>(
            Action::Exit,
        ),
        key_action((KeyPress { code: KeyInput::Char('q'), modifiers: m })) == Ok::<Action, ()>(
            Action::Exit,
        ),
        key_action((KeyPress { code: KeyInput::Char('G'), modifiers: m })) == Ok::<Action, ()>(
            Action::JumpToBottom,
        ),
        key_action((KeyPress { code: KeyInput::Char('g'), modifiers: m })) == Ok::<Action, ()>(
            Action::JumpToTop,
        ),
        key_action((KeyPress { code: KeyInput::Char('j'), modifiers: m })) == Ok::<Action, ()>(
            Action::MoveDown,
        ),
        key_action((KeyPress { code: KeyInput::Down, modifiers: m })) == Ok::<Action, ()>(
            Action::MoveDown,
        ),
        key_action((KeyPress { code: KeyInput::Char('k'), modifiers: m })) == Ok::<Action, ()>(
            Action::MoveUp,
        ),
        key_action((KeyPress { code: KeyInput::Up, modifiers: m })) == Ok::<Action, ()>(
            Action::MoveUp,
        ),
        key_action((KeyPress { code: KeyInput::Char('h'), modifiers: m })) == Ok::<Action, ()>(
            Action::SwapEntryUp,
        ),
        key_action((KeyPress { code: KeyInput::Char('l'), modifiers: m })) == Ok::<Action, ()>(
            Action::SwapEntryDown,
        ),
        key_action((KeyPress { code: KeyInput::Char('c'), modifiers: m })) == if m
            == CONTROL_BITS {
            Ok::<Action, ()>(Action::Exit)
        } else {
            Err(())
        },
        key_action((KeyPress { code: KeyInput::Char('d'), modifiers: m })) == if m
            == CONTROL_BITS {
            Ok::<Action, ()>(Action::JumpDown)
        } else {
            Ok(Action::DeleteSelectedEntry)
        },
        key_action((KeyPress { code: KeyInput::Char('u'), modifiers: m })) == if m
            == CONTROL_BITS {
            Ok::<Action, ()>(Action::JumpUp)
        } else {
            Err(())
        },
        key_action((KeyPress { code: KeyInput::Other, modifiers: m })) == Err::<Action, ()>(()),
        mouse_action(MouseInput::ScrollDown) == Ok::<Action, ()>(Action::MoveDown),
        mouse_action(MouseInput::ScrollUp) == Ok::<Action, ()>(Action::MoveUp),
        mouse_action(MouseInput::Other) == Err::<Action, ()>(()),
{
}

impl KeyPress {
    /// The action this key press asks for, if any.
    pub fn to_action(&self) -> (r: Result<Action, ()>)
        ensures
            r == key_action(*self),
    {
        let control = self.modifiers == CONTROL_BITS;
        match self.code {
            KeyInput::Esc => Ok(Action::Exit),
            KeyInput::Char(c) => {
                if c == 'q' {
                    Ok(Action::Exit)
                } else if c == 'c' && control {
                    Ok(Action::Exit)
                } else if c == 'd' && control {
                    Ok(Action::JumpDown)
                } else if c == 'u' && control {
                    Ok(Action::JumpUp)
                } else if c == 'G' {
                    Ok(Action::JumpToBottom)
                } else if c == 'g' {
                    Ok(Action::JumpToTop)
                } else if c == 'j' {
                    Ok(Action::MoveDown)
                } else if c == 'k' {
                    Ok(Action::MoveUp)
                } else if c == 'h' {
                    Ok(Action::SwapEntryUp)
                } else if c == 'l' {
                    Ok(Action::SwapEntryDown)
                } else if c == 'd' {
                    Ok(Action::DeleteSelectedEntry)
                } else {
                    Err(())
                }
            },
            KeyInput::Down => Ok(Action::MoveDown),
            KeyInput::Up => Ok(Action::MoveUp),
            KeyInput::Other => Err(()),
        }
    }
}

impl MouseInput {
    /// The action this mouse event asks for, if any.
    pub fn to_action(&self) -> (r: Result<Action, ()>)
        ensures
            r == mouse_action(*self),
    {
        match self {
            MouseInput::ScrollDown => Ok(Action::MoveDown),
            MouseInput::ScrollUp => Ok(Action::MoveUp),
            MouseInput::Other => Err(()),
        }
    }
}

} // verus!
