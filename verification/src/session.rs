//! The query as it is typed: what each key press does to it, and which
//! key presses end the session.

use vstd::prelude::*;

verus! {

/// A key as the picker tells keys apart.
pub enum Key {
    Char(char),
    Backspace,
    Enter,
    Escape,
    Other,
}

/// What follows a key press.
#[derive(Clone, Copy, Debug, PartialEq, Eq)]
pub enum Step {
    /// The session ends.
    Stop,
    /// The suggestions are worked out anew for the query as it now stands.
    Refresh,
}

/// The character that ends the session when pressed with the control key.
pub const INTERRUPT: char = 'c';

/// The key press ends the session: enter, escape, or the interrupt
/// character with the control key held.
pub open spec fn ends_session(key: Key, control: bool) -> bool {
    match key {
        Key::Enter | Key::Escape => true,
        Key::Char(c) => control && c == INTERRUPT,
        _ => false,
    }
}

/// The query after a key press: a character goes to its end, backspace
/// takes the last one off, and every other key, and every key that ends
/// the session, leaves it as it is.
pub open spec fn typed_after(typed: Seq<char>, key: Key, control: bool) -> Seq<char> {
    if ends_session(key, control) {
        typed
    } else {
        match key {
            Key::Char(c) => typed.push(c),
            Key::Backspace => if typed.len() > 0 {
                typed.drop_last()
            } else {
                typed
            },
            _ => typed,
        }
    }
}

/// Applies a key press to the query.
pub fn press(typed: &mut String, key: Key, control: bool) -> (step: Step)
    ensures
        final(typed)@ == typed_after(old(typed)@, key, control),
        step == (if ends_session(key, control) {
            Step::Stop
        } else {
            Step::Refresh
        }),
{
    match key {
        Key::Enter | Key::Escape => Step::Stop,
        Key::Char(c) => {
            if control && c == INTERRUPT {
                Step::Stop
            } else {
                typed.push(c);
                Step::Refresh
            }
        },
        Key::Backspace => {
            let _ = typed.pop();
            Step::Refresh
        },
        Key::Other => Step::Refresh,
    }
}

} // verus!
