//! The chat client's state: the messages received so far and the line being
//! typed, and how key presses change it.

use vstd::prelude::*;
use vstd::string::*;

verus! {

/// Relies on String::push: appends the character.
#[verifier::external_body]
fn push_char(s: &mut String, c: char)
    ensures
        final(s)@ == old(s)@.push(c),
{
    s.push(c)
}

/// Removes and returns the last character, or returns `None` and leaves an
/// empty string as it is.
fn pop_char(s: &mut String) -> (r: Option<char>)
    ensures
        old(s)@.len() == 0 ==> r is None && final(s)@ == old(s)@,
        old(s)@.len() > 0 ==> r == Some(old(s)@.last()) && final(s)@ == old(s)@.drop_last(),
{
    let n = s.as_str().unicode_len();
    if n == 0 {
        return None;
    }
    let c = s.as_str().get_char(n - 1);
    let rest = s.as_str().substring_char(0, n - 1).to_owned();
    *s = rest;
    assert(final(s)@ =~= old(s)@.drop_last());
    Some(c)
}

/// A key as the terminal reports it, before modifiers are applied.
#[derive(PartialEq, Eq, Structural, Clone, Copy, Debug)]
pub enum KeyPress {
    Char(char),
    Enter,
    Backspace,
    Left,
    Right,
    Esc,
    Other,
}

/// A key with its modifiers folded in.
#[derive(PartialEq, Eq, Structural, Clone, Copy, Debug)]
pub enum Key {
    Char(char),
    Enter,
    Backspace,
    Left,
    Right,
    Esc,
    Ctrl(char),
    Alt(char),
    Null,
}

/// A key press with the modifiers that were held.
#[derive(PartialEq, Eq, Structural, Clone, Copy, Debug)]
pub struct Input {
    pub key: Key,
    pub ctrl: bool,
    pub alt: bool,
}

/// The key for a press: a character under Control or Alt becomes a control
/// or alt key, Control first.
pub open spec fn key_of(code: KeyPress, ctrl: bool, alt: bool) -> Key {
    match code {
        KeyPress::Char(c) => if ctrl { Key::Ctrl(c) } else if alt { Key::Alt(c) } else { Key::Char(c) },
        KeyPress::Enter => Key::Enter,
        KeyPress::Backspace => Key::Backspace,
        KeyPress::Left => Key::Left,
        KeyPress::Right => Key::Right,
        KeyPress::Esc => Key::Esc,
        KeyPress::Other => Key::Null,
    }
}

impl Input {
    /// The input for a press of `code` with the given modifiers.
    pub fn from_press(code: KeyPress, ctrl: bool, alt: bool) -> (r: Input)
        ensures
            r.key == key_of(code, ctrl, alt),
            r.ctrl == ctrl,
            r.alt == alt,
    {
        let key = match code {
            KeyPress::Char(c) => if ctrl {
                Key::Ctrl(c)
            } else if alt {
                Key::Alt(c)
            } else {
                Key::Char(c)
            },
            KeyPress::Enter => Key::Enter,
            KeyPress::Backspace => Key::Backspace,
            KeyPress::Left => Key::Left,
            KeyPress::Right => Key::Right,
            KeyPress::Esc => Key::Esc,
            KeyPress::Other => Key::Null,
        };
        Input { key, ctrl, alt }
    }
}

/// What the client does after a key.
#[derive(PartialEq, Eq, Clone, Debug)]
pub enum ClientStep {
    /// Nothing beyond redrawing.
    Continue,
    /// Send this line to the server.
    Send(String),
    /// Leave.
    Quit,
}

/// The client's screen state.
pub struct App {
    pub messages: Vec<String>,
    pub input: String,
}

impl App {
    /// No messages and an empty input line.
    pub fn new() -> (r: App)
        ensures
            r.messages@.len() == 0,
            r.input@.len() == 0,
    {
        App { messages: Vec::new(), input: String::new() }
    }

    /// Adds a message received from the server.
    pub fn push_message(&mut self, message: String)
        ensures
            final(self).messages@ == old(self).messages@.push(message),
            final(self).input == old(self).input,
    {
        self.messages.push(message);
    }

    /// Applies a key: characters are typed, Backspace deletes the last one,
    /// Enter hands over a non-empty line and clears it, Esc leaves.
    pub fn handle_key(&mut self, key: Key) -> (r: ClientStep)
        ensures
            final(self).messages == old(self).messages,
            match key {
                Key::Char(c) => final(self).input@ == old(self).input@.push(c) && r is Continue,
                Key::Backspace => final(self).input@ == (if old(self).input@.len() == 0 {
                    old(self).input@
                } else {
                    old(self).input@.drop_last()
                }) && r is Continue,
                Key::Enter => if old(self).input@.len() == 0 {
                    final(self).input@ == old(self).input@ && r is Continue
                } else {
                    final(self).input@.len() == 0 && (r matches ClientStep::Send(l) && l@ == old(self).input@)
                },
                Key::Esc => final(self).input == old(self).input && r is Quit,
                _ => final(self).input == old(self).input && r is Continue,
            },
    {
        match key {
            Key::Char(c) => {
                push_char(&mut self.input, c);
                ClientStep::Continue
            },
            Key::Backspace => {
                pop_char(&mut self.input);
                ClientStep::Continue
            },
            Key::Enter => {
                if self.input.as_str().unicode_len() == 0 {
                    ClientStep::Continue
                } else {
                    let line = self.input.clone();
                    self.input = String::new();
                    ClientStep::Send(line)
                }
            },
            Key::Esc => ClientStep::Quit,
            _ => ClientStep::Continue,
        }
    }
}

} // verus!
