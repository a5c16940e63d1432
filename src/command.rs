//! The commands of the interactive session that follows a mapping.

use vstd::prelude::*;
use vstd::string::{is_ascii, is_ascii_spec_bytes, StringSliceAdditionalSpecFns};

verus! {

/// A command typed after the mapping is in place.
#[derive(Clone, Copy, PartialEq, Eq, Structural)]
pub enum Command {
    /// Print the state of the mapping.
    State,
    /// Revoke the mapping and leave.
    Close,
    /// Show the list of commands.
    Help,
}

/// The word that names a command.
pub open spec fn name_of(c: Command) -> Seq<char> {
    match c {
        Command::State => "state"@,
        Command::Close => "close"@,
        Command::Help => "help"@,
    }
}

/// The bytes of an ASCII word.
pub open spec fn ascii_bytes(s: Seq<char>) -> Seq<u8> {
    s.map_values(|c: char| c as u8)
}

/// The command that the bytes `w` name, if any.
pub open spec fn command_named(w: Seq<u8>) -> Option<Command> {
    if w == ascii_bytes(name_of(Command::State)) {
        Some(Command::State)
    } else if w == ascii_bytes(name_of(Command::Close)) {
        Some(Command::Close)
    } else if w == ascii_bytes(name_of(Command::Help)) {
        Some(Command::Help)
    } else {
        None
    }
}

fn bytes_equal(x: &[u8], y: &[u8]) -> (r: bool)
    ensures
        r == (x@ == y@),
{
    if x.len() != y.len() {
        return false;
    }
    let mut i: usize = 0;
    while i < x.len()
        invariant
            i <= x@.len() == y@.len(),
            forall|j: int| 0 <= j < i ==> x@[j] == y@[j],
        decreases x.len() - i,
    {
        if x[i] != y[i] {
            return false;
        }
        i = i + 1;
    }
    assert(x@ =~= y@);
    true
}

impl Command {
    /// The word that names the command.
    pub fn name(&self) -> (r: &'static str)
        ensures
            r@ == name_of(*self),
            is_ascii(r),
            r.spec_bytes() == ascii_bytes(name_of(*self)),
    {
        let r = match self {
            Command::State => "state",
            Command::Close => "close",
            Command::Help => "help",
        };
        proof {
            reveal_strlit("state");
            reveal_strlit("close");
            reveal_strlit("help");
            is_ascii_spec_bytes(r);
            assert(r.spec_bytes() =~= ascii_bytes(name_of(*self)));
        }
        r
    }

    /// What the command does.
    pub fn explanation(&self) -> (r: &'static str)
        ensures
            *self == Command::State ==> r@ == "prints the state of the mapping"@,
            *self == Command::Close ==> r@ == "covers the hole"@,
            *self == Command::Help ==> r@ == "shows this list"@,
    {
        match self {
            Command::State => "prints the state of the mapping",
            Command::Close => "covers the hole",
            Command::Help => "shows this list",
        }
    }

    /// The command that `word` names exactly, if any.
    pub fn parse(word: &str) -> (r: Option<Command>)
        ensures
            r == command_named(word.spec_bytes()),
    {
        let w = word.as_bytes();
        if bytes_equal(w, Command::State.name().as_bytes()) {
            Some(Command::State)
        } else if bytes_equal(w, Command::Close.name().as_bytes()) {
            Some(Command::Close)
        } else if bytes_equal(w, Command::Help.name().as_bytes()) {
            Some(Command::Help)
        } else {
            None
        }
    }
}

} // verus!
