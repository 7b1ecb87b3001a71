//! The command line of a child process.

use vstd::prelude::*;
use crate::text::{tokens, split_whitespace};

verus! {

/// Why a command line names no program.
#[derive(Clone, Copy, Debug, PartialEq, Eq, Structural)]
pub enum CommandError {
    /// The command line holds no word.
    Empty,
}

/// The program and the arguments of a command line: its first word, and the
/// words after it.
pub fn parse_command_str<'a>(command: &'a str) -> (r: Result<
    (&'a str, Vec<&'a str>),
    CommandError,
>)
    ensures
        match r {
            Ok((program, args)) => {
                &&& tokens(command@).len() > 0
                &&& program@ == tokens(command@)[0]
                &&& args@.len() == tokens(command@).len() - 1
                &&& forall|j: int| 0 <= j < args@.len() ==> (#[trigger] args@[j])@ == tokens(command@)[j + 1]
            },
            Err(e) => tokens(command@).len() == 0,
        },
{
    let mut args = split_whitespace(command);
    if args.len() == 0 {
        return Err(CommandError::Empty);
    }
    let ghost all = args@;
    let program = args.remove(0);
    assert forall|j: int| 0 <= j < args@.len() implies (#[trigger] args@[j])@ == tokens(command@)[j
        + 1] by {
        assert(args@[j] == all[j + 1]);
    }
    Ok((program, args))
}

} // verus!
