//! What a process launcher needs from a command line or from a finished
//! process, as plain values.
use vstd::prelude::*;

use crate::tokenizer::{command_tokens, tokens_of, views};

verus! {

/// Splits a command line into the program to run and its arguments: the
/// first token names the program and the others are its arguments. A line
/// with no token gives an empty program name and no arguments.
pub fn program_and_args(cmd: &str) -> (r: (String, Vec<String>))
    ensures
        tokens_of(cmd@).len() == 0 ==> r.0@.len() == 0 && r.1@.len() == 0,
        tokens_of(cmd@).len() > 0 ==> r.0@ == tokens_of(cmd@)[0] && views(r.1@)
            == tokens_of(cmd@).drop_first(),
{
    let mut tokens = command_tokens(cmd);
    if tokens.len() == 0 {
        (String::new(), tokens)
    } else {
        let ghost before = tokens@;
        let program = tokens.remove(0);
        proof {
            assert(views(tokens@) =~= views(before).drop_first());
        }
        (program, tokens)
    }
}

/// Whether a process ended with the expected exit code; a process that
/// ended without a code (stopped by a signal) never does.
pub fn exit_status_matches(code: Option<i32>, expected: i32) -> (r: bool)
    ensures
        r == (code == Some(expected)),
{
    match code {
        Some(c) => c == expected,
        None => false,
    }
}

} // verus!
