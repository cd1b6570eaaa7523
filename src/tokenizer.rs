//! The command-line tokenizer: a single left-to-right pass over the
//! characters, driven by a small state machine.
use vstd::prelude::*;

use crate::text::{is_whitespace, push_char, white_space};

verus! {

/// Where the scanner stands with respect to the token under construction.
#[derive(Clone, Copy, PartialEq, Eq, Structural)]
pub enum Mode {
    /// No token is open.
    Idle,
    /// A token is open outside any quotes.
    Unquoted,
    /// A token is open inside a span quoted by the given character.
    Quoted(char),
    /// A quoted span has just closed; the token stays open until a boundary.
    Closed,
}

/// The scanner's state as a mathematical value.
pub struct ScanState {
    pub mode: Mode,
    /// The previous character was an unescaped backslash.
    pub escaping: bool,
    /// The token under construction.
    pub buffer: Seq<char>,
    /// The tokens completed so far.
    pub tokens: Seq<Seq<char>>,
}

/// A character that opens or closes a quoted span.
pub open spec fn is_quote(c: char) -> bool {
    c == '\'' || c == '"'
}

/// Nothing read yet.
pub open spec fn initial_state() -> ScanState {
    ScanState { mode: Mode::Idle, escaping: false, buffer: Seq::empty(), tokens: Seq::empty() }
}

/// The state after reading one more character.
pub open spec fn step(st: ScanState, c: char) -> ScanState {
    if st.escaping {
        ScanState {
            mode: if st.mode is Quoted { st.mode } else { Mode::Unquoted },
            escaping: false,
            buffer: st.buffer.push(c),
            ..st
        }
    } else if white_space(c) {
        match st.mode {
            Mode::Idle => st,
            Mode::Quoted(_) => ScanState { buffer: st.buffer.push(c), ..st },
            _ => ScanState {
                mode: Mode::Idle,
                buffer: Seq::empty(),
                tokens: st.tokens.push(st.buffer),
                ..st
            },
        }
    } else if is_quote(c) {
        match st.mode {
            Mode::Quoted(q) => if q == c {
                ScanState { mode: Mode::Closed, ..st }
            } else {
                ScanState { buffer: st.buffer.push(c), ..st }
            },
            _ => ScanState { mode: Mode::Quoted(c), ..st },
        }
    } else if c == '\\' {
        ScanState { escaping: true, ..st }
    } else {
        ScanState {
            mode: if st.mode is Quoted { st.mode } else { Mode::Unquoted },
            buffer: st.buffer.push(c),
            ..st
        }
    }
}

/// The state after reading every character of `s` from `st`.
pub open spec fn scan_from(st: ScanState, s: Seq<char>) -> ScanState
    decreases s.len(),
{
    if s.len() == 0 {
        st
    } else {
        step(scan_from(st, s.drop_last()), s.last())
    }
}

/// The tokens once the input has ended: an open token is flushed, even one
/// whose quote was never closed.
pub open spec fn finish(st: ScanState) -> Seq<Seq<char>> {
    if st.mode is Idle {
        st.tokens
    } else {
        st.tokens.push(st.buffer)
    }
}

/// The tokens of the command line `s`.
pub open spec fn tokens_of(s: Seq<char>) -> Seq<Seq<char>> {
    finish(scan_from(initial_state(), s))
}

/// The character sequences of a list of strings.
pub open spec fn views(v: Seq<String>) -> Seq<Seq<char>> {
    v.map_values(|t: String| t@)
}

/// Splits a command line into tokens, left to right: white space separates
/// them, single and double quotes group characters (white space and the
/// other kind of quote included), a backslash takes the next character
/// literally, and quoted and unquoted fragments with nothing between them
/// join into one token. Quotes with nothing inside give an empty token; a
/// quote left open at the end still yields what it holds. No input is an
/// error.
pub fn command_tokens(cmd: &str) -> (r: Vec<String>)
    ensures
        views(r@) == tokens_of(cmd@),
{
    let mut tokens: Vec<String> = Vec::new();
    let mut buffer = String::new();
    let mut mode = Mode::Idle;
    let mut escaping = false;
    let ghost st0 = initial_state();
    for c in it: cmd.chars()
        invariant
            it.seq() == cmd@,
            ({
                let st = scan_from(st0, cmd@.take(it.index()));
                &&& st.mode == mode
                &&& st.escaping == escaping
                &&& st.buffer == buffer@
                &&& st.tokens == views(tokens@)
            }),
    {
        proof {
            assert(cmd@.take(it.index() + 1).drop_last() =~= cmd@.take(it.index()));
        }
        if escaping {
            escaping = false;
            if !matches!(mode, Mode::Quoted(_)) {
                mode = Mode::Unquoted;
            }
            push_char(&mut buffer, c);
        } else if is_whitespace(c) {
            match mode {
                Mode::Idle => {},
                Mode::Quoted(_) => push_char(&mut buffer, c),
                _ => {
                    tokens.push(buffer);
                    buffer = String::new();
                    mode = Mode::Idle;
                },
            }
        } else if c == '\'' || c == '"' {
            match mode {
                Mode::Quoted(q) => {
                    if q == c {
                        mode = Mode::Closed;
                    } else {
                        push_char(&mut buffer, c);
                    }
                },
                _ => mode = Mode::Quoted(c),
            }
        } else if c == '\\' {
            escaping = true;
        } else {
            if !matches!(mode, Mode::Quoted(_)) {
                mode = Mode::Unquoted;
            }
            push_char(&mut buffer, c);
        }
    }
    proof {
        assert(cmd@.take(cmd@.len() as int) =~= cmd@);
    }
    if mode != Mode::Idle {
        tokens.push(buffer);
    }
    proof {
        assert(views(tokens@) =~= tokens_of(cmd@));
    }
    tokens
}

} // verus!
