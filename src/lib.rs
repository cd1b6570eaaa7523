//! Shell-like splitting of a command line into program name and arguments.
pub mod command;
pub mod quoting;
pub mod text;
pub mod tokenizer;

pub use command::{exit_status_matches, program_and_args};
pub use tokenizer::command_tokens;
