//! A declarative command-line argument parser: describe commands, flags and
//! positional slots, then turn a token vector into typed values or a precise
//! error. Every function here is verified against its contract; the engine
//! meets [`parser::parse_spec`] exactly, and [`laws`] proves what holds of
//! every parse.
use vstd::prelude::*;

pub mod argument;
pub mod cli;
pub mod command;
pub mod error;
pub mod flag;
pub mod laws;
pub mod number;
pub mod parser;
pub mod text;
pub mod ui;
pub mod values;

pub use argument::{ArgType, Argument};
pub use cli::{App, AppInfo, CLIApp};
pub use command::{Command, PositionalArg};
pub use error::{AppError, CliError, Result};
pub use flag::{Flag, FlagType, FlagValue};
pub use parser::{CLIParser, ParsedArgs};
pub use values::FlagMap;

verus! {

} // verus!
