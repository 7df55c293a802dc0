//! The closed set of failures that parsing and validation report.
use vstd::prelude::*;

verus! {

/// A failure of parsing or of validating a command tree.
#[derive(Debug, Clone, PartialEq, Eq)]
pub enum AppError {
    /// A bare token names no subcommand and no positional slot takes it.
    CommandNotFound { command: String },
    /// A subcommand name that the tree does not hold.
    SubcommandNotFound { subcommand: String },
    /// A required flag without a default was not given.
    RequiredFlagNotProvided { flag: String },
    /// `--name` or `-c` names no flag of the command.
    UnknownFlag { flag: String },
    /// A value that the flag's type or allow-list refuses.
    InvalidFlagValue { flag: String, value: String, expected: String },
    /// A flag that takes a value ended the tokens.
    FlagValueMissing { flag: String },
    /// More positional tokens than declared slots.
    TooManyArguments,
    /// Fewer positional tokens than required slots.
    NotEnoughArguments { expected: usize, received: usize },
    /// A failure to read or write, described.
    IoError(String),
    /// An internal inconsistency, such as merging lists of different kinds.
    ParseError { message: String },
    /// A command tree that breaks its own rules.
    ConfigurationError { message: String },
}

impl AppError {
    /// Whether the failure is one that pointing the user to `--help` helps
    /// with: an unknown command, subcommand or flag.
    pub fn suggests_help(&self) -> (r: bool)
        ensures
            r == (self is CommandNotFound || self is SubcommandNotFound || self is UnknownFlag),
    {
        match self {
            AppError::CommandNotFound { .. } => true,
            AppError::SubcommandNotFound { .. } => true,
            AppError::UnknownFlag { .. } => true,
            _ => false,
        }
    }
}

/// The same failures under the name that earlier callers use.
pub type CliError = AppError;

/// The outcome of an operation of this library.
pub type Result<T> = core::result::Result<T, AppError>;

/// What an [`AppError`] says, with texts as character sequences.
pub enum ErrorView {
    CommandNotFound { command: Seq<char> },
    SubcommandNotFound { subcommand: Seq<char> },
    RequiredFlagNotProvided { flag: Seq<char> },
    UnknownFlag { flag: Seq<char> },
    InvalidFlagValue { flag: Seq<char>, value: Seq<char>, expected: Seq<char> },
    FlagValueMissing { flag: Seq<char> },
    TooManyArguments,
    NotEnoughArguments { expected: nat, received: nat },
    IoError(Seq<char>),
    ParseError { message: Seq<char> },
    ConfigurationError { message: Seq<char> },
}

impl View for AppError {
    type V = ErrorView;

    open spec fn view(&self) -> ErrorView {
        match self {
            AppError::CommandNotFound { command } => ErrorView::CommandNotFound { command: command@ },
            AppError::SubcommandNotFound { subcommand } => ErrorView::SubcommandNotFound {
                subcommand: subcommand@,
            },
            AppError::RequiredFlagNotProvided { flag } => ErrorView::RequiredFlagNotProvided {
                flag: flag@,
            },
            AppError::UnknownFlag { flag } => ErrorView::UnknownFlag { flag: flag@ },
            AppError::InvalidFlagValue { flag, value, expected } => ErrorView::InvalidFlagValue {
                flag: flag@,
                value: value@,
                expected: expected@,
            },
            AppError::FlagValueMissing { flag } => ErrorView::FlagValueMissing { flag: flag@ },
            AppError::TooManyArguments => ErrorView::TooManyArguments,
            AppError::NotEnoughArguments { expected, received } => ErrorView::NotEnoughArguments {
                expected: *expected as nat,
                received: *received as nat,
            },
            AppError::IoError(m) => ErrorView::IoError(m@),
            AppError::ParseError { message } => ErrorView::ParseError { message: message@ },
            AppError::ConfigurationError { message } => ErrorView::ConfigurationError {
                message: message@,
            },
        }
    }
}

/// Whether `r` is a failure that says `e`.
pub open spec fn fails_with<T>(r: Result<T>, e: ErrorView) -> bool {
    match r {
        Ok(_) => false,
        Err(x) => x@ == e,
    }
}

} // verus!
