//! The parsing engine: one pass over the tokens against a command tree,
//! recursing into a subcommand with the tokens that follow its name.
use vstd::prelude::*;

use crate::command::{
    command_index, find_command, find_flag, find_short, flag_index, required_count, short_index,
    Command, PositionalArg,
};
use crate::error::{fails_with, AppError, ErrorView};
use crate::flag::{
    append_integers, append_strings, copy_integers, copy_strings, value_outcome, Flag, FlagType,
    FlagValue, ValueView,
};
use crate::text::{same_text, text_of, texts};
use crate::values::{lookup, merged, put, Entries, FlagMap};

verus! {

/// The result of a successful parse.
#[derive(Debug, Clone)]
pub struct ParsedArgs {
    /// The name of the command that was parsed.
    pub command: String,
    /// The subcommand matched directly below that command, if any.
    pub subcommand: Option<String>,
    /// The values set, by flag name, of this command and of the
    /// subcommands below it.
    pub flags: FlagMap,
    /// The positional tokens, this command's first.
    pub positional_args: Vec<String>,
    /// Whether `--help` or `-h` stopped the parse.
    pub help_requested: bool,
}

/// What a [`ParsedArgs`] holds, with texts as character sequences.
pub struct ArgsView {
    pub command: Seq<char>,
    pub subcommand: Option<Seq<char>>,
    pub flags: Entries,
    pub positional: Seq<Seq<char>>,
    pub help: bool,
}

impl View for ParsedArgs {
    type V = ArgsView;

    open spec fn view(&self) -> ArgsView {
        ArgsView {
            command: self.command@,
            subcommand: match self.subcommand {
                Some(s) => Some(s@),
                None => None,
            },
            flags: self.flags@,
            positional: texts(self.positional_args@),
            help: self.help_requested,
        }
    }
}

/// The outcome of a parse, with texts as character sequences.
pub open spec fn args_outcome(r: Result<ParsedArgs, AppError>) -> Result<ArgsView, ErrorView> {
    match r {
        Ok(p) => Ok(p@),
        Err(e) => Err(e@),
    }
}

/// A fresh result for the command named `name`.
pub open spec fn fresh(name: Seq<char>) -> ArgsView {
    ArgsView { command: name, subcommand: None, flags: Seq::empty(), positional: Seq::empty(), help: false }
}

pub open spec fn is_help(t: Seq<char>) -> bool {
    t == "--help"@ || t == "-h"@
}

pub open spec fn is_long(t: Seq<char>) -> bool {
    t.len() >= 2 && t[0] == '-' && t[1] == '-'
}

pub open spec fn is_short(t: Seq<char>) -> bool {
    t.len() == 2 && t[0] == '-'
}

pub open spec fn is_list(t: FlagType) -> bool {
    t == FlagType::StringList || t == FlagType::IntegerList
}

/// What the engine reports when asked to join lists of different kinds.
pub open spec fn mismatch_message() -> Seq<char> {
    "Erro interno: tentativa de combinar valores incompativeis"@
}

/// A list value extended by another of the same kind.
pub open spec fn combined(a: ValueView, b: ValueView) -> Result<ValueView, ErrorView> {
    match (a, b) {
        (ValueView::StringList(x), ValueView::StringList(y)) => Ok(ValueView::StringList(x + y)),
        (ValueView::IntegerList(x), ValueView::IntegerList(y)) => Ok(ValueView::IntegerList(x + y)),
        _ => Err(ErrorView::ParseError { message: mismatch_message() }),
    }
}

/// How many tokens flag `f` takes: itself, and a value unless boolean.
pub open spec fn width(f: Flag) -> int {
    if f.flag_type == FlagType::Bool {
        1
    } else {
        2
    }
}

/// What flag `f`, met at token `i`, does to the result `st`.
pub open spec fn flag_step(f: Flag, toks: Seq<Seq<char>>, i: int, st: ArgsView) -> Result<ArgsView, ErrorView> {
    if f.flag_type == FlagType::Bool {
        Ok(ArgsView { flags: put(st.flags, f.name@, ValueView::Bool(true)), ..st })
    } else if i + 1 >= toks.len() {
        Err(ErrorView::FlagValueMissing { flag: f.name@ })
    } else {
        match f.value_spec(toks[i + 1]) {
            Err(e) => Err(e),
            Ok(v) => match lookup(st.flags, f.name@) {
                Some(old) => if is_list(f.flag_type) {
                    match combined(old, v) {
                        Ok(c) => Ok(ArgsView { flags: put(st.flags, f.name@, c), ..st }),
                        Err(e) => Err(e),
                    }
                } else {
                    Ok(ArgsView { flags: put(st.flags, f.name@, v), ..st })
                },
                None => Ok(ArgsView { flags: put(st.flags, f.name@, v), ..st }),
            },
        }
    }
}

/// Whether handling flag `f` at token `i` returned `r` and left `after`,
/// as [`flag_step`] says; a failure leaves the result as it was.
pub open spec fn step_done(
    f: Flag,
    toks: Seq<Seq<char>>,
    i: int,
    before: ArgsView,
    r: Result<usize, AppError>,
    after: ArgsView,
) -> bool {
    match flag_step(f, toks, i, before) {
        Ok(next) => r == Ok::<usize, AppError>(width(f) as usize) && after == next,
        Err(e) => fails_with(r, e) && after == before,
    }
}

/// Whether `r` is the verdict on `got` positional tokens for `slots`.
pub open spec fn count_checked(slots: Seq<PositionalArg>, got: nat, r: Result<(), AppError>) -> bool {
    if got < required_count(slots) {
        fails_with(r, ErrorView::NotEnoughArguments { expected: required_count(slots), received: got })
    } else if got > slots.len() {
        fails_with(r, ErrorView::TooManyArguments)
    } else {
        r is Ok
    }
}

/// Whether the defaults pass over `flags` returned `r` and left `after`,
/// as [`defaults_from`] says.
pub open spec fn defaults_done(flags: Seq<Flag>, before: ArgsView, r: Result<(), AppError>, after: ArgsView) -> bool {
    match defaults_from(flags, 0, before) {
        Ok(st) => r is Ok && after == st,
        Err(e) => fails_with(r, e),
    }
}

/// What an unknown `--name` or `-c` reports.
pub open spec fn unknown(name: Seq<char>) -> ErrorView {
    ErrorView::UnknownFlag { flag: name }
}

/// The defaults pass over `flags[i..]`: each flag that is not set takes its
/// default; a required one without default fails the parse.
pub open spec fn defaults_from(flags: Seq<Flag>, i: int, st: ArgsView) -> Result<ArgsView, ErrorView>
    decreases flags.len() - i,
{
    if i < 0 || i >= flags.len() {
        Ok(st)
    } else {
        let f = flags[i];
        if lookup(st.flags, f.name@) is Some {
            defaults_from(flags, i + 1, st)
        } else {
            match f.default_value {
                Some(d) => defaults_from(flags, i + 1, ArgsView { flags: put(st.flags, f.name@, d@), ..st }),
                None => if f.required {
                    Err(ErrorView::RequiredFlagNotProvided { flag: f.name@ })
                } else {
                    defaults_from(flags, i + 1, st)
                },
            }
        }
    }
}

/// The checks after the token loop: positional counts, when the command
/// declares slots, then defaults and required flags.
pub open spec fn finish(cmd: Command, st: ArgsView) -> Result<ArgsView, ErrorView> {
    let slots = cmd.positional_args@;
    if slots.len() > 0 && st.positional.len() < required_count(slots) {
        Err(ErrorView::NotEnoughArguments { expected: required_count(slots), received: st.positional.len() })
    } else if slots.len() > 0 && st.positional.len() > slots.len() {
        Err(ErrorView::TooManyArguments)
    } else {
        defaults_from(cmd.flags@, 0, st)
    }
}

/// What the parse of `toks` from token `i` on, with result `st` so far,
/// gives for `cmd`.
pub open spec fn scan(cmd: Command, toks: Seq<Seq<char>>, i: int, st: ArgsView) -> Result<ArgsView, ErrorView>
    decreases toks.len(), 0int, toks.len() - i,
{
    if i < 0 || i >= toks.len() {
        finish(cmd, st)
    } else {
        let t = toks[i];
        if is_help(t) {
            Ok(ArgsView { help: true, ..st })
        } else if is_long(t) {
            let k = flag_index(cmd.flags@, t.skip(2));
            if k < 0 {
                Err(ErrorView::UnknownFlag { flag: t.skip(2) })
            } else {
                let f = cmd.flags@[k];
                match flag_step(f, toks, i, st) {
                    Ok(next) => scan(cmd, toks, i + width(f), next),
                    Err(e) => Err(e),
                }
            }
        } else if is_short(t) {
            let k = short_index(cmd.flags@, t[1]);
            if k < 0 {
                Err(ErrorView::UnknownFlag { flag: t.skip(1) })
            } else {
                let f = cmd.flags@[k];
                match flag_step(f, toks, i, st) {
                    Ok(next) => scan(cmd, toks, i + width(f), next),
                    Err(e) => Err(e),
                }
            }
        } else if command_index(cmd.subcommands@, t) >= 0 {
            let sub = cmd.subcommands@[command_index(cmd.subcommands@, t)];
            match parse_spec(sub, toks.skip(i + 1)) {
                Ok(child) => {
                    let joined = ArgsView {
                        subcommand: Some(t),
                        flags: merged(st.flags, child.flags),
                        positional: st.positional + child.positional,
                        help: child.help,
                        ..st
                    };
                    if child.help {
                        Ok(joined)
                    } else {
                        finish(cmd, joined)
                    }
                },
                Err(e) => Err(e),
            }
        } else if cmd.positional_args@.len() > 0 {
            scan(cmd, toks, i + 1, ArgsView { positional: st.positional.push(t), ..st })
        } else {
            Err(ErrorView::CommandNotFound { command: t })
        }
    }
}

/// What parsing `toks` against `cmd` gives.
pub open spec fn parse_spec(cmd: Command, toks: Seq<Seq<char>>) -> Result<ArgsView, ErrorView>
    decreases toks.len(), 1int, 0int,
{
    if toks.len() == 0 && cmd.show_help_on_empty {
        Ok(ArgsView { help: true, ..fresh(cmd.name@) })
    } else {
        scan(cmd, toks, 0, fresh(cmd.name@))
    }
}

impl ParsedArgs {
    /// A fresh result for the command named `command`.
    pub fn new(command: String) -> (r: Self)
        ensures
            r@ == fresh(command@),
    {
        let r = ParsedArgs {
            command,
            subcommand: None,
            flags: FlagMap::new(),
            positional_args: Vec::new(),
            help_requested: false,
        };
        assert(texts(r.positional_args@) =~= Seq::<Seq<char>>::empty());
        r
    }

    /// The value set for the flag named `flag`.
    pub fn get_flag(&self, flag: &str) -> (r: Option<&FlagValue>)
        ensures
            match lookup(self@.flags, flag@) {
                Some(v) => r matches Some(x) && x@ == v,
                None => r is None,
            },
    {
        self.flags.get(flag)
    }

    /// Whether the flag named `flag` is set.
    pub fn has_flag(&self, flag: &str) -> (r: bool)
        ensures
            r == lookup(self@.flags, flag@) is Some,
    {
        self.flags.contains_key(flag)
    }

    /// The positional token at `arg`.
    pub fn get_arg(&self, arg: usize) -> (r: Option<&String>)
        ensures
            arg < self.positional_args@.len() ==> r == Some(&self.positional_args@[arg as int]),
            arg >= self.positional_args@.len() ==> r is None,
    {
        if arg < self.positional_args.len() {
            Some(&self.positional_args[arg])
        } else {
            None
        }
    }

    /// The positional tokens.
    pub fn get_args(&self) -> (r: &Vec<String>)
        ensures
            r == &self.positional_args,
    {
        &self.positional_args
    }
}

/// Copies of the tokens from `from` on.
fn tail(args: &Vec<String>, from: usize) -> (r: Vec<String>)
    requires
        from <= args@.len(),
    ensures
        texts(r@) == texts(args@).skip(from as int),
        r@.len() == args@.len() - from,
{
    let mut out: Vec<String> = Vec::new();
    let mut i: usize = from;
    assert(texts(out@) =~= texts(args@).subrange(from as int, from as int));
    while i < args.len()
        invariant
            from <= i <= args@.len(),
            out@.len() == i - from,
            texts(out@) == texts(args@).subrange(from as int, i as int),
        decreases args@.len() - i,
    {
        let ghost before = out@;
        out.push(args[i].clone());
        proof {
            assert(texts(out@) =~= texts(before).push(args@[i as int]@));
            assert(texts(args@).subrange(from as int, i + 1) =~= texts(args@).subrange(
                from as int,
                i as int,
            ).push(args@[i as int]@));
        }
        i = i + 1;
    }
    assert(texts(args@).subrange(from as int, args@.len() as int) =~= texts(args@).skip(from as int));
    out
}

/// The parsing engine.
pub struct CLIParser;

impl CLIParser {
    /// Parses `args` against `command`: see [`parse_spec`].
    pub fn parse(command: &Command, args: Vec<String>) -> (r: Result<ParsedArgs, AppError>)
        ensures
            args_outcome(r) == parse_spec(*command, texts(args@)),
        decreases args@.len(),
    {
        let ghost toks = texts(args@);
        let mut parsed = ParsedArgs::new(command.name.clone());
        if args.len() == 0 && command.show_help_on_empty {
            parsed.help_requested = true;
            return Ok(parsed);
        }
        let mut i: usize = 0;
        while i < args.len()
            invariant
                toks == texts(args@),
                i <= args@.len(),
                parse_spec(*command, toks) == scan(*command, toks, i as int, parsed@),
            decreases args@.len() - i,
        {
            let arg = args[i].as_str();
            let n = arg.unicode_len();
            assert(toks[i as int] == arg@);
            if same_text(arg, "--help") || same_text(arg, "-h") {
                parsed.help_requested = true;
                return Ok(parsed);
            }
            if n >= 2 && arg.get_char(0) == '-' && arg.get_char(1) == '-' {
                let flag_name = arg.substring_char(2, n);
                assert(flag_name@ =~= arg@.skip(2));
                match Self::parse_long_flag(command, &args, i, flag_name, &mut parsed) {
                    Ok(w) => {
                        i = i + w;
                    },
                    Err(e) => {
                        return Err(e);
                    },
                }
            } else if n == 2 && arg.get_char(0) == '-' {
                let flag_char = arg.get_char(1);
                match Self::parse_short_flag(command, &args, i, flag_char, &mut parsed) {
                    Ok(w) => {
                        i = i + w;
                    },
                    Err(e) => {
                        return Err(e);
                    },
                }
            } else {
                match find_command(&command.subcommands, arg) {
                    Some(s) => {
                        let remaining = tail(&args, i + 1);
                        match Self::parse(&command.subcommands[s], remaining) {
                            Err(e) => {
                                return Err(e);
                            },
                            Ok(sub_parsed) => {
                                parsed.subcommand = Some(args[i].clone());
                                parsed.flags.extend(&sub_parsed.flags);
                                append_strings(
                                    &mut parsed.positional_args,
                                    &sub_parsed.positional_args,
                                );
                                parsed.help_requested = sub_parsed.help_requested;
                                if parsed.help_requested {
                                    return Ok(parsed);
                                }
                                return Self::complete(command, parsed);
                            },
                        }
                    },
                    None => {
                        if command.has_positional_args() {
                            let ghost before = parsed.positional_args@;
                            parsed.positional_args.push(args[i].clone());
                            assert(texts(parsed.positional_args@) =~= texts(before).push(
                                arg@,
                            ));
                            i = i + 1;
                        } else {
                            return Err(AppError::CommandNotFound { command: args[i].clone() });
                        }
                    },
                }
            }
        }
        Self::complete(command, parsed)
    }

    /// Handles `--name` at token `i`; returns how many tokens it took.
    fn parse_long_flag(
        command: &Command,
        args: &Vec<String>,
        i: usize,
        flag_name: &str,
        parsed: &mut ParsedArgs,
    ) -> (r: Result<usize, AppError>)
        requires
            i < args@.len(),
        ensures
            flag_index(command.flags@, flag_name@) < 0 ==> fails_with(r, unknown(flag_name@))
                && final(parsed)@ == old(parsed)@,
            flag_index(command.flags@, flag_name@) >= 0 ==> step_done(
                command.flags@[flag_index(command.flags@, flag_name@)],
                texts(args@),
                i as int,
                old(parsed)@,
                r,
                final(parsed)@,
            ),
    {
        match find_flag(&command.flags, flag_name) {
            Some(k) => Self::apply_flag(&command.flags[k], args, i, parsed),
            None => Err(AppError::UnknownFlag { flag: text_of(flag_name) }),
        }
    }

    /// Handles `-c` at token `i`; returns how many tokens it took.
    fn parse_short_flag(
        command: &Command,
        args: &Vec<String>,
        i: usize,
        flag_char: char,
        parsed: &mut ParsedArgs,
    ) -> (r: Result<usize, AppError>)
        requires
            i < args@.len(),
            args@[i as int]@.len() == 2,
            args@[i as int]@[1] == flag_char,
        ensures
            short_index(command.flags@, flag_char) < 0 ==> fails_with(
                r,
                unknown(args@[i as int]@.skip(1)),
            ) && final(parsed)@ == old(parsed)@,
            short_index(command.flags@, flag_char) >= 0 ==> step_done(
                command.flags@[short_index(command.flags@, flag_char)],
                texts(args@),
                i as int,
                old(parsed)@,
                r,
                final(parsed)@,
            ),
    {
        match find_short(&command.flags, flag_char) {
            Some(k) => Self::apply_flag(&command.flags[k], args, i, parsed),
            None => {
                let name = args[i].as_str().substring_char(1, 2);
                assert(name@ =~= args@[i as int]@.skip(1));
                Err(AppError::UnknownFlag { flag: text_of(name) })
            },
        }
    }

    /// Records flag `flag`, met at token `i`, with its value if it takes
    /// one; returns how many tokens it took.
    fn apply_flag(flag: &Flag, args: &Vec<String>, i: usize, parsed: &mut ParsedArgs) -> (r: Result<usize, AppError>)
        requires
            i < args@.len(),
        ensures
            step_done(*flag, texts(args@), i as int, old(parsed)@, r, final(parsed)@),
    {
        if flag.flag_type == FlagType::Bool {
            parsed.flags.insert(flag.name.clone(), FlagValue::Bool(true));
            return Ok(1);
        }
        if i >= args.len() - 1 {
            return Err(AppError::FlagValueMissing { flag: flag.name.clone() });
        }
        assert(texts(args@)[i + 1] == args@[i + 1]@);
        let value = match flag.parse_value(args[i + 1].as_str()) {
            Ok(v) => v,
            Err(e) => {
                return Err(e);
            },
        };
        let list = flag.flag_type == FlagType::StringList || flag.flag_type == FlagType::IntegerList;
        let joined = match parsed.flags.get(flag.name.as_str()) {
            Some(existing) => if list {
                match Self::combine_list_values(existing, &value) {
                    Ok(c) => Some(c),
                    Err(e) => {
                        return Err(e);
                    },
                }
            } else {
                None
            },
            None => None,
        };
        match joined {
            Some(c) => parsed.flags.insert(flag.name.clone(), c),
            None => parsed.flags.insert(flag.name.clone(), value),
        }
        Ok(2)
    }

    /// One list value extended by another of the same kind.
    fn combine_list_values(existing: &FlagValue, new: &FlagValue) -> (r: Result<FlagValue, AppError>)
        ensures
            value_outcome(r) == combined(existing@, new@),
    {
        match (existing, new) {
            (FlagValue::StringList(a), FlagValue::StringList(b)) => {
                let mut c = copy_strings(a);
                append_strings(&mut c, b);
                Ok(FlagValue::StringList(c))
            },
            (FlagValue::IntegerList(a), FlagValue::IntegerList(b)) => {
                let mut c = copy_integers(a);
                append_integers(&mut c, b);
                Ok(FlagValue::IntegerList(c))
            },
            _ => Err(
                AppError::ParseError {
                    message: text_of("Erro interno: tentativa de combinar valores incompativeis"),
                },
            ),
        }
    }

    /// The checks after the token loop.
    fn complete(command: &Command, parsed: ParsedArgs) -> (r: Result<ParsedArgs, AppError>)
        ensures
            args_outcome(r) == finish(*command, parsed@),
    {
        let mut parsed = parsed;
        if command.has_positional_args() {
            match Self::validate_positional_args(command, &parsed) {
                Ok(_) => {},
                Err(e) => {
                    return Err(e);
                },
            }
        }
        match Self::apply_defaults_and_validate(command, &mut parsed) {
            Ok(_) => Ok(parsed),
            Err(e) => Err(e),
        }
    }

    /// Checks the number of positional tokens against the declared slots.
    fn validate_positional_args(command: &Command, parsed: &ParsedArgs) -> (r: Result<(), AppError>)
        ensures
            count_checked(command.positional_args@, parsed.positional_args@.len(), r),
    {
        let required_count = command.required_positional_count();
        let provided_count = parsed.positional_args.len();
        if provided_count < required_count {
            return Err(
                AppError::NotEnoughArguments { expected: required_count, received: provided_count },
            );
        }
        if provided_count > command.positional_args.len() {
            return Err(AppError::TooManyArguments);
        }
        Ok(())
    }

    /// Installs the defaults of the flags not set, and fails on a required
    /// flag without default that is not set.
    fn apply_defaults_and_validate(command: &Command, parsed: &mut ParsedArgs) -> (r: Result<(), AppError>)
        ensures
            defaults_done(command.flags@, old(parsed)@, r, final(parsed)@),
    {
        let ghost goal = defaults_from(command.flags@, 0, parsed@);
        let mut i: usize = 0;
        while i < command.flags.len()
            invariant
                i <= command.flags@.len(),
                goal == defaults_from(command.flags@, 0, old(parsed)@),
                goal == defaults_from(command.flags@, i as int, parsed@),
            decreases command.flags@.len() - i,
        {
            let flag = &command.flags[i];
            if !parsed.flags.contains_key(flag.name.as_str()) {
                match &flag.default_value {
                    Some(d) => {
                        parsed.flags.insert(flag.name.clone(), d.clone());
                    },
                    None => {
                        if flag.required {
                            return Err(AppError::RequiredFlagNotProvided { flag: flag.name.clone() });
                        }
                    },
                }
            }
            i = i + 1;
        }
        Ok(())
    }
}

} // verus!
