//! An application: a root command named after the program, with a version
//! and a description.
use vstd::prelude::*;

use crate::command::{command_index, find_command, with_command, with_flag, Command};
use crate::error::AppError;
use crate::flag::Flag;
use crate::parser::{args_outcome, parse_spec, CLIParser, ParsedArgs};
use crate::number::char_string;
use crate::text::{same_text, text_of, texts};

verus! {

broadcast use {
    vstd::seq::axiom_seq_subrange_decreases,
    vstd::seq::axiom_seq_index_decreases,
    vstd::std_specs::vec::axiom_vec_decreases_to_view,
};

/// An application built around its root command.
#[derive(Debug)]
pub struct App {
    pub name: String,
    pub version: String,
    pub description: String,
    pub root_command: Command,
}

/// The same application type under the name that earlier callers use.
pub type CLIApp = App;

/// A summary of an application: its name, version, description, the full
/// paths of all its commands and the number of its global flags.
#[derive(Debug, Clone)]
pub struct AppInfo {
    pub name: String,
    pub version: String,
    pub description: String,
    pub commands: Vec<String>,
    pub global_flags: usize,
}

/// The path of a command named `name` below the path `prefix`.
pub open spec fn sub_path(prefix: Seq<char>, name: Seq<char>) -> Seq<char> {
    if prefix.len() == 0 {
        name
    } else {
        prefix + " "@ + name
    }
}

/// The paths of the commands in `subs` and below them, each command before
/// its own subcommands, in order.
pub open spec fn paths_of(subs: Seq<Command>, prefix: Seq<char>) -> Seq<Seq<char>>
    decreases subs,
{
    if subs.len() == 0 {
        Seq::empty()
    } else {
        let last = subs[subs.len() - 1];
        let full = sub_path(prefix, last.name@);
        paths_of(subs.subrange(0, subs.len() - 1), prefix) + seq![full] + paths_of(last.subcommands@, full)
    }
}

/// Whether one command's flags keep its rules: no two share a name or an
/// alias, and none is both required and defaulted.
pub open spec fn flags_sound(flags: Seq<Flag>) -> bool {
    &&& forall|i: int, j: int| 0 <= i < j < flags.len() ==> flags[i].name@ != flags[j].name@
    &&& forall|i: int, j: int|
        0 <= i < j < flags.len() && flags[i].short is Some ==> flags[i].short != flags[j].short
    &&& forall|i: int| 0 <= i < flags.len() ==> !(flags[i].required && flags[i].default_value is Some)
}

/// Whether no two subcommands share a name.
pub open spec fn names_distinct(subs: Seq<Command>) -> bool {
    forall|i: int, j: int| 0 <= i < j < subs.len() ==> subs[i].name@ != subs[j].name@
}

/// Whether each command in `subs`, and each below them, keeps the rules.
pub open spec fn tree_sound(subs: Seq<Command>) -> bool
    decreases subs,
{
    if subs.len() == 0 {
        true
    } else {
        let last = subs[subs.len() - 1];
        &&& tree_sound(subs.subrange(0, subs.len() - 1))
        &&& flags_sound(last.flags@)
        &&& names_distinct(last.subcommands@)
        &&& tree_sound(last.subcommands@)
    }
}

/// Whether `cmd` and every command below it keep the rules.
pub open spec fn command_sound(cmd: Command) -> bool {
    flags_sound(cmd.flags@) && names_distinct(cmd.subcommands@) && tree_sound(cmd.subcommands@)
}

fn flag_rules(flags: &Vec<Flag>) -> (r: Result<(), AppError>)
    ensures
        r is Ok == flags_sound(flags@),
        r is Err ==> r->Err_0 is ConfigurationError,
{
    let mut i: usize = 0;
    while i < flags.len()
        invariant
            i <= flags@.len(),
            forall|a: int, b: int| 0 <= a < b < i ==> flags@[a].name@ != flags@[b].name@,
            forall|a: int, b: int|
                0 <= a < b < i && flags@[a].short is Some ==> flags@[a].short != flags@[b].short,
            forall|a: int| 0 <= a < i ==> !(flags@[a].required && flags@[a].default_value is Some),
        decreases flags@.len() - i,
    {
        let flag = &flags[i];
        let mut j: usize = 0;
        while j < i
            invariant
                i < flags@.len(),
                j <= i,
                flag == &flags@[i as int],
                forall|a: int| 0 <= a < j ==> flags@[a].name@ != flags@[i as int].name@,
                forall|a: int|
                    0 <= a < j && flags@[a].short is Some ==> flags@[a].short != flags@[i as int].short,
            decreases i - j,
        {
            if same_text(flags[j].name.as_str(), flag.name.as_str()) {
                return Err(
                    AppError::ConfigurationError {
                        message: text_of("Flag duplicada encontrada: ").concat(flag.name.as_str()),
                    },
                );
            }
            match (flags[j].short, flag.short) {
                (Some(a), Some(b)) => {
                    if a == b {
                        return Err(
                            AppError::ConfigurationError {
                                message: text_of("Flag curta duplicada encontrada: ").concat(
                                    char_string(b).as_str(),
                                ),
                            },
                        );
                    }
                },
                _ => {},
            }
            j = j + 1;
        }
        if flag.required && flag.default_value.is_some() {
            return Err(
                AppError::ConfigurationError {
                    message: text_of("Flag '").concat(flag.name.as_str()).concat(
                        "' não pode ser obrigatória e ter valor padrão",
                    ),
                },
            );
        }
        i = i + 1;
    }
    Ok(())
}

fn distinct_command_names(subs: &Vec<Command>) -> (r: Result<(), AppError>)
    ensures
        r is Ok == names_distinct(subs@),
        r is Err ==> r->Err_0 is ConfigurationError,
{
    let mut i: usize = 0;
    while i < subs.len()
        invariant
            i <= subs@.len(),
            forall|a: int, b: int| 0 <= a < b < i ==> subs@[a].name@ != subs@[b].name@,
        decreases subs@.len() - i,
    {
        let mut j: usize = 0;
        while j < i
            invariant
                i < subs@.len(),
                j <= i,
                forall|a: int| 0 <= a < j ==> subs@[a].name@ != subs@[i as int].name@,
            decreases i - j,
        {
            if same_text(subs[j].name.as_str(), subs[i].name.as_str()) {
                return Err(
                    AppError::ConfigurationError {
                        message: text_of("Subcomando duplicado encontrado: ").concat(subs[i].name.as_str()),
                    },
                );
            }
            j = j + 1;
        }
        i = i + 1;
    }
    Ok(())
}

impl App {
    /// An application whose root command is named `name` and shows help when
    /// given no tokens.
    pub fn new(name: &str, version: &str) -> (r: Self)
        ensures
            r.name@ == name@,
            r.version@ == version@,
            r.description@ == Seq::<char>::empty(),
            r.root_command.name@ == name@,
            r.root_command.flags@.len() == 0,
            r.root_command.subcommands@.len() == 0,
            r.root_command.positional_args@.len() == 0,
            r.root_command.show_help_on_empty,
    {
        App {
            name: text_of(name),
            version: text_of(version),
            description: String::new(),
            root_command: Command::new(name).show_help_on_empty(true),
        }
    }

    pub fn description(self, description: &str) -> (r: Self)
        ensures
            r.description@ == description@,
            r.name == self.name,
            r.version == self.version,
            r.root_command == self.root_command,
    {
        App { description: text_of(description), ..self }
    }

    /// Adds a command below the root, replacing one of the same name.
    pub fn add_command(self, command: Command) -> (r: Self)
        ensures
            r.root_command.subcommands@ == with_command(self.root_command.subcommands@, command),
            r.root_command.flags == self.root_command.flags,
            r.root_command.name == self.root_command.name,
            r.root_command.positional_args == self.root_command.positional_args,
            r.root_command.show_help_on_empty == self.root_command.show_help_on_empty,
            r.name == self.name,
            r.version == self.version,
            r.description == self.description,
    {
        let App { name, version, description, root_command } = self;
        App { name, version, description, root_command: root_command.add_subcommand(command) }
    }

    /// Adds a flag to the root command, replacing one of the same name.
    pub fn add_global_flag(self, flag: Flag) -> (r: Self)
        ensures
            r.root_command.flags@ == with_flag(self.root_command.flags@, flag),
            r.root_command.subcommands == self.root_command.subcommands,
            r.root_command.name == self.root_command.name,
            r.root_command.positional_args == self.root_command.positional_args,
            r.root_command.show_help_on_empty == self.root_command.show_help_on_empty,
            r.name == self.name,
            r.version == self.version,
            r.description == self.description,
    {
        let App { name, version, description, root_command } = self;
        App { name, version, description, root_command: root_command.add_flag(flag) }
    }

    /// Whether the root command shows help when given no tokens.
    pub fn show_help_on_empty(self, show_help_on_empty: bool) -> (r: Self)
        ensures
            r.root_command == (Command { show_help_on_empty, ..self.root_command }),
            r.name == self.name,
            r.version == self.version,
            r.description == self.description,
    {
        let App { name, version, description, root_command } = self;
        App { name, version, description, root_command: root_command.show_help_on_empty(show_help_on_empty) }
    }

    /// Parses the tokens (the program's arguments without its name) against
    /// the root command.
    pub fn parse(&self, args: Vec<&str>) -> (r: Result<ParsedArgs, AppError>)
        ensures
            args_outcome(r) == parse_spec(self.root_command, args@.map_values(|s: &str| s@)),
    {
        let mut owned: Vec<String> = Vec::new();
        let mut i: usize = 0;
        while i < args.len()
            invariant
                i <= args@.len(),
                texts(owned@) == args@.subrange(0, i as int).map_values(|s: &str| s@),
            decreases args@.len() - i,
        {
            let ghost before = owned@;
            owned.push(text_of(args[i]));
            proof {
                assert(texts(owned@) =~= texts(before).push(args@[i as int]@));
                assert(args@.subrange(0, i + 1).map_values(|s: &str| s@) =~= args@.subrange(
                    0,
                    i as int,
                ).map_values(|s: &str| s@).push(args@[i as int]@));
            }
            i = i + 1;
        }
        assert(args@.subrange(0, args@.len() as int) =~= args@);
        CLIParser::parse(&self.root_command, owned)
    }

    /// The command whose help a result asks for: the subcommand it matched
    /// below the root, if the root has one of that name, else the root.
    pub fn help_command(&self, parsed: &ParsedArgs) -> (r: &Command)
        ensures
            match parsed.subcommand {
                Some(n) => if command_index(self.root_command.subcommands@, n@) >= 0 {
                    *r == self.root_command.subcommands@[command_index(self.root_command.subcommands@, n@)]
                } else {
                    *r == self.root_command
                },
                None => *r == self.root_command,
            },
    {
        match &parsed.subcommand {
            Some(n) => match find_command(&self.root_command.subcommands, n.as_str()) {
                Some(i) => &self.root_command.subcommands[i],
                None => &self.root_command,
            },
            None => &self.root_command,
        }
    }

    /// A summary of the application.
    pub fn get_info(&self) -> (r: AppInfo)
        ensures
            r.name@ == self.name@,
            r.version@ == self.version@,
            r.description@ == self.description@,
            texts(r.commands@) == paths_of(self.root_command.subcommands@, Seq::empty()),
            r.global_flags == self.root_command.flags@.len(),
    {
        let mut commands: Vec<String> = Vec::new();
        assert(texts(commands@) =~= Seq::<Seq<char>>::empty());
        proof {
            reveal_strlit("");
        }
        assert(""@ =~= Seq::<char>::empty());
        Self::collect_commands(&self.root_command, "", &mut commands);
        assert(texts(commands@) =~= paths_of(self.root_command.subcommands@, Seq::empty()));
        AppInfo {
            name: self.name.clone(),
            version: self.version.clone(),
            description: self.description.clone(),
            commands,
            global_flags: self.root_command.flags.len(),
        }
    }

    /// Appends the paths of the commands below `command`, written below
    /// `prefix`.
    fn collect_commands(command: &Command, prefix: &str, commands: &mut Vec<String>)
        ensures
            texts(final(commands)@) == texts(old(commands)@) + paths_of(command.subcommands@, prefix@),
        decreases command,
    {
        let ghost start = texts(commands@);
        let subs = &command.subcommands;
        let mut j: usize = 0;
        assert(start + paths_of(subs@.subrange(0, 0), prefix@) =~= start);
        while j < subs.len()
            invariant
                j <= subs@.len(),
                subs == &command.subcommands,
                texts(commands@) == start + paths_of(subs@.subrange(0, j as int), prefix@),
            decreases subs@.len() - j,
        {
            let sub = &subs[j];
            let full = if prefix.unicode_len() == 0 {
                sub.name.clone()
            } else {
                text_of(prefix).concat(" ").concat(sub.name.as_str())
            };
            let ghost before = texts(commands@);
            commands.push(full.clone());
            assert(texts(commands@) =~= before.push(full@));
            proof {
                assert(decreases_to!(command => command.subcommands));
                assert(decreases_to!(command.subcommands => command.subcommands@));
                assert(decreases_to!(command.subcommands@ => command.subcommands@[j as int]));
            }
            Self::collect_commands(sub, full.as_str(), commands);
            proof {
                let upto = subs@.subrange(0, j + 1);
                assert(upto.subrange(0, j as int) =~= subs@.subrange(0, j as int));
                assert(upto[j as int] == *sub);
                assert(full@ == sub_path(prefix@, sub.name@));
                assert(texts(commands@) =~= start + paths_of(upto, prefix@));
            }
            j = j + 1;
        }
        assert(subs@.subrange(0, subs@.len() as int) =~= subs@);
    }

    /// Checks the whole tree: within each command, no two flags share a
    /// name or an alias, no flag is both required and defaulted, and no two
    /// subcommands share a name.
    pub fn validate(&self) -> (r: Result<(), AppError>)
        ensures
            r is Ok == command_sound(self.root_command),
            r is Err ==> r->Err_0 is ConfigurationError,
    {
        Self::validate_command(&self.root_command)
    }

    fn validate_command(command: &Command) -> (r: Result<(), AppError>)
        ensures
            r is Ok == command_sound(*command),
            r is Err ==> r->Err_0 is ConfigurationError,
        decreases command,
    {
        match flag_rules(&command.flags) {
            Ok(_) => {},
            Err(e) => {
                return Err(e);
            },
        }
        match distinct_command_names(&command.subcommands) {
            Ok(_) => {},
            Err(e) => {
                return Err(e);
            },
        }
        let subs = &command.subcommands;
        let mut j: usize = 0;
        assert(tree_sound(subs@.subrange(0, 0)));
        while j < subs.len()
            invariant
                j <= subs@.len(),
                subs == &command.subcommands,
                tree_sound(subs@.subrange(0, j as int)),
            decreases subs@.len() - j,
        {
            proof {
                assert(decreases_to!(command => command.subcommands));
                assert(decreases_to!(command.subcommands => command.subcommands@));
                assert(decreases_to!(command.subcommands@ => command.subcommands@[j as int]));
            }
            let ghost upto = subs@.subrange(0, j + 1);
            assert(upto.subrange(0, j as int) =~= subs@.subrange(0, j as int));
            match Self::validate_command(&subs[j]) {
                Ok(_) => {},
                Err(e) => {
                    proof {
                        if tree_sound(subs@) {
                            lemma_tree_sound_prefix(subs@, j + 1);
                            assert(upto[j as int] == subs@[j as int]);
                        }
                    }
                    return Err(e);
                },
            }
            j = j + 1;
        }
        assert(subs@.subrange(0, subs@.len() as int) =~= subs@);
        Ok(())
    }
}

/// A sound list of commands has sound prefixes.
proof fn lemma_tree_sound_prefix(subs: Seq<Command>, k: int)
    requires
        0 <= k <= subs.len(),
        tree_sound(subs),
    ensures
        tree_sound(subs.subrange(0, k)),
    decreases subs.len(),
{
    if k < subs.len() {
        let d = subs.subrange(0, subs.len() - 1);
        assert(d.subrange(0, k) =~= subs.subrange(0, k));
        lemma_tree_sound_prefix(d, k);
    } else {
        assert(subs.subrange(0, k) =~= subs);
    }
}

impl Default for App {
    /// An application named `app` at version `0.0.0`.
    fn default() -> (r: Self)
        ensures
            r.name@ == "app"@,
            r.version@ == "0.0.0"@,
            r.description@ == Seq::<char>::empty(),
            r.root_command.name@ == "app"@,
            r.root_command.flags@.len() == 0,
            r.root_command.subcommands@.len() == 0,
    {
        App::new("app", "0.0.0")
    }
}

} // verus!
