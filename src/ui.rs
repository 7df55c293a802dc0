//! Help text and message tags, colored with ANSI codes.
use owo_colors::OwoColorize;
use vstd::prelude::*;

use crate::command::{sorted_flags, targets, Command, PositionalArg};
use crate::flag::{type_description, Flag, FlagType, FlagValue, ValueView};
use crate::number::{char_string, decimal_string, decimal_text};
use crate::text::{join, joined, same_text, text_of, texts};

verus! {

/// Relies on `OwoColorize::bold`: the text between `ESC[1m` and `ESC[0m`.
#[verifier::external_body]
fn bold(s: &str) -> (r: String)
    ensures
        r@ == bold_text(s@),
{
    s.bold().to_string()
}

/// Relies on `OwoColorize::cyan`: the text between `ESC[36m` and `ESC[39m`.
#[verifier::external_body]
fn cyan(s: &str) -> (r: String)
    ensures
        r@ == "\x1b[36m"@ + s@ + "\x1b[39m"@,
{
    s.cyan().to_string()
}

/// Relies on `OwoColorize::yellow`: the text between `ESC[33m` and `ESC[39m`.
#[verifier::external_body]
fn yellow(s: &str) -> (r: String)
    ensures
        r@ == yellow_text(s@),
{
    s.yellow().to_string()
}

/// Relies on `OwoColorize::green`: the text between `ESC[32m` and `ESC[39m`.
#[verifier::external_body]
fn green(s: &str) -> (r: String)
    ensures
        r@ == "\x1b[32m"@ + s@ + "\x1b[39m"@,
{
    s.green().to_string()
}

/// Relies on `OwoColorize::red`: the text between `ESC[31m` and `ESC[39m`.
#[verifier::external_body]
fn red(s: &str) -> (r: String)
    ensures
        r@ == "\x1b[31m"@ + s@ + "\x1b[39m"@,
{
    s.red().to_string()
}

/// Relies on `OwoColorize::blue`: the text between `ESC[34m` and `ESC[39m`.
#[verifier::external_body]
fn blue(s: &str) -> (r: String)
    ensures
        r@ == "\x1b[34m"@ + s@ + "\x1b[39m"@,
{
    s.blue().to_string()
}

/// Relies on `OwoColorize::on_black`: the text between `ESC[40m` and
/// `ESC[49m`.
#[verifier::external_body]
fn on_black(s: &str) -> (r: String)
    ensures
        r@ == "\x1b[40m"@ + s@ + "\x1b[49m"@,
{
    s.on_black().to_string()
}

pub open spec fn bold_text(s: Seq<char>) -> Seq<char> {
    "\x1b[1m"@ + s + "\x1b[0m"@
}

pub open spec fn yellow_text(s: Seq<char>) -> Seq<char> {
    "\x1b[33m"@ + s + "\x1b[39m"@
}

/// What follows an item that is not required.
pub open spec fn optional_mark(required: bool) -> Seq<char> {
    if required {
        Seq::empty()
    } else {
        " (opcional)"@
    }
}

/// The usage words for the positional slots.
pub open spec fn slots_usage(slots: Seq<PositionalArg>) -> Seq<char>
    decreases slots.len(),
{
    if slots.len() == 0 {
        Seq::empty()
    } else {
        let a = slots.last();
        slots_usage(slots.drop_last()) + if a.required {
            " <"@ + a.name@ + ">"@
        } else {
            " ["@ + a.name@ + "]"@
        }
    }
}

/// The usage line of `cmd` in the application `app`.
pub open spec fn usage_text(app: Seq<char>, cmd: Command) -> Seq<char> {
    app + (if cmd.name@ != app {
        " "@ + cmd.name@
    } else {
        Seq::empty()
    }) + (if cmd.subcommands@.len() > 0 {
        " <SUBCOMANDO>"@
    } else {
        Seq::empty()
    }) + (if cmd.flags@.len() > 0 {
        " [OPÇÕES]"@
    } else {
        Seq::empty()
    }) + slots_usage(cmd.positional_args@)
}

/// A value as the help shows a default: its kind, then what it holds.
pub open spec fn value_text(v: ValueView) -> Seq<char> {
    match v {
        ValueView::Bool(b) => "Bool("@ + (if b {
            "true"@
        } else {
            "false"@
        }) + ")"@,
        ValueView::String(s) => "String(\""@ + s + "\")"@,
        ValueView::Float(s) => "Float("@ + s + ")"@,
        ValueView::Integer(i) => "Integer("@ + decimal_text(i as int) + ")"@,
        ValueView::StringList(l) => "StringList(["@ + joined(
            l.map_values(|s: Seq<char>| "\""@ + s + "\""@),
            ", "@,
        ) + "])"@,
        ValueView::IntegerList(l) => "IntegerList(["@ + joined(
            l.map_values(|i: i64| decimal_text(i as int)),
            ", "@,
        ) + "])"@,
    }
}

/// How a flag is written in the help: alias, name and type.
pub open spec fn flag_lead(f: Flag) -> Seq<char> {
    "    "@ + (match f.short {
        Some(c) => seq!['-', c, ' '],
        None => "    "@,
    }) + " --"@ + f.name@ + (if f.flag_type == FlagType::Bool {
        Seq::empty()
    } else {
        "<"@ + type_description(f.flag_type) + ">"@
    })
}

/// The allowed values and the default of a flag, as the help shows them.
pub open spec fn flag_extras(f: Flag) -> Seq<char> {
    (match f.possible_values {
        Some(p) => "        Valores possíveis: "@ + joined(texts(p@), ", "@) + "\n"@,
        None => Seq::empty(),
    }) + (match f.default_value {
        Some(d) => "        Padrão: "@ + value_text(d@) + "\n"@,
        None => Seq::empty(),
    })
}

/// The help lines of one flag.
pub open spec fn flag_entry(f: Flag) -> Seq<char> {
    flag_lead(f) + "\n        "@ + f.description@ + optional_mark(f.required) + flag_extras(f)
}

pub open spec fn flag_entries(flags: Seq<Flag>) -> Seq<char>
    decreases flags.len(),
{
    if flags.len() == 0 {
        Seq::empty()
    } else {
        flag_entries(flags.drop_last()) + flag_entry(flags.last())
    }
}

pub open spec fn slot_entries(slots: Seq<PositionalArg>) -> Seq<char>
    decreases slots.len(),
{
    if slots.len() == 0 {
        Seq::empty()
    } else {
        let a = slots.last();
        slot_entries(slots.drop_last()) + "    "@ + "\x1b[32m"@ + a.name@ + "\x1b[39m"@ + optional_mark(a.required)
            + "\n"@ + a.description@
    }
}

/// The section of the help on positional slots.
pub open spec fn slots_section(cmd: Command) -> Seq<char> {
    if cmd.positional_args@.len() > 0 {
        yellow_text("ARGUMENTOS"@) + "\n"@ + slot_entries(cmd.positional_args@) + "\n"@
    } else {
        Seq::empty()
    }
}

/// The section of the help on flags, in order of name.
pub open spec fn flags_section(cmd: Command) -> Seq<char> {
    if cmd.flags@.len() > 0 {
        bold_text(yellow_text("OPÇÕES:"@)) + "\n"@ + flag_entries(sorted_flags(cmd.flags@)) + "\n"@
    } else {
        Seq::empty()
    }
}

/// The first lines of the help: title, description and usage.
pub open spec fn head_text(app: Seq<char>, version: Seq<char>, description: Seq<char>, cmd: Command) -> Seq<char> {
    "\x1b[36m"@ + app + " v"@ + version + "\x1b[39m"@ + (if description.len() > 0 {
        "\n\n"@ + description
    } else {
        Seq::empty()
    }) + "\n\n"@ + yellow_text(bold_text("USO"@)) + "\n    "@ + usage_text(app, cmd) + "\n\n"@
}

/// The help text of `cmd` in the application `app` at `version`.
pub open spec fn help_text(app: Seq<char>, version: Seq<char>, description: Seq<char>, cmd: Command) -> Seq<char> {
    head_text(app, version, description, cmd) + slots_section(cmd) + flags_section(cmd)
}

/// Renders help text and the tags of console messages.
pub struct ColoredUI;

impl ColoredUI {
    /// The usage line of `command` in the application `app_name`.
    pub fn format_usage(app_name: &str, command: &Command) -> (r: String)
        ensures
            r@ == usage_text(app_name@, *command),
    {
        let mut usage = text_of(app_name);
        if !same_text(command.name.as_str(), app_name) {
            usage.append(" ");
            usage.append(command.name.as_str());
        }
        if command.has_subcommands() {
            usage.append(" <SUBCOMANDO>");
        }
        if command.has_flags() {
            usage.append(" [OPÇÕES]");
        }
        let ghost head = usage@;
        let slots = &command.positional_args;
        let mut i: usize = 0;
        assert(head + slots_usage(slots@.subrange(0, 0)) =~= head);
        while i < slots.len()
            invariant
                i <= slots@.len(),
                usage@ == head + slots_usage(slots@.subrange(0, i as int)),
            decreases slots@.len() - i,
        {
            let a = &slots[i];
            if a.required {
                usage.append(" <");
                usage.append(a.name.as_str());
                usage.append(">");
            } else {
                usage.append(" [");
                usage.append(a.name.as_str());
                usage.append("]");
            }
            proof {
                assert(slots@.subrange(0, i + 1).drop_last() =~= slots@.subrange(0, i as int));
            }
            assert(usage@ =~= head + slots_usage(slots@.subrange(0, i + 1)));
            i = i + 1;
        }
        assert(slots@.subrange(0, slots@.len() as int) =~= slots@);
        assert(usage@ =~= usage_text(app_name@, *command));
        usage
    }

    /// A value as the help shows a default.
    pub fn format_value(value: &FlagValue) -> (r: String)
        ensures
            r@ == value_text(value@),
    {
        match value {
            FlagValue::Bool(b) => text_of("Bool(").concat(if *b { "true" } else { "false" }).concat(")"),
            FlagValue::String(s) => text_of("String(\"").concat(s.as_str()).concat("\")"),
            FlagValue::Float(s) => text_of("Float(").concat(s.as_str()).concat(")"),
            FlagValue::Integer(i) => text_of("Integer(").concat(decimal_string(*i).as_str()).concat(")"),
            FlagValue::StringList(l) => {
                let mut quoted: Vec<String> = Vec::new();
                let mut k: usize = 0;
                while k < l.len()
                    invariant
                        k <= l@.len(),
                        texts(quoted@) == texts(l@).subrange(0, k as int).map_values(
                            |s: Seq<char>| "\""@ + s + "\""@,
                        ),
                    decreases l@.len() - k,
                {
                    let ghost before = quoted@;
                    quoted.push(text_of("\"").concat(l[k].as_str()).concat("\""));
                    proof {
                        assert(texts(quoted@) =~= texts(before).push("\""@ + l@[k as int]@ + "\""@));
                        assert(texts(l@).subrange(0, k + 1).map_values(|s: Seq<char>| "\""@ + s + "\""@)
                            =~= texts(l@).subrange(0, k as int).map_values(|s: Seq<char>| "\""@ + s + "\""@).push(
                            "\""@ + l@[k as int]@ + "\""@,
                        ));
                    }
                    k = k + 1;
                }
                assert(texts(l@).subrange(0, l@.len() as int) =~= texts(l@));
                text_of("StringList([").concat(join(&quoted, ", ").as_str()).concat("])")
            },
            FlagValue::IntegerList(l) => {
                let mut written: Vec<String> = Vec::new();
                let mut k: usize = 0;
                while k < l.len()
                    invariant
                        k <= l@.len(),
                        texts(written@) == l@.subrange(0, k as int).map_values(|i: i64| decimal_text(i as int)),
                    decreases l@.len() - k,
                {
                    let ghost before = written@;
                    written.push(decimal_string(l[k]));
                    proof {
                        assert(texts(written@) =~= texts(before).push(decimal_text(l@[k as int] as int)));
                        assert(l@.subrange(0, k + 1).map_values(|i: i64| decimal_text(i as int))
                            =~= l@.subrange(0, k as int).map_values(|i: i64| decimal_text(i as int)).push(
                            decimal_text(l@[k as int] as int),
                        ));
                    }
                    k = k + 1;
                }
                assert(l@.subrange(0, l@.len() as int) =~= l@);
                text_of("IntegerList([").concat(join(&written, ", ").as_str()).concat("])")
            },
        }
    }

    fn format_flag_lead(flag: &Flag) -> (r: String)
        ensures
            r@ == flag_lead(*flag),
    {
        let mut out = text_of("    ");
        match flag.short {
            Some(c) => {
                out.append("-");
                out.append(char_string(c).as_str());
                out.append(" ");
                proof {
                    reveal_strlit("-");
                    reveal_strlit(" ");
                    reveal_strlit("    ");
                }
                assert(out@ =~= "    "@ + seq!['-', c, ' ']);
            },
            None => {
                out.append("    ");
            },
        }
        out.append(" --");
        out.append(flag.name.as_str());
        if flag.flag_type != FlagType::Bool {
            out.append("<");
            out.append(flag.flag_type.description());
            out.append(">");
        }
        assert(out@ =~= flag_lead(*flag));
        out
    }

    fn format_flag_extras(flag: &Flag) -> (r: String)
        ensures
            r@ == flag_extras(*flag),
    {
        let mut out = String::new();
        match &flag.possible_values {
            Some(p) => {
                out.append("        Valores possíveis: ");
                out.append(join(p, ", ").as_str());
                out.append("\n");
            },
            None => {},
        }
        let ghost mid = out@;
        match &flag.default_value {
            Some(d) => {
                out.append("        Padrão: ");
                out.append(Self::format_value(d).as_str());
                out.append("\n");
            },
            None => {},
        }
        assert(out@ =~= flag_extras(*flag));
        out
    }

    fn format_flag(flag: &Flag) -> (r: String)
        ensures
            r@ == flag_entry(*flag),
    {
        let mut out = Self::format_flag_lead(flag);
        out.append("\n        ");
        out.append(flag.description.as_str());
        if !flag.required {
            out.append(" (opcional)");
        }
        out.append(Self::format_flag_extras(flag).as_str());
        assert(out@ =~= flag_entry(*flag));
        out
    }

    fn format_head(app_name: &str, version: &str, description: &str, command: &Command) -> (r: String)
        ensures
            r@ == head_text(app_name@, version@, description@, *command),
    {
        let title = text_of(app_name).concat(" v").concat(version);
        let mut help = cyan(title.as_str());
        if description.unicode_len() > 0 {
            help.append("\n\n");
            help.append(description);
        }
        help.append("\n\n");
        help.append(yellow(bold("USO").as_str()).as_str());
        let usage = Self::format_usage(app_name, command);
        help.append("\n    ");
        help.append(usage.as_str());
        help.append("\n\n");
        assert(help@ =~= head_text(app_name@, version@, description@, *command));
        help
    }

    fn format_slots(command: &Command) -> (r: String)
        ensures
            r@ == slots_section(*command),
    {
        if !command.has_positional_args() {
            return String::new();
        }
        let mut help = yellow("ARGUMENTOS");
        help.append("\n");
        let ghost start = help@;
        let slots = &command.positional_args;
        let mut i: usize = 0;
        assert(start + slot_entries(slots@.subrange(0, 0)) =~= start);
        while i < slots.len()
            invariant
                i <= slots@.len(),
                help@ == start + slot_entries(slots@.subrange(0, i as int)),
            decreases slots@.len() - i,
        {
            let a = &slots[i];
            help.append("    ");
            help.append(green(a.name.as_str()).as_str());
            if !a.required {
                help.append(" (opcional)");
            }
            help.append("\n");
            help.append(a.description.as_str());
            proof {
                assert(slots@.subrange(0, i + 1).drop_last() =~= slots@.subrange(0, i as int));
            }
            assert(help@ =~= start + slot_entries(slots@.subrange(0, i + 1)));
            i = i + 1;
        }
        assert(slots@.subrange(0, slots@.len() as int) =~= slots@);
        help.append("\n");
        assert(help@ =~= slots_section(*command));
        help
    }

    fn format_flags(command: &Command) -> (r: String)
        ensures
            r@ == flags_section(*command),
    {
        if !command.has_flags() {
            return String::new();
        }
        let mut help = bold(yellow("OPÇÕES:").as_str());
        help.append("\n");
        let ghost start = help@;
        let flags = command.get_flags_sorted();
        let mut i: usize = 0;
        assert(start + flag_entries(targets(flags@).subrange(0, 0)) =~= start);
        while i < flags.len()
            invariant
                i <= flags@.len(),
                help@ == start + flag_entries(targets(flags@).subrange(0, i as int)),
            decreases flags@.len() - i,
        {
            help.append(Self::format_flag(flags[i]).as_str());
            proof {
                assert(targets(flags@).subrange(0, i + 1).drop_last() =~= targets(flags@).subrange(0, i as int));
            }
            assert(help@ =~= start + flag_entries(targets(flags@).subrange(0, i + 1)));
            i = i + 1;
        }
        assert(targets(flags@).subrange(0, flags@.len() as int) =~= targets(flags@));
        help.append("\n");
        assert(help@ =~= flags_section(*command));
        help
    }

    /// The help text of `command` in the application `app_name` at
    /// `version`: title, description, usage, positional slots and flags in
    /// order of name.
    pub fn format_help(app_name: &str, version: &str, description: &str, command: &Command) -> (r: String)
        ensures
            r@ == help_text(app_name@, version@, description@, *command),
    {
        let head = Self::format_head(app_name, version, description, command);
        let slots = Self::format_slots(command);
        let flags = Self::format_flags(command);
        head.concat(slots.as_str()).concat(flags.as_str())
    }

    /// The tag of an error message.
    pub fn error_tag() -> (r: String)
        ensures
            r@ == "\x1b[40m"@ + "\x1b[31m"@ + bold_text("[ERROR]"@) + "\x1b[39m"@ + "\x1b[49m"@,
    {
        on_black(red(bold("[ERROR]").as_str()).as_str())
    }

    /// The tag of a success message.
    pub fn success_tag() -> (r: String)
        ensures
            r@ == "\x1b[40m"@ + "\x1b[32m"@ + bold_text("[SUCCESS]"@) + "\x1b[39m"@ + "\x1b[49m"@,
    {
        on_black(green(bold("[SUCCESS]").as_str()).as_str())
    }

    /// The tag of a warning.
    pub fn warning_tag() -> (r: String)
        ensures
            r@ == "\x1b[40m"@ + yellow_text(bold_text("[WARNING]"@)) + "\x1b[49m"@,
    {
        on_black(yellow(bold("[WARNING]").as_str()).as_str())
    }

    /// The tag of an informative message.
    pub fn info_tag() -> (r: String)
        ensures
            r@ == "\x1b[40m"@ + "\x1b[34m"@ + bold_text("[INFO]"@) + "\x1b[39m"@ + "\x1b[49m"@,
    {
        on_black(blue(bold("[INFO]").as_str()).as_str())
    }
}

} // verus!
