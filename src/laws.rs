//! What holds of every parse: the laws of the engine, proved over
//! [`parse_spec`], which [`CLIParser::parse`](crate::parser::CLIParser::parse)
//! meets exactly.
use vstd::prelude::*;

use crate::command::{command_index, distinct_names, flag_index, mandatory, Command};
use crate::error::ErrorView;
use crate::flag::{Flag, FlagType, ValueView};
use crate::parser::{
    defaults_from, finish, flag_step, fresh, is_help, is_long, is_short, parse_spec, scan, width,
    ArgsView,
};
use crate::number::{integer_list_of, lemma_sample_integer_lists};
use crate::values::{
    distinct_keys, lemma_lookup_put, lemma_merged_distinct, lemma_put_distinct, lookup, merged, put,
};

verus! {

/// The value a flag that was not set ends with: its default, if any.
pub open spec fn default_of(f: Flag) -> Option<ValueView> {
    match f.default_value {
        Some(d) => Some(d@),
        None => None,
    }
}

/// The defaults pass changes nothing but the flag values.
proof fn lemma_defaults_shape(flags: Seq<Flag>, i: int, st: ArgsView)
    requires
        0 <= i,
    ensures
        defaults_from(flags, i, st) matches Ok(out) ==> out.help == st.help && out.command
            == st.command && out.subcommand == st.subcommand && out.positional == st.positional,
    decreases flags.len() - i,
{
    if i < flags.len() {
        let f = flags[i];
        lemma_defaults_shape(flags, i + 1, st);
        if let Some(d) = f.default_value {
            lemma_defaults_shape(flags, i + 1, ArgsView { flags: put(st.flags, f.name@, d@), ..st });
        }
    }
}

/// The defaults pass keeps every value that was set.
proof fn lemma_defaults_keep(flags: Seq<Flag>, i: int, st: ArgsView, key: Seq<char>)
    requires
        0 <= i,
        lookup(st.flags, key) is Some,
    ensures
        defaults_from(flags, i, st) matches Ok(out) ==> lookup(out.flags, key) == lookup(st.flags, key),
    decreases flags.len() - i,
{
    if i < flags.len() {
        let f = flags[i];
        if lookup(st.flags, f.name@) is Some {
            lemma_defaults_keep(flags, i + 1, st, key);
        } else {
            match f.default_value {
                Some(d) => {
                    let next = ArgsView { flags: put(st.flags, f.name@, d@), ..st };
                    lemma_lookup_put(st.flags, f.name@, d@, key);
                    lemma_defaults_keep(flags, i + 1, next, key);
                },
                None => {
                    lemma_defaults_keep(flags, i + 1, st, key);
                },
            }
        }
    }
}

/// After a successful defaults pass, no flag from `i` on that must be
/// given is missing.
proof fn lemma_defaults_mandatory(flags: Seq<Flag>, i: int, st: ArgsView)
    requires
        0 <= i,
    ensures
        defaults_from(flags, i, st) matches Ok(out) ==> forall|j: int|
            i <= j < flags.len() && mandatory(#[trigger] flags[j]) ==> lookup(out.flags, flags[j].name@) is Some,
    decreases flags.len() - i,
{
    if i < flags.len() {
        let f = flags[i];
        if lookup(st.flags, f.name@) is Some {
            lemma_defaults_mandatory(flags, i + 1, st);
            lemma_defaults_keep(flags, i + 1, st, f.name@);
        } else {
            match f.default_value {
                Some(d) => {
                    let next = ArgsView { flags: put(st.flags, f.name@, d@), ..st };
                    lemma_defaults_mandatory(flags, i + 1, next);
                },
                None => {
                    lemma_defaults_mandatory(flags, i + 1, st);
                },
            }
        }
    }
}

/// The defaults pass succeeds when no flag from `i` on must be given.
proof fn lemma_defaults_succeed(flags: Seq<Flag>, i: int, st: ArgsView)
    requires
        0 <= i,
        forall|j: int| i <= j < flags.len() ==> !mandatory(#[trigger] flags[j]),
    ensures
        defaults_from(flags, i, st) is Ok,
    decreases flags.len() - i,
{
    if i < flags.len() {
        let f = flags[i];
        assert(!mandatory(flags[i]));
        lemma_defaults_succeed(flags, i + 1, st);
        if let Some(d) = f.default_value {
            lemma_defaults_succeed(flags, i + 1, ArgsView { flags: put(st.flags, f.name@, d@), ..st });
        }
    }
}

/// A flag from `i` on that is not set ends with its default, or unset.
proof fn lemma_defaults_unset(flags: Seq<Flag>, i: int, st: ArgsView, k: int)
    requires
        0 <= i <= k < flags.len(),
        distinct_names(flags),
        lookup(st.flags, flags[k].name@) is None,
    ensures
        defaults_from(flags, i, st) matches Ok(out) ==> lookup(out.flags, flags[k].name@) == default_of(flags[k]),
    decreases flags.len() - i,
{
    let f = flags[i];
    let key = flags[k].name@;
    if i == k {
        match f.default_value {
            Some(d) => {
                let next = ArgsView { flags: put(st.flags, f.name@, d@), ..st };
                lemma_lookup_put(st.flags, f.name@, d@, key);
                lemma_defaults_keep(flags, i + 1, next, key);
            },
            None => {
                if i + 1 < flags.len() {
                    lemma_defaults_unset_tail(flags, i + 1, st, key);
                }
            },
        }
    } else {
        assert(f.name@ != key);
        if lookup(st.flags, f.name@) is Some {
            lemma_defaults_unset(flags, i + 1, st, k);
        } else {
            match f.default_value {
                Some(d) => {
                    let next = ArgsView { flags: put(st.flags, f.name@, d@), ..st };
                    lemma_lookup_put(st.flags, f.name@, d@, key);
                    lemma_defaults_unset(flags, i + 1, next, k);
                },
                None => {
                    lemma_defaults_unset(flags, i + 1, st, k);
                },
            }
        }
    }
}

/// A name that no flag from `i` on has stays unset through the pass.
proof fn lemma_defaults_unset_tail(flags: Seq<Flag>, i: int, st: ArgsView, key: Seq<char>)
    requires
        0 <= i,
        forall|j: int| i <= j < flags.len() ==> (#[trigger] flags[j]).name@ != key,
        lookup(st.flags, key) is None,
    ensures
        defaults_from(flags, i, st) matches Ok(out) ==> lookup(out.flags, key) is None,
    decreases flags.len() - i,
{
    if i < flags.len() {
        let f = flags[i];
        assert(f.name@ != key);
        if let Some(d) = f.default_value {
            if lookup(st.flags, f.name@) is None {
                lemma_lookup_put(st.flags, f.name@, d@, key);
                lemma_defaults_unset_tail(flags, i + 1, ArgsView { flags: put(st.flags, f.name@, d@), ..st }, key);
            } else {
                lemma_defaults_unset_tail(flags, i + 1, st, key);
            }
        } else {
            lemma_defaults_unset_tail(flags, i + 1, st, key);
        }
    }
}

/// The first flag from `i` on that must be given and is not set is the one
/// the pass names.
proof fn lemma_defaults_first_missing(flags: Seq<Flag>, i: int, st: ArgsView, k: int)
    requires
        0 <= i <= k < flags.len(),
        distinct_names(flags),
        mandatory(flags[k]),
        lookup(st.flags, flags[k].name@) is None,
        forall|j: int| i <= j < k ==> !mandatory(#[trigger] flags[j]) || lookup(st.flags, flags[j].name@) is Some,
    ensures
        defaults_from(flags, i, st) == Err::<ArgsView, ErrorView>(
            ErrorView::RequiredFlagNotProvided { flag: flags[k].name@ },
        ),
    decreases k - i,
{
    if i < k {
        let f = flags[i];
        assert(f.name@ != flags[k].name@);
        if lookup(st.flags, f.name@) is Some {
            lemma_defaults_first_missing(flags, i + 1, st, k);
        } else {
            assert(!mandatory(flags[i]));
            match f.default_value {
                Some(d) => {
                    let next = ArgsView { flags: put(st.flags, f.name@, d@), ..st };
                    lemma_lookup_put(st.flags, f.name@, d@, flags[k].name@);
                    assert forall|j: int| i + 1 <= j < k implies !mandatory(#[trigger] flags[j]) || lookup(
                        next.flags,
                        flags[j].name@,
                    ) is Some by {
                        lemma_lookup_put(st.flags, f.name@, d@, flags[j].name@);
                    }
                    lemma_defaults_first_missing(flags, i + 1, next, k);
                },
                None => {
                    lemma_defaults_first_missing(flags, i + 1, st, k);
                },
            }
        }
    }
}

/// The token `--name`.
pub open spec fn long_token(name: Seq<char>) -> Seq<char> {
    "--"@ + name
}

proof fn lemma_long_token(name: Seq<char>)
    ensures
        is_long(long_token(name)),
        long_token(name).skip(2) == name,
        name != "help"@ ==> !is_help(long_token(name)),
{
    reveal_strlit("--");
    reveal_strlit("--help");
    reveal_strlit("-h");
    reveal_strlit("help");
    let t = long_token(name);
    assert(t.skip(2) =~= name);
    if t == "--help"@ {
        assert("--help"@.skip(2) =~= "help"@);
    }
    if t == "-h"@ {
        assert(t[1] == '-');
    }
}

/// After a successful loop end, the flags that must be given are all set.
proof fn lemma_finish_mandatory(cmd: Command, st: ArgsView)
    ensures
        finish(cmd, st) matches Ok(p) ==> forall|j: int|
            0 <= j < cmd.flags@.len() && mandatory(#[trigger] cmd.flags@[j]) ==> lookup(p.flags, cmd.flags@[j].name@) is Some,
{
    lemma_defaults_mandatory(cmd.flags@, 0, st);
}

proof fn lemma_finish_shape(cmd: Command, st: ArgsView)
    ensures
        finish(cmd, st) matches Ok(p) ==> p.help == st.help && p.subcommand == st.subcommand,
{
    lemma_defaults_shape(cmd.flags@, 0, st);
}

proof fn lemma_scan_mandatory(cmd: Command, toks: Seq<Seq<char>>, i: int, st: ArgsView)
    requires
        0 <= i,
    ensures
        scan(cmd, toks, i, st) matches Ok(p) ==> p.help || forall|j: int|
            0 <= j < cmd.flags@.len() && mandatory(#[trigger] cmd.flags@[j]) ==> lookup(p.flags, cmd.flags@[j].name@) is Some,
    decreases toks.len() - i,
{
    if i >= toks.len() {
        lemma_finish_mandatory(cmd, st);
    } else {
        let t = toks[i];
        if is_help(t) {
        } else if is_long(t) {
            let k = flag_index(cmd.flags@, t.skip(2));
            if k >= 0 {
                let f = cmd.flags@[k];
                if let Ok(next) = flag_step(f, toks, i, st) {
                    lemma_scan_mandatory(cmd, toks, i + width(f), next);
                }
            }
        } else if is_short(t) {
            let k = crate::command::short_index(cmd.flags@, t[1]);
            if k >= 0 {
                let f = cmd.flags@[k];
                if let Ok(next) = flag_step(f, toks, i, st) {
                    lemma_scan_mandatory(cmd, toks, i + width(f), next);
                }
            }
        } else if command_index(cmd.subcommands@, t) >= 0 {
            let sub = cmd.subcommands@[command_index(cmd.subcommands@, t)];
            if let Ok(child) = parse_spec(sub, toks.skip(i + 1)) {
                lemma_finish_mandatory(
                    cmd,
                    ArgsView {
                        subcommand: Some(t),
                        flags: crate::values::merged(st.flags, child.flags),
                        positional: st.positional + child.positional,
                        help: child.help,
                        ..st
                    },
                );
            }
        } else if cmd.positional_args@.len() > 0 {
            lemma_scan_mandatory(cmd, toks, i + 1, ArgsView { positional: st.positional.push(t), ..st });
        }
    }
}

/// A first token `--help` or `-h` stops the parse at once: the result
/// asks for help, holds nothing else, and no check runs.
pub proof fn law_help_first(cmd: Command, toks: Seq<Seq<char>>)
    requires
        toks.len() > 0,
        is_help(toks[0]),
    ensures
        parse_spec(cmd, toks) == Ok::<ArgsView, ErrorView>(ArgsView { help: true, ..fresh(cmd.name@) }),
{
}

/// A request for help inside a subcommand comes back up at once: when the
/// subcommand named by the first token asks for help on the remaining
/// tokens, so does the whole parse, with that subcommand recorded and none
/// of the parent's checks run. By induction this holds at any depth.
pub proof fn law_help_propagates(cmd: Command, toks: Seq<Seq<char>>)
    requires
        toks.len() > 0,
        !is_help(toks[0]),
        !is_long(toks[0]),
        !is_short(toks[0]),
        command_index(cmd.subcommands@, toks[0]) >= 0,
        parse_spec(cmd.subcommands@[command_index(cmd.subcommands@, toks[0])], toks.skip(1)) matches Ok(c)
            && c.help,
    ensures
        parse_spec(cmd, toks) matches Ok(p) && p.help && p.subcommand == Some(toks[0]),
{
}

/// A help token right after a subcommand's name asks for help through the
/// subcommand, whatever the subcommand or the command above it requires.
pub proof fn law_help_in_subcommand(cmd: Command, toks: Seq<Seq<char>>)
    requires
        toks.len() > 1,
        !is_help(toks[0]),
        !is_long(toks[0]),
        !is_short(toks[0]),
        command_index(cmd.subcommands@, toks[0]) >= 0,
        is_help(toks[1]),
    ensures
        parse_spec(cmd, toks) matches Ok(p) && p.help && p.subcommand == Some(toks[0]),
{
    let sub = cmd.subcommands@[command_index(cmd.subcommands@, toks[0])];
    let rest = toks.skip(1);
    assert(rest[0] == toks[1]);
    law_help_first(sub, rest);
    law_help_propagates(cmd, toks);
}

/// A parse that succeeds without a request for help has set every flag of
/// the command that is required and has no default.
pub proof fn law_required_flags_present(cmd: Command, toks: Seq<Seq<char>>)
    ensures
        parse_spec(cmd, toks) matches Ok(p) ==> p.help || forall|j: int|
            0 <= j < cmd.flags@.len() && mandatory(#[trigger] cmd.flags@[j]) ==> lookup(p.flags, cmd.flags@[j].name@) is Some,
{
    lemma_scan_mandatory(cmd, toks, 0, fresh(cmd.name@));
}

/// Whatever the token loop left, when the positional counts pass, the
/// checks after it fail on the first flag that is required, has no default
/// and was not set, and name exactly that flag.
pub proof fn law_first_missing_required_flag(cmd: Command, st: ArgsView, k: int)
    requires
        0 <= k < cmd.flags@.len(),
        distinct_names(cmd.flags@),
        cmd.positional_args@.len() == 0 || (crate::command::required_count(cmd.positional_args@) <= st.positional.len()
            <= cmd.positional_args@.len()),
        mandatory(cmd.flags@[k]),
        lookup(st.flags, cmd.flags@[k].name@) is None,
        forall|j: int| 0 <= j < k ==> !mandatory(#[trigger] cmd.flags@[j]) || lookup(st.flags, cmd.flags@[j].name@) is Some,
    ensures
        finish(cmd, st) == Err::<ArgsView, ErrorView>(
            ErrorView::RequiredFlagNotProvided { flag: cmd.flags@[k].name@ },
        ),
{
    lemma_defaults_first_missing(cmd.flags@, 0, st, k);
}

/// Parsing no tokens, when that does not ask for help, against a command
/// without positional slots fails on the first flag that is required and
/// has no default, and names exactly that flag.
pub proof fn law_missing_required_flag(cmd: Command, k: int)
    requires
        0 <= k < cmd.flags@.len(),
        distinct_names(cmd.flags@),
        !cmd.show_help_on_empty,
        cmd.positional_args@.len() == 0,
        mandatory(cmd.flags@[k]),
        forall|j: int| 0 <= j < k ==> !mandatory(#[trigger] cmd.flags@[j]),
    ensures
        parse_spec(cmd, Seq::empty()) == Err::<ArgsView, ErrorView>(
            ErrorView::RequiredFlagNotProvided { flag: cmd.flags@[k].name@ },
        ),
{
    lemma_defaults_first_missing(cmd.flags@, 0, fresh(cmd.name@), k);
}

/// A flag that the token loop left unset ends with its default value, or
/// with no entry at all; never with a value it was not given.
pub proof fn law_unset_flag_takes_default(cmd: Command, st: ArgsView, k: int)
    requires
        0 <= k < cmd.flags@.len(),
        distinct_names(cmd.flags@),
        lookup(st.flags, cmd.flags@[k].name@) is None,
    ensures
        finish(cmd, st) matches Ok(p) ==> lookup(p.flags, cmd.flags@[k].name@) == default_of(cmd.flags@[k]),
{
    lemma_defaults_unset(cmd.flags@, 0, st, k);
}

/// With no tokens, a parse that does not ask for help gives each flag its
/// default, and no entry (never `false`) to a flag without one; it succeeds
/// when no positional slot is required and no flag must be given.
pub proof fn law_no_tokens(cmd: Command, k: int)
    requires
        0 <= k < cmd.flags@.len(),
        distinct_names(cmd.flags@),
        !cmd.show_help_on_empty,
    ensures
        parse_spec(cmd, Seq::empty()) matches Ok(p) ==> lookup(p.flags, cmd.flags@[k].name@) == default_of(cmd.flags@[k]),
        crate::command::required_count(cmd.positional_args@) == 0 && (forall|j: int| 0 <= j < cmd.flags@.len() ==> !mandatory(#[trigger] cmd.flags@[j]))
            ==> parse_spec(cmd, Seq::empty()) is Ok,
{
    law_unset_flag_takes_default(cmd, fresh(cmd.name@), k);
    if forall|j: int| 0 <= j < cmd.flags@.len() ==> !mandatory(#[trigger] cmd.flags@[j]) {
        lemma_defaults_succeed(cmd.flags@, 0, fresh(cmd.name@));
    }
}

/// `--flag` alone sets a boolean flag to true; the parse succeeds when the
/// command has no required positional slot and no flag that must be given.
pub proof fn law_bool_flag(cmd: Command, k: int)
    requires
        0 <= k < cmd.flags@.len(),
        flag_index(cmd.flags@, cmd.flags@[k].name@) == k,
        cmd.flags@[k].flag_type == FlagType::Bool,
        cmd.flags@[k].name@ != "help"@,
    ensures
        parse_spec(cmd, seq![long_token(cmd.flags@[k].name@)]) matches Ok(p) ==> lookup(p.flags, cmd.flags@[k].name@) == Some(ValueView::Bool(true)),
        crate::command::required_count(cmd.positional_args@) == 0 && (forall|j: int| 0 <= j < cmd.flags@.len() ==> !mandatory(#[trigger] cmd.flags@[j])) ==> parse_spec(cmd, seq![long_token(cmd.flags@[k].name@)]) is Ok,
{
    let f = cmd.flags@[k];
    let toks = seq![long_token(f.name@)];
    lemma_long_token(f.name@);
    let st = fresh(cmd.name@);
    let next = ArgsView { flags: put(st.flags, f.name@, ValueView::Bool(true)), ..st };
    lemma_lookup_put(st.flags, f.name@, ValueView::Bool(true), f.name@);
    assert(scan(cmd, toks, 1, next) == finish(cmd, next));
    lemma_defaults_keep(cmd.flags@, 0, next, f.name@);
    if crate::command::required_count(cmd.positional_args@) == 0 && (forall|j: int| 0 <= j < cmd.flags@.len() ==> !mandatory(#[trigger] cmd.flags@[j])) {
        lemma_defaults_succeed(cmd.flags@, 0, next);
    }
}

/// Repeating a string-list flag gathers its values in order, duplicates
/// kept: `--x a --x b` gives `[a, b]`.
pub proof fn law_list_flag_accumulates(cmd: Command, k: int, a: Seq<char>, b: Seq<char>)
    requires
        0 <= k < cmd.flags@.len(),
        flag_index(cmd.flags@, cmd.flags@[k].name@) == k,
        cmd.flags@[k].flag_type == FlagType::StringList,
        cmd.flags@[k].name@ != "help"@,
        cmd.flags@[k].admits(a),
        cmd.flags@[k].admits(b),
    ensures
        parse_spec(cmd, seq![long_token(cmd.flags@[k].name@), a, long_token(cmd.flags@[k].name@), b]) matches Ok(p)
            ==> lookup(p.flags, cmd.flags@[k].name@) == Some(ValueView::StringList(seq![a, b])),
        crate::command::required_count(cmd.positional_args@) == 0 && (forall|j: int| 0 <= j < cmd.flags@.len() ==> !mandatory(#[trigger] cmd.flags@[j]))
            ==> parse_spec(cmd, seq![long_token(cmd.flags@[k].name@), a, long_token(cmd.flags@[k].name@), b]) is Ok,
{
    let f = cmd.flags@[k];
    let name = f.name@;
    let toks = seq![long_token(name), a, long_token(name), b];
    lemma_long_token(name);
    let st0 = fresh(cmd.name@);
    let first = ValueView::StringList(seq![a]);
    let st1 = ArgsView { flags: put(st0.flags, name, first), ..st0 };
    assert(lookup(st0.flags, name) is None);
    assert(flag_step(f, toks, 0, st0) == Ok::<ArgsView, ErrorView>(st1));
    lemma_lookup_put(st0.flags, name, first, name);
    let both = ValueView::StringList(seq![a] + seq![b]);
    let st2 = ArgsView { flags: put(st1.flags, name, both), ..st1 };
    assert(flag_step(f, toks, 2, st1) == Ok::<ArgsView, ErrorView>(st2));
    lemma_lookup_put(st1.flags, name, both, name);
    assert(seq![a] + seq![b] =~= seq![a, b]);
    assert(scan(cmd, toks, 4, st2) == finish(cmd, st2));
    assert(scan(cmd, toks, 2, st1) == scan(cmd, toks, 4, st2));
    lemma_defaults_keep(cmd.flags@, 0, st2, name);
    if crate::command::required_count(cmd.positional_args@) == 0 && (forall|j: int| 0 <= j < cmd.flags@.len() ==> !mandatory(#[trigger] cmd.flags@[j])) {
        lemma_defaults_succeed(cmd.flags@, 0, st2);
    }
}

/// An integer-list flag reads a comma-separated token into its integers,
/// and fails the parse on a token with a piece that is no integer.
pub proof fn law_integer_list_flag(cmd: Command, k: int, v: Seq<char>)
    requires
        0 <= k < cmd.flags@.len(),
        flag_index(cmd.flags@, cmd.flags@[k].name@) == k,
        cmd.flags@[k].flag_type == FlagType::IntegerList,
        cmd.flags@[k].name@ != "help"@,
    ensures
        integer_list_of(v) matches Some(l) ==> (parse_spec(cmd, seq![long_token(cmd.flags@[k].name@), v]) matches Ok(p)
            ==> lookup(p.flags, cmd.flags@[k].name@) == Some(ValueView::IntegerList(l))),
        integer_list_of(v) is None ==> parse_spec(cmd, seq![long_token(cmd.flags@[k].name@), v]) == Err::<ArgsView, ErrorView>(
            ErrorView::InvalidFlagValue { flag: cmd.flags@[k].name@, value: v, expected: "comma-separated integers"@ },
        ),
{
    let f = cmd.flags@[k];
    let name = f.name@;
    let toks = seq![long_token(name), v];
    lemma_long_token(name);
    let st0 = fresh(cmd.name@);
    assert(lookup(st0.flags, name) is None);
    if let Some(l) = integer_list_of(v) {
        let st1 = ArgsView { flags: put(st0.flags, name, ValueView::IntegerList(l)), ..st0 };
        assert(flag_step(f, toks, 0, st0) == Ok::<ArgsView, ErrorView>(st1));
        lemma_lookup_put(st0.flags, name, ValueView::IntegerList(l), name);
        assert(scan(cmd, toks, 2, st1) == finish(cmd, st1));
        lemma_defaults_keep(cmd.flags@, 0, st1, name);
    }
}

/// For every integer-list flag: `--numbers 1,2,3` gives the integers 1, 2
/// and 3, and `--numbers 1,x,3` fails the parse on that value.
pub proof fn law_integer_list_samples(cmd: Command, k: int)
    requires
        0 <= k < cmd.flags@.len(),
        flag_index(cmd.flags@, cmd.flags@[k].name@) == k,
        cmd.flags@[k].flag_type == FlagType::IntegerList,
        cmd.flags@[k].name@ != "help"@,
    ensures
        parse_spec(cmd, seq![long_token(cmd.flags@[k].name@), "1,2,3"@]) matches Ok(p) ==> lookup(p.flags, cmd.flags@[k].name@)
            == Some(ValueView::IntegerList(seq![1i64, 2i64, 3i64])),
        parse_spec(cmd, seq![long_token(cmd.flags@[k].name@), "1,x,3"@]) == Err::<ArgsView, ErrorView>(
            ErrorView::InvalidFlagValue { flag: cmd.flags@[k].name@, value: "1,x,3"@, expected: "comma-separated integers"@ },
        ),
{
    lemma_sample_integer_lists();
    law_integer_list_flag(cmd, k, "1,2,3"@);
    law_integer_list_flag(cmd, k, "1,x,3"@);
}

proof fn lemma_defaults_distinct(flags: Seq<Flag>, i: int, st: ArgsView)
    requires
        0 <= i,
        distinct_keys(st.flags),
    ensures
        defaults_from(flags, i, st) matches Ok(out) ==> distinct_keys(out.flags),
    decreases flags.len() - i,
{
    if i < flags.len() {
        let f = flags[i];
        lemma_defaults_distinct(flags, i + 1, st);
        if let Some(d) = f.default_value {
            lemma_put_distinct(st.flags, f.name@, d@);
            lemma_defaults_distinct(flags, i + 1, ArgsView { flags: put(st.flags, f.name@, d@), ..st });
        }
    }
}

proof fn lemma_step_distinct(f: Flag, toks: Seq<Seq<char>>, i: int, st: ArgsView)
    requires
        distinct_keys(st.flags),
    ensures
        flag_step(f, toks, i, st) matches Ok(next) ==> distinct_keys(next.flags),
{
    lemma_put_distinct(st.flags, f.name@, ValueView::Bool(true));
    if f.flag_type != FlagType::Bool && i + 1 < toks.len() {
        if let Ok(v) = f.value_spec(toks[i + 1]) {
            lemma_put_distinct(st.flags, f.name@, v);
            if let Some(old) = lookup(st.flags, f.name@) {
                if let Ok(c) = crate::parser::combined(old, v) {
                    lemma_put_distinct(st.flags, f.name@, c);
                }
            }
        }
    }
}

proof fn lemma_scan_distinct(cmd: Command, toks: Seq<Seq<char>>, i: int, st: ArgsView)
    requires
        0 <= i,
        distinct_keys(st.flags),
    ensures
        scan(cmd, toks, i, st) matches Ok(p) ==> distinct_keys(p.flags),
    decreases toks.len() - i,
{
    if i >= toks.len() {
        lemma_defaults_distinct(cmd.flags@, 0, st);
    } else {
        let t = toks[i];
        if is_help(t) {
        } else if is_long(t) {
            let k = flag_index(cmd.flags@, t.skip(2));
            if k >= 0 {
                let f = cmd.flags@[k];
                lemma_step_distinct(f, toks, i, st);
                if let Ok(next) = flag_step(f, toks, i, st) {
                    lemma_scan_distinct(cmd, toks, i + width(f), next);
                }
            }
        } else if is_short(t) {
            let k = crate::command::short_index(cmd.flags@, t[1]);
            if k >= 0 {
                let f = cmd.flags@[k];
                lemma_step_distinct(f, toks, i, st);
                if let Ok(next) = flag_step(f, toks, i, st) {
                    lemma_scan_distinct(cmd, toks, i + width(f), next);
                }
            }
        } else if command_index(cmd.subcommands@, t) >= 0 {
            let sub = cmd.subcommands@[command_index(cmd.subcommands@, t)];
            if let Ok(child) = parse_spec(sub, toks.skip(i + 1)) {
                lemma_merged_distinct(st.flags, child.flags);
                lemma_defaults_distinct(
                    cmd.flags@,
                    0,
                    ArgsView {
                        subcommand: Some(t),
                        flags: merged(st.flags, child.flags),
                        positional: st.positional + child.positional,
                        help: child.help,
                        ..st
                    },
                );
            }
        } else if cmd.positional_args@.len() > 0 {
            lemma_scan_distinct(cmd, toks, i + 1, ArgsView { positional: st.positional.push(t), ..st });
        }
    }
}

/// Every parse result maps each flag name to one value: no two of its
/// entries share a name.
pub proof fn law_result_keys_distinct(cmd: Command, toks: Seq<Seq<char>>)
    ensures
        parse_spec(cmd, toks) matches Ok(p) ==> distinct_keys(p.flags),
{
    lemma_scan_distinct(cmd, toks, 0, fresh(cmd.name@));
}

/// The tokens `--name v0 --name v1 ...`, one pair for each value.
pub open spec fn repeated(name: Seq<char>, vs: Seq<Seq<char>>) -> Seq<Seq<char>>
    decreases vs.len(),
{
    if vs.len() == 0 {
        Seq::empty()
    } else {
        repeated(name, vs.drop_last()) + seq![long_token(name), vs.last()]
    }
}

proof fn lemma_repeated_len(name: Seq<char>, vs: Seq<Seq<char>>)
    ensures
        repeated(name, vs).len() == 2 * vs.len(),
    decreases vs.len(),
{
    if vs.len() > 0 {
        lemma_repeated_len(name, vs.drop_last());
    }
}

proof fn lemma_repeated_at(name: Seq<char>, vs: Seq<Seq<char>>, j: int)
    requires
        0 <= j < vs.len(),
    ensures
        repeated(name, vs)[2 * j] == long_token(name),
        repeated(name, vs)[2 * j + 1] == vs[j],
    decreases vs.len(),
{
    let d = vs.drop_last();
    let r = repeated(name, vs);
    lemma_repeated_len(name, d);
    assert(r == repeated(name, d) + seq![long_token(name), vs.last()]);
    if j < d.len() {
        lemma_repeated_at(name, d, j);
        assert(r[2 * j] == repeated(name, d)[2 * j]);
        assert(r[2 * j + 1] == repeated(name, d)[2 * j + 1]);
    } else {
        assert(r[2 * j] == long_token(name));
        assert(r[2 * j + 1] == vs.last());
    }
}

/// Setting a key twice on an empty map leaves the second value alone.
proof fn lemma_put_twice(key: Seq<char>, a: ValueView, b: ValueView)
    ensures
        put(put(Seq::empty(), key, a), key, b) == put(Seq::empty(), key, b),
        lookup(put(Seq::empty(), key, a), key) == Some(a),
{
    let e = Seq::<(Seq<char>, ValueView)>::empty();
    lemma_lookup_put(e, key, a, key);
    let one = put(e, key, a);
    assert(crate::values::entry_index(e, key) == -1);
    assert(one == e.push((key, a)));
    assert(one.drop_last() =~= e);
    assert(crate::values::entry_index(one, key) == 0);
    assert(put(one, key, b) =~= e.push((key, b)));
}

/// The result after the first `k` pairs of `--name v`.
pub open spec fn gathered(cmd: Command, name: Seq<char>, vs: Seq<Seq<char>>, k: int) -> ArgsView {
    ArgsView { flags: put(Seq::empty(), name, ValueView::StringList(vs.subrange(0, k))), ..fresh(cmd.name@) }
}

proof fn lemma_gather(cmd: Command, kf: int, vs: Seq<Seq<char>>, k: int)
    requires
        0 <= kf < cmd.flags@.len(),
        flag_index(cmd.flags@, cmd.flags@[kf].name@) == kf,
        cmd.flags@[kf].flag_type == FlagType::StringList,
        cmd.flags@[kf].name@ != "help"@,
        forall|j: int| 0 <= j < vs.len() ==> cmd.flags@[kf].admits(#[trigger] vs[j]),
        1 <= k <= vs.len(),
    ensures
        scan(cmd, repeated(cmd.flags@[kf].name@, vs), 0, fresh(cmd.name@)) == scan(
            cmd,
            repeated(cmd.flags@[kf].name@, vs),
            2 * k,
            gathered(cmd, cmd.flags@[kf].name@, vs, k),
        ),
    decreases k,
{
    let f = cmd.flags@[kf];
    let name = f.name@;
    let toks = repeated(name, vs);
    lemma_repeated_len(name, vs);
    lemma_repeated_at(name, vs, k - 1);
    lemma_long_token(name);
    let i = 2 * (k - 1);
    let v_last = vs[k - 1];
    assert(f.admits(v_last));
    assert(toks[2 * (k - 1)] == long_token(name));
    assert(toks[2 * (k - 1) + 1] == v_last);
    let v = ValueView::StringList(seq![vs[k - 1]]);
    if k == 1 {
        let st0 = fresh(cmd.name@);
        assert(lookup(st0.flags, name) is None);
        assert(vs.subrange(0, 1) =~= seq![vs[0]]);
        assert(flag_step(f, toks, 0, st0) == Ok::<ArgsView, ErrorView>(gathered(cmd, name, vs, 1)));
    } else {
        lemma_gather(cmd, kf, vs, k - 1);
        let prev = gathered(cmd, name, vs, k - 1);
        let sofar = ValueView::StringList(vs.subrange(0, k - 1));
        lemma_put_twice(name, sofar, ValueView::StringList(vs.subrange(0, k)));
        assert(lookup(prev.flags, name) == Some(sofar));
        assert(vs.subrange(0, k - 1) + seq![vs[k - 1]] =~= vs.subrange(0, k));
        assert(flag_step(f, toks, i, prev) == Ok::<ArgsView, ErrorView>(gathered(cmd, name, vs, k)));
    }
}

/// Repeating a string-list flag any number of times gathers all its values
/// in order, duplicates kept: `--x v0 --x v1 ... --x vn` gives
/// `[v0, v1, ..., vn]`.
pub proof fn law_list_flag_gathers(cmd: Command, k: int, vs: Seq<Seq<char>>)
    requires
        0 <= k < cmd.flags@.len(),
        flag_index(cmd.flags@, cmd.flags@[k].name@) == k,
        cmd.flags@[k].flag_type == FlagType::StringList,
        cmd.flags@[k].name@ != "help"@,
        vs.len() >= 1,
        forall|j: int| 0 <= j < vs.len() ==> cmd.flags@[k].admits(#[trigger] vs[j]),
    ensures
        parse_spec(cmd, repeated(cmd.flags@[k].name@, vs)) matches Ok(p) ==> lookup(p.flags, cmd.flags@[k].name@)
            == Some(ValueView::StringList(vs)),
        crate::command::required_count(cmd.positional_args@) == 0 && (forall|j: int|
            0 <= j < cmd.flags@.len() ==> !mandatory(#[trigger] cmd.flags@[j])) ==> parse_spec(
            cmd,
            repeated(cmd.flags@[k].name@, vs),
        ) is Ok,
{
    let name = cmd.flags@[k].name@;
    let toks = repeated(name, vs);
    lemma_repeated_len(name, vs);
    lemma_gather(cmd, k, vs, vs.len() as int);
    let last = gathered(cmd, name, vs, vs.len() as int);
    assert(vs.subrange(0, vs.len() as int) =~= vs);
    assert(scan(cmd, toks, 2 * vs.len() as int, last) == finish(cmd, last));
    lemma_put_twice(name, ValueView::StringList(vs), ValueView::StringList(vs));
    lemma_defaults_keep(cmd.flags@, 0, last, name);
    if forall|j: int| 0 <= j < cmd.flags@.len() ==> !mandatory(#[trigger] cmd.flags@[j]) {
        lemma_defaults_succeed(cmd.flags@, 0, last);
    }
}

/// Whether no token of `toks` names flag `f`, by its name or its alias.
pub open spec fn never_named(f: Flag, toks: Seq<Seq<char>>) -> bool {
    forall|j: int|
        0 <= j < toks.len() ==> #[trigger] toks[j] != long_token(f.name@) && (f.short matches Some(c)
            ==> toks[j] != seq!['-', c])
}

proof fn lemma_scan_unnamed(cmd: Command, toks: Seq<Seq<char>>, i: int, st: ArgsView, k: int)
    requires
        0 <= i,
        0 <= k < cmd.flags@.len(),
        distinct_names(cmd.flags@),
        cmd.subcommands@.len() == 0,
        never_named(cmd.flags@[k], toks),
        lookup(st.flags, cmd.flags@[k].name@) is None,
    ensures
        scan(cmd, toks, i, st) matches Ok(p) ==> p.help || lookup(p.flags, cmd.flags@[k].name@) == default_of(
            cmd.flags@[k],
        ),
    decreases toks.len() - i,
{
    let key = cmd.flags@[k].name@;
    if i >= toks.len() {
        lemma_defaults_unset(cmd.flags@, 0, st, k);
    } else {
        let t = toks[i];
        assert(t != long_token(key));
        if is_help(t) {
        } else if is_long(t) {
            let g = flag_index(cmd.flags@, t.skip(2));
            if g >= 0 {
                crate::text::lemma_first_match(cmd.flags@, |f: Flag| f.name@ == t.skip(2));
                let f = cmd.flags@[g];
                assert(f.name@ == t.skip(2));
                reveal_strlit("--");
                assert(t =~= long_token(t.skip(2)));
                assert(f.name@ != key);
                lemma_step_keeps_other(f, toks, i, st, key);
                if let Ok(next) = flag_step(f, toks, i, st) {
                    lemma_scan_unnamed(cmd, toks, i + width(f), next, k);
                }
            }
        } else if is_short(t) {
            let g = crate::command::short_index(cmd.flags@, t[1]);
            if g >= 0 {
                crate::text::lemma_first_match(cmd.flags@, |f: Flag| f.short == Some(t[1]));
                let f = cmd.flags@[g];
                assert(f.short == Some(t[1]));
                assert(t =~= seq!['-', t[1]]);
                if f.name@ == key {
                    assert(g == k);
                }
                lemma_step_keeps_other(f, toks, i, st, key);
                if let Ok(next) = flag_step(f, toks, i, st) {
                    lemma_scan_unnamed(cmd, toks, i + width(f), next, k);
                }
            }
        } else if cmd.positional_args@.len() > 0 {
            lemma_scan_unnamed(cmd, toks, i + 1, ArgsView { positional: st.positional.push(t), ..st }, k);
        }
    }
}

proof fn lemma_step_keeps_other(f: Flag, toks: Seq<Seq<char>>, i: int, st: ArgsView, key: Seq<char>)
    requires
        f.name@ != key,
    ensures
        flag_step(f, toks, i, st) matches Ok(next) ==> lookup(next.flags, key) == lookup(st.flags, key),
{
    lemma_lookup_put(st.flags, f.name@, ValueView::Bool(true), key);
    if f.flag_type != FlagType::Bool && i + 1 < toks.len() {
        if let Ok(v) = f.value_spec(toks[i + 1]) {
            lemma_lookup_put(st.flags, f.name@, v, key);
            if let Some(old) = lookup(st.flags, f.name@) {
                if let Ok(c) = crate::parser::combined(old, v) {
                    lemma_lookup_put(st.flags, f.name@, c, key);
                }
            }
        }
    }
}

/// A flag that no token names ends the parse with its declared default,
/// or with no entry when it has none, for a command without subcommands
/// whose parse succeeds without a request for help.
pub proof fn law_unnamed_flag_takes_default(cmd: Command, toks: Seq<Seq<char>>, k: int)
    requires
        0 <= k < cmd.flags@.len(),
        distinct_names(cmd.flags@),
        cmd.subcommands@.len() == 0,
        never_named(cmd.flags@[k], toks),
    ensures
        parse_spec(cmd, toks) matches Ok(p) ==> p.help || lookup(p.flags, cmd.flags@[k].name@) == default_of(
            cmd.flags@[k],
        ),
{
    lemma_scan_unnamed(cmd, toks, 0, fresh(cmd.name@), k);
}

/// Whether `f` is the one flag of `flags` that must be given.
pub open spec fn only_mandatory(flags: Seq<Flag>, k: int) -> bool {
    mandatory(flags[k]) && forall|j: int| 0 <= j < flags.len() && j != k ==> !mandatory(#[trigger] flags[j])
}

proof fn lemma_scan_missing(cmd: Command, toks: Seq<Seq<char>>, i: int, st: ArgsView, k: int)
    requires
        0 <= i,
        0 <= k < cmd.flags@.len(),
        distinct_names(cmd.flags@),
        cmd.subcommands@.len() == 0,
        only_mandatory(cmd.flags@, k),
        never_named(cmd.flags@[k], toks),
        forall|j: int| 0 <= j < toks.len() ==> !is_help(#[trigger] toks[j]),
        lookup(st.flags, cmd.flags@[k].name@) is None,
    ensures
        scan(cmd, toks, i, st) is Err,
        scan(cmd, toks, i, st) matches Err(ErrorView::RequiredFlagNotProvided { flag }) ==> flag == cmd.flags@[k].name@,
    decreases toks.len() - i,
{
    let key = cmd.flags@[k].name@;
    if i >= toks.len() {
        let slots = cmd.positional_args@;
        if !(slots.len() > 0 && st.positional.len() < crate::command::required_count(slots)) && !(slots.len() > 0
            && st.positional.len() > slots.len()) {
            lemma_defaults_first_missing(cmd.flags@, 0, st, k);
        }
    } else {
        let t = toks[i];
        assert(t != long_token(key));
        assert(!is_help(t));
        if is_long(t) {
            let g = flag_index(cmd.flags@, t.skip(2));
            if g >= 0 {
                crate::text::lemma_first_match(cmd.flags@, |f: Flag| f.name@ == t.skip(2));
                let f = cmd.flags@[g];
                reveal_strlit("--");
                assert(t =~= long_token(t.skip(2)));
                assert(f.name@ != key);
                lemma_step_keeps_other(f, toks, i, st, key);
                if let Ok(next) = flag_step(f, toks, i, st) {
                    lemma_scan_missing(cmd, toks, i + width(f), next, k);
                }
            }
        } else if is_short(t) {
            let g = crate::command::short_index(cmd.flags@, t[1]);
            if g >= 0 {
                crate::text::lemma_first_match(cmd.flags@, |f: Flag| f.short == Some(t[1]));
                let f = cmd.flags@[g];
                assert(t =~= seq!['-', t[1]]);
                if f.name@ == key {
                    assert(g == k);
                }
                lemma_step_keeps_other(f, toks, i, st, key);
                if let Ok(next) = flag_step(f, toks, i, st) {
                    lemma_scan_missing(cmd, toks, i + width(f), next, k);
                }
            }
        } else if cmd.positional_args@.len() > 0 {
            lemma_scan_missing(cmd, toks, i + 1, ArgsView { positional: st.positional.push(t), ..st }, k);
        }
    }
}

/// When one flag must be given and no token names it (and none asks for
/// help), the parse fails; if it fails for a missing required flag, it
/// names exactly that flag.
pub proof fn law_unnamed_required_flag_fails(cmd: Command, toks: Seq<Seq<char>>, k: int)
    requires
        0 <= k < cmd.flags@.len(),
        distinct_names(cmd.flags@),
        cmd.subcommands@.len() == 0,
        only_mandatory(cmd.flags@, k),
        never_named(cmd.flags@[k], toks),
        forall|j: int| 0 <= j < toks.len() ==> !is_help(#[trigger] toks[j]),
        !(toks.len() == 0 && cmd.show_help_on_empty),
    ensures
        parse_spec(cmd, toks) is Err,
        parse_spec(cmd, toks) matches Err(ErrorView::RequiredFlagNotProvided { flag }) ==> flag == cmd.flags@[k].name@,
{
    lemma_scan_missing(cmd, toks, 0, fresh(cmd.name@), k);
}

/// One occurrence of a string-list flag with an allowed value appends that
/// value to what the flag held (or starts the list), in order, and leaves
/// every other name as it was.
pub proof fn law_list_step(f: Flag, toks: Seq<Seq<char>>, i: int, st: ArgsView, other: Seq<char>)
    requires
        f.flag_type == FlagType::StringList,
        0 <= i,
        i + 1 < toks.len(),
        f.admits(toks[i + 1]),
        other != f.name@,
        lookup(st.flags, f.name@) is None || lookup(st.flags, f.name@) matches Some(ValueView::StringList(_)),
    ensures
        flag_step(f, toks, i, st) matches Ok(next) && lookup(next.flags, f.name@) == Some(
            ValueView::StringList(
                match lookup(st.flags, f.name@) {
                    Some(ValueView::StringList(a)) => a.push(toks[i + 1]),
                    _ => seq![toks[i + 1]],
                },
            ),
        ) && lookup(next.flags, other) == lookup(st.flags, other),
{
    let v = toks[i + 1];
    match lookup(st.flags, f.name@) {
        Some(ValueView::StringList(a)) => {
            assert(a + seq![v] =~= a.push(v));
            lemma_lookup_put(st.flags, f.name@, ValueView::StringList(a.push(v)), f.name@);
            lemma_lookup_put(st.flags, f.name@, ValueView::StringList(a.push(v)), other);
        },
        _ => {
            lemma_lookup_put(st.flags, f.name@, ValueView::StringList(seq![v]), f.name@);
            lemma_lookup_put(st.flags, f.name@, ValueView::StringList(seq![v]), other);
        },
    }
}

} // verus!
