//! The definition model: commands, their flags, positional slots and
//! subcommands.
use vstd::prelude::*;

use crate::flag::Flag;
use crate::text::{
    first_match, lemma_first_match_step, lemma_text_le_total, same_text, text_le, text_le_exec,
    text_of,
};

verus! {

/// A named slot for a token that is neither a flag nor a subcommand.
#[derive(Debug, Clone)]
pub struct PositionalArg {
    pub name: String,
    pub description: String,
    pub required: bool,
}

impl PositionalArg {
    /// A required slot without description.
    pub fn new(name: &str) -> (r: Self)
        ensures
            r.name@ == name@,
            r.description@ == Seq::<char>::empty(),
            r.required,
    {
        PositionalArg { name: text_of(name), description: String::new(), required: true }
    }

    pub fn description(self, description: &str) -> (r: Self)
        ensures
            r.name == self.name,
            r.description@ == description@,
            r.required == self.required,
    {
        PositionalArg { description: text_of(description), ..self }
    }

    pub fn required(self, required: bool) -> (r: Self)
        ensures
            r == (PositionalArg { required, ..self }),
    {
        PositionalArg { required, ..self }
    }
}

/// A named node of the command tree.
#[derive(Debug)]
pub struct Command {
    pub name: String,
    pub description: String,
    pub flags: Vec<Flag>,
    pub subcommands: Vec<Command>,
    pub positional_args: Vec<PositionalArg>,
    pub show_help_on_empty: bool,
}

/// Whether no two flags share a name.
pub open spec fn distinct_names(flags: Seq<Flag>) -> bool {
    forall|i: int, j: int| 0 <= i < j < flags.len() ==> flags[i].name@ != flags[j].name@
}

/// Whether the flag must be given: required, with no default to fall back on.
pub open spec fn mandatory(f: Flag) -> bool {
    f.required && f.default_value is None
}

/// Where the flag named `name` stands in `flags`, or -1.
pub open spec fn flag_index(flags: Seq<Flag>, name: Seq<char>) -> int {
    first_match(flags, |f: Flag| f.name@ == name)
}

/// Where the first flag with alias `c` stands in `flags`, or -1.
pub open spec fn short_index(flags: Seq<Flag>, c: char) -> int {
    first_match(flags, |f: Flag| f.short == Some(c))
}

/// Where the subcommand named `name` stands in `subs`, or -1.
pub open spec fn command_index(subs: Seq<Command>, name: Seq<char>) -> int {
    first_match(subs, |c: Command| c.name@ == name)
}

/// `s`, sorted by name, with `f` put after the last element whose name
/// comes no later than its own.
pub open spec fn insert_flag(s: Seq<Flag>, f: Flag) -> Seq<Flag>
    decreases s.len(),
{
    if s.len() == 0 {
        seq![f]
    } else if text_le(s.last().name@, f.name@) {
        s.push(f)
    } else {
        insert_flag(s.drop_last(), f).push(s.last())
    }
}

/// The flags in order of name; flags of equal name keep their order.
pub open spec fn sorted_flags(s: Seq<Flag>) -> Seq<Flag>
    decreases s.len(),
{
    if s.len() == 0 {
        Seq::empty()
    } else {
        insert_flag(sorted_flags(s.drop_last()), s.last())
    }
}

/// `s`, sorted by name, with `c` put after the last element whose name
/// comes no later than its own.
pub open spec fn insert_command(s: Seq<Command>, c: Command) -> Seq<Command>
    decreases s.len(),
{
    if s.len() == 0 {
        seq![c]
    } else if text_le(s.last().name@, c.name@) {
        s.push(c)
    } else {
        insert_command(s.drop_last(), c).push(s.last())
    }
}

/// The commands in order of name; commands of equal name keep their order.
pub open spec fn sorted_commands(s: Seq<Command>) -> Seq<Command>
    decreases s.len(),
{
    if s.len() == 0 {
        Seq::empty()
    } else {
        insert_command(sorted_commands(s.drop_last()), s.last())
    }
}

/// Whether each flag's name comes no later than the next one's.
pub open spec fn flags_in_order(s: Seq<Flag>) -> bool {
    forall|i: int| 0 <= i < s.len() - 1 ==> text_le(#[trigger] s[i].name@, s[i + 1].name@)
}

/// Whether each command's name comes no later than the next one's.
pub open spec fn commands_in_order(s: Seq<Command>) -> bool {
    forall|i: int| 0 <= i < s.len() - 1 ==> text_le(#[trigger] s[i].name@, s[i + 1].name@)
}

proof fn lemma_insert_flag(s: Seq<Flag>, f: Flag)
    requires
        flags_in_order(s),
    ensures
        flags_in_order(insert_flag(s, f)),
        insert_flag(s, f).len() == s.len() + 1,
        forall|x: Flag| #[trigger] insert_flag(s, f).contains(x) <==> (s.contains(x) || x == f),
    decreases s.len(),
{
    let r = insert_flag(s, f);
    if s.len() == 0 {
        assert(r =~= seq![f]);
        assert forall|x: Flag| r.contains(x) <==> (s.contains(x) || x == f) by {
            if r.contains(x) {
                assert(r[0] == x);
            }
            if x == f {
                assert(r[0] == x);
            }
        }
    } else if text_le(s.last().name@, f.name@) {
        assert forall|x: Flag| r.contains(x) <==> (s.contains(x) || x == f) by {
            if r.contains(x) {
                let i = choose|i: int| 0 <= i < r.len() && r[i] == x;
                if i < s.len() {
                    assert(s[i] == x);
                }
            }
            if s.contains(x) {
                let i = choose|i: int| 0 <= i < s.len() && s[i] == x;
                assert(r[i] == x);
            }
            if x == f {
                assert(r[s.len() as int] == x);
            }
        }
    } else {
        let d = s.drop_last();
        assert(flags_in_order(d)) by {
            assert forall|i: int| 0 <= i < d.len() - 1 implies text_le(#[trigger] d[i].name@, d[i + 1].name@) by {
                assert(text_le(s[i].name@, s[i + 1].name@));
            }
        }
        lemma_insert_flag(d, f);
        let t = insert_flag(d, f);
        lemma_text_le_total(s.last().name@, f.name@);
        assert(t.last() == f || (d.len() > 0 && t.last() == d.last())) by {
            assert(t.contains(t.last()));
            if t.last() != f {
                assert(d.contains(t.last()));
                let i = choose|i: int| 0 <= i < d.len() && d[i] == t.last();
                if d.len() > 0 && i < d.len() - 1 {
                    lemma_insert_flag_last(d, f);
                }
            }
        }
        assert forall|i: int| 0 <= i < r.len() - 1 implies text_le(#[trigger] r[i].name@, r[i + 1].name@) by {
            if i < t.len() - 1 {
                assert(r[i] == t[i] && r[i + 1] == t[i + 1]);
            } else {
                assert(r[i] == t.last());
                assert(r[i + 1] == s.last());
                if d.len() > 0 && t.last() == d.last() {
                    assert(text_le(s[d.len() - 1].name@, s[d.len() as int].name@));
                }
            }
        }
        assert forall|x: Flag| r.contains(x) <==> (s.contains(x) || x == f) by {
            if r.contains(x) {
                let i = choose|i: int| 0 <= i < r.len() && r[i] == x;
                if i < t.len() {
                    assert(t[i] == x);
                    assert(t.contains(x));
                    if d.contains(x) {
                        let k = choose|k: int| 0 <= k < d.len() && d[k] == x;
                        assert(s[k] == x);
                    }
                } else {
                    assert(s[s.len() - 1] == x);
                }
            }
            if s.contains(x) {
                let k = choose|k: int| 0 <= k < s.len() && s[k] == x;
                if k < d.len() {
                    assert(d[k] == x);
                    assert(t.contains(x));
                    let i = choose|i: int| 0 <= i < t.len() && t[i] == x;
                    assert(r[i] == x);
                } else {
                    assert(r[r.len() - 1] == x);
                }
            }
            if x == f {
                assert(t.contains(x));
                let i = choose|i: int| 0 <= i < t.len() && t[i] == x;
                assert(r[i] == x);
            }
        }
    }
}

/// Inserting into a nonempty ordered list ends it with `f` or with the
/// list's own last element.
proof fn lemma_insert_flag_last(s: Seq<Flag>, f: Flag)
    requires
        s.len() > 0,
    ensures
        insert_flag(s, f).last() == f || insert_flag(s, f).last() == s.last(),
{
}

/// Sorting by name orders the flags and keeps exactly them.
pub proof fn lemma_sorted_flags(s: Seq<Flag>)
    ensures
        flags_in_order(sorted_flags(s)),
        sorted_flags(s).len() == s.len(),
        forall|x: Flag| #[trigger] sorted_flags(s).contains(x) <==> s.contains(x),
    decreases s.len(),
{
    if s.len() > 0 {
        let d = s.drop_last();
        lemma_sorted_flags(d);
        lemma_insert_flag(sorted_flags(d), s.last());
        assert forall|x: Flag| #[trigger] sorted_flags(s).contains(x) <==> s.contains(x) by {
            if d.contains(x) {
                let k = choose|k: int| 0 <= k < d.len() && d[k] == x;
                assert(s[k] == x);
            }
            if s.contains(x) {
                let k = choose|k: int| 0 <= k < s.len() && s[k] == x;
                if k < d.len() {
                    assert(d[k] == x);
                }
            }
            assert(sorted_flags(d).contains(x) <==> d.contains(x));
        }
    }
}

proof fn lemma_insert_command(s: Seq<Command>, f: Command)
    requires
        commands_in_order(s),
    ensures
        commands_in_order(insert_command(s, f)),
        insert_command(s, f).len() == s.len() + 1,
        forall|x: Command| #[trigger] insert_command(s, f).contains(x) <==> (s.contains(x) || x == f),
    decreases s.len(),
{
    let r = insert_command(s, f);
    if s.len() == 0 {
        assert(r =~= seq![f]);
        assert forall|x: Command| r.contains(x) <==> (s.contains(x) || x == f) by {
            if r.contains(x) {
                assert(r[0] == x);
            }
            if x == f {
                assert(r[0] == x);
            }
        }
    } else if text_le(s.last().name@, f.name@) {
        assert forall|x: Command| r.contains(x) <==> (s.contains(x) || x == f) by {
            if r.contains(x) {
                let i = choose|i: int| 0 <= i < r.len() && r[i] == x;
                if i < s.len() {
                    assert(s[i] == x);
                }
            }
            if s.contains(x) {
                let i = choose|i: int| 0 <= i < s.len() && s[i] == x;
                assert(r[i] == x);
            }
            if x == f {
                assert(r[s.len() as int] == x);
            }
        }
    } else {
        let d = s.drop_last();
        assert(commands_in_order(d)) by {
            assert forall|i: int| 0 <= i < d.len() - 1 implies text_le(#[trigger] d[i].name@, d[i + 1].name@) by {
                assert(text_le(s[i].name@, s[i + 1].name@));
            }
        }
        lemma_insert_command(d, f);
        let t = insert_command(d, f);
        lemma_text_le_total(s.last().name@, f.name@);
        assert(t.last() == f || (d.len() > 0 && t.last() == d.last())) by {
            assert(t.contains(t.last()));
            if t.last() != f {
                assert(d.contains(t.last()));
                let i = choose|i: int| 0 <= i < d.len() && d[i] == t.last();
                if d.len() > 0 && i < d.len() - 1 {
                    lemma_insert_command_last(d, f);
                }
            }
        }
        assert forall|i: int| 0 <= i < r.len() - 1 implies text_le(#[trigger] r[i].name@, r[i + 1].name@) by {
            if i < t.len() - 1 {
                assert(r[i] == t[i] && r[i + 1] == t[i + 1]);
            } else {
                assert(r[i] == t.last());
                assert(r[i + 1] == s.last());
                if d.len() > 0 && t.last() == d.last() {
                    assert(text_le(s[d.len() - 1].name@, s[d.len() as int].name@));
                }
            }
        }
        assert forall|x: Command| r.contains(x) <==> (s.contains(x) || x == f) by {
            if r.contains(x) {
                let i = choose|i: int| 0 <= i < r.len() && r[i] == x;
                if i < t.len() {
                    assert(t[i] == x);
                    assert(t.contains(x));
                    if d.contains(x) {
                        let k = choose|k: int| 0 <= k < d.len() && d[k] == x;
                        assert(s[k] == x);
                    }
                } else {
                    assert(s[s.len() - 1] == x);
                }
            }
            if s.contains(x) {
                let k = choose|k: int| 0 <= k < s.len() && s[k] == x;
                if k < d.len() {
                    assert(d[k] == x);
                    assert(t.contains(x));
                    let i = choose|i: int| 0 <= i < t.len() && t[i] == x;
                    assert(r[i] == x);
                } else {
                    assert(r[r.len() - 1] == x);
                }
            }
            if x == f {
                assert(t.contains(x));
                let i = choose|i: int| 0 <= i < t.len() && t[i] == x;
                assert(r[i] == x);
            }
        }
    }
}

/// Inserting into a nonempty ordered list ends it with `f` or with the
/// list's own last element.
proof fn lemma_insert_command_last(s: Seq<Command>, f: Command)
    requires
        s.len() > 0,
    ensures
        insert_command(s, f).last() == f || insert_command(s, f).last() == s.last(),
{
}

/// Sorting by name orders the commands and keeps exactly them.
pub proof fn lemma_sorted_commands(s: Seq<Command>)
    ensures
        commands_in_order(sorted_commands(s)),
        sorted_commands(s).len() == s.len(),
        forall|x: Command| #[trigger] sorted_commands(s).contains(x) <==> s.contains(x),
    decreases s.len(),
{
    if s.len() > 0 {
        let d = s.drop_last();
        lemma_sorted_commands(d);
        lemma_insert_command(sorted_commands(d), s.last());
        assert forall|x: Command| #[trigger] sorted_commands(s).contains(x) <==> s.contains(x) by {
            if d.contains(x) {
                let k = choose|k: int| 0 <= k < d.len() && d[k] == x;
                assert(s[k] == x);
            }
            if s.contains(x) {
                let k = choose|k: int| 0 <= k < s.len() && s[k] == x;
                if k < d.len() {
                    assert(d[k] == x);
                }
            }
            assert(sorted_commands(d).contains(x) <==> d.contains(x));
        }
    }
}

/// The references' targets.
pub open spec fn targets<T>(s: Seq<&T>) -> Seq<T> {
    s.map_values(|r: &T| *r)
}

proof fn lemma_insert_flag_at(s: Seq<Flag>, f: Flag, j: int)
    requires
        0 <= j <= s.len(),
        j == 0 || text_le(s[j - 1].name@, f.name@),
        forall|k: int| j <= k < s.len() ==> !text_le(#[trigger] s[k].name@, f.name@),
    ensures
        insert_flag(s, f) == s.subrange(0, j).push(f) + s.subrange(j, s.len() as int),
    decreases s.len(),
{
    if s.len() == 0 {
        assert(s.subrange(0, j).push(f) + s.subrange(j, s.len() as int) =~= seq![f]);
    } else if j == s.len() {
        assert(s.subrange(0, j) =~= s);
        assert(s.subrange(0, j).push(f) + s.subrange(j, s.len() as int) =~= s.push(f));
    } else {
        let d = s.drop_last();
        assert(!text_le(s[s.len() - 1].name@, f.name@));
        lemma_insert_flag_at(d, f, j);
        assert(s.subrange(0, j).push(f) + s.subrange(j, s.len() as int) =~= (d.subrange(0, j).push(f)
            + d.subrange(j, d.len() as int)).push(s.last()));
    }
}

proof fn lemma_insert_command_at(s: Seq<Command>, c: Command, j: int)
    requires
        0 <= j <= s.len(),
        j == 0 || text_le(s[j - 1].name@, c.name@),
        forall|k: int| j <= k < s.len() ==> !text_le(#[trigger] s[k].name@, c.name@),
    ensures
        insert_command(s, c) == s.subrange(0, j).push(c) + s.subrange(j, s.len() as int),
    decreases s.len(),
{
    if s.len() == 0 {
        assert(s.subrange(0, j).push(c) + s.subrange(j, s.len() as int) =~= seq![c]);
    } else if j == s.len() {
        assert(s.subrange(0, j) =~= s);
        assert(s.subrange(0, j).push(c) + s.subrange(j, s.len() as int) =~= s.push(c));
    } else {
        let d = s.drop_last();
        assert(!text_le(s[s.len() - 1].name@, c.name@));
        lemma_insert_command_at(d, c, j);
        assert(s.subrange(0, j).push(c) + s.subrange(j, s.len() as int) =~= (d.subrange(0, j).push(c)
            + d.subrange(j, d.len() as int)).push(s.last()));
    }
}

/// The number of required slots.
pub open spec fn required_count(slots: Seq<PositionalArg>) -> nat
    decreases slots.len(),
{
    if slots.len() == 0 {
        0
    } else {
        required_count(slots.drop_last()) + if slots.last().required {
            1nat
        } else {
            0nat
        }
    }
}

proof fn lemma_required_count_bound(slots: Seq<PositionalArg>)
    ensures
        required_count(slots) <= slots.len(),
    decreases slots.len(),
{
    if slots.len() > 0 {
        lemma_required_count_bound(slots.drop_last());
    }
}

/// `flags` with `flag` in place of the flag of the same name, or with
/// `flag` added at the end when none has its name.
pub open spec fn with_flag(flags: Seq<Flag>, flag: Flag) -> Seq<Flag> {
    let i = flag_index(flags, flag.name@);
    if i >= 0 {
        flags.update(i, flag)
    } else {
        flags.push(flag)
    }
}

/// `subs` with `sub` in place of the subcommand of the same name, or with
/// `sub` added at the end when none has its name.
pub open spec fn with_command(subs: Seq<Command>, sub: Command) -> Seq<Command> {
    let i = command_index(subs, sub.name@);
    if i >= 0 {
        subs.update(i, sub)
    } else {
        subs.push(sub)
    }
}

/// Finds the flag named `name`.
pub fn find_flag(flags: &Vec<Flag>, name: &str) -> (r: Option<usize>)
    ensures
        match r {
            Some(i) => i < flags@.len() && i as int == flag_index(flags@, name@),
            None => flag_index(flags@, name@) == -1,
        },
{
    let ghost p = |f: Flag| f.name@ == name@;
    let mut i: usize = 0;
    assert(flags@.subrange(0, 0).len() == 0);
    while i < flags.len()
        invariant
            i <= flags@.len(),
            p == (|f: Flag| f.name@ == name@),
            first_match(flags@.subrange(0, i as int), p) == -1,
        decreases flags@.len() - i,
    {
        proof {
            lemma_first_match_step(flags@, p, i as int);
        }
        if same_text(flags[i].name.as_str(), name) {
            proof {
                crate::text::lemma_first_match_prefix(flags@, p, i + 1);
            }
            return Some(i);
        }
        i = i + 1;
    }
    assert(flags@.subrange(0, flags@.len() as int) =~= flags@);
    None
}

/// Finds the first flag whose alias is `c`.
pub fn find_short(flags: &Vec<Flag>, c: char) -> (r: Option<usize>)
    ensures
        match r {
            Some(i) => i < flags@.len() && i as int == short_index(flags@, c),
            None => short_index(flags@, c) == -1,
        },
{
    let ghost p = |f: Flag| f.short == Some(c);
    let mut i: usize = 0;
    assert(flags@.subrange(0, 0).len() == 0);
    while i < flags.len()
        invariant
            i <= flags@.len(),
            p == (|f: Flag| f.short == Some(c)),
            first_match(flags@.subrange(0, i as int), p) == -1,
        decreases flags@.len() - i,
    {
        proof {
            lemma_first_match_step(flags@, p, i as int);
        }
        if flags[i].short == Some(c) {
            proof {
                crate::text::lemma_first_match_prefix(flags@, p, i + 1);
            }
            return Some(i);
        }
        i = i + 1;
    }
    assert(flags@.subrange(0, flags@.len() as int) =~= flags@);
    None
}

/// Finds the subcommand named `name`.
pub fn find_command(subs: &Vec<Command>, name: &str) -> (r: Option<usize>)
    ensures
        match r {
            Some(i) => i < subs@.len() && i as int == command_index(subs@, name@),
            None => command_index(subs@, name@) == -1,
        },
{
    let ghost p = |c: Command| c.name@ == name@;
    let mut i: usize = 0;
    assert(subs@.subrange(0, 0).len() == 0);
    while i < subs.len()
        invariant
            i <= subs@.len(),
            p == (|c: Command| c.name@ == name@),
            first_match(subs@.subrange(0, i as int), p) == -1,
        decreases subs@.len() - i,
    {
        proof {
            lemma_first_match_step(subs@, p, i as int);
        }
        if same_text(subs[i].name.as_str(), name) {
            proof {
                crate::text::lemma_first_match_prefix(subs@, p, i + 1);
            }
            return Some(i);
        }
        i = i + 1;
    }
    assert(subs@.subrange(0, subs@.len() as int) =~= subs@);
    None
}

impl Command {
    /// A command with no flags, subcommands or slots, that does not show
    /// help when given no tokens.
    pub fn new(name: &str) -> (r: Self)
        ensures
            r.name@ == name@,
            r.description@ == Seq::<char>::empty(),
            r.flags@.len() == 0,
            r.subcommands@.len() == 0,
            r.positional_args@.len() == 0,
            !r.show_help_on_empty,
    {
        Command {
            name: text_of(name),
            description: String::new(),
            flags: Vec::new(),
            subcommands: Vec::new(),
            positional_args: Vec::new(),
            show_help_on_empty: false,
        }
    }

    pub fn description(self, description: &str) -> (r: Self)
        ensures
            r.description@ == description@,
            r.name == self.name,
            r.flags == self.flags,
            r.subcommands == self.subcommands,
            r.positional_args == self.positional_args,
            r.show_help_on_empty == self.show_help_on_empty,
    {
        Command { description: text_of(description), ..self }
    }

    /// Adds `flag`, replacing the flag of the same name if there is one.
    pub fn add_flag(self, flag: Flag) -> (r: Self)
        ensures
            r.flags@ == with_flag(self.flags@, flag),
            r.name == self.name,
            r.description == self.description,
            r.subcommands == self.subcommands,
            r.positional_args == self.positional_args,
            r.show_help_on_empty == self.show_help_on_empty,
    {
        let mut c = self;
        match find_flag(&c.flags, flag.name.as_str()) {
            Some(i) => {
                c.flags.set(i, flag);
            },
            None => {
                c.flags.push(flag);
            },
        }
        c
    }

    /// Adds `subcommand`, replacing the subcommand of the same name if there
    /// is one.
    pub fn add_subcommand(self, subcommand: Command) -> (r: Self)
        ensures
            r.subcommands@ == with_command(self.subcommands@, subcommand),
            r.name == self.name,
            r.description == self.description,
            r.flags == self.flags,
            r.positional_args == self.positional_args,
            r.show_help_on_empty == self.show_help_on_empty,
    {
        let mut c = self;
        match find_command(&c.subcommands, subcommand.name.as_str()) {
            Some(i) => {
                c.subcommands.set(i, subcommand);
            },
            None => {
                c.subcommands.push(subcommand);
            },
        }
        c
    }

    /// Appends a positional slot.
    pub fn add_positional_arg(self, positional_arg: PositionalArg) -> (r: Self)
        ensures
            r.positional_args@ == self.positional_args@.push(positional_arg),
            r.name == self.name,
            r.description == self.description,
            r.flags == self.flags,
            r.subcommands == self.subcommands,
            r.show_help_on_empty == self.show_help_on_empty,
    {
        let mut c = self;
        c.positional_args.push(positional_arg);
        c
    }

    pub fn show_help_on_empty(self, show_help_on_empty: bool) -> (r: Self)
        ensures
            r == (Command { show_help_on_empty, ..self }),
    {
        Command { show_help_on_empty, ..self }
    }

    /// The flag named `name`; failing that, when `name` is one character,
    /// the first flag with that alias.
    pub fn get_flag(&self, name: &str) -> (r: Option<&Flag>)
        ensures
            flag_index(self.flags@, name@) >= 0 ==> r == Some(
                &self.flags@[flag_index(self.flags@, name@)],
            ),
            flag_index(self.flags@, name@) == -1 && name@.len() == 1 && short_index(
                self.flags@,
                name@[0],
            ) >= 0 ==> r == Some(&self.flags@[short_index(self.flags@, name@[0])]),
            flag_index(self.flags@, name@) == -1 && (name@.len() != 1 || short_index(
                self.flags@,
                name@[0],
            ) == -1) ==> r is None,
    {
        match find_flag(&self.flags, name) {
            Some(i) => Some(&self.flags[i]),
            None => {
                if name.unicode_len() == 1 {
                    match find_short(&self.flags, name.get_char(0)) {
                        Some(i) => Some(&self.flags[i]),
                        None => None,
                    }
                } else {
                    None
                }
            },
        }
    }

    /// The subcommand named `name`.
    pub fn get_subcommand(&self, name: &str) -> (r: Option<&Command>)
        ensures
            command_index(self.subcommands@, name@) >= 0 ==> r == Some(
                &self.subcommands@[command_index(self.subcommands@, name@)],
            ),
            command_index(self.subcommands@, name@) == -1 ==> r is None,
    {
        match find_command(&self.subcommands, name) {
            Some(i) => Some(&self.subcommands[i]),
            None => None,
        }
    }

    pub fn has_subcommands(&self) -> (r: bool)
        ensures
            r == (self.subcommands@.len() > 0),
    {
        self.subcommands.len() > 0
    }

    pub fn has_flags(&self) -> (r: bool)
        ensures
            r == (self.flags@.len() > 0),
    {
        self.flags.len() > 0
    }

    pub fn has_positional_args(&self) -> (r: bool)
        ensures
            r == (self.positional_args@.len() > 0),
    {
        self.positional_args.len() > 0
    }

    /// The number of required positional slots.
    pub fn required_positional_count(&self) -> (r: usize)
        ensures
            r == required_count(self.positional_args@),
    {
        let slots = &self.positional_args;
        let mut n: usize = 0;
        let mut i: usize = 0;
        while i < slots.len()
            invariant
                i <= slots@.len(),
                n == required_count(slots@.subrange(0, i as int)),
            decreases slots@.len() - i,
        {
            proof {
                assert(slots@.subrange(0, i + 1).drop_last() =~= slots@.subrange(0, i as int));
                lemma_required_count_bound(slots@.subrange(0, i as int));
            }
            if slots[i].required {
                n = n + 1;
            }
            i = i + 1;
        }
        assert(slots@.subrange(0, slots@.len() as int) =~= slots@);
        n
    }

    /// The flags in order of name, as by a stable sort.
    pub fn get_flags_sorted(&self) -> (r: Vec<&Flag>)
        ensures
            targets(r@) == sorted_flags(self.flags@),
            flags_in_order(targets(r@)),
            r@.len() == self.flags@.len(),
            forall|x: Flag| #[trigger] targets(r@).contains(x) <==> self.flags@.contains(x),
    {
        let mut out: Vec<&Flag> = Vec::new();
        let mut i: usize = 0;
        assert(targets(out@) =~= sorted_flags(self.flags@.subrange(0, 0)));
        while i < self.flags.len()
            invariant
                i <= self.flags@.len(),
                targets(out@) == sorted_flags(self.flags@.subrange(0, i as int)),
            decreases self.flags@.len() - i,
        {
            let f = &self.flags[i];
            let ghost s = targets(out@);
            let mut j: usize = out.len();
            while j > 0 && !text_le_exec(out[j - 1].name.as_str(), f.name.as_str())
                invariant
                    j <= out@.len(),
                    s == targets(out@),
                    *f == self.flags@[i as int],
                    forall|k: int| j <= k < s.len() ==> !text_le(#[trigger] s[k].name@, f.name@),
                decreases j,
            {
                j = j - 1;
            }
            proof {
                lemma_insert_flag_at(s, *f, j as int);
                let upto = self.flags@.subrange(0, i + 1);
                assert(upto.drop_last() =~= self.flags@.subrange(0, i as int));
            }
            out.insert(j, f);
            assert(targets(out@) =~= s.subrange(0, j as int).push(*f) + s.subrange(j as int, s.len() as int));
            i = i + 1;
        }
        assert(self.flags@.subrange(0, self.flags@.len() as int) =~= self.flags@);
        proof {
            lemma_sorted_flags(self.flags@);
        }
        out
    }

    /// The subcommands in order of name, as by a stable sort.
    pub fn get_subcommands_sorted(&self) -> (r: Vec<&Command>)
        ensures
            targets(r@) == sorted_commands(self.subcommands@),
            commands_in_order(targets(r@)),
            r@.len() == self.subcommands@.len(),
            forall|x: Command| #[trigger] targets(r@).contains(x) <==> self.subcommands@.contains(x),
    {
        let mut out: Vec<&Command> = Vec::new();
        let mut i: usize = 0;
        assert(targets(out@) =~= sorted_commands(self.subcommands@.subrange(0, 0)));
        while i < self.subcommands.len()
            invariant
                i <= self.subcommands@.len(),
                targets(out@) == sorted_commands(self.subcommands@.subrange(0, i as int)),
            decreases self.subcommands@.len() - i,
        {
            let c = &self.subcommands[i];
            let ghost s = targets(out@);
            let mut j: usize = out.len();
            while j > 0 && !text_le_exec(out[j - 1].name.as_str(), c.name.as_str())
                invariant
                    j <= out@.len(),
                    s == targets(out@),
                    *c == self.subcommands@[i as int],
                    forall|k: int| j <= k < s.len() ==> !text_le(#[trigger] s[k].name@, c.name@),
                decreases j,
            {
                j = j - 1;
            }
            proof {
                lemma_insert_command_at(s, *c, j as int);
                let upto = self.subcommands@.subrange(0, i + 1);
                assert(upto.drop_last() =~= self.subcommands@.subrange(0, i as int));
            }
            out.insert(j, c);
            assert(targets(out@) =~= s.subrange(0, j as int).push(*c) + s.subrange(j as int, s.len() as int));
            i = i + 1;
        }
        assert(self.subcommands@.subrange(0, self.subcommands@.len() as int) =~= self.subcommands@);
        proof {
            lemma_sorted_commands(self.subcommands@);
        }
        out
    }
}

} // verus!
