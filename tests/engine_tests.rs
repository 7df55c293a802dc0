use cliparser::flag::FlagValue;
use cliparser::parser::CLIParser;
use cliparser::{
    AppError, ArgType, Argument, CLIApp, Command, Flag, FlagType, PositionalArg,
};

fn toks(v: &[&str]) -> Vec<String> {
    v.iter().map(|s| s.to_string()).collect()
}

#[test]
fn bool_flag_alone_is_true() {
    let cmd = Command::new("c").add_flag(Flag::new("flag", FlagType::Bool));
    let parsed = CLIParser::parse(&cmd, toks(&["--flag"])).unwrap();
    assert_eq!(parsed.get_flag("flag"), Some(&FlagValue::Bool(true)));
    assert_eq!(parsed.flags.len(), 1);
}

#[test]
fn bool_flag_omitted_is_unset_not_false() {
    let cmd = Command::new("c").add_flag(Flag::new("flag", FlagType::Bool));
    let parsed = CLIParser::parse(&cmd, toks(&[])).unwrap();
    assert!(parsed.get_flag("flag").is_none());
    assert!(!parsed.has_flag("flag"));
    assert!(!parsed.help_requested);
}

#[test]
fn bool_flag_omitted_takes_declared_default() {
    let cmd = Command::new("c")
        .add_flag(Flag::new("flag", FlagType::Bool).default_value(FlagValue::Bool(false)));
    let parsed = CLIParser::parse(&cmd, toks(&[])).unwrap();
    assert_eq!(parsed.get_flag("flag"), Some(&FlagValue::Bool(false)));
}

#[test]
fn required_flag_missing_is_named() {
    let cmd = Command::new("c")
        .add_flag(Flag::new("other", FlagType::String))
        .add_flag(Flag::new("needed", FlagType::Integer).required(true));
    let err = CLIParser::parse(&cmd, toks(&["--other", "x"])).unwrap_err();
    assert_eq!(err, AppError::RequiredFlagNotProvided { flag: "needed".to_string() });
}

#[test]
fn first_missing_required_flag_in_declaration_order() {
    let cmd = Command::new("c")
        .add_flag(Flag::new("first", FlagType::String).required(true))
        .add_flag(Flag::new("second", FlagType::String).required(true));
    let err = CLIParser::parse(&cmd, toks(&[])).unwrap_err();
    assert_eq!(err, AppError::RequiredFlagNotProvided { flag: "first".to_string() });
}

#[test]
fn string_list_accumulates_in_order() {
    let cmd = Command::new("c").add_flag(Flag::new("x", FlagType::StringList));
    let parsed = CLIParser::parse(&cmd, toks(&["--x", "a", "--x", "b"])).unwrap();
    assert_eq!(
        parsed.get_flag("x"),
        Some(&FlagValue::StringList(vec!["a".to_string(), "b".to_string()]))
    );
}

#[test]
fn string_list_keeps_duplicates() {
    let cmd = Command::new("c").add_flag(Flag::new("x", FlagType::StringList));
    let parsed = CLIParser::parse(&cmd, toks(&["--x", "a", "--x", "a"])).unwrap();
    assert_eq!(
        parsed.get_flag("x").unwrap().as_string_list().unwrap(),
        &vec!["a".to_string(), "a".to_string()]
    );
}

#[test]
fn integer_list_from_one_token() {
    let cmd = Command::new("c").add_flag(Flag::new("numbers", FlagType::IntegerList));
    let parsed = CLIParser::parse(&cmd, toks(&["--numbers", "1,2,3"])).unwrap();
    assert_eq!(parsed.get_flag("numbers"), Some(&FlagValue::IntegerList(vec![1, 2, 3])));
}

#[test]
fn integer_list_bad_piece_fails() {
    let cmd = Command::new("c").add_flag(Flag::new("numbers", FlagType::IntegerList));
    let err = CLIParser::parse(&cmd, toks(&["--numbers", "1,x,3"])).unwrap_err();
    assert_eq!(
        err,
        AppError::InvalidFlagValue {
            flag: "numbers".to_string(),
            value: "1,x,3".to_string(),
            expected: "comma-separated integers".to_string(),
        }
    );
}

#[test]
fn integer_list_pieces_are_trimmed_and_repeats_join() {
    let cmd = Command::new("c").add_flag(Flag::new("n", FlagType::IntegerList));
    let parsed = CLIParser::parse(&cmd, toks(&["--n", " 4 ,\t-5", "--n", "6"])).unwrap();
    assert_eq!(parsed.get_flag("n").unwrap().as_integer_list().unwrap(), &vec![4, -5, 6]);
}

#[test]
fn integer_list_empty_piece_fails() {
    let flag = Flag::new("n", FlagType::IntegerList);
    assert!(flag.parse_value("1,,2").is_err());
    assert!(flag.parse_value("").is_err());
    assert!(flag.parse_value("1,").is_err());
}

#[test]
fn default_round_trip() {
    let cmd = Command::new("c")
        .add_flag(Flag::new("level", FlagType::Integer).default_value(FlagValue::Integer(7)))
        .add_flag(Flag::new("tags", FlagType::StringList).default_value(FlagValue::StringList(vec!["t".to_string()])));
    let parsed = CLIParser::parse(&cmd, toks(&[])).unwrap();
    assert_eq!(parsed.get_flag("level"), Some(&FlagValue::Integer(7)));
    assert_eq!(parsed.get_flag("tags"), Some(&FlagValue::StringList(vec!["t".to_string()])));
}

#[test]
fn supplied_value_beats_default() {
    let cmd = Command::new("c")
        .add_flag(Flag::new("level", FlagType::Integer).default_value(FlagValue::Integer(7)));
    let parsed = CLIParser::parse(&cmd, toks(&["--level", "9"])).unwrap();
    assert_eq!(parsed.get_flag("level"), Some(&FlagValue::Integer(9)));
}

#[test]
fn help_first_skips_required_checks() {
    let cmd = Command::new("c")
        .add_flag(Flag::new("needed", FlagType::String).required(true))
        .add_positional_arg(PositionalArg::new("file"));
    let parsed = CLIParser::parse(&cmd, toks(&["--help", "--bogus"])).unwrap();
    assert!(parsed.help_requested);
    assert_eq!(parsed.flags.len(), 0);
    let parsed = CLIParser::parse(&cmd, toks(&["-h"])).unwrap();
    assert!(parsed.help_requested);
}

#[test]
fn help_inside_subcommand() {
    let sub = Command::new("run").add_flag(Flag::new("needed", FlagType::String).required(true));
    let cmd = Command::new("c").add_subcommand(sub);
    let parsed = CLIParser::parse(&cmd, toks(&["run", "-h"])).unwrap();
    assert!(parsed.help_requested);
    assert_eq!(parsed.subcommand, Some("run".to_string()));
}

#[test]
fn help_on_empty_tokens() {
    let cmd = Command::new("c").show_help_on_empty(true);
    assert!(CLIParser::parse(&cmd, toks(&[])).unwrap().help_requested);
    let cmd = Command::new("c");
    assert!(!CLIParser::parse(&cmd, toks(&[])).unwrap().help_requested);
}

#[test]
fn subcommand_scenario() {
    let app = CLIApp::new("test", "1.0.0").add_command(
        Command::new("math").add_subcommand(
            Command::new("add")
                .add_flag(Flag::new("numbers", FlagType::IntegerList).required(true)),
        ),
    );
    let parsed = app.parse(vec!["math", "add", "--numbers", "1,2,3"]).unwrap();
    assert_eq!(parsed.subcommand, Some("math".to_string()));
    assert_eq!(parsed.get_flag("numbers"), Some(&FlagValue::IntegerList(vec![1, 2, 3])));
    assert!(!parsed.help_requested);
}

#[test]
fn unknown_token_scenario() {
    let cmd = Command::new("c");
    let err = CLIParser::parse(&cmd, toks(&["foo"])).unwrap_err();
    assert_eq!(err, AppError::CommandNotFound { command: "foo".to_string() });
}

#[test]
fn missing_value_scenario() {
    let cmd = Command::new("c").add_flag(Flag::new("name", FlagType::String));
    let err = CLIParser::parse(&cmd, toks(&["--name"])).unwrap_err();
    assert_eq!(err, AppError::FlagValueMissing { flag: "name".to_string() });
}

#[test]
fn possible_values_scenario() {
    let cmd = Command::new("c").add_flag(
        Flag::new("choice", FlagType::String)
            .possible_values(vec!["a".to_string(), "b".to_string(), "c".to_string()]),
    );
    let err = CLIParser::parse(&cmd, toks(&["--choice", "z"])).unwrap_err();
    assert_eq!(
        err,
        AppError::InvalidFlagValue {
            flag: "choice".to_string(),
            value: "z".to_string(),
            expected: "one of \"a, b, c\"".to_string(),
        }
    );
}

#[test]
fn possible_values_apply_to_each_list_item() {
    let cmd = Command::new("c").add_flag(
        Flag::new("tag", FlagType::StringList).possible_values(vec!["a".to_string(), "b".to_string()]),
    );
    assert!(CLIParser::parse(&cmd, toks(&["--tag", "a", "--tag", "b"])).is_ok());
    let err = CLIParser::parse(&cmd, toks(&["--tag", "a", "--tag", "q"])).unwrap_err();
    assert!(matches!(err, AppError::InvalidFlagValue { ref value, .. } if value == "q"));
}

#[test]
fn unknown_short_flag_names_the_letter() {
    let cmd = Command::new("c").add_flag(Flag::new("verbose", FlagType::Bool).short('v'));
    let err = CLIParser::parse(&cmd, toks(&["-x"])).unwrap_err();
    assert_eq!(err, AppError::UnknownFlag { flag: "x".to_string() });
}

#[test]
fn long_lookup_is_exact() {
    let cmd = Command::new("c").add_flag(Flag::new("verbose", FlagType::Bool).short('v'));
    let err = CLIParser::parse(&cmd, toks(&["--verb"])).unwrap_err();
    assert_eq!(err, AppError::UnknownFlag { flag: "verb".to_string() });
    let err = CLIParser::parse(&cmd, toks(&["--v"])).unwrap_err();
    assert_eq!(err, AppError::UnknownFlag { flag: "v".to_string() });
}

#[test]
fn value_token_is_taken_whatever_it_looks_like() {
    let cmd = Command::new("c").add_flag(Flag::new("name", FlagType::String));
    let parsed = CLIParser::parse(&cmd, toks(&["--name", "--help"])).unwrap();
    assert_eq!(parsed.get_flag("name").unwrap().as_string(), Some("--help"));
    assert!(!parsed.help_requested);
}

#[test]
fn repeated_single_value_flag_overwrites() {
    let cmd = Command::new("c").add_flag(Flag::new("n", FlagType::Integer).short('n'));
    let parsed = CLIParser::parse(&cmd, toks(&["--n", "1", "-n", "2"])).unwrap();
    assert_eq!(parsed.get_flag("n"), Some(&FlagValue::Integer(2)));
}

#[test]
fn positional_counts() {
    let cmd = Command::new("c")
        .add_positional_arg(PositionalArg::new("src"))
        .add_positional_arg(PositionalArg::new("dst").required(false));
    let err = CLIParser::parse(&cmd, toks(&[])).unwrap_err();
    assert_eq!(err, AppError::NotEnoughArguments { expected: 1, received: 0 });
    let parsed = CLIParser::parse(&cmd, toks(&["a"])).unwrap();
    assert_eq!(parsed.get_args(), &vec!["a".to_string()]);
    let parsed = CLIParser::parse(&cmd, toks(&["a", "b"])).unwrap();
    assert_eq!(parsed.get_arg(1), Some(&"b".to_string()));
    assert_eq!(parsed.get_arg(2), None);
    let err = CLIParser::parse(&cmd, toks(&["a", "b", "c"])).unwrap_err();
    assert_eq!(err, AppError::TooManyArguments);
    assert_eq!(cmd.required_positional_count(), 1);
}

#[test]
fn subcommand_merges_child_values_and_positionals() {
    let sub = Command::new("get")
        .add_flag(Flag::new("mode", FlagType::String))
        .add_positional_arg(PositionalArg::new("key"));
    let cmd = Command::new("c")
        .add_flag(Flag::new("mode", FlagType::String))
        .add_flag(Flag::new("debug", FlagType::Bool))
        .add_subcommand(sub);
    let parsed =
        CLIParser::parse(&cmd, toks(&["--debug", "--mode", "outer", "get", "k1", "--mode", "inner"])).unwrap();
    assert_eq!(parsed.command, "c");
    assert_eq!(parsed.subcommand, Some("get".to_string()));
    assert_eq!(parsed.get_flag("mode").unwrap().as_string(), Some("inner"));
    assert_eq!(parsed.get_flag("debug").unwrap().as_bool(), Some(true));
    assert_eq!(parsed.positional_args, vec!["k1".to_string()]);
}

#[test]
fn integer_bounds_and_syntax() {
    let flag = Flag::new("n", FlagType::Integer);
    assert_eq!(flag.parse_value("9223372036854775807").unwrap(), FlagValue::Integer(i64::MAX));
    assert_eq!(flag.parse_value("-9223372036854775808").unwrap(), FlagValue::Integer(i64::MIN));
    assert_eq!(flag.parse_value("007").unwrap(), FlagValue::Integer(7));
    for bad in ["9223372036854775808", "-9223372036854775809", "+5", "1_000", "0x10", "", "-", " 5", "5 "] {
        assert_eq!(
            flag.parse_value(bad).unwrap_err(),
            AppError::InvalidFlagValue {
                flag: "n".to_string(),
                value: bad.to_string(),
                expected: "integer".to_string(),
            }
        );
    }
}

#[test]
fn float_syntax() {
    let flag = Flag::new("f", FlagType::Float);
    for good in ["1e5", ".5", "5.", "-0.25", "+2", "3E-2"] {
        let v = flag.parse_value(good).unwrap();
        assert_eq!(v.as_float(), Some(good));
        assert!(good.parse::<f64>().is_ok());
    }
    for bad in ["", ".", "-", "e5", "1e", "inf", "NaN", "1.2.3", "1,5"] {
        assert_eq!(
            flag.parse_value(bad).unwrap_err(),
            AppError::InvalidFlagValue {
                flag: "f".to_string(),
                value: bad.to_string(),
                expected: "float".to_string(),
            }
        );
    }
}

#[test]
fn bool_value_reading() {
    let flag = Flag::new("b", FlagType::Bool);
    assert_eq!(flag.parse_value("yes").unwrap(), FlagValue::Bool(true));
    assert_eq!(flag.parse_value("TRUE").unwrap(), FlagValue::Bool(true));
}

#[test]
fn parse_values_single_type_reports_joined_values() {
    let flag = Flag::new("name", FlagType::String);
    let err = flag.parse_values(&toks(&["value1", "value2"])).unwrap_err();
    assert_eq!(
        err,
        AppError::InvalidFlagValue {
            flag: "name".to_string(),
            value: "value1, value2".to_string(),
            expected: "single string".to_string(),
        }
    );
    assert_eq!(flag.parse_values(&toks(&["only"])).unwrap(), FlagValue::String("only".to_string()));
}

#[test]
fn type_descriptions() {
    assert_eq!(FlagType::Bool.description(), "boolean");
    assert_eq!(FlagType::StringList.description(), "string list");
    assert_eq!(FlagType::IntegerList.description(), "integer list");
    assert_eq!(FlagType::Float.description(), "float");
}

#[test]
fn value_accessors_match_their_variant() {
    let v = FlagValue::Integer(3);
    assert_eq!(v.as_integer(), Some(3));
    assert_eq!(v.as_bool(), None);
    assert_eq!(v.as_string(), None);
    assert_eq!(v.as_float(), None);
    assert!(v.as_string_list().is_none());
    assert!(v.as_integer_list().is_none());
    assert_eq!(v.clone(), v);
}

#[test]
fn command_lookups() {
    let cmd = Command::new("c")
        .add_flag(Flag::new("verbose", FlagType::Bool).short('v'))
        .add_flag(Flag::new("verbose", FlagType::Integer))
        .add_subcommand(Command::new("run"));
    assert_eq!(cmd.flags.len(), 1);
    assert!(matches!(cmd.get_flag("verbose").unwrap().flag_type, FlagType::Integer));
    assert!(cmd.get_flag("v").is_none());
    let cmd = Command::new("c").add_flag(Flag::new("verbose", FlagType::Bool).short('v'));
    assert_eq!(cmd.get_flag("v").unwrap().name, "verbose");
    assert!(cmd.get_subcommand("run").is_none());
    assert!(cmd.has_flags());
    assert!(!cmd.has_subcommands());
    assert!(!cmd.has_positional_args());
}

#[test]
fn validation_rules() {
    let ok = CLIApp::new("a", "1").add_global_flag(Flag::new("x", FlagType::Bool).short('x'));
    assert!(ok.validate().is_ok());
    let dup_short = CLIApp::new("a", "1")
        .add_global_flag(Flag::new("x", FlagType::Bool).short('s'))
        .add_global_flag(Flag::new("y", FlagType::Bool).short('s'));
    assert!(matches!(dup_short.validate(), Err(AppError::ConfigurationError { .. })));
    let mut dup_sub = CLIApp::new("a", "1").add_command(Command::new("run"));
    dup_sub.root_command.subcommands.push(Command::new("run"));
    assert!(dup_sub.validate().is_err());
    let mut dup_flag = Command::new("run");
    dup_flag.flags.push(Flag::new("x", FlagType::Bool));
    dup_flag.flags.push(Flag::new("x", FlagType::Bool));
    let nested = CLIApp::new("a", "1").add_command(Command::new("outer").add_subcommand(dup_flag));
    assert!(nested.validate().is_err());
}

#[test]
fn info_lists_command_paths_in_order() {
    let app = CLIApp::new("a", "2.0")
        .add_global_flag(Flag::new("v", FlagType::Bool))
        .add_command(Command::new("x").add_subcommand(Command::new("y").add_subcommand(Command::new("z"))))
        .add_command(Command::new("w"));
    let info = app.get_info();
    assert_eq!(info.commands, vec!["x".to_string(), "x y".to_string(), "x y z".to_string(), "w".to_string()]);
    assert_eq!(info.global_flags, 1);
    assert_eq!(info.version, "2.0");
}

#[test]
fn app_defaults() {
    let app = CLIApp::default();
    assert_eq!(app.name, "app");
    assert_eq!(app.version, "0.0.0");
    assert!(app.parse(Vec::<&str>::new()).unwrap().help_requested);
    let app = app.show_help_on_empty(false);
    assert!(!app.parse(Vec::<&str>::new()).unwrap().help_requested);
}

#[test]
fn argument_builder() {
    let arg = Argument::new("file", "file")
        .short('f')
        .description("input")
        .arg_type(ArgType::Integer)
        .required(true)
        .default("3");
    assert_eq!(arg.name, "file");
    assert_eq!(arg.long, "file");
    assert_eq!(arg.short, Some('f'));
    assert_eq!(arg.description, "input");
    assert_eq!(arg.arg_type, ArgType::Integer);
    assert!(arg.required);
    assert_eq!(arg.default, Some("3".to_string()));
}

#[test]
fn help_in_subcommand_skips_the_parent_checks() {
    let cmd = Command::new("c")
        .add_flag(Flag::new("name", FlagType::String).required(true))
        .add_positional_arg(PositionalArg::new("file"))
        .add_subcommand(
            Command::new("hello")
                .add_subcommand(Command::new("deep").add_flag(Flag::new("x", FlagType::Integer).required(true))),
        );
    let parsed = CLIParser::parse(&cmd, toks(&["hello", "--help"])).unwrap();
    assert!(parsed.help_requested);
    assert_eq!(parsed.subcommand, Some("hello".to_string()));
    let parsed = CLIParser::parse(&cmd, toks(&["hello", "deep", "-h"])).unwrap();
    assert!(parsed.help_requested);
    assert_eq!(parsed.subcommand, Some("hello".to_string()));
    assert!(!parsed.has_flag("name"));
}

#[test]
fn string_list_gathers_any_number_in_order() {
    let cmd = Command::new("c").add_flag(Flag::new("x", FlagType::StringList).short('x'));
    let parsed = CLIParser::parse(&cmd, toks(&["--x", "a", "-x", "b", "--x", "a", "--x", "c"])).unwrap();
    assert_eq!(
        parsed.get_flag("x"),
        Some(&FlagValue::StringList(vec!["a".to_string(), "b".to_string(), "a".to_string(), "c".to_string()]))
    );
}

#[test]
fn result_alias_names_the_library_error() {
    let cmd = Command::new("c");
    let r: cliparser::Result<cliparser::ParsedArgs> = CLIParser::parse(&cmd, toks(&["--nope"]));
    assert_eq!(r.unwrap_err(), AppError::UnknownFlag { flag: "nope".to_string() });
}

#[test]
fn unnamed_flag_keeps_default_amid_other_tokens() {
    let cmd = Command::new("c")
        .add_flag(Flag::new("level", FlagType::Integer).short('l').default_value(FlagValue::Integer(3)))
        .add_flag(Flag::new("name", FlagType::String))
        .add_positional_arg(PositionalArg::new("file").required(false));
    let parsed = CLIParser::parse(&cmd, toks(&["--name", "--level", "f.txt"])).unwrap();
    assert_eq!(parsed.get_flag("level"), Some(&FlagValue::Integer(3)));
    assert_eq!(parsed.get_flag("name").unwrap().as_string(), Some("--level"));
}
