use cliparser::flag::FlagValue;
use cliparser::ui::ColoredUI;
use cliparser::{Command, Flag, FlagType, PositionalArg};

#[test]
fn test_format_help_basic() {
    let command = Command::new("test");
    let help = ColoredUI::format_help("myapp", "1.0.0", "Uma descrição de testes", &command);

    assert!(help.contains("myapp v1.0.0"));
    assert!(help.contains("Uma descrição de testes"));
    assert!(help.contains("USO"));
}

#[test]
fn help_title_and_usage_exact() {
    let command = Command::new("myapp");
    let help = ColoredUI::format_help("myapp", "2.1", "", &command);
    assert_eq!(
        help,
        "\x1b[36mmyapp v2.1\x1b[39m\n\n\x1b[33m\x1b[1mUSO\x1b[0m\x1b[39m\n    myapp\n\n"
    );
}

#[test]
fn usage_line_lists_everything() {
    let command = Command::new("copy")
        .add_flag(Flag::new("force", FlagType::Bool))
        .add_subcommand(Command::new("deep"))
        .add_positional_arg(PositionalArg::new("src"))
        .add_positional_arg(PositionalArg::new("dst").required(false));
    assert_eq!(
        ColoredUI::format_usage("tool", &command),
        "tool copy <SUBCOMANDO> [OPÇÕES] <src> [dst]"
    );
    assert_eq!(ColoredUI::format_usage("copy", &Command::new("copy")), "copy");
}

#[test]
fn help_lists_slots_and_sorted_flags() {
    let command = Command::new("run")
        .add_positional_arg(PositionalArg::new("file").description("input file"))
        .add_flag(Flag::new("zeta", FlagType::Integer).short('z').default_value(FlagValue::Integer(-12)))
        .add_flag(
            Flag::new("alpha", FlagType::String)
                .required(true)
                .description("first")
                .possible_values(vec!["x".to_string(), "y".to_string()]),
        );
    let help = ColoredUI::format_help("app", "1", "", &command);
    assert!(help.contains("\x1b[33mARGUMENTOS\x1b[39m\n    \x1b[32mfile\x1b[39m\ninput file\n"));
    assert!(help.contains("\x1b[1m\x1b[33mOPÇÕES:\x1b[39m\x1b[0m\n"));
    let alpha = help.find(" --alpha<string>\n        first        Valores possíveis: x, y\n").unwrap();
    let zeta = help
        .find("    -z  --zeta<integer>\n         (opcional)        Padrão: Integer(-12)\n")
        .unwrap();
    assert!(alpha < zeta);
}

#[test]
fn help_renders_defaults_of_each_kind() {
    assert_eq!(ColoredUI::format_value(&FlagValue::Bool(true)), "Bool(true)");
    assert_eq!(ColoredUI::format_value(&FlagValue::String("a b".to_string())), "String(\"a b\")");
    assert_eq!(ColoredUI::format_value(&FlagValue::Float("2.5".to_string())), "Float(2.5)");
    assert_eq!(ColoredUI::format_value(&FlagValue::Integer(i64::MIN)), "Integer(-9223372036854775808)");
    assert_eq!(
        ColoredUI::format_value(&FlagValue::StringList(vec!["a".to_string(), "b".to_string()])),
        "StringList([\"a\", \"b\"])"
    );
    assert_eq!(ColoredUI::format_value(&FlagValue::IntegerList(vec![0, 10, -3])), "IntegerList([0, 10, -3])");
    assert_eq!(ColoredUI::format_value(&FlagValue::IntegerList(vec![])), "IntegerList([])");
}

#[test]
fn message_tags() {
    assert_eq!(ColoredUI::error_tag(), "\x1b[40m\x1b[31m\x1b[1m[ERROR]\x1b[0m\x1b[39m\x1b[49m");
    assert_eq!(ColoredUI::success_tag(), "\x1b[40m\x1b[32m\x1b[1m[SUCCESS]\x1b[0m\x1b[39m\x1b[49m");
    assert_eq!(ColoredUI::warning_tag(), "\x1b[40m\x1b[33m\x1b[1m[WARNING]\x1b[0m\x1b[39m\x1b[49m");
    assert_eq!(ColoredUI::info_tag(), "\x1b[40m\x1b[34m\x1b[1m[INFO]\x1b[0m\x1b[39m\x1b[49m");
}

#[test]
fn sorted_getters_are_stable_by_name() {
    let command = Command::new("c")
        .add_flag(Flag::new("b", FlagType::Bool))
        .add_flag(Flag::new("a", FlagType::Bool))
        .add_flag(Flag::new("ab", FlagType::Bool))
        .add_subcommand(Command::new("zz"))
        .add_subcommand(Command::new("Zz"))
        .add_subcommand(Command::new("m"));
    let names: Vec<&str> = command.get_flags_sorted().iter().map(|f| f.name.as_str()).collect();
    assert_eq!(names, vec!["a", "ab", "b"]);
    let names: Vec<&str> = command.get_subcommands_sorted().iter().map(|c| c.name.as_str()).collect();
    assert_eq!(names, vec!["Zz", "m", "zz"]);
}
