use nilla::plugin_metadata::{
    clean_version, parse_plugin_help, plugin_metadata_from_output, plugin_name_from_file_name,
    plugin_version, rewrite_invocation_text, CommandInfo,
};

const HELP: &str = "A home manager plugin\n\nUsage: nilla-home [OPTIONS] <COMMAND>\n\nCommands:\n  switch  Switch to a configuration\n  build   Build a configuration\n  help    Print this message or the help of the given subcommand(s)\n\nOptions:\n  -h, --help  Print help\n\nExamples:\n  # switch right away\n  $ nilla home switch\n  nilla home switch --flake .\n  ls\n\n";

fn info(name: &str, description: &str) -> CommandInfo {
    CommandInfo { name: name.to_string(), description: description.to_string() }
}

#[test]
fn parses_usage_commands_and_examples() {
    let (usage, commands, examples, completions) = parse_plugin_help(HELP, "home");
    assert_eq!(usage, Some("Usage: nilla home [OPTIONS] <COMMAND>".to_string()));
    assert_eq!(
        commands,
        vec![info("switch", "Switch to a configuration"), info("build", "Build a configuration")]
    );
    assert_eq!(examples, vec!["nilla home switch --flake .".to_string()]);
    assert!(!completions);
}

#[test]
fn empty_help_says_nothing() {
    let (usage, commands, examples, completions) = parse_plugin_help("", "home");
    assert_eq!(usage, None);
    assert!(commands.is_empty());
    assert!(examples.is_empty());
    assert!(!completions);
}

#[test]
fn upper_case_usage_and_crlf_lines() {
    let help = "USAGE:\r\n    nilla-x run\r\n";
    let (usage, _, _, _) = parse_plugin_help(help, "x");
    assert_eq!(usage, Some("USAGE:".to_string()));
}

#[test]
fn usage_rewrites_every_occurrence() {
    let help = "  Usage: nilla-x a | nilla-x b  \n";
    let (usage, _, _, _) = parse_plugin_help(help, "x");
    assert_eq!(usage, Some("Usage: nilla x a | nilla x b".to_string()));
}

#[test]
fn only_the_first_usage_line_counts() {
    let help = "usage: lower\nUsage: first\nUSAGE: second\n";
    let (usage, _, _, _) = parse_plugin_help(help, "p");
    assert_eq!(usage, Some("Usage: first".to_string()));
}

#[test]
fn section_without_blank_line_after_it_is_ignored() {
    let help = "Commands:\n  run  Run it\nExamples:\n  nilla p run now";
    let (_, commands, examples, _) = parse_plugin_help(help, "p");
    assert!(commands.is_empty());
    assert!(examples.is_empty());
}

#[test]
fn command_without_description_and_options_line() {
    let help = "Commands:\n  list\n\n  Options: ignored\nOptions:\n";
    let (_, commands, _, _) = parse_plugin_help(help, "p");
    assert_eq!(commands, vec![info("list", "")]);
    let help = "Commands:\n  Options: not a command\n  go\tGo   somewhere  \n\n";
    let (_, commands, _, _) = parse_plugin_help(help, "p");
    assert_eq!(commands, vec![info("go", "Go   somewhere")]);
}

#[test]
fn examples_must_exceed_five_bytes() {
    let help = "Examples:\n  abcde\n  abcdef\n  h\u{e9}llo\n  Commands: x\n  Options: y\n\n";
    let (_, _, examples, _) = parse_plugin_help(help, "p");
    assert_eq!(examples, vec!["abcdef".to_string(), "h\u{e9}llo".to_string()]);
}

#[test]
fn completion_mentions_are_found() {
    let (_, _, _, a) = parse_plugin_help("Commands:\n  completions  Generate them\n\n", "p");
    assert!(a);
    let (_, _, _, b) = parse_plugin_help("shell completion", "p");
    assert!(b);
    let (_, _, _, c) = parse_plugin_help("shell complete", "p");
    assert!(!c);
}

#[test]
fn clean_version_keeps_text_after_last_space() {
    assert_eq!(clean_version("nilla-home 1.2.3"), "1.2.3");
    assert_eq!(clean_version("1.2.3"), "1.2.3");
    assert_eq!(clean_version("a b c"), "c");
    assert_eq!(clean_version("trailing "), "");
    assert_eq!(clean_version(""), "");
}

#[test]
fn clean_version_twice_is_once() {
    for v in ["nilla-home 1.2.3", "x", "a b ", " q"] {
        let once = clean_version(v);
        assert_eq!(clean_version(&once), once);
        assert!(!once.contains(' '));
    }
}

#[test]
fn version_from_output() {
    assert_eq!(plugin_version(Some("nilla-home 0.4.0\n".to_string())), Some("0.4.0".to_string()));
    assert_eq!(plugin_version(Some("  \n".to_string())), None);
    assert_eq!(plugin_version(Some("name ".to_string())), Some("name".to_string()));
    assert_eq!(plugin_version(None), None);
}

#[test]
fn plugin_name_from_file_names() {
    assert_eq!(plugin_name_from_file_name(Some("nilla-home")), "home");
    assert_eq!(plugin_name_from_file_name(Some("other")), "plugin");
    assert_eq!(plugin_name_from_file_name(Some("nilla-")), "");
    assert_eq!(plugin_name_from_file_name(None), "plugin");
}

#[test]
fn metadata_from_plugin_output() {
    let m = plugin_metadata_from_output(
        Some(HELP.to_string()),
        Some("nilla-home 1.0.0\n".to_string()),
        Some("nilla-home"),
    );
    assert_eq!(m.help_text, HELP);
    assert_eq!(m.version, Some("1.0.0".to_string()));
    assert_eq!(m.usage, Some("Usage: nilla home [OPTIONS] <COMMAND>".to_string()));
    assert_eq!(m.commands.len(), 2);
    assert_eq!(m.examples, vec!["nilla home switch --flake .".to_string()]);
    assert!(!m.supports_completions);

    let none = plugin_metadata_from_output(None, None, None);
    assert_eq!(none.help_text, "");
    assert_eq!(none.version, None);
    assert_eq!(none.usage, None);
    assert!(none.commands.is_empty());
}

#[test]
fn metadata_uses_name_from_file() {
    let m = plugin_metadata_from_output(Some("Usage: nilla-plugin go".to_string()), None, Some("tool"));
    assert_eq!(m.usage, Some("Usage: nilla plugin go".to_string()));
}

#[test]
fn rewrite_output_of_a_plugin() {
    assert_eq!(
        rewrite_invocation_text("run nilla-home --help; nilla-homer", "home"),
        "run nilla home --help; nilla homer"
    );
    assert_eq!(rewrite_invocation_text("nothing here", "home"), "nothing here");
    assert_eq!(rewrite_invocation_text("", "home"), "");
}
