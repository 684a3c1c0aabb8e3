use nilla::cli::{
    help_action, is_help_request, log_level, shell_name, CompletionShell, HelpAction, LogLevel,
    PluginsArgs, PluginsCommands,
};
use nilla::plugins::PluginInfo;
use std::path::PathBuf;

fn args(items: &[&str]) -> Vec<String> {
    items.iter().map(|s| s.to_string()).collect()
}

fn plugins(names: &[&str]) -> Vec<PluginInfo> {
    names
        .iter()
        .map(|n| PluginInfo { name: n.to_string(), path: PathBuf::from(format!("/bin/nilla-{n}")) })
        .collect()
}

#[test]
fn help_requests() {
    assert!(is_help_request(&args(&["nilla", "--help"])));
    assert!(is_help_request(&args(&["nilla", "build", "-h"])));
    assert!(!is_help_request(&args(&["nilla", "run"])));
    assert!(!is_help_request(&args(&["nilla", "--helpful"])));
}

#[test]
fn help_for_a_plugin_goes_to_the_plugin() {
    let found = plugins(&["home"]);
    assert_eq!(help_action(&args(&["nilla", "home", "--help"]), Some(&found)), HelpAction::Proceed);
}

#[test]
fn help_for_nilla_itself() {
    let found = plugins(&["other"]);
    assert_eq!(
        help_action(&args(&["nilla", "build", "--help"]), Some(&found)),
        HelpAction::ShowHelp { with_plugins: true }
    );
    assert_eq!(
        help_action(&args(&["nilla", "build", "--help"]), Some(&Vec::new())),
        HelpAction::ShowHelp { with_plugins: false }
    );
    assert_eq!(
        help_action(&args(&["nilla", "build", "--help"]), None),
        HelpAction::ShowHelp { with_plugins: false }
    );
    assert_eq!(
        help_action(&args(&["nilla", "--help"]), Some(&found)),
        HelpAction::ShowHelp { with_plugins: true }
    );
    assert_eq!(help_action(&args(&["nilla", "-h"]), None), HelpAction::ShowHelp { with_plugins: false });
}

#[test]
fn no_help_request_proceeds() {
    assert_eq!(help_action(&args(&["nilla", "run"]), None), HelpAction::Proceed);
    assert_eq!(help_action(&args(&["nilla"]), Some(&plugins(&["a"]))), HelpAction::Proceed);
}

#[test]
fn log_levels() {
    assert_eq!(log_level(0, false), LogLevel::Info);
    assert_eq!(log_level(1, false), LogLevel::Debug);
    assert_eq!(log_level(5, false), LogLevel::Trace);
    assert_eq!(log_level(3, true), LogLevel::Error);
    assert_eq!(log_level(0, true), LogLevel::Error);
}

#[test]
fn shell_names() {
    assert_eq!(shell_name(CompletionShell::Bash), "bash");
    assert_eq!(shell_name(CompletionShell::Zsh), "zsh");
    assert_eq!(shell_name(CompletionShell::Fish), "fish");
    assert_eq!(shell_name(CompletionShell::PowerShell), "powershell");
    assert_eq!(shell_name(CompletionShell::Elvish), "elvish");
    assert_eq!(shell_name(CompletionShell::Other), "bash");
}

#[test]
fn plugins_arguments() {
    let a = PluginsArgs { command: PluginsCommands::List };
    assert_eq!(a.command, PluginsCommands::List);
}
