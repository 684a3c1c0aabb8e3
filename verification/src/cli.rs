//! The decisions of the command line around plugins: the `plugins`
//! subcommand, when a help request is answered here, the log level, and the
//! shell names that plugins are asked for completions in.
use vstd::prelude::*;
use crate::plugins::{has_name, PluginInfo};

verus! {

/// The subcommands of `nilla plugins`.
#[derive(Debug, Clone, Copy, PartialEq, Eq, Structural)]
pub enum PluginsCommands {
    /// List all available plugins
    List,
}

/// The arguments of `nilla plugins`: manage and list available plugins.
#[derive(Debug, Clone, Copy, PartialEq, Eq, Structural)]
pub struct PluginsArgs {
    pub command: PluginsCommands,
}

/// What to do with the command line before it is parsed.
#[derive(Debug, Clone, Copy, PartialEq, Eq, Structural)]
pub enum HelpAction {
    /// Go on: parse the command line and run it.
    Proceed,
    /// Print nilla's own help, with the plugin section where asked, and stop.
    ShowHelp { with_plugins: bool },
}

/// How much is logged.
#[derive(Debug, Clone, Copy, PartialEq, Eq, Structural)]
pub enum LogLevel {
    Error,
    Info,
    Debug,
    Trace,
}

/// The shells that completion scripts are generated for.
#[derive(Debug, Clone, Copy, PartialEq, Eq, Structural)]
pub enum CompletionShell {
    Bash,
    Zsh,
    Fish,
    PowerShell,
    Elvish,
    /// A shell that plugins are not asked about by name.
    Other,
}

/// Some argument asks for help: `--help` or `-h`.
pub open spec fn asks_for_help(args: Seq<Seq<char>>) -> bool {
    exists|i: int| 0 <= i < args.len() && (args[i] == "--help"@ || args[i] == "-h"@)
}

/// What to do with the arguments `args` (the program name first), given the
/// plugins found (`None` where looking for them failed). A help request that
/// names a plugin first goes on to that plugin; any other is answered here,
/// with the plugin section where plugins were found.
pub open spec fn help_decision(args: Seq<Seq<char>>, found: Option<Seq<PluginInfo>>) -> HelpAction {
    if !asks_for_help(args) {
        HelpAction::Proceed
    } else if args.len() > 2 {
        match found {
            None => HelpAction::ShowHelp { with_plugins: false },
            Some(ps) => if has_name(ps, args[1]) {
                HelpAction::Proceed
            } else {
                HelpAction::ShowHelp { with_plugins: ps.len() > 0 }
            },
        }
    } else {
        HelpAction::ShowHelp {
            with_plugins: match found {
                Some(ps) => ps.len() > 0,
                None => false,
            },
        }
    }
}

/// The log level for `verbose` repetitions of the verbose flag, and the quiet
/// flag.
pub open spec fn level_for(verbose: u8, quiet: bool) -> LogLevel {
    if quiet {
        LogLevel::Error
    } else if verbose == 0 {
        LogLevel::Info
    } else if verbose == 1 {
        LogLevel::Debug
    } else {
        LogLevel::Trace
    }
}

/// The name that a plugin is given for the shell `shell`.
pub open spec fn shell_name_of(shell: CompletionShell) -> Seq<char> {
    match shell {
        CompletionShell::Bash => "bash"@,
        CompletionShell::Zsh => "zsh"@,
        CompletionShell::Fish => "fish"@,
        CompletionShell::PowerShell => "powershell"@,
        CompletionShell::Elvish => "elvish"@,
        CompletionShell::Other => "bash"@,
    }
}

/// The quiet flag logs errors only, however verbose the command line asks.
pub proof fn law_quiet_overrides_verbose(verbose: u8)
    ensures
        level_for(verbose, true) == LogLevel::Error,
{
}

/// Without a help request the command line always goes on to be parsed,
/// whatever plugins were found.
pub proof fn law_no_help_request_proceeds(args: Seq<Seq<char>>, found: Option<Seq<PluginInfo>>)
    requires
        !asks_for_help(args),
    ensures
        help_decision(args, found) == HelpAction::Proceed,
{
}

/// A help request with more than two arguments whose first argument names a
/// found plugin goes on to that plugin, however many arguments follow.
pub proof fn law_plugin_help_passes_through(args: Seq<Seq<char>>, ps: Seq<PluginInfo>, i: int)
    requires
        asks_for_help(args),
        args.len() > 2,
        0 <= i < ps.len(),
        ps[i].name@ == args[1],
    ensures
        help_decision(args, Some(ps)) == HelpAction::Proceed,
{
    assert(has_name(ps, args[1]));
}

/// A help request with more than two arguments whose first argument names no
/// found plugin is answered with nilla's own help, with the plugin section
/// exactly when plugins were found.
pub proof fn law_own_help_shown(args: Seq<Seq<char>>, ps: Seq<PluginInfo>)
    requires
        asks_for_help(args),
        args.len() > 2,
        forall|i: int| 0 <= i < ps.len() ==> #[trigger] ps[i].name@ != args[1],
    ensures
        help_decision(args, Some(ps)) == (HelpAction::ShowHelp { with_plugins: ps.len() > 0 }),
{
}

/// A help request with at most two arguments (`nilla --help`) is answered
/// with nilla's own help, with the plugin section exactly when plugins were
/// found.
pub proof fn law_bare_help_shown(args: Seq<Seq<char>>, found: Option<Seq<PluginInfo>>)
    requires
        asks_for_help(args),
        args.len() <= 2,
    ensures
        help_decision(args, found) == (HelpAction::ShowHelp {
            with_plugins: found matches Some(ps) && ps.len() > 0,
        }),
{
}

/// Whether some argument asks for help: `--help` or `-h`.
pub fn is_help_request(args: &Vec<String>) -> (res: bool)
    ensures
        res == asks_for_help(args.deep_view()),
{
    let long = String::from_str("--help");
    let short = String::from_str("-h");
    let ghost view = args.deep_view();
    let mut i: usize = 0;
    while i < args.len()
        invariant
            i <= args@.len(),
            view == args.deep_view(),
            long@ == "--help"@,
            short@ == "-h"@,
            forall|j: int| 0 <= j < i ==> !(view[j] == "--help"@ || view[j] == "-h"@),
        decreases args@.len() - i,
    {
        assert(view[i as int] == args@[i as int]@);
        if args[i] == long || args[i] == short {
            return true;
        }
        i = i + 1;
    }
    false
}

/// Whether one of `plugins` is named `name`.
fn names_plugin(plugins: &Vec<PluginInfo>, name: &String) -> (res: bool)
    ensures
        res == has_name(plugins@, name@),
{
    let mut i: usize = 0;
    while i < plugins.len()
        invariant
            i <= plugins@.len(),
            forall|j: int| 0 <= j < i ==> plugins@[j].name@ != name@,
        decreases plugins@.len() - i,
    {
        if plugins[i].name == *name {
            return true;
        }
        i = i + 1;
    }
    false
}

/// What to do with the arguments `args` (the program name first), given the
/// plugins found (`None` where looking for them failed).
pub fn help_action(args: &Vec<String>, found: Option<&Vec<PluginInfo>>) -> (res: HelpAction)
    ensures
        res == help_decision(
            args.deep_view(),
            match found {
                Some(ps) => Some(ps@),
                None => None,
            },
        ),
{
    if !is_help_request(args) {
        return HelpAction::Proceed;
    }
    if args.len() > 2 {
        match found {
            None => HelpAction::ShowHelp { with_plugins: false },
            Some(ps) => {
                assert(args.deep_view()[1] == args@[1]@);
                if names_plugin(ps, &args[1]) {
                    HelpAction::Proceed
                } else {
                    HelpAction::ShowHelp { with_plugins: ps.len() > 0 }
                }
            },
        }
    } else {
        HelpAction::ShowHelp {
            with_plugins: match found {
                Some(ps) => ps.len() > 0,
                None => false,
            },
        }
    }
}

/// The log level for `verbose` repetitions of the verbose flag, and the quiet
/// flag.
pub fn log_level(verbose: u8, quiet: bool) -> (res: LogLevel)
    ensures
        res == level_for(verbose, quiet),
{
    if quiet {
        LogLevel::Error
    } else if verbose == 0 {
        LogLevel::Info
    } else if verbose == 1 {
        LogLevel::Debug
    } else {
        LogLevel::Trace
    }
}

/// The name that a plugin is given for the shell `shell`: `bash`, `zsh`,
/// `fish`, `powershell` or `elvish`, and `bash` for any other shell.
pub fn shell_name(shell: CompletionShell) -> (res: &'static str)
    ensures
        res@ == shell_name_of(shell),
{
    match shell {
        CompletionShell::Bash => "bash",
        CompletionShell::Zsh => "zsh",
        CompletionShell::Fish => "fish",
        CompletionShell::PowerShell => "powershell",
        CompletionShell::Elvish => "elvish",
        CompletionShell::Other => "bash",
    }
}

} // verus!
