use nilla::listing::{
    display_path_of, format_plugin_help_entry, join_strings, pad_right_to, plugin_completion_block,
    plugin_table_header, plugin_table_row, plugin_table_rule, plugins_help_footer,
};
use nilla::plugin_metadata::{CommandInfo, PluginMetadata};

fn metadata() -> PluginMetadata {
    PluginMetadata {
        help_text: String::new(),
        version: Some("1.2.0".to_string()),
        usage: Some("Usage: nilla home <COMMAND>".to_string()),
        commands: vec![
            CommandInfo { name: "switch".to_string(), description: "Switch".to_string() },
            CommandInfo { name: "build".to_string(), description: String::new() },
        ],
        examples: vec!["nilla home switch".to_string(), "nilla home build .".to_string()],
        supports_completions: true,
    }
}

#[test]
fn padding_to_a_width() {
    assert_eq!(pad_right_to("ab", 5), "ab   ");
    assert_eq!(pad_right_to("abcdef", 3), "abcdef");
    assert_eq!(pad_right_to("", 2), "  ");
    assert_eq!(pad_right_to("\u{e9}", 3), format!("{:<3}", "\u{e9}"));
}

#[test]
fn table_header_and_rule() {
    assert_eq!(
        plugin_table_header(),
        format!("{:<20} {:<50} {:<15} {:<10}", "NAME", "PATH", "VERSION", "COMPLETIONS")
    );
    assert_eq!(plugin_table_rule(), "-".repeat(95));
}

#[test]
fn short_paths_are_shown_whole() {
    let p = "/usr/local/bin/nilla-home";
    assert_eq!(display_path_of(p), p);
    let exactly = "a".repeat(48);
    assert_eq!(display_path_of(&exactly), exactly);
}

#[test]
fn long_paths_keep_their_last_bytes() {
    let p = format!("/{}", "x".repeat(59));
    assert_eq!(display_path_of(&p), format!("...{}", &p[p.len() - 45..]));
    let q = format!("{}\u{e9}{}", "y".repeat(10), "z".repeat(45));
    assert_eq!(display_path_of(&q), format!("...{}", "z".repeat(45)));
    assert_eq!(display_path_of(&q).len(), 48);
}

#[test]
fn table_row_for_a_plugin() {
    let m = metadata();
    let row = plugin_table_row("home", "/bin/nilla-home", &m);
    assert_eq!(row, format!("{:<20} {:<50} {:<15} {:<10}", "home", "/bin/nilla-home", "1.2.0", "yes"));
    let mut n = metadata();
    n.version = None;
    n.supports_completions = false;
    let row = plugin_table_row("home", "/bin/nilla-home", &n);
    assert_eq!(row, format!("{:<20} {:<50} {:<15} {:<10}", "home", "/bin/nilla-home", "unknown", "no"));
}

#[test]
fn joining_strings() {
    let v = vec!["a".to_string(), "b".to_string(), "c".to_string()];
    assert_eq!(join_strings(&v, ", "), "a, b, c");
    assert_eq!(join_strings(&Vec::new(), ", "), "");
    assert_eq!(join_strings(&vec!["x".to_string()], "; "), "x");
}

#[test]
fn help_entry_of_a_plugin() {
    assert_eq!(
        format_plugin_help_entry("home", &metadata()),
        "  home\n    Usage: nilla home <COMMAND>\n    Commands: switch, build\n    Examples: nilla home switch; nilla home build .\n\n"
    );
    let bare = PluginMetadata {
        help_text: String::new(),
        version: None,
        usage: None,
        commands: Vec::new(),
        examples: Vec::new(),
        supports_completions: false,
    };
    assert_eq!(format_plugin_help_entry("bare", &bare), "  bare\n\n");
}

#[test]
fn help_footer() {
    assert_eq!(
        plugins_help_footer(),
        "  Use `nilla plugins list` to see all plugins with details.\n  Use `nilla <plugin> --help` to see plugin-specific help.\n"
    );
}

#[test]
fn completion_blocks() {
    assert_eq!(plugin_completion_block("home", "  \n"), None);
    assert_eq!(plugin_completion_block("home", ""), None);
    assert_eq!(
        plugin_completion_block("home", "complete -F _x x\n"),
        Some("\n# Completions for plugin: home\ncomplete -F _x x\n".to_string())
    );
}
