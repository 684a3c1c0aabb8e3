use nilla::plugins::{
    collect_plugins, is_executable_mode, plugin_executable_name, plugin_name_from_entry,
    split_path_list, PluginInfo,
};
use std::path::PathBuf;

fn plugin(name: &str, path: &str) -> PluginInfo {
    PluginInfo { name: name.to_string(), path: PathBuf::from(path) }
}

#[test]
fn split_search_path() {
    assert_eq!(split_path_list("/usr/bin:/bin::/opt", ':'), vec!["/usr/bin", "/bin", "", "/opt"]);
    assert_eq!(split_path_list("", ':'), vec![""]);
    assert_eq!(split_path_list("a;b", ';'), vec!["a", "b"]);
    assert_eq!(split_path_list("a:", ':'), vec!["a", ""]);
}

#[test]
fn split_then_join_gives_the_path_back() {
    for s in ["/usr/bin:/bin::/opt", "", ":", "x"] {
        assert_eq!(split_path_list(s, ':').join(":"), s);
    }
}

#[test]
fn plugin_names_of_files() {
    assert_eq!(plugin_name_from_entry("nilla-home"), Some("home".to_string()));
    assert_eq!(plugin_name_from_entry("nilla"), None);
    assert_eq!(plugin_name_from_entry("nilla-"), Some("".to_string()));
    assert_eq!(plugin_name_from_entry("other"), None);
    assert_eq!(plugin_name_from_entry("xnilla-home"), None);
}

#[test]
fn executable_bits() {
    assert!(is_executable_mode(0o755));
    assert!(!is_executable_mode(0o644));
    assert!(is_executable_mode(0o100));
    assert!(is_executable_mode(0o001));
}

#[test]
fn executable_name_of_plugin() {
    assert_eq!(plugin_executable_name("home"), "nilla-home");
}

#[test]
fn collected_plugins_are_sorted_and_first_wins() {
    let found = vec![
        plugin("zeta", "/a/nilla-zeta"),
        plugin("alpha", "/b/nilla-alpha"),
        plugin("zeta", "/c/nilla-zeta"),
        plugin("beta", "/d/nilla-beta"),
    ];
    let kept = collect_plugins(found);
    let names: Vec<&str> = kept.iter().map(|p| p.name.as_str()).collect();
    assert_eq!(names, vec!["alpha", "beta", "zeta"]);
    assert_eq!(kept[2].path, PathBuf::from("/a/nilla-zeta"));
    assert_eq!(kept[0].path, PathBuf::from("/b/nilla-alpha"));
}

#[test]
fn collecting_nothing_gives_nothing() {
    assert!(collect_plugins(Vec::new()).is_empty());
}

#[test]
fn names_are_ordered_by_bytes() {
    let kept = collect_plugins(vec![plugin("b", "/1"), plugin("B", "/2"), plugin("ab", "/3"), plugin("a", "/4")]);
    let names: Vec<&str> = kept.iter().map(|p| p.name.as_str()).collect();
    assert_eq!(names, vec!["B", "a", "ab", "b"]);
}
