use zsh_config::get_plugin_info;
use zsh_config::parse_plugins_from_file;
use zsh_config::plugins::add_plugin_text;
use zsh_config::plugins::enabled_plugin_names;
use zsh_config::plugins::make_plugin;
use zsh_config::plugins::missing_popular;
use zsh_config::plugins::popular_plugin_names;
use zsh_config::plugins::remove_plugin_text;
use zsh_config::EditError;
use zsh_config::PluginManager;

#[test]
fn parse_plugins_single_line() {
    let toks = parse_plugins_from_file("plugins=(git docker)");
    assert_eq!(toks, vec!["git".to_string(), "docker".to_string()]);
}

#[test]
fn parse_plugins_multi_line() {
    let toks = parse_plugins_from_file("# top\nplugins=(\n  git\n  docker\n)\n# bottom\n");
    assert_eq!(toks, vec!["git".to_string(), "docker".to_string()]);
}

#[test]
fn parse_plugins_empty_list() {
    assert_eq!(parse_plugins_from_file("plugins=()").len(), 0);
}

#[test]
fn parse_plugins_no_marker() {
    assert_eq!(parse_plugins_from_file("# nothing here\n").len(), 0);
}

#[test]
fn add_plugin_sorts_the_list() {
    let content = "# top\nplugins=()\n# bottom\n";
    let after_zeta = add_plugin_text(content, "zeta").unwrap();
    let after_alpha = add_plugin_text(&after_zeta, "alpha").unwrap();
    assert_eq!(after_alpha, "# top\nplugins=(\n  alpha\n  zeta\n)\n# bottom\n");
}

#[test]
fn add_plugin_duplicate_refused() {
    let content = "plugins=(\n  git\n)\n";
    let r = add_plugin_text(content, "git");
    assert!(matches!(r, Err(EditError::AlreadyExists)));
}

#[test]
fn add_plugin_without_marker_refused() {
    let r = add_plugin_text("# no list here\n", "git");
    assert!(matches!(r, Err(EditError::SourceMissing)));
}

#[test]
fn remove_plugin_keeps_order_of_the_rest() {
    let content = "plugins=(\n  alpha\n  mid\n  zeta\n)\n";
    let out = remove_plugin_text(content, "mid").unwrap();
    assert_eq!(out, "plugins=(\n  alpha\n  zeta\n)\n");
}

#[test]
fn remove_last_plugin_leaves_empty_parens() {
    let out = remove_plugin_text("plugins=(git)", "git").unwrap();
    assert_eq!(out, "plugins=()");
}

#[test]
fn remove_plugin_missing_refused() {
    let r = remove_plugin_text("plugins=(git)", "docker");
    assert!(matches!(r, Err(EditError::NotFound)));
}

#[test]
fn remove_plugin_without_marker_refused() {
    let r = remove_plugin_text("# no list here\n", "docker");
    assert!(matches!(r, Err(EditError::SourceMissing)));
}

#[test]
fn add_then_remove_restores_sorted_content() {
    let content = "# top\nplugins=(\n  alpha\n  zeta\n)\n# bottom\n";
    let added = add_plugin_text(content, "mid").unwrap();
    assert_eq!(added, "# top\nplugins=(\n  alpha\n  mid\n  zeta\n)\n# bottom\n");
    let removed = remove_plugin_text(&added, "mid").unwrap();
    assert_eq!(removed, content);
}

#[test]
fn only_first_marker_is_rewritten() {
    let content = "plugins=(git)\nplugins=(docker)\n";
    let out = add_plugin_text(content, "alpha").unwrap();
    assert_eq!(out, "plugins=(\n  alpha\n  git\n)\nplugins=(docker)\n");
}

#[test]
fn enabled_names_come_out_sorted() {
    let names = enabled_plugin_names("plugins=(zeta alpha)");
    assert_eq!(names, vec!["alpha".to_string(), "zeta".to_string()]);
}

#[test]
fn missing_popular_excludes_enabled() {
    let enabled = vec!["git".to_string(), "fzf".to_string()];
    let missing = missing_popular(&enabled);
    assert!(!missing.contains(&"git".to_string()));
    assert!(!missing.contains(&"fzf".to_string()));
    assert!(missing.contains(&"docker".to_string()));
    assert_eq!(missing.len(), popular_plugin_names().len() - 2);
    let mut sorted = missing.clone();
    sorted.sort();
    assert_eq!(missing, sorted);
}

#[test]
fn catalog_known_name() {
    let (desc, repo, hint) = get_plugin_info("git");
    assert_eq!(desc.unwrap(), "Git aliases and functions");
    assert_eq!(
        repo.unwrap(),
        "https://github.com/ohmyzsh/ohmyzsh/tree/master/plugins/git"
    );
    assert_eq!(hint.unwrap(), "Built-in Oh-My-Zsh plugin - no installation required");
}

#[test]
fn catalog_unknown_name() {
    let (desc, repo, hint) = get_plugin_info("definitely-not-a-plugin");
    assert!(desc.is_none());
    assert!(repo.is_none());
    assert!(hint.is_none());
}

#[test]
fn make_plugin_fills_metadata() {
    let p = make_plugin("zsh-autosuggestions", true, false);
    assert_eq!(p.name, "zsh-autosuggestions");
    assert!(p.enabled);
    assert!(!p.installed);
    assert_eq!(p.manager, PluginManager::OhMyZsh);
    assert_eq!(p.description.unwrap(), "Fish-like autosuggestions for zsh");
    assert!(p.repository.is_some());
    assert!(p.install_command.is_some());
}

#[test]
fn make_plugin_unknown_name_has_no_metadata() {
    let p = make_plugin("mystery", false, true);
    assert!(p.description.is_none());
    assert!(p.repository.is_none());
    assert!(p.install_command.is_none());
}

#[test]
fn parse_plugins_mixed_whitespace() {
    let toks = parse_plugins_from_file("plugins=(\tgit\n docker  fzf\n)");
    assert_eq!(
        toks,
        vec!["git".to_string(), "docker".to_string(), "fzf".to_string()]
    );
}
