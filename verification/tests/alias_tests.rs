use zsh_config::alias::add_alias_text;
use zsh_config::alias::delete_alias_text;
use zsh_config::alias::list_aliases_in;
use zsh_config::alias::parse_alias_line;
use zsh_config::alias::render_alias_line;
use zsh_config::alias::update_alias_text;
use zsh_config::EditError;

#[test]
fn parse_alias_basic() {
    let a = parse_alias_line("alias gs=\"git status\"").unwrap();
    assert_eq!(a.name, "gs");
    assert_eq!(a.command, "git status");
    assert!(!a.shared);
}

#[test]
fn parse_alias_single_quotes() {
    let a = parse_alias_line("alias ll='ls -la'").unwrap();
    assert_eq!(a.name, "ll");
    assert_eq!(a.command, "ls -la");
}

#[test]
fn parse_alias_unquoted() {
    let a = parse_alias_line("  alias up=cd ..  ").unwrap();
    assert_eq!(a.name, "up");
    assert_eq!(a.command, "cd ..");
}

#[test]
fn parse_alias_asymmetric_quotes_kept() {
    let a = parse_alias_line("alias x=\"oops").unwrap();
    assert_eq!(a.command, "\"oops");
}

#[test]
fn parse_alias_rejects_comment_and_blank() {
    assert!(parse_alias_line("# alias gs=\"git status\"").is_none());
    assert!(parse_alias_line("").is_none());
    assert!(parse_alias_line("   ").is_none());
}

#[test]
fn parse_alias_rejects_other_lines() {
    assert!(parse_alias_line("export PATH=/usr/bin").is_none());
    assert!(parse_alias_line("alias noequals").is_none());
}

#[test]
fn alias_round_trip_normalizes_quotes() {
    let a = parse_alias_line("alias ll='ls -la'").unwrap();
    let line = render_alias_line(&a.name, &a.command);
    assert_eq!(line, "alias ll=\"ls -la\"");
    let b = parse_alias_line(&line).unwrap();
    assert_eq!(b.name, a.name);
    assert_eq!(b.command, a.command);
}

#[test]
fn alias_round_trip_double_quoted_value() {
    let a = parse_alias_line("alias q=\"\"x\"\"").unwrap();
    let line = render_alias_line(&a.name, &a.command);
    let b = parse_alias_line(&line).unwrap();
    assert_eq!(b.name, a.name);
    assert_eq!(b.command, a.command);
}

#[test]
fn list_aliases_skips_other_lines() {
    let content = "# comment\nalias a=\"1\"\n\nexport X=2\nalias b='2'\n";
    let list = list_aliases_in(content, true);
    assert_eq!(list.len(), 2);
    assert_eq!(list[0].name, "a");
    assert_eq!(list[0].command, "1");
    assert!(list[0].shared);
    assert_eq!(list[1].name, "b");
    assert_eq!(list[1].command, "2");
}

#[test]
fn list_aliases_empty_content() {
    assert_eq!(list_aliases_in("", false).len(), 0);
}

#[test]
fn add_alias_appends_line() {
    let out = add_alias_text("alias a=\"1\"\n", "b", "2").unwrap();
    assert_eq!(out, "alias a=\"1\"\nalias b=\"2\"\n");
}

#[test]
fn add_alias_supplies_missing_newline() {
    let out = add_alias_text("alias a=\"1\"", "b", "2").unwrap();
    assert_eq!(out, "alias a=\"1\"\nalias b=\"2\"\n");
}

#[test]
fn add_alias_to_empty_file() {
    let out = add_alias_text("", "b", "2").unwrap();
    assert_eq!(out, "alias b=\"2\"\n");
}

#[test]
fn add_alias_duplicate_refused() {
    let content = "alias a=\"1\"\n";
    let r = add_alias_text(content, "a", "other");
    assert!(matches!(r, Err(EditError::AlreadyExists)));
}

#[test]
fn update_alias_rewrites_only_its_line() {
    let content = "# keep me\nalias a=\"1\"\nalias b=\"2\"\n";
    let out = update_alias_text(content, "a", "aa", "11").unwrap();
    assert_eq!(out, "# keep me\nalias aa=\"11\"\nalias b=\"2\"\n");
}

#[test]
fn update_alias_missing_name() {
    let r = update_alias_text("alias a=\"1\"\n", "zz", "zz", "1");
    assert!(matches!(r, Err(EditError::NotFound)));
}

#[test]
fn delete_alias_removes_line() {
    let content = "# keep me\nalias a=\"1\"\nalias b=\"2\"\n";
    let out = delete_alias_text(content, "a").unwrap();
    assert_eq!(out, "# keep me\nalias b=\"2\"\n");
}

#[test]
fn delete_alias_missing_name_leaves_file() {
    let content = "# keep me\nalias a=\"1\"\n";
    let r = delete_alias_text(content, "zz");
    assert!(matches!(r, Err(EditError::NotFound)));
}

#[test]
fn error_messages_name_the_subject() {
    let m = EditError::AlreadyExists.message("Alias", "gs");
    assert_eq!(m, "Alias 'gs' already exists");
    let m = EditError::NotFound.message("Function", "greet");
    assert_eq!(m, "Function 'greet' not found");
    let m = EditError::SourceMissing.message("Plugin list", "git");
    assert_eq!(m, "Plugin list source marker not found");
}

#[test]
fn delete_alias_removes_every_occurrence() {
    let content = "alias a=\"1\"\nalias a=\"2\"\nalias b=\"3\"\n";
    let out = delete_alias_text(content, "a").unwrap();
    assert_eq!(out, "alias b=\"3\"\n");
}

#[test]
fn update_alias_rewrites_every_occurrence() {
    let content = "alias a=\"1\"\nalias a=\"2\"\n";
    let out = update_alias_text(content, "a", "a", "3").unwrap();
    assert_eq!(out, "alias a=\"3\"\nalias a=\"3\"\n");
}

#[test]
fn parse_alias_value_keeps_later_equals() {
    let a = parse_alias_line("alias e=\"env A=1 B=2\"").unwrap();
    assert_eq!(a.name, "e");
    assert_eq!(a.command, "env A=1 B=2");
}
