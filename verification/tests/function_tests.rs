use zsh_config::functions::add_function_text;
use zsh_config::functions::delete_function_text;
use zsh_config::functions::list_functions_in;
use zsh_config::functions::update_function_text;
use zsh_config::parse_functions;
use zsh_config::try_parse_function_start;
use zsh_config::EditError;

#[test]
fn parse_single_function_with_comment() {
    let content = "# comment\nfunction greet() {\n  echo \"hi\"\n}";
    let funcs = parse_functions(content);
    assert_eq!(funcs.len(), 1);
    assert_eq!(funcs[0].name, "greet");
    assert_eq!(funcs[0].content, "echo \"hi\"");
}

#[test]
fn header_keyword_form() {
    assert_eq!(try_parse_function_start("function foo() {").unwrap(), "foo");
    assert_eq!(try_parse_function_start("  function foo ()"), Some("foo".to_string()));
}

#[test]
fn header_bare_form() {
    assert_eq!(try_parse_function_start("bar() {").unwrap(), "bar");
    assert!(try_parse_function_start("bar (x) {").is_none());
}

#[test]
fn header_rejects_comments_and_blanks() {
    assert!(try_parse_function_start("# function foo() {").is_none());
    assert!(try_parse_function_start("").is_none());
    assert!(try_parse_function_start("echo hello").is_none());
}

#[test]
fn parse_nested_braces() {
    let content = "function f() {\n  if true; then {\n    echo a\n  }\n  fi\n}";
    let funcs = parse_functions(content);
    assert_eq!(funcs.len(), 1);
    assert_eq!(funcs[0].name, "f");
    assert_eq!(funcs[0].content, "if true; then {\n    echo a\n  }\n  fi");
}

#[test]
fn parse_two_functions() {
    let content = "function a() {\n  x\n}\n\nfunction b() {\n  y\n}\n";
    let funcs = parse_functions(content);
    assert_eq!(funcs.len(), 2);
    assert_eq!(funcs[0].name, "a");
    assert_eq!(funcs[1].name, "b");
}

#[test]
fn unclosed_header_yields_no_record() {
    let content = "function broken() {\necho never closed\n";
    let funcs = parse_functions(content);
    assert_eq!(funcs.len(), 0);
}

#[test]
fn lines_after_unclosed_header_still_scanned() {
    // the dangling block swallows nothing once its own scan fails
    let content = "function broken() {\nfunction ok() {\n  echo fine\n}\n";
    let funcs = parse_functions(content);
    assert_eq!(funcs.len(), 1);
    assert_eq!(funcs[0].name, "ok");
}

#[test]
fn rewrite_regenerates_only_recognized_blocks() {
    // a dangling header contributes no record, so a full-file rewrite of
    // the other blocks drops its line
    let content = "function broken() {\nfunction ok() {\n  echo fine\n}\n";
    let out = update_function_text(content, "ok", "echo changed").unwrap();
    assert_eq!(out, "function ok() {\n  echo changed\n}\n");
}

#[test]
fn list_functions_stamps_scope() {
    let funcs = list_functions_in("function a() {\n  x\n}\n", true);
    assert_eq!(funcs.len(), 1);
    assert!(funcs[0].shared);
}

#[test]
fn add_function_block_format() {
    let out = add_function_text("", "greet", "echo \"hi\"").unwrap();
    assert_eq!(out, "function greet() {\n  echo \"hi\"\n}\n");
}

#[test]
fn add_function_separated_by_blank_line() {
    let content = "function a() {\n  x\n}\n";
    let out = add_function_text(content, "b", "y").unwrap();
    assert_eq!(out, "function a() {\n  x\n}\n\nfunction b() {\n  y\n}\n");
}

#[test]
fn add_function_duplicate_refused() {
    let content = "function a() {\n  x\n}\n";
    let r = add_function_text(content, "a", "other");
    assert!(matches!(r, Err(EditError::AlreadyExists)));
}

#[test]
fn function_round_trip_normalizes_indentation() {
    let out = add_function_text("", "f", "one\n\ntwo").unwrap();
    let funcs = parse_functions(&out);
    assert_eq!(funcs.len(), 1);
    assert_eq!(funcs[0].content, "one\n\n  two");
}

#[test]
fn update_function_replaces_body() {
    let content = "function a() {\n  x\n}\n\nfunction b() {\n  y\n}\n";
    let out = update_function_text(content, "a", "z").unwrap();
    assert_eq!(out, "function a() {\n  z\n}\n\nfunction b() {\n  y\n}\n");
}

#[test]
fn update_function_missing_name() {
    let r = update_function_text("function a() {\n  x\n}\n", "zz", "1");
    assert!(matches!(r, Err(EditError::NotFound)));
}

#[test]
fn delete_function_removes_block() {
    let content = "function a() {\n  x\n}\n\nfunction b() {\n  y\n}\n";
    let out = delete_function_text(content, "a").unwrap();
    assert_eq!(out, "function b() {\n  y\n}\n");
}

#[test]
fn delete_function_missing_name() {
    let r = delete_function_text("function a() {\n  x\n}\n", "zz");
    assert!(matches!(r, Err(EditError::NotFound)));
}

#[test]
fn empty_body_block() {
    let out = add_function_text("", "noop", "").unwrap();
    assert_eq!(out, "function noop() {\n}\n");
    let funcs = parse_functions(&out);
    assert_eq!(funcs.len(), 1);
    assert_eq!(funcs[0].content, "");
}

#[test]
fn one_line_block_yields_empty_body() {
    // braces open and close on the header line itself, so nothing is
    // collected as body text: a known limit of the line-oriented scan
    let funcs = parse_functions("f() { echo x; }");
    assert_eq!(funcs.len(), 1);
    assert_eq!(funcs[0].name, "f");
    assert_eq!(funcs[0].content, "");
}

#[test]
fn delete_function_removes_first_occurrence_only() {
    let content = "function a() {\n  x\n}\n\nfunction a() {\n  y\n}\n\nfunction b() {\n  z\n}\n";
    let out = delete_function_text(content, "a").unwrap();
    assert_eq!(out, "function a() {\n  y\n}\n\nfunction b() {\n  z\n}\n");
}
