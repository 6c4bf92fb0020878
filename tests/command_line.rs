use port_kill::lexer::{parse_command_line, split_command};

#[test]
fn command_line_test_parse_command_line() {
    let cmd = "npm run dev --port 3000";
    let parts = parse_command_line(cmd);
    assert_eq!(parts, vec!["npm", "run", "dev", "--port", "3000"]);
}

#[test]
fn command_line_test_parse_command_line_with_quotes() {
    let cmd = r#"node "my script.js" --arg "value with spaces""#;
    let parts = parse_command_line(cmd);
    assert_eq!(
        parts,
        vec!["node", "my script.js", "--arg", "value with spaces"]
    );
}

#[test]
fn test_parse_command_line_with_mixed_quotes() {
    let cmd = r#"echo "it's working" --arg test"#;
    let parts = parse_command_line(cmd);
    assert_eq!(parts, vec!["echo", "it's working", "--arg", "test"]);
}

#[test]
fn test_parse_command_line_with_apostrophe_in_filename() {
    let cmd = r#"node "user's script.js" --port 3000"#;
    let parts = parse_command_line(cmd);
    assert_eq!(parts, vec!["node", "user's script.js", "--port", "3000"]);
}

#[test]
fn test_parse_command() {
    let cmd = "npm run dev --port 3000";
    let parts = split_command(cmd);
    assert_eq!(parts, vec!["npm", "run", "dev", "--port", "3000"]);
}

#[test]
fn test_parse_command_with_quotes() {
    let cmd = r#"node "my script.js" --arg "value with spaces""#;
    let parts = split_command(cmd);
    assert_eq!(parts, vec!["node", "my script.js", "--arg", "value with spaces"]);
}

#[test]
fn restart_manager_test_parse_command_line() {
    let cmd = "npm run dev --port 3000";
    let parts = split_command(cmd);
    assert_eq!(parts, vec!["npm", "run", "dev", "--port", "3000"]);
}

#[test]
fn restart_manager_test_parse_command_line_with_quotes() {
    let cmd = r#"node "my script.js" --arg "value with spaces""#;
    let parts = split_command(cmd);
    assert_eq!(parts, vec!["node", "my script.js", "--arg", "value with spaces"]);
}

#[test]
fn toggling_quotes_ignore_their_kind() {
    // A `'` closes a region that a `"` opened.
    assert_eq!(split_command(r#"echo "it's working""#), vec!["echo", "its", "working"]);
}

#[test]
fn blanks_and_empty_words() {
    assert_eq!(parse_command_line(""), Vec::<String>::new());
    assert_eq!(parse_command_line(" \t a\t\tb  "), vec!["a", "b"]);
    assert_eq!(parse_command_line(r#"a "" b"#), vec!["a", "b"]);
    assert_eq!(parse_command_line(r#"x "unterminated  y"#), vec!["x", "unterminated  y"]);
    assert_eq!(split_command("  "), Vec::<String>::new());
}
