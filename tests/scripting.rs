use port_kill::script::{
    command_kind, script_statements, CommandKind,
    extract_guard_file_params, extract_guard_port_params, extract_message_from_log,
    extract_pid_from_kill, extract_port_from_clearport, extract_port_from_getprocess,
    extract_port_from_onport, extract_quoted_argument, extract_seconds_from_wait,
};

#[test]
fn test_extract_port_from_onport() {
    assert_eq!(extract_port_from_onport("onPort(3000, callback)"), Some("3000"));
    assert_eq!(
        extract_port_from_onport("onPort(8080, proc => kill(proc.pid))"),
        Some("8080")
    );
}

#[test]
fn test_extract_pid_from_kill() {
    assert_eq!(extract_pid_from_kill("kill(1234)"), Some("1234"));
    assert_eq!(extract_pid_from_kill("kill(5678)"), Some("5678"));
    assert_eq!(extract_port_from_clearport("clearPort(3000)"), Some("3000"));
    assert_eq!(extract_port_from_getprocess("getProcess(8080)"), Some("8080"));
    assert_eq!(extract_message_from_log("log(\"Hello World\")"), Some("Hello World"));
    assert_eq!(extract_seconds_from_wait("wait(5)"), Some("5"));
}

#[test]
fn missing_parentheses_give_nothing() {
    assert_eq!(extract_pid_from_kill("kill 1234"), None);
    assert_eq!(extract_pid_from_kill("kill(1234"), None);
    assert_eq!(extract_port_from_onport("onPort(3000)"), None);
    assert_eq!(extract_message_from_log("log(\")"), Some("\""));
    assert_eq!(extract_quoted_argument("killFileExt(\".lock\")"), Some(".lock"));
}

#[test]
fn guard_parameters() {
    assert_eq!(extract_guard_port_params("guardPort(3000)"), Some(("3000", None)));
    assert_eq!(
        extract_guard_port_params("guardPort( 3000 , \"my-dev-server\" )"),
        Some(("3000", Some("my-dev-server")))
    );
    assert_eq!(extract_guard_file_params("guardFile(\"a.lock\")"), Some(("a.lock", None)));
    assert_eq!(
        extract_guard_file_params("guardFile(\"a.lock\", vim)"),
        Some(("a.lock", Some("vim")))
    );
}

#[test]
fn scripts_split_into_statements_and_kinds() {
    let script = "// setup\n  guardPort(3000, \"node\"); log(\"hi\") ;\r\n\n# note\nkill(12);;wait(1)\nfrobnicate()";
    let statements = script_statements(script);
    assert_eq!(
        statements,
        vec!["guardPort(3000, \"node\")", "log(\"hi\")", "kill(12)", "wait(1)", "frobnicate()"]
    );
    let kinds: Vec<CommandKind> = statements.iter().map(|s| command_kind(s)).collect();
    assert_eq!(
        kinds,
        vec![CommandKind::GuardPort, CommandKind::Log, CommandKind::Kill, CommandKind::Wait, CommandKind::Unknown]
    );
    assert_eq!(command_kind("killFileExt(\".lock\")"), CommandKind::KillFileExt);
    assert_eq!(command_kind("listFileProcesses(x)"), CommandKind::ListFileProcesses);
}
