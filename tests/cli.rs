use port_kill::cli::{Args, LogLevel, PortPreset};
use std::collections::HashSet;

// Options with their default values.
fn create_test_args() -> Args {
    Args {
        start_port: 2000,
        end_port: 6000,
        ports: None,
        ignore_ports: None,
        ignore_processes: None,
        ignore_patterns: None,
        ignore_groups: None,
        smart_filter: false,
        only_groups: None,
        console: false,
        verbose: false,
        docker: false,
        show_pid: false,
        log_level: LogLevel::Info,
        show_history: false,
        clear_history: false,
        show_filters: false,
        performance: false,
        show_context: false,
        kill_all: false,
        kill_group: None,
        kill_project: None,
        restart: None,
        show_restart_history: false,
        clear_restart: None,
        show_tree: false,
        json: false,
        reset: false,
        show_offenders: false,
        show_patterns: false,
        show_suggestions: false,
        show_stats: false,
        show_root_cause: false,
        guard_mode: false,
        guard_ports: "3000,3001,3002,8000,8080,9000".to_string(),
        auto_resolve: false,
        reservation_file: "~/.port-kill/reservations.json".to_string(),
        intercept_commands: false,
        reserve_port: None,
        project_name: None,
        process_name: None,
        audit: false,
        security_mode: false,
        suspicious_ports: "8444,4444,9999,14444,5555,6666,7777".to_string(),
        baseline_file: None,
        suspicious_only: false,
        remote: None,
        monitor_endpoint: None,
        send_interval: 30,
        scan_interval: 2,
        endpoint_auth: None,
        endpoint_fields: None,
        endpoint_include_audit: false,
        endpoint_retries: 3,
        endpoint_timeout: 10,
        script: None,
        script_file: None,
        script_lang: "js".to_string(),
        clear: None,
        guard: None,
        allow: None,
        kill: None,
        kill_file: None,
        kill_ext: None,
        list_file: None,
        list: false,
        safe: false,
        positional_ports: vec![],
        preset: None,
        list_presets: false,
        save_preset: None,
        preset_desc: None,
        delete_preset: None,
        check_updates: false,
        self_update: false,
        cache: None,
        detect: false,
        start: None,
        guard_auto_restart: false,
        up: false,
        down: false,
        restart_service: None,
        status: false,
        config_file: ".port-kill.yaml".to_string(),
        init_config: false,
    }
}

#[test]
fn test_get_ports_to_monitor_range() {
    let mut args = create_test_args();
    args.start_port = 3000;
    args.end_port = 3005;

    let ports = args.get_ports_to_monitor();
    assert_eq!(ports, vec![3000, 3001, 3002, 3003, 3004, 3005]);
}

#[test]
fn test_get_ports_to_monitor_specific() {
    let mut args = create_test_args();
    args.ports = Some(vec![
        "3000".to_string(),
        "8000".to_string(),
        "8080".to_string(),
    ]);

    let ports = args.get_ports_to_monitor();
    assert_eq!(ports, vec![3000, 8000, 8080]);
}

#[test]
fn test_get_ports_to_monitor_with_ranges() {
    let mut args = create_test_args();
    args.ports = Some(vec![
        "3000-3002".to_string(),
        "8000".to_string(),
        "8080-8081".to_string(),
    ]);

    let ports = args.get_ports_to_monitor();
    assert_eq!(ports, vec![3000, 3001, 3002, 8000, 8080, 8081]);
}

#[test]
fn test_get_ignore_ports_set() {
    let mut args = create_test_args();
    args.ignore_ports = Some(vec![5353, 5000, 7000]);

    let ignore_ports = args.get_ignore_ports_set();
    assert_eq!(ignore_ports, HashSet::from([5353, 5000, 7000]));
}

#[test]
fn test_get_ignore_processes_set() {
    let mut args = create_test_args();
    args.ignore_processes = Some(vec!["Chrome".to_string(), "ControlCe".to_string()]);

    let ignore_processes: HashSet<String> = args.get_ignore_processes_set().into_iter().collect();
    assert_eq!(
        ignore_processes,
        HashSet::from([String::from("Chrome"), String::from("ControlCe")])
    );
}

#[test]
fn test_get_port_description_with_ignores() {
    let mut args = create_test_args();
    args.ignore_ports = Some(vec![5353, 5000]);
    args.ignore_processes = Some(vec!["Chrome".to_string(), "ControlCe".to_string()]);

    assert_eq!(args.get_port_description(), "port range: 2000-6000 (ignoring ports: 5353, 5000, ignoring processes: Chrome, ControlCe)");
}

#[test]
fn test_get_port_description_range() {
    let mut args = create_test_args();
    args.start_port = 3000;
    args.end_port = 3010;

    assert_eq!(args.get_port_description(), "port range: 3000-3010");
}

#[test]
fn test_get_port_description_specific() {
    let mut args = create_test_args();
    args.ports = Some(vec![
        "3000".to_string(),
        "8000".to_string(),
        "8080".to_string(),
    ]);

    assert_eq!(
        args.get_port_description(),
        "specific ports: 3000, 8000, 8080"
    );
}

#[test]
fn test_validation_valid() {
    let mut args = create_test_args();
    args.start_port = 3000;
    args.end_port = 3010;

    assert!(args.validate().is_ok());
}

#[test]
fn test_validation_invalid_range() {
    let mut args = create_test_args();
    args.start_port = 3010;
    args.end_port = 3000;

    assert!(args.validate().is_err());
}

#[test]
fn test_validation_empty_specific_ports() {
    let mut args = create_test_args();
    args.ports = Some(vec![]);

    assert!(args.validate().is_err());
}

#[test]
fn test_validation_invalid_ignore_port() {
    let mut args = create_test_args();
    args.ignore_ports = Some(vec![0]);

    assert!(args.validate().is_err());
}

#[test]
fn test_validation_empty_ignore_process() {
    let mut args = create_test_args();
    args.ignore_processes = Some(vec!["".to_string()]);

    assert!(args.validate().is_err());
}

#[test]
fn validation_messages_name_the_first_problem() {
    let mut args = create_test_args();
    args.start_port = 3010;
    args.end_port = 3000;
    assert_eq!(args.validate(), Err("Start port cannot be greater than end port".to_string()));

    let mut args = create_test_args();
    args.ports = Some(vec![]);
    assert_eq!(args.validate(), Err("At least one port must be specified".to_string()));

    let mut args = create_test_args();
    args.ports = Some(vec!["3000".to_string(), "abc".to_string(), "0".to_string()]);
    assert_eq!(args.validate(), Err("Invalid port specification: 'abc'".to_string()));

    let mut args = create_test_args();
    args.ports = Some(vec!["0-2".to_string()]);
    assert_eq!(args.validate(), Err("Port 0 is not valid".to_string()));

    let mut args = create_test_args();
    args.ignore_ports = Some(vec![5000, 0]);
    assert_eq!(args.validate(), Err("Ignore port 0 is not valid".to_string()));

    let mut args = create_test_args();
    args.ignore_processes = Some(vec!["node".to_string(), " \t ".to_string()]);
    assert_eq!(args.validate(), Err("Ignore process names cannot be empty".to_string()));
}

#[test]
fn port_specifications_are_trimmed_and_checked() {
    let args = create_test_args();
    assert_eq!(args.parse_port_range(" 3000 "), Some(vec![3000]));
    assert_eq!(args.parse_port_range("+80"), Some(vec![80]));
    assert_eq!(args.parse_port_range("65535"), Some(vec![65535]));
    assert_eq!(args.parse_port_range("65536"), None);
    assert_eq!(args.parse_port_range("3002-3000"), None);
    assert_eq!(args.parse_port_range("1-2-3"), None);
    assert_eq!(args.parse_port_range("3000 - 3001"), None);
    assert_eq!(args.parse_port_range("65534-65535"), Some(vec![65534, 65535]));
    assert_eq!(args.parse_port_range(""), None);
}

#[test]
fn invalid_specifications_add_no_ports() {
    let mut args = create_test_args();
    args.ports = Some(vec!["x".to_string(), "10-11".to_string()]);
    assert_eq!(args.get_ports_to_monitor(), vec![10, 11]);
    args.ports = None;
    args.start_port = 5;
    args.end_port = 4;
    assert_eq!(args.get_ports_to_monitor(), Vec::<u16>::new());
}

#[test]
fn guard_and_suspicious_port_lists() {
    let mut args = create_test_args();
    assert_eq!(args.get_guard_ports(), vec![3000, 3001, 3002, 8000, 8080, 9000]);
    assert_eq!(args.get_suspicious_ports(), vec![8444, 4444, 9999, 14444, 5555, 6666, 7777]);
    args.guard_ports = " 1 , x,,70000, 2".to_string();
    assert_eq!(args.get_guard_ports(), vec![1, 2]);
}

#[test]
fn ports_set_and_groups() {
    let mut args = create_test_args();
    args.ports = Some(vec!["7-8".to_string(), "8".to_string()]);
    assert_eq!(args.get_ports_set(), HashSet::from([7, 8]));
    args.ignore_groups = Some(vec!["Database".to_string(), "Database".to_string()]);
    assert_eq!(args.get_ignore_groups_set(), vec!["Database".to_string()]);
    assert_eq!(args.get_only_groups_set(), None);
    args.only_groups = Some(vec!["Web".to_string()]);
    assert_eq!(args.get_only_groups_set(), Some(vec!["Web".to_string()]));
    assert_eq!(args.get_ignore_ports_set(), HashSet::new());
}

#[test]
fn smart_filter_defaults() {
    let mut args = create_test_args();
    let (ports, processes, groups) = args.get_smart_filter_defaults();
    assert!(ports.is_empty() && processes.is_empty() && groups.is_empty());
    args.smart_filter = true;
    let (ports, processes, groups) = args.get_smart_filter_defaults();
    assert_eq!(ports.len(), 17);
    assert!(ports.contains(&5432) && ports.contains(&22));
    assert_eq!(processes.len(), 24);
    assert_eq!(processes[0], "Chrome");
    assert_eq!(groups, vec!["Web Server".to_string(), "Database".to_string()]);
}

#[test]
fn reset_ports_and_remote_host() {
    let mut args = create_test_args();
    assert_eq!(args.get_reset_ports(), vec![3000, 5000, 8000, 5432, 3306, 6379, 27017, 8080, 9000]);
    assert_eq!(args.get_remote_host(), None);
    args.remote = Some("dev@box".to_string());
    assert_eq!(args.get_remote_host(), Some("dev@box".to_string()));
}

#[test]
fn log_levels() {
    assert_eq!(LogLevel::Info.to_rust_log(), "info");
    assert_eq!(LogLevel::Warn.to_rust_log(), "warn");
    assert_eq!(LogLevel::Error.to_rust_log(), "error");
    assert_eq!(LogLevel::Off.to_rust_log(), "off");
    assert!(LogLevel::Info.is_info_enabled() && !LogLevel::Warn.is_info_enabled());
    assert!(LogLevel::Warn.is_warn_enabled() && !LogLevel::Error.is_warn_enabled());
    assert!(LogLevel::Error.is_error_enabled() && !LogLevel::Off.is_error_enabled());
}

#[test]
fn presets_round_trip_through_options() {
    let mut args = create_test_args();
    let preset = PortPreset {
        name: "web".to_string(),
        description: "web ports".to_string(),
        ports: vec![3000, 8080],
        ignore_ports: Some(vec![5353]),
        ignore_processes: None,
        ignore_patterns: Some(vec!["chrome*".to_string()]),
        ignore_groups: None,
        only_groups: None,
        smart_filter: true,
        docker: true,
        show_pid: false,
        performance: true,
        show_context: false,
    };
    args.ignore_processes = Some(vec!["keep".to_string()]);
    args.apply_preset(&preset);
    assert_eq!(args.ports, Some(vec!["3000".to_string(), "8080".to_string()]));
    assert_eq!(args.ignore_ports, Some(vec![5353]));
    assert_eq!(args.ignore_processes, Some(vec!["keep".to_string()]));
    assert_eq!(args.ignore_patterns, Some(vec!["chrome*".to_string()]));
    assert!(args.smart_filter && args.docker && args.performance);
    assert_eq!(args.start_port, 2000);

    let built = args.build_preset_from_args("mine".to_string(), "d".to_string());
    assert_eq!(built.name, "mine");
    assert_eq!(built.ports, vec![3000, 8080]);
    assert_eq!(built.ignore_ports, Some(vec![5353]));
    assert!(built.smart_filter && built.docker && !built.show_pid);
}

#[test]
fn preset_ports_read_back_exactly() {
    let mut args = create_test_args();
    let preset = PortPreset {
        name: "edge".to_string(),
        description: String::new(),
        ports: vec![0, 9, 10, 65535],
        ignore_ports: None,
        ignore_processes: None,
        ignore_patterns: None,
        ignore_groups: None,
        only_groups: None,
        smart_filter: false,
        docker: false,
        show_pid: false,
        performance: false,
        show_context: false,
    };
    args.apply_preset(&preset);
    assert_eq!(args.get_ports_to_monitor(), vec![0, 9, 10, 65535]);
}
