use port_kill::restart::{relevant_env_var_names, LedgerError, RestartManager};

#[test]
fn record_restart_and_clear() {
    let mut ledger = RestartManager::new();
    ledger.save_process_for_restart(3000, "npm run dev", "/app", vec![("NODE_ENV".to_string(), "development".to_string())], 1_700_000_000);
    let cmd = match ledger.restart_command(3000) {
        Ok(c) => c,
        Err(_) => panic!("recorded"),
    };
    let mut argv = vec![cmd.program.clone()];
    argv.extend(cmd.args.clone());
    assert_eq!(argv, vec!["npm", "run", "dev"]);
    assert_eq!(cmd.working_directory, "/app");
    assert_eq!(cmd.env_vars, vec![("NODE_ENV".to_string(), "development".to_string())]);
    assert_eq!(ledger.get_restart_info(3000).unwrap().last_restarted, 1_700_000_000);
    ledger.clear_port(3000);
    assert!(matches!(ledger.restart_command(3000), Err(LedgerError::NotFound(3000))));
}

#[test]
fn recording_again_replaces_the_recipe() {
    let mut ledger = RestartManager::new();
    ledger.save_process_for_restart(8000, "python -m http.server", "/a", vec![], 1_700_000_000);
    ledger.save_process_for_restart(8000, "node 'my server.js'", "/b", vec![], 1_700_000_000);
    let info = ledger.get_restart_info(8000).unwrap();
    assert_eq!(info.command, vec!["node", "my server.js"]);
    assert_eq!(info.working_directory, "/b");
    assert!(info.env_vars.is_empty());
    assert!(ledger.can_restart(8000));
    assert!(!ledger.can_restart(8001));
}

#[test]
fn ports_are_listed_in_order_and_cleared() {
    let mut ledger = RestartManager::new();
    ledger.save_process_for_restart(9000, "a", "/", vec![], 1_700_000_000);
    ledger.save_process_for_restart(80, "b", "/", vec![], 1_700_000_000);
    ledger.save_process_for_restart(65535, "c", "/", vec![], 1_700_000_000);
    ledger.save_process_for_restart(0, "   ", "/", vec![], 1_700_000_000);
    assert_eq!(ledger.list_restartable_ports(), vec![0, 80, 9000, 65535]);
    assert!(matches!(ledger.restart_command(0), Err(LedgerError::EmptyCommand(0))));
    ledger.clear_all();
    assert!(ledger.list_restartable_ports().is_empty());
    assert_eq!(ledger.restart_records().len(), 0);
}

#[test]
fn relevant_variables() {
    let names = relevant_env_var_names();
    assert_eq!(names.len(), 11);
    assert_eq!(names[0], "PATH");
    assert_eq!(names[10], "DEBUG");
}

#[test]
fn history_entries_need_command_and_directory() {
    let mut ledger = RestartManager::new();
    ledger.save_from_history_entry(5000, &Some("flask run".to_string()), &None, vec![], 1_700_000_000);
    assert!(!ledger.can_restart(5000));
    ledger.save_from_history_entry(5000, &Some("flask run".to_string()), &Some("/srv".to_string()), vec![], 1_700_000_000);
    assert_eq!(ledger.get_restart_info(5000).unwrap().command, vec!["flask", "run"]);
}
