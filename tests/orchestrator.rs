use port_kill::orchestrator::{Orchestrator, OrchestratorError};
use port_kill::resolver::{resolve, ResolveError};
use port_kill::service::{OrchestrationConfig, ServiceConfig};

fn service(command: &str, deps: &[&str]) -> ServiceConfig {
    ServiceConfig {
        command: command.to_string(),
        port: None,
        dir: None,
        env: None,
        depends_on: if deps.is_empty() {
            None
        } else {
            Some(deps.iter().map(|d| d.to_string()).collect())
        },
        healthcheck: None,
        startup_delay: None,
    }
}

fn graph(services: Vec<(&str, ServiceConfig)>) -> OrchestrationConfig {
    OrchestrationConfig {
        version: Some("1".to_string()),
        services: services.into_iter().map(|(n, s)| (n.to_string(), s)).collect(),
        env: None,
    }
}

fn position(order: &[String], name: &str) -> usize {
    order.iter().position(|n| n == name).unwrap()
}

#[test]
fn start_all_starts_db_before_api_and_stop_all_reverses() {
    let config = graph(vec![("api", service("node api.js", &["db"])), ("db", service("postgres", &[]))]);
    let mut orch = Orchestrator::new(config, "/srv".to_string());
    let order = match orch.plan_start_all() {
        Ok(order) => order,
        Err(_) => panic!("graph resolves"),
    };
    assert_eq!(order, vec!["db".to_string(), "api".to_string()]);
    let mut pid = 100;
    for name in &order {
        assert!(orch.launch_spec(name).is_ok());
        assert!(orch.record_started(name, pid));
        pid += 1;
    }
    assert_eq!(orch.stop_order(), vec!["api".to_string(), "db".to_string()]);
    let stopped = orch.take_running(&"api".to_string()).unwrap();
    assert_eq!(stopped.pid, 101);
    assert!(!orch.is_running(&"api".to_string()));
    assert!(orch.is_running(&"db".to_string()));
}

#[test]
fn starting_twice_keeps_one_entry() {
    let config = graph(vec![("web", service("npm run dev", &[]))]);
    let mut orch = Orchestrator::new(config, ".".to_string());
    let web = "web".to_string();
    assert!(orch.record_started(&web, 7));
    // The second start finds the service running: nothing to spawn, a warning.
    match orch.plan_start(&web) {
        Ok(plan) => assert!(plan.is_empty()),
        Err(_) => panic!("service exists"),
    }
    assert!(!orch.record_started(&web, 8));
    assert_eq!(orch.running().len(), 1);
    assert_eq!(orch.running()[0].pid, 7);
}

#[test]
fn start_plan_brings_up_missing_dependencies_only() {
    let config = graph(vec![
        ("web", service("w", &["api"])),
        ("api", service("a", &["db", "cache"])),
        ("db", service("d", &[])),
        ("cache", service("c", &[])),
        ("other", service("o", &[])),
    ]);
    let mut orch = Orchestrator::new(config, ".".to_string());
    assert!(orch.record_started(&"db".to_string(), 1));
    let plan = match orch.plan_start(&"web".to_string()) {
        Ok(plan) => plan,
        Err(_) => panic!("graph resolves"),
    };
    assert_eq!(plan.len(), 3);
    assert!(!plan.contains(&"db".to_string()) && !plan.contains(&"other".to_string()));
    assert!(position(&plan, "cache") < position(&plan, "api"));
    assert!(position(&plan, "api") < position(&plan, "web"));
    match orch.plan_start(&"nope".to_string()) {
        Err(OrchestratorError::NotFound(n)) => assert_eq!(n, "nope"),
        _ => panic!("unknown service"),
    }
}

#[test]
fn resolve_orders_transitive_dependencies() {
    let config = graph(vec![
        ("a", service("a", &["b"])),
        ("b", service("b", &["c"])),
        ("c", service("c", &[])),
        ("d", service("d", &["a", "c"])),
    ]);
    let order = match resolve(&config) {
        Ok(order) => order,
        Err(_) => panic!("acyclic"),
    };
    assert_eq!(order.len(), 4);
    assert!(position(&order, "c") < position(&order, "b"));
    assert!(position(&order, "b") < position(&order, "a"));
    assert!(position(&order, "a") < position(&order, "d"));
}

#[test]
fn resolve_rejects_cycles_and_missing_dependencies() {
    let cyclic = graph(vec![
        ("a", service("a", &["b"])),
        ("b", service("b", &["c"])),
        ("c", service("c", &["a"])),
    ]);
    match resolve(&cyclic) {
        Err(ResolveError::CyclicDependency(name)) => assert!(["a", "b", "c"].contains(&name.as_str())),
        _ => panic!("cycle expected"),
    }
    let self_loop = graph(vec![("a", service("a", &["a"]))]);
    assert!(matches!(resolve(&self_loop), Err(ResolveError::CyclicDependency(_))));
    let missing = graph(vec![("a", service("a", &["ghost"]))]);
    match resolve(&missing) {
        Err(ResolveError::MissingDependency { service, dependency }) => {
            assert_eq!(service, "a");
            assert_eq!(dependency, "ghost");
        },
        _ => panic!("missing dependency expected"),
    }
    let empty = graph(vec![]);
    assert!(matches!(resolve(&empty), Ok(v) if v.is_empty()));
}

#[test]
fn launch_spec_merges_environment_and_directory() {
    let mut api = service("node \"my api.js\" --port 8000", &[]);
    api.env = Some(vec![("PORT".to_string(), "8000".to_string())]);
    api.port = Some(8000);
    api.startup_delay = Some(2);
    let mut config = graph(vec![("api", api), ("empty", service("  ", &[])), ("w", service("w", &[]))]);
    config.env = Some(vec![("NODE_ENV".to_string(), "development".to_string()), ("PORT".to_string(), "1".to_string())]);
    config.services[2].1.dir = Some("./web".to_string());
    let orch = Orchestrator::new(config, "/proj".to_string());
    let spec = match orch.launch_spec(&"api".to_string()) {
        Ok(s) => s,
        Err(_) => panic!("launchable"),
    };
    assert_eq!(spec.program, "node");
    assert_eq!(spec.args, vec!["my api.js", "--port", "8000"]);
    assert_eq!(spec.dir, "/proj");
    assert_eq!(
        spec.env,
        vec![
            ("NODE_ENV".to_string(), "development".to_string()),
            ("PORT".to_string(), "1".to_string()),
            ("PORT".to_string(), "8000".to_string()),
        ]
    );
    assert_eq!(spec.port, Some(8000));
    assert_eq!(spec.startup_delay, Some(2));
    assert!(matches!(orch.launch_spec(&"empty".to_string()), Err(OrchestratorError::EmptyCommand(_))));
    match orch.launch_spec(&"w".to_string()) {
        Ok(s) => assert_eq!(s.dir, "./web"),
        Err(_) => panic!("launchable"),
    }
}

#[test]
fn status_rows_are_sorted_by_name() {
    let mut b = service("b-cmd", &[]);
    b.port = Some(9);
    let config = graph(vec![("zeta", service("z", &[])), ("b", b), ("alpha", service("a", &[])), ("al", service("x", &[]))]);
    let mut orch = Orchestrator::new(config, ".".to_string());
    assert!(orch.record_started(&"b".to_string(), 55));
    let rows = orch.get_status();
    let names: Vec<&str> = rows.iter().map(|r| r.name.as_str()).collect();
    assert_eq!(names, vec!["al", "alpha", "b", "zeta"]);
    assert!(rows[2].running);
    assert_eq!(rows[2].pid, Some(55));
    assert_eq!(rows[2].port, Some(9));
    assert_eq!(rows[2].command, "b-cmd");
    assert!(!rows[0].running && rows[0].pid.is_none());
}

#[test]
fn cycle_error_names_a_service_on_the_cycle() {
    let config = graph(vec![
        ("free", service("f", &[])),
        ("leaf", service("l", &["a"])),
        ("a", service("a", &["b"])),
        ("b", service("b", &["a"])),
    ]);
    match resolve(&config) {
        Err(ResolveError::CyclicDependency(name)) => assert!(name == "a" || name == "b"),
        _ => panic!("cycle expected"),
    }
    let orch = Orchestrator::new(config, ".".to_string());
    match orch.plan_start(&"leaf".to_string()) {
        Err(OrchestratorError::CyclicDependency(name)) => assert!(name == "a" || name == "b"),
        _ => panic!("cycle expected"),
    }
    assert_eq!(orch.get_status().len(), 4);
}
