use port_kill::guard::{EventKind, GuardPolicy, ObservedProcess, Reconciler};

fn seen(port: u16, pid: u32, name: &str) -> ObservedProcess {
    ObservedProcess { port, pid, name: name.to_string() }
}

fn terminated(events: &[port_kill::guard::GuardEvent]) -> Vec<u32> {
    events.iter().filter(|e| e.terminate).map(|e| e.pid).collect()
}

#[test]
fn allow_only_spares_the_allowed_name() {
    let mut r = Reconciler::new(vec![]);
    r.add_rule(3000, GuardPolicy::AllowOnly("node".to_string()));
    let events = r.reconcile(&vec![seen(3000, 100, "node")]);
    assert_eq!(events.len(), 1);
    assert_eq!(events[0].kind, EventKind::New);
    assert!(terminated(&events).is_empty());

    let mut r = Reconciler::new(vec![]);
    r.add_rule(3000, GuardPolicy::AllowOnly("node".to_string()));
    let events = r.reconcile(&vec![seen(3000, 200, "python")]);
    assert_eq!(terminated(&events), vec![200]);
}

#[test]
fn kill_all_terminates_any_newcomer() {
    let mut r = Reconciler::new(vec![]);
    r.add_rule(4444, GuardPolicy::KillAll);
    let events = r.reconcile(&vec![seen(4444, 1, "node"), seen(5000, 2, "other")]);
    assert_eq!(terminated(&events), vec![1]);
    assert_eq!(events.len(), 1);
}

#[test]
fn only_first_appearance_is_enforced() {
    let mut r = Reconciler::new(vec![3000]);
    let e1 = r.reconcile(&vec![seen(3000, 10, "node")]);
    assert_eq!(e1.len(), 1);
    r.add_rule(3000, GuardPolicy::KillAll);
    // Still taken, by another process: a change, not enforced.
    let e2 = r.reconcile(&vec![seen(3000, 11, "python")]);
    assert_eq!(e2.len(), 1);
    assert_eq!(e2[0].kind, EventKind::Changed);
    assert!(!e2[0].terminate);
    // Same process again: nothing to report.
    assert!(r.reconcile(&vec![seen(3000, 11, "python")]).is_empty());
    // Freed, then taken again: a first appearance once more.
    let e3 = r.reconcile(&vec![]);
    assert_eq!(e3.len(), 1);
    assert_eq!(e3[0].kind, EventKind::Removed);
    assert_eq!(e3[0].pid, 11);
    let e4 = r.reconcile(&vec![seen(3000, 12, "python")]);
    assert_eq!(terminated(&e4), vec![12]);
}

#[test]
fn removing_a_rule_stops_enforcement() {
    let mut r = Reconciler::new(vec![]);
    r.add_rule(8080, GuardPolicy::KillAll);
    r.add_rule(8080, GuardPolicy::AllowOnly("java".to_string()));
    let e = r.reconcile(&vec![seen(8080, 5, "java")]);
    assert!(terminated(&e).is_empty());
    r.remove_rule(8080);
    r.reconcile(&vec![]);
    let e = r.reconcile(&vec![seen(8080, 6, "ruby")]);
    assert_eq!(e.len(), 1);
    assert!(!e[0].terminate);
}
