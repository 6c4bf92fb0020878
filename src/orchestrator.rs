//! The service supervisor's decisions: which services to spawn and in what
//! order, how each is launched, which run, and in what order they stop.
//! Spawning, signalling and waiting are left to the caller, which reports
//! each spawned process back with `record_started`.

use vstd::prelude::*;
use crate::lexer::{split_command, toggle_words, views};
use crate::resolver::{plan_start, resolve, resolve_outcome, start_order, start_plan, ResolveError};
use crate::service::{
    cyclic, deps_declared, service_count, service_name, service_names, unique_names,
    OrchestrationConfig, ServiceConfig,
};

verus! {

/// A service believed alive, with the process it runs as.
pub struct RunningService {
    pub name: String,
    pub pid: u32,
    pub port: Option<u16>,
}

/// Everything needed to spawn one service.
pub struct LaunchSpec {
    pub name: String,
    pub program: String,
    pub args: Vec<String>,
    pub dir: String,
    /// Variables to set, in order; a later pair overrides an earlier one.
    pub env: Vec<(String, String)>,
    pub port: Option<u16>,
    /// Seconds to wait after spawning before the next step.
    pub startup_delay: Option<u64>,
}

/// Why a supervisor request failed.
pub enum OrchestratorError {
    /// No service has this name.
    NotFound(String),
    /// A service lists a dependency that no service is named.
    MissingDependency { service: String, dependency: String },
    /// The named service lies on a dependency cycle.
    CyclicDependency(String),
    /// The service's command has no words.
    EmptyCommand(String),
}

/// One row of `get_status`.
pub struct ServiceStatus {
    pub name: String,
    pub running: bool,
    pub pid: Option<u32>,
    pub port: Option<u16>,
    pub command: String,
}

/// Supervisor state: the service graph, the directory of its configuration
/// file, and the running services in the order they were started.
pub struct Orchestrator {
    config: OrchestrationConfig,
    config_dir: String,
    running: Vec<RunningService>,
}

pub open spec fn pair_views(v: Seq<(String, String)>) -> Seq<(Seq<char>, Seq<char>)> {
    v.map_values(|p: (String, String)| (p.0@, p.1@))
}

pub open spec fn env_view(e: Option<Vec<(String, String)>>) -> Seq<(Seq<char>, Seq<char>)> {
    match e {
        Some(v) => pair_views(v@),
        None => Seq::empty(),
    }
}

pub open spec fn error_of(e: ResolveError) -> OrchestratorError {
    match e {
        ResolveError::MissingDependency { service, dependency } => OrchestratorError::MissingDependency {
            service,
            dependency,
        },
        ResolveError::CyclicDependency(n) => OrchestratorError::CyclicDependency(n),
    }
}

fn convert_error(e: ResolveError) -> (r: OrchestratorError)
    ensures
        r == error_of(e),
{
    match e {
        ResolveError::MissingDependency { service, dependency } => OrchestratorError::MissingDependency {
            service,
            dependency,
        },
        ResolveError::CyclicDependency(n) => OrchestratorError::CyclicDependency(n),
    }
}

fn clone_env(e: &Vec<(String, String)>, out: &mut Vec<(String, String)>)
    ensures
        pair_views(final(out)@) == pair_views(old(out)@) + pair_views(e@),
{
    let ghost start = old(out)@;
    let mut i: usize = 0;
    while i < e.len()
        invariant
            i <= e@.len(),
            out@.len() == start.len() + i,
            forall|k: int| 0 <= k < start.len() ==> #[trigger] out@[k] == start[k],
            forall|k: int|
                0 <= k < i ==> (#[trigger] out@[start.len() + k]).0@ == e@[k].0@ && out@[start.len()
                    + k].1@ == e@[k].1@,
        decreases e@.len() - i,
    {
        let pair = (e[i].0.clone(), e[i].1.clone());
        out.push(pair);
        i = i + 1;
    }
    assert forall|k: int| 0 <= k < out@.len() implies #[trigger] pair_views(out@)[k] == (pair_views(
        start,
    ) + pair_views(e@))[k] by {
        if k >= start.len() {
            assert(out@[start.len() + (k - start.len())] == out@[k]);
        }
    }
    assert(pair_views(out@) =~= pair_views(start) + pair_views(e@));
}

/// `a` comes no later than `b` in the order of `String`'s comparison: by
/// characters from the first, a proper prefix first.
pub open spec fn name_le(a: Seq<char>, b: Seq<char>) -> bool
    decreases a.len(),
{
    if a.len() == 0 {
        true
    } else if b.len() == 0 {
        false
    } else if a[0] != b[0] {
        (a[0] as int) < (b[0] as int)
    } else {
        name_le(a.drop_first(), b.drop_first())
    }
}

proof fn lemma_name_total(a: Seq<char>, b: Seq<char>)
    ensures
        name_le(a, b) || name_le(b, a),
    decreases a.len(),
{
    if a.len() > 0 && b.len() > 0 {
        if a[0] == b[0] {
            lemma_name_total(a.drop_first(), b.drop_first());
        } else {
            assert((a[0] as int) != (b[0] as int));
        }
    }
}

fn name_le_exec(a: &String, b: &String) -> (r: bool)
    ensures
        r == name_le(a@, b@),
{
    let sa = a.as_str();
    let sb = b.as_str();
    let na = sa.unicode_len();
    let nb = sb.unicode_len();
    let mut i: usize = 0;
    assert(a@.subrange(0, na as int) =~= a@);
    assert(b@.subrange(0, nb as int) =~= b@);
    while i < na && i < nb
        invariant
            sa@ == a@,
            sb@ == b@,
            na == a@.len(),
            nb == b@.len(),
            i <= na,
            i <= nb,
            name_le(a@, b@) == name_le(a@.subrange(i as int, na as int), b@.subrange(i as int, nb as int)),
        decreases na - i,
    {
        let ca = sa.get_char(i);
        let cb = sb.get_char(i);
        let ghost ra = a@.subrange(i as int, na as int);
        let ghost rb = b@.subrange(i as int, nb as int);
        assert(ra[0] == ca && rb[0] == cb);
        if ca != cb {
            return (ca as u32) < (cb as u32);
        }
        assert(ra.drop_first() =~= a@.subrange(i + 1, na as int));
        assert(rb.drop_first() =~= b@.subrange(i + 1, nb as int));
        i = i + 1;
    }
    i == na
}

/// `rows` are in nondecreasing order of name.
pub open spec fn sorted_by_name(rows: Seq<ServiceStatus>) -> bool {
    forall|k: int| 0 <= k < rows.len() - 1 ==> name_le(#[trigger] rows[k].name@, rows[k + 1].name@)
}

pub open spec fn status_names(rows: Seq<ServiceStatus>) -> Seq<Seq<char>> {
    rows.map_values(|r: ServiceStatus| r.name@)
}

proof fn lemma_sorted_insert(before: Seq<ServiceStatus>, row: ServiceStatus, p: int)
    requires
        0 <= p <= before.len(),
        sorted_by_name(before),
        p > 0 ==> name_le(before[p - 1].name@, row.name@),
        p < before.len() ==> name_le(row.name@, before[p].name@),
    ensures
        sorted_by_name(before.insert(p, row)),
{
    let rows = before.insert(p, row);
    assert forall|k: int| 0 <= k < rows.len() - 1 implies name_le(#[trigger] rows[k].name@, rows[k + 1].name@) by {
        if k + 1 < p {
            assert(rows[k] == before[k] && rows[k + 1] == before[k + 1]);
        } else if k + 1 == p {
            assert(rows[k] == before[k]);
        } else if k == p {
            assert(rows[k + 1] == before[k]);
        } else {
            assert(rows[k] == before[k - 1] && rows[k + 1] == before[k]);
        }
    }
}

proof fn lemma_names_insert(
    before: Seq<ServiceStatus>,
    row: ServiceStatus,
    p: int,
    names: Seq<Seq<char>>,
    i: int,
)
    requires
        0 <= p <= before.len(),
        0 <= i < names.len(),
        names[i] == row.name@,
        status_names(before).no_duplicates(),
        !status_names(before).contains(row.name@),
        status_names(before).to_set() == names.subrange(0, i).to_set(),
    ensures
        status_names(before.insert(p, row)).no_duplicates(),
        status_names(before.insert(p, row)).to_set() == names.subrange(0, i + 1).to_set(),
{
    let x = row.name@;
    let n0 = names.subrange(0, i);
    let n1 = names.subrange(0, i + 1);
    let sn = status_names(before.insert(p, row));
    let sb = status_names(before);
    assert(sn =~= sb.insert(p, x));
    assert forall|a: int, b: int| 0 <= a < sn.len() && 0 <= b < sn.len() && a != b implies sn[a] != sn[b] by {
        if a == p {
            if b < p { assert(sn[b] == sb[b]); } else { assert(sn[b] == sb[b - 1]); }
        } else if b == p {
            if a < p { assert(sn[a] == sb[a]); } else { assert(sn[a] == sb[a - 1]); }
        } else {
            let a2 = if a < p { a } else { a - 1 };
            let b2 = if b < p { b } else { b - 1 };
            assert(sn[a] == sb[a2] && sn[b] == sb[b2]);
        }
    }
    assert(n1 =~= n0.push(x));
    assert forall|y: Seq<char>| sn.to_set().contains(y) <==> n1.to_set().contains(y) by {
        if sn.contains(y) {
            let a = choose|a: int| 0 <= a < sn.len() && sn[a] == y;
            if a != p {
                let a2 = if a < p { a } else { a - 1 };
                assert(sb[a2] == y);
                assert(sb.to_set().contains(y));
                let j = choose|j: int| 0 <= j < i && n0[j] == y;
                assert(n1[j] == y);
            } else {
                assert(n1[i] == y);
            }
        }
        if n1.contains(y) {
            let j = choose|j: int| 0 <= j < i + 1 && n1[j] == y;
            if j < i {
                assert(n0[j] == y);
                assert(sb.to_set().contains(y));
                let a2 = choose|a2: int| 0 <= a2 < sb.len() && sb[a2] == y;
                if a2 < p { assert(sn[a2] == y); } else { assert(sn[a2 + 1] == y); }
            } else {
                assert(sn[p] == y);
            }
        }
    }
    assert(sn.to_set() =~= n1.to_set());
}

impl Orchestrator {
    /// `row` reports the declared service of its name: its port and command,
    /// whether it runs, and its pid when it runs.
    pub open spec fn status_row(&self, row: ServiceStatus) -> bool {
        exists|i: int|
            0 <= i < service_count(self.spec_config()) && #[trigger] service_name(self.spec_config(), i)
                == row.name@ && row.port == self.spec_config().services@[i].1.port && row.command@
                == self.spec_config().services@[i].1.command@ && row.running
                == self.running_names().contains(row.name@) && (row.running ==> exists|k: int|
                0 <= k < self.spec_running().len() && self.spec_running()[k].name@ == row.name@
                    && row.pid == Some(self.spec_running()[k].pid)) && (!row.running ==> row.pid is None)
    }

    /// Names of the running services, in start order.
    pub open spec fn running_names(&self) -> Seq<Seq<char>> {
        self.spec_running().map_values(|s: RunningService| s.name@)
    }

    pub closed spec fn spec_config(&self) -> &OrchestrationConfig {
        &self.config
    }

    pub closed spec fn spec_config_dir(&self) -> Seq<char> {
        self.config_dir@
    }

    pub closed spec fn spec_running(&self) -> Seq<RunningService> {
        self.running@
    }

    /// Names are unique, at most one entry runs per service, and each entry
    /// names a declared service.
    pub open spec fn well_formed(&self) -> bool {
        &&& unique_names(self.spec_config())
        &&& self.running_names().no_duplicates()
        &&& forall|k: int|
            0 <= k < self.spec_running().len() ==> service_names(self.spec_config()).contains(
                #[trigger] self.spec_running()[k].name@,
            )
    }

    /// A supervisor for `config`, whose file lies in `config_dir`, with
    /// nothing running.
    pub fn new(config: OrchestrationConfig, config_dir: String) -> (r: Self)
        requires
            unique_names(&config),
        ensures
            r.well_formed(),
            r.spec_config() == &config,
            r.spec_config_dir() == config_dir@,
            r.spec_running().len() == 0,
    {
        Orchestrator { config, config_dir, running: Vec::new() }
    }

    /// The service graph.
    pub fn config(&self) -> (r: &OrchestrationConfig)
        ensures
            r == self.spec_config(),
    {
        &self.config
    }

    /// The running services, in start order.
    pub fn running(&self) -> (r: &Vec<RunningService>)
        ensures
            r@ == self.spec_running(),
    {
        &self.running
    }

    /// Whether the service called `name` runs.
    pub fn is_running(&self, name: &String) -> (r: bool)
        ensures
            r == self.running_names().contains(name@),
    {
        self.find_running(name).is_some()
    }

    fn find_running(&self, name: &String) -> (r: Option<usize>)
        ensures
            match r {
                Some(k) => k < self.spec_running().len() && self.spec_running()[k as int].name@ == name@
                    && self.running_names().contains(name@),
                None => !self.running_names().contains(name@),
            },
    {
        let mut k: usize = 0;
        while k < self.running.len()
            invariant
                k <= self.running@.len(),
                forall|j: int| 0 <= j < k ==> self.running@[j].name@ != name@,
            decreases self.running@.len() - k,
        {
            if self.running[k].name == *name {
                proof {
                    assert(self.running_names()[k as int] == name@);
                }
                return Some(k);
            }
            k = k + 1;
        }
        proof {
            if self.running_names().contains(name@) {
                let j = choose|j: int|
                    0 <= j < self.running_names().len() && self.running_names()[j] == name@;
                assert(self.running@[j].name@ == name@);
            }
        }
        None
    }

    /// The order in which `start_all` starts the services: each after all
    /// the services it depends on.
    pub fn plan_start_all(&self) -> (r: Result<Vec<String>, OrchestratorError>)
        requires
            self.well_formed(),
        ensures
            match r {
                Ok(order) => deps_declared(self.spec_config()) && !cyclic(self.spec_config()) && start_order(
                    self.spec_config(),
                    views(order@),
                ),
                Err(e) => exists|e0: ResolveError|
                    resolve_outcome(self.spec_config(), Err(e0)) && e == error_of(e0),
            },
    {
        match resolve(&self.config) {
            Ok(order) => Ok(order),
            Err(e) => {
                let ghost e0 = e;
                let r = convert_error(e);
                assert(resolve_outcome(&self.config, Err(e0)));
                Err(r)
            },
        }
    }

    /// The services to spawn, in order, so that the service called `name`
    /// runs: none when it runs already, else it and each service it needs
    /// that does not run yet, every one after those it depends on.
    pub fn plan_start(&self, name: &String) -> (r: Result<Vec<String>, OrchestratorError>)
        requires
            self.well_formed(),
        ensures
            !service_names(self.spec_config()).contains(name@) ==> r == Err::<Vec<String>, _>(
                OrchestratorError::NotFound(*name),
            ),
            service_names(self.spec_config()).contains(name@) && self.running_names().contains(name@)
                ==> r is Ok && r->Ok_0@.len() == 0,
            service_names(self.spec_config()).contains(name@) && !self.running_names().contains(name@)
                ==> match r {
                Ok(plan) => deps_declared(self.spec_config()) && !cyclic(self.spec_config()) && start_plan(
                    self.spec_config(),
                    self.running_names(),
                    name@,
                    views(plan@),
                ),
                Err(e) => exists|e0: ResolveError|
                    resolve_outcome(self.spec_config(), Err(e0)) && e == error_of(e0),
            },
    {
        let idx = match crate::resolver::find_service(&self.config, name) {
            Some(i) => i,
            None => {
                return Err(OrchestratorError::NotFound(name.clone()));
            },
        };
        if self.is_running(name) {
            return Ok(Vec::new());
        }
        let mut names: Vec<String> = Vec::new();
        let mut k: usize = 0;
        while k < self.running.len()
            invariant
                k <= self.running@.len(),
                names@.len() == k,
                forall|j: int| 0 <= j < k ==> (#[trigger] names@[j])@ == self.running@[j].name@,
            decreases self.running@.len() - k,
        {
            names.push(self.running[k].name.clone());
            k = k + 1;
        }
        assert(views(names@) =~= self.running_names());
        match plan_start(&self.config, &names, idx) {
            Ok(plan) => Ok(plan),
            Err(e) => {
                let ghost e0 = e;
                let r = convert_error(e);
                assert(resolve_outcome(&self.config, Err(e0)));
                Err(r)
            },
        }
    }

    /// How to spawn the service called `name`: its command split into words
    /// (the first is the program), its directory or else the configuration
    /// file's, and the global environment followed by its own overrides.
    pub fn launch_spec(&self, name: &String) -> (r: Result<LaunchSpec, OrchestratorError>)
        requires
            self.well_formed(),
        ensures
            !service_names(self.spec_config()).contains(name@) ==> r == Err::<LaunchSpec, _>(
                OrchestratorError::NotFound(*name),
            ),
            forall|i: int|
                0 <= i < service_count(self.spec_config()) && #[trigger] service_name(self.spec_config(), i)
                    == name@ ==> ({
                    let s = self.spec_config().services@[i].1;
                    let words = toggle_words(s.command@);
                    match r {
                        Ok(ls) => {
                            &&& words.len() > 0
                            &&& ls.name@ == name@
                            &&& ls.program@ == words[0]
                            &&& views(ls.args@) == words.drop_first()
                            &&& ls.dir@ == match s.dir {
                                Some(d) => d@,
                                None => self.spec_config_dir(),
                            }
                            &&& pair_views(ls.env@) == env_view(
                                self.spec_config().env,
                            ) + env_view(s.env)
                            &&& ls.port == s.port
                            &&& ls.startup_delay == s.startup_delay
                        },
                        Err(e) => words.len() == 0 && e == OrchestratorError::EmptyCommand(*name),
                    }
                }),
    {
        let i = match crate::resolver::find_service(&self.config, name) {
            Some(i) => i,
            None => {
                return Err(OrchestratorError::NotFound(name.clone()));
            },
        };
        let s = &self.config.services[i].1;
        let words = split_command(s.command.as_str());
        if words.len() == 0 {
            return Err(OrchestratorError::EmptyCommand(name.clone()));
        }
        let program = words[0].clone();
        let mut args: Vec<String> = Vec::new();
        let mut k: usize = 1;
        while k < words.len()
            invariant
                1 <= k <= words@.len(),
                args@.len() == k - 1,
                forall|j: int| 0 <= j < k - 1 ==> (#[trigger] args@[j])@ == words@[j + 1]@,
            decreases words@.len() - k,
        {
            args.push(words[k].clone());
            k = k + 1;
        }
        assert(views(args@) =~= views(words@).drop_first());
        let dir = match &s.dir {
            Some(d) => d.clone(),
            None => self.config_dir.clone(),
        };
        let mut env: Vec<(String, String)> = Vec::new();
        match &self.config.env {
            Some(g) => clone_env(g, &mut env),
            None => {},
        }
        match &s.env {
            Some(e) => clone_env(e, &mut env),
            None => {},
        }
        assert(pair_views(env@) =~= env_view(self.config.env) + env_view(s.env));
        Ok(
            LaunchSpec {
                name: name.clone(),
                program,
                args,
                dir,
                env,
                port: s.port,
                startup_delay: s.startup_delay,
            },
        )
    }

    /// Records that the service called `name` was spawned as process `pid`.
    /// Nothing changes, and `false` comes back, when it runs already.
    pub fn record_started(&mut self, name: &String, pid: u32) -> (r: bool)
        requires
            old(self).well_formed(),
            service_names(old(self).spec_config()).contains(name@),
        ensures
            final(self).well_formed(),
            final(self).spec_config() == old(self).spec_config(),
            final(self).spec_config_dir() == old(self).spec_config_dir(),
            r == !old(self).running_names().contains(name@),
            !r ==> final(self).spec_running() == old(self).spec_running(),
            r ==> final(self).spec_running().len() == old(self).spec_running().len() + 1,
            r ==> final(self).spec_running().drop_last() == old(self).spec_running(),
            r ==> final(self).spec_running().last().name@ == name@,
            r ==> final(self).spec_running().last().pid == pid,
            r ==> forall|i: int|
                0 <= i < service_count(old(self).spec_config()) && #[trigger] service_name(
                    old(self).spec_config(),
                    i,
                ) == name@ ==> final(self).spec_running().last().port == old(self).spec_config().services@[i].1.port,
    {
        if self.is_running(name) {
            return false;
        }
        let i = match crate::resolver::find_service(&self.config, name) {
            Some(i) => i,
            None => {
                return false;
            },
        };
        let port = self.config.services[i].1.port;
        let ghost before = self.running@;
        self.running.push(RunningService { name: name.clone(), pid, port });
        proof {
            assert(self.running@.drop_last() =~= before);
            assert(self.running_names() =~= before.map_values(|s: RunningService| s.name@).push(
                name@,
            ));
            assert forall|k: int|
                0 <= k < self.running@.len() implies service_names(&self.config).contains(
                #[trigger] self.running@[k].name@,
            ) by {
                if k < before.len() {
                    assert(self.running@[k] == before[k]);
                }
            }
        }
        true
    }

    /// Removes the entry of the service called `name`, so that it counts as
    /// stopped before its process is signalled, and hands the entry back.
    /// Nothing changes when it does not run.
    pub fn take_running(&mut self, name: &String) -> (r: Option<RunningService>)
        requires
            old(self).well_formed(),
        ensures
            final(self).well_formed(),
            final(self).spec_config() == old(self).spec_config(),
            final(self).spec_config_dir() == old(self).spec_config_dir(),
            match r {
                Some(s) => exists|k: int|
                    0 <= k < old(self).spec_running().len() && old(self).spec_running()[k] == s && s.name@
                        == name@ && final(self).spec_running() == old(self).spec_running().remove(k),
                None => !old(self).running_names().contains(name@) && final(self).spec_running()
                    == old(self).spec_running(),
            },
    {
        match self.find_running(name) {
            None => None,
            Some(k) => {
                let ghost before = self.running@;
                let s = self.running.remove(k);
                proof {
                    let after = self.running@;
                    assert(self.running_names() =~= before.map_values(|s: RunningService| s.name@).remove(
                        k as int,
                    ));
                    assert forall|j: int|
                        0 <= j < self.running@.len() implies service_names(&self.config).contains(
                        #[trigger] self.running@[j].name@,
                    ) by {
                        if j < k {
                            assert(after[j] == before[j]);
                        } else {
                            assert(after[j] == before[j + 1]);
                        }
                    }
                }
                Some(s)
            },
        }
    }

    /// The running services in the order `stop_all` stops them: the reverse
    /// of their start order, so dependents stop before their dependencies.
    pub fn stop_order(&self) -> (r: Vec<String>)
        ensures
            views(r@) == self.running_names().reverse(),
    {
        let mut r: Vec<String> = Vec::new();
        let mut k: usize = self.running.len();
        while k > 0
            invariant
                k <= self.running@.len(),
                r@.len() == self.running@.len() - k,
                forall|j: int|
                    0 <= j < r@.len() ==> (#[trigger] r@[j])@ == self.running@[self.running@.len()
                        - 1 - j].name@,
            decreases k,
        {
            k = k - 1;
            r.push(self.running[k].name.clone());
        }
        assert(views(r@) =~= self.running_names().reverse());
        r
    }

    fn status_of(&self, i: usize) -> (r: ServiceStatus)
        requires
            self.well_formed(),
            i < self.config.services@.len(),
        ensures
            self.status_row(r),
            r.name@ == service_name(&self.config, i as int),
    {
        let name = self.config.services[i].0.clone();
        let (running, pid) = match self.find_running(&name) {
            Some(k) => (true, Some(self.running[k].pid)),
            None => (false, None),
        };
        let r = ServiceStatus {
            name,
            running,
            pid,
            port: self.config.services[i].1.port,
            command: self.config.services[i].1.command.clone(),
        };
        assert(service_name(&self.config, i as int) == r.name@);
        r
    }

    /// One row per declared service, sorted by name.
    pub fn get_status(&self) -> (r: Vec<ServiceStatus>)
        requires
            self.well_formed(),
        ensures
            r@.len() == service_count(self.spec_config()),
            sorted_by_name(r@),
            status_names(r@).no_duplicates(),
            status_names(r@).to_set() == service_names(self.spec_config()).to_set(),
            forall|k: int| 0 <= k < r@.len() ==> self.status_row(#[trigger] r@[k]),
    {
        let mut rows: Vec<ServiceStatus> = Vec::new();
        let mut i: usize = 0;
        while i < self.config.services.len()
            invariant
                self.well_formed(),
                i <= self.config.services@.len(),
                rows@.len() == i,
                sorted_by_name(rows@),
                status_names(rows@).no_duplicates(),
                status_names(rows@).to_set() == service_names(&self.config).subrange(0, i as int).to_set(),
                forall|k: int| 0 <= k < rows@.len() ==> self.status_row(#[trigger] rows@[k]),
            decreases self.config.services@.len() - i,
        {
            let row = self.status_of(i);
            let ghost x = row.name@;
            let mut p: usize = 0;
            while p < rows.len() && name_le_exec(&rows[p].name, &row.name)
                invariant
                    p <= rows@.len(),
                    sorted_by_name(rows@),
                    p > 0 ==> name_le(rows@[p - 1].name@, x),
                    row.name@ == x,
                decreases rows@.len() - p,
            {
                p = p + 1;
            }
            let ghost before = rows@;
            proof {
                if p < before.len() {
                    lemma_name_total(before[p as int].name@, x);
                }
                // The new name is not among those so far.
                let names = service_names(&self.config);
                let n0 = names.subrange(0, i as int);
                assert(names[i as int] == x);
                if status_names(before).contains(x) {
                    assert(status_names(before).to_set().contains(x));
                    assert(n0.to_set().contains(x));
                    let j = choose|j: int| 0 <= j < i && n0[j] == x;
                    assert(names[j] == x);
                    assert(service_name(&self.config, j) == service_name(&self.config, i as int));
                }
            }
            rows.insert(p, row);
            proof {
                lemma_sorted_insert(before, row, p as int);
                lemma_names_insert(before, row, p as int, service_names(&self.config), i as int);
                assert(rows@ == before.insert(p as int, row));
                assert forall|k: int| 0 <= k < rows@.len() implies self.status_row(#[trigger] rows@[k]) by {
                    if k < p {
                        assert(rows@[k] == before[k]);
                    } else if k > p {
                        assert(rows@[k] == before[k - 1]);
                    }
                }
            }
            i = i + 1;
        }
        assert(service_names(&self.config).subrange(0, self.config.services@.len() as int) =~= service_names(&self.config));
        rows
    }
}

/// At most one entry runs per service: two entries with the same name are
/// the same entry.
pub proof fn lemma_one_entry_per_service(o: &Orchestrator, a: int, b: int)
    requires
        o.well_formed(),
        0 <= a < o.spec_running().len(),
        0 <= b < o.spec_running().len(),
        o.spec_running()[a].name@ == o.spec_running()[b].name@,
    ensures
        a == b,
{
    assert(o.running_names()[a] == o.spec_running()[a].name@);
    assert(o.running_names()[b] == o.spec_running()[b].name@);
}

/// Starting a service that runs already changes nothing: the service is
/// declared, so `plan_start` hands back an empty plan (the caller warns), and
/// `record_started` reports `false` and leaves the single entry as it is.
pub proof fn lemma_running_service_is_declared(o: &Orchestrator, name: Seq<char>)
    requires
        o.well_formed(),
        o.running_names().contains(name),
    ensures
        service_names(o.spec_config()).contains(name),
        exists|k: int|
            0 <= k < o.spec_running().len() && o.spec_running()[k].name@ == name && forall|j: int|
                0 <= j < o.spec_running().len() && o.spec_running()[j].name@ == name ==> j == k,
{
    let k = choose|k: int| 0 <= k < o.running_names().len() && o.running_names()[k] == name;
    assert(o.spec_running()[k].name@ == name);
    assert forall|j: int| 0 <= j < o.spec_running().len() && o.spec_running()[j].name@ == name implies j == k by {
        assert(o.running_names()[j] == name);
    }
}

} // verus!
