//! The restart ledger: per port, the recipe (words of the command, working
//! directory, a chosen part of the environment) that respawns a process seen
//! there before. A new recipe for a port replaces the old one whole.

use vstd::prelude::*;
use std::collections::HashMap;
use crate::lexer::{split_command, toggle_words, views};
use crate::text::owned;

verus! {

broadcast use vstd::std_specs::hash::group_hash_axioms;

/// The recipe kept for one port.
pub struct RestartInfo {
    pub port: u16,
    /// The program followed by its arguments.
    pub command: Vec<String>,
    pub working_directory: String,
    pub env_vars: Vec<(String, String)>,
    /// When the recipe was recorded, in seconds since the Unix epoch.
    pub last_restarted: i64,
}

/// How to respawn the process of a port.
pub struct RestartCommand {
    pub program: String,
    pub args: Vec<String>,
    pub working_directory: String,
    pub env_vars: Vec<(String, String)>,
}

/// Why a port cannot be restarted.
#[derive(Clone, Copy, PartialEq, Eq, Structural, Debug)]
pub enum LedgerError {
    /// No recipe is kept for the port.
    NotFound(u16),
    /// The kept command has no words.
    EmptyCommand(u16),
}

/// The ledger, keyed by port.
pub struct RestartManager {
    restart_info: HashMap<u16, RestartInfo>,
}

pub open spec fn pair_seq_views(v: Seq<(String, String)>) -> Seq<(Seq<char>, Seq<char>)> {
    v.map_values(|p: (String, String)| (p.0@, p.1@))
}

/// What restarting `port` yields, given the kept recipes.
pub open spec fn restart_outcome(records: Map<u16, RestartInfo>, port: u16, r: Result<RestartCommand, LedgerError>) -> bool {
    if !records.contains_key(port) {
        r == Err::<RestartCommand, LedgerError>(LedgerError::NotFound(port))
    } else {
        let info = records[port];
        if info.command@.len() == 0 {
            r == Err::<RestartCommand, LedgerError>(LedgerError::EmptyCommand(port))
        } else {
            match r {
                Ok(c) => {
                    &&& c.program@ == info.command@[0]@
                    &&& views(c.args@) == views(info.command@).drop_first()
                    &&& c.working_directory@ == info.working_directory@
                    &&& pair_seq_views(c.env_vars@) == pair_seq_views(info.env_vars@)
                },
                Err(_) => false,
            }
        }
    }
}

fn clone_words(v: &Vec<String>, from: usize) -> (r: Vec<String>)
    requires
        from <= v@.len(),
    ensures
        views(r@) == views(v@).subrange(from as int, v@.len() as int),
{
    let mut r: Vec<String> = Vec::new();
    let mut i: usize = from;
    while i < v.len()
        invariant
            from <= i <= v@.len(),
            r@.len() == i - from,
            forall|k: int| 0 <= k < r@.len() ==> (#[trigger] r@[k])@ == v@[from + k]@,
        decreases v@.len() - i,
    {
        r.push(v[i].clone());
        i = i + 1;
    }
    assert(views(r@) =~= views(v@).subrange(from as int, v@.len() as int));
    r
}

fn clone_pairs(v: &Vec<(String, String)>) -> (r: Vec<(String, String)>)
    ensures
        pair_seq_views(r@) == pair_seq_views(v@),
{
    let mut r: Vec<(String, String)> = Vec::new();
    let mut i: usize = 0;
    while i < v.len()
        invariant
            i <= v@.len(),
            r@.len() == i,
            forall|k: int| 0 <= k < i ==> (#[trigger] r@[k]).0@ == v@[k].0@ && r@[k].1@ == v@[k].1@,
        decreases v@.len() - i,
    {
        r.push((v[i].0.clone(), v[i].1.clone()));
        i = i + 1;
    }
    assert(pair_seq_views(r@) =~= pair_seq_views(v@));
    r
}

/// The names of the environment variables that a recipe keeps: the usual
/// ones of development servers.
pub fn relevant_env_var_names() -> (r: Vec<String>)
    ensures
        views(r@) == seq![
            "PATH"@, "NODE_ENV"@, "PYTHON_PATH"@, "PYTHONPATH"@, "GOPATH"@, "CARGO_HOME"@,
            "RUSTUP_HOME"@, "DATABASE_URL"@, "PORT"@, "HOST"@, "DEBUG"@,
        ],
{
    let r = vec![
        owned("PATH"),
        owned("NODE_ENV"),
        owned("PYTHON_PATH"),
        owned("PYTHONPATH"),
        owned("GOPATH"),
        owned("CARGO_HOME"),
        owned("RUSTUP_HOME"),
        owned("DATABASE_URL"),
        owned("PORT"),
        owned("HOST"),
        owned("DEBUG"),
    ];
    assert(views(r@) =~= seq![
        "PATH"@, "NODE_ENV"@, "PYTHON_PATH"@, "PYTHONPATH"@, "GOPATH"@, "CARGO_HOME"@,
        "RUSTUP_HOME"@, "DATABASE_URL"@, "PORT"@, "HOST"@, "DEBUG"@,
    ]);
    r
}

impl RestartManager {
    /// The kept recipes by port.
    pub closed spec fn records(&self) -> Map<u16, RestartInfo> {
        self.restart_info@
    }

    /// An empty ledger.
    pub fn new() -> (r: Self)
        ensures
            r.records() == Map::<u16, RestartInfo>::empty(),
    {
        RestartManager { restart_info: HashMap::new() }
    }

    /// A ledger holding the recipes of `records`, as read back from storage.
    pub fn from_records(records: HashMap<u16, RestartInfo>) -> (r: Self)
        ensures
            r.records() == records@,
    {
        RestartManager { restart_info: records }
    }

    /// The recipes, to be written to storage.
    pub fn restart_records(&self) -> (r: &HashMap<u16, RestartInfo>)
        ensures
            r@ == self.records(),
    {
        &self.restart_info
    }

    /// Keeps a recipe for `port`: the words of `command_line`, split as the
    /// supervisor splits commands, `working_directory`, `env_vars`, the
    /// chosen environment of the current process, and `now`, the time of
    /// recording in seconds since the Unix epoch. Any recipe the port had is
    /// replaced whole.
    pub fn save_process_for_restart(
        &mut self,
        port: u16,
        command_line: &str,
        working_directory: &str,
        env_vars: Vec<(String, String)>,
        now: i64,
    )
        ensures
            final(self).records().dom() == old(self).records().dom().insert(port),
            forall|p: u16| p != port && old(self).records().contains_key(p) ==> final(self).records()[p]
                == old(self).records()[p],
            final(self).records()[port].port == port,
            views(final(self).records()[port].command@) == toggle_words(command_line@),
            final(self).records()[port].working_directory@ == working_directory@,
            final(self).records()[port].env_vars@ == env_vars@,
            final(self).records()[port].last_restarted == now,
    {
        let info = RestartInfo {
            port,
            command: split_command(command_line),
            working_directory: owned(working_directory),
            env_vars,
            last_restarted: now,
        };
        self.restart_info.insert(port, info);
    }

    /// Keeps a recipe from a history entry of `port`, when the entry knows
    /// both the command line and the working directory; otherwise nothing
    /// changes.
    pub fn save_from_history_entry(
        &mut self,
        port: u16,
        command_line: &Option<String>,
        working_directory: &Option<String>,
        env_vars: Vec<(String, String)>,
        now: i64,
    )
        ensures
            (command_line is None || working_directory is None) ==> final(self).records() == old(self).records(),
            command_line is Some && working_directory is Some ==> {
                &&& final(self).records().dom() == old(self).records().dom().insert(port)
                &&& forall|p: u16| p != port && old(self).records().contains_key(p) ==> final(self).records()[p]
                    == old(self).records()[p]
                &&& final(self).records()[port].port == port
                &&& views(final(self).records()[port].command@) == toggle_words(command_line->Some_0@)
                &&& final(self).records()[port].working_directory@ == working_directory->Some_0@
                &&& final(self).records()[port].env_vars@ == env_vars@
                &&& final(self).records()[port].last_restarted == now
            },
    {
        match (command_line, working_directory) {
            (Some(c), Some(w)) => self.save_process_for_restart(port, c.as_str(), w.as_str(), env_vars, now),
            _ => {},
        }
    }

    /// The recipe of `port`, if one is kept.
    pub fn get_restart_info(&self, port: u16) -> (r: Option<&RestartInfo>)
        ensures
            match r {
                Some(i) => self.records().contains_key(port) && *i == self.records()[port],
                None => !self.records().contains_key(port),
            },
    {
        self.restart_info.get(&port)
    }

    /// Whether a recipe is kept for `port`.
    pub fn can_restart(&self, port: u16) -> (r: bool)
        ensures
            r == self.records().contains_key(port),
    {
        self.restart_info.contains_key(&port)
    }

    /// The ports with a recipe, in increasing order.
    pub fn list_restartable_ports(&self) -> (r: Vec<u16>)
        ensures
            forall|a: int, b: int| 0 <= a < b < r@.len() ==> r@[a] < r@[b],
            forall|p: u16| r@.contains(p) <==> self.records().contains_key(p),
    {
        let mut r: Vec<u16> = Vec::new();
        let mut p: u32 = 0;
        while p <= 65535
            invariant
                p <= 65536,
                forall|a: int, b: int| 0 <= a < b < r@.len() ==> r@[a] < r@[b],
                forall|a: int| 0 <= a < r@.len() ==> (r@[a] as u32) < p,
                forall|q: u16| (q as u32) < p ==> (r@.contains(q) <==> self.records().contains_key(q)),
            decreases 65536 - p,
        {
            let port = p as u16;
            let ghost before = r@;
            if self.restart_info.contains_key(&port) {
                r.push(port);
            }
            proof {
                assert forall|q: u16| (q as u32) < p + 1 implies (r@.contains(q) <==> self.records().contains_key(q)) by {
                    if (q as u32) < p {
                        if before.contains(q) {
                            let a = choose|a: int| 0 <= a < before.len() && before[a] == q;
                            assert(r@[a] == q);
                        }
                        if r@.contains(q) {
                            let a = choose|a: int| 0 <= a < r@.len() && r@[a] == q;
                            if a < before.len() {
                                assert(before[a] == q);
                            }
                        }
                    } else {
                        assert(q == port);
                        if self.records().contains_key(q) {
                            assert(r@[r@.len() - 1] == q);
                        }
                        if r@.contains(q) {
                            let a = choose|a: int| 0 <= a < r@.len() && r@[a] == q;
                            if a < before.len() {
                                assert((before[a] as u32) < p);
                            }
                        }
                    }
                }
            }
            p = p + 1;
        }
        r
    }

    /// How to respawn the process of `port`: the first word of its recipe
    /// is the program, the others its arguments.
    pub fn restart_command(&self, port: u16) -> (r: Result<RestartCommand, LedgerError>)
        ensures
            restart_outcome(self.records(), port, r),
    {
        match self.restart_info.get(&port) {
            None => Err(LedgerError::NotFound(port)),
            Some(info) => {
                if info.command.len() == 0 {
                    return Err(LedgerError::EmptyCommand(port));
                }
                let program = info.command[0].clone();
                let args = clone_words(&info.command, 1);
                proof {
                    assert(views(info.command@).subrange(1, info.command@.len() as int) =~= views(info.command@).drop_first());
                }
                Ok(
                    RestartCommand {
                        program,
                        args,
                        working_directory: info.working_directory.clone(),
                        env_vars: clone_pairs(&info.env_vars),
                    },
                )
            },
        }
    }

    /// Forgets the recipe of `port`.
    pub fn clear_port(&mut self, port: u16)
        ensures
            final(self).records() == old(self).records().remove(port),
    {
        self.restart_info.remove(&port);
    }

    /// Forgets every recipe.
    pub fn clear_all(&mut self)
        ensures
            final(self).records() == Map::<u16, RestartInfo>::empty(),
    {
        self.restart_info.clear();
    }
}

/// After a recipe is kept for a port from a command line with words,
/// restarting the port spawns exactly those words in the kept directory.
pub proof fn lemma_record_then_restart(
    records: Map<u16, RestartInfo>,
    port: u16,
    command_line: Seq<char>,
    working_directory: Seq<char>,
    r: Result<RestartCommand, LedgerError>,
)
    requires
        records.contains_key(port),
        views(records[port].command@) == toggle_words(command_line),
        records[port].working_directory@ == working_directory,
        toggle_words(command_line).len() > 0,
        restart_outcome(records, port, r),
    ensures
        r is Ok,
        seq![r->Ok_0.program@] + views(r->Ok_0.args@) == toggle_words(command_line),
        r->Ok_0.working_directory@ == working_directory,
{
    let info = records[port];
    assert(views(info.command@).len() == info.command@.len());
    let c = r->Ok_0;
    assert(views(info.command@)[0] == info.command@[0]@);
    assert(seq![c.program@] + views(c.args@) =~= views(info.command@));
}

/// Once the recipe of a port is cleared, restarting the port fails with
/// `NotFound`.
pub proof fn lemma_cleared_not_found(
    records: Map<u16, RestartInfo>,
    port: u16,
    r: Result<RestartCommand, LedgerError>,
)
    requires
        restart_outcome(records.remove(port), port, r),
    ensures
        r == Err::<RestartCommand, LedgerError>(LedgerError::NotFound(port)),
{
}

} // verus!
