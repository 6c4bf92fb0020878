//! Command-line options of the port monitor and what they mean: the ports
//! to watch, what to ignore, validation, descriptions and presets.

use vstd::prelude::*;
use std::collections::HashSet;
use crate::lexer::views;
use crate::text::{
    decimal, decimals, is_blank, join, lemma_decimal_parses, owned, parse_u16, parse_u16_spec,
    push_decimal, push_joined, push_joined_ports, push_str, split, split_on, trim, trim_end,
    trim_start, trimmed,
};

verus! {

broadcast use vstd::std_specs::hash::group_hash_axioms;

/// How much the program logs.
#[derive(Clone, Copy, PartialEq, Eq, Structural, Debug)]
pub enum LogLevel {
    /// Show all logs (info, warn, error)
    Info,
    /// Show only warning and error logs
    Warn,
    /// Show only error logs
    Error,
    /// Show no logs
    Off,
}

/// The options of a run.
pub struct Args {
    /// Starting port for range scanning (inclusive)
    pub start_port: u16,
    /// Ending port for range scanning (inclusive)
    pub end_port: u16,
    /// Specific ports to monitor (comma-separated, supports ranges like 3000-3010, overrides start/end port range)
    pub ports: Option<Vec<String>>,
    /// Ports to ignore (comma-separated, e.g., 5353,5000,7000 for Chromecast/AirDrop)
    pub ignore_ports: Option<Vec<u16>>,
    /// Process names to ignore (comma-separated, e.g., Chrome,ControlCe)
    pub ignore_processes: Option<Vec<String>>,
    /// Process name patterns to ignore (supports wildcards: *, ?)
    pub ignore_patterns: Option<Vec<String>>,
    /// Process groups to ignore (e.g., Database,Web Server)
    pub ignore_groups: Option<Vec<String>>,
    /// Enable smart filtering (auto-detect and ignore system processes)
    pub smart_filter: bool,
    /// Only show processes from specific groups (e.g., Node.js,Python)
    pub only_groups: Option<Vec<String>>,
    /// Run in console mode instead of status bar mode
    pub console: bool,
    /// Enable verbose logging
    pub verbose: bool,
    /// Enable Docker container monitoring (includes containers in process detection)
    pub docker: bool,
    /// Show process IDs (PIDs) in the display output
    pub show_pid: bool,
    /// Log level (info, warn, error, none)
    pub log_level: LogLevel,
    /// Show process kill history
    pub show_history: bool,
    /// Clear process kill history
    pub clear_history: bool,
    /// Show filter configuration
    pub show_filters: bool,
    /// Enable performance metrics (CPU and memory usage)
    pub performance: bool,
    /// Show project context for each process
    pub show_context: bool,
    /// Kill all processes on the specified ports
    pub kill_all: bool,
    /// Kill processes by group (e.g., Node.js, Python)
    pub kill_group: Option<Vec<String>>,
    /// Kill processes by project name
    pub kill_project: Option<Vec<String>>,
    /// Restart processes on specific port (kill and restart with saved command)
    pub restart: Option<u16>,
    /// Show restart history (list ports that can be restarted)
    pub show_restart_history: bool,
    /// Clear restart history for a specific port
    pub clear_restart: Option<u16>,
    /// Show process tree (parent-child relationships)
    pub show_tree: bool,
    /// Output processes in JSON format (for API integration)
    pub json: bool,
    /// Reset common development ports (3000, 5000, 8000, 5432, 3306, 6379, 27017, 8080, 9000)
    pub reset: bool,
    /// Show frequent offenders (processes killed multiple times)
    pub show_offenders: bool,
    /// Show time patterns and statistics
    pub show_patterns: bool,
    /// Show auto-suggestions for ignore lists
    pub show_suggestions: bool,
    /// Show detailed history statistics
    pub show_stats: bool,
    /// Show smart root cause analysis
    pub show_root_cause: bool,
    /// Enable Port Guard Mode - proactive port conflict prevention
    pub guard_mode: bool,
    /// Ports to watch in guard mode (comma-separated)
    pub guard_ports: String,
    /// Auto-resolve conflicts by killing conflicting processes
    pub auto_resolve: bool,
    /// Port reservation file path for persistent port assignments
    pub reservation_file: String,
    /// Enable process interception for development commands
    pub intercept_commands: bool,
    /// Reserve a port for a specific project (requires guard mode)
    pub reserve_port: Option<u16>,
    /// Project name for port reservation
    pub project_name: Option<String>,
    /// Process name for port reservation
    pub process_name: Option<String>,
    /// Enable Security Audit Mode - comprehensive security analysis
    pub audit: bool,
    /// Security mode with enhanced suspicious port detection
    pub security_mode: bool,
    /// Suspicious ports to flag (comma-separated)
    pub suspicious_ports: String,
    /// Baseline file for approved ports comparison
    pub baseline_file: Option<String>,
    /// Show only suspicious/unauthorized processes
    pub suspicious_only: bool,
    /// Remote mode: connect to remote host via SSH
    pub remote: Option<String>,
    /// Endpoint monitoring: send data to external endpoint for monitoring/alerting
    pub monitor_endpoint: Option<String>,
    /// Interval for sending data to endpoint (seconds, default: 30)
    pub send_interval: u64,
    /// Interval for scanning processes (seconds, default: 2)
    pub scan_interval: u64,
    /// Authentication for endpoint (e.g., "Bearer token123" or "Basic user:pass")
    pub endpoint_auth: Option<String>,
    /// Custom fields to include in endpoint payload (comma-separated key=value pairs)
    pub endpoint_fields: Option<Vec<String>>,
    /// Include security audit data in endpoint payload
    pub endpoint_include_audit: bool,
    /// Retry failed endpoint requests (number of retries, default: 3)
    pub endpoint_retries: u32,
    /// Timeout for endpoint requests (seconds, default: 10)
    pub endpoint_timeout: u64,
    /// Execute inline script
    pub script: Option<String>,
    /// Execute script file
    pub script_file: Option<String>,
    /// Scripting language (js, python)
    pub script_lang: String,
    /// One-shot: clear whatever is on this port (alias of clearPort)
    pub clear: Option<u16>,
    /// One-shot: guard this port (alias of guardPort). Implies monitoring this port.
    pub guard: Option<u16>,
    /// Optional allowed process name when using --guard
    pub allow: Option<String>,
    /// One-shot: kill process by PID (alias of kill(pid))
    pub kill: Option<i32>,
    /// One-shot: kill whatever has this file open
    pub kill_file: Option<String>,
    /// One-shot: kill processes holding files with this extension (e.g., .lock)
    pub kill_ext: Option<String>,
    /// One-shot: list processes by file path or pattern
    pub list_file: Option<String>,
    /// One-shot: list current ports in use (human-readable) and exit
    pub list: bool,
    /// Ask for confirmation before killing
    pub safe: bool,
    /// Positional ports imply clearPort on each (e.g., `port-kill 3000 5000`)
    pub positional_ports: Vec<u16>,
    /// Use a preset configuration (e.g., 'dev', 'system', 'database', 'web', 'react', 'node', 'python', 'full', 'minimal')
    pub preset: Option<String>,
    /// List available presets and exit
    pub list_presets: bool,
    /// Save a preset with the given name using current CLI options
    pub save_preset: Option<String>,
    /// Optional description when using --save-preset
    pub preset_desc: Option<String>,
    /// Delete a user-defined preset by name
    pub delete_preset: Option<String>,
    /// Check for updates and show notification if available
    pub check_updates: bool,
    /// Automatically update to the latest version
    pub self_update: bool,
    /// Cache management subcommand
    pub cache: Option<CacheSubcommand>,
    /// Detect available services (npm scripts, docker-compose, etc.)
    pub detect: bool,
    /// Start a detected service by name (e.g., "npm:dev", "docker:web")
    pub start: Option<String>,
    /// Auto-restart in guard mode (restart allowed process if it dies)
    pub guard_auto_restart: bool,
    /// Start all services from config file (.port-kill.yaml)
    pub up: bool,
    /// Stop all running services from config
    pub down: bool,
    /// Restart a service from config
    pub restart_service: Option<String>,
    /// Show status of all configured services
    pub status: bool,
    /// Path to orchestration config file
    pub config_file: String,
    /// Create a sample .port-kill.yaml configuration file
    pub init_config: bool,
}

/// The cache management subcommand.
pub enum CacheSubcommand {
    /// Cache operations: list, clean, dry-run, restore, doctor, NPX, JS PM
    Op(CacheArgs),
}

/// Options of the cache subcommand.
pub struct CacheArgs {
    /// Operation mode: list, clean, dry-run, restore-last, doctor
    pub list: bool,
    pub clean: bool,
    pub dry_run: bool,
    pub restore_last: bool,
    pub doctor: bool,
    /// JSON output
    pub json: bool,
    /// Language filter
    pub lang: String,
    /// Include NPX analysis
    pub npx: bool,
    /// Include JS package managers caches
    pub js_pm: bool,
    /// Specialized providers
    pub hf: bool,
    pub torch: bool,
    pub vercel: bool,
    pub cloudflare: bool,
    /// Safety and force flags for clean
    pub safe_delete: bool,
    pub force: bool,
    /// NPX stale days
    pub stale_days: Option<u32>,
}

/// A named set of monitoring options.
pub struct PortPreset {
    pub name: String,
    pub description: String,
    pub ports: Vec<u16>,
    pub ignore_ports: Option<Vec<u16>>,
    pub ignore_processes: Option<Vec<String>>,
    pub ignore_patterns: Option<Vec<String>>,
    pub ignore_groups: Option<Vec<String>>,
    pub only_groups: Option<Vec<String>>,
    pub smart_filter: bool,
    pub docker: bool,
    pub show_pid: bool,
    pub performance: bool,
    pub show_context: bool,
}

/// `a` and `b` agree on every option that a preset does not set.
pub open spec fn same_besides_preset(a: &Args, b: &Args) -> bool {
    &&& a.start_port == b.start_port
    &&& a.end_port == b.end_port
    &&& a.console == b.console
    &&& a.verbose == b.verbose
    &&& a.log_level == b.log_level
    &&& a.show_history == b.show_history
    &&& a.clear_history == b.clear_history
    &&& a.show_filters == b.show_filters
    &&& a.kill_all == b.kill_all
    &&& a.kill_group == b.kill_group
    &&& a.kill_project == b.kill_project
    &&& a.restart == b.restart
    &&& a.show_restart_history == b.show_restart_history
    &&& a.clear_restart == b.clear_restart
    &&& a.show_tree == b.show_tree
    &&& a.json == b.json
    &&& a.reset == b.reset
    &&& a.show_offenders == b.show_offenders
    &&& a.show_patterns == b.show_patterns
    &&& a.show_suggestions == b.show_suggestions
    &&& a.show_stats == b.show_stats
    &&& a.show_root_cause == b.show_root_cause
    &&& a.guard_mode == b.guard_mode
    &&& a.guard_ports == b.guard_ports
    &&& a.auto_resolve == b.auto_resolve
    &&& a.reservation_file == b.reservation_file
    &&& a.intercept_commands == b.intercept_commands
    &&& a.reserve_port == b.reserve_port
    &&& a.project_name == b.project_name
    &&& a.process_name == b.process_name
    &&& a.audit == b.audit
    &&& a.security_mode == b.security_mode
    &&& a.suspicious_ports == b.suspicious_ports
    &&& a.baseline_file == b.baseline_file
    &&& a.suspicious_only == b.suspicious_only
    &&& a.remote == b.remote
    &&& a.monitor_endpoint == b.monitor_endpoint
    &&& a.send_interval == b.send_interval
    &&& a.scan_interval == b.scan_interval
    &&& a.endpoint_auth == b.endpoint_auth
    &&& a.endpoint_fields == b.endpoint_fields
    &&& a.endpoint_include_audit == b.endpoint_include_audit
    &&& a.endpoint_retries == b.endpoint_retries
    &&& a.endpoint_timeout == b.endpoint_timeout
    &&& a.script == b.script
    &&& a.script_file == b.script_file
    &&& a.script_lang == b.script_lang
    &&& a.clear == b.clear
    &&& a.guard == b.guard
    &&& a.allow == b.allow
    &&& a.kill == b.kill
    &&& a.kill_file == b.kill_file
    &&& a.kill_ext == b.kill_ext
    &&& a.list_file == b.list_file
    &&& a.list == b.list
    &&& a.safe == b.safe
    &&& a.positional_ports == b.positional_ports
    &&& a.preset == b.preset
    &&& a.list_presets == b.list_presets
    &&& a.save_preset == b.save_preset
    &&& a.preset_desc == b.preset_desc
    &&& a.delete_preset == b.delete_preset
    &&& a.check_updates == b.check_updates
    &&& a.self_update == b.self_update
    &&& a.cache == b.cache
    &&& a.detect == b.detect
    &&& a.start == b.start
    &&& a.guard_auto_restart == b.guard_auto_restart
    &&& a.up == b.up
    &&& a.down == b.down
    &&& a.restart_service == b.restart_service
    &&& a.status == b.status
    &&& a.config_file == b.config_file
    &&& a.init_config == b.init_config
}
/// The ports from `a` to `b`, both included; none when `a > b`.
pub open spec fn port_span(a: u16, b: u16) -> Seq<u16> {
    if a <= b {
        Seq::new((b - a + 1) as nat, |k: int| (a + k) as u16)
    } else {
        Seq::empty()
    }
}

/// What a port specification stands for: after trimming, a single port, or
/// two ports joined by one `-` with the first not above the second.
pub open spec fn range_of(s: Seq<char>) -> Option<Seq<u16>> {
    let t = trimmed(s);
    if t.contains('-') {
        let parts = split_on(t, '-');
        if parts.len() == 2 && parse_u16_spec(parts[0]) is Some && parse_u16_spec(parts[1]) is Some
            && parse_u16_spec(parts[0])->Some_0 <= parse_u16_spec(parts[1])->Some_0 {
            Some(port_span(parse_u16_spec(parts[0])->Some_0, parse_u16_spec(parts[1])->Some_0))
        } else {
            None
        }
    } else {
        match parse_u16_spec(t) {
            Some(p) => Some(seq![p]),
            None => None,
        }
    }
}

/// The ports of the specifications `specs`, in order; a specification that
/// stands for nothing adds nothing.
pub open spec fn ports_from(specs: Seq<Seq<char>>) -> Seq<u16>
    decreases specs.len(),
{
    if specs.len() == 0 {
        Seq::empty()
    } else {
        ports_from(specs.drop_last()) + match range_of(specs.last()) {
            Some(r) => r,
            None => Seq::empty(),
        }
    }
}

/// The ports to monitor: those of the specific port list when given, else
/// the range from the start port to the end port.
pub open spec fn ports_to_monitor(a: &Args) -> Seq<u16> {
    match a.ports {
        Some(ps) => ports_from(views(ps@)),
        None => port_span(a.start_port, a.end_port),
    }
}

/// The pieces of a comma-separated list that read as ports once trimmed.
pub open spec fn listed_ports(pieces: Seq<Seq<char>>) -> Seq<u16>
    decreases pieces.len(),
{
    if pieces.len() == 0 {
        Seq::empty()
    } else {
        let prev = listed_ports(pieces.drop_last());
        match parse_u16_spec(trimmed(pieces.last())) {
            Some(p) => prev.push(p),
            None => prev,
        }
    }
}

pub open spec fn opt_u16s(v: Option<Vec<u16>>) -> Seq<u16> {
    match v {
        Some(x) => x@,
        None => Seq::empty(),
    }
}

pub open spec fn opt_views(v: Option<Vec<String>>) -> Seq<Seq<char>> {
    match v {
        Some(x) => views(x@),
        None => Seq::empty(),
    }
}

/// The notes on what is ignored, as `get_port_description` lists them.
pub open spec fn ignore_notes(a: &Args) -> Seq<Seq<char>> {
    let ports = if a.ignore_ports is Some && opt_u16s(a.ignore_ports).len() > 0 {
        seq!["ignoring ports: "@ + join(decimals(opt_u16s(a.ignore_ports)), ", "@)]
    } else {
        Seq::empty()
    };
    let procs = if a.ignore_processes is Some && opt_views(a.ignore_processes).len() > 0 {
        seq!["ignoring processes: "@ + join(opt_views(a.ignore_processes), ", "@)]
    } else {
        Seq::empty()
    };
    ports + procs
}

/// The description of the port configuration.
pub open spec fn port_description(a: &Args) -> Seq<char> {
    let base = match a.ports {
        Some(ps) => "specific ports: "@ + join(views(ps@), ", "@),
        None => "port range: "@ + decimal(a.start_port as nat) + "-"@ + decimal(a.end_port as nat),
    };
    if ignore_notes(a).len() > 0 {
        base + " ("@ + join(ignore_notes(a), ", "@) + ")"@
    } else {
        base
    }
}

/// The first complaint about a list of port specifications, if any.
pub open spec fn specs_error(specs: Seq<Seq<char>>) -> Option<Seq<char>>
    decreases specs.len(),
{
    if specs.len() == 0 {
        None
    } else {
        match range_of(specs[0]) {
            None => Some("Invalid port specification: '"@ + specs[0] + "'"@),
            Some(r) => if r.contains(0u16) {
                Some("Port 0 is not valid"@)
            } else {
                specs_error(specs.drop_first())
            },
        }
    }
}

/// The first complaint about the options, if any.
pub open spec fn validation_error(a: &Args) -> Option<Seq<char>> {
    if a.start_port > a.end_port {
        Some("Start port cannot be greater than end port"@)
    } else if a.ports is Some && opt_views(a.ports).len() == 0 {
        Some("At least one port must be specified"@)
    } else if a.ports is Some && specs_error(opt_views(a.ports)) is Some {
        specs_error(opt_views(a.ports))
    } else if opt_u16s(a.ignore_ports).contains(0u16) {
        Some("Ignore port 0 is not valid"@)
    } else if exists|k: int|
        0 <= k < opt_views(a.ignore_processes).len() && trimmed(
            #[trigger] opt_views(a.ignore_processes)[k],
        ).len() == 0 {
        Some("Ignore process names cannot be empty"@)
    } else {
        None
    }
}

/// The set of `v`'s values, built by inserting them one by one.
fn to_hash_set(v: &Vec<u16>) -> (r: HashSet<u16>)
    ensures
        r@ == v@.to_set(),
{
    let mut r: HashSet<u16> = HashSet::new();
    let mut i: usize = 0;
    while i < v.len()
        invariant
            i <= v@.len(),
            r@ == v@.subrange(0, i as int).to_set(),
        decreases v@.len() - i,
    {
        r.insert(v[i]);
        proof {
            let s0 = v@.subrange(0, i as int);
            let s1 = v@.subrange(0, i + 1);
            assert(s1 =~= s0.push(v@[i as int]));
            assert forall|x: u16| s1.to_set().contains(x) <==> s0.to_set().insert(v@[i as int]).contains(x) by {
                if s1.contains(x) {
                    let k = choose|k: int| 0 <= k < s1.len() && s1[k] == x;
                    if k < i {
                        assert(s0[k] == x);
                    }
                }
                if s0.contains(x) {
                    let k = choose|k: int| 0 <= k < s0.len() && s0[k] == x;
                    assert(s1[k] == x);
                }
                if x == v@[i as int] {
                    assert(s1[i as int] == x);
                }
            }
            assert(s1.to_set() =~= s0.to_set().insert(v@[i as int]));
        }
        i = i + 1;
    }
    assert(v@.subrange(0, v@.len() as int) =~= v@);
    r
}

/// `v` without repeated values, first occurrences kept in order.
fn distinct_strings(v: &Vec<String>) -> (r: Vec<String>)
    ensures
        views(r@).no_duplicates(),
        views(r@).to_set() == views(v@).to_set(),
{
    let mut r: Vec<String> = Vec::new();
    let mut i: usize = 0;
    while i < v.len()
        invariant
            i <= v@.len(),
            views(r@).no_duplicates(),
            views(r@).to_set() == views(v@.subrange(0, i as int)).to_set(),
        decreases v@.len() - i,
    {
        let mut seen = false;
        let mut k: usize = 0;
        while k < r.len()
            invariant
                i < v@.len(),
                k <= r@.len(),
                seen == exists|j: int| 0 <= j < k && r@[j]@ == v@[i as int]@,
            decreases r@.len() - k,
        {
            if r[k] == v[i] {
                seen = true;
            }
            k = k + 1;
        }
        let ghost before = r@;
        if !seen {
            r.push(v[i].clone());
        }
        proof {
            let pre = views(v@.subrange(0, i as int));
            let next = views(v@.subrange(0, i + 1));
            assert(next =~= pre.push(v@[i as int]@));
            assert(views(before).to_set() == pre.to_set());
            if !seen {
                assert(views(r@) =~= views(before).push(v@[i as int]@));
                assert forall|a: int, b: int| 0 <= a < views(r@).len() && 0 <= b < views(r@).len() && a != b implies views(r@)[a] != views(r@)[b] by {
                    if a == before.len() as int {
                        assert(views(before)[b] == before[b]@);
                    } else if b == before.len() as int {
                        assert(views(before)[a] == before[a]@);
                    }
                }
                assert(views(r@).to_set() =~= next.to_set()) by {
                    assert forall|x: Seq<char>| views(r@).to_set().contains(x) <==> next.to_set().contains(x) by {
                        if views(r@).contains(x) {
                            let j = choose|j: int| 0 <= j < views(r@).len() && views(r@)[j] == x;
                            if j < before.len() {
                                assert(views(before)[j] == x);
                                assert(pre.to_set().contains(x));
                                let q = choose|q: int| 0 <= q < pre.len() && pre[q] == x;
                                assert(next[q] == x);
                            } else {
                                assert(next[i as int] == x);
                            }
                        }
                        if next.contains(x) {
                            let q = choose|q: int| 0 <= q < next.len() && next[q] == x;
                            if q < i {
                                assert(pre[q] == x);
                                assert(views(before).to_set().contains(x));
                                let j = choose|j: int| 0 <= j < views(before).len() && views(before)[j] == x;
                                assert(views(r@)[j] == x);
                            } else {
                                assert(views(r@)[before.len() as int] == x);
                            }
                        }
                    }
                }
            } else {
                let j = choose|j: int| 0 <= j < k && r@[j]@ == v@[i as int]@;
                assert(views(r@).to_set() =~= next.to_set()) by {
                    assert forall|x: Seq<char>| views(r@).to_set().contains(x) <==> next.to_set().contains(x) by {
                        if views(r@).contains(x) {
                            assert(pre.to_set().contains(x));
                            let q = choose|q: int| 0 <= q < pre.len() && pre[q] == x;
                            assert(next[q] == x);
                        }
                        if next.contains(x) {
                            let q = choose|q: int| 0 <= q < next.len() && next[q] == x;
                            if q < i {
                                assert(pre[q] == x);
                                assert(pre.to_set().contains(x));
                            } else {
                                assert(views(r@)[j] == x);
                            }
                        }
                    }
                }
            }
        }
        i = i + 1;
    }
    assert(v@.subrange(0, v@.len() as int) =~= v@);
    r
}

fn clone_strings(v: &Vec<String>) -> (r: Vec<String>)
    ensures
        views(r@) == views(v@),
{
    let mut r: Vec<String> = Vec::new();
    let mut i: usize = 0;
    while i < v.len()
        invariant
            i <= v@.len(),
            r@.len() == i,
            forall|k: int| 0 <= k < i ==> (#[trigger] r@[k])@ == v@[k]@,
        decreases v@.len() - i,
    {
        r.push(v[i].clone());
        i = i + 1;
    }
    assert(views(r@) =~= views(v@));
    r
}

fn clone_opt_strings(v: &Option<Vec<String>>) -> (r: Option<Vec<String>>)
    ensures
        r is Some == v is Some,
        opt_views(r) == opt_views(*v),
{
    match v {
        Some(x) => Some(clone_strings(x)),
        None => None,
    }
}

fn clone_u16s(v: &Vec<u16>) -> (r: Vec<u16>)
    ensures
        r@ == v@,
{
    let mut r: Vec<u16> = Vec::new();
    let mut i: usize = 0;
    while i < v.len()
        invariant
            i <= v@.len(),
            r@ == v@.subrange(0, i as int),
        decreases v@.len() - i,
    {
        r.push(v[i]);
        assert(v@.subrange(0, i + 1) =~= v@.subrange(0, i as int).push(v@[i as int]));
        i = i + 1;
    }
    assert(v@.subrange(0, v@.len() as int) =~= v@);
    r
}

fn clone_opt_u16s(v: &Option<Vec<u16>>) -> (r: Option<Vec<u16>>)
    ensures
        r is Some == v is Some,
        opt_u16s(r) == opt_u16s(*v),
{
    match v {
        Some(x) => Some(clone_u16s(x)),
        None => None,
    }
}

/// Replaces `dst` by a copy of `src` when `src` is given.
fn take_over_strings(dst: &mut Option<Vec<String>>, src: &Option<Vec<String>>)
    ensures
        src is Some ==> (*final(dst)) is Some && opt_views(*final(dst)) == opt_views(*src),
        src is None ==> *final(dst) == *old(dst),
{
    if src.is_some() {
        *dst = clone_opt_strings(src);
    }
}

/// Replaces `dst` by a copy of `src` when `src` is given.
fn take_over_u16s(dst: &mut Option<Vec<u16>>, src: &Option<Vec<u16>>)
    ensures
        src is Some ==> (*final(dst)) is Some && opt_u16s(*final(dst)) == opt_u16s(*src),
        src is None ==> *final(dst) == *old(dst),
{
    if src.is_some() {
        *dst = clone_opt_u16s(src);
    }
}

fn contains_char(s: &str, c: char) -> (r: bool)
    ensures
        r == s@.contains(c),
{
    let n = s.unicode_len();
    let mut i: usize = 0;
    while i < n
        invariant
            n == s@.len(),
            i <= n,
            forall|k: int| 0 <= k < i ==> s@[k] != c,
        decreases n - i,
    {
        if s.get_char(i) == c {
            return true;
        }
        i = i + 1;
    }
    false
}

/// The ports from `a` to `b`, both included.
fn span(a: u16, b: u16) -> (r: Vec<u16>)
    ensures
        r@ == port_span(a, b),
{
    let mut r: Vec<u16> = Vec::new();
    if a > b {
        return r;
    }
    let mut p: u32 = a as u32;
    while p <= b as u32
        invariant
            a <= b,
            a as u32 <= p <= b as u32 + 1,
            r@.len() == p - a,
            forall|k: int| 0 <= k < r@.len() ==> r@[k] == (a + k) as u16,
        decreases b as u32 + 1 - p,
    {
        r.push(p as u16);
        p = p + 1;
    }
    assert(r@ =~= port_span(a, b));
    r
}

/// Reads the ports of a comma-separated list, skipping pieces that are no
/// port.
fn parse_port_list(s: &str) -> (r: Vec<u16>)
    ensures
        r@ == listed_ports(split_on(s@, ',')),
{
    let pieces = split(s, ',');
    let mut r: Vec<u16> = Vec::new();
    let mut i: usize = 0;
    while i < pieces.len()
        invariant
            i <= pieces@.len(),
            views(pieces@) == split_on(s@, ','),
            r@ == listed_ports(views(pieces@).subrange(0, i as int)),
        decreases pieces@.len() - i,
    {
        assert(views(pieces@).subrange(0, i + 1).drop_last() =~= views(pieces@).subrange(0, i as int));
        match parse_u16(trim(pieces[i].as_str())) {
            Some(p) => r.push(p),
            None => {},
        }
        i = i + 1;
    }
    assert(views(pieces@).subrange(0, pieces@.len() as int) =~= views(pieces@));
    r
}

/// The decimal forms of `ports`.
fn port_strings(ports: &Vec<u16>) -> (r: Vec<String>)
    ensures
        views(r@) == decimals(ports@),
{
    let mut r: Vec<String> = Vec::new();
    let mut i: usize = 0;
    while i < ports.len()
        invariant
            i <= ports@.len(),
            views(r@) == decimals(ports@.subrange(0, i as int)),
        decreases ports@.len() - i,
    {
        let mut p = String::new();
        push_decimal(&mut p, ports[i]);
        let ghost before = views(r@);
        r.push(p);
        assert(ports@.subrange(0, i + 1) =~= ports@.subrange(0, i as int).push(ports@[i as int]));
        assert(decimals(ports@.subrange(0, i + 1)) =~= decimals(ports@.subrange(0, i as int)).push(
            decimal(ports@[i as int] as nat),
        ));
        assert(views(r@) =~= before.push(decimal(ports@[i as int] as nat)));
        i = i + 1;
    }
    assert(ports@.subrange(0, ports@.len() as int) =~= ports@);
    r
}

impl CacheSubcommand {
    /// The options of the subcommand.
    pub fn args(&self) -> (r: &CacheArgs)
        ensures
            match self {
                CacheSubcommand::Op(a) => r == a,
            },
    {
        match self {
            CacheSubcommand::Op(args) => args,
        }
    }
}

impl Args {
    /// The ports to monitor: those of the specific port specifications when
    /// given (single ports or ranges like `3000-3010`; one that stands for
    /// nothing is skipped), else the range from the start to the end port.
    pub fn get_ports_to_monitor(&self) -> (r: Vec<u16>)
        ensures
            r@ == ports_to_monitor(self),
    {
        match &self.ports {
            Some(specific) => {
                let mut ports: Vec<u16> = Vec::new();
                let mut i: usize = 0;
                while i < specific.len()
                    invariant
                        i <= specific@.len(),
                        ports@ == ports_from(views(specific@).subrange(0, i as int)),
                    decreases specific@.len() - i,
                {
                    assert(views(specific@).subrange(0, i + 1).drop_last() =~= views(specific@).subrange(0, i as int));
                    let ghost before = ports@;
                    match self.parse_port_range(specific[i].as_str()) {
                        Some(range) => {
                            let mut k: usize = 0;
                            while k < range.len()
                                invariant
                                    k <= range@.len(),
                                    ports@ == before + range@.subrange(0, k as int),
                                decreases range@.len() - k,
                            {
                                ports.push(range[k]);
                                assert(range@.subrange(0, k + 1) =~= range@.subrange(0, k as int).push(range@[k as int]));
                                k = k + 1;
                            }
                            assert(range@.subrange(0, range@.len() as int) =~= range@);
                        },
                        None => {
                            assert(ports@ =~= before + Seq::<u16>::empty());
                        },
                    }
                    i = i + 1;
                }
                assert(views(specific@).subrange(0, specific@.len() as int) =~= views(specific@));
                ports
            },
            None => span(self.start_port, self.end_port),
        }
    }

    /// What the port specification `port_str` stands for.
    pub fn parse_port_range(&self, port_str: &str) -> (r: Option<Vec<u16>>)
        ensures
            match r {
                Some(v) => range_of(port_str@) == Some(v@),
                None => range_of(port_str@) is None,
            },
    {
        let t = trim(port_str);
        if contains_char(t, '-') {
            let parts = split(t, '-');
            if parts.len() == 2 {
                match (parse_u16(parts[0].as_str()), parse_u16(parts[1].as_str())) {
                    (Some(start), Some(end)) => {
                        if start <= end {
                            return Some(span(start, end));
                        }
                    },
                    _ => {},
                }
            }
            None
        } else {
            match parse_u16(t) {
                Some(port) => Some(vec![port]),
                None => None,
            }
        }
    }

    /// The ports to monitor, as a set.
    pub fn get_ports_set(&self) -> (r: HashSet<u16>)
        ensures
            r@ == ports_to_monitor(self).to_set(),
    {
        let ports = self.get_ports_to_monitor();
        to_hash_set(&ports)
    }

    /// The ports to ignore, as a set.
    pub fn get_ignore_ports_set(&self) -> (r: HashSet<u16>)
        ensures
            r@ == opt_u16s(self.ignore_ports).to_set(),
    {
        match &self.ignore_ports {
            Some(v) => to_hash_set(v),
            None => {
                let r = HashSet::new();
                assert(r@ =~= Seq::<u16>::empty().to_set());
                r
            },
        }
    }

    /// The process names to ignore, each once.
    pub fn get_ignore_processes_set(&self) -> (r: Vec<String>)
        ensures
            views(r@).no_duplicates(),
            views(r@).to_set() == opt_views(self.ignore_processes).to_set(),
    {
        match &self.ignore_processes {
            Some(v) => distinct_strings(v),
            None => {
                let r: Vec<String> = Vec::new();
                assert(views(r@) =~= Seq::<Seq<char>>::empty());
                r
            },
        }
    }

    /// The process groups to ignore, each once.
    pub fn get_ignore_groups_set(&self) -> (r: Vec<String>)
        ensures
            views(r@).no_duplicates(),
            views(r@).to_set() == opt_views(self.ignore_groups).to_set(),
    {
        match &self.ignore_groups {
            Some(v) => distinct_strings(v),
            None => {
                let r: Vec<String> = Vec::new();
                assert(views(r@) =~= Seq::<Seq<char>>::empty());
                r
            },
        }
    }

    /// The only process groups to show, each once, when restricted.
    pub fn get_only_groups_set(&self) -> (r: Option<Vec<String>>)
        ensures
            r is Some == self.only_groups is Some,
            r is Some ==> views(r->Some_0@).no_duplicates() && views(r->Some_0@).to_set()
                == opt_views(self.only_groups).to_set(),
    {
        match &self.only_groups {
            Some(v) => Some(distinct_strings(v)),
            None => None,
        }
    }

    /// The ports, process names and groups that smart filtering ignores;
    /// all empty when smart filtering is off.
    pub fn get_smart_filter_defaults(&self) -> (r: (HashSet<u16>, Vec<String>, Vec<String>))
        ensures
            !self.smart_filter ==> r.0@.is_empty() && r.1@.len() == 0 && r.2@.len() == 0,
            self.smart_filter ==> r.0@ == seq![
                22u16, 25, 53, 80, 443, 993, 995, 1433, 3306, 5432, 6379, 27017, 5353, 5000, 7000,
                8080, 8443,
            ].to_set(),
            self.smart_filter ==> views(r.1@) == seq![
                "Chrome"@, "Safari"@, "Firefox"@, "Edge"@, "ControlCe"@, "rapportd"@,
                "AirPlayXP"@, "systemd"@, "init"@, "kthreadd"@, "svchost"@, "explorer"@,
                "winlogon"@, "docker"@, "dockerd"@, "containerd"@, "nginx"@, "apache2"@, "httpd"@,
                "mysqld"@, "postgres"@, "redis-server"@, "ssh"@, "sshd"@,
            ],
            self.smart_filter ==> views(r.2@) == seq!["Web Server"@, "Database"@],
    {
        if !self.smart_filter {
            return (HashSet::new(), Vec::new(), Vec::new());
        }
        let ports: Vec<u16> = vec![
            22, 25, 53, 80, 443, 993, 995, 1433, 3306, 5432, 6379, 27017, 5353, 5000, 7000, 8080,
            8443,
        ];
        let ports_set = to_hash_set(&ports);
        let processes = vec![
            owned("Chrome"), owned("Safari"), owned("Firefox"), owned("Edge"),
            owned("ControlCe"), owned("rapportd"), owned("AirPlayXP"),
            owned("systemd"), owned("init"), owned("kthreadd"),
            owned("svchost"), owned("explorer"), owned("winlogon"),
            owned("docker"), owned("dockerd"), owned("containerd"),
            owned("nginx"), owned("apache2"), owned("httpd"), owned("mysqld"),
            owned("postgres"), owned("redis-server"), owned("ssh"),
            owned("sshd"),
        ];
        let groups = vec![owned("Web Server"), owned("Database")];
        assert(views(processes@) =~= seq![
            "Chrome"@, "Safari"@, "Firefox"@, "Edge"@, "ControlCe"@, "rapportd"@, "AirPlayXP"@,
            "systemd"@, "init"@, "kthreadd"@, "svchost"@, "explorer"@, "winlogon"@, "docker"@,
            "dockerd"@, "containerd"@, "nginx"@, "apache2"@, "httpd"@, "mysqld"@, "postgres"@,
            "redis-server"@, "ssh"@, "sshd"@,
        ]);
        assert(views(groups@) =~= seq!["Web Server"@, "Database"@]);
        (ports_set, processes, groups)
    }

    /// A description of the port configuration, with what is ignored.
    pub fn get_port_description(&self) -> (r: String)
        ensures
            r@ == port_description(self),
    {
        let mut description = String::new();
        match &self.ports {
            Some(specific) => {
                push_str(&mut description, "specific ports: ");
                push_joined(&mut description, specific, ", ");
            },
            None => {
                push_str(&mut description, "port range: ");
                push_decimal(&mut description, self.start_port);
                push_str(&mut description, "-");
                push_decimal(&mut description, self.end_port);
            },
        }
        let mut notes: Vec<String> = Vec::new();
        match &self.ignore_ports {
            Some(ignore_ports) => {
                if ignore_ports.len() > 0 {
                    let mut note = String::new();
                    push_str(&mut note, "ignoring ports: ");
                    push_joined_ports(&mut note, ignore_ports, ", ");
                    notes.push(note);
                }
            },
            None => {},
        }
        let ghost after_ports = notes@;
        match &self.ignore_processes {
            Some(ignore_processes) => {
                if ignore_processes.len() > 0 {
                    let mut note = String::new();
                    push_str(&mut note, "ignoring processes: ");
                    push_joined(&mut note, ignore_processes, ", ");
                    notes.push(note);
                }
            },
            None => {},
        }
        assert(views(notes@) =~= ignore_notes(self));
        if notes.len() > 0 {
            push_str(&mut description, " (");
            push_joined(&mut description, &notes, ", ");
            push_str(&mut description, ")");
        }
        description
    }

    fn specs_check(&self, specific: &Vec<String>) -> (r: Result<(), String>)
        ensures
            match r {
                Ok(()) => specs_error(views(specific@)) is None,
                Err(m) => specs_error(views(specific@)) == Some(m@),
            },
    {
        let mut i: usize = 0;
        assert(views(specific@).subrange(0, specific@.len() as int) =~= views(specific@));
        while i < specific.len()
            invariant
                i <= specific@.len(),
                specs_error(views(specific@)) == specs_error(views(specific@).subrange(i as int, specific@.len() as int)),
            decreases specific@.len() - i,
        {
            let ghost rest = views(specific@).subrange(i as int, specific@.len() as int);
            assert(rest[0] == specific@[i as int]@);
            assert(rest.drop_first() =~= views(specific@).subrange(i + 1, specific@.len() as int));
            match self.parse_port_range(specific[i].as_str()) {
                Some(ports) => {
                    let mut k: usize = 0;
                    while k < ports.len()
                        invariant
                            i < specific@.len(),
                            rest == views(specific@).subrange(i as int, specific@.len() as int),
                            rest[0] == specific@[i as int]@,
                            range_of(specific@[i as int]@) == Some(ports@),
                            specs_error(views(specific@)) == specs_error(rest),
                            k <= ports@.len(),
                            forall|j: int| 0 <= j < k ==> ports@[j] != 0,
                        decreases ports@.len() - k,
                    {
                        if ports[k] == 0 {
                            proof {
                                assert(ports@.contains(0u16)) by {
                                    assert(ports@[k as int] == 0);
                                }
                            }
                            return Err(owned("Port 0 is not valid"));
                        }
                        k = k + 1;
                    }
                },
                None => {
                    let mut m = String::new();
                    push_str(&mut m, "Invalid port specification: '");
                    push_str(&mut m, specific[i].as_str());
                    push_str(&mut m, "'");
                    return Err(m);
                },
            }
            i = i + 1;
        }
        assert(views(specific@).subrange(specific@.len() as int, specific@.len() as int) =~= Seq::<Seq<char>>::empty());
        Ok(())
    }

    /// Checks the options; the error names the first problem found.
    pub fn validate(&self) -> (r: Result<(), String>)
        ensures
            match r {
                Ok(()) => validation_error(self) is None,
                Err(m) => validation_error(self) == Some(m@),
            },
    {
        if self.start_port > self.end_port {
            return Err(owned("Start port cannot be greater than end port"));
        }
        match &self.ports {
            Some(specific) => {
                if specific.len() == 0 {
                    return Err(owned("At least one port must be specified"));
                }
                match self.specs_check(specific) {
                    Ok(()) => {},
                    Err(m) => {
                        return Err(m);
                    },
                }
            },
            None => {},
        }
        match &self.ignore_ports {
            Some(ignore_ports) => {
                let mut k: usize = 0;
                while k < ignore_ports.len()
                    invariant
                        self.ignore_ports == Some(*ignore_ports),
                        self.start_port <= self.end_port,
                        self.ports is Some ==> opt_views(self.ports).len() > 0 && specs_error(
                            opt_views(self.ports),
                        ) is None,
                        k <= ignore_ports@.len(),
                        forall|j: int| 0 <= j < k ==> ignore_ports@[j] != 0,
                    decreases ignore_ports@.len() - k,
                {
                    if ignore_ports[k] == 0 {
                        proof {
                            assert(ignore_ports@[k as int] == 0);
                            assert(opt_u16s(self.ignore_ports) == ignore_ports@);
                            assert(opt_u16s(self.ignore_ports).contains(0u16));
                        }
                        return Err(owned("Ignore port 0 is not valid"));
                    }
                    k = k + 1;
                }
                assert(!opt_u16s(self.ignore_ports).contains(0u16)) by {
                    assert(opt_u16s(self.ignore_ports) == ignore_ports@);
                    if ignore_ports@.contains(0u16) {
                        let j = choose|j: int| 0 <= j < ignore_ports@.len() && ignore_ports@[j] == 0u16;
                        assert(ignore_ports@[j] != 0);
                    }
                }
            },
            None => {},
        }
        match &self.ignore_processes {
            Some(ignore_processes) => {
                let mut k: usize = 0;
                while k < ignore_processes.len()
                    invariant
                        self.ignore_processes == Some(*ignore_processes),
                        self.start_port <= self.end_port,
                        self.ports is Some ==> opt_views(self.ports).len() > 0 && specs_error(
                            opt_views(self.ports),
                        ) is None,
                        !opt_u16s(self.ignore_ports).contains(0u16),
                        k <= ignore_processes@.len(),
                        forall|j: int| 0 <= j < k ==> trimmed(#[trigger] views(ignore_processes@)[j]).len() != 0,
                    decreases ignore_processes@.len() - k,
                {
                    if is_blank(ignore_processes[k].as_str()) {
                        proof {
                            assert(views(ignore_processes@)[k as int] == ignore_processes@[k as int]@);
                            assert(opt_views(self.ignore_processes) == views(ignore_processes@));
                            assert(trimmed(opt_views(self.ignore_processes)[k as int]).len() == 0);
                        }
                        return Err(owned("Ignore process names cannot be empty"));
                    }
                    k = k + 1;
                }
                assert(opt_views(self.ignore_processes) == views(ignore_processes@));
            },
            None => {},
        }
        Ok(())
    }

    /// The common development ports that a reset clears.
    pub fn get_reset_ports(&self) -> (r: Vec<u16>)
        ensures
            r@ == seq![3000u16, 5000, 8000, 5432, 3306, 6379, 27017, 8080, 9000],
    {
        let r = vec![3000, 5000, 8000, 5432, 3306, 6379, 27017, 8080, 9000];
        assert(r@ =~= seq![3000u16, 5000, 8000, 5432, 3306, 6379, 27017, 8080, 9000]);
        r
    }

    /// The ports that guard mode watches, read from their comma-separated
    /// list; pieces that are no port are skipped.
    pub fn get_guard_ports(&self) -> (r: Vec<u16>)
        ensures
            r@ == listed_ports(split_on(self.guard_ports@, ',')),
    {
        parse_port_list(self.guard_ports.as_str())
    }

    /// The ports flagged as suspicious, read from their comma-separated list;
    /// pieces that are no port are skipped.
    pub fn get_suspicious_ports(&self) -> (r: Vec<u16>)
        ensures
            r@ == listed_ports(split_on(self.suspicious_ports@, ',')),
    {
        parse_port_list(self.suspicious_ports.as_str())
    }

    /// The remote host to reach over SSH, if any.
    pub fn get_remote_host(&self) -> (r: Option<String>)
        ensures
            r == self.remote,
    {
        match &self.remote {
            Some(h) => Some(h.clone()),
            None => None,
        }
    }

    /// Takes over a preset: its ports become the specific ports, each of
    /// its lists that is given replaces the option's, and its flags replace
    /// the option's flags.
    pub fn apply_preset(&mut self, preset: &PortPreset)
        ensures
            same_besides_preset(old(self), final(self)),
            final(self).ports is Some && views(final(self).ports->Some_0@) == decimals(preset.ports@),
            preset.ignore_ports is Some ==> final(self).ignore_ports is Some && opt_u16s(final(self).ignore_ports) == opt_u16s(preset.ignore_ports),
            preset.ignore_ports is None ==> final(self).ignore_ports == old(self).ignore_ports,
            preset.ignore_processes is Some ==> final(self).ignore_processes is Some && opt_views(final(self).ignore_processes) == opt_views(preset.ignore_processes),
            preset.ignore_processes is None ==> final(self).ignore_processes == old(self).ignore_processes,
            preset.ignore_patterns is Some ==> final(self).ignore_patterns is Some && opt_views(final(self).ignore_patterns) == opt_views(preset.ignore_patterns),
            preset.ignore_patterns is None ==> final(self).ignore_patterns == old(self).ignore_patterns,
            preset.ignore_groups is Some ==> final(self).ignore_groups is Some && opt_views(final(self).ignore_groups) == opt_views(preset.ignore_groups),
            preset.ignore_groups is None ==> final(self).ignore_groups == old(self).ignore_groups,
            preset.only_groups is Some ==> final(self).only_groups is Some && opt_views(final(self).only_groups) == opt_views(preset.only_groups),
            preset.only_groups is None ==> final(self).only_groups == old(self).only_groups,
            final(self).smart_filter == preset.smart_filter,
            final(self).docker == preset.docker,
            final(self).show_pid == preset.show_pid,
            final(self).performance == preset.performance,
            final(self).show_context == preset.show_context,
    {
        let ports = port_strings(&preset.ports);
        self.ports = Some(ports);
        take_over_u16s(&mut self.ignore_ports, &preset.ignore_ports);
        take_over_strings(&mut self.ignore_processes, &preset.ignore_processes);
        take_over_strings(&mut self.ignore_patterns, &preset.ignore_patterns);
        take_over_strings(&mut self.ignore_groups, &preset.ignore_groups);
        take_over_strings(&mut self.only_groups, &preset.only_groups);
        self.smart_filter = preset.smart_filter;
        self.docker = preset.docker;
        self.show_pid = preset.show_pid;
        self.performance = preset.performance;
        self.show_context = preset.show_context;
    }

    /// A preset holding the current options under `name` and
    /// `description`.
    pub fn build_preset_from_args(&self, name: String, description: String) -> (r: PortPreset)
        ensures
            r.name == name,
            r.description == description,
            r.ports@ == ports_to_monitor(self),
            r.ignore_ports is Some == self.ignore_ports is Some,
            opt_u16s(r.ignore_ports) == opt_u16s(self.ignore_ports),
            r.ignore_processes is Some == self.ignore_processes is Some,
            opt_views(r.ignore_processes) == opt_views(self.ignore_processes),
            r.ignore_patterns is Some == self.ignore_patterns is Some,
            opt_views(r.ignore_patterns) == opt_views(self.ignore_patterns),
            r.ignore_groups is Some == self.ignore_groups is Some,
            opt_views(r.ignore_groups) == opt_views(self.ignore_groups),
            r.only_groups is Some == self.only_groups is Some,
            opt_views(r.only_groups) == opt_views(self.only_groups),
            r.smart_filter == self.smart_filter,
            r.docker == self.docker,
            r.show_pid == self.show_pid,
            r.performance == self.performance,
            r.show_context == self.show_context,
    {
        PortPreset {
            name,
            description,
            ports: self.get_ports_to_monitor(),
            ignore_ports: clone_opt_u16s(&self.ignore_ports),
            ignore_processes: clone_opt_strings(&self.ignore_processes),
            ignore_patterns: clone_opt_strings(&self.ignore_patterns),
            ignore_groups: clone_opt_strings(&self.ignore_groups),
            only_groups: clone_opt_strings(&self.only_groups),
            smart_filter: self.smart_filter,
            docker: self.docker,
            show_pid: self.show_pid,
            performance: self.performance,
            show_context: self.show_context,
        }
    }
}

impl LogLevel {
    /// The value of `RUST_LOG` for this level.
    pub fn to_rust_log(&self) -> (r: &'static str)
        ensures
            r@ == match self {
                LogLevel::Info => "info"@,
                LogLevel::Warn => "warn"@,
                LogLevel::Error => "error"@,
                LogLevel::Off => "off"@,
            },
    {
        match self {
            LogLevel::Info => "info",
            LogLevel::Warn => "warn",
            LogLevel::Error => "error",
            LogLevel::Off => "off",
        }
    }

    /// Whether info messages are logged.
    pub fn is_info_enabled(&self) -> (r: bool)
        ensures
            r == (*self == LogLevel::Info),
    {
        match self {
            LogLevel::Info => true,
            _ => false,
        }
    }

    /// Whether warnings are logged.
    pub fn is_warn_enabled(&self) -> (r: bool)
        ensures
            r == (*self == LogLevel::Info || *self == LogLevel::Warn),
    {
        match self {
            LogLevel::Info | LogLevel::Warn => true,
            _ => false,
        }
    }

    /// Whether errors are logged.
    pub fn is_error_enabled(&self) -> (r: bool)
        ensures
            r == (*self != LogLevel::Off),
    {
        match self {
            LogLevel::Off => false,
            _ => true,
        }
    }
}

proof fn lemma_decimal_range(p: u16)
    ensures
        range_of(decimal(p as nat)) == Some(seq![p]),
{
    let d = decimal(p as nat);
    lemma_decimal_parses(p);
    assert(!d.contains('-')) by {
        if d.contains('-') {
            let k = choose|k: int| 0 <= k < d.len() && d[k] == '-';
            assert(crate::text::is_digit(d[k]));
        }
    }
    assert(trim_start(d) == d) by {
        assert(crate::text::is_digit(d[0]));
    }
    assert(trim_end(d) == d) by {
        assert(crate::text::is_digit(d[d.len() - 1]));
    }
}

/// Options that took over a preset monitor exactly the preset's ports: the
/// decimal forms written into the port list read back as the ports.
pub proof fn lemma_preset_ports_round_trip(a: &Args, ps: Seq<u16>)
    requires
        a.ports is Some,
        views(a.ports->Some_0@) == decimals(ps),
    ensures
        ports_to_monitor(a) == ps,
{
    lemma_ports_from_decimals(ps);
}

proof fn lemma_ports_from_decimals(ps: Seq<u16>)
    ensures
        ports_from(decimals(ps)) == ps,
    decreases ps.len(),
{
    if ps.len() > 0 {
        lemma_ports_from_decimals(ps.drop_last());
        assert(decimals(ps).drop_last() =~= decimals(ps.drop_last()));
        lemma_decimal_range(ps.last());
        assert(ps.drop_last().push(ps.last()) =~= ps);
        assert(ps.drop_last() + seq![ps.last()] =~= ps);
    } else {
        assert(decimals(ps) =~= Seq::<Seq<char>>::empty());
    }
}

} // verus!
