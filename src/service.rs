//! Service declarations and their dependency graph.

use vstd::prelude::*;
use crate::lexer::views;

verus! {

/// One declared service.
pub struct ServiceConfig {
    /// Command line that starts the service.
    pub command: String,
    /// Port the service listens on.
    pub port: Option<u16>,
    /// Working directory; the configuration file's directory when absent.
    pub dir: Option<String>,
    /// Environment overrides, applied over the global environment.
    pub env: Option<Vec<(String, String)>>,
    /// Names of the services that must run before this one.
    pub depends_on: Option<Vec<String>>,
    /// Health-probe command.
    pub healthcheck: Option<String>,
    /// Seconds to wait after spawning before the service counts as started.
    pub startup_delay: Option<u64>,
}

/// A service graph: services keyed by name, in declaration order.
pub struct OrchestrationConfig {
    /// Version of the document format.
    pub version: Option<String>,
    /// The services, each under its (unique) name.
    pub services: Vec<(String, ServiceConfig)>,
    /// Environment applied to every service.
    pub env: Option<Vec<(String, String)>>,
}

pub open spec fn service_count(c: &OrchestrationConfig) -> int {
    c.services@.len() as int
}

pub open spec fn service_name(c: &OrchestrationConfig, i: int) -> Seq<char> {
    c.services@[i].0@
}

/// The names of all services, in declaration order.
pub open spec fn service_names(c: &OrchestrationConfig) -> Seq<Seq<char>> {
    c.services@.map_values(|s: (String, ServiceConfig)| s.0@)
}

pub open spec fn deps_of_config(s: &ServiceConfig) -> Seq<Seq<char>> {
    match s.depends_on {
        Some(d) => views(d@),
        None => Seq::empty(),
    }
}

/// Declared dependency names of service `i`.
pub open spec fn deps_of(c: &OrchestrationConfig, i: int) -> Seq<Seq<char>> {
    deps_of_config(&c.services@[i].1)
}

/// Service `i` directly depends on service `j`.
pub open spec fn depends(c: &OrchestrationConfig, i: int, j: int) -> bool {
    0 <= j < service_count(c) && deps_of(c, i).contains(service_name(c, j))
}

/// No two services share a name.
pub open spec fn unique_names(c: &OrchestrationConfig) -> bool {
    forall|i: int, j: int|
        0 <= i < service_count(c) && 0 <= j < service_count(c) && i != j ==> service_name(c, i)
            != service_name(c, j)
}

/// Every dependency names a declared service.
pub open spec fn deps_declared(c: &OrchestrationConfig) -> bool {
    forall|i: int, t: int|
        0 <= i < service_count(c) && 0 <= t < deps_of(c, i).len() ==> service_names(c).contains(
            #[trigger] deps_of(c, i)[t],
        )
}

/// The graph has a cycle: some nonempty set of services has every member
/// depending on a member of the same set (in a finite graph this is the
/// same as a closed dependency path).
pub open spec fn cyclic(c: &OrchestrationConfig) -> bool {
    exists|s: Set<int>| #[trigger] closed_set(c, s)
}

pub open spec fn closed_set(c: &OrchestrationConfig, s: Set<int>) -> bool {
    &&& exists|x: int| s.contains(x)
    &&& forall|x: int| #[trigger] s.contains(x) ==> 0 <= x < service_count(c) && depends_into(c, s, x)
}

/// Service `x` depends on some member of `s`.
#[verifier::opaque]
pub open spec fn depends_into(c: &OrchestrationConfig, s: Set<int>, x: int) -> bool {
    exists|y: int| s.contains(y) && depends(c, x, y)
}

/// `path` is a chain of direct dependencies: each service in it depends on
/// the next, so the first depends, transitively, on the last.
pub open spec fn dependency_chain(c: &OrchestrationConfig, path: Seq<int>) -> bool {
    &&& path.len() >= 2
    &&& forall|m: int| 0 <= m < path.len() - 1 ==> depends(c, #[trigger] path[m], path[m + 1])
}

} // verus!
