//! Start order of a service graph: a depth-first visit that marks each
//! service in progress, then completed, and fails on reaching a service that
//! is still in progress.

use vstd::prelude::*;
use crate::lexer::views;
use crate::service::{
    closed_set, cyclic, depends, depends_into, dependency_chain, deps_declared, deps_of, service_count, service_name, service_names,
    unique_names, OrchestrationConfig,
};

verus! {

/// Why a service graph has no start order.
pub enum ResolveError {
    /// `service` lists `dependency`, which no service is named.
    MissingDependency { service: String, dependency: String },
    /// The named service lies on a dependency cycle.
    CyclicDependency(String),
}

/// `order` starts every service exactly once and each one after all of its
/// declared dependencies.
pub open spec fn start_order(c: &OrchestrationConfig, order: Seq<Seq<char>>) -> bool {
    &&& order.no_duplicates()
    &&& forall|k: Seq<char>| order.contains(k) <==> service_names(c).contains(k)
    &&& forall|p: int, i: int, t: int|
        #![trigger order[p], deps_of(c, i)[t]]
        0 <= p < order.len() && 0 <= i < service_count(c) && service_name(c, i) == order[p] && 0
            <= t < deps_of(c, i).len() ==> order.subrange(0, p).contains(deps_of(c, i)[t])
}

/// Outcome of resolution, in terms of the graph alone.
pub open spec fn resolve_outcome(
    c: &OrchestrationConfig,
    r: Result<Vec<String>, ResolveError>,
) -> bool {
    match r {
        Ok(order) => deps_declared(c) && !cyclic(c) && start_order(c, views(order@)),
        Err(ResolveError::MissingDependency { service, dependency }) => {
            &&& !deps_declared(c)
            &&& exists|i: int|
                0 <= i < service_count(c) && service_name(c, i) == service@ && deps_of(
                    c,
                    i,
                ).contains(dependency@) && !service_names(c).contains(dependency@)
        },
        Err(ResolveError::CyclicDependency(name)) => {
            &&& deps_declared(c)
            &&& cyclic(c)
            &&& service_names(c).contains(name@)
            &&& exists|path: Seq<int>|
                #[trigger] dependency_chain(c, path) && 0 <= path[0] < service_count(c)
                    && path.last() == path[0] && service_name(c, path[0]) == name@
        },
    }
}

// The graph by index: `g[i]` lists the indices of service `i`'s dependencies.
#[verifier::opaque]
spec fn index_graph_of(c: &OrchestrationConfig, g: Seq<Vec<usize>>) -> bool {
    &&& g.len() == service_count(c)
    &&& g.len() <= usize::MAX
    &&& forall|i: int|
        0 <= i < g.len() ==> (#[trigger] g[i])@.len() == deps_of(c, i).len()
    &&& forall|i: int, t: int|
        0 <= i < g.len() && 0 <= t < g[i]@.len() ==> (#[trigger] g[i]@[t]) < g.len()
            && service_name(c, g[i]@[t] as int) == deps_of(c, i)[t]
}

spec fn graph_closed(g: Seq<Vec<usize>>) -> bool {
    forall|i: int, t: int|
        0 <= i < g.len() && 0 <= t < g[i]@.len() ==> (#[trigger] g[i]@[t]) < g.len()
}

spec fn idx_closed(g: Seq<Vec<usize>>, s: Set<int>) -> bool {
    &&& exists|x: int| s.contains(x)
    &&& forall|x: int| #[trigger] s.contains(x) ==> 0 <= x < g.len() && idx_into(g, s, x)
}

#[verifier::opaque]
spec fn idx_into(g: Seq<Vec<usize>>, s: Set<int>, x: int) -> bool {
    exists|y: int| s.contains(y) && g[x]@.contains(y as usize)
}

proof fn lemma_index_basics(c: &OrchestrationConfig, g: Seq<Vec<usize>>)
    requires
        index_graph_of(c, g),
    ensures
        g.len() == service_count(c),
        g.len() <= usize::MAX,
        graph_closed(g),
{
    reveal(index_graph_of);
}

spec fn idx_cyclic(g: Seq<Vec<usize>>) -> bool {
    exists|s: Set<int>| #[trigger] idx_closed(g, s)
}

spec fn count_new(m: Seq<u8>) -> nat
    decreases m.len(),
{
    if m.len() == 0 {
        0
    } else {
        count_new(m.drop_last()) + if m.last() == 0 {
            1nat
        } else {
            0nat
        }
    }
}

proof fn lemma_count_update(m: Seq<u8>, k: int, x: u8)
    requires
        0 <= k < m.len(),
    ensures
        count_new(m.update(k, x)) + (if m[k] == 0 { 1nat } else { 0nat }) == count_new(m) + (
        if x == 0 {
            1nat
        } else {
            0nat
        }),
    decreases m.len(),
{
    let m2 = m.update(k, x);
    if k == m.len() - 1 {
        assert(m2.drop_last() =~= m.drop_last());
    } else {
        lemma_count_update(m.drop_last(), k, x);
        assert(m2.drop_last() =~= m.drop_last().update(k, x));
    }
}

spec fn order_ok(g: Seq<Vec<usize>>, marks: Seq<u8>, order: Seq<usize>) -> bool {
    &&& forall|k: int| 0 <= k < marks.len() ==> #[trigger] marks[k] <= 2
    &&& order.no_duplicates()
    &&& forall|p: int|
        0 <= p < order.len() ==> (#[trigger] order[p]) < marks.len() && marks[order[p] as int]
            == 2
    &&& forall|k: int| 0 <= k < marks.len() && #[trigger] marks[k] == 2 ==> order.contains(k as usize)
    &&& forall|p: int, t: int|
        0 <= p < order.len() && 0 <= t < g[order[p] as int]@.len() ==> order.subrange(
            0,
            p,
        ).contains(#[trigger] g[order[p] as int]@[t])
}

spec fn stack_ok(g: Seq<Vec<usize>>, marks: Seq<u8>, path: Seq<int>) -> bool {
    &&& forall|k: int| 0 <= k < marks.len() ==> (#[trigger] marks[k] == 1 <==> path.contains(k))
    &&& forall|m: int| 0 <= m < path.len() ==> 0 <= #[trigger] path[m] < marks.len()
    &&& forall|m: int|
        0 <= m < path.len() - 1 ==> g[#[trigger] path[m]]@.contains(path[m + 1] as usize)
}

// `path` follows dependencies by index, within the graph.
spec fn idx_chain(g: Seq<Vec<usize>>, path: Seq<int>) -> bool {
    &&& path.len() >= 2
    &&& forall|m: int| 0 <= m < path.len() ==> 0 <= #[trigger] path[m] < g.len()
    &&& forall|m: int|
        0 <= m < path.len() - 1 ==> g[#[trigger] path[m]]@.contains(path[m + 1] as usize)
}

// A dependency chain leads from `v` back to `v`.
spec fn idx_cycle_at(g: Seq<Vec<usize>>, v: int) -> bool {
    exists|path: Seq<int>| #[trigger] idx_chain(g, path) && path[0] == v && path.last() == v
}

proof fn lemma_cycle_witness(g: Seq<Vec<usize>>, path: Seq<int>, j: int, v: usize)
    requires
        0 <= j < path.len(),
        path[j] == v,
        forall|m: int| 0 <= m < path.len() ==> 0 <= #[trigger] path[m] < g.len(),
        forall|m: int|
            0 <= m < path.len() - 1 ==> g[#[trigger] path[m]]@.contains(path[m + 1] as usize),
        g[path.last()]@.contains(v),
    ensures
        idx_cyclic(g),
        idx_cycle_at(g, v as int),
{
    let chain = path.subrange(j, path.len() as int).push(v as int);
    assert forall|m: int| 0 <= m < chain.len() implies 0 <= #[trigger] chain[m] < g.len() by {
        if m < chain.len() - 1 {
            assert(chain[m] == path[j + m]);
        }
    }
    assert forall|m: int| 0 <= m < chain.len() - 1 implies g[#[trigger] chain[m]]@.contains(
        chain[m + 1] as usize,
    ) by {
        assert(chain[m] == path[j + m]);
        if m < chain.len() - 2 {
            assert(chain[m + 1] == path[j + m + 1]);
        } else {
            assert(chain[m + 1] == v);
        }
    }
    assert(idx_chain(g, chain));
    let s = Set::new(|x: int| exists|m: int| j <= m < path.len() && path[m] == x);
    assert(s.contains(path[j]));
    assert forall|x: int| #[trigger] s.contains(x) implies 0 <= x < g.len() && idx_into(g, s, x) by {
        reveal(idx_into);
        let m = choose|m: int| j <= m < path.len() && path[m] == x;
        if m < path.len() - 1 {
            assert(s.contains(path[m + 1]));
        } else {
            assert(s.contains(path[j]));
        }
    }
    assert(idx_closed(g, s));
}

fn visit(
    g: &Vec<Vec<usize>>,
    u: usize,
    marks: &mut Vec<u8>,
    order: &mut Vec<usize>,
    new_left: usize,
    Ghost(path): Ghost<Seq<int>>,
) -> (r: Result<usize, usize>)
    requires
        graph_closed(g@),
        old(marks)@.len() == g@.len(),
        u < g@.len(),
        old(marks)@[u as int] == 0,
        new_left == count_new(old(marks)@),
        stack_ok(g@, old(marks)@, path),
        path.len() > 0 ==> g@[path.last()]@.contains(u),
        order_ok(g@, old(marks)@, old(order)@),
    ensures
        final(marks)@.len() == g@.len(),
        match r {
            Ok(c) => {
                &&& c == count_new(final(marks)@)
                &&& c < new_left
                &&& final(marks)@[u as int] == 2
                &&& forall|k: int|
                    0 <= k < g@.len() && old(marks)@[k] != 0 ==> #[trigger] final(marks)@[k]
                        == old(marks)@[k]
                &&& forall|k: int|
                    0 <= k < g@.len() ==> (#[trigger] final(marks)@[k] == 1 <==> old(marks)@[k]
                        == 1)
                &&& order_ok(g@, final(marks)@, final(order)@)
            },
            Err(v) => v < g@.len() && idx_cyclic(g@) && idx_cycle_at(g@, v as int),
        },
    decreases new_left,
{
    proof {
        lemma_count_update(marks@, u as int, 1);
    }
    marks.set(u, 1);
    let mut cur: usize = new_left - 1;
    let ghost path2 = path.push(u as int);
    let ghost marks0 = old(marks)@;
    proof {
        assert forall|m: int| 0 <= m < path2.len() - 1 implies g@[#[trigger] path2[m]]@.contains(
            path2[m + 1] as usize,
        ) by {
            if m < path.len() - 1 {
                assert(path2[m] == path[m] && path2[m + 1] == path[m + 1]);
            } else {
                assert(path2[m] == path.last() && path2[m + 1] == u);
            }
        }
        assert forall|k: int| 0 <= k < marks@.len() implies (#[trigger] marks@[k] == 1
            <==> path2.contains(k)) by {
            if k == u {
                assert(path2[path.len() as int] == u);
            } else {
                if path2.contains(k) {
                    let m = choose|m: int| 0 <= m < path2.len() && path2[m] == k;
                    assert(path[m] == k);
                }
                if path.contains(k) {
                    let m = choose|m: int| 0 <= m < path.len() && path[m] == k;
                    assert(path2[m] == k);
                }
            }
        }
        assert forall|p: int| 0 <= p < order@.len() implies (#[trigger] order@[p]) < marks@.len()
            && marks@[order@[p] as int] == 2 by {
            assert(marks0[order@[p] as int] == 2);
        }
    }
    let deps = &g[u];
    let mut t: usize = 0;
    while t < deps.len()
        invariant
            graph_closed(g@),
            deps == g@[u as int],
            u < g@.len(),
            marks@.len() == g@.len(),
            marks@[u as int] == 1,
            cur == count_new(marks@),
            cur < new_left,
            forall|k: int|
                0 <= k < g@.len() && marks0[k] != 0 ==> #[trigger] marks@[k] == marks0[k],
            forall|k: int|
                0 <= k < g@.len() && k != u ==> (#[trigger] marks@[k] == 1 <==> marks0[k] == 1),
            marks0[u as int] == 0,
            path2 == path.push(u as int),
            stack_ok(g@, marks@, path2),
            order_ok(g@, marks@, order@),
            forall|t2: int| 0 <= t2 < t ==> marks@[#[trigger] deps@[t2] as int] == 2,
        decreases deps.len() - t,
    {
        let v = deps[t];
        let ghost marks_start = marks@;
        assert(v < g@.len()) by {
            assert(deps@[t as int] == g@[u as int]@[t as int]);
        }
        if marks[v] == 1 {
            proof {
                let j = choose|j: int| 0 <= j < path2.len() && path2[j] == v;
                assert(path2.last() == u);
                assert(deps@.contains(v)) by {
                    assert(deps@[t as int] == v);
                }
                lemma_cycle_witness(g@, path2, j, v);
            }
            return Err(v);
        }
        if marks[v] == 0 {
            proof {
                assert(path2.last() == u);
                assert(deps@[t as int] == v);
            }
            match visit(g, v, marks, order, cur, Ghost(path2)) {
                Ok(c) => {
                    cur = c;
                },
                Err(w) => {
                    return Err(w);
                },
            }
        }
        proof {
            assert forall|t2: int| 0 <= t2 < t + 1 implies marks@[#[trigger] deps@[t2] as int]
                == 2 by {
                assert(deps@[t2] == g@[u as int]@[t2]);
                let d = deps@[t2] as int;
                assert(0 <= d < g@.len());
                if t2 < t {
                    assert(marks_start[d] == 2);
                    assert(marks@[d] == 2);
                } else {
                    assert(deps@[t2] == v);
                    assert(marks@[d] == 2);
                }
            }
        }
        t = t + 1;
    }
    proof {
        lemma_count_update(marks@, u as int, 2);
    }
    let ghost order_before = order@;
    let ghost marks_before = marks@;
    marks.set(u, 2);
    order.push(u);
    proof {
        assert(!order_before.contains(u)) by {
            if order_before.contains(u) {
                let p = choose|p: int| 0 <= p < order_before.len() && order_before[p] == u;
                assert(marks_before[order_before[p] as int] == 2);
            }
        }
        assert forall|p: int| 0 <= p < order@.len() implies (#[trigger] order@[p]) < marks@.len()
            && marks@[order@[p] as int] == 2 by {
            if p < order_before.len() {
                assert(order@[p] == order_before[p]);
                assert(marks_before[order_before[p] as int] == 2);
            }
        }
        assert forall|k: int| 0 <= k < marks@.len() && #[trigger] marks@[k] == 2 implies order@.contains(
            k as usize,
        ) by {
            if k == u {
                assert(order@[order_before.len() as int] == u);
            } else {
                assert(marks_before[k] == 2);
                let p = choose|p: int| 0 <= p < order_before.len() && order_before[p] == k as usize;
                assert(order@[p] == k as usize);
            }
        }
        assert forall|p: int, t2: int|
            0 <= p < order@.len() && 0 <= t2 < g@[order@[p] as int]@.len() implies order@.subrange(
            0,
            p,
        ).contains(#[trigger] g@[order@[p] as int]@[t2]) by {
            if p < order_before.len() {
                assert(order@.subrange(0, p) =~= order_before.subrange(0, p));
                assert(order@[p] == order_before[p]);
            } else {
                assert(order@.subrange(0, p) =~= order_before);
                let d = deps@[t2 as int];
                assert(marks_before[d as int] == 2);
                assert(order_before.contains(d));
            }
        }
        assert(order@.no_duplicates()) by {
            assert forall|a: int, b: int|
                0 <= a < order@.len() && 0 <= b < order@.len() && a != b implies order@[a]
                != order@[b] by {
                if a < order_before.len() && b < order_before.len() {
                } else if a < order_before.len() {
                    assert(order_before[a] != u);
                } else if b < order_before.len() {
                    assert(order_before[b] != u);
                }
            }
        }
        assert forall|k: int| 0 <= k < marks@.len() implies (#[trigger] marks@[k] == 1
            <==> path.contains(k)) by {
            if k != u {
                if path.contains(k) {
                    let m = choose|m: int| 0 <= m < path.len() && path[m] == k;
                    assert(path2[m] == k);
                }
                if path2.contains(k) {
                    let m = choose|m: int| 0 <= m < path2.len() && path2[m] == k;
                    if m == path.len() {
                        assert(path2[m] == u);
                    } else {
                        assert(path[m] == k);
                    }
                }
            } else {
                assert(marks0[k] == 0);
            }
        }
    }
    Ok(cur)
}


spec fn topo_order(g: Seq<Vec<usize>>, order: Seq<usize>) -> bool {
    &&& g.len() <= usize::MAX
    &&& order.no_duplicates()
    &&& forall|p: int| 0 <= p < order.len() ==> (#[trigger] order[p]) < g.len()
    &&& forall|k: int| 0 <= k < g.len() ==> #[trigger] order.contains(k as usize)
    &&& forall|p: int, t: int|
        0 <= p < order.len() && 0 <= t < g[order[p] as int]@.len() ==> order.subrange(
            0,
            p,
        ).contains(#[trigger] g[order[p] as int]@[t])
}

fn visit_all(g: &Vec<Vec<usize>>) -> (r: Result<Vec<usize>, usize>)
    requires
        graph_closed(g@),
    ensures
        match r {
            Ok(order) => topo_order(g@, order@),
            Err(v) => v < g@.len() && idx_cyclic(g@) && idx_cycle_at(g@, v as int),
        },
{
    let n = g.len();
    let mut marks: Vec<u8> = Vec::new();
    while marks.len() < n
        invariant
            marks@.len() <= n,
            count_new(marks@) == marks@.len(),
            forall|k: int| 0 <= k < marks@.len() ==> #[trigger] marks@[k] == 0,
        decreases n - marks@.len(),
    {
        proof {
            assert(marks@.push(0).drop_last() =~= marks@);
        }
        marks.push(0);
    }
    let mut order: Vec<usize> = Vec::new();
    let mut cur: usize = n;
    let mut r: usize = 0;
    while r < n
        invariant
            graph_closed(g@),
            n == g@.len(),
            marks@.len() == n,
            r <= n,
            cur == count_new(marks@),
            forall|k: int| 0 <= k < n ==> #[trigger] marks@[k] != 1,
            forall|k: int| 0 <= k < r ==> #[trigger] marks@[k] == 2,
            order_ok(g@, marks@, order@),
        decreases n - r,
    {
        if marks[r] == 0 {
            let ghost before = marks@;
            match visit(g, r, &mut marks, &mut order, cur, Ghost(Seq::empty())) {
                Ok(c) => {
                    cur = c;
                    proof {
                        assert forall|k: int| 0 <= k < r implies #[trigger] marks@[k] == 2 by {
                            assert(before[k] == 2);
                        }
                    }
                },
                Err(v) => {
                    return Err(v);
                },
            }
        }
        r = r + 1;
    }
    proof {
        assert forall|k: int| 0 <= k < g@.len() implies #[trigger] order@.contains(k as usize) by {
            assert(marks@[k] == 2);
        }
    }
    Ok(order)
}

/// Finds the index of the service called `name`.
pub fn find_service(c: &OrchestrationConfig, name: &String) -> (r: Option<usize>)
    ensures
        match r {
            Some(j) => j < service_count(c) && service_name(c, j as int) == name@
                && service_names(c).contains(name@),
            None => !service_names(c).contains(name@) && forall|i: int|
                0 <= i < service_count(c) ==> #[trigger] service_name(c, i) != name@,
        },
{
    let mut j: usize = 0;
    while j < c.services.len()
        invariant
            j <= c.services@.len(),
            forall|k: int| 0 <= k < j ==> service_name(c, k) != name@,
        decreases c.services@.len() - j,
    {
        if c.services[j].0 == *name {
            proof {
                assert(service_names(c)[j as int] == name@);
            }
            return Some(j);
        }
        j = j + 1;
    }
    proof {
        if service_names(c).contains(name@) {
            let k = choose|k: int| 0 <= k < service_names(c).len() && service_names(c)[k] == name@;
            assert(service_name(c, k) == name@);
        }
    }
    None
}

fn index_graph(c: &OrchestrationConfig) -> (r: Result<Vec<Vec<usize>>, ResolveError>)
    ensures
        match r {
            Ok(g) => index_graph_of(c, g@),
            Err(ResolveError::MissingDependency { service, dependency }) => exists|i: int|
                0 <= i < service_count(c) && service_name(c, i) == service@ && deps_of(
                    c,
                    i,
                ).contains(dependency@) && !service_names(c).contains(dependency@),
            Err(ResolveError::CyclicDependency(_)) => false,
        },
{
    let mut g: Vec<Vec<usize>> = Vec::new();
    let mut i: usize = 0;
    while i < c.services.len()
        invariant
            i <= c.services@.len(),
            g@.len() == i,
            forall|a: int| 0 <= a < i ==> (#[trigger] g@[a])@.len() == deps_of(c, a).len(),
            forall|a: int, t: int|
                0 <= a < i && 0 <= t < g@[a]@.len() ==> (#[trigger] g@[a]@[t]) < service_count(c)
                    && service_name(c, g@[a]@[t] as int) == deps_of(c, a)[t],
        decreases c.services@.len() - i,
    {
        let mut row: Vec<usize> = Vec::new();
        match &c.services[i].1.depends_on {
            None => {},
            Some(d) => {
                let mut t: usize = 0;
                while t < d.len()
                    invariant
                        c.services@[i as int].1.depends_on == Some(*d),
                        i < c.services@.len(),
                        t <= d@.len(),
                        row@.len() == t,
                        forall|t2: int|
                            0 <= t2 < t ==> (#[trigger] row@[t2]) < service_count(c) && service_name(
                                c,
                                row@[t2] as int,
                            ) == d@[t2]@,
                    decreases d@.len() - t,
                {
                    match find_service(c, &d[t]) {
                        Some(j) => {
                            row.push(j);
                        },
                        None => {
                            proof {
                                assert(deps_of(c, i as int)[t as int] == d@[t as int]@);
                                assert(deps_of(c, i as int).contains(d@[t as int]@));
                                assert(service_name(c, i as int) == c.services@[i as int].0@);
                            }
                            return Err(
                                ResolveError::MissingDependency {
                                    service: c.services[i].0.clone(),
                                    dependency: d[t].clone(),
                                },
                            );
                        },
                    }
                    t = t + 1;
                }
            },
        }
        g.push(row);
        proof {
            assert forall|a: int, t: int|
                0 <= a < i + 1 && 0 <= t < g@[a]@.len() implies (#[trigger] g@[a]@[t])
                < service_count(c) && service_name(c, g@[a]@[t] as int) == deps_of(c, a)[t] by {
                if a == i {
                    match c.services@[i as int].1.depends_on {
                        Some(d) => {
                            assert(deps_of(c, a)[t] == d@[t]@);
                        },
                        None => {},
                    }
                }
            }
        }
        i = i + 1;
    }
    proof {
        reveal(index_graph_of);
    }
    Ok(g)
}

proof fn lemma_depends_by_index(c: &OrchestrationConfig, g: Seq<Vec<usize>>, i: int, j: int)
    requires
        unique_names(c),
        index_graph_of(c, g),
        0 <= i < g.len(),
        0 <= j < g.len(),
    ensures
        depends(c, i, j) <==> g[i]@.contains(j as usize),
{
    reveal(index_graph_of);
    if depends(c, i, j) {
        let t = choose|t: int| 0 <= t < deps_of(c, i).len() && deps_of(c, i)[t] == service_name(c, j);
        assert(g[i]@[t] < g.len());
        assert(service_name(c, g[i]@[t] as int) == service_name(c, j));
        assert(g[i]@[t] == j);
    }
    if g[i]@.contains(j as usize) {
        let t = choose|t: int| 0 <= t < g[i]@.len() && g[i]@[t] == j as usize;
        assert(g[i]@[t] < g.len());
        assert(g[i]@[t] as int == j);
        assert(deps_of(c, i)[t] == service_name(c, j));
    }
}

proof fn lemma_chain_by_index(c: &OrchestrationConfig, g: Seq<Vec<usize>>, v: int)
    requires
        unique_names(c),
        index_graph_of(c, g),
        idx_cycle_at(g, v),
    ensures
        exists|path: Seq<int>|
            #[trigger] dependency_chain(c, path) && 0 <= path[0] < service_count(c) && path.last()
                == path[0] && path[0] == v,
{
    lemma_index_basics(c, g);
    let path = choose|path: Seq<int>| #[trigger] idx_chain(g, path) && path[0] == v && path.last() == v;
    assert forall|m: int| 0 <= m < path.len() - 1 implies depends(c, #[trigger] path[m], path[m + 1]) by {
        assert(0 <= path[m] < g.len());
        assert(0 <= path[m + 1] < g.len());
        lemma_depends_by_index(c, g, path[m], path[m + 1]);
    }
    assert(dependency_chain(c, path));
}

proof fn lemma_declared(c: &OrchestrationConfig, g: Seq<Vec<usize>>)
    requires
        index_graph_of(c, g),
    ensures
        deps_declared(c),
{
    reveal(index_graph_of);
    assert forall|i: int, t: int|
        0 <= i < service_count(c) && 0 <= t < deps_of(c, i).len() implies service_names(
        c,
    ).contains(#[trigger] deps_of(c, i)[t]) by {
        let j = g[i]@[t] as int;
        assert(service_names(c)[j] == service_name(c, j));
    }
}

proof fn lemma_closed_from_index(c: &OrchestrationConfig, g: Seq<Vec<usize>>, s: Set<int>)
    requires
        unique_names(c),
        index_graph_of(c, g),
        idx_closed(g, s),
    ensures
        closed_set(c, s),
{
    lemma_index_basics(c, g);
    assert forall|x: int| #[trigger] s.contains(x) implies 0 <= x < service_count(c) && depends_into(
        c,
        s,
        x,
    ) by {
        reveal(idx_into);
        reveal(depends_into);
        let y = choose|y: int| s.contains(y) && g[x]@.contains(y as usize);
        assert(0 <= y < g.len());
        lemma_depends_by_index(c, g, x, y);
    }
}

proof fn lemma_index_from_closed(c: &OrchestrationConfig, g: Seq<Vec<usize>>, s: Set<int>)
    requires
        unique_names(c),
        index_graph_of(c, g),
        closed_set(c, s),
    ensures
        idx_closed(g, s),
{
    lemma_index_basics(c, g);
    assert forall|x: int| #[trigger] s.contains(x) implies 0 <= x < g.len() && idx_into(g, s, x) by {
        reveal(idx_into);
        reveal(depends_into);
        let y = choose|y: int| s.contains(y) && depends(c, x, y);
        assert(0 <= y < g.len());
        lemma_depends_by_index(c, g, x, y);
    }
}

proof fn lemma_cyclic_by_index(c: &OrchestrationConfig, g: Seq<Vec<usize>>)
    requires
        unique_names(c),
        index_graph_of(c, g),
    ensures
        cyclic(c) <==> idx_cyclic(g),
{
    if idx_cyclic(g) {
        let s = choose|s: Set<int>| #[trigger] idx_closed(g, s);
        lemma_closed_from_index(c, g, s);
    }
    if cyclic(c) {
        let s = choose|s: Set<int>| #[trigger] closed_set(c, s);
        lemma_index_from_closed(c, g, s);
    }
}

proof fn lemma_prefix_not_closed(g: Seq<Vec<usize>>, order: Seq<usize>, s: Set<int>, p: int)
    requires
        topo_order(g, order),
        idx_closed(g, s),
        0 <= p < order.len(),
    ensures
        !s.contains(order[p] as int),
    decreases p,
{
    if s.contains(order[p] as int) {
        let x = order[p] as int;
        assert(0 <= x < g.len());
        assert(idx_into(g, s, x));
        assert(exists|y: int| s.contains(y) && g[x]@.contains(y as usize)) by {
            reveal(idx_into);
        }
        let y = choose|y: int| s.contains(y) && g[x]@.contains(y as usize);
        assert(0 <= y < g.len());
        let t = choose|t: int| 0 <= t < g[x]@.len() && g[x]@[t] == y as usize;
        assert(order.subrange(0, p).contains(g[x]@[t]));
        let q = choose|q: int| 0 <= q < p && order.subrange(0, p)[q] == y as usize;
        assert(order[q] == y as usize);
        assert(order[q] as int == y);
        lemma_prefix_not_closed(g, order, s, q);
    }
}

proof fn lemma_topo_acyclic(g: Seq<Vec<usize>>, order: Seq<usize>)
    requires
        topo_order(g, order),
    ensures
        !idx_cyclic(g),
{
    if idx_cyclic(g) {
        let s = choose|s: Set<int>| #[trigger] idx_closed(g, s);
        let x = choose|x: int| s.contains(x);
        assert(0 <= x < g.len());
        assert(order.contains(x as usize));
        let p = choose|p: int| 0 <= p < order.len() && order[p] == x as usize;
        assert(order[p] as int == x);
        lemma_prefix_not_closed(g, order, s, p);
    }
}

/// Computes a start order for the graph: every service comes after all the
/// services it depends on. Fails when a dependency names no service, or when
/// the visit reaches a service that is still in progress, which happens
/// exactly when the graph has a cycle; the error then names a service that
/// depends, through a chain, on itself. Undeclared dependencies are reported
/// first, before any cycle is looked for.
pub fn resolve(c: &OrchestrationConfig) -> (r: Result<Vec<String>, ResolveError>)
    requires
        unique_names(c),
    ensures
        resolve_outcome(c, r),
{
    let g = match index_graph(c) {
        Ok(g) => g,
        Err(e) => {
            proof {
                if deps_declared(c) {
                    match &e {
                        ResolveError::MissingDependency { service, dependency } => {
                            let i = choose|i: int|
                                0 <= i < service_count(c) && service_name(c, i) == service@
                                    && deps_of(c, i).contains(dependency@) && !service_names(
                                    c,
                                ).contains(dependency@);
                            let t = choose|t: int|
                                0 <= t < deps_of(c, i).len() && deps_of(c, i)[t] == dependency@;
                            assert(service_names(c).contains(deps_of(c, i)[t]));
                        },
                        _ => {},
                    }
                }
            }
            return Err(e);
        },
    };
    proof {
        lemma_index_basics(c, g@);
        lemma_declared(c, g@);
        lemma_cyclic_by_index(c, g@);
    }
    match visit_all(&g) {
        Err(v) => {
            proof {
                assert(service_names(c)[v as int] == service_name(c, v as int));
                lemma_chain_by_index(c, g@, v as int);
            }
            Err(ResolveError::CyclicDependency(c.services[v].0.clone()))
        },
        Ok(order) => {
            proof {
                lemma_topo_acyclic(g@, order@);
            }
            let mut names: Vec<String> = Vec::new();
            let mut p: usize = 0;
            while p < order.len()
                invariant
                    topo_order(g@, order@),
                    g@.len() == c.services@.len(),
                    index_graph_of(c, g@),
                    p <= order@.len(),
                    names@.len() == p,
                    forall|q: int|
                        0 <= q < p ==> (#[trigger] names@[q])@ == service_name(c, order@[q] as int),
                decreases order@.len() - p,
            {
                names.push(c.services[order[p]].0.clone());
                p = p + 1;
            }
            proof {
                lemma_names_order(c, g@, order@, views(names@));
            }
            Ok(names)
        },
    }
}

proof fn lemma_names_order(
    c: &OrchestrationConfig,
    g: Seq<Vec<usize>>,
    order: Seq<usize>,
    names: Seq<Seq<char>>,
)
    requires
        unique_names(c),
        index_graph_of(c, g),
        topo_order(g, order),
        names.len() == order.len(),
        forall|q: int| 0 <= q < order.len() ==> #[trigger] names[q] == service_name(c, order[q] as int),
    ensures
        start_order(c, names),
{
    reveal(index_graph_of);
    assert forall|a: int, b: int|
        0 <= a < names.len() && 0 <= b < names.len() && a != b implies names[a] != names[b] by {
        assert(order[a] != order[b]);
    }
    assert forall|k: Seq<char>| names.contains(k) <==> service_names(c).contains(k) by {
        if names.contains(k) {
            let q = choose|q: int| 0 <= q < names.len() && names[q] == k;
            assert(service_names(c)[order[q] as int] == k);
        }
        if service_names(c).contains(k) {
            let j = choose|j: int| 0 <= j < service_names(c).len() && service_names(c)[j] == k;
            assert(order.contains(j as usize));
            assert(0 <= j < g.len());
            assert(order.contains(j as usize));
            let q = choose|q: int| 0 <= q < order.len() && order[q] == j as usize;
            assert(order[q] as int == j);
            assert(names[q] == k);
        }
    }
    assert forall|p: int, i: int, t: int|
        #![trigger names[p], deps_of(c, i)[t]]
        0 <= p < names.len() && 0 <= i < service_count(c) && service_name(c, i) == names[p] && 0
            <= t < deps_of(c, i).len() implies names.subrange(0, p).contains(deps_of(c, i)[t]) by {
        assert(order[p] < g.len());
        assert(i == order[p] as int);
        assert(g[i]@[t] < g.len());
        assert(order.subrange(0, p).contains(g[i]@[t]));
        let q = choose|q: int| 0 <= q < p && order.subrange(0, p)[q] == g[i]@[t];
        assert(names.subrange(0, p)[q] == names[q]);
        assert(names[q] == service_name(c, g[i]@[t] as int));
    }
}

/// In a start order, every service comes after each service it depends on,
/// directly or through any chain of dependencies.
pub proof fn lemma_start_order_transitive(
    c: &OrchestrationConfig,
    order: Seq<Seq<char>>,
    path: Seq<int>,
    p: int,
)
    requires
        start_order(c, order),
        dependency_chain(c, path),
        0 <= path[0] < service_count(c),
        0 <= p < order.len(),
        order[p] == service_name(c, path[0]),
    ensures
        order.subrange(0, p).contains(service_name(c, path.last())),
    decreases path.len(),
{
    let i = path[0];
    let k = path[1];
    assert(depends(c, i, k));
    assert(deps_of(c, i).contains(service_name(c, k)));
    let t = choose|t: int| 0 <= t < deps_of(c, i).len() && deps_of(c, i)[t] == service_name(c, k);
    assert(order.subrange(0, p).contains(deps_of(c, i)[t]));
    if path.len() > 2 {
        let q = choose|q: int| 0 <= q < p && order.subrange(0, p)[q] == service_name(c, k);
        assert(order[q] == service_name(c, k));
        let rest = path.drop_first();
        assert forall|m: int| 0 <= m < rest.len() - 1 implies depends(
            c,
            #[trigger] rest[m],
            rest[m + 1],
        ) by {
            assert(rest[m] == path[m + 1] && rest[m + 1] == path[m + 2]);
        }
        lemma_start_order_transitive(c, order, rest, q);
        assert(rest.last() == path.last());
        let w = choose|w: int| 0 <= w < q && order.subrange(0, q)[w] == service_name(c, path.last());
        assert(order.subrange(0, p)[w] == service_name(c, path.last()));
    }
}

/// Resolution of a graph whose dependencies are all declared succeeds
/// exactly when the graph has no cycle, and otherwise reports a cycle.
pub proof fn lemma_resolve_cycle_iff(c: &OrchestrationConfig, r: Result<Vec<String>, ResolveError>)
    requires
        resolve_outcome(c, r),
        deps_declared(c),
    ensures
        r is Ok <==> !cyclic(c),
        cyclic(c) ==> r is Err && r->Err_0 is CyclicDependency,
{
}

/// `plan` lists, in a safe start order, the services that must be spawned so
/// that `target` runs: `target` itself unless it runs already, and every
/// service it needs, directly or through others, that does not run yet.
pub open spec fn start_plan(
    c: &OrchestrationConfig,
    running: Seq<Seq<char>>,
    target: Seq<char>,
    plan: Seq<Seq<char>>,
) -> bool {
    &&& plan.no_duplicates()
    &&& forall|q: int|
        0 <= q < plan.len() ==> service_names(c).contains(#[trigger] plan[q]) && !running.contains(
            plan[q],
        )
    &&& plan.contains(target) <==> !running.contains(target)
    &&& forall|p: int, i: int, t: int|
        #![trigger plan[p], deps_of(c, i)[t]]
        0 <= p < plan.len() && 0 <= i < service_count(c) && service_name(c, i) == plan[p] && 0
            <= t < deps_of(c, i).len() ==> running.contains(deps_of(c, i)[t]) || plan.subrange(
            0,
            p,
        ).contains(deps_of(c, i)[t])
    &&& forall|q: int|
        0 <= q < plan.len() && #[trigger] plan[q] != target ==> exists|r: int, i: int|
            0 <= r < plan.len() && 0 <= i < service_count(c) && plan[r] == service_name(c, i)
                && deps_of(c, i).contains(plan[q])
}

spec fn needed_ok(
    g: Seq<Vec<usize>>,
    order: Seq<usize>,
    run: Seq<bool>,
    needed: Seq<bool>,
    target: int,
    p: int,
) -> bool {
    &&& needed.len() == g.len()
    &&& forall|x: int| 0 <= x < g.len() && #[trigger] needed[x] ==> !run[x]
    &&& needed[target] == !run[target]
    &&& forall|x: int|
        0 <= x < g.len() && #[trigger] needed[x] && x != target ==> exists|y: int|
            0 <= y < g.len() && needed[y] && g[y]@.contains(x as usize)
    &&& forall|q: int, t: int|
        p <= q < order.len() && needed[order[q] as int] && 0 <= t < g[order[q] as int]@.len()
            ==> run[#[trigger] g[order[q] as int]@[t] as int] || needed[g[order[q] as int]@[t] as int]
}

proof fn lemma_dep_position(g: Seq<Vec<usize>>, order: Seq<usize>, q: int, t: int)
    requires
        topo_order(g, order),
        0 <= q < order.len(),
        0 <= t < g[order[q] as int]@.len(),
    ensures
        exists|w: int| 0 <= w < q && order[w] == g[order[q] as int]@[t],
{
    assert(order.subrange(0, q).contains(g[order[q] as int]@[t]));
    let w = choose|w: int| 0 <= w < q && order.subrange(0, q)[w] == g[order[q] as int]@[t];
    assert(order[w] == g[order[q] as int]@[t]);
}

/// Computes which services to spawn, and in which order, so that the service
/// called `target` runs, given the names of the services running already.
pub fn plan_start(c: &OrchestrationConfig, running: &Vec<String>, target: usize) -> (r: Result<
    Vec<String>,
    ResolveError,
>)
    requires
        unique_names(c),
        target < c.services@.len(),
    ensures
        match r {
            Ok(plan) => deps_declared(c) && !cyclic(c) && start_plan(
                c,
                views(running@),
                service_name(c, target as int),
                views(plan@),
            ),
            Err(e) => resolve_outcome(c, Err(e)),
        },
{
    let g = match index_graph(c) {
        Ok(g) => g,
        Err(e) => {
            proof {
                match &e {
                    ResolveError::MissingDependency { service, dependency } => {
                        if deps_declared(c) {
                            let i = choose|i: int|
                                0 <= i < service_count(c) && service_name(c, i) == service@
                                    && deps_of(c, i).contains(dependency@) && !service_names(
                                    c,
                                ).contains(dependency@);
                            let t = choose|t: int|
                                0 <= t < deps_of(c, i).len() && deps_of(c, i)[t] == dependency@;
                            assert(service_names(c).contains(deps_of(c, i)[t]));
                        }
                    },
                    _ => {},
                }
            }
            return Err(e);
        },
    };
    proof {
        lemma_index_basics(c, g@);
        lemma_declared(c, g@);
        lemma_cyclic_by_index(c, g@);
    }
    let order = match visit_all(&g) {
        Ok(order) => order,
        Err(v) => {
            proof {
                assert(service_names(c)[v as int] == service_name(c, v as int));
                lemma_chain_by_index(c, g@, v as int);
            }
            return Err(ResolveError::CyclicDependency(c.services[v].0.clone()));
        },
    };
    proof {
        lemma_topo_acyclic(g@, order@);
    }
    let n = c.services.len();
    // Which services run already.
    let mut run: Vec<bool> = Vec::new();
    while run.len() < n
        invariant
            run@.len() <= n,
            n == c.services@.len(),
            forall|x: int| 0 <= x < run@.len() ==> #[trigger] run@[x] == views(running@).contains(
                service_name(c, x),
            ),
        decreases n - run@.len(),
    {
        let x = run.len();
        let mut found = false;
        let mut k: usize = 0;
        while k < running.len()
            invariant
                x < n,
                n == c.services@.len(),
                k <= running@.len(),
                found == exists|w: int| 0 <= w < k && running@[w]@ == service_name(c, x as int),
            decreases running@.len() - k,
        {
            if running[k] == c.services[x].0 {
                found = true;
            }
            k = k + 1;
        }
        proof {
            if found {
                let w = choose|w: int| 0 <= w < k && running@[w]@ == service_name(c, x as int);
                assert(views(running@)[w] == service_name(c, x as int));
            }
            if views(running@).contains(service_name(c, x as int)) {
                let w = choose|w: int|
                    0 <= w < views(running@).len() && views(running@)[w] == service_name(c, x as int);
                assert(running@[w]@ == service_name(c, x as int));
            }
        }
        run.push(found);
    }
    // Mark what is needed, from the target down, in reverse start order.
    let mut needed: Vec<bool> = Vec::new();
    while needed.len() < n
        invariant
            needed@.len() <= n,
            forall|x: int| 0 <= x < needed@.len() ==> #[trigger] needed@[x] == false,
        decreases n - needed@.len(),
    {
        needed.push(false);
    }
    if !run[target] {
        needed.set(target, true);
    }
    proof {
        assert forall|x: int| 0 <= x < g@.len() && #[trigger] needed@[x] implies x == target by {}
    }
    let mut p: usize = order.len();
    while p > 0
        invariant
            topo_order(g@, order@),
            g@.len() == n,
            run@.len() == n,
            p <= order@.len(),
            target < n,
            needed_ok(g@, order@, run@, needed@, target as int, p as int),
        decreases p,
    {
        p = p - 1;
        let u = order[p];
        if needed[u] {
            let deps = &g[u];
            let mut t: usize = 0;
            while t < deps.len()
                invariant
                    topo_order(g@, order@),
                    g@.len() == n,
                    run@.len() == n,
                    p < order@.len(),
                    u == order@[p as int],
                    deps == g@[u as int],
                    needed@[u as int],
                    t <= deps@.len(),
                    target < n,
                    needed_ok(g@, order@, run@, needed@, target as int, p as int + 1),
                    forall|t2: int|
                        0 <= t2 < t ==> run@[#[trigger] deps@[t2] as int] || needed@[deps@[t2] as int],
                decreases deps@.len() - t,
            {
                let d = deps[t];
                proof {
                    lemma_dep_position(g@, order@, p as int, t as int);
                }
                if !run[d] && !needed[d] {
                    let ghost before = needed@;
                    needed.set(d, true);
                    proof {
                        let w = choose|w: int| 0 <= w < p && order@[w] == g@[u as int]@[t as int];
                        assert(deps@.contains(d)) by {
                            assert(deps@[t as int] == d);
                        }
                        assert forall|x: int|
                            0 <= x < g@.len() && #[trigger] needed@[x] && x != target implies exists|
                            y: int,
                        | 0 <= y < g@.len() && needed@[y] && g@[y]@.contains(x as usize) by {
                            if x == d {
                                assert(needed@[u as int]);
                            } else {
                                let y = choose|y: int|
                                    0 <= y < g@.len() && before[y] && g@[y]@.contains(x as usize);
                                assert(needed@[y]);
                            }
                        }
                        assert forall|q: int, t3: int|
                            p + 1 <= q < order@.len() && needed@[order@[q] as int] && 0 <= t3
                                < g@[order@[q] as int]@.len() implies run@[#[trigger] g@[order@[
                            q] as int]@[t3] as int] || needed@[g@[order@[q] as int]@[t3] as int] by {
                            assert(order@[q] != d) by {
                                assert(order@[w] == d);
                            }
                            assert(before[order@[q] as int]);
                        }
                    }
                }
                t = t + 1;
            }
        }
    }
    // Collect the needed services in start order.
    let mut plan: Vec<usize> = Vec::new();
    let ghost mut pos: Seq<int> = Seq::empty();
    let mut w: usize = 0;
    while w < order.len()
        invariant
            topo_order(g@, order@),
            g@.len() == n,
            w <= order@.len(),
            needed_ok(g@, order@, run@, needed@, target as int, 0),
            plan@.len() == pos.len(),
            forall|a: int| 0 <= a < pos.len() ==> 0 <= #[trigger] pos[a] < w && plan@[a] == order@[pos[a]],
            forall|a: int, b: int| 0 <= a < b < pos.len() ==> #[trigger] pos[a] < #[trigger] pos[b],
            forall|a: int| 0 <= a < pos.len() ==> needed@[#[trigger] plan@[a] as int],
            forall|v: int| 0 <= v < w && #[trigger] needed@[order@[v] as int] ==> exists|a: int|
                0 <= a < pos.len() && pos[a] == v,
        decreases order@.len() - w,
    {
        let ghost pos0 = pos;
        if needed[order[w]] {
            plan.push(order[w]);
            proof {
                pos = pos.push(w as int);
            }
        }
        proof {
            assert forall|v: int| 0 <= v < w + 1 && #[trigger] needed@[order@[v] as int] implies exists|
                a: int,
            | 0 <= a < pos.len() && pos[a] == v by {
                if v < w {
                    let a = choose|a: int| 0 <= a < pos0.len() && pos0[a] == v;
                    assert(pos[a] == v);
                } else {
                    assert(pos[pos.len() - 1] == v);
                }
            }
        }
        w = w + 1;
    }
    proof {
        assert forall|b: int| 0 <= b < plan@.len() implies (#[trigger] plan@[b]) < g@.len() by {
            assert(plan@[b] == order@[pos[b]]);
        }
    }
    let mut names: Vec<String> = Vec::new();
    let mut a: usize = 0;
    while a < plan.len()
        invariant
            g@.len() == c.services@.len(),
            forall|b: int| 0 <= b < plan@.len() ==> (#[trigger] plan@[b]) < g@.len(),
            a <= plan@.len(),
            names@.len() == a,
            forall|b: int| 0 <= b < a ==> (#[trigger] names@[b])@ == service_name(c, plan@[b] as int),
        decreases plan@.len() - a,
    {
        names.push(c.services[plan[a]].0.clone());
        a = a + 1;
    }
    proof {
        lemma_plan_names(c, g@, order@, run@, needed@, target as int, plan@, pos, views(running@), views(names@));
    }
    Ok(names)
}

proof fn lemma_plan_names(
    c: &OrchestrationConfig,
    g: Seq<Vec<usize>>,
    order: Seq<usize>,
    run: Seq<bool>,
    needed: Seq<bool>,
    target: int,
    plan: Seq<usize>,
    pos: Seq<int>,
    running: Seq<Seq<char>>,
    names: Seq<Seq<char>>,
)
    requires
        unique_names(c),
        index_graph_of(c, g),
        topo_order(g, order),
        run.len() == g.len(),
        0 <= target < g.len(),
        needed_ok(g, order, run, needed, target, 0),
        forall|x: int| 0 <= x < run.len() ==> #[trigger] run[x] == running.contains(service_name(c, x)),
        plan.len() == pos.len(),
        forall|a: int| 0 <= a < pos.len() ==> 0 <= #[trigger] pos[a] < order.len() && plan[a] == order[pos[a]],
        forall|a: int, b: int| 0 <= a < b < pos.len() ==> #[trigger] pos[a] < #[trigger] pos[b],
        forall|a: int| 0 <= a < pos.len() ==> needed[#[trigger] plan[a] as int],
        forall|v: int| 0 <= v < order.len() && #[trigger] needed[order[v] as int] ==> exists|a: int|
            0 <= a < pos.len() && pos[a] == v,
        names.len() == plan.len(),
        forall|b: int| 0 <= b < plan.len() ==> #[trigger] names[b] == service_name(c, plan[b] as int),
    ensures
        start_plan(c, running, service_name(c, target), names),
{
    reveal(index_graph_of);
    let tn = service_name(c, target);
    assert forall|a: int, b: int|
        0 <= a < names.len() && 0 <= b < names.len() && a != b implies names[a] != names[b] by {
        if a < b {
            assert(pos[a] < pos[b]);
        } else {
            assert(pos[b] < pos[a]);
        }
        assert(order[pos[a]] != order[pos[b]]);
    }
    assert forall|q: int| 0 <= q < names.len() implies service_names(c).contains(#[trigger] names[q])
        && !running.contains(names[q]) by {
        assert(plan[q] == order[pos[q]]);
        assert(service_names(c)[plan[q] as int] == names[q]);
        assert(needed[plan[q] as int]);
    }
    if !running.contains(tn) {
        assert(needed[target]);
        assert(order.contains(target as usize));
        let v = choose|v: int| 0 <= v < order.len() && order[v] == target as usize;
        let a = choose|a: int| 0 <= a < pos.len() && pos[a] == v;
        assert(names[a] == tn);
    }
    if names.contains(tn) {
        let a = choose|a: int| 0 <= a < names.len() && names[a] == tn;
        assert(plan[a] == order[pos[a]]);
        assert(plan[a] as int == target);
        assert(needed[target]);
    }
    assert forall|p: int, i: int, t: int|
        #![trigger names[p], deps_of(c, i)[t]]
        0 <= p < names.len() && 0 <= i < service_count(c) && service_name(c, i) == names[p] && 0
            <= t < deps_of(c, i).len() implies running.contains(deps_of(c, i)[t]) || names.subrange(
        0,
        p,
    ).contains(deps_of(c, i)[t]) by {
        assert(plan[p] == order[pos[p]]);
        assert(i == plan[p] as int);
        let d = g[i]@[t];
        assert(run[d as int] || needed[d as int]);
        if !run[d as int] {
            lemma_dep_position(g, order, pos[p], t);
            let v = choose|v: int| 0 <= v < pos[p] && #[trigger] order[v] == g[order[pos[p]] as int]@[t];
            let a = choose|a: int| 0 <= a < pos.len() && pos[a] == v;
            if a >= p {
                if a > p {
                    assert(pos[p] < pos[a]);
                }
            }
            assert(a < p);
            assert(names.subrange(0, p)[a] == names[a]);
            assert(names[a] == service_name(c, d as int));
        }
    }
    assert forall|q: int|
        0 <= q < names.len() && #[trigger] names[q] != tn implies exists|r: int, i: int|
        0 <= r < names.len() && 0 <= i < service_count(c) && names[r] == service_name(c, i)
            && deps_of(c, i).contains(names[q]) by {
        let x = plan[q] as int;
        assert(plan[q] == order[pos[q]]);
        assert(needed[x]);
        assert(x != target);
        let y = choose|y: int| 0 <= y < g.len() && needed[y] && g[y]@.contains(x as usize);
        let t = choose|t: int| 0 <= t < g[y]@.len() && g[y]@[t] == x as usize;
        assert(deps_of(c, y)[t] == service_name(c, x));
        assert(order.contains(y as usize));
        let v = choose|v: int| 0 <= v < order.len() && order[v] == y as usize;
        let r = choose|r: int| 0 <= r < pos.len() && pos[r] == v;
        assert(names[r] == service_name(c, y));
    }
}

} // verus!
