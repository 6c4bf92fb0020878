//! Port guard reconciliation: each poll cycle compares the processes bound
//! to the watched ports with the previous snapshot, reports what appeared,
//! changed or went away, and decides which newcomers to terminate.
//!
//! Only a first appearance on a port is held against its rule; a process
//! that replaces another without the port being seen free in between is
//! reported as a change and left alone.

use vstd::prelude::*;

verus! {

/// What a rule admits on its port.
pub enum GuardPolicy {
    /// Terminate any process that appears.
    KillAll,
    /// Terminate any process whose name differs from this one.
    AllowOnly(String),
}

/// A process seen bound to a port.
pub struct ObservedProcess {
    pub port: u16,
    pub pid: u32,
    pub name: String,
}

#[derive(Clone, Copy, PartialEq, Eq, Structural, Debug)]
pub enum EventKind {
    /// A process appeared on a port that was free at the previous poll.
    New,
    /// The port was taken at both polls, by another pid or name now.
    Changed,
    /// The port was taken at the previous poll and is free now.
    Removed,
}

/// One observation of a cycle; `terminate` is set on a newcomer that its
/// port's rule does not admit.
pub struct GuardEvent {
    pub kind: EventKind,
    pub port: u16,
    pub pid: u32,
    pub name: String,
    pub terminate: bool,
}

/// The reconciler: rules by port, the watched ports, and the snapshot of the
/// previous poll.
pub struct Reconciler {
    rules: Vec<(u16, GuardPolicy)>,
    watched: Vec<u16>,
    last: Vec<ObservedProcess>,
}

pub type EventView = (EventKind, u16, u32, Seq<char>, bool);

pub open spec fn event_view(e: GuardEvent) -> EventView {
    (e.kind, e.port, e.pid, e.name@, e.terminate)
}

pub open spec fn event_views(v: Seq<GuardEvent>) -> Seq<EventView> {
    v.map_values(|e: GuardEvent| event_view(e))
}

pub open spec fn obs_view(o: ObservedProcess) -> (u16, u32, Seq<char>) {
    (o.port, o.pid, o.name@)
}

pub open spec fn obs_views(v: Seq<ObservedProcess>) -> Seq<(u16, u32, Seq<char>)> {
    v.map_values(|o: ObservedProcess| obs_view(o))
}

pub open spec fn ports_of(v: Seq<(u16, u32, Seq<char>)>) -> Seq<u16> {
    v.map_values(|o: (u16, u32, Seq<char>)| o.0)
}

/// The rule on `port`, if any (the latest one added wins).
pub open spec fn rule_at(rules: Seq<(u16, GuardPolicy)>, port: u16) -> Option<GuardPolicy>
    decreases rules.len(),
{
    if rules.len() == 0 {
        None
    } else if rules.last().0 == port {
        Some(rules.last().1)
    } else {
        rule_at(rules.drop_last(), port)
    }
}

/// Whether a process called `name` that newly appears on `port` must be
/// terminated.
pub open spec fn rejects(rules: Seq<(u16, GuardPolicy)>, port: u16, name: Seq<char>) -> bool {
    match rule_at(rules, port) {
        None => false,
        Some(GuardPolicy::KillAll) => true,
        Some(GuardPolicy::AllowOnly(allowed)) => allowed@ != name,
    }
}

/// The entry for `port` in a snapshot, if any.
pub open spec fn entry_at(snap: Seq<(u16, u32, Seq<char>)>, port: u16) -> Option<(u16, u32, Seq<char>)>
    decreases snap.len(),
{
    if snap.len() == 0 {
        None
    } else if snap.last().0 == port {
        Some(snap.last())
    } else {
        entry_at(snap.drop_last(), port)
    }
}

/// Events for the processes of `census`, in census order.
pub open spec fn census_events(
    rules: Seq<(u16, GuardPolicy)>,
    watched: Seq<u16>,
    last: Seq<(u16, u32, Seq<char>)>,
    census: Seq<(u16, u32, Seq<char>)>,
) -> Seq<EventView>
    decreases census.len(),
{
    if census.len() == 0 {
        Seq::empty()
    } else {
        let prev = census_events(rules, watched, last, census.drop_last());
        let o = census.last();
        if !watched.contains(o.0) {
            prev
        } else {
            match entry_at(last, o.0) {
                None => prev.push((EventKind::New, o.0, o.1, o.2, rejects(rules, o.0, o.2))),
                Some(e) => if e.1 != o.1 || e.2 != o.2 {
                    prev.push((EventKind::Changed, o.0, o.1, o.2, false))
                } else {
                    prev
                },
            }
        }
    }
}

/// Events for the entries of the previous snapshot whose port is free now.
pub open spec fn removed_events(
    last: Seq<(u16, u32, Seq<char>)>,
    census: Seq<(u16, u32, Seq<char>)>,
) -> Seq<EventView>
    decreases last.len(),
{
    if last.len() == 0 {
        Seq::empty()
    } else {
        let prev = removed_events(last.drop_last(), census);
        let e = last.last();
        if ports_of(census).contains(e.0) {
            prev
        } else {
            prev.push((EventKind::Removed, e.0, e.1, e.2, false))
        }
    }
}

/// The new snapshot: the census restricted to the watched ports.
pub open spec fn next_snapshot(watched: Seq<u16>, census: Seq<(u16, u32, Seq<char>)>) -> Seq<
    (u16, u32, Seq<char>),
>
    decreases census.len(),
{
    if census.len() == 0 {
        Seq::empty()
    } else {
        let prev = next_snapshot(watched, census.drop_last());
        if watched.contains(census.last().0) {
            prev.push(census.last())
        } else {
            prev
        }
    }
}

fn copy_obs(o: &ObservedProcess) -> (r: ObservedProcess)
    ensures
        obs_view(r) == obs_view(*o),
{
    ObservedProcess { port: o.port, pid: o.pid, name: o.name.clone() }
}

fn copy_policy(p: &GuardPolicy) -> (r: GuardPolicy)
    ensures
        r == *p,
{
    match p {
        GuardPolicy::KillAll => GuardPolicy::KillAll,
        GuardPolicy::AllowOnly(n) => GuardPolicy::AllowOnly(n.clone()),
    }
}

fn contains_port(v: &Vec<u16>, port: u16) -> (r: bool)
    ensures
        r == v@.contains(port),
{
    let mut i: usize = 0;
    while i < v.len()
        invariant
            i <= v@.len(),
            forall|k: int| 0 <= k < i ==> v@[k] != port,
        decreases v@.len() - i,
    {
        if v[i] == port {
            proof {
                assert(v@[i as int] == port);
            }
            return true;
        }
        i = i + 1;
    }
    false
}

impl Reconciler {
    pub closed spec fn spec_rules(&self) -> Seq<(u16, GuardPolicy)> {
        self.rules@
    }

    pub closed spec fn spec_watched(&self) -> Seq<u16> {
        self.watched@
    }

    pub closed spec fn spec_last(&self) -> Seq<(u16, u32, Seq<char>)> {
        obs_views(self.last@)
    }

    /// A reconciler watching `ports`, with no rule and an empty snapshot.
    pub fn new(ports: Vec<u16>) -> (r: Self)
        ensures
            r.spec_watched() == ports@,
            r.spec_rules().len() == 0,
            r.spec_last().len() == 0,
    {
        let r = Reconciler { rules: Vec::new(), watched: ports, last: Vec::new() };
        assert(r.spec_last() =~= Seq::empty());
        r
    }

    /// Guards `port` with `policy`, replacing any rule it had, and watches
    /// it.
    pub fn add_rule(&mut self, port: u16, policy: GuardPolicy)
        ensures
            final(self).spec_rules() == old(self).spec_rules().push((port, policy)),
            final(self).spec_watched().contains(port),
            forall|p: u16| old(self).spec_watched().contains(p) ==> final(self).spec_watched().contains(p),
            forall|p: u16|
                final(self).spec_watched().contains(p) ==> p == port || old(self).spec_watched().contains(p),
            final(self).spec_last() == old(self).spec_last(),
    {
        self.rules.push((port, policy));
        if !contains_port(&self.watched, port) {
            self.watched.push(port);
            proof {
                assert(self.watched@[self.watched@.len() - 1] == port);
                assert forall|p: u16| old(self).spec_watched().contains(p) implies self.watched@.contains(p) by {
                    let k = choose|k: int| 0 <= k < old(self).watched@.len() && old(self).watched@[k] == p;
                    assert(self.watched@[k] == p);
                }
                assert forall|p: u16| self.watched@.contains(p) implies p == port || old(self).spec_watched().contains(p) by {
                    let k = choose|k: int| 0 <= k < self.watched@.len() && self.watched@[k] == p;
                    if k < old(self).watched@.len() {
                        assert(old(self).watched@[k] == p);
                    }
                }
            }
        }
    }

    /// Drops every rule on `port`; the port stays watched.
    pub fn remove_rule(&mut self, port: u16)
        ensures
            rule_at(final(self).spec_rules(), port) is None,
            forall|p: u16| p != port ==> rule_at(final(self).spec_rules(), p) == rule_at(old(self).spec_rules(), p),
            final(self).spec_watched() == old(self).spec_watched(),
            final(self).spec_last() == old(self).spec_last(),
    {
        let mut kept: Vec<(u16, GuardPolicy)> = Vec::new();
        let mut i: usize = 0;
        let ghost src = self.rules@;
        while i < self.rules.len()
            invariant
                src == self.rules@,
                i <= src.len(),
                rule_at(kept@, port) is None,
                forall|p: u16| p != port ==> rule_at(kept@, p) == rule_at(src.subrange(0, i as int), p),
            decreases src.len() - i,
        {
            let ghost before = kept@;
            proof {
                assert(src.subrange(0, i + 1).drop_last() =~= src.subrange(0, i as int));
            }
            if self.rules[i].0 == port {
                proof {
                    assert(kept@ == before);
                }
            } else {
                let entry = copy_policy(&self.rules[i].1);
                kept.push((self.rules[i].0, entry));
                proof {
                    assert(kept@.drop_last() =~= before);
                    assert(kept@.last() == src[i as int]);
                }
            }
            proof {
                let s1 = src.subrange(0, i + 1);
                assert(s1.last() == src[i as int]);
                assert(s1.drop_last() == src.subrange(0, i as int));
                assert forall|p: u16| p != port implies rule_at(kept@, p) == rule_at(s1, p) by {
                    assert(rule_at(before, p) == rule_at(src.subrange(0, i as int), p));
                    if src[i as int].0 != port {
                        assert(kept@.drop_last() == before);
                        assert(kept@.last() == src[i as int]);
                        if src[i as int].0 == p {
                        } else {
                            assert(rule_at(kept@, p) == rule_at(before, p));
                        }
                    } else {
                        assert(kept@ == before);
                    }
                }
                if kept@.len() > before.len() {
                    assert(kept@.drop_last() == before);
                    assert(rule_at(kept@, port) == rule_at(before, port));
                }
            }
            i = i + 1;
        }
        proof {
            assert(src.subrange(0, src.len() as int) =~= src);
        }
        self.rules = kept;
    }

    /// One poll cycle against `census`, the processes bound now (one per
    /// port): the events of the cycle, newcomers first in census order, then
    /// the ports found free; the snapshot becomes the census on the watched
    /// ports.
    pub fn reconcile(&mut self, census: &Vec<ObservedProcess>) -> (r: Vec<GuardEvent>)
        ensures
            event_views(r@) == census_events(
                old(self).spec_rules(),
                old(self).spec_watched(),
                old(self).spec_last(),
                obs_views(census@),
            ) + removed_events(old(self).spec_last(), obs_views(census@)),
            final(self).spec_last() == next_snapshot(old(self).spec_watched(), obs_views(census@)),
            final(self).spec_rules() == old(self).spec_rules(),
            final(self).spec_watched() == old(self).spec_watched(),
    {
        let mut events: Vec<GuardEvent> = Vec::new();
        let mut next: Vec<ObservedProcess> = Vec::new();
        let ghost cv = obs_views(census@);
        let ghost lv = obs_views(self.last@);
        let mut i: usize = 0;
        while i < census.len()
            invariant
                cv == obs_views(census@),
                lv == obs_views(self.last@),
                i <= census@.len(),
                event_views(events@) == census_events(self.rules@, self.watched@, lv, cv.subrange(0, i as int)),
                obs_views(next@) == next_snapshot(self.watched@, cv.subrange(0, i as int)),
            decreases census@.len() - i,
        {
            let o = &census[i];
            let ghost ev0 = events@;
            let ghost nx0 = next@;
            proof {
                assert(cv.subrange(0, i + 1).drop_last() =~= cv.subrange(0, i as int));
                assert(cv.subrange(0, i + 1).last() == obs_view(*o));
            }
            if contains_port(&self.watched, o.port) {
                match self.entry(o.port) {
                    None => {
                        let kill = self.rejects(o.port, &o.name);
                        events.push(GuardEvent { kind: EventKind::New, port: o.port, pid: o.pid, name: o.name.clone(), terminate: kill });
                    },
                    Some(k) => {
                        if self.last[k].pid != o.pid || self.last[k].name != o.name {
                            events.push(GuardEvent { kind: EventKind::Changed, port: o.port, pid: o.pid, name: o.name.clone(), terminate: false });
                        }
                    },
                }
                next.push(copy_obs(o));
                proof {
                    assert(obs_views(next@) =~= obs_views(nx0).push(obs_view(*o)));
                }
            }
            proof {
                assert(event_views(events@) =~= census_events(self.rules@, self.watched@, lv, cv.subrange(0, i + 1)));
            }
            i = i + 1;
        }
        proof {
            assert(cv.subrange(0, census@.len() as int) =~= cv);
        }
        let ghost mid = events@;
        let mut k: usize = 0;
        while k < self.last.len()
            invariant
                cv == obs_views(census@),
                lv == obs_views(self.last@),
                k <= self.last@.len(),
                events@.len() >= mid.len(),
                events@.subrange(0, mid.len() as int) == mid,
                event_views(events@.subrange(mid.len() as int, events@.len() as int)) == removed_events(lv.subrange(0, k as int), cv),
            decreases self.last@.len() - k,
        {
            let e = &self.last[k];
            let ghost ev0 = events@;
            proof {
                assert(lv.subrange(0, k + 1).drop_last() =~= lv.subrange(0, k as int));
                assert(lv.subrange(0, k + 1).last() == obs_view(*e));
            }
            if !Self::census_has(census, e.port) {
                events.push(GuardEvent { kind: EventKind::Removed, port: e.port, pid: e.pid, name: e.name.clone(), terminate: false });
                proof {
                    assert(events@.subrange(0, mid.len() as int) =~= ev0.subrange(0, mid.len() as int));
                    assert(events@.subrange(mid.len() as int, events@.len() as int) =~= ev0.subrange(mid.len() as int, ev0.len() as int).push(events@.last()));
                }
            }
            proof {
                assert(event_views(events@.subrange(mid.len() as int, events@.len() as int)) =~= removed_events(lv.subrange(0, k + 1), cv));
            }
            k = k + 1;
        }
        proof {
            assert(lv.subrange(0, self.last@.len() as int) =~= lv);
            assert(events@ =~= mid + events@.subrange(mid.len() as int, events@.len() as int));
            assert(event_views(events@) =~= event_views(mid) + event_views(events@.subrange(mid.len() as int, events@.len() as int)));
        }
        self.last = next;
        events
    }

    fn census_has(census: &Vec<ObservedProcess>, port: u16) -> (r: bool)
        ensures
            r == ports_of(obs_views(census@)).contains(port),
    {
        let mut i: usize = 0;
        while i < census.len()
            invariant
                i <= census@.len(),
                forall|k: int| 0 <= k < i ==> census@[k].port != port,
            decreases census@.len() - i,
        {
            if census[i].port == port {
                proof {
                    assert(ports_of(obs_views(census@))[i as int] == port);
                }
                return true;
            }
            i = i + 1;
        }
        proof {
            if ports_of(obs_views(census@)).contains(port) {
                let k = choose|k: int| 0 <= k < census@.len() && ports_of(obs_views(census@))[k] == port;
                assert(census@[k].port == port);
            }
        }
        false
    }

    fn entry(&self, port: u16) -> (r: Option<usize>)
        ensures
            match r {
                Some(k) => k < self.last@.len() && entry_at(obs_views(self.last@), port) == Some(obs_view(self.last@[k as int])),
                None => entry_at(obs_views(self.last@), port) is None,
            },
    {
        let mut k: usize = self.last.len();
        proof {
            assert(obs_views(self.last@).subrange(0, self.last@.len() as int) =~= obs_views(self.last@));
        }
        while k > 0
            invariant
                k <= self.last@.len(),
                entry_at(obs_views(self.last@), port) == entry_at(obs_views(self.last@).subrange(0, k as int), port),
            decreases k,
        {
            proof {
                assert(obs_views(self.last@).subrange(0, k as int).drop_last() =~= obs_views(self.last@).subrange(0, k - 1));
            }
            if self.last[k - 1].port == port {
                return Some(k - 1);
            }
            k = k - 1;
        }
        proof {
            assert(obs_views(self.last@).subrange(0, 0) =~= Seq::empty());
        }
        proof {
            assert(obs_views(self.last@).subrange(0, self.last@.len() as int) =~= obs_views(self.last@));
        }
        None
    }

    fn rejects(&self, port: u16, name: &String) -> (r: bool)
        ensures
            r == rejects(self.rules@, port, name@),
    {
        let mut k: usize = self.rules.len();
        proof {
            assert(self.rules@.subrange(0, self.rules@.len() as int) =~= self.rules@);
        }
        while k > 0
            invariant
                k <= self.rules@.len(),
                rule_at(self.rules@, port) == rule_at(self.rules@.subrange(0, k as int), port),
            decreases k,
        {
            proof {
                assert(self.rules@.subrange(0, k as int).drop_last() =~= self.rules@.subrange(0, k - 1));
            }
            if self.rules[k - 1].0 == port {
                return match &self.rules[k - 1].1 {
                    GuardPolicy::KillAll => true,
                    GuardPolicy::AllowOnly(allowed) => !(*allowed == *name),
                };
            }
            k = k - 1;
        }
        proof {
            assert(self.rules@.subrange(0, 0) =~= Seq::<(u16, GuardPolicy)>::empty());
        }
        false
    }
}

/// A process seen on a watched port that was free at the previous poll
/// yields a `New` event, flagged for termination exactly when the port's
/// rule rejects its name.
pub proof fn lemma_first_seen_event(
    rules: Seq<(u16, GuardPolicy)>,
    watched: Seq<u16>,
    last: Seq<(u16, u32, Seq<char>)>,
    census: Seq<(u16, u32, Seq<char>)>,
    k: int,
)
    requires
        0 <= k < census.len(),
        watched.contains(census[k].0),
        entry_at(last, census[k].0) is None,
    ensures
        census_events(rules, watched, last, census).contains(
            (EventKind::New, census[k].0, census[k].1, census[k].2, rejects(rules, census[k].0, census[k].2)),
        ),
    decreases census.len(),
{
    let ev = (EventKind::New, census[k].0, census[k].1, census[k].2, rejects(rules, census[k].0, census[k].2));
    let all = census_events(rules, watched, last, census);
    if k == census.len() - 1 {
        assert(all.last() == ev);
    } else {
        let c0 = census.drop_last();
        assert(c0[k] == census[k]);
        lemma_first_seen_event(rules, watched, last, c0, k);
        let prev = census_events(rules, watched, last, c0);
        let j = choose|j: int| 0 <= j < prev.len() && prev[j] == ev;
        assert(prev.len() <= all.len());
        assert(all[j] == ev);
    }
}

/// Under a kill-all rule, every process first seen on the port is
/// terminated, whatever its name.
pub proof fn lemma_kill_all_terminates(
    rules: Seq<(u16, GuardPolicy)>,
    watched: Seq<u16>,
    last: Seq<(u16, u32, Seq<char>)>,
    census: Seq<(u16, u32, Seq<char>)>,
    k: int,
)
    requires
        0 <= k < census.len(),
        watched.contains(census[k].0),
        entry_at(last, census[k].0) is None,
        rule_at(rules, census[k].0) == Some(GuardPolicy::KillAll),
    ensures
        census_events(rules, watched, last, census).contains(
            (EventKind::New, census[k].0, census[k].1, census[k].2, true),
        ),
{
    lemma_first_seen_event(rules, watched, last, census, k);
}

/// A cycle only terminates newcomers that their port's rule rejects; in
/// particular never a process named as its port's allowed one.
pub proof fn lemma_terminates_only_rejected(
    rules: Seq<(u16, GuardPolicy)>,
    watched: Seq<u16>,
    last: Seq<(u16, u32, Seq<char>)>,
    census: Seq<(u16, u32, Seq<char>)>,
    j: int,
)
    requires
        0 <= j < census_events(rules, watched, last, census).len(),
        census_events(rules, watched, last, census)[j].4,
    ensures
        census_events(rules, watched, last, census)[j].0 == EventKind::New,
        rejects(
            rules,
            census_events(rules, watched, last, census)[j].1,
            census_events(rules, watched, last, census)[j].3,
        ),
    decreases census.len(),
{
    let prev = census_events(rules, watched, last, census.drop_last());
    if j < prev.len() {
        lemma_terminates_only_rejected(rules, watched, last, census.drop_last(), j);
    }
}

} // verus!
