//! The reconciliation engine: the state that maps programs to bandwidth classes and
//! directional ports to installed filters, advanced by control messages and by
//! polling cycles over the live connections. It decides; the caller performs the
//! traffic-control work it asks for and reports back.
use vstd::prelude::*;

use crate::ipc::{copy_opt, LimitConfig, Message};
use crate::scan::ProcessConnections;
use crate::tc::QDisc;

verus! {

/// A local port together with the direction of the traffic it carries.
#[derive(PartialEq, Eq, Structural, Clone, Copy, Debug)]
pub enum DirPort {
    /// Incoming traffic, matched on the destination port.
    Ingress(usize),
    /// Outgoing traffic, matched on the source port.
    Egress(usize),
}

#[derive(PartialEq, Eq, Structural, Clone, Copy, Debug)]
pub enum Phase {
    AwaitingInterface,
    Active,
    Stopped,
}

/// The classes assigned to one program; `None` leaves its traffic on the default class.
#[derive(Debug)]
pub struct ProgramClasses {
    pub name: String,
    pub ingress: Option<usize>,
    pub egress: Option<usize>,
}

/// An installed filter and the port it steers.
#[derive(Debug)]
pub struct FilterEntry {
    pub port: DirPort,
    pub filter_id: String,
}

/// A filter to install: traffic on `port` goes to class `class_id`.
#[derive(PartialEq, Eq, Structural, Clone, Copy, Debug)]
pub struct PendingFilter {
    pub port: DirPort,
    pub class_id: usize,
}

/// What one polling cycle asks for.
#[derive(Debug)]
pub struct CyclePlan {
    /// Programs seen for the first time, to be announced.
    pub notify: Vec<String>,
    /// Filters to install.
    pub add: Vec<PendingFilter>,
    /// Installed filters whose port is no longer in use, to be removed.
    pub remove: Vec<FilterEntry>,
    /// Installed filters that stay.
    pub kept: Vec<FilterEntry>,
}

/// A class to add for a program under one direction's root.
#[derive(Debug)]
pub struct ClassRequest {
    pub qdisc: QDisc,
    pub ceil: String,
    pub floor: Option<String>,
    pub priority: Option<usize>,
}

/// The traffic-control work that a control message calls for.
#[derive(Debug)]
pub enum Command {
    /// Nothing to do.
    Idle,
    /// Build the hierarchy on `interface` with `config`, then report it with `installed`.
    Setup { interface: String, config: LimitConfig },
    /// Tear down the hierarchy on the two devices, build it anew on `interface` with
    /// `config`, then report it with `installed`.
    Rebuild {
        ingress_device: String,
        egress_device: String,
        interface: String,
        config: LimitConfig,
    },
    /// Add the classes asked for, then report them with `classes_added`.
    AddClasses { name: String, ingress: Option<ClassRequest>, egress: Option<ClassRequest> },
    /// Tear down the hierarchy on the two devices, announce `Stop` and end.
    Shutdown { ingress_device: String, egress_device: String },
    /// Announce `Stop` and end; nothing was built.
    Exit,
}

/// The engine's whole state, owned by the loop that drives it.
pub struct Engine {
    pub phase: Phase,
    pub interface: String,
    pub global: LimitConfig,
    /// The ingress and egress roots, once built.
    pub handles: Option<(QDisc, QDisc)>,
    pub programs: Vec<ProgramClasses>,
    pub filtered: Vec<FilterEntry>,
}

/// No two program entries share a name.
pub open spec fn names_unique(ps: Seq<ProgramClasses>) -> bool {
    forall|i: int, j: int| 0 <= i < j < ps.len() ==> ps[i].name@ != ps[j].name@
}

/// Some entry of `ps` is named `n`.
pub open spec fn has_program(ps: Seq<ProgramClasses>, n: Seq<char>) -> bool {
    exists|i: int| 0 <= i < ps.len() && (#[trigger] ps[i]).name@ == n
}

/// No two installed filters share a key: at most one filter per directional port.
pub open spec fn ports_unique(fs: Seq<FilterEntry>) -> bool {
    forall|i: int, j: int| 0 <= i < j < fs.len() ==> fs[i].port != fs[j].port
}

/// Some entry of `fs` is keyed `k`.
pub open spec fn is_filtered(fs: Seq<FilterEntry>, k: DirPort) -> bool {
    exists|i: int| 0 <= i < fs.len() && (#[trigger] fs[i]).port == k
}

/// Some pending filter is keyed `k`.
pub open spec fn is_pending(add: Seq<PendingFilter>, k: DirPort) -> bool {
    exists|i: int| 0 <= i < add.len() && (#[trigger] add[i]).port == k
}

/// Connection `j` of row `i` of `t` belongs to the program of entry `p` of `ps`, and
/// that program's class `c` claims key `k` for it.
pub open spec fn claims(
    ps: Seq<ProgramClasses>,
    t: Seq<ProcessConnections>,
    i: int,
    j: int,
    p: int,
    k: DirPort,
    c: usize,
) -> bool {
    &&& 0 <= i < t.len()
    &&& 0 <= j < t[i].connections@.len()
    &&& 0 <= p < ps.len()
    &&& ps[p].name@ == t[i].name@
    &&& match k {
        DirPort::Ingress(port) => ps[p].ingress == Some(c) && t[i].connections@[j].lport == port,
        DirPort::Egress(port) => ps[p].egress == Some(c) && t[i].connections@[j].lport == port,
    }
}

/// Some connection of `t` whose program has a class for that direction uses key `k`.
pub open spec fn port_active(ps: Seq<ProgramClasses>, t: Seq<ProcessConnections>, k: DirPort) -> bool {
    exists|i: int, j: int, p: int, c: usize| #[trigger] claims(ps, t, i, j, p, k, c)
}

/// What one planned cycle promises, from the programs `ps0` and installed filters
/// `fs` before it, over the connections `t`, to the programs `ps1` after it.
pub open spec fn cycle_planned(
    ps0: Seq<ProgramClasses>,
    fs: Seq<FilterEntry>,
    t: Seq<ProcessConnections>,
    ps1: Seq<ProgramClasses>,
    plan: CyclePlan,
) -> bool {
    let notify = plan.notify@;
    let add = plan.add@;
    let kept = plan.kept@;
    let remove = plan.remove@;
    // programs: the old ones, then one placeholder per new name, in order
    &&& names_unique(ps1)
    &&& ps1.len() == ps0.len() + notify.len()
    &&& forall|m: int| 0 <= m < ps0.len() ==> ps1[m] == ps0[m]
    &&& forall|m: int|
        0 <= m < notify.len() ==> {
            &&& (#[trigger] ps1[ps0.len() + m]).name@ == notify[m]@
            &&& ps1[ps0.len() + m].ingress is None
            &&& ps1[ps0.len() + m].egress is None
        }
    &&& forall|m: int|
        0 <= m < notify.len() ==> !has_program(ps0, (#[trigger] notify[m])@) && exists|i: int|
            0 <= i < t.len() && (#[trigger] t[i]).name@ == notify[m]@
    &&& forall|i: int| 0 <= i < t.len() ==> has_program(ps1, (#[trigger] t[i]).name@)
    // filters to add: the active keys not yet installed, each with a class that claims it
    &&& forall|m: int, n: int| 0 <= m < n < add.len() ==> add[m].port != add[n].port
    &&& forall|k: DirPort| is_pending(add, k) <==> port_active(ps0, t, k) && !is_filtered(fs, k)
    &&& forall|m: int|
        0 <= m < add.len() ==> exists|i: int, j: int, p: int|
            claims(ps0, t, i, j, p, (#[trigger] add[m]).port, add[m].class_id)
    // filters kept: the installed ones whose key is still active
    &&& ports_unique(kept)
    &&& forall|k: DirPort| is_filtered(kept, k) <==> port_active(ps0, t, k) && is_filtered(fs, k)
    &&& forall|m: int| 0 <= m < kept.len() ==> fs.contains(#[trigger] kept[m])
    // filters removed: exactly the installed ones whose key is no longer active
    &&& forall|m: int|
        0 <= m < remove.len() ==> fs.contains(#[trigger] remove[m]) && !port_active(
            ps0,
            t,
            remove[m].port,
        )
    &&& forall|m: int|
        0 <= m < fs.len() && !port_active(ps0, t, (#[trigger] fs[m]).port) ==> remove.contains(
            fs[m],
        )
}

/// The filter table after a cycle: the kept filters and the newly installed ones, one
/// entry per key.
pub open spec fn cycle_finished(kept: Seq<FilterEntry>, installed: Seq<FilterEntry>, fs1: Seq<FilterEntry>) -> bool {
    &&& ports_unique(fs1)
    &&& forall|k: DirPort| is_filtered(fs1, k) <==> is_filtered(kept, k) || is_filtered(installed, k)
    &&& forall|m: int| 0 <= m < fs1.len() ==> kept.contains(#[trigger] fs1[m]) || installed.contains(fs1[m])
}

/// Key `k` is claimed by a connection that comes before row `i0`, connection `j0`.
pub open spec fn seen(ps: Seq<ProgramClasses>, t: Seq<ProcessConnections>, i0: int, j0: int, k: DirPort) -> bool {
    exists|i: int, j: int, p: int, c: usize|
        #[trigger] claims(ps, t, i, j, p, k, c) && (i < i0 || (i == i0 && j < j0))
}

impl FilterEntry {
    /// A copy of this entry.
    pub fn duplicate(&self) -> (r: FilterEntry)
        ensures
            r == *self,
    {
        FilterEntry { port: self.port, filter_id: self.filter_id.clone() }
    }
}

/// Where `name` stands in `ps`, if it does.
fn find_program(ps: &Vec<ProgramClasses>, name: &String) -> (r: Option<usize>)
    ensures
        match r {
            Some(i) => i < ps@.len() && ps@[i as int].name@ == name@,
            None => !has_program(ps@, name@),
        },
{
    let mut i: usize = 0;
    while i < ps.len()
        invariant
            i <= ps@.len(),
            forall|m: int| 0 <= m < i ==> (#[trigger] ps@[m]).name@ != name@,
        decreases ps@.len() - i,
    {
        if ps[i].name == *name {
            return Some(i);
        }
        i = i + 1;
    }
    None
}

/// Where key `k` stands in `fs`, if it does.
fn find_filter(fs: &Vec<FilterEntry>, k: DirPort) -> (r: Option<usize>)
    ensures
        match r {
            Some(i) => i < fs@.len() && fs@[i as int].port == k,
            None => !is_filtered(fs@, k),
        },
{
    let mut i: usize = 0;
    while i < fs.len()
        invariant
            i <= fs@.len(),
            forall|m: int| 0 <= m < i ==> (#[trigger] fs@[m]).port != k,
        decreases fs@.len() - i,
    {
        if fs[i].port == k {
            return Some(i);
        }
        i = i + 1;
    }
    None
}

fn find_pending(add: &Vec<PendingFilter>, k: DirPort) -> (r: bool)
    ensures
        r == is_pending(add@, k),
{
    let mut i: usize = 0;
    while i < add.len()
        invariant
            i <= add@.len(),
            forall|m: int| 0 <= m < i ==> (#[trigger] add@[m]).port != k,
        decreases add@.len() - i,
    {
        if add[i].port == k {
            return true;
        }
        i = i + 1;
    }
    false
}

/// The invariant that a cycle's partial plan keeps: keys are pending or kept at most
/// once, pending ones are not installed, kept ones are installed entries.
pub open spec fn partial_plan(fs: Seq<FilterEntry>, add: Seq<PendingFilter>, kept: Seq<FilterEntry>) -> bool {
    &&& forall|m: int, n: int| 0 <= m < n < add.len() ==> add[m].port != add[n].port
    &&& ports_unique(kept)
    &&& forall|m: int| 0 <= m < kept.len() ==> fs.contains(#[trigger] kept[m])
    &&& forall|k: DirPort| is_pending(add, k) ==> !is_filtered(fs, k)
    &&& forall|k: DirPort| is_filtered(kept, k) ==> !is_pending(add, k)
}

/// Takes key `k`, claimed for class `c`, into the partial plan: kept if it is
/// installed, pending otherwise, and left alone if the plan already holds it.
fn take_key(
    fs: &Vec<FilterEntry>,
    add: &mut Vec<PendingFilter>,
    kept: &mut Vec<FilterEntry>,
    k: DirPort,
    c: usize,
)
    requires
        ports_unique(fs@),
        partial_plan(fs@, old(add)@, old(kept)@),
    ensures
        partial_plan(fs@, final(add)@, final(kept)@),
        forall|k2: DirPort|
            is_pending(final(add)@, k2) || is_filtered(final(kept)@, k2) <==> is_pending(
                old(add)@,
                k2,
            ) || is_filtered(old(kept)@, k2) || k2 == k,
        forall|k2: DirPort| is_filtered(final(kept)@, k2) ==> is_filtered(fs@, k2),
        final(add)@ == old(add)@ || final(add)@ == old(add)@.push(
            PendingFilter { port: k, class_id: c },
        ),
{
    if find_pending(add, k) {
        return;
    }
    match find_filter(kept, k) {
        Some(_) => {
            return;
        },
        None => {},
    }
    match find_filter(fs, k) {
        Some(idx) => {
            let e = fs[idx].duplicate();
            let ghost before = kept@;
            kept.push(e);
            proof {
                assert(fs@.contains(fs@[idx as int]));
                assert forall|k2: DirPort| is_filtered(kept@, k2) <==> is_filtered(before, k2) || k2
                    == k by {
                    if is_filtered(kept@, k2) {
                        let m = choose|m: int| 0 <= m < kept@.len() && (#[trigger] kept@[m]).port == k2;
                        if m < before.len() {
                            assert(before[m] == kept@[m]);
                        }
                    }
                    if is_filtered(before, k2) {
                        let m = choose|m: int| 0 <= m < before.len() && (#[trigger] before[m]).port == k2;
                        assert(kept@[m] == before[m]);
                    }
                    if k2 == k {
                        assert(kept@[before.len() as int].port == k);
                    }
                }
                assert forall|m: int| 0 <= m < kept@.len() implies fs@.contains(#[trigger] kept@[m]) by {
                    if m < before.len() {
                        assert(before[m] == kept@[m]);
                        assert(fs@.contains(before[m]));
                    }
                }
                assert forall|k2: DirPort| is_filtered(kept@, k2) implies is_filtered(fs@, k2) by {
                    let m = choose|m: int| 0 <= m < kept@.len() && (#[trigger] kept@[m]).port == k2;
                    assert(fs@.contains(kept@[m]));
                    let x = choose|x: int| 0 <= x < fs@.len() && fs@[x] == kept@[m];
                    assert(fs@[x].port == k2);
                }
            }
        },
        None => {
            let ghost before = add@;
            add.push(PendingFilter { port: k, class_id: c });
            proof {
                assert forall|k2: DirPort| is_pending(add@, k2) <==> is_pending(before, k2) || k2
                    == k by {
                    if is_pending(add@, k2) {
                        let m = choose|m: int| 0 <= m < add@.len() && (#[trigger] add@[m]).port == k2;
                        if m < before.len() {
                            assert(before[m] == add@[m]);
                        }
                    }
                    if is_pending(before, k2) {
                        let m = choose|m: int| 0 <= m < before.len() && (#[trigger] before[m]).port == k2;
                        assert(add@[m] == before[m]);
                    }
                    if k2 == k {
                        assert(add@[before.len() as int].port == k);
                    }
                }
            }
        },
    }
}

/// Pushing an entry for a key that `t0` lacks keeps keys unique and adds that key.
proof fn lemma_pushed_entry(t0: Seq<FilterEntry>, t1: Seq<FilterEntry>, e: FilterEntry)
    requires
        ports_unique(t0),
        !is_filtered(t0, e.port),
        t1 == t0.push(e),
    ensures
        ports_unique(t1),
        forall|k: DirPort| is_filtered(t1, k) <==> is_filtered(t0, k) || k == e.port,
{
    assert forall|a: int, b: int| 0 <= a < b < t1.len() implies t1[a].port != t1[b].port by {
        assert(t1[a] == t0[a]);
        if b < t0.len() {
            assert(t1[b] == t0[b]);
        } else {
            assert(t0[a].port != e.port);
        }
    }
    assert forall|k: DirPort| is_filtered(t1, k) <==> is_filtered(t0, k) || k == e.port by {
        if is_filtered(t1, k) {
            let m = choose|m: int| 0 <= m < t1.len() && (#[trigger] t1[m]).port == k;
            if m < t0.len() {
                assert(t1[m] == t0[m]);
            }
        }
        if is_filtered(t0, k) {
            let m = choose|m: int| 0 <= m < t0.len() && (#[trigger] t0[m]).port == k;
            assert(t1[m] == t0[m]);
        }
        if k == e.port {
            assert(t1[t0.len() as int].port == k);
        }
    }
}

/// `r` asks for a class under `qdisc` capped at `rate` exactly when a rate is given.
pub open spec fn class_request_for(
    r: Option<ClassRequest>,
    qdisc: QDisc,
    rate: Option<String>,
    floor: Option<String>,
    priority: Option<usize>,
) -> bool {
    match rate {
        None => r is None,
        Some(ceil) => r matches Some(req) && req.qdisc == qdisc && req.ceil@ == ceil@ && crate::ipc::opt_view(req.floor)
            == crate::ipc::opt_view(floor) && req.priority == priority,
    }
}

fn class_request(
    qdisc: QDisc,
    rate: &Option<String>,
    floor: &Option<String>,
    priority: Option<usize>,
) -> (r: Option<ClassRequest>)
    ensures
        class_request_for(r, qdisc, *rate, *floor, priority),
{
    match rate {
        None => None,
        Some(ceil) => Some(ClassRequest { qdisc, ceil: ceil.clone(), floor: copy_opt(floor), priority }),
    }
}

/// Two entries of `ps` with the same name are the same entry.
proof fn lemma_unique_owner(ps: Seq<ProgramClasses>, p: int, q: int)
    requires
        names_unique(ps),
        0 <= p < ps.len(),
        0 <= q < ps.len(),
        ps[p].name@ == ps[q].name@,
    ensures
        p == q,
{
    if p < q {
        assert(ps[p].name@ != ps[q].name@);
    } else if q < p {
        assert(ps[q].name@ != ps[p].name@);
    }
}

impl Engine {
    /// Plans one polling cycle over the live connections `table`. Programs seen for the
    /// first time get an entry without classes and are announced; the connections of
    /// programs with classes give the active keys, which are kept where a filter is
    /// installed and pending otherwise; installed filters whose key is no longer active
    /// are to be removed. The filter table itself changes only in `finish_cycle`.
    pub fn plan_cycle(&mut self, table: &Vec<ProcessConnections>) -> (plan: CyclePlan)
        requires
            old(self).wf(),
        ensures
            final(self).wf(),
            cycle_planned(old(self).programs@, old(self).filtered@, table@, final(self).programs@, plan),
            final(self).filtered == old(self).filtered,
            final(self).phase == old(self).phase,
            final(self).handles == old(self).handles,
            final(self).interface == old(self).interface,
            final(self).global == old(self).global,
    {
        let ghost ps0 = self.programs@;
        let ghost fs = self.filtered@;
        let ghost t = table@;
        let mut notify: Vec<String> = Vec::new();
        let mut add: Vec<PendingFilter> = Vec::new();
        let mut kept: Vec<FilterEntry> = Vec::new();
        let mut i: usize = 0;
        while i < table.len()
            invariant
                ps0 == old(self).programs@,
                fs == self.filtered@,
                t == table@,
                ports_unique(fs),
                names_unique(self.programs@),
                self.programs@.len() == ps0.len() + notify@.len(),
                forall|m: int| 0 <= m < ps0.len() ==> self.programs@[m] == ps0[m],
                forall|m: int|
                    0 <= m < notify@.len() ==> {
                        &&& (#[trigger] self.programs@[ps0.len() + m]).name@ == notify@[m]@
                        &&& self.programs@[ps0.len() + m].ingress is None
                        &&& self.programs@[ps0.len() + m].egress is None
                    },
                forall|m: int|
                    0 <= m < notify@.len() ==> !has_program(ps0, (#[trigger] notify@[m])@) && exists|
                        r: int,
                    | 0 <= r < t.len() && (#[trigger] t[r]).name@ == notify@[m]@,
                forall|r: int| 0 <= r < i ==> has_program(self.programs@, (#[trigger] t[r]).name@),
                i <= t.len(),
                partial_plan(fs, add@, kept@),
                forall|k: DirPort| is_pending(add@, k) || is_filtered(kept@, k) <==> seen(ps0, t, i as int, 0, k),
                forall|k: DirPort| is_filtered(kept@, k) ==> is_filtered(fs, k),
                forall|m: int|
                    0 <= m < add@.len() ==> exists|r: int, j: int, p: int|
                        claims(ps0, t, r, j, p, (#[trigger] add@[m]).port, add@[m].class_id),
                self.filtered == old(self).filtered,
                self.phase == old(self).phase,
                self.handles == old(self).handles,
                self.interface == old(self).interface,
                self.global == old(self).global,
            decreases t.len() - i,
        {
            let row = &table[i];
            match find_program(&self.programs, &row.name) {
                None => {
                    let ghost before = self.programs@;
                    proof {
                        if has_program(ps0, row.name@) {
                            let p = choose|p: int| 0 <= p < ps0.len() && (#[trigger] ps0[p]).name@ == row.name@;
                            assert(self.programs@[p] == ps0[p]);
                        }
                        // the row claims nothing: its program has no entry
                        assert forall|k: DirPort| seen(ps0, t, i + 1, 0, k) <==> seen(ps0, t, i as int, 0, k) by {
                            if seen(ps0, t, i + 1, 0, k) {
                                let (r, j, p, c) = choose|r: int, j: int, p: int, c: usize|
                                    #[trigger] claims(ps0, t, r, j, p, k, c) && (r < i + 1 || (r == i + 1 && j < 0));
                                if r == i {
                                    assert(ps0[p].name@ == row.name@);
                                }
                                assert(claims(ps0, t, r, j, p, k, c));
                            }
                            if seen(ps0, t, i as int, 0, k) {
                                let (r, j, p, c) = choose|r: int, j: int, p: int, c: usize|
                                    #[trigger] claims(ps0, t, r, j, p, k, c) && (r < i || (r == i && j < 0));
                                assert(claims(ps0, t, r, j, p, k, c));
                            }
                        }
                    }
                    self.programs.push(ProgramClasses { name: row.name.clone(), ingress: None, egress: None });
                    let ghost nb = notify@;
                    notify.push(row.name.clone());
                    proof {
                        assert forall|a: int, b: int| 0 <= a < b < self.programs@.len() implies self.programs@[a].name@
                            != self.programs@[b].name@ by {
                            if b == before.len() {
                                assert(before[a] == self.programs@[a]);
                            } else {
                                assert(before[a] == self.programs@[a]);
                                assert(before[b] == self.programs@[b]);
                            }
                        }
                        assert forall|m: int| 0 <= m < notify@.len() implies {
                            &&& (#[trigger] self.programs@[ps0.len() + m]).name@ == notify@[m]@
                            &&& self.programs@[ps0.len() + m].ingress is None
                            &&& self.programs@[ps0.len() + m].egress is None
                        } by {
                            if m < nb.len() {
                                assert(notify@[m] == nb[m]);
                                assert(self.programs@[ps0.len() + m] == before[ps0.len() + m]);
                            }
                        }
                        assert forall|m: int| 0 <= m < notify@.len() implies !has_program(ps0, (#[trigger] notify@[m])@)
                            && exists|r: int| 0 <= r < t.len() && (#[trigger] t[r]).name@ == notify@[m]@ by {
                            if m < nb.len() {
                                assert(notify@[m] == nb[m]);
                            } else {
                                assert(t[i as int].name@ == notify@[m]@);
                            }
                        }
                        assert forall|r: int| 0 <= r < i + 1 implies has_program(self.programs@, (#[trigger] t[r]).name@) by {
                            if r < i {
                                assert(has_program(before, t[r].name@));
                                let x = choose|x: int| 0 <= x < before.len() && (#[trigger] before[x]).name@ == t[r].name@;
                                assert(self.programs@[x] == before[x]);
                            } else {
                                assert(self.programs@[before.len() as int].name@ == t[r].name@);
                            }
                        }
                    }
                },
                Some(q) => {
                    let ingress = self.programs[q].ingress;
                    let egress = self.programs[q].egress;
                    let ghost owner = self.programs@[q as int];
                    proof {
                        // the row's claims come from entry q alone, or from none at all
                        if q >= ps0.len() {
                            assert(owner == self.programs@[q as int]);
                            let m = q - ps0.len();
                            assert(self.programs@[ps0.len() + m].ingress is None);
                        }
                    }
                    let conns = &row.connections;
                    let mut j: usize = 0;
                    while j < conns.len()
                        invariant
                            ps0 == old(self).programs@,
                            fs == self.filtered@,
                            t == table@,
                            ports_unique(fs),
                            names_unique(self.programs@),
                            self.programs@.len() == ps0.len() + notify@.len(),
                            forall|m: int| 0 <= m < ps0.len() ==> self.programs@[m] == ps0[m],
                            i < t.len(),
                            row == &table@[i as int],
                            conns == &row.connections,
                            q < self.programs@.len(),
                            owner == self.programs@[q as int],
                            owner.name@ == row.name@,
                            ingress == owner.ingress,
                            egress == owner.egress,
                            q >= ps0.len() ==> ingress is None && egress is None,
                            j <= conns@.len(),
                            partial_plan(fs, add@, kept@),
                            forall|k: DirPort| is_pending(add@, k) || is_filtered(kept@, k) <==> seen(ps0, t, i as int, j as int, k),
                            forall|k: DirPort| is_filtered(kept@, k) ==> is_filtered(fs, k),
                            forall|m: int|
                                0 <= m < add@.len() ==> exists|r: int, jj: int, p: int|
                                    claims(ps0, t, r, jj, p, (#[trigger] add@[m]).port, add@[m].class_id),
                        decreases conns@.len() - j,
                    {
                        let port = conns[j].lport;
                        let ghost add0 = add@;
                        let ghost kept0 = kept@;
                        if let Some(c) = ingress {
                            proof {
                                assert(q < ps0.len());
                                assert(self.programs@[q as int] == ps0[q as int]);
                                assert(claims(ps0, t, i as int, j as int, q as int, DirPort::Ingress(port), c));
                            }
                            let ghost a1 = add@;
                            take_key(&self.filtered, &mut add, &mut kept, DirPort::Ingress(port), c);
                            proof {
                                assert forall|m: int| 0 <= m < add@.len() implies exists|r: int, jj: int, p: int|
                                    claims(ps0, t, r, jj, p, (#[trigger] add@[m]).port, add@[m].class_id) by {
                                    if m < a1.len() {
                                        assert(add@[m] == a1[m]);
                                    } else {
                                        assert(claims(ps0, t, i as int, j as int, q as int, add@[m].port, add@[m].class_id));
                                    }
                                }
                            }
                        }
                        let ghost add1 = add@;
                        let ghost kept1 = kept@;
                        if let Some(c) = egress {
                            proof {
                                assert(q < ps0.len());
                                assert(self.programs@[q as int] == ps0[q as int]);
                                assert(claims(ps0, t, i as int, j as int, q as int, DirPort::Egress(port), c));
                            }
                            let ghost a1 = add@;
                            take_key(&self.filtered, &mut add, &mut kept, DirPort::Egress(port), c);
                            proof {
                                assert forall|m: int| 0 <= m < add@.len() implies exists|r: int, jj: int, p: int|
                                    claims(ps0, t, r, jj, p, (#[trigger] add@[m]).port, add@[m].class_id) by {
                                    if m < a1.len() {
                                        assert(add@[m] == a1[m]);
                                    } else {
                                        assert(claims(ps0, t, i as int, j as int, q as int, add@[m].port, add@[m].class_id));
                                    }
                                }
                            }
                        }
                        proof {
                            assert forall|k: DirPort| is_pending(add@, k) || is_filtered(kept@, k) <==> seen(ps0, t, i as int, j + 1, k) by {
                                let new_in = ingress is Some && k == DirPort::Ingress(port);
                                let new_eg = egress is Some && k == DirPort::Egress(port);
                                assert(is_pending(add@, k) || is_filtered(kept@, k) <==> is_pending(add0, k)
                                    || is_filtered(kept0, k) || new_in || new_eg);
                                if seen(ps0, t, i as int, j + 1, k) {
                                    let (r, jj, p, c) = choose|r: int, jj: int, p: int, c: usize|
                                        #[trigger] claims(ps0, t, r, jj, p, k, c) && (r < i || (r == i && jj < j + 1));
                                    if r == i && jj == j {
                                        assert(self.programs@[p] == ps0[p]);
                                        lemma_unique_owner(self.programs@, p, q as int);
                                    } else {
                                        assert(seen(ps0, t, i as int, j as int, k));
                                    }
                                }
                                if seen(ps0, t, i as int, j as int, k) {
                                    let (r, jj, p, c) = choose|r: int, jj: int, p: int, c: usize|
                                        #[trigger] claims(ps0, t, r, jj, p, k, c) && (r < i || (r == i && jj < j));
                                    assert(claims(ps0, t, r, jj, p, k, c) && (r < i || (r == i && jj < j + 1)));
                                }
                                if new_in {
                                    assert(claims(ps0, t, i as int, j as int, q as int, k, ingress->Some_0));
                                }
                                if new_eg {
                                    assert(claims(ps0, t, i as int, j as int, q as int, k, egress->Some_0));
                                }
                            }
                        }
                        j = j + 1;
                    }
                    proof {
                        assert forall|k: DirPort| seen(ps0, t, i + 1, 0, k) <==> seen(ps0, t, i as int, conns@.len() as int, k) by {
                            if seen(ps0, t, i + 1, 0, k) {
                                let (r, jj, p, c) = choose|r: int, jj: int, p: int, c: usize|
                                    #[trigger] claims(ps0, t, r, jj, p, k, c) && (r < i + 1 || (r == i + 1 && jj < 0));
                                assert(claims(ps0, t, r, jj, p, k, c));
                            }
                            if seen(ps0, t, i as int, conns@.len() as int, k) {
                                let (r, jj, p, c) = choose|r: int, jj: int, p: int, c: usize|
                                    #[trigger] claims(ps0, t, r, jj, p, k, c) && (r < i || (r == i && jj < conns@.len()));
                                assert(claims(ps0, t, r, jj, p, k, c));
                            }
                        }
                        assert forall|r: int| 0 <= r < i + 1 implies has_program(self.programs@, (#[trigger] t[r]).name@) by {
                            if r == i {
                                assert(self.programs@[q as int].name@ == t[r].name@);
                            }
                        }
                    }
                },
            }
            i = i + 1;
        }
        // what is installed but no longer claimed goes
        let mut remove: Vec<FilterEntry> = Vec::new();
        let mut x: usize = 0;
        proof {
            assert forall|k: DirPort| seen(ps0, t, t.len() as int, 0, k) <==> port_active(ps0, t, k) by {
                if port_active(ps0, t, k) {
                    let (r, jj, p, c) = choose|r: int, jj: int, p: int, c: usize| #[trigger] claims(ps0, t, r, jj, p, k, c);
                    assert(claims(ps0, t, r, jj, p, k, c) && (r < t.len() || (r == t.len() && jj < 0)));
                }
                if seen(ps0, t, t.len() as int, 0, k) {
                    let (r, jj, p, c) = choose|r: int, jj: int, p: int, c: usize|
                        #[trigger] claims(ps0, t, r, jj, p, k, c) && (r < t.len() || (r == t.len() && jj < 0));
                    assert(claims(ps0, t, r, jj, p, k, c));
                }
            }
        }
        while x < self.filtered.len()
            invariant
                fs == self.filtered@,
                x <= fs.len(),
                partial_plan(fs, add@, kept@),
                forall|k: DirPort| is_pending(add@, k) || is_filtered(kept@, k) <==> port_active(ps0, t, k),
                forall|m: int| 0 <= m < remove@.len() ==> fs.contains(#[trigger] remove@[m]) && !port_active(ps0, t, remove@[m].port),
                forall|m: int| 0 <= m < x && !port_active(ps0, t, (#[trigger] fs[m]).port) ==> remove@.contains(fs[m]),
            decreases fs.len() - x,
        {
            let k = self.filtered[x].port;
            let ghost r0 = remove@;
            match find_filter(&kept, k) {
                Some(_) => {},
                None => {
                    proof {
                        assert(is_filtered(fs, k)) by {
                            assert(fs[x as int].port == k);
                        }
                        assert(!is_pending(add@, k));
                        assert(fs.contains(fs[x as int]));
                    }
                    remove.push(self.filtered[x].duplicate());
                    proof {
                        assert(remove@[r0.len() as int] == fs[x as int]);
                        assert forall|m: int| 0 <= m < x + 1 && !port_active(ps0, t, (#[trigger] fs[m]).port) implies remove@.contains(fs[m]) by {
                            if m < x {
                                let y = choose|y: int| 0 <= y < r0.len() && r0[y] == fs[m];
                                assert(remove@[y] == r0[y]);
                            }
                        }
                        assert forall|m: int| 0 <= m < remove@.len() implies fs.contains(#[trigger] remove@[m]) && !port_active(ps0, t, remove@[m].port) by {
                            if m < r0.len() {
                                assert(remove@[m] == r0[m]);
                            }
                        }
                    }
                },
            }
            proof {
                assert forall|m: int| 0 <= m < x + 1 && !port_active(ps0, t, (#[trigger] fs[m]).port) implies remove@.contains(fs[m]) by {
                    if m == x && remove@ == r0 {
                        assert(is_filtered(kept@, k));
                    }
                }
            }
            x = x + 1;
        }
        proof {
            assert forall|k: DirPort| is_pending(add@, k) <==> port_active(ps0, t, k) && !is_filtered(fs, k) by {
                if port_active(ps0, t, k) && !is_filtered(fs, k) {
                    if is_filtered(kept@, k) {
                        let m = choose|m: int| 0 <= m < kept@.len() && (#[trigger] kept@[m]).port == k;
                        assert(fs.contains(kept@[m]));
                        let y = choose|y: int| 0 <= y < fs.len() && fs[y] == kept@[m];
                        assert(fs[y].port == k);
                    }
                }
            }
            assert forall|k: DirPort| is_filtered(kept@, k) <==> port_active(ps0, t, k) && is_filtered(fs, k) by {
                if is_filtered(kept@, k) {
                    let m = choose|m: int| 0 <= m < kept@.len() && (#[trigger] kept@[m]).port == k;
                    assert(fs.contains(kept@[m]));
                    let y = choose|y: int| 0 <= y < fs.len() && fs[y] == kept@[m];
                    assert(fs[y].port == k);
                }
            }
        }
        CyclePlan { notify, add, remove, kept }
    }

    /// Replaces the filter table by the filters that a cycle kept and those it installed.
    pub fn finish_cycle(&mut self, kept: Vec<FilterEntry>, installed: Vec<FilterEntry>)
        requires
            old(self).wf(),
        ensures
            final(self).wf(),
            cycle_finished(kept@, installed@, final(self).filtered@),
            final(self).programs == old(self).programs,
            final(self).phase == old(self).phase,
            final(self).handles == old(self).handles,
            final(self).interface == old(self).interface,
            final(self).global == old(self).global,
    {
        let mut table: Vec<FilterEntry> = Vec::new();
        let mut i: usize = 0;
        while i < kept.len()
            invariant
                i <= kept@.len(),
                ports_unique(table@),
                forall|k: DirPort| is_filtered(table@, k) <==> exists|m: int| 0 <= m < i && (#[trigger] kept@[m]).port == k,
                forall|m: int| 0 <= m < table@.len() ==> kept@.contains(#[trigger] table@[m]),
            decreases kept@.len() - i,
        {
            let ghost t0 = table@;
            if find_filter(&table, kept[i].port).is_none() {
                table.push(kept[i].duplicate());
                proof { lemma_pushed_entry(t0, table@, kept@[i as int]); }
            }
            proof {
                assert forall|k: DirPort| is_filtered(table@, k) <==> exists|m: int| 0 <= m < i + 1 && (#[trigger] kept@[m]).port == k by {
                    if exists|m: int| 0 <= m < i + 1 && (#[trigger] kept@[m]).port == k {
                        let m = choose|m: int| 0 <= m < i + 1 && (#[trigger] kept@[m]).port == k;
                        if m < i {
                            assert(is_filtered(t0, k));
                        }
                    }
                    if is_filtered(t0, k) {
                        let m = choose|m: int| 0 <= m < i && (#[trigger] kept@[m]).port == k;
                        assert(0 <= m < i + 1 && kept@[m].port == k);
                    }
                }
                assert forall|m: int| 0 <= m < table@.len() implies kept@.contains(#[trigger] table@[m]) by {
                    if m < t0.len() {
                        assert(table@[m] == t0[m]);
                    } else {
                        assert(table@[m] == kept@[i as int]);
                    }
                }
            }
            i = i + 1;
        }
        let mut j: usize = 0;
        while j < installed.len()
            invariant
                j <= installed@.len(),
                ports_unique(table@),
                forall|k: DirPort| is_filtered(table@, k) <==> is_filtered(kept@, k) || exists|m: int| 0 <= m < j && (#[trigger] installed@[m]).port == k,
                forall|m: int| 0 <= m < table@.len() ==> kept@.contains(#[trigger] table@[m]) || installed@.contains(table@[m]),
            decreases installed@.len() - j,
        {
            let ghost t0 = table@;
            if find_filter(&table, installed[j].port).is_none() {
                table.push(installed[j].duplicate());
                proof { lemma_pushed_entry(t0, table@, installed@[j as int]); }
            }
            proof {
                assert forall|k: DirPort| is_filtered(table@, k) <==> is_filtered(kept@, k) || exists|m: int| 0 <= m < j + 1 && (#[trigger] installed@[m]).port == k by {
                    if exists|m: int| 0 <= m < j + 1 && (#[trigger] installed@[m]).port == k {
                        let m = choose|m: int| 0 <= m < j + 1 && (#[trigger] installed@[m]).port == k;
                        if m < j {
                            assert(is_filtered(t0, k));
                        }
                    }
                    if is_filtered(t0, k) && !is_filtered(kept@, k) {
                        let m = choose|m: int| 0 <= m < j && (#[trigger] installed@[m]).port == k;
                        assert(0 <= m < j + 1 && installed@[m].port == k);
                    }
                }
                assert forall|m: int| 0 <= m < table@.len() implies kept@.contains(#[trigger] table@[m]) || installed@.contains(table@[m]) by {
                    if m < t0.len() {
                        assert(table@[m] == t0[m]);
                    } else {
                        assert(table@[m] == installed@[j as int]);
                    }
                }
            }
            j = j + 1;
        }
        proof {
            assert forall|k: DirPort| is_filtered(table@, k) <==> is_filtered(kept@, k) || is_filtered(installed@, k) by {
                if is_filtered(installed@, k) {
                    let m = choose|m: int| 0 <= m < installed@.len() && (#[trigger] installed@[m]).port == k;
                    assert(0 <= m < j && installed@[m].port == k);
                }
                if is_filtered(kept@, k) {
                    let m = choose|m: int| 0 <= m < kept@.len() && (#[trigger] kept@[m]).port == k;
                    assert(0 <= m < i && kept@[m].port == k);
                }
            }
        }
        self.filtered = table;
    }

    /// Applies one control message and says what traffic-control work it calls for.
    ///
    /// Waiting for an interface: `Global` limits are recorded, `Program` is ignored,
    /// `Interface` asks for the hierarchy to be built there (the engine becomes active
    /// once `installed` reports it), and `Stop` ends without any traffic-control work.
    /// Active: `Interface` and `Global` forget every program and filter and ask for
    /// the hierarchy to be torn down and built anew; `Program` asks for a download
    /// and an upload class for each rate it gives; `Stop` asks for the teardown and
    /// ends. Stopped: nothing.
    pub fn on_message(&mut self, msg: Message) -> (cmd: Command)
        requires
            old(self).wf(),
        ensures
            final(self).wf(),
            old(self).phase == Phase::AwaitingInterface ==> match msg {
                Message::Stop => cmd is Exit && final(self).phase == Phase::Stopped,
                Message::Interface(n) => {
                    &&& cmd matches Command::Setup { interface, config } && interface@ == n@
                        && config@ == old(self).global@
                    &&& final(self).phase == Phase::AwaitingInterface
                    &&& final(self).interface@ == n@
                    &&& final(self).programs@.len() == 0
                    &&& final(self).filtered@.len() == 0
                },
                Message::Global { config } => {
                    &&& cmd is Idle
                    &&& final(self).phase == Phase::AwaitingInterface
                    &&& final(self).global@ == config@
                },
                Message::Program { .. } => cmd is Idle && final(self).phase == Phase::AwaitingInterface,
            },
            old(self).phase == Phase::Active ==> match msg {
                Message::Stop => {
                    &&& cmd matches Command::Shutdown { ingress_device, egress_device }
                        && ingress_device@ == old(self).handles->Some_0.0.device@ && egress_device@
                        == old(self).interface@
                    &&& final(self).phase == Phase::Stopped
                },
                Message::Interface(n) => {
                    &&& cmd matches Command::Rebuild { ingress_device, egress_device, interface, config }
                        && ingress_device@ == old(self).handles->Some_0.0.device@ && egress_device@
                        == old(self).interface@ && interface@ == n@ && config@ == old(self).global@
                    &&& final(self).interface@ == n@
                    &&& final(self).global@ == old(self).global@
                    &&& final(self).programs@.len() == 0
                    &&& final(self).filtered@.len() == 0
                },
                Message::Global { config } => {
                    &&& cmd matches Command::Rebuild { ingress_device, egress_device, interface, config: c }
                        && ingress_device@ == old(self).handles->Some_0.0.device@ && egress_device@
                        == old(self).interface@ && interface@ == old(self).interface@ && c@ == config@
                    &&& final(self).interface@ == old(self).interface@
                    &&& final(self).global@ == config@
                    &&& final(self).programs@.len() == 0
                    &&& final(self).filtered@.len() == 0
                },
                Message::Program { name, config } => {
                    &&& cmd matches Command::AddClasses { name: n, ingress, egress } && n@ == name@
                        && class_request_for(ingress, old(self).handles->Some_0.0, config.download_rate,
                        config.download_minimum_rate, config.download_priority)
                        && class_request_for(egress, old(self).handles->Some_0.1, config.upload_rate,
                        config.upload_minimum_rate, config.upload_priority)
                    &&& final(self).programs == old(self).programs
                    &&& final(self).filtered == old(self).filtered
                },
            },
            old(self).phase == Phase::Stopped ==> cmd is Idle && final(self).phase == Phase::Stopped,
            old(self).phase != Phase::Stopped && !(msg is Stop) ==> final(self).phase == old(self).phase,
            !(msg is Stop) && !(msg is Interface) && !(old(self).phase == Phase::Active && msg is Global) ==> {
                &&& final(self).programs == old(self).programs
                &&& final(self).filtered == old(self).filtered
            },
    {
        match self.phase {
            Phase::Stopped => Command::Idle,
            Phase::AwaitingInterface => match msg {
                Message::Stop => {
                    self.phase = Phase::Stopped;
                    Command::Exit
                },
                Message::Interface(name) => {
                    self.interface = name.clone();
                    self.programs = Vec::new();
                    self.filtered = Vec::new();
                    Command::Setup { interface: name, config: self.global.duplicate() }
                },
                Message::Global { config } => {
                    self.global = config;
                    Command::Idle
                },
                Message::Program { .. } => Command::Idle,
            },
            Phase::Active => {
                let (ingress_device, ingress, egress) = match &self.handles {
                    Some(h) => (h.0.device.clone(), h.0.duplicate(), h.1.duplicate()),
                    None => {
                        proof {
                            assert(false);
                        }
                        return Command::Idle;
                    },
                };
                match msg {
                    Message::Stop => {
                        self.phase = Phase::Stopped;
                        Command::Shutdown { ingress_device, egress_device: self.interface.clone() }
                    },
                    Message::Interface(name) => {
                        let egress_device = self.interface.clone();
                        self.interface = name.clone();
                        self.programs = Vec::new();
                        self.filtered = Vec::new();
                        Command::Rebuild {
                            ingress_device,
                            egress_device,
                            interface: name,
                            config: self.global.duplicate(),
                        }
                    },
                    Message::Global { config } => {
                        self.global = config;
                        self.programs = Vec::new();
                        self.filtered = Vec::new();
                        Command::Rebuild {
                            ingress_device,
                            egress_device: self.interface.clone(),
                            interface: self.interface.clone(),
                            config: self.global.duplicate(),
                        }
                    },
                    Message::Program { name, config } => {
                        let down = class_request(
                            ingress,
                            &config.download_rate,
                            &config.download_minimum_rate,
                            config.download_priority,
                        );
                        let up = class_request(
                            egress,
                            &config.upload_rate,
                            &config.upload_minimum_rate,
                            config.upload_priority,
                        );
                        Command::AddClasses { name, ingress: down, egress: up }
                    },
                }
            },
        }
    }

    /// Records the hierarchy that a `Setup` or `Rebuild` built; the engine is active.
    pub fn installed(&mut self, ingress: QDisc, egress: QDisc)
        requires
            old(self).wf(),
        ensures
            final(self).wf(),
            final(self).phase == Phase::Active,
            final(self).handles == Some((ingress, egress)),
            final(self).programs == old(self).programs,
            final(self).filtered == old(self).filtered,
            final(self).interface == old(self).interface,
            final(self).global == old(self).global,
    {
        self.handles = Some((ingress, egress));
        self.phase = Phase::Active;
    }

    /// Records the classes added for program `name`, in place of any it had.
    pub fn classes_added(&mut self, name: String, ingress: Option<usize>, egress: Option<usize>)
        requires
            old(self).wf(),
        ensures
            final(self).wf(),
            has_program(old(self).programs@, name@) ==> exists|i: int|
                0 <= i < old(self).programs@.len() && old(self).programs@[i].name@ == name@
                    && final(self).programs@ == old(self).programs@.update(
                    i,
                    ProgramClasses { name, ingress, egress },
                ),
            !has_program(old(self).programs@, name@) ==> final(self).programs@
                == old(self).programs@.push(ProgramClasses { name, ingress, egress }),
            final(self).filtered == old(self).filtered,
            final(self).phase == old(self).phase,
            final(self).handles == old(self).handles,
            final(self).interface == old(self).interface,
            final(self).global == old(self).global,
    {
        let ghost ps = self.programs@;
        let entry = ProgramClasses { name: name.clone(), ingress, egress };
        assert(entry == ProgramClasses { name, ingress, egress });
        match find_program(&self.programs, &name) {
            Some(i) => {
                self.programs.set(i, entry);
                proof {
                    assert forall|a: int, b: int| 0 <= a < b < self.programs@.len() implies self.programs@[a].name@
                        != self.programs@[b].name@ by {
                        if a != i as int {
                            assert(self.programs@[a] == ps[a]);
                        }
                        if b != i as int {
                            assert(self.programs@[b] == ps[b]);
                        }
                    }
                }
            },
            None => {
                self.programs.push(entry);
                proof {
                    assert forall|a: int, b: int| 0 <= a < b < self.programs@.len() implies self.programs@[a].name@
                        != self.programs@[b].name@ by {
                        assert(self.programs@[a] == ps[a]);
                        if b < ps.len() {
                            assert(self.programs@[b] == ps[b]);
                        }
                    }
                }
            },
        }
    }

    /// The engine's invariant: program names and filter keys are unique, and an
    /// active engine has its hierarchy's roots.
    pub open spec fn wf(&self) -> bool {
        &&& names_unique(self.programs@)
        &&& ports_unique(self.filtered@)
        &&& self.phase == Phase::Active ==> self.handles is Some
    }

    /// An engine waiting for its first interface, with no limits recorded.
    pub fn new() -> (r: Engine)
        ensures
            r.wf(),
            r.phase == Phase::AwaitingInterface,
            r.programs@.len() == 0,
            r.filtered@.len() == 0,
    {
        Engine {
            phase: Phase::AwaitingInterface,
            interface: String::new(),
            global: LimitConfig {
                download_rate: None,
                download_minimum_rate: None,
                upload_rate: None,
                upload_minimum_rate: None,
                download_priority: None,
                upload_priority: None,
            },
            handles: None,
            programs: Vec::new(),
            filtered: Vec::new(),
        }
    }
}

/// Entries added without classes claim nothing: the keys that `t` makes active are the
/// same before and after a cycle's placeholders.
proof fn lemma_placeholders_claim_nothing(
    ps0: Seq<ProgramClasses>,
    fs: Seq<FilterEntry>,
    t: Seq<ProcessConnections>,
    ps1: Seq<ProgramClasses>,
    plan: CyclePlan,
    k: DirPort,
)
    requires
        names_unique(ps0),
        cycle_planned(ps0, fs, t, ps1, plan),
    ensures
        port_active(ps1, t, k) == port_active(ps0, t, k),
{
    if port_active(ps1, t, k) {
        let (i, j, p, c) = choose|i: int, j: int, p: int, c: usize| #[trigger] claims(ps1, t, i, j, p, k, c);
        if p >= ps0.len() {
            let m = p - ps0.len();
            assert(ps1[ps0.len() + m].ingress is None);
        } else {
            assert(ps1[p] == ps0[p]);
            assert(claims(ps0, t, i, j, p, k, c));
        }
    }
    if port_active(ps0, t, k) {
        let (i, j, p, c) = choose|i: int, j: int, p: int, c: usize| #[trigger] claims(ps0, t, i, j, p, k, c);
        assert(ps1[p] == ps0[p]);
        assert(claims(ps1, t, i, j, p, k, c));
    }
}

/// Once a cycle's pending filters are installed and the table finished, a cycle over
/// the same connections announces no program, installs no filter and removes none.
pub proof fn lemma_cycle_settles(
    ps0: Seq<ProgramClasses>,
    fs0: Seq<FilterEntry>,
    t: Seq<ProcessConnections>,
    ps1: Seq<ProgramClasses>,
    plan1: CyclePlan,
    installed: Seq<FilterEntry>,
    fs1: Seq<FilterEntry>,
    ps2: Seq<ProgramClasses>,
    plan2: CyclePlan,
)
    requires
        names_unique(ps0),
        ports_unique(fs0),
        cycle_planned(ps0, fs0, t, ps1, plan1),
        forall|k: DirPort| is_filtered(installed, k) <==> is_pending(plan1.add@, k),
        cycle_finished(plan1.kept@, installed, fs1),
        cycle_planned(ps1, fs1, t, ps2, plan2),
    ensures
        plan2.notify@.len() == 0,
        plan2.add@.len() == 0,
        plan2.remove@.len() == 0,
        ps2 == ps1,
{
    assert forall|k: DirPort| is_filtered(fs1, k) <==> port_active(ps1, t, k) by {
        lemma_placeholders_claim_nothing(ps0, fs0, t, ps1, plan1, k);
    }
    if plan2.add@.len() > 0 {
        let k = plan2.add@[0].port;
        assert(is_pending(plan2.add@, k));
    }
    if plan2.remove@.len() > 0 {
        let e = plan2.remove@[0];
        assert(fs1.contains(e));
        let m = choose|m: int| 0 <= m < fs1.len() && fs1[m] == e;
        assert(is_filtered(fs1, fs1[m].port));
    }
    if plan2.notify@.len() > 0 {
        let n = plan2.notify@[0];
        let r = choose|r: int| 0 <= r < t.len() && (#[trigger] t[r]).name@ == n@;
        assert(has_program(ps1, t[r].name@));
    }
    assert(ps2 =~= ps1);
}

/// A filter installed on a key that no live connection of a program with classes
/// claims any longer is removed by the next cycle and is gone from the table after it.
pub proof fn lemma_freed_port_removed(
    ps0: Seq<ProgramClasses>,
    fs0: Seq<FilterEntry>,
    t: Seq<ProcessConnections>,
    ps1: Seq<ProgramClasses>,
    plan: CyclePlan,
    installed: Seq<FilterEntry>,
    fs1: Seq<FilterEntry>,
    m: int,
)
    requires
        names_unique(ps0),
        ports_unique(fs0),
        cycle_planned(ps0, fs0, t, ps1, plan),
        forall|k: DirPort| is_filtered(installed, k) <==> is_pending(plan.add@, k),
        cycle_finished(plan.kept@, installed, fs1),
        0 <= m < fs0.len(),
        !port_active(ps0, t, fs0[m].port),
    ensures
        plan.remove@.contains(fs0[m]),
        !is_filtered(fs1, fs0[m].port),
        forall|e: FilterEntry| #[trigger] plan.remove@.contains(e) ==> fs0.contains(e) && !port_active(ps0, t, e.port),
{
    let k = fs0[m].port;
    assert(!is_filtered(plan.kept@, k));
    assert(!is_pending(plan.add@, k));
    assert forall|e: FilterEntry| #[trigger] plan.remove@.contains(e) implies fs0.contains(e) && !port_active(ps0, t, e.port) by {
        let x = choose|x: int| 0 <= x < plan.remove@.len() && plan.remove@[x] == e;
        assert(fs0.contains(plan.remove@[x]));
    }
}

} // verus!
