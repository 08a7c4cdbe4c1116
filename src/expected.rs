//! What the open tickets ask of each node.
use vstd::prelude::*;
use crate::model::{is_open_ish, IssueStatus, TargetStatus, ToOffline};
use crate::reconcile::NodeReport;
use crate::store::Store;
use crate::topology::{view_names, RegexCluster};

verus! {

/// The nodes that a ticket on node `name` with scope `scope` takes out of service:
/// the node itself, its card or its blade. A ticket without scope names its node alone.
pub open spec fn implicated(cluster: RegexCluster, scope: Option<ToOffline>, name: Seq<char>) -> Seq<
    Seq<char>,
> {
    match scope {
        Some(ToOffline::Card) => cluster.spec_siblings(name),
        Some(ToOffline::Blade) => cluster.spec_cousins(name),
        _ => seq![name],
    }
}

impl Store {
    /// Ticket `i` is open and drains node `name`.
    pub open spec fn drains(&self, cluster: RegexCluster, i: int, name: Seq<char>) -> bool {
        &&& is_open_ish(self.issues@[i].status)
        &&& self.issues@[i].to_offline is Some
        &&& implicated(cluster, self.issues@[i].to_offline, self.target_name(i)).contains(name)
    }

    /// Ticket `i` is open, has no scope and is on node `name`.
    pub open spec fn marks_down(&self, i: int, name: Seq<char>) -> bool {
        &&& is_open_ish(self.issues@[i].status)
        &&& self.issues@[i].to_offline is None
        &&& self.target_name(i) == name
    }

    /// Ticket `i` waits in Closing and covers node `name`.
    pub open spec fn closing_covers(&self, cluster: RegexCluster, i: int, name: Seq<char>) -> bool {
        &&& self.issues@[i].status == IssueStatus::Closing
        &&& implicated(cluster, self.issues@[i].to_offline, self.target_name(i)).contains(name)
    }

    /// The status that the open tickets ask of node `name`: Offline where a ticket with
    /// a scope covers it, else Down where a ticket without scope is on it, else Online.
    pub open spec fn expected_status(&self, cluster: RegexCluster, name: Seq<char>) -> TargetStatus {
        if exists|i: int| 0 <= i < self.issues@.len() && #[trigger] self.drains(cluster, i, name) {
            TargetStatus::Offline
        } else if exists|i: int| 0 <= i < self.issues@.len() && #[trigger] self.marks_down(i, name) {
            TargetStatus::Down
        } else {
            TargetStatus::Online
        }
    }

    /// Some ticket in Closing covers node `name`.
    pub open spec fn has_closing(&self, cluster: RegexCluster, name: Seq<char>) -> bool {
        exists|i: int| 0 <= i < self.issues@.len() && #[trigger] self.closing_covers(cluster, i, name)
    }
}

/// Names of the nodes that a ticket with scope `scope` on node `name` covers.
pub fn implicated_names(cluster: &RegexCluster, scope: Option<ToOffline>, name: &String) -> (r: Vec<
    String,
>)
    ensures
        view_names(r@) == implicated(*cluster, scope, name@),
{
    match scope {
        Some(ToOffline::Card) => cluster.siblings(name.as_str()),
        Some(ToOffline::Blade) => cluster.cousins(name.as_str()),
        _ => {
            let mut v: Vec<String> = Vec::new();
            v.push(name.clone());
            assert(view_names(v@) =~= seq![name@]);
            v
        },
    }
}

/// Whether `v` holds `name`.
pub fn contains_name(v: &Vec<String>, name: &String) -> (r: bool)
    ensures
        r == view_names(v@).contains(name@),
{
    let mut k: usize = 0;
    while k < v.len()
        invariant
            k <= v@.len(),
            forall|j: int| 0 <= j < k ==> (#[trigger] v@[j])@ != name@,
        decreases v@.len() - k,
    {
        if v[k] == *name {
            assert(view_names(v@)[k as int] == name@);
            return true;
        }
        k = k + 1;
    }
    proof {
        if view_names(v@).contains(name@) {
            let j = choose|j: int| 0 <= j < view_names(v@).len() && view_names(v@)[j] == name@;
            assert(v@[j]@ == name@);
        }
    }
    false
}

impl Store {
    /// Names of the nodes that ticket `j` covers: its node, card or blade.
    pub fn get_related(&self, cluster: &RegexCluster, j: usize) -> (r: Vec<String>)
        requires
            self.wf(),
            j < self.issues@.len(),
        ensures
            view_names(r@) == implicated(*cluster, self.issues@[j as int].to_offline, self.target_name(j as int)),
    {
        assert(self.issues@[j as int].id == j + 1);
        let t = (self.issues[j].target_id - 1) as usize;
        implicated_names(cluster, self.issues[j].to_offline, &self.targets[t].name)
    }

    /// The status that the open tickets ask of node `name`.
    pub fn desired_state(&self, cluster: &RegexCluster, name: &String) -> (r: TargetStatus)
        requires
            self.wf(),
        ensures
            r == self.expected_status(*cluster, name@),
    {
        let mut offline = false;
        let mut down = false;
        let mut j: usize = 0;
        while j < self.issues.len()
            invariant
                self.wf(),
                j <= self.issues@.len(),
                offline == exists|i: int| 0 <= i < j && #[trigger] self.drains(*cluster, i, name@),
                down == exists|i: int| 0 <= i < j && #[trigger] self.marks_down(i, name@),
            decreases self.issues@.len() - j,
        {
            let st = self.issues[j].status;
            if st == IssueStatus::Opening || st == IssueStatus::Open {
                let covered = self.get_related(cluster, j);
                if contains_name(&covered, name) {
                    if self.issues[j].to_offline.is_some() {
                        offline = true;
                    } else {
                        down = true;
                        assert(self.marks_down(j as int, name@));
                    }
                }
            }
            proof {
                if !self.drains(*cluster, j as int, name@) {
                    assert(forall|i: int| 0 <= i < j + 1 && #[trigger] self.drains(*cluster, i, name@) ==> i < j);
                }
                if !self.marks_down(j as int, name@) {
                    assert(forall|i: int| 0 <= i < j + 1 && #[trigger] self.marks_down(i, name@) ==> i < j);
                } else {
                    assert(implicated(*cluster, None, self.target_name(j as int)) =~= seq![self.target_name(j as int)]);
                    assert(implicated(*cluster, None, self.target_name(j as int))[0] == name@);
                }
            }
            j = j + 1;
        }
        if offline {
            TargetStatus::Offline
        } else if down {
            TargetStatus::Down
        } else {
            TargetStatus::Online
        }
    }

    /// The tickets in Closing that cover node `name`, in id order; none for a name that
    /// is no node.
    pub fn related_closing(&self, cluster: &RegexCluster, name: &String) -> (r: Vec<usize>)
        requires
            self.wf(),
        ensures
            forall|i: int| 0 <= i < r@.len() ==> #[trigger] r@[i] < self.issues@.len(),
            forall|i: int, k: int| 0 <= i < k < r@.len() ==> r@[i] < r@[k],
            forall|j: int| 0 <= j < self.issues@.len() ==> (r@.contains(j as usize) <==> cluster.spec_real_node(name@)
                && #[trigger] self.closing_covers(*cluster, j, name@)),
    {
        let mut out: Vec<usize> = Vec::new();
        if !cluster.real_node(name.as_str()) {
            return out;
        }
        let mut j: usize = 0;
        while j < self.issues.len()
            invariant
                self.wf(),
                cluster.spec_real_node(name@),
                j <= self.issues@.len(),
                forall|i: int| 0 <= i < out@.len() ==> #[trigger] out@[i] < j,
                forall|i: int, k: int| 0 <= i < k < out@.len() ==> out@[i] < out@[k],
                forall|x: int| 0 <= x < j ==> (out@.contains(x as usize) <==> #[trigger] self.closing_covers(*cluster, x, name@)),
            decreases self.issues@.len() - j,
        {
            let mut hit = false;
            if self.issues[j].status == IssueStatus::Closing {
                let covered = self.get_related(cluster, j);
                hit = contains_name(&covered, name);
            }
            assert(hit == self.closing_covers(*cluster, j as int, name@));
            let ghost prev = out@;
            if hit {
                out.push(j);
            }
            proof {
                assert forall|x: int| 0 <= x < j + 1 implies (out@.contains(x as usize) <==> #[trigger] self.closing_covers(*cluster, x, name@)) by {
                    if x < j {
                        if prev.contains(x as usize) {
                            let i = choose|i: int| 0 <= i < prev.len() && prev[i] == x as usize;
                            assert(out@[i] == x as usize);
                        }
                        if out@.contains(x as usize) {
                            let i = choose|i: int| 0 <= i < out@.len() && out@[i] == x as usize;
                            if i < prev.len() {
                                assert(prev[i] == x as usize);
                            }
                        }
                    } else {
                        if hit {
                            assert(out@[prev.len() as int] == j);
                        } else if out@.contains(x as usize) {
                            let i = choose|i: int| 0 <= i < out@.len() && out@[i] == x as usize;
                            assert(prev[i] < j);
                        }
                    }
                }
            }
            j = j + 1;
        }
        out
    }

    /// Whether some ticket in Closing covers node `name`.
    pub(crate) fn has_closing_ticket(&self, cluster: &RegexCluster, name: &String) -> (r: bool)
        requires
            self.wf(),
        ensures
            r == self.has_closing(*cluster, name@),
    {
        let mut j: usize = 0;
        while j < self.issues.len()
            invariant
                self.wf(),
                j <= self.issues@.len(),
                forall|i: int| 0 <= i < j ==> !#[trigger] self.closing_covers(*cluster, i, name@),
            decreases self.issues@.len() - j,
        {
            if self.issues[j].status == IssueStatus::Closing {
                let covered = self.get_related(cluster, j);
                if contains_name(&covered, name) {
                    assert(self.closing_covers(*cluster, j as int, name@));
                    return true;
                }
            }
            j = j + 1;
        }
        false
    }
}

/// The nodes besides its own that a scope names: the blade for Blade, the card for
/// Card, none for Node or no scope.
pub open spec fn spec_node_group(cluster: RegexCluster, target: Seq<char>, group: Option<ToOffline>) -> Seq<Seq<char>> {
    match group {
        Some(ToOffline::Blade) => cluster.spec_cousins(target),
        Some(ToOffline::Card) => cluster.spec_siblings(target),
        _ => Seq::empty(),
    }
}

pub fn node_group(target: &str, group: Option<ToOffline>, cluster: &RegexCluster) -> (r: Vec<String>)
    ensures
        view_names(r@) == spec_node_group(*cluster, target@, group),
{
    match group {
        Some(ToOffline::Blade) => cluster.cousins(target),
        Some(ToOffline::Card) => cluster.siblings(target),
        _ => Vec::new(),
    }
}

/// The nodes of `target`'s group other than `target` that the scheduler reports and that
/// are not offline yet: those that opening a ticket with scope `group` would take out.
pub fn to_offline(target: &str, status: &Vec<NodeReport>, group: Option<ToOffline>, cluster: &RegexCluster) -> (r: Vec<String>)
    ensures
        forall|m: Seq<char>| #[trigger] view_names(r@).contains(m) <==> (exists|q: int|
            0 <= q < status@.len() && status@[q].name@ == m && status@[q].status != TargetStatus::Offline)
            && spec_node_group(*cluster, target@, group).contains(m) && m != target@,
{
    let grp = node_group(target, group, cluster);
    let me = String::from_str(target);
    let mut out: Vec<String> = Vec::new();
    let mut q: usize = 0;
    while q < status.len()
        invariant
            q <= status@.len(),
            me@ == target@,
            view_names(grp@) == spec_node_group(*cluster, target@, group),
            forall|m: Seq<char>| #[trigger] view_names(out@).contains(m) <==> (exists|p: int|
                0 <= p < q && status@[p].name@ == m && status@[p].status != TargetStatus::Offline)
                && view_names(grp@).contains(m) && m != target@,
        decreases status@.len() - q,
    {
        let ghost prev = view_names(out@);
        let n = &status[q].name;
        let keep = status[q].status != TargetStatus::Offline && contains_name(&grp, n) && !(*n == me);
        if keep {
            out.push(n.clone());
        }
        proof {
            let x = status@[q as int].name@;
            if keep {
                assert(view_names(out@) =~= prev.push(x));
            } else {
                assert(view_names(out@) =~= prev);
            }
            assert forall|m: Seq<char>| #[trigger] view_names(out@).contains(m) <==> (exists|p: int|
                0 <= p < q + 1 && status@[p].name@ == m && status@[p].status != TargetStatus::Offline)
                && view_names(grp@).contains(m) && m != target@ by {
                if keep && m == x {
                    assert(view_names(out@)[prev.len() as int] == m);
                }
                if keep && view_names(out@).contains(m) && m != x {
                    let i = choose|i: int| 0 <= i < view_names(out@).len() && view_names(out@)[i] == m;
                    assert(prev[i] == m);
                }
                if keep && prev.contains(m) {
                    let i = choose|i: int| 0 <= i < prev.len() && prev[i] == m;
                    assert(view_names(out@)[i] == m);
                }
                if (exists|p: int| 0 <= p < q + 1 && status@[p].name@ == m && status@[p].status != TargetStatus::Offline)
                    && !(exists|p: int| 0 <= p < q && status@[p].name@ == m && status@[p].status != TargetStatus::Offline) {
                    assert(m == x);
                }
            }
        }
        q = q + 1;
    }
    out
}

/// One entry of the expected-state map: a node that the open tickets keep out of service.
pub struct Expected {
    pub name: String,
    pub status: TargetStatus,
}

pub open spec fn entry_names(m: Seq<Expected>) -> Seq<Seq<char>> {
    m.map_values(|e: Expected| e.name@)
}

impl Store {
    /// The status that tickets `0..j` ask of node `name`.
    pub open spec fn expected_before(&self, cluster: RegexCluster, j: int, name: Seq<char>) -> TargetStatus {
        if exists|i: int| 0 <= i < j && #[trigger] self.drains(cluster, i, name) {
            TargetStatus::Offline
        } else if exists|i: int| 0 <= i < j && #[trigger] self.marks_down(i, name) {
            TargetStatus::Down
        } else {
            TargetStatus::Online
        }
    }
}

/// `m` lists, once each, the nodes whose status under `f` is not Online, with that status.
pub open spec fn represents(m: Seq<Expected>, f: spec_fn(Seq<char>) -> TargetStatus) -> bool {
    &&& forall|a: int, b: int| 0 <= a < b < m.len() ==> (#[trigger] m[a]).name@ != (#[trigger] m[b]).name@
    &&& forall|k: int| 0 <= k < m.len() ==> (#[trigger] m[k]).status == f(m[k].name@) && m[k].status != TargetStatus::Online
    &&& forall|n: Seq<char>| #[trigger] f(n) != TargetStatus::Online ==> entry_names(m).contains(n)
}

/// Index of the entry for `name`.
fn find_entry(m: &Vec<Expected>, name: &String) -> (r: Option<usize>)
    ensures
        r matches Some(k) ==> k < m@.len() && m@[k as int].name@ == name@,
        r is None ==> !entry_names(m@).contains(name@),
{
    let mut k: usize = 0;
    while k < m.len()
        invariant
            k <= m@.len(),
            forall|j: int| 0 <= j < k ==> (#[trigger] m@[j]).name@ != name@,
        decreases m@.len() - k,
    {
        if m[k].name == *name {
            return Some(k);
        }
        k = k + 1;
    }
    proof {
        if entry_names(m@).contains(name@) {
            let j = choose|j: int| 0 <= j < entry_names(m@).len() && entry_names(m@)[j] == name@;
            assert(m@[j].name@ == name@);
        }
    }
    None
}

/// The status that the map `m`, built for `f`, gives node `name`.
pub(crate) fn lookup(m: &Vec<Expected>, name: &String, f: Ghost<spec_fn(Seq<char>) -> TargetStatus>) -> (r: TargetStatus)
    requires
        represents(m@, f@),
    ensures
        r == (f@)(name@),
{
    match find_entry(m, name) {
        Some(k) => m[k].status,
        None => TargetStatus::Online,
    }
}

/// Sets the entry of `name` to `st`, or adds one; `only_if_absent` leaves an entry that is
/// there as it is.
fn put_entry(
    m: &mut Vec<Expected>,
    name: &String,
    st: TargetStatus,
    only_if_absent: bool,
    f: Ghost<spec_fn(Seq<char>) -> TargetStatus>,
    g: Ghost<spec_fn(Seq<char>) -> TargetStatus>,
)
    requires
        represents(old(m)@, f@),
        st != TargetStatus::Online,
        (g@)(name@) == (if only_if_absent && (f@)(name@) != TargetStatus::Online { (f@)(name@) } else { st }),
        forall|n: Seq<char>| n != name@ ==> #[trigger] (g@)(n) == (f@)(n),
    ensures
        represents(final(m)@, g@),
{
    let ghost pre = m@;
    match find_entry(m, name) {
        Some(k) => {
            if !only_if_absent {
                m[k].status = st;
            }
            proof {
                assert forall|n: Seq<char>| #[trigger] (g@)(n) != TargetStatus::Online implies entry_names(m@).contains(n) by {
                    if n != name@ {
                        assert(entry_names(pre).contains(n));
                        let j = choose|j: int| 0 <= j < entry_names(pre).len() && entry_names(pre)[j] == n;
                        assert(entry_names(m@)[j] == n);
                    } else {
                        assert(entry_names(m@)[k as int] == n);
                    }
                }
                assert forall|j: int| 0 <= j < m@.len() implies (#[trigger] m@[j]).status == (g@)(m@[j].name@)
                    && m@[j].status != TargetStatus::Online by {
                    if j != k {
                        assert(m@[j] == pre[j]);
                        assert(pre[j].name@ != name@);
                    }
                }
                assert forall|a: int, b: int| 0 <= a < b < m@.len() implies (#[trigger] m@[a]).name@ != (#[trigger] m@[b]).name@ by {
                    assert(m@[a].name@ == pre[a].name@);
                    assert(m@[b].name@ == pre[b].name@);
                }
            }
        },
        None => {
            m.push(Expected { name: name.clone(), status: st });
            proof {
                let n0 = pre.len() as int;
                assert forall|n: Seq<char>| #[trigger] (g@)(n) != TargetStatus::Online implies entry_names(m@).contains(n) by {
                    if n != name@ {
                        assert(entry_names(pre).contains(n));
                        let j = choose|j: int| 0 <= j < entry_names(pre).len() && entry_names(pre)[j] == n;
                        assert(entry_names(m@)[j] == n);
                    } else {
                        assert(entry_names(m@)[n0] == n);
                    }
                }
                assert forall|j: int| 0 <= j < m@.len() implies (#[trigger] m@[j]).status == (g@)(m@[j].name@)
                    && m@[j].status != TargetStatus::Online by {
                    if j < n0 {
                        assert(m@[j] == pre[j]);
                        assert(entry_names(pre)[j] == pre[j].name@);
                    }
                }
                assert forall|a: int, b: int| 0 <= a < b < m@.len() implies (#[trigger] m@[a]).name@ != (#[trigger] m@[b]).name@ by {
                    if b == n0 {
                        assert(entry_names(pre)[a] == pre[a].name@);
                    }
                }
            }
        },
    }
}

impl Store {
    proof fn lemma_before_step(&self, cluster: RegexCluster, j: int, n: Seq<char>)
        requires
            0 <= j,
        ensures
            self.expected_before(cluster, j + 1, n) == if self.drains(cluster, j, n) {
                TargetStatus::Offline
            } else if self.marks_down(j, n) && self.expected_before(cluster, j, n) == TargetStatus::Online {
                TargetStatus::Down
            } else {
                self.expected_before(cluster, j, n)
            },
    {
        if exists|i: int| 0 <= i < j + 1 && #[trigger] self.drains(cluster, i, n) {
            let i = choose|i: int| 0 <= i < j + 1 && #[trigger] self.drains(cluster, i, n);
            if i < j {
                assert(exists|i: int| 0 <= i < j && #[trigger] self.drains(cluster, i, n));
            }
        }
        if exists|i: int| 0 <= i < j + 1 && #[trigger] self.marks_down(i, n) {
            let i = choose|i: int| 0 <= i < j + 1 && #[trigger] self.marks_down(i, n);
            if i < j {
                assert(exists|i: int| 0 <= i < j && #[trigger] self.marks_down(i, n));
            }
        }
        if exists|i: int| 0 <= i < j && #[trigger] self.drains(cluster, i, n) {
            let i = choose|i: int| 0 <= i < j && #[trigger] self.drains(cluster, i, n);
            assert(0 <= i < j + 1 && self.drains(cluster, i, n));
        }
        if exists|i: int| 0 <= i < j && #[trigger] self.marks_down(i, n) {
            let i = choose|i: int| 0 <= i < j && #[trigger] self.marks_down(i, n);
            assert(0 <= i < j + 1 && self.marks_down(i, n));
        }
    }

    /// The expected-state map: one pass over the open tickets, each folding the nodes it
    /// covers in. A ticket with a scope marks them Offline, which wins over Down; one
    /// without marks its node Down. Nodes left out are expected Online.
    pub fn get_expected_state(&self, cluster: &RegexCluster) -> (r: Vec<Expected>)
        requires
            self.wf(),
        ensures
            represents(r@, |n: Seq<char>| self.expected_status(*cluster, n)),
    {
        let mut m: Vec<Expected> = Vec::new();
        let mut j: usize = 0;
        proof {
            assert forall|n: Seq<char>| #[trigger] self.expected_before(*cluster, 0, n) == TargetStatus::Online by {}
        }
        while j < self.issues.len()
            invariant
                self.wf(),
                j <= self.issues@.len(),
                represents(m@, |n: Seq<char>| self.expected_before(*cluster, j as int, n)),
            decreases self.issues@.len() - j,
        {
            let ghost f = |n: Seq<char>| self.expected_before(*cluster, j as int, n);
            let ghost h = |n: Seq<char>| self.expected_before(*cluster, j + 1, n);
            let st = self.issues[j].status;
            if st == IssueStatus::Opening || st == IssueStatus::Open {
                let covered = self.get_related(cluster, j);
                let scope = self.issues[j].to_offline;
                let mut p: usize = 0;
                while p < covered.len()
                    invariant
                        self.wf(),
                        j < self.issues@.len(),
                        is_open_ish(self.issues@[j as int].status),
                        scope == self.issues@[j as int].to_offline,
                        view_names(covered@) == implicated(*cluster, scope, self.target_name(j as int)),
                        p <= covered@.len(),
                        f == |n: Seq<char>| self.expected_before(*cluster, j as int, n),
                        represents(m@, |n: Seq<char>| if view_names(covered@).subrange(0, p as int).contains(n) {
                            if scope is Some {
                                TargetStatus::Offline
                            } else if f(n) == TargetStatus::Online {
                                TargetStatus::Down
                            } else {
                                f(n)
                            }
                        } else {
                            f(n)
                        }),
                    decreases covered@.len() - p,
                {
                    let ghost names = view_names(covered@);
                    let ghost x = names[p as int];
                    let ghost fp = |n: Seq<char>| if names.subrange(0, p as int).contains(n) {
                        if scope is Some {
                            TargetStatus::Offline
                        } else if f(n) == TargetStatus::Online {
                            TargetStatus::Down
                        } else {
                            f(n)
                        }
                    } else {
                        f(n)
                    };
                    let ghost gp = |n: Seq<char>| if names.subrange(0, p + 1).contains(n) {
                        if scope is Some {
                            TargetStatus::Offline
                        } else if f(n) == TargetStatus::Online {
                            TargetStatus::Down
                        } else {
                            f(n)
                        }
                    } else {
                        f(n)
                    };
                    proof {
                        assert(names.subrange(0, p + 1) =~= names.subrange(0, p as int).push(x));
                        assert forall|n: Seq<char>| n != x implies #[trigger] gp(n) == fp(n) by {
                            if names.subrange(0, p + 1).contains(n) {
                                let i = choose|i: int| 0 <= i < p + 1 && #[trigger] names.subrange(0, p + 1)[i] == n;
                                assert(names.subrange(0, p as int)[i] == n);
                            }
                            if names.subrange(0, p as int).contains(n) {
                                let i = choose|i: int| 0 <= i < p && #[trigger] names.subrange(0, p as int)[i] == n;
                                assert(names.subrange(0, p + 1)[i] == n);
                            }
                        }
                        assert(names.subrange(0, p + 1)[p as int] == x);
                    }
                    if scope.is_some() {
                        put_entry(&mut m, &covered[p], TargetStatus::Offline, false, Ghost(fp), Ghost(gp));
                    } else {
                        put_entry(&mut m, &covered[p], TargetStatus::Down, true, Ghost(fp), Ghost(gp));
                    }
                    p = p + 1;
                }
                proof {
                    let names = view_names(covered@);
                    assert(names.subrange(0, p as int) =~= names);
                    assert forall|n: Seq<char>| #[trigger] h(n) == (if names.contains(n) {
                        if scope is Some {
                            TargetStatus::Offline
                        } else if f(n) == TargetStatus::Online {
                            TargetStatus::Down
                        } else {
                            f(n)
                        }
                    } else {
                        f(n)
                    }) by {
                        self.lemma_before_step(*cluster, j as int, n);
                        if scope is None {
                            assert(implicated(*cluster, None, self.target_name(j as int)) =~= seq![self.target_name(j as int)]);
                            if names.contains(n) {
                                let i = choose|i: int| 0 <= i < names.len() && #[trigger] names[i] == n;
                                assert(n == self.target_name(j as int));
                            }
                            if self.target_name(j as int) == n {
                                assert(names[0] == n);
                            }
                        }
                    }
                    let full = |n: Seq<char>| if names.subrange(0, p as int).contains(n) {
                        if scope is Some {
                            TargetStatus::Offline
                        } else if f(n) == TargetStatus::Online {
                            TargetStatus::Down
                        } else {
                            f(n)
                        }
                    } else {
                        f(n)
                    };
                    assert(full =~= h);
                }
            } else {
                proof {
                    assert forall|n: Seq<char>| #[trigger] h(n) == f(n) by {
                        assert(!self.drains(*cluster, j as int, n));
                        assert(!self.marks_down(j as int, n));
                        if exists|i: int| 0 <= i < j + 1 && #[trigger] self.drains(*cluster, i, n) {
                            let i = choose|i: int| 0 <= i < j + 1 && #[trigger] self.drains(*cluster, i, n);
                            assert(i < j);
                        }
                        if exists|i: int| 0 <= i < j + 1 && #[trigger] self.marks_down(i, n) {
                            let i = choose|i: int| 0 <= i < j + 1 && #[trigger] self.marks_down(i, n);
                            assert(i < j);
                        }
                    }
                    assert(h =~= f);
                }
            }
            j = j + 1;
        }
        proof {
            let f = |n: Seq<char>| self.expected_before(*cluster, j as int, n);
            let e = |n: Seq<char>| self.expected_status(*cluster, n);
            assert(f =~= e);
        }
        m
    }
}

} // verus!
