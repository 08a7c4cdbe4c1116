//! The reconciler: one pass that brings the scheduler and the store in line with the
//! open tickets.
use vstd::prelude::*;
use crate::model::{is_open_ish, ChangeLogMsg, Issue, IssueStatus, NewIssue, TargetStatus};
use crate::store::{refreshed, Store, MAX_ROWS};
use crate::expected::{lookup, represents};
use crate::topology::RegexCluster;

verus! {

/// What the scheduler says of one node.
pub struct NodeReport {
    pub name: String,
    pub status: TargetStatus,
    pub comment: String,
}

/// What the reconciler does about one node.
#[derive(Debug, Clone, Copy, PartialEq, Eq, Structural)]
pub enum Step {
    /// Nothing to do.
    Keep,
    /// Clear the node's offline mark.
    Release,
    /// Mark the node offline.
    Offline,
    /// Open a ticket for a node that went down with no ticket.
    OpenTicket,
    /// Close the tickets of a node found up again.
    CloseIssues,
}

/// A call for the scheduler to make.
pub enum SchedAction {
    Offline { target: String, comment: String },
    Release { target: String },
}

/// The step for a node and the status the store then believes, from the status that
/// the tickets ask (`expected`), the one the scheduler reports (`current`), and whether
/// a ticket in Closing covers the node.
pub open spec fn spec_transition(expected: TargetStatus, current: TargetStatus, closing: bool) -> (
    Step,
    TargetStatus,
) {
    match expected {
        TargetStatus::Offline => match current {
            TargetStatus::Draining => (Step::Keep, TargetStatus::Draining),
            TargetStatus::Offline => (Step::Keep, TargetStatus::Offline),
            TargetStatus::Down => (Step::Offline, TargetStatus::Offline),
            TargetStatus::Online => (Step::Offline, TargetStatus::Draining),
        },
        TargetStatus::Down => match current {
            TargetStatus::Online => (Step::CloseIssues, TargetStatus::Online),
            c => (Step::Keep, c),
        },
        _ => if current == TargetStatus::Online {
            (Step::Keep, TargetStatus::Online)
        } else if closing {
            (Step::Release, TargetStatus::Online)
        } else {
            (Step::OpenTicket, current)
        },
    }
}

/// Decides the step for one node; `expected` is never Draining.
pub fn handle_transition(expected: TargetStatus, current: TargetStatus, closing: bool) -> (r: (
    Step,
    TargetStatus,
))
    requires
        expected != TargetStatus::Draining,
    ensures
        r == spec_transition(expected, current, closing),
{
    match expected {
        TargetStatus::Offline => match current {
            TargetStatus::Draining => (Step::Keep, TargetStatus::Draining),
            TargetStatus::Offline => (Step::Keep, TargetStatus::Offline),
            TargetStatus::Down => (Step::Offline, TargetStatus::Offline),
            TargetStatus::Online => (Step::Offline, TargetStatus::Draining),
        },
        TargetStatus::Down => match current {
            TargetStatus::Online => (Step::CloseIssues, TargetStatus::Online),
            c => (Step::Keep, c),
        },
        _ => if current == TargetStatus::Online {
            (Step::Keep, TargetStatus::Online)
        } else if closing {
            (Step::Release, TargetStatus::Online)
        } else {
            (Step::OpenTicket, current)
        },
    }
}

/// Ticket `iss` moved to phase `st` at `now`.
pub open spec fn with_status(iss: Issue, st: IssueStatus, now: i64) -> Issue {
    Issue { status: st, updated_at: refreshed(iss.updated_at, now), ..iss }
}

/// Ticket `iss` after a pass that leaves it in phase `st` at `now`: unchanged where the
/// phase is the same.
pub open spec fn after_phase(iss: Issue, st: IssueStatus, now: i64) -> Issue {
    if st == iss.status {
        iss
    } else {
        with_status(iss, st, now)
    }
}

impl Store {
    fn set_issue_status(&mut self, j: usize, st: IssueStatus, now: i64)
        requires
            old(self).wf(),
            j < old(self).issues@.len(),
            is_open_ish(st) ==> is_open_ish(old(self).issues@[j as int].status),
        ensures
            final(self).wf(),
            final(self).targets == old(self).targets,
            final(self).comments == old(self).comments,
            final(self).issues@ == old(self).issues@.update(
                j as int,
                with_status(old(self).issues@[j as int], st, now),
            ),
    {
        let ghost pre = *self;
        let last = self.issues[j].updated_at;
        let stamp: i64 = if now > last {
            now
        } else if last < i64::MAX {
            last + 1
        } else {
            last
        };
        assert(stamp >= last);
        assert(pre.issues@[j as int].created_at <= last);
        self.issues[j].status = st;
        self.issues[j].updated_at = stamp;
        proof {
            assert(self.issues@ =~= pre.issues@.update(j as int, with_status(pre.issues@[j as int], st, now)));
            crate::store::lemma_wf_one_issue_changed(pre, *self, j as int);
        }
    }
}

pub open spec fn view_reports_names(reports: Seq<NodeReport>) -> Seq<Seq<char>> {
    reports.map_values(|r: NodeReport| r.name@)
}

/// Index of the first report on node `name`.
pub open spec fn first_report(reports: Seq<NodeReport>, name: Seq<char>) -> Option<int>
    decreases reports.len(),
{
    if reports.len() == 0 {
        None
    } else {
        match first_report(reports.drop_last(), name) {
            Some(q) => Some(q),
            None => if reports.last().name@ == name {
                Some(reports.len() - 1)
            } else {
                None
            },
        }
    }
}

pub proof fn lemma_first_report(reports: Seq<NodeReport>, name: Seq<char>)
    ensures
        first_report(reports, name) matches Some(q) ==> 0 <= q < reports.len() && reports[q].name@
            == name,
        first_report(reports, name) is None ==> forall|q: int|
            0 <= q < reports.len() ==> (#[trigger] reports[q]).name@ != name,
    decreases reports.len(),
{
    if reports.len() > 0 {
        lemma_first_report(reports.drop_last(), name);
        assert forall|q: int| 0 <= q < reports.len() - 1 implies reports.drop_last()[q] == reports[q] by {}
    }
}

/// Index of the first report on node `name`.
fn find_report(reports: &Vec<NodeReport>, name: &String) -> (r: Option<usize>)
    ensures
        r matches Some(q) ==> first_report(reports@, name@) == Some(q as int),
        r is None ==> first_report(reports@, name@) is None,
{
    let mut q: usize = 0;
    while q < reports.len()
        invariant
            q <= reports@.len(),
            first_report(reports@.subrange(0, q as int), name@) is None,
        decreases reports@.len() - q,
    {
        proof {
            assert(reports@.subrange(0, q + 1).drop_last() =~= reports@.subrange(0, q as int));
        }
        if reports[q].name == *name {
            proof {
                lemma_first_report_prefix(reports@, name@, q as int);
            }
            return Some(q);
        }
        q = q + 1;
    }
    assert(reports@.subrange(0, q as int) =~= reports@);
    None
}

proof fn lemma_first_report_prefix(reports: Seq<NodeReport>, name: Seq<char>, q: int)
    requires
        0 <= q < reports.len(),
        first_report(reports.subrange(0, q + 1), name) == Some(q),
    ensures
        first_report(reports, name) == Some(q),
    decreases reports.len(),
{
    if reports.len() > q + 1 {
        assert(reports.drop_last().subrange(0, q + 1) =~= reports.subrange(0, q + 1));
        lemma_first_report_prefix(reports.drop_last(), name, q);
    } else {
        assert(reports.subrange(0, q + 1) =~= reports);
    }
}

/// Store `s` holds the reconciler's comment that ticket `j` was closed because its node
/// was found up.
pub open spec fn has_found_up_comment(s: Store, j: int) -> bool {
    exists|c: int|
        0 <= c < s.comments@.len() && (#[trigger] s.comments@[c]).issue_id == j + 1
            && s.comments@[c].created_by@ == "ctt"@ && s.comments@[c].comment@
            == "node found up, assuming issue is resolved"@
}

impl Store {
    fn set_target_status(&mut self, k: usize, st: TargetStatus)
        requires
            old(self).wf(),
            k < old(self).targets@.len(),
        ensures
            final(self).wf(),
            final(self).issues == old(self).issues,
            final(self).comments == old(self).comments,
            final(self).targets@.len() == old(self).targets@.len(),
            forall|t: int|
                0 <= t < old(self).targets@.len() ==> (#[trigger] final(self).targets@[t]).name
                    == old(self).targets@[t].name && final(self).targets@[t].id == old(
                    self,
                ).targets@[t].id,
            final(self).targets@[k as int].status == st,
            forall|t: int|
                0 <= t < old(self).targets@.len() && t != k ==> #[trigger] final(self).targets@[t]
                    == old(self).targets@[t],
    {
        let ghost pre = *self;
        self.targets[k].status = st;
        proof {
            assert forall|t: int| 0 <= t < self.targets@.len() implies #[trigger] self.targets@[t].id
                == t + 1 by {
                assert(pre.targets@[t].id == t + 1);
            }
            assert forall|a: int, b: int|
                0 <= a < self.targets@.len() && 0 <= b < self.targets@.len() && a != b
                implies #[trigger] self.targets@[a].name@ != #[trigger] self.targets@[b].name@ by {
                assert(pre.targets@[a].name@ != pre.targets@[b].name@);
            }
            assert forall|t: int| 0 <= t < self.issues@.len() implies {
                &&& #[trigger] self.issues@[t].id == t + 1
                &&& 1 <= self.issues@[t].target_id <= self.targets@.len()
                &&& self.issues@[t].created_at <= self.issues@[t].updated_at
            } by {
                assert(pre.issues@[t].id == t + 1);
            }
            assert forall|t: int| 0 <= t < self.comments@.len() implies {
                &&& #[trigger] self.comments@[t].id == t + 1
                &&& 1 <= self.comments@[t].issue_id <= self.issues@.len()
            } by {
                assert(pre.comments@[t].id == t + 1);
            }
            assert(self.one_open_per_title()) by {
                assert(pre.one_open_per_title());
            }
        }
    }

    /// Closes every ticket of node `k` that is not closed yet, with a comment saying why.
    pub fn close_open_issues(&mut self, k: usize, now: i64)
        requires
            old(self).wf(),
            k < old(self).targets@.len(),
        ensures
            final(self).wf(),
            final(self).targets == old(self).targets,
            final(self).issues@.len() == old(self).issues@.len(),
            forall|j: int|
                0 <= j < old(self).issues@.len() ==> #[trigger] final(self).issues@[j] == if old(
                    self,
                ).issues@[j].target_id == k + 1 && old(self).issues@[j].status
                    != IssueStatus::Closed {
                    with_status(old(self).issues@[j], IssueStatus::Closed, now)
                } else {
                    old(self).issues@[j]
                },
            crate::store::prefix_of(old(self).comments@, final(self).comments@),
            forall|j: int|
                0 <= j < old(self).issues@.len() && old(self).issues@[j].target_id == k + 1 && old(
                    self,
                ).issues@[j].status != IssueStatus::Closed ==> #[trigger] has_found_up_comment(*final(self), j)
                    || final(self).comments@.len() >= MAX_ROWS,
    {
        let ghost pre = *self;
        let mut j: usize = 0;
        while j < self.issues.len()
            invariant
                self.wf(),
                self.targets == pre.targets,
                k < self.targets@.len(),
                j <= self.issues@.len(),
                self.issues@.len() == pre.issues@.len(),
                forall|x: int|
                    0 <= x < self.issues@.len() ==> #[trigger] self.issues@[x] == if x < j
                        && pre.issues@[x].target_id == k + 1 && pre.issues@[x].status
                        != IssueStatus::Closed {
                        with_status(pre.issues@[x], IssueStatus::Closed, now)
                    } else {
                        pre.issues@[x]
                    },
                crate::store::prefix_of(pre.comments@, self.comments@),
                forall|x: int|
                    0 <= x < j && pre.issues@[x].target_id == k + 1 && pre.issues@[x].status
                        != IssueStatus::Closed ==> #[trigger] has_found_up_comment(*self, x)
                        || self.comments@.len() >= MAX_ROWS,
            decreases self.issues@.len() - j,
        {
            if self.issues[j].target_id == (k + 1) as i32 && self.issues[j].status != IssueStatus::Closed {
                let ghost before = *self;
                self.set_issue_status(j, IssueStatus::Closed, now);
                if self.comments.len() < MAX_ROWS {
                    assert(self.issues@[j as int].id == j + 1);
                    self.push_comment(
                        (j + 1) as i32,
                        String::from_str("ctt"),
                        String::from_str("node found up, assuming issue is resolved"),
                        now,
                    );
                    proof {
                        let c = self.comments@.len() - 1;
                        assert(self.comments@[c] == self.comments@.last());
                        assert(has_found_up_comment(*self, j as int));
                        assert forall|i: int| 0 <= i < before.comments@.len() implies #[trigger] self.comments@[i] == before.comments@[i] by {
                            assert(self.comments@.drop_last()[i] == self.comments@[i]);
                        }
                    }
                }
                proof {
                    assert forall|x: int|
                        0 <= x < j + 1 && pre.issues@[x].target_id == k + 1 && pre.issues@[x].status
                            != IssueStatus::Closed implies #[trigger] has_found_up_comment(*self, x)
                            || self.comments@.len() >= MAX_ROWS by {
                        assert(crate::store::prefix_of(pre.comments@, self.comments@)) by {
                            assert forall|i: int| 0 <= i < pre.comments@.len() implies #[trigger] self.comments@[i] == pre.comments@[i] by {
                                assert(before.comments@[i] == pre.comments@[i]);
                            }
                        }
                        if x < j && has_found_up_comment(before, x) {
                            let c = choose|c: int| 0 <= c < before.comments@.len() && (#[trigger] before.comments@[c]).issue_id == x + 1
                                && before.comments@[c].created_by@ == "ctt"@ && before.comments@[c].comment@
                                == "node found up, assuming issue is resolved"@;
                            assert(self.comments@[c] == before.comments@[c]);
                        }
                    }
                }
                proof {
                    assert forall|x: int| 0 <= x < self.issues@.len() implies #[trigger] self.issues@[x]
                        == if x < j + 1 && pre.issues@[x].target_id == k + 1
                        && pre.issues@[x].status != IssueStatus::Closed {
                        with_status(pre.issues@[x], IssueStatus::Closed, now)
                    } else {
                        pre.issues@[x]
                    } by {
                        assert(before.issues@[x] == if x < j
                            && pre.issues@[x].target_id == k + 1 && pre.issues@[x].status
                            != IssueStatus::Closed {
                            with_status(pre.issues@[x], IssueStatus::Closed, now)
                        } else {
                            pre.issues@[x]
                        });
                    }
                }
            } else {
                proof {
                    assert forall|x: int| 0 <= x < self.issues@.len() implies #[trigger] self.issues@[x]
                        == if x < j + 1 && pre.issues@[x].target_id == k + 1
                        && pre.issues@[x].status != IssueStatus::Closed {
                        with_status(pre.issues@[x], IssueStatus::Closed, now)
                    } else {
                        pre.issues@[x]
                    } by {
                        if x == j {
                            assert(self.issues@[x] == pre.issues@[x]);
                        }
                    }
                }
            }
            j = j + 1;
        }
    }
}

impl Store {
    /// Opens a ticket without scope titled `title` on node `k`, as the reconciler does.
    fn open_for_node(&mut self, cluster: &RegexCluster, k: usize, title: String, now: i64) -> (r:
        Option<ChangeLogMsg>)
        requires
            old(self).wf(),
            k < old(self).targets@.len(),
        ensures
            final(self).wf(),
            final(self).targets@ == old(self).targets@,
            crate::store::prefix_of(old(self).issues@, final(self).issues@),
            forall|j: int|
                old(self).issues@.len() <= j < final(self).issues@.len() ==> (#[trigger] final(self).issues@[j]).status == IssueStatus::Opening && final(self).issues@[j].target_id
                    == k + 1 && final(self).issues@[j].title@ == title@ && final(self).issues@[j].created_by@ == "ctt"@
                    && final(self).issues@[j].to_offline is None && final(self).issues@[j].description@ == title@,
            final(self).issues@.len() <= old(self).issues@.len() + 1,
            crate::store::prefix_of(old(self).comments@, final(self).comments@),
            r is Some <==> final(self).issues@.len() == old(self).issues@.len() + 1,
            r matches Some(e) ==> crate::store::is_open_event(e, (old(self).issues@.len() + 1) as int, title@, "ctt"@),
            cluster.spec_real_node(old(self).targets@[k as int].name@) && old(self).issues@.len() < MAX_ROWS
                && old(self).comments@.len() < MAX_ROWS && old(self).targets@.len() < MAX_ROWS
                ==> exists|j: int| 0 <= j < final(self).issues@.len() && is_open_ish((#[trigger] final(self).issues@[j]).status)
                    && final(self).issues@[j].target_id == k + 1 && final(self).issues@[j].title@ == title@,
    {
        let ghost pre = *self;
        let ni = NewIssue {
            assigned_to: None,
            description: title.clone(),
            to_offline: None,
            target: self.targets[k].name.clone(),
            title,
        };
        let res = self.issue_open(cluster, &ni, "ctt", now);
        proof {
            reveal_strlit("ctt");
            if pre.open_issue_index(ni.target@, ni.title@) is Some && cluster.spec_real_node(ni.target@) {
                let c = pre.open_issue_index(ni.target@, ni.title@).unwrap();
                assert(is_open_ish(pre.issues@[c].status) && pre.target_name(c) == ni.target@);
                pre.lemma_target_name(c, k as int);
                assert(self.issues@[c] == pre.issues@[c]);
            }
            if res is Ok && pre.open_issue_index(ni.target@, ni.title@) is None && cluster.spec_real_node(ni.target@) {
                let j = pre.issues@.len() as int;
                assert(self.issues@[j] == self.issues@.last());
            }
            if self.targets@.len() > pre.targets@.len() {
                let n = pre.targets@.len() as int;
                assert(self.targets@[n].name@ == ni.target@);
                assert(self.targets@[k as int].name@ == ni.target@);
            }
            assert(self.targets@ =~= pre.targets@);
            if self.issues@.len() > pre.issues@.len() {
                assert(self.issues@.len() == pre.issues@.len() + 1);
                let j = pre.issues@.len() as int;
                assert(self.issues@[j] == self.issues@.last());
                assert(self.target_name(j) == ni.target@);
                self.lemma_target_name(j, k as int);
            }
        }
        match res {
            Ok((_, ev)) => ev,
            Err(_) => None,
        }
    }
}

/// The step for node `name` in a pass over `reports`, judged against the store `s` as it
/// stood when the pass began; None where the scheduler does not report the node.
pub open spec fn node_step(s: Store, cluster: RegexCluster, reports: Seq<NodeReport>, name: Seq<
    char,
>) -> Option<(Step, TargetStatus)> {
    match first_report(reports, name) {
        Some(q) => Some(
            spec_transition(
                s.expected_status(cluster, name),
                reports[q].status,
                s.has_closing(cluster, name),
            ),
        ),
        None => None,
    }
}

/// Ticket `j` of `s` is closed by the pass because its node was found up.
pub open spec fn closed_by_pass(s: Store, cluster: RegexCluster, reports: Seq<NodeReport>, j: int) -> bool {
    &&& node_step(s, cluster, reports, s.target_name(j)) matches Some((st, _))
    &&& st == Step::CloseIssues
    &&& s.issues@[j].status != IssueStatus::Closed
}

/// The phase a ticket moves to once the reconciler has acted on it.
pub open spec fn promoted(st: IssueStatus) -> IssueStatus {
    match st {
        IssueStatus::Opening => IssueStatus::Open,
        IssueStatus::Closing => IssueStatus::Closed,
        other => other,
    }
}

pub open spec fn has_offline_action(actions: Seq<SchedAction>, name: Seq<char>, comment: Seq<char>) -> bool {
    exists|a: int|
        0 <= a < actions.len() && (#[trigger] actions[a] matches SchedAction::Offline {
            target,
            comment: c,
        } && target@ == name && c@ == comment)
}

pub open spec fn has_release_action(actions: Seq<SchedAction>, name: Seq<char>) -> bool {
    exists|a: int|
        0 <= a < actions.len() && (#[trigger] actions[a] matches SchedAction::Release { target }
            && target@ == name)
}

proof fn lemma_actions_grow(a: Seq<SchedAction>, b: Seq<SchedAction>)
    requires
        a.len() <= b.len(),
        b.subrange(0, a.len() as int) == a,
    ensures
        forall|name: Seq<char>, comment: Seq<char>|
            has_offline_action(a, name, comment) ==> #[trigger] has_offline_action(b, name, comment),
        forall|name: Seq<char>| has_release_action(a, name) ==> #[trigger] has_release_action(b, name),
{
    assert forall|name: Seq<char>, comment: Seq<char>|
        has_offline_action(a, name, comment) implies #[trigger] has_offline_action(b, name, comment) by {
        let i = choose|i: int| 0 <= i < a.len() && (#[trigger] a[i] matches SchedAction::Offline {
            target,
            comment: c,
        } && target@ == name && c@ == comment);
        assert(b.subrange(0, a.len() as int)[i] == b[i]);
    }
    assert forall|name: Seq<char>| has_release_action(a, name) implies #[trigger] has_release_action(b, name) by {
        let i = choose|i: int| 0 <= i < a.len() && (#[trigger] a[i] matches SchedAction::Release { target }
            && target@ == name);
        assert(b.subrange(0, a.len() as int)[i] == b[i]);
    }
}

/// Scheduler call `a` is one that the pass owes the node it names.
pub open spec fn called_for(pre: Store, cluster: RegexCluster, reports: Seq<NodeReport>, a: SchedAction) -> bool {
    match a {
        SchedAction::Offline { target, comment } => {
            &&& node_step(pre, cluster, reports, target@) matches Some((st, _))
            &&& st == Step::Offline
            &&& comment@ == reports[first_report(reports, target@).unwrap()].comment@
        },
        SchedAction::Release { target } => {
            &&& node_step(pre, cluster, reports, target@) matches Some((st, _))
            &&& st == Step::Release
        },
    }
}

/// `e` tells that the reconciler offlined (or resumed) node `name`.
pub open spec fn is_node_event(e: ChangeLogMsg, name: Seq<char>, offline: bool) -> bool {
    if offline {
        e matches ChangeLogMsg::Offline { target, operator } && target@ == name && operator@ == "ctt"@
    } else {
        e matches ChangeLogMsg::Resume { target, operator } && target@ == name && operator@ == "ctt"@
    }
}

pub open spec fn has_node_event(events: Seq<ChangeLogMsg>, name: Seq<char>, offline: bool) -> bool {
    exists|a: int| 0 <= a < events.len() && is_node_event(#[trigger] events[a], name, offline)
}

/// The events of a pass tell of every node it resumes, and of every node up at the
/// scheduler that it offlines.
pub open spec fn events_cover(
    pre: Store,
    cluster: RegexCluster,
    reports: Seq<NodeReport>,
    name: Seq<char>,
    events: Seq<ChangeLogMsg>,
) -> bool {
    &&& (node_step(pre, cluster, reports, name) matches Some((st, _)) && st == Step::Release
        ==> has_node_event(events, name, false))
    &&& (node_step(pre, cluster, reports, name) matches Some((st, _)) && st == Step::Offline
        && reports[first_report(reports, name).unwrap()].status == TargetStatus::Online
        ==> has_node_event(events, name, true))
}

proof fn lemma_events_grow(a: Seq<ChangeLogMsg>, b: Seq<ChangeLogMsg>)
    requires
        a.len() <= b.len(),
        b.subrange(0, a.len() as int) == a,
    ensures
        forall|name: Seq<char>, offline: bool|
            has_node_event(a, name, offline) ==> #[trigger] has_node_event(b, name, offline),
{
    assert forall|name: Seq<char>, offline: bool|
        has_node_event(a, name, offline) implies #[trigger] has_node_event(b, name, offline) by {
        let i = choose|i: int| 0 <= i < a.len() && is_node_event(#[trigger] a[i], name, offline);
        assert(b.subrange(0, a.len() as int)[i] == b[i]);
    }
}

/// What one pass asks of the scheduler, and what it tells the operators.
pub struct TickOutcome {
    pub actions: Vec<SchedAction>,
    pub events: Vec<ChangeLogMsg>,
}

proof fn lemma_same_expectations(a: Store, b: Store, cluster: RegexCluster, name: Seq<char>)
    requires
        a.wf(),
        b.wf(),
        a.issues == b.issues,
        a.targets@.len() <= b.targets@.len(),
        b.targets@.subrange(0, a.targets@.len() as int) == a.targets@,
    ensures
        a.expected_status(cluster, name) == b.expected_status(cluster, name),
        a.has_closing(cluster, name) == b.has_closing(cluster, name),
{
    assert forall|i: int| 0 <= i < a.issues@.len() implies #[trigger] a.target_name(i) == b.target_name(i) by {
        assert(a.issues@[i].id == i + 1);
        let t = a.issues@[i].target_id - 1;
        assert(b.targets@.subrange(0, a.targets@.len() as int)[t] == b.targets@[t]);
    }
    assert forall|i: int|
        #![trigger a.drains(cluster, i, name)]
        #![trigger b.drains(cluster, i, name)]
        0 <= i < a.issues@.len() implies a.drains(cluster, i, name) == b.drains(cluster, i, name) by {
        assert(a.target_name(i) == b.target_name(i));
    }
    assert forall|i: int|
        #![trigger a.marks_down(i, name)]
        #![trigger b.marks_down(i, name)]
        0 <= i < a.issues@.len() implies a.marks_down(i, name) == b.marks_down(i, name) by {
        assert(a.target_name(i) == b.target_name(i));
    }
    assert forall|i: int|
        #![trigger a.closing_covers(cluster, i, name)]
        #![trigger b.closing_covers(cluster, i, name)]
        0 <= i < a.issues@.len() implies a.closing_covers(cluster, i, name) == b.closing_covers(cluster, i, name) by {
        assert(a.target_name(i) == b.target_name(i));
    }
}


/// The pass opens a ticket on node `name`: the scheduler does not report it, or reports it
/// down with no ticket to explain it.
pub open spec fn opens_ticket(s: Store, cluster: RegexCluster, reports: Seq<NodeReport>, name: Seq<char>) -> bool {
    match node_step(s, cluster, reports, name) {
        None => true,
        Some((st, _)) => st == Step::OpenTicket,
    }
}

/// The status of ticket `j` of `s` after a pass over `reports`.
pub open spec fn status_after_pass(s: Store, cluster: RegexCluster, reports: Seq<NodeReport>, j: int) -> IssueStatus {
    if closed_by_pass(s, cluster, reports, j) {
        IssueStatus::Closed
    } else {
        promoted(s.issues@[j].status)
    }
}

/// The status of node `k` of `post` after a pass over `reports` that began on `pre`.
pub open spec fn node_status_after_pass(
    pre: Store,
    post: Store,
    cluster: RegexCluster,
    reports: Seq<NodeReport>,
    k: int,
) -> bool {
    match node_step(pre, cluster, reports, post.targets@[k].name@) {
        Some((_, st)) => post.targets@[k].status == st,
        None => k < pre.targets@.len() && post.targets@[k].status == pre.targets@[k].status,
    }
}

/// The scheduler calls of a pass carry out the Offline and Release steps of every node.
pub open spec fn actions_cover(
    pre: Store,
    cluster: RegexCluster,
    reports: Seq<NodeReport>,
    name: Seq<char>,
    actions: Seq<SchedAction>,
) -> bool {
    &&& (node_step(pre, cluster, reports, name) matches Some((st, _)) && st == Step::Offline
        ==> has_offline_action(actions, name, reports[first_report(reports, name).unwrap()].comment@))
    &&& (node_step(pre, cluster, reports, name) matches Some((st, _)) && st == Step::Release
        ==> has_release_action(actions, name))
}

/// Event `e` of a pass over `reports` from `pre` to `post` is owed: the Open of a ticket
/// the pass opened, or a Resume or an Offline that a node's step calls for.
pub open spec fn event_owed(pre: Store, post: Store, cluster: RegexCluster, reports: Seq<NodeReport>, e: ChangeLogMsg) -> bool {
    match e {
        ChangeLogMsg::Open { issue, title, operator } => {
            &&& pre.issues@.len() < issue <= post.issues@.len()
            &&& title@ == post.issues@[issue - 1].title@
            &&& operator@ == "ctt"@
        },
        ChangeLogMsg::Resume { target, operator } => {
            &&& operator@ == "ctt"@
            &&& node_step(pre, cluster, reports, target@) matches Some((st, _))
            &&& st == Step::Release
        },
        ChangeLogMsg::Offline { target, operator } => {
            &&& operator@ == "ctt"@
            &&& node_step(pre, cluster, reports, target@) matches Some((st, _))
            &&& st == Step::Offline
            &&& reports[first_report(reports, target@).unwrap()].status == TargetStatus::Online
        },
        _ => false,
    }
}

pub open spec fn action_target(a: SchedAction) -> Seq<char> {
    match a {
        SchedAction::Offline { target, .. } => target@,
        SchedAction::Release { target } => target@,
    }
}

/// Two events of a pass are not the same announcement twice.
pub open spec fn distinct_events(a: ChangeLogMsg, b: ChangeLogMsg) -> bool {
    match (a, b) {
        (ChangeLogMsg::Open { issue: i, .. }, ChangeLogMsg::Open { issue: j, .. }) => i != j,
        (ChangeLogMsg::Resume { target: x, .. }, ChangeLogMsg::Resume { target: y, .. }) => x@ != y@,
        (ChangeLogMsg::Offline { target: x, .. }, ChangeLogMsg::Offline { target: y, .. }) => x@ != y@,
        _ => true,
    }
}

/// Event `e` announces ticket `id` opened.
pub open spec fn announces_open(e: ChangeLogMsg, id: int) -> bool {
    e matches ChangeLogMsg::Open { issue, .. } && issue == id
}

/// Some event of `events` announces ticket `id` opened.
pub open spec fn announced(events: Seq<ChangeLogMsg>, id: int) -> bool {
    exists|a: int| 0 <= a < events.len() && announces_open(#[trigger] events[a], id)
}

/// The title of the ticket the pass opens on node `name`: the scheduler's comment, or a
/// note that the scheduler does not know the node.
pub open spec fn owed_title(reports: Seq<NodeReport>, name: Seq<char>) -> Seq<char> {
    match first_report(reports, name) {
        Some(q) => reports[q].comment@,
        None => "Node not found in pbs"@,
    }
}

/// Store `s` has a ticket in Opening or Open on node `t` titled `title`.
pub open spec fn has_open_ticket(s: Store, t: int, title: Seq<char>) -> bool {
    exists|j: int|
        0 <= j < s.issues@.len() && is_open_ish((#[trigger] s.issues@[j]).status) && s.issues@[j].target_id
            == t + 1 && s.issues@[j].title@ == title
}

proof fn lemma_comment_kept(a: Store, b: Store, j: int)
    requires
        crate::store::prefix_of(a.comments@, b.comments@),
        has_found_up_comment(a, j),
    ensures
        has_found_up_comment(b, j),
{
    let c = choose|c: int|
        0 <= c < a.comments@.len() && (#[trigger] a.comments@[c]).issue_id == j + 1
            && a.comments@[c].created_by@ == "ctt"@ && a.comments@[c].comment@
            == "node found up, assuming issue is resolved"@;
    assert(b.comments@[c] == a.comments@[c]);
}

/// What one pass of the reconciler does: `post` and the scheduler calls `actions` from
/// `pre` and the scheduler's `reports`.
pub open spec fn ticked(
    pre: Store,
    post: Store,
    cluster: RegexCluster,
    reports: Seq<NodeReport>,
    actions: Seq<SchedAction>,
    events: Seq<ChangeLogMsg>,
    now: i64,
) -> bool {
    &&& post.wf()
    &&& post.targets@.len() >= pre.targets@.len()
    &&& forall|k: int|
        0 <= k < pre.targets@.len() ==> (#[trigger] post.targets@[k]).name@ == pre.targets@[k].name@
    &&& forall|k: int|
        pre.targets@.len() <= k < post.targets@.len() ==> cluster.spec_real_node((#[trigger] post.targets@[k]).name@)
            && first_report(reports, post.targets@[k].name@) is Some
    &&& (pre.targets@.len() + reports.len() <= MAX_ROWS ==> forall|q: int|
        0 <= q < reports.len() && cluster.spec_real_node(#[trigger] reports[q].name@) ==> exists|k: int|
            0 <= k < post.targets@.len() && post.targets@[k].name@ == reports[q].name@)
    &&& forall|k: int|
        0 <= k < post.targets@.len() ==> #[trigger] node_status_after_pass(pre, post, cluster, reports, k)
    &&& forall|k: int|
        0 <= k < post.targets@.len() ==> actions_cover(
            pre,
            cluster,
            reports,
            (#[trigger] post.targets@[k]).name@,
            actions,
        )
    &&& forall|a: int| 0 <= a < actions.len() ==> called_for(pre, cluster, reports, #[trigger] actions[a])
    &&& forall|a: int, b: int| 0 <= a < b < actions.len() ==> action_target(#[trigger] actions[a]) != action_target(
        #[trigger] actions[b],
    )
    &&& forall|k: int|
        0 <= k < post.targets@.len() ==> events_cover(
            pre,
            cluster,
            reports,
            (#[trigger] post.targets@[k]).name@,
            events,
        )
    &&& post.issues@.len() >= pre.issues@.len()
    &&& forall|j: int|
        0 <= j < pre.issues@.len() ==> #[trigger] post.issues@[j] == after_phase(
            pre.issues@[j],
            status_after_pass(pre, cluster, reports, j),
            now,
        )
    &&& forall|j: int|
        pre.issues@.len() <= j < post.issues@.len() ==> (#[trigger] post.issues@[j]).status
            == IssueStatus::Opening && opens_ticket(pre, cluster, reports, post.target_name(j))
            && post.issues@[j].created_by@ == "ctt"@ && post.issues@[j].to_offline is None
            && post.issues@[j].title@ == owed_title(reports, post.target_name(j))
            && post.issues@[j].description@ == post.issues@[j].title@
    &&& (post.issues@.len() < MAX_ROWS && post.comments@.len() < MAX_ROWS && post.targets@.len() < MAX_ROWS
        ==> forall|k: int|
        0 <= k < post.targets@.len() && opens_ticket(pre, cluster, reports, (#[trigger] post.targets@[k]).name@)
            && cluster.spec_real_node(post.targets@[k].name@) ==> has_open_ticket(
            post,
            k,
            owed_title(reports, post.targets@[k].name@),
        ))
    &&& (post.comments@.len() < MAX_ROWS ==> forall|j: int|
        0 <= j < pre.issues@.len() && #[trigger] closed_by_pass(pre, cluster, reports, j) ==> has_found_up_comment(
            post,
            j,
        ))
    &&& forall|a: int| 0 <= a < events.len() ==> event_owed(pre, post, cluster, reports, #[trigger] events[a])
    &&& forall|a: int, b: int| 0 <= a < b < events.len() ==> distinct_events(#[trigger] events[a], #[trigger] events[b])
    &&& forall|j: int| pre.issues@.len() <= j < post.issues@.len() ==> #[trigger] announced(events, j + 1)
}

impl Store {
    /// One pass of the reconciler over what the scheduler reports.
    ///
    /// Real nodes that the store does not know yet are added as Online. The status that
    /// the tickets ask of each node is taken before any work; each node then gets the
    /// step that `spec_transition` gives, and a node that the scheduler does not report
    /// gets a ticket. Last, the tickets that were in Opening become Open and those in
    /// Closing become Closed.
    #[verifier::rlimit(100)]
    pub fn tick(&mut self, cluster: &RegexCluster, reports: &Vec<NodeReport>, now: i64) -> (r: TickOutcome)
        requires
            old(self).wf(),
        ensures
            ticked(*old(self), *final(self), *cluster, reports@, r.actions@, r.events@, now),
    {
        let ghost pre = *self;
        // phases before any work
        let mut snap: Vec<IssueStatus> = Vec::new();
        let mut j: usize = 0;
        while j < self.issues.len()
            invariant
                j <= self.issues@.len(),
                snap@.len() == j,
                forall|x: int| 0 <= x < j ==> snap@[x] == self.issues@[x].status,
            decreases self.issues@.len() - j,
        {
            snap.push(self.issues[j].status);
            j = j + 1;
        }
        // register the real nodes that the store does not know yet
        let mut q: usize = 0;
        while q < reports.len()
            invariant
                self.wf(),
                self.issues == pre.issues,
                self.targets@.len() >= pre.targets@.len(),
                self.targets@.subrange(0, pre.targets@.len() as int) == pre.targets@,
                forall|k: int| pre.targets@.len() <= k < self.targets@.len() ==>
                    first_report(reports@, (#[trigger] self.targets@[k]).name@) is Some
                    && cluster.spec_real_node(self.targets@[k].name@),
                q <= reports@.len(),
                self.targets@.len() <= pre.targets@.len() + q,
                forall|p: int| 0 <= p < q && cluster.spec_real_node(#[trigger] reports@[p].name@)
                    && pre.targets@.len() + reports@.len() <= MAX_ROWS ==> exists|k: int|
                    0 <= k < self.targets@.len() && self.targets@[k].name@ == reports@[p].name@,
            decreases reports@.len() - q,
        {
            let ghost before = *self;
            let found = self.find_target(&reports[q].name);
            if found.is_none() {
                let _ = self.from_name(cluster, &reports[q].name);
                proof {
                    if self.targets@.len() > before.targets@.len() {
                        let n = before.targets@.len() as int;
                        assert(self.targets@[n].name@ == reports@[q as int].name@);
                        lemma_first_report(reports@, reports@[q as int].name@);
                        assert forall|k: int| pre.targets@.len() <= k < self.targets@.len() implies
                            first_report(reports@, (#[trigger] self.targets@[k]).name@) is Some by {
                            if k < n {
                                assert(self.targets@.subrange(0, n)[k] == before.targets@[k]);
                            }
                        }
                    }
                }
            }
            proof {
                assert(self.targets@.subrange(0, before.targets@.len() as int) =~= before.targets@);
                assert(self.targets@.subrange(0, pre.targets@.len() as int) =~= before.targets@.subrange(0, pre.targets@.len() as int));
                let x = reports@[q as int].name@;
                assert forall|p: int| 0 <= p < q + 1 && cluster.spec_real_node(#[trigger] reports@[p].name@)
                    && pre.targets@.len() + reports@.len() <= MAX_ROWS implies exists|k: int|
                    0 <= k < self.targets@.len() && self.targets@[k].name@ == reports@[p].name@ by {
                    if p < q {
                        let k = choose|k: int| 0 <= k < before.targets@.len() && before.targets@[k].name@ == reports@[p].name@;
                        assert(self.targets@.subrange(0, before.targets@.len() as int)[k] == self.targets@[k]);
                    } else {
                        if let Some(k) = found {
                            assert(self.targets@[k as int].name@ == x);
                        } else {
                            assert(self.targets@[before.targets@.len() as int].name@ == x);
                        }
                    }
                }
                assert forall|k: int| pre.targets@.len() <= k < self.targets@.len() implies
                    first_report(reports@, (#[trigger] self.targets@[k]).name@) is Some
                    && cluster.spec_real_node(self.targets@[k].name@) by {
                    if k < before.targets@.len() {
                        assert(self.targets@.subrange(0, before.targets@.len() as int)[k] == self.targets@[k]);
                    } else {
                        lemma_first_report(reports@, x);
                    }
                }
            }
            q = q + 1;
        }
        let ghost mid = *self;
        let n = self.targets.len();
        // what the tickets ask of each node
        let emap = self.get_expected_state(cluster);
        let mut exp: Vec<TargetStatus> = Vec::new();
        let mut cl: Vec<bool> = Vec::new();
        let mut k: usize = 0;
        while k < n
            invariant
                *self == mid,
                mid.wf(),
                pre.wf(),
                represents(emap@, |n: Seq<char>| mid.expected_status(*cluster, n)),
                mid.issues == pre.issues,
                mid.targets@.len() >= pre.targets@.len(),
                mid.targets@.subrange(0, pre.targets@.len() as int) == pre.targets@,
                n == mid.targets@.len(),
                k <= n,
                exp@.len() == k,
                cl@.len() == k,
                forall|t: int| 0 <= t < k ==> exp@[t] == pre.expected_status(*cluster, #[trigger] mid.targets@[t].name@),
                forall|t: int| 0 <= t < k ==> cl@[t] == pre.has_closing(*cluster, #[trigger] mid.targets@[t].name@),
            decreases n - k,
        {
            proof {
                lemma_same_expectations(pre, mid, *cluster, mid.targets@[k as int].name@);
            }
            exp.push(lookup(&emap, &self.targets[k].name, Ghost(|n: Seq<char>| mid.expected_status(*cluster, n))));
            cl.push(self.has_closing_ticket(cluster, &self.targets[k].name));
            k = k + 1;
        }
        // act on each node
        proof {
            assert forall|x: int| #![trigger pre.issues@[x]] 0 <= x < pre.issues@.len() implies 1 <= pre.issues@[x].target_id
                <= pre.targets@.len() && pre.target_name(x) == mid.targets@[pre.issues@[x].target_id
                - 1].name@ by {
                assert(pre.issues@[x].id == x + 1);
                assert(mid.targets@.subrange(0, pre.targets@.len() as int)[pre.issues@[x].target_id - 1]
                    == pre.targets@[pre.issues@[x].target_id - 1]);
            }
        }
        let mut actions: Vec<SchedAction> = Vec::new();
        let mut events: Vec<ChangeLogMsg> = Vec::new();
        let mut k: usize = 0;
        while k < n
            invariant
                self.wf(),
                mid.wf(),
                n == mid.targets@.len(),
                n == self.targets@.len(),
                k <= n,
                exp@.len() == n,
                cl@.len() == n,
                forall|t: int| 0 <= t < n ==> exp@[t] == pre.expected_status(*cluster, #[trigger] mid.targets@[t].name@),
                forall|t: int| 0 <= t < n ==> cl@[t] == pre.has_closing(*cluster, #[trigger] mid.targets@[t].name@),
                pre.wf(),
                mid.issues == pre.issues,
                mid.targets@.subrange(0, pre.targets@.len() as int) == pre.targets@,
                pre.targets@.len() <= n,
                forall|x: int| #![trigger pre.issues@[x]] 0 <= x < pre.issues@.len() ==> 1 <= pre.issues@[x].target_id
                    <= pre.targets@.len() && pre.target_name(x) == mid.targets@[pre.issues@[x].target_id
                    - 1].name@,
                forall|t: int| pre.targets@.len() <= t < n ==>
                    first_report(reports@, (#[trigger] mid.targets@[t]).name@) is Some,
                forall|t: int| 0 <= t < n ==> (#[trigger] self.targets@[t]).name@ == mid.targets@[t].name@,
                forall|t: int| k <= t < n ==> #[trigger] self.targets@[t] == mid.targets@[t],
                forall|t: int| 0 <= t < k ==> match node_step(pre, *cluster, reports@, (#[trigger] mid.targets@[t]).name@) {
                    Some((_, st)) => self.targets@[t].status == st,
                    None => self.targets@[t].status == mid.targets@[t].status,
                },
                forall|t: int| 0 <= t < k ==> actions_cover(pre, *cluster, reports@, (#[trigger] mid.targets@[t]).name@, actions@),
                forall|t: int| 0 <= t < k ==> events_cover(pre, *cluster, reports@, (#[trigger] mid.targets@[t]).name@, events@),
                forall|a: int| 0 <= a < actions@.len() ==> called_for(pre, *cluster, reports@, #[trigger] actions@[a]),
                self.issues@.len() >= pre.issues@.len(),
                forall|x: int| 0 <= x < pre.issues@.len() ==> #[trigger] self.issues@[x] == if pre.issues@[x].target_id - 1 < k
                    && closed_by_pass(pre, *cluster, reports@, x) {
                    with_status(pre.issues@[x], IssueStatus::Closed, now)
                } else {
                    pre.issues@[x]
                },
                forall|x: int| pre.issues@.len() <= x < self.issues@.len() ==>
                    (#[trigger] self.issues@[x]).status == IssueStatus::Opening
                    && 1 <= self.issues@[x].target_id <= k
                    && opens_ticket(pre, *cluster, reports@, mid.targets@[self.issues@[x].target_id - 1].name@)
                    && self.issues@[x].created_by@ == "ctt"@ && self.issues@[x].to_offline is None
                    && self.issues@[x].title@ == owed_title(reports@, mid.targets@[self.issues@[x].target_id - 1].name@)
                    && self.issues@[x].description@ == self.issues@[x].title@,
                forall|t: int| 0 <= t < k && opens_ticket(pre, *cluster, reports@, (#[trigger] mid.targets@[t]).name@)
                    && cluster.spec_real_node(mid.targets@[t].name@) ==> has_open_ticket(*self, t, owed_title(reports@, mid.targets@[t].name@))
                    || self.issues@.len() >= MAX_ROWS || self.comments@.len() >= MAX_ROWS || n >= MAX_ROWS,
                forall|x: int| 0 <= x < pre.issues@.len() && pre.issues@[x].target_id - 1 < k
                    && #[trigger] closed_by_pass(pre, *cluster, reports@, x) ==> has_found_up_comment(*self, x)
                    || self.comments@.len() >= MAX_ROWS,
                forall|a: int| 0 <= a < events@.len() ==> event_owed(pre, *self, *cluster, reports@, #[trigger] events@[a]),
                forall|a: int| 0 <= a < events@.len() ==> match #[trigger] events@[a] {
                    ChangeLogMsg::Resume { target, .. } => exists|t: int| 0 <= t < k && target@ == (#[trigger] mid.targets@[t]).name@,
                    ChangeLogMsg::Offline { target, .. } => exists|t: int| 0 <= t < k && target@ == (#[trigger] mid.targets@[t]).name@,
                    _ => true,
                },
                forall|a: int, b: int| 0 <= a < b < events@.len() ==> distinct_events(#[trigger] events@[a], #[trigger] events@[b]),
                forall|a: int| 0 <= a < actions@.len() ==> exists|t: int| 0 <= t < k && action_target(#[trigger] actions@[a]) == (#[trigger] mid.targets@[t]).name@,
                forall|a: int, b: int| 0 <= a < b < actions@.len() ==> action_target(#[trigger] actions@[a]) != action_target(#[trigger] actions@[b]),
                forall|j: int| pre.issues@.len() <= j < self.issues@.len() ==> #[trigger] announced(events@, j + 1),
            decreases n - k,
        {
            let ghost before = *self;
            let ghost before_actions = actions@;
            let ghost before_events = events@;
            let name = self.targets[k].name.clone();
            let ghost gname = mid.targets@[k as int].name@;
            assert(name@ == gname);
            let found = find_report(reports, &name);
            proof {
                lemma_first_report(reports@, gname);
            }
            match found {
                None => {
                    let title = String::from_str("Node not found in pbs");
                    if let Some(e) = self.open_for_node(cluster, k, title, now) {
                        events.push(e);
                    }
                    proof {
                        if self.issues@.len() > before.issues@.len() {
                            assert(announces_open(events@[events@.len() - 1], (before.issues@.len() + 1) as int));
                            assert(announced(events@, (before.issues@.len() + 1) as int));
                        }
                    }
                    proof {
                        assert(node_step(pre, *cluster, reports@, gname) is None);
                        assert forall|x: int| 0 <= x < before.issues@.len() implies #[trigger] self.issues@[x]
                            == before.issues@[x] by {
                        }
                    }
                },
                Some(q) => {
                    let (step, st) = handle_transition(exp[k], reports[q].status, cl[k]);
                    assert(node_step(pre, *cluster, reports@, gname) == Some((step, st)));
                    match step {
                        Step::Keep => {},
                        Step::Release => {
                            actions.push(SchedAction::Release { target: name.clone() });
                            assert(actions@[before_actions.len() as int] matches SchedAction::Release { target }
                                && target@ == gname);
                            events.push(
                                ChangeLogMsg::Resume { target: name.clone(), operator: String::from_str("ctt") },
                            );
                            proof {
                                reveal_strlit("ctt");
                            }
                            assert(events@[before_events.len() as int] matches ChangeLogMsg::Resume { target, operator }
                                && target@ == gname && operator@ == "ctt"@);
                        },
                        Step::Offline => {
                            actions.push(
                                SchedAction::Offline {
                                    target: name.clone(),
                                    comment: reports[q].comment.clone(),
                                },
                            );
                            assert(actions@[before_actions.len() as int] matches SchedAction::Offline { target, comment }
                                && target@ == gname && comment@ == reports@[q as int].comment@);
                            if reports[q].status == TargetStatus::Online {
                                events.push(
                                    ChangeLogMsg::Offline {
                                        target: name.clone(),
                                        operator: String::from_str("ctt"),
                                    },
                                );
                                proof {
                                    reveal_strlit("ctt");
                                }
                                assert(events@[before_events.len() as int] matches ChangeLogMsg::Offline { target, operator }
                                    && target@ == gname && operator@ == "ctt"@);
                            }
                        },
                        Step::OpenTicket => {
                            let title = reports[q].comment.clone();
                            if let Some(e) = self.open_for_node(cluster, k, title, now) {
                                events.push(e);
                            }
                            proof {
                                if self.issues@.len() > before.issues@.len() {
                                    assert(announces_open(events@[events@.len() - 1], (before.issues@.len() + 1) as int));
                                    assert(announced(events@, (before.issues@.len() + 1) as int));
                                }
                            }
                            proof {
                                assert forall|x: int| 0 <= x < before.issues@.len() implies #[trigger] self.issues@[x]
                                    == before.issues@[x] by {
                                        }
                            }
                        },
                        Step::CloseIssues => {
                            self.close_open_issues(k, now);
                        },
                    }
                    let ghost acted_node = *self;
                    if self.targets[k].status != st {
                        self.set_target_status(k, st);
                    }
                    proof {
                        assert(self.targets@[k as int].status == st);
                        assert(self.issues == acted_node.issues);
                        assert(self.comments == acted_node.comments);
                        assert forall|x: int| 0 <= x < pre.issues@.len() && pre.issues@[x].target_id - 1 == k
                            && #[trigger] closed_by_pass(pre, *cluster, reports@, x) implies has_found_up_comment(*self, x)
                            || self.comments@.len() >= MAX_ROWS by {
                            assert(before.issues@[x] == pre.issues@[x]);
                            assert(pre.target_name(x) == gname);
                            if has_found_up_comment(acted_node, x) {
                                lemma_comment_kept(acted_node, *self, x);
                            }
                        }
                    }
                },
            }
            proof {
                assert forall|j: int| pre.issues@.len() <= j < self.issues@.len() implies #[trigger] announced(events@, j + 1) by {
                    if j < before.issues@.len() {
                        assert(announced(before_events, j + 1));
                        let a = choose|a: int| 0 <= a < before_events.len() && announces_open(#[trigger] before_events[a], j + 1);
                        assert(events@.subrange(0, before_events.len() as int) =~= before_events);
                        assert(events@[a] == before_events[a]);
                    }
                }
                assert(self.issues@.len() >= before.issues@.len());
                assert forall|x: int| 0 <= x < before.issues@.len() && before.issues@[x].target_id != k + 1
                    implies #[trigger] self.issues@[x] == before.issues@[x] by {}
                assert forall|t: int| 0 <= t < k + 1 && opens_ticket(pre, *cluster, reports@, (#[trigger] mid.targets@[t]).name@)
                    && cluster.spec_real_node(mid.targets@[t].name@) implies has_open_ticket(*self, t, owed_title(reports@, mid.targets@[t].name@))
                    || self.issues@.len() >= MAX_ROWS || self.comments@.len() >= MAX_ROWS || n >= MAX_ROWS by {
                    if t < k && has_open_ticket(before, t, owed_title(reports@, mid.targets@[t].name@)) {
                        let j = choose|j: int|
                            0 <= j < before.issues@.len() && is_open_ish((#[trigger] before.issues@[j]).status) && before.issues@[j].target_id
                                == t + 1 && before.issues@[j].title@ == owed_title(reports@, mid.targets@[t].name@);
                        assert(self.issues@[j] == before.issues@[j]);
                    }
                }
                assert forall|x: int| 0 <= x < pre.issues@.len() && pre.issues@[x].target_id - 1 < k + 1
                    && #[trigger] closed_by_pass(pre, *cluster, reports@, x) implies has_found_up_comment(*self, x)
                    || self.comments@.len() >= MAX_ROWS by {
                    if pre.issues@[x].target_id - 1 < k && has_found_up_comment(before, x) {
                        assert(crate::store::prefix_of(before.comments@, self.comments@));
                        lemma_comment_kept(before, *self, x);
                    }
                }
                assert forall|a: int| 0 <= a < actions@.len() implies called_for(pre, *cluster, reports@, #[trigger] actions@[a]) by {
                    if a < before_actions.len() {
                        assert(actions@.subrange(0, before_actions.len() as int)[a] == actions@[a]);
                        assert(before_actions[a] == actions@[a]);
                    }
                }
                assert(actions@.subrange(0, before_actions.len() as int) =~= before_actions);
                assert(events@.subrange(0, before_events.len() as int) =~= before_events);
                lemma_events_grow(before_events, events@);
            }
            proof {
                lemma_actions_grow(before_actions, actions@);
            }
            k = k + 1;
        }
        // promote the tickets that were waiting before the pass
        let ghost acted = *self;
        proof {
            assert forall|x: int| 0 <= x < pre.issues@.len() implies #[trigger] pre.issues@[x].target_id - 1 < n by {
                assert(pre.issues@[x].id == x + 1);
            }
        }
        let mut j: usize = 0;
        while j < snap.len()
            invariant
                self.wf(),
                pre.wf(),
                j <= snap@.len(),
                snap@.len() == pre.issues@.len(),
                forall|x: int| 0 <= x < snap@.len() ==> snap@[x] == pre.issues@[x].status,
                self.targets@ == acted.targets@,
                self.issues@.len() == acted.issues@.len(),
                acted.issues@.len() >= pre.issues@.len(),
                forall|x: int| 0 <= x < pre.issues@.len() ==> #[trigger] acted.issues@[x] == if closed_by_pass(pre, *cluster, reports@, x) {
                    with_status(pre.issues@[x], IssueStatus::Closed, now)
                } else {
                    pre.issues@[x]
                },
                forall|x: int| 0 <= x < j ==> #[trigger] self.issues@[x] == after_phase(
                    pre.issues@[x],
                    status_after_pass(pre, *cluster, reports@, x),
                    now,
                ),
                forall|x: int| j <= x < self.issues@.len() ==> #[trigger] self.issues@[x] == acted.issues@[x],
                forall|x: int| pre.issues@.len() <= x < acted.issues@.len() ==>
                    (#[trigger] acted.issues@[x]).status == IssueStatus::Opening
                    && 1 <= acted.issues@[x].target_id <= n
                    && opens_ticket(pre, *cluster, reports@, mid.targets@[acted.issues@[x].target_id - 1].name@),
                forall|x: int| pre.issues@.len() <= x < acted.issues@.len() ==>
                    (#[trigger] acted.issues@[x]).created_by@ == "ctt"@ && acted.issues@[x].to_offline is None
                    && acted.issues@[x].title@ == owed_title(reports@, mid.targets@[acted.issues@[x].target_id - 1].name@)
                    && acted.issues@[x].description@ == acted.issues@[x].title@,
                forall|t: int| 0 <= t < n ==> (#[trigger] acted.targets@[t]).name@ == mid.targets@[t].name@,
                n == acted.targets@.len(),
                self.comments == acted.comments,
                forall|x: int| 0 <= x < self.issues@.len() ==> (#[trigger] self.issues@[x]).title == acted.issues@[x].title
                    && self.issues@[x].target_id == acted.issues@[x].target_id
                    && (is_open_ish(acted.issues@[x].status) ==> is_open_ish(self.issues@[x].status)),
            decreases snap@.len() - j,
        {
            if snap[j] == IssueStatus::Opening && self.issues[j].status == IssueStatus::Opening {
                self.set_issue_status(j, IssueStatus::Open, now);
            } else if snap[j] == IssueStatus::Closing && self.issues[j].status == IssueStatus::Closing {
                self.set_issue_status(j, IssueStatus::Closed, now);
            }
            j = j + 1;
        }

        proof {
            assert forall|x: int| pre.issues@.len() <= x < self.issues@.len() implies (#[trigger] self.issues@[x]).created_by@
                == "ctt"@ && self.issues@[x].to_offline is None
                && self.issues@[x].title@ == owed_title(reports@, self.target_name(x))
                && self.issues@[x].description@ == self.issues@[x].title@ by {
                assert(self.issues@[x] == acted.issues@[x]);
                assert(self.targets@[acted.issues@[x].target_id - 1].name@ == mid.targets@[acted.issues@[x].target_id - 1].name@);
            }
            if self.issues@.len() < MAX_ROWS && self.comments@.len() < MAX_ROWS && self.targets@.len() < MAX_ROWS {
                assert forall|t: int|
                    0 <= t < self.targets@.len() && opens_ticket(pre, *cluster, reports@, (#[trigger] self.targets@[t]).name@)
                        && cluster.spec_real_node(self.targets@[t].name@) implies has_open_ticket(
                        *self,
                        t,
                        owed_title(reports@, self.targets@[t].name@),
                    ) by {
                    assert(self.targets@[t].name@ == mid.targets@[t].name@);
                    assert(has_open_ticket(acted, t, owed_title(reports@, mid.targets@[t].name@)));
                    let j = choose|j: int|
                        0 <= j < acted.issues@.len() && is_open_ish((#[trigger] acted.issues@[j]).status) && acted.issues@[j].target_id
                            == t + 1 && acted.issues@[j].title@ == owed_title(reports@, mid.targets@[t].name@);
                    assert(self.issues@[j].title == acted.issues@[j].title);
                }
            }
            if self.comments@.len() < MAX_ROWS {
                assert forall|x: int| 0 <= x < pre.issues@.len() && #[trigger] closed_by_pass(pre, *cluster, reports@, x)
                    implies has_found_up_comment(*self, x) by {
                    assert(has_found_up_comment(acted, x));
                    lemma_comment_kept(acted, *self, x);
                }
            }
        }
        TickOutcome { actions, events }
    }
}

} // verus!
