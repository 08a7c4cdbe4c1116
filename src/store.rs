//! The ticket store and the operations of the ticket API: open, close, update.
use vstd::prelude::*;
use crate::model::{
    is_open_ish, ChangeLogMsg, Comment, Issue, IssueStatus, NewIssue, Target, TargetStatus, ToOffline,
    UpdateIssue,
};
use crate::expected::{contains_name, implicated, implicated_names};
use crate::topology::view_names;
use crate::reconcile::SchedAction;
use crate::topology::RegexCluster;

verus! {

/// Why a ticket operation did nothing.
#[derive(Debug, Clone, Copy, PartialEq, Eq, Structural)]
pub enum StoreError {
    /// The name is no node of the cluster.
    NotARealNode,
    /// No ticket has that id.
    NoSuchIssue,
    /// A table has run out of row ids.
    Full,
    /// Another open ticket on the same node already has that title.
    TitleTaken,
}

/// The largest row id of a table.
pub const MAX_ROWS: usize = 0x7fff_ffff;

/// Nodes, tickets and comments, each table in order of id, ids counting from one.
pub struct Store {
    pub targets: Vec<Target>,
    pub issues: Vec<Issue>,
    pub comments: Vec<Comment>,
}

impl Store {
    pub open spec fn target_name(&self, i: int) -> Seq<char> {
        self.targets@[self.issues@[i].target_id - 1].name@
    }

    /// At most one ticket on a node with a given title is in Opening or Open.
    pub open spec fn one_open_per_title(&self) -> bool {
        forall|a: int, b: int|
            0 <= a < self.issues@.len() && 0 <= b < self.issues@.len() && a != b
                && is_open_ish(#[trigger] self.issues@[a].status) && is_open_ish(
                #[trigger] self.issues@[b].status,
            ) && self.issues@[a].target_id == self.issues@[b].target_id
                ==> self.issues@[a].title@ != self.issues@[b].title@
    }

    pub open spec fn wf(&self) -> bool {
        &&& self.targets@.len() <= MAX_ROWS
        &&& self.issues@.len() <= MAX_ROWS
        &&& self.comments@.len() <= MAX_ROWS
        &&& forall|k: int| 0 <= k < self.targets@.len() ==> #[trigger] self.targets@[k].id == k + 1
        &&& forall|a: int, b: int|
            0 <= a < self.targets@.len() && 0 <= b < self.targets@.len() && a != b
                ==> #[trigger] self.targets@[a].name@ != #[trigger] self.targets@[b].name@
        &&& forall|k: int|
            0 <= k < self.issues@.len() ==> {
                &&& #[trigger] self.issues@[k].id == k + 1
                &&& 1 <= self.issues@[k].target_id <= self.targets@.len()
                &&& self.issues@[k].created_at <= self.issues@[k].updated_at
            }
        &&& forall|k: int|
            0 <= k < self.comments@.len() ==> {
                &&& #[trigger] self.comments@[k].id == k + 1
                &&& 1 <= self.comments@[k].issue_id <= self.issues@.len()
            }
        &&& self.one_open_per_title()
    }

    /// Index of the node named `name`.
    pub open spec fn target_index(&self, name: Seq<char>) -> Option<int> {
        if exists|k: int| 0 <= k < self.targets@.len() && #[trigger] self.targets@[k].name@ == name {
            Some(choose|k: int| 0 <= k < self.targets@.len() && #[trigger] self.targets@[k].name@ == name)
        } else {
            None
        }
    }

    /// Index of the ticket in Opening or Open on node `name` with title `title`.
    pub open spec fn open_issue_index(&self, name: Seq<char>, title: Seq<char>) -> Option<int> {
        if exists|k: int|
            0 <= k < self.issues@.len() && is_open_ish(#[trigger] self.issues@[k].status)
                && self.target_name(k) == name && self.issues@[k].title@ == title {
            Some(
                choose|k: int|
                    0 <= k < self.issues@.len() && is_open_ish(#[trigger] self.issues@[k].status)
                        && self.target_name(k) == name && self.issues@[k].title@ == title,
            )
        } else {
            None
        }
    }

    pub fn new() -> (r: Self)
        ensures
            r.wf(),
            r.targets@.len() == 0,
            r.issues@.len() == 0,
            r.comments@.len() == 0,
    {
        Store { targets: Vec::new(), issues: Vec::new(), comments: Vec::new() }
    }

    fn names_unique(&self) -> (r: bool)
        ensures
            r == forall|a: int, b: int|
                0 <= a < self.targets@.len() && 0 <= b < self.targets@.len() && a != b
                    ==> #[trigger] self.targets@[a].name@ != #[trigger] self.targets@[b].name@,
    {
        let n = self.targets.len();
        let mut a: usize = 0;
        while a < n
            invariant
                n == self.targets@.len(),
                a <= n,
                forall|x: int, y: int| 0 <= x < a && 0 <= y < n && x != y
                    ==> #[trigger] self.targets@[x].name@ != #[trigger] self.targets@[y].name@,
            decreases n - a,
        {
            let mut b: usize = 0;
            while b < n
                invariant
                    n == self.targets@.len(),
                    a < n,
                    b <= n,
                    forall|x: int, y: int| 0 <= x < a && 0 <= y < n && x != y
                        ==> #[trigger] self.targets@[x].name@ != #[trigger] self.targets@[y].name@,
                    forall|y: int| 0 <= y < b && y != a ==> self.targets@[a as int].name@ != #[trigger] self.targets@[y].name@,
                decreases n - b,
            {
                if a != b && self.targets[a].name == self.targets[b].name {
                    return false;
                }
                b = b + 1;
            }
            a = a + 1;
        }
        true
    }

    fn titles_unique(&self) -> (r: bool)
        ensures
            r == self.one_open_per_title(),
    {
        let n = self.issues.len();
        let mut a: usize = 0;
        while a < n
            invariant
                n == self.issues@.len(),
                a <= n,
                forall|x: int, y: int|
                    0 <= x < a && 0 <= y < n && x != y && is_open_ish(#[trigger] self.issues@[x].status)
                        && is_open_ish(#[trigger] self.issues@[y].status) && self.issues@[x].target_id
                        == self.issues@[y].target_id ==> self.issues@[x].title@ != self.issues@[y].title@,
            decreases n - a,
        {
            let mut b: usize = 0;
            while b < n
                invariant
                    n == self.issues@.len(),
                    a < n,
                    b <= n,
                    forall|x: int, y: int|
                        0 <= x < a && 0 <= y < n && x != y && is_open_ish(#[trigger] self.issues@[x].status)
                            && is_open_ish(#[trigger] self.issues@[y].status) && self.issues@[x].target_id
                            == self.issues@[y].target_id ==> self.issues@[x].title@ != self.issues@[y].title@,
                    forall|y: int|
                        0 <= y < b && y != a && is_open_ish(self.issues@[a as int].status) && is_open_ish(
                            #[trigger] self.issues@[y].status,
                        ) && self.issues@[a as int].target_id == self.issues@[y].target_id
                            ==> self.issues@[a as int].title@ != self.issues@[y].title@,
                decreases n - b,
            {
                let x = &self.issues[a];
                let y = &self.issues[b];
                if a != b && (x.status == IssueStatus::Opening || x.status == IssueStatus::Open) && (y.status
                    == IssueStatus::Opening || y.status == IssueStatus::Open) && x.target_id == y.target_id
                    && x.title == y.title {
                    return false;
                }
                b = b + 1;
            }
            a = a + 1;
        }
        true
    }

    /// Whether the store is well formed, as one read back from disk must be before use.
    pub fn check_wf(&self) -> (r: bool)
        ensures
            r == self.wf(),
    {
        if self.targets.len() > MAX_ROWS || self.issues.len() > MAX_ROWS || self.comments.len() > MAX_ROWS {
            return false;
        }
        let mut k: usize = 0;
        while k < self.targets.len()
            invariant
                k <= self.targets@.len(),
                self.targets@.len() <= MAX_ROWS,
                forall|j: int| 0 <= j < k ==> #[trigger] self.targets@[j].id == j + 1,
            decreases self.targets@.len() - k,
        {
            if self.targets[k].id != (k + 1) as i32 {
                return false;
            }
            k = k + 1;
        }
        let nt = self.targets.len();
        let mut k: usize = 0;
        while k < self.issues.len()
            invariant
                k <= self.issues@.len(),
                self.issues@.len() <= MAX_ROWS,
                nt == self.targets@.len(),
                nt <= MAX_ROWS,
                forall|j: int|
                    0 <= j < k ==> {
                        &&& #[trigger] self.issues@[j].id == j + 1
                        &&& 1 <= self.issues@[j].target_id <= self.targets@.len()
                        &&& self.issues@[j].created_at <= self.issues@[j].updated_at
                    },
            decreases self.issues@.len() - k,
        {
            let i = &self.issues[k];
            if i.id != (k + 1) as i32 || i.target_id < 1 || i.target_id as usize > nt || i.created_at
                > i.updated_at {
                return false;
            }
            k = k + 1;
        }
        let ni = self.issues.len();
        let mut k: usize = 0;
        while k < self.comments.len()
            invariant
                k <= self.comments@.len(),
                self.comments@.len() <= MAX_ROWS,
                ni == self.issues@.len(),
                forall|j: int|
                    0 <= j < k ==> {
                        &&& #[trigger] self.comments@[j].id == j + 1
                        &&& 1 <= self.comments@[j].issue_id <= self.issues@.len()
                    },
            decreases self.comments@.len() - k,
        {
            let c = &self.comments[k];
            if c.id != (k + 1) as i32 || c.issue_id < 1 || c.issue_id as usize > ni {
                return false;
            }
            k = k + 1;
        }
        self.names_unique() && self.titles_unique()
    }

    /// Each node's name and believed status, in id order.
    pub fn get_ctt_nodes(&self) -> (r: Vec<(String, TargetStatus)>)
        ensures
            r@.len() == self.targets@.len(),
            forall|k: int| 0 <= k < r@.len() ==> (#[trigger] r@[k]).0@ == self.targets@[k].name@
                && r@[k].1 == self.targets@[k].status,
    {
        let mut r: Vec<(String, TargetStatus)> = Vec::new();
        let mut k: usize = 0;
        while k < self.targets.len()
            invariant
                k <= self.targets@.len(),
                r@.len() == k,
                forall|j: int| 0 <= j < k ==> (#[trigger] r@[j]).0@ == self.targets@[j].name@
                    && r@[j].1 == self.targets@[j].status,
            decreases self.targets@.len() - k,
        {
            r.push((self.targets[k].name.clone(), self.targets[k].status));
            k = k + 1;
        }
        r
    }

    /// Index of the node named `name`, if the store has it.
    pub fn find_target(&self, name: &String) -> (r: Option<usize>)
        requires
            self.wf(),
        ensures
            r matches Some(k) ==> self.target_index(name@) == Some(k as int),
            r is None ==> self.target_index(name@) is None,
    {
        let mut k: usize = 0;
        while k < self.targets.len()
            invariant
                self.wf(),
                k <= self.targets@.len(),
                forall|j: int| 0 <= j < k ==> #[trigger] self.targets@[j].name@ != name@,
            decreases self.targets@.len() - k,
        {
            if self.targets[k].name == *name {
                proof {
                    assert(self.targets@[k as int].name@ == name@);
                    let c = choose|j: int| 0 <= j < self.targets@.len() && #[trigger] self.targets@[j].name@ == name@;
                    assert(self.targets@[c].name@ == self.targets@[k as int].name@);
                    assert(c == k as int);
                }
                return Some(k);
            }
            k = k + 1;
        }
        None
    }

    /// Index of the node named `name`; a real node seen for the first time is added
    /// as Online.
    pub fn from_name(&mut self, cluster: &RegexCluster, name: &String) -> (r: Result<
        Option<usize>,
        StoreError,
    >)
        requires
            old(self).wf(),
        ensures
            final(self).wf(),
            final(self).issues == old(self).issues,
            final(self).comments == old(self).comments,
            !cluster.spec_real_node(name@) ==> r == Ok::<Option<usize>, StoreError>(None)
                && *final(self) == *old(self),
            cluster.spec_real_node(name@) && old(self).target_index(name@) is Some ==> r == Ok::<
                Option<usize>,
                StoreError,
            >(Some(old(self).target_index(name@).unwrap() as usize)) && *final(self) == *old(self),
            cluster.spec_real_node(name@) && old(self).target_index(name@) is None ==> {
                if old(self).targets@.len() < MAX_ROWS {
                    &&& r == Ok::<Option<usize>, StoreError>(Some(old(self).targets@.len() as usize))
                    &&& final(self).targets@.len() == old(self).targets@.len() + 1
                    &&& final(self).targets@.subrange(0, old(self).targets@.len() as int)
                        == old(self).targets@
                    &&& final(self).targets@.last().name@ == name@
                    &&& final(self).targets@.last().status == TargetStatus::Online
                } else {
                    r == Err::<Option<usize>, StoreError>(StoreError::Full) && *final(self)
                        == *old(self)
                }
            },
    {
        if !cluster.real_node(name.as_str()) {
            return Ok(None);
        }
        if let Some(k) = self.find_target(name) {
            return Ok(Some(k));
        }
        let n = self.targets.len();
        if n >= MAX_ROWS {
            return Err(StoreError::Full);
        }
        let ghost pre = *self;
        self.targets.push(Target { id: (n + 1) as i32, name: name.clone(), status: TargetStatus::Online });
        proof {
            assert(self.targets@.subrange(0, n as int) =~= pre.targets@);
            assert forall|k: int| 0 <= k < self.issues@.len() implies #[trigger] self.issues@[k].id == k + 1
                && 1 <= self.issues@[k].target_id <= self.targets@.len()
                && self.issues@[k].created_at <= self.issues@[k].updated_at by {
                assert(pre.issues@[k].id == k + 1);
            }
            assert forall|a: int, b: int|
                0 <= a < self.targets@.len() && 0 <= b < self.targets@.len() && a != b
                implies #[trigger] self.targets@[a].name@ != #[trigger] self.targets@[b].name@ by {
                if a < n && b < n {
                    assert(pre.targets@[a] == self.targets@[a]);
                    assert(pre.targets@[b] == self.targets@[b]);
                } else if a < n {
                    assert(pre.targets@[a] == self.targets@[a]);
                } else {
                    assert(pre.targets@[b] == self.targets@[b]);
                }
            }
            assert forall|k: int| 0 <= k < self.targets@.len() implies #[trigger] self.targets@[k].id == k + 1 by {
                if k < n {
                    assert(pre.targets@[k] == self.targets@[k]);
                }
            }
            assert(self.one_open_per_title()) by {
                assert forall|a: int, b: int|
                    0 <= a < self.issues@.len() && 0 <= b < self.issues@.len() && a != b
                        && is_open_ish(#[trigger] self.issues@[a].status) && is_open_ish(
                        #[trigger] self.issues@[b].status,
                    ) && self.issues@[a].target_id == self.issues@[b].target_id
                    implies self.issues@[a].title@ != self.issues@[b].title@ by {
                    assert(pre.one_open_per_title());
                }
            }
        }
        Ok(Some(n))
    }
}

/// `a` is the start of `b`.
pub open spec fn prefix_of<A>(a: Seq<A>, b: Seq<A>) -> bool {
    a.len() <= b.len() && forall|i: int| 0 <= i < a.len() ==> #[trigger] b[i] == a[i]
}

pub open spec fn opt_view(o: Option<String>) -> Option<Seq<char>> {
    match o {
        Some(s) => Some(s@),
        None => None,
    }
}

/// `iss` is the ticket that `ni` asks for, opened by `operator` at `now`.
pub open spec fn issue_from_request(
    iss: Issue,
    id: int,
    target_id: int,
    ni: NewIssue,
    operator: Seq<char>,
    now: i64,
) -> bool {
    &&& iss.id == id
    &&& iss.target_id == target_id
    &&& iss.title@ == ni.title@
    &&& iss.description@ == ni.description@
    &&& iss.created_by@ == operator
    &&& opt_view(iss.assigned_to) == opt_view(ni.assigned_to)
    &&& iss.to_offline == ni.to_offline
    &&& iss.status == IssueStatus::Opening
    &&& iss.created_at == now
    &&& iss.updated_at == now
}

/// The event that announces ticket `id` opened by `operator`.
pub open spec fn is_open_event(e: ChangeLogMsg, id: int, title: Seq<char>, operator: Seq<char>) -> bool {
    e matches ChangeLogMsg::Open { issue, title: t, operator: o } && issue == id && t@ == title
        && o@ == operator
}

impl Store {
    pub(crate) proof fn lemma_target_name(&self, j: int, k: int)
        requires
            self.wf(),
            0 <= j < self.issues@.len(),
            0 <= k < self.targets@.len(),
        ensures
            (self.target_name(j) == self.targets@[k].name@) <==> (self.issues@[j].target_id == k + 1),
    {
        assert(self.issues@[j].id == j + 1);
        let t = self.issues@[j].target_id - 1;
        if t != k {
            assert(self.targets@[t].name@ != self.targets@[k].name@);
        }
    }

    /// Index of the ticket in Opening or Open on node `tid` titled `title`.
    fn find_open_issue(&self, tid: i32, title: &String) -> (r: Option<usize>)
        requires
            self.wf(),
        ensures
            r matches Some(j) ==> j < self.issues@.len() && is_open_ish(self.issues@[j as int].status)
                && self.issues@[j as int].target_id == tid && self.issues@[j as int].title@ == title@,
            r is None ==> forall|j: int|
                0 <= j < self.issues@.len() ==> !(is_open_ish(#[trigger] self.issues@[j].status)
                    && self.issues@[j].target_id == tid && self.issues@[j].title@ == title@),
    {
        let mut j: usize = 0;
        while j < self.issues.len()
            invariant
                j <= self.issues@.len(),
                forall|x: int|
                    0 <= x < j ==> !(is_open_ish(#[trigger] self.issues@[x].status)
                        && self.issues@[x].target_id == tid && self.issues@[x].title@ == title@),
            decreases self.issues@.len() - j,
        {
            let iss = &self.issues[j];
            if (iss.status == IssueStatus::Opening || iss.status == IssueStatus::Open) && iss.target_id
                == tid && iss.title == *title {
                return Some(j);
            }
            j = j + 1;
        }
        None
    }

    /// Appends a comment to ticket `issue_id`.
    pub(crate) fn push_comment(&mut self, issue_id: i32, by: String, text: String, now: i64)
        requires
            old(self).wf(),
            1 <= issue_id <= old(self).issues@.len(),
            old(self).comments@.len() < MAX_ROWS,
        ensures
            final(self).wf(),
            final(self).targets == old(self).targets,
            final(self).issues == old(self).issues,
            final(self).comments@.len() == old(self).comments@.len() + 1,
            final(self).comments@.drop_last() == old(self).comments@,
            final(self).comments@.last().issue_id == issue_id,
            final(self).comments@.last().created_by@ == by@,
            final(self).comments@.last().comment@ == text@,
    {
        let n = self.comments.len();
        let ghost pre = *self;
        self.comments.push(
            Comment { id: (n + 1) as i32, issue_id, created_by: by, created_at: now, comment: text },
        );
        proof {
            assert(self.comments@.drop_last() =~= pre.comments@);
            assert forall|k: int| 0 <= k < self.comments@.len() implies {
                &&& #[trigger] self.comments@[k].id == k + 1
                &&& 1 <= self.comments@[k].issue_id <= self.issues@.len()
            } by {
                if k < n {
                    assert(self.comments@[k] == pre.comments@[k]);
                }
            }
        }
    }
}

/// Changing one ticket's fields, but not its id, node or title, and not into Opening or
/// Open from another phase, keeps a store well formed.
pub proof fn lemma_wf_one_issue_changed(pre: Store, post: Store, j: int)
    requires
        pre.wf(),
        0 <= j < pre.issues@.len(),
        post.targets == pre.targets,
        post.comments == pre.comments,
        post.issues@.len() == pre.issues@.len(),
        forall|k: int| 0 <= k < pre.issues@.len() && k != j ==> #[trigger] post.issues@[k] == pre.issues@[k],
        post.issues@[j].id == pre.issues@[j].id,
        post.issues@[j].target_id == pre.issues@[j].target_id,
        post.issues@[j].title@ == pre.issues@[j].title@,
        post.issues@[j].created_at <= post.issues@[j].updated_at,
        is_open_ish(post.issues@[j].status) ==> is_open_ish(pre.issues@[j].status),
    ensures
        post.wf(),
{
    assert forall|k: int| 0 <= k < post.issues@.len() implies {
        &&& #[trigger] post.issues@[k].id == k + 1
        &&& 1 <= post.issues@[k].target_id <= post.targets@.len()
        &&& post.issues@[k].created_at <= post.issues@[k].updated_at
    } by {
        assert(pre.issues@[k].id == k + 1);
    }
    assert forall|k: int| 0 <= k < post.comments@.len() implies {
        &&& #[trigger] post.comments@[k].id == k + 1
        &&& 1 <= post.comments@[k].issue_id <= post.issues@.len()
    } by {
        assert(pre.comments@[k].id == k + 1);
    }
    assert(post.one_open_per_title()) by {
        assert forall|a: int, b: int|
            0 <= a < post.issues@.len() && 0 <= b < post.issues@.len() && a != b
                && is_open_ish(#[trigger] post.issues@[a].status) && is_open_ish(
                #[trigger] post.issues@[b].status,
            ) && post.issues@[a].target_id == post.issues@[b].target_id
            implies post.issues@[a].title@ != post.issues@[b].title@ by {
            assert(is_open_ish(pre.issues@[a].status));
            assert(is_open_ish(pre.issues@[b].status));
        }
    }
}

/// Appending a ticket whose title is free on its node keeps a store well formed.
proof fn lemma_wf_after_issue_push(pre: Store, post: Store)
    requires
        pre.wf(),
        pre.issues@.len() < MAX_ROWS,
        post.targets == pre.targets,
        post.comments == pre.comments,
        post.issues@.len() == pre.issues@.len() + 1,
        post.issues@.drop_last() == pre.issues@,
        post.issues@.last().id == post.issues@.len(),
        1 <= post.issues@.last().target_id <= post.targets@.len(),
        post.issues@.last().created_at <= post.issues@.last().updated_at,
        forall|j: int|
            0 <= j < pre.issues@.len() ==> !(is_open_ish(#[trigger] pre.issues@[j].status)
                && pre.issues@[j].target_id == post.issues@.last().target_id
                && pre.issues@[j].title@ == post.issues@.last().title@),
    ensures
        post.wf(),
{
    let n = pre.issues@.len() as int;
    assert forall|x: int| 0 <= x < post.issues@.len() implies {
        &&& #[trigger] post.issues@[x].id == x + 1
        &&& 1 <= post.issues@[x].target_id <= post.targets@.len()
        &&& post.issues@[x].created_at <= post.issues@[x].updated_at
    } by {
        if x < n {
            assert(post.issues@.drop_last()[x] == post.issues@[x]);
            assert(pre.issues@[x].id == x + 1);
        }
    }
    assert forall|x: int| 0 <= x < post.comments@.len() implies {
        &&& #[trigger] post.comments@[x].id == x + 1
        &&& 1 <= post.comments@[x].issue_id <= post.issues@.len()
    } by {
        assert(pre.comments@[x].id == x + 1);
    }
    assert(post.one_open_per_title()) by {
        assert forall|a: int, b: int|
            0 <= a < post.issues@.len() && 0 <= b < post.issues@.len() && a != b
                && is_open_ish(#[trigger] post.issues@[a].status) && is_open_ish(
                #[trigger] post.issues@[b].status,
            ) && post.issues@[a].target_id == post.issues@[b].target_id
            implies post.issues@[a].title@ != post.issues@[b].title@ by {
            if a < n {
                assert(post.issues@.drop_last()[a] == post.issues@[a]);
            }
            if b < n {
                assert(post.issues@.drop_last()[b] == post.issues@[b]);
            }
        }
    }
}

impl Store {
    /// What `issue_open` does: `post` and `r` from `pre` on request `ni`.
    pub open spec fn opened(
        pre: Store,
        post: Store,
        cluster: RegexCluster,
        ni: NewIssue,
        operator: Seq<char>,
        now: i64,
        r: Result<(i32, Option<ChangeLogMsg>), StoreError>,
    ) -> bool {
        &&& post.wf()
        &&& prefix_of(pre.targets@, post.targets@)
        &&& forall|k: int|
            pre.targets@.len() <= k < post.targets@.len() ==> (#[trigger] post.targets@[k]).name@
                == ni.target@ && post.targets@[k].status == TargetStatus::Online
        &&& (!cluster.spec_real_node(ni.target@) <==> r == Err::<(i32, Option<ChangeLogMsg>), StoreError>(
            StoreError::NotARealNode,
        ))
        &&& (!cluster.spec_real_node(ni.target@) ==> post == pre)
        &&& (cluster.spec_real_node(ni.target@) && pre.open_issue_index(ni.target@, ni.title@) is Some
            ==> r is Ok && r->Ok_0.0 == pre.open_issue_index(ni.target@, ni.title@).unwrap() + 1
            && r->Ok_0.1 is None && post == pre)
        &&& (cluster.spec_real_node(ni.target@) && pre.open_issue_index(ni.target@, ni.title@) is None
            ==> match r {
            Ok((id, ev)) => {
                &&& id == pre.issues@.len() + 1
                &&& post.issues@.len() == pre.issues@.len() + 1
                &&& post.issues@.drop_last() == pre.issues@
                &&& post.target_name(id - 1) == ni.target@
                &&& issue_from_request(
                    post.issues@.last(),
                    id as int,
                    post.issues@.last().target_id as int,
                    ni,
                    operator,
                    now,
                )
                &&& ev matches Some(e) && is_open_event(e, id as int, ni.title@, operator)
                &&& post.comments@.len() == pre.comments@.len() + 1
                &&& prefix_of(pre.comments@, post.comments@)
                &&& post.comments@.last().issue_id == id
                &&& post.comments@.last().created_by@ == operator
                &&& post.comments@.last().comment@ == "Opening issue"@
            },
            Err(e) => e == StoreError::Full && post.issues == pre.issues && post.comments == pre.comments,
        })
        &&& (cluster.spec_real_node(ni.target@) && pre.issues@.len() < MAX_ROWS && pre.comments@.len()
            < MAX_ROWS && pre.targets@.len() < MAX_ROWS ==> r is Ok)
        &&& prefix_of(pre.issues@, post.issues@)
    }

    /// Opens a ticket, or returns the one already open on the same node with the same
    /// title. The new ticket waits in Opening for the reconciler; the scheduler is not
    /// touched here.
    pub fn issue_open(
        &mut self,
        cluster: &RegexCluster,
        ni: &NewIssue,
        operator: &str,
        now: i64,
    ) -> (r: Result<(i32, Option<ChangeLogMsg>), StoreError>)
        requires
            old(self).wf(),
        ensures
            Self::opened(*old(self), *final(self), *cluster, *ni, operator@, now, r),
    {
        let ghost pre = *self;
        let k = match self.from_name(cluster, &ni.target) {
            Ok(Some(k)) => k,
            Ok(None) => {
                return Err(StoreError::NotARealNode);
            },
            Err(e) => {
                proof {
                    assert(self.issues@.subrange(0, pre.issues@.len() as int) =~= pre.issues@);
                    if pre.open_issue_index(ni.target@, ni.title@) is Some {
                        let c = choose|x: int|
                            0 <= x < pre.issues@.len() && is_open_ish(#[trigger] pre.issues@[x].status)
                                && pre.target_name(x) == ni.target@ && pre.issues@[x].title@ == ni.title@;
                        assert(pre.issues@[c].id == c + 1);
                        let t = pre.issues@[c].target_id - 1;
                        assert(pre.targets@[t].name@ == ni.target@);
                    }
                }
                return Err(e);
            },
        };
        let ghost mid = *self;
        proof {
            assert(k < self.targets@.len());
            assert(self.targets@[k as int].name@ == ni.target@);
            assert forall|x: int| 0 <= x < pre.issues@.len() implies #[trigger] pre.target_name(x)
                == self.target_name(x) by {
                assert(pre.issues@[x].id == x + 1);
                assert(self.targets@[pre.issues@[x].target_id - 1] == pre.targets@[pre.issues@[x].target_id - 1]);
            }
            assert(self.targets@.subrange(0, pre.targets@.len() as int) =~= pre.targets@);
            assert(self.issues@.subrange(0, pre.issues@.len() as int) =~= pre.issues@);
        }
        let tid = (k + 1) as i32;
        if let Some(j) = self.find_open_issue(tid, &ni.title) {
            proof {
                self.lemma_target_name(j as int, k as int);
                assert(pre.target_name(j as int) == ni.target@);
                let c = choose|x: int|
                    0 <= x < pre.issues@.len() && is_open_ish(#[trigger] pre.issues@[x].status)
                        && pre.target_name(x) == ni.target@ && pre.issues@[x].title@ == ni.title@;
                self.lemma_target_name(c, k as int);
                assert(c == j as int);
            }
            return Ok((self.issues[j].id, None));
        }
        proof {
            if pre.open_issue_index(ni.target@, ni.title@) is Some {
                let c = choose|x: int|
                    0 <= x < pre.issues@.len() && is_open_ish(#[trigger] pre.issues@[x].status)
                        && pre.target_name(x) == ni.target@ && pre.issues@[x].title@ == ni.title@;
                assert(pre.issues@[c] == self.issues@[c]);
                self.lemma_target_name(c, k as int);
            }
        }
        let n = self.issues.len();
        if n >= MAX_ROWS || self.comments.len() >= MAX_ROWS {
            return Err(StoreError::Full);
        }
        let assigned_to = match &ni.assigned_to {
            Some(a) => Some(a.clone()),
            None => None,
        };
        self.issues.push(
            Issue {
                id: (n + 1) as i32,
                target_id: tid,
                title: ni.title.clone(),
                description: ni.description.clone(),
                created_by: String::from_str(operator),
                assigned_to,
                created_at: now,
                updated_at: now,
                to_offline: ni.to_offline,
                status: IssueStatus::Opening,
            },
        );
        proof {
            assert(self.issues@.drop_last() =~= mid.issues@);
            lemma_wf_after_issue_push(mid, *self);
            self.lemma_target_name(n as int, k as int);
        }
        let ghost with_issue = *self;
        self.push_comment((n + 1) as i32, String::from_str(operator), String::from_str("Opening issue"), now);
        proof {
            assert(self.issues@.subrange(0, pre.issues@.len() as int) =~= pre.issues@);
            assert(self.targets@.subrange(0, pre.targets@.len() as int) =~= pre.targets@);
        }
        let ev = ChangeLogMsg::Open {
            issue: (n + 1) as i32,
            title: ni.title.clone(),
            operator: String::from_str(operator),
        };
        Ok(((n + 1) as i32, Some(ev)))
    }
}

pub open spec fn is_close_event(
    e: ChangeLogMsg,
    id: int,
    title: Seq<char>,
    comment: Seq<char>,
    operator: Seq<char>,
) -> bool {
    e matches ChangeLogMsg::Close { issue, title: t, comment: c, operator: o } && issue == id && t@
        == title && c@ == comment && o@ == operator
}

impl Store {
    /// What `issue_close` does: `post` and `r` from `pre`.
    pub open spec fn closed(
        pre: Store,
        post: Store,
        id: i32,
        operator: Seq<char>,
        comment: Seq<char>,
        now: i64,
        r: Result<Option<ChangeLogMsg>, StoreError>,
    ) -> bool {
        &&& post.wf()
        &&& post.targets == pre.targets
        &&& post.issues@.len() == pre.issues@.len()
        &&& (!(1 <= id <= pre.issues@.len()) <==> r == Err::<Option<ChangeLogMsg>, StoreError>(
            StoreError::NoSuchIssue,
        ))
        &&& (!(1 <= id <= pre.issues@.len()) ==> post == pre)
        &&& (1 <= id <= pre.issues@.len() && !is_open_ish(pre.issues@[id - 1].status) ==> r == Ok::<
            Option<ChangeLogMsg>,
            StoreError,
        >(None) && post == pre)
        &&& (1 <= id <= pre.issues@.len() && is_open_ish(pre.issues@[id - 1].status) ==> match r {
            Ok(ev) => {
                &&& post.issues@ == pre.issues@.update(
                    id - 1,
                    Issue {
                        status: IssueStatus::Closing,
                        updated_at: refreshed(pre.issues@[id - 1].updated_at, now),
                        ..pre.issues@[id - 1]
                    },
                )
                &&& post.comments@.len() == pre.comments@.len() + 1
                &&& post.comments@.last().issue_id == id
                &&& post.comments@.last().comment@ == comment
                &&& post.comments@.last().created_by@ == operator
                &&& ev matches Some(e) && is_close_event(
                    e,
                    id as int,
                    pre.issues@[id - 1].title@,
                    comment,
                    operator,
                )
            },
            Err(e) => e == StoreError::Full && post == pre && pre.comments@.len() >= MAX_ROWS,
        })
    }

    /// Moves ticket `id` to Closing with the operator's comment, if it is in Opening or
    /// Open; the reconciler then releases its nodes and closes it.
    pub fn issue_close(&mut self, id: i32, operator: &str, comment: &str, now: i64) -> (r: Result<
        Option<ChangeLogMsg>,
        StoreError,
    >)
        requires
            old(self).wf(),
        ensures
            Self::closed(*old(self), *final(self), id, operator@, comment@, now, r),
    {
        if id < 1 || id as usize > self.issues.len() {
            return Err(StoreError::NoSuchIssue);
        }
        let j = (id - 1) as usize;
        let st = self.issues[j].status;
        if !(st == IssueStatus::Opening || st == IssueStatus::Open) {
            return Ok(None);
        }
        if self.comments.len() >= MAX_ROWS {
            return Err(StoreError::Full);
        }
        let ghost pre = *self;
        let title = self.issues[j].title.clone();
        let last = self.issues[j].updated_at;
        let stamp: i64 = if now > last {
            now
        } else if last < i64::MAX {
            last + 1
        } else {
            last
        };
        assert(pre.issues@[j as int].created_at <= last);
        self.issues[j].status = IssueStatus::Closing;
        self.issues[j].updated_at = stamp;
        proof {
            assert(self.issues@ =~= pre.issues@.update(
                j as int,
                Issue { status: IssueStatus::Closing, updated_at: refreshed(last, now), ..pre.issues@[j as int] },
            ));
            lemma_wf_one_issue_changed(pre, *self, j as int);
        }
        self.push_comment(id, String::from_str(operator), String::from_str(comment), now);
        Ok(
            Some(
                ChangeLogMsg::Close {
                    issue: id,
                    title,
                    comment: String::from_str(comment),
                    operator: String::from_str(operator),
                },
            ),
        )
    }
}

pub open spec fn scope_text(t: Option<ToOffline>) -> Seq<char> {
    match t {
        Some(ToOffline::Node) => "Node"@,
        Some(ToOffline::Card) => "Card"@,
        Some(ToOffline::Blade) => "Blade"@,
        None => ""@,
    }
}

fn scope_str(t: Option<ToOffline>) -> (r: &'static str)
    ensures
        r@ == scope_text(t),
{
    match t {
        Some(ToOffline::Node) => "Node",
        Some(ToOffline::Card) => "Card",
        Some(ToOffline::Blade) => "Blade",
        None => "",
    }
}

pub open spec fn opt_text(o: Option<Seq<char>>) -> Seq<char> {
    match o {
        Some(s) => s,
        None => Seq::empty(),
    }
}

/// The comment that records a change of `field` from `from` to `to`.
pub open spec fn change_note(field: Seq<char>, from: Seq<char>, to: Seq<char>) -> Seq<char> {
    "Updating "@ + field + " from "@ + from + " to "@ + to
}

fn note(field: &str, from: &str, to: &str) -> (r: String)
    ensures
        r@ == change_note(field@, from@, to@),
{
    let mut s = String::from_str("Updating ");
    s.append(field);
    s.append(" from ");
    s.append(from);
    s.append(" to ");
    s.append(to);
    s
}

/// The assignee that an update leaves; an empty name clears it.
pub open spec fn updated_assignee(iss: Issue, u: UpdateIssue) -> Option<Seq<char>> {
    match u.assigned_to {
        Some(a) => if a@.len() == 0 {
            None
        } else {
            Some(a@)
        },
        None => opt_view(iss.assigned_to),
    }
}

pub open spec fn updated_description(iss: Issue, u: UpdateIssue) -> Seq<char> {
    match u.description {
        Some(d) => d@,
        None => iss.description@,
    }
}

pub open spec fn updated_title(iss: Issue, u: UpdateIssue) -> Seq<char> {
    match u.title {
        Some(t) => t@,
        None => iss.title@,
    }
}

pub open spec fn updated_scope(iss: Issue, u: UpdateIssue) -> Option<ToOffline> {
    match u.to_offline {
        Some(t) => Some(t),
        None => iss.to_offline,
    }
}

/// The comments that an update writes, one for each field it changes, in the order
/// assignee, description, title, scope.
pub open spec fn update_notes(iss: Issue, u: UpdateIssue) -> Seq<Seq<char>> {
    let a = if updated_assignee(iss, u) != opt_view(iss.assigned_to) {
        seq![change_note("assigned_to"@, opt_text(opt_view(iss.assigned_to)), opt_text(updated_assignee(iss, u)))]
    } else {
        Seq::empty()
    };
    let d = if updated_description(iss, u) != iss.description@ {
        seq![change_note("description"@, iss.description@, updated_description(iss, u))]
    } else {
        Seq::empty()
    };
    let t = if updated_title(iss, u) != iss.title@ {
        seq![change_note("title"@, iss.title@, updated_title(iss, u))]
    } else {
        Seq::empty()
    };
    let o = if updated_scope(iss, u) != iss.to_offline {
        seq![change_note("to_offline"@, scope_text(iss.to_offline), scope_text(updated_scope(iss, u)))]
    } else {
        Seq::empty()
    };
    a + d + t + o
}

/// The time of a change made at `now` to a row last changed at `last`: never earlier,
/// and later where `i64` allows.
pub open spec fn refreshed(last: i64, now: i64) -> i64 {
    if now > last {
        now
    } else if last < i64::MAX {
        (last + 1) as i64
    } else {
        last
    }
}

/// What an update hands back: the event to announce and the nodes to release.
pub struct UpdateOutcome {
    pub event: ChangeLogMsg,
    pub release: Vec<String>,
    /// One scheduler release for each node of `release`, in the same order.
    pub actions: Vec<SchedAction>,
    /// One Resume event for each node of `release`, in the same order; each is to be sent
    /// once its release went through.
    pub resumes: Vec<ChangeLogMsg>,
}

pub open spec fn is_release_of(a: SchedAction, name: Seq<char>) -> bool {
    a matches SchedAction::Release { target } && target@ == name
}

pub open spec fn is_resume_of(e: ChangeLogMsg, name: Seq<char>, operator: Seq<char>) -> bool {
    e matches ChangeLogMsg::Resume { target, operator: o } && target@ == name && o@ == operator
}

fn clone_opt(o: &Option<String>) -> (r: Option<String>)
    ensures
        opt_view(r) == opt_view(*o),
{
    match o {
        Some(s) => Some(s.clone()),
        None => None,
    }
}

fn same_opt(a: &Option<String>, b: &Option<String>) -> (r: bool)
    ensures
        r == (opt_view(*a) == opt_view(*b)),
{
    match (a, b) {
        (Some(x), Some(y)) => *x == *y,
        (None, None) => true,
        _ => false,
    }
}

fn assignee_after(iss: &Issue, u: &UpdateIssue) -> (r: Option<String>)
    ensures
        opt_view(r) == updated_assignee(*iss, *u),
{
    match &u.assigned_to {
        Some(a) => if a.as_str().unicode_len() == 0 {
            None
        } else {
            Some(a.clone())
        },
        None => clone_opt(&iss.assigned_to),
    }
}

fn text_after(current: &String, given: &Option<String>) -> (r: String)
    ensures
        r@ == match given {
            Some(g) => g@,
            None => current@,
        },
{
    match given {
        Some(g) => g.clone(),
        None => current.clone(),
    }
}

fn opt_string(o: &Option<String>) -> (r: String)
    ensures
        r@ == opt_text(opt_view(*o)),
{
    match o {
        Some(s) => s.clone(),
        None => String::new(),
    }
}

/// The comments that update `u` writes on ticket `iss`.
fn change_notes(iss: &Issue, u: &UpdateIssue) -> (r: Vec<String>)
    ensures
        view_names(r@) == update_notes(*iss, *u),
{
    proof {
        reveal_strlit("assigned_to");
        reveal_strlit("description");
        reveal_strlit("title");
        reveal_strlit("to_offline");
    }
    let mut notes: Vec<String> = Vec::new();
    let a = assignee_after(iss, u);
    if !same_opt(&a, &iss.assigned_to) {
        let from = opt_string(&iss.assigned_to);
        let to = opt_string(&a);
        notes.push(note("assigned_to", from.as_str(), to.as_str()));
    }
    let ghost n1 = notes@;
    let d = text_after(&iss.description, &u.description);
    if !(d == iss.description) {
        notes.push(note("description", iss.description.as_str(), d.as_str()));
    }
    let ghost n2 = notes@;
    let t = text_after(&iss.title, &u.title);
    if !(t == iss.title) {
        notes.push(note("title", iss.title.as_str(), t.as_str()));
    }
    let ghost n3 = notes@;
    let o = match u.to_offline {
        Some(x) => Some(x),
        None => iss.to_offline,
    };
    if o != iss.to_offline {
        notes.push(note("to_offline", scope_str(iss.to_offline), scope_str(o)));
    }
    proof {
        let ap = if updated_assignee(*iss, *u) != opt_view(iss.assigned_to) {
            seq![change_note("assigned_to"@, opt_text(opt_view(iss.assigned_to)), opt_text(updated_assignee(*iss, *u)))]
        } else {
            Seq::<Seq<char>>::empty()
        };
        assert(view_names(n1) =~= ap);
        assert(view_names(n2) =~= ap + if updated_description(*iss, *u) != iss.description@ {
            seq![change_note("description"@, iss.description@, updated_description(*iss, *u))]
        } else {
            Seq::<Seq<char>>::empty()
        });
        assert(view_names(n3) =~= view_names(n2) + if updated_title(*iss, *u) != iss.title@ {
            seq![change_note("title"@, iss.title@, updated_title(*iss, *u))]
        } else {
            Seq::<Seq<char>>::empty()
        });
        assert(view_names(notes@) =~= view_names(n3) + if updated_scope(*iss, *u) != iss.to_offline {
            seq![change_note("to_offline"@, scope_text(iss.to_offline), scope_text(updated_scope(*iss, *u)))]
        } else {
            Seq::<Seq<char>>::empty()
        });
    }
    notes
}

impl Store {
    /// Another ticket in Opening or Open on the node of ticket `j` has title `title`.
    pub open spec fn title_clash(&self, j: int, title: Seq<char>) -> bool {
        &&& is_open_ish(self.issues@[j].status)
        &&& title != self.issues@[j].title@
        &&& self.open_issue_index(self.target_name(j), title) is Some
    }

    /// The nodes to release after ticket `j` of `self` changes scope into `post`: those the
    /// old scope covered, the new one does not, and no open ticket keeps out of service.
    pub open spec fn released_by_update(
        &self,
        post: Store,
        cluster: RegexCluster,
        j: int,
        new_scope: Option<ToOffline>,
        name: Seq<char>,
    ) -> bool {
        &&& is_open_ish(self.issues@[j].status)
        &&& new_scope != self.issues@[j].to_offline
        &&& implicated(cluster, self.issues@[j].to_offline, self.target_name(j)).contains(name)
        &&& !implicated(cluster, new_scope, self.target_name(j)).contains(name)
        &&& post.expected_status(cluster, name) == TargetStatus::Online
    }

    /// Changes the fields of ticket `u.id` that `u` sets to a new value, with one comment
    /// for each change. Where an open ticket's scope changes, the nodes that it no longer
    /// covers and that no other ticket keeps out of service are handed back for release.
    /// What `issue_update` does: `post` and `r` from `pre` on request `u`.
    pub open spec fn updated(
        pre: Store,
        post: Store,
        cluster: RegexCluster,
        u: UpdateIssue,
        operator: Seq<char>,
        now: i64,
        r: Result<UpdateOutcome, StoreError>,
    ) -> bool {
        &&& post.wf()
        &&& post.targets == pre.targets
        &&& post.issues@.len() == pre.issues@.len()
        &&& (!(1 <= u.id <= pre.issues@.len()) <==> r == Err::<UpdateOutcome, StoreError>(StoreError::NoSuchIssue))
        &&& (r is Err ==> post == pre)
        &&& (1 <= u.id <= pre.issues@.len() ==> {
            let j = u.id - 1;
            let iss = pre.issues@[j];
            let notes = update_notes(iss, u);
            &&& (pre.title_clash(j, updated_title(iss, u)) <==> r == Err::<UpdateOutcome, StoreError>(
                StoreError::TitleTaken,
            ))
            &&& (!pre.title_clash(j, updated_title(iss, u)) && pre.comments@.len() + notes.len() > MAX_ROWS
                <==> r == Err::<UpdateOutcome, StoreError>(StoreError::Full))
            &&& (!pre.title_clash(j, updated_title(iss, u)) && pre.comments@.len() + notes.len() <= MAX_ROWS
                ==> r is Ok)
            &&& (r is Ok ==> {
                let out = r->Ok_0;
                &&& forall|x: int| 0 <= x < pre.issues@.len() && x != j ==> #[trigger] post.issues@[x] == pre.issues@[x]
                &&& post.issues@[j].id == iss.id
                &&& post.issues@[j].target_id == iss.target_id
                &&& post.issues@[j].created_by == iss.created_by
                &&& post.issues@[j].created_at == iss.created_at
                &&& post.issues@[j].status == iss.status
                &&& opt_view(post.issues@[j].assigned_to) == updated_assignee(iss, u)
                &&& post.issues@[j].description@ == updated_description(iss, u)
                &&& post.issues@[j].title@ == updated_title(iss, u)
                &&& post.issues@[j].to_offline == updated_scope(iss, u)
                &&& post.issues@[j].updated_at == refreshed(iss.updated_at, now)
                &&& post.comments@.len() == pre.comments@.len() + notes.len()
                &&& post.comments@.subrange(0, pre.comments@.len() as int) == pre.comments@
                &&& forall|i: int| 0 <= i < notes.len() ==> {
                    let c = #[trigger] post.comments@[pre.comments@.len() + i];
                    &&& c.comment@ == notes[i]
                    &&& c.issue_id == u.id
                    &&& c.created_by@ == operator
                }
                &&& out.event is Update
                &&& out.event->Update_issue == u.id
                &&& out.event->Update_title@ == iss.title@
                &&& out.event->Update_operator@ == operator
                &&& forall|m: Seq<char>| view_names(out.release@).contains(m) <==> #[trigger] pre.released_by_update(
                    post,
                    cluster,
                    j,
                    updated_scope(iss, u),
                    m,
                )
                &&& forall|x: int, y: int| 0 <= x < y < out.release@.len() ==> (#[trigger] out.release@[x])@
                    != (#[trigger] out.release@[y])@
                &&& out.actions@.len() == out.release@.len()
                &&& out.resumes@.len() == out.release@.len()
                &&& forall|i: int| 0 <= i < out.release@.len() ==> is_release_of(#[trigger] out.actions@[i], out.release@[i]@)
                &&& forall|i: int| 0 <= i < out.release@.len() ==> is_resume_of(#[trigger] out.resumes@[i], out.release@[i]@, operator)
            })
        })
    }

    pub fn issue_update(&mut self, cluster: &RegexCluster, u: &UpdateIssue, operator: &str, now: i64) -> (r:
        Result<UpdateOutcome, StoreError>)
        requires
            old(self).wf(),
        ensures
            Self::updated(*old(self), *final(self), *cluster, *u, operator@, now, r),
    {
        if u.id < 1 || u.id as usize > self.issues.len() {
            return Err(StoreError::NoSuchIssue);
        }
        let j = (u.id - 1) as usize;
        let ghost pre = *self;
        let new_assigned = assignee_after(&self.issues[j], u);
        let new_description = text_after(&self.issues[j].description, &u.description);
        let new_title = text_after(&self.issues[j].title, &u.title);
        let old_scope = self.issues[j].to_offline;
        let new_scope = match u.to_offline {
            Some(t) => Some(t),
            None => old_scope,
        };
        let st = self.issues[j].status;
        let open = st == IssueStatus::Opening || st == IssueStatus::Open;
        let tid = self.issues[j].target_id;
        proof {
            assert(pre.issues@[j as int].id == j + 1);
        }
        // the title must stay unique among the node's open tickets
        if open && !(new_title == self.issues[j].title) {
            let found = self.find_open_issue(tid, &new_title);
            proof {
                let t = (tid - 1) as int;
                assert(pre.target_name(j as int) == pre.targets@[t].name@);
                if pre.open_issue_index(pre.target_name(j as int), new_title@) is Some {
                    let c = choose|x: int|
                        0 <= x < pre.issues@.len() && is_open_ish(#[trigger] pre.issues@[x].status)
                            && pre.target_name(x) == pre.target_name(j as int) && pre.issues@[x].title@ == new_title@;
                    pre.lemma_target_name(c, t);
                }
                if let Some(x) = found {
                    pre.lemma_target_name(x as int, t);
                }
            }
            if found.is_some() {
                return Err(StoreError::TitleTaken);
            }
        }
        let notes = change_notes(&self.issues[j], u);
        if notes.len() > MAX_ROWS - self.comments.len() {
            return Err(StoreError::Full);
        }
        let old_title = self.issues[j].title.clone();
        let last = self.issues[j].updated_at;
        let stamp: i64 = if now > last {
            now
        } else if last < i64::MAX {
            last + 1
        } else {
            last
        };
        self.set_fields(j, new_assigned, new_description, new_title, new_scope, stamp);
        self.push_notes(u.id, operator, notes, now);
        let release = if open && new_scope != old_scope {
            self.released_nodes(cluster, j, old_scope)
        } else {
            Vec::new()
        };
        let mut actions: Vec<SchedAction> = Vec::new();
        let mut resumes: Vec<ChangeLogMsg> = Vec::new();
        let mut k: usize = 0;
        while k < release.len()
            invariant
                k <= release@.len(),
                actions@.len() == k,
                resumes@.len() == k,
                forall|i: int| 0 <= i < k ==> is_release_of(#[trigger] actions@[i], release@[i]@),
                forall|i: int| 0 <= i < k ==> is_resume_of(#[trigger] resumes@[i], release@[i]@, operator@),
            decreases release@.len() - k,
        {
            actions.push(SchedAction::Release { target: release[k].clone() });
            resumes.push(ChangeLogMsg::Resume { target: release[k].clone(), operator: String::from_str(operator) });
            k = k + 1;
        }
        Ok(
            UpdateOutcome {
                event: ChangeLogMsg::Update { issue: u.id, title: old_title, operator: String::from_str(operator) },
                release,
                actions,
                resumes,
            },
        )
    }

    /// Sets the changeable fields of ticket `j`; a title must not clash with another open
    /// ticket on the node.
    fn set_fields(
        &mut self,
        j: usize,
        assigned_to: Option<String>,
        description: String,
        title: String,
        scope: Option<ToOffline>,
        stamp: i64,
    )
        requires
            old(self).wf(),
            j < old(self).issues@.len(),
            old(self).issues@[j as int].created_at <= stamp,
            is_open_ish(old(self).issues@[j as int].status) && title@ != old(self).issues@[j as int].title@
                ==> forall|x: int|
                0 <= x < old(self).issues@.len() ==> !(is_open_ish(#[trigger] old(self).issues@[x].status)
                    && old(self).issues@[x].target_id == old(self).issues@[j as int].target_id
                    && old(self).issues@[x].title@ == title@),
        ensures
            final(self).wf(),
            final(self).targets == old(self).targets,
            final(self).comments == old(self).comments,
            final(self).issues@.len() == old(self).issues@.len(),
            forall|x: int| 0 <= x < old(self).issues@.len() && x != j ==> #[trigger] final(self).issues@[x] == old(self).issues@[x],
            final(self).issues@[j as int].id == old(self).issues@[j as int].id,
            final(self).issues@[j as int].target_id == old(self).issues@[j as int].target_id,
            final(self).issues@[j as int].created_by == old(self).issues@[j as int].created_by,
            final(self).issues@[j as int].created_at == old(self).issues@[j as int].created_at,
            final(self).issues@[j as int].status == old(self).issues@[j as int].status,
            final(self).issues@[j as int].assigned_to == assigned_to,
            final(self).issues@[j as int].description == description,
            final(self).issues@[j as int].title == title,
            final(self).issues@[j as int].to_offline == scope,
            final(self).issues@[j as int].updated_at == stamp,
    {
        let ghost pre = *self;
        self.issues[j].assigned_to = assigned_to;
        self.issues[j].description = description;
        self.issues[j].title = title;
        self.issues[j].to_offline = scope;
        self.issues[j].updated_at = stamp;
        proof {
            assert forall|x: int| 0 <= x < pre.issues@.len() && x != j implies #[trigger] self.issues@[x]
                == pre.issues@[x] by {}
            assert forall|k: int| 0 <= k < self.issues@.len() implies {
                &&& #[trigger] self.issues@[k].id == k + 1
                &&& 1 <= self.issues@[k].target_id <= self.targets@.len()
                &&& self.issues@[k].created_at <= self.issues@[k].updated_at
            } by {
                assert(pre.issues@[k].id == k + 1);
            }
            assert forall|k: int| 0 <= k < self.comments@.len() implies {
                &&& #[trigger] self.comments@[k].id == k + 1
                &&& 1 <= self.comments@[k].issue_id <= self.issues@.len()
            } by {
                assert(pre.comments@[k].id == k + 1);
            }
            assert(self.one_open_per_title()) by {
                assert forall|a: int, b: int|
                    0 <= a < self.issues@.len() && 0 <= b < self.issues@.len() && a != b
                        && is_open_ish(#[trigger] self.issues@[a].status) && is_open_ish(
                        #[trigger] self.issues@[b].status,
                    ) && self.issues@[a].target_id == self.issues@[b].target_id
                    implies self.issues@[a].title@ != self.issues@[b].title@ by {
                    assert(is_open_ish(pre.issues@[a].status));
                    assert(is_open_ish(pre.issues@[b].status));
                    if a == j && title@ != pre.issues@[j as int].title@ {
                        assert(!(is_open_ish(pre.issues@[b].status) && pre.issues@[b].target_id
                            == pre.issues@[j as int].target_id && pre.issues@[b].title@ == title@));
                    }
                    if b == j && title@ != pre.issues@[j as int].title@ {
                        assert(!(is_open_ish(pre.issues@[a].status) && pre.issues@[a].target_id
                            == pre.issues@[j as int].target_id && pre.issues@[a].title@ == title@));
                    }
                }
            }
        }
    }

    /// Appends `notes` as comments on ticket `id`, in order.
    fn push_notes(&mut self, id: i32, operator: &str, notes: Vec<String>, now: i64)
        requires
            old(self).wf(),
            1 <= id <= old(self).issues@.len(),
            old(self).comments@.len() + notes@.len() <= MAX_ROWS,
        ensures
            final(self).wf(),
            final(self).targets == old(self).targets,
            final(self).issues == old(self).issues,
            final(self).comments@.len() == old(self).comments@.len() + notes@.len(),
            final(self).comments@.subrange(0, old(self).comments@.len() as int) == old(self).comments@,
            forall|i: int| 0 <= i < notes@.len() ==> {
                let c = #[trigger] final(self).comments@[old(self).comments@.len() + i];
                &&& c.comment@ == notes@[i]@
                &&& c.issue_id == id
                &&& c.created_by@ == operator@
            },
    {
        let ghost pre = *self;
        let mut k: usize = 0;
        while k < notes.len()
            invariant
                self.wf(),
                1 <= id <= self.issues@.len(),
                self.targets == pre.targets,
                self.issues == pre.issues,
                k <= notes@.len(),
                pre.comments@.len() + notes@.len() <= MAX_ROWS,
                self.comments@.len() == pre.comments@.len() + k,
                self.comments@.subrange(0, pre.comments@.len() as int) == pre.comments@,
                forall|i: int| 0 <= i < k ==> {
                    let c = #[trigger] self.comments@[pre.comments@.len() + i];
                    &&& c.comment@ == notes@[i]@
                    &&& c.issue_id == id
                    &&& c.created_by@ == operator@
                },
            decreases notes@.len() - k,
        {
            let ghost before = self.comments@;
            self.push_comment(id, String::from_str(operator), notes[k].clone(), now);
            proof {
                assert(self.comments@.drop_last() == before);
                assert forall|i: int| 0 <= i < k + 1 implies {
                    let c = #[trigger] self.comments@[pre.comments@.len() + i];
                    &&& c.comment@ == notes@[i]@
                    &&& c.issue_id == id
                    &&& c.created_by@ == operator@
                } by {
                    if i < k {
                        assert(self.comments@.drop_last()[pre.comments@.len() + i] == self.comments@[pre.comments@.len() + i]);
                    }
                }
                assert(self.comments@.subrange(0, pre.comments@.len() as int) =~= before.subrange(0, pre.comments@.len() as int));
            }
            k = k + 1;
        }
    }

    /// The nodes that ticket `j` covered with scope `old_scope` and no longer covers, and
    /// that no open ticket keeps out of service.
    fn released_nodes(&self, cluster: &RegexCluster, j: usize, old_scope: Option<ToOffline>) -> (r: Vec<String>)
        requires
            self.wf(),
            j < self.issues@.len(),
        ensures
            forall|m: Seq<char>| #[trigger] view_names(r@).contains(m) <==> (
                implicated(*cluster, old_scope, self.target_name(j as int)).contains(m)
                && !implicated(*cluster, self.issues@[j as int].to_offline, self.target_name(j as int)).contains(m)
                && self.expected_status(*cluster, m) == TargetStatus::Online),
            forall|x: int, y: int| 0 <= x < y < r@.len() ==> (#[trigger] r@[x])@ != (#[trigger] r@[y])@,
    {
        assert(self.issues@[j as int].id == j + 1);
        let t = (self.issues[j].target_id - 1) as usize;
        let before = implicated_names(cluster, old_scope, &self.targets[t].name);
        let after = implicated_names(cluster, self.issues[j].to_offline, &self.targets[t].name);
        let mut release: Vec<String> = Vec::new();
        let mut k: usize = 0;
        while k < before.len()
            invariant
                self.wf(),
                k <= before@.len(),
                forall|m: Seq<char>| #[trigger] view_names(release@).contains(m) <==> (view_names(
                    before@,
                ).subrange(0, k as int).contains(m) && !view_names(after@).contains(m)
                    && self.expected_status(*cluster, m) == TargetStatus::Online),
                forall|x: int, y: int| 0 <= x < y < release@.len() ==> (#[trigger] release@[x])@ != (#[trigger] release@[y])@,
            decreases before@.len() - k,
        {
            let ghost prev = release@;
            let ghost x = before@[k as int]@;
            let fresh = !contains_name(&release, &before[k]);
            if !contains_name(&after, &before[k]) && fresh {
                if self.desired_state(cluster, &before[k]) == TargetStatus::Online {
                    release.push(before[k].clone());
                    proof {
                        assert forall|a: int, b: int| 0 <= a < b < release@.len() implies (#[trigger] release@[a])@
                            != (#[trigger] release@[b])@ by {
                            if b == prev.len() {
                                assert(view_names(prev)[a] == prev[a]@);
                            } else {
                                assert(release@[a] == prev[a]);
                                assert(release@[b] == prev[b]);
                            }
                        }
                    }
                }
            }
            proof {
                let bs = view_names(before@);
                assert(bs.subrange(0, k + 1) =~= bs.subrange(0, k as int).push(x));
                assert(view_names(release@) =~= view_names(prev) || view_names(release@) =~= view_names(prev).push(x));
                assert forall|m: Seq<char>| #[trigger] view_names(release@).contains(m) <==> (bs.subrange(0, k + 1).contains(m)
                    && !view_names(after@).contains(m) && self.expected_status(*cluster, m) == TargetStatus::Online) by {
                    if bs.subrange(0, k + 1).contains(m) && m != x {
                        let i = choose|i: int| 0 <= i < k + 1 && #[trigger] bs.subrange(0, k + 1)[i] == m;
                        assert(bs.subrange(0, k as int)[i] == m);
                    }
                    if bs.subrange(0, k as int).contains(m) {
                        let i = choose|i: int| 0 <= i < k && #[trigger] bs.subrange(0, k as int)[i] == m;
                        assert(bs.subrange(0, k + 1)[i] == m);
                    }
                    if view_names(release@).contains(m) && view_names(release@) =~= view_names(prev).push(x) && m != x {
                        let i = choose|i: int| 0 <= i < view_names(release@).len() && #[trigger] view_names(release@)[i] == m;
                        assert(view_names(prev)[i] == m);
                    }
                    if view_names(prev).contains(m) && view_names(release@) =~= view_names(prev).push(x) {
                        let i = choose|i: int| 0 <= i < view_names(prev).len() && #[trigger] view_names(prev)[i] == m;
                        assert(view_names(release@)[i] == m);
                    }
                    if view_names(release@) =~= view_names(prev).push(x) {
                        assert(view_names(release@)[view_names(prev).len() as int] == x);
                    }
                    assert(bs.subrange(0, k + 1)[k as int] == x);
                }
            }
            k = k + 1;
        }
        assert(view_names(before@).subrange(0, k as int) =~= view_names(before@));
        release
    }
}

} // verus!
