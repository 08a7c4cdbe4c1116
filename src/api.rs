//! The ticket API behind its role gate: reads for any role, changes for Admin only.
use vstd::prelude::*;
use crate::auth::{GuardError, Role, RoleChecker, RoleGuard};
use crate::model::{ChangeLogMsg, IssueStatus, NewIssue, UpdateIssue};
use crate::store::{opt_view, Store, StoreError, UpdateOutcome};
use crate::topology::RegexCluster;

verus! {

/// Why an API call did nothing.
#[derive(Debug, Clone, Copy, PartialEq, Eq, Structural)]
pub enum ApiError {
    Guard(GuardError),
    Store(StoreError),
}

/// Ticket `j` of `s` answers a listing for `status` (by default all but Closed) and
/// `target`.
pub open spec fn listed(s: Store, j: int, status: Option<IssueStatus>, target: Option<Seq<char>>) -> bool {
    &&& match status {
        Some(st) => s.issues@[j].status == st,
        None => s.issues@[j].status != IssueStatus::Closed,
    }
    &&& match target {
        Some(t) => s.target_name(j) == t,
        None => true,
    }
}

/// The read side of the API.
pub struct Query;

/// The write side of the API.
pub struct Mutation;

pub open spec fn may_read(guard: Option<&RoleGuard>) -> bool {
    guard matches Some(g) && (g.role == Role::Admin || g.role == Role::Guest)
}

pub open spec fn may_write(guard: Option<&RoleGuard>) -> bool {
    guard matches Some(g) && g.role == Role::Admin
}

fn gate_read(guard: Option<&RoleGuard>) -> (r: Result<(), GuardError>)
    ensures
        r is Ok <==> may_read(guard),
{
    match RoleChecker::new(Role::Admin).check(guard) {
        Ok(()) => Ok(()),
        Err(_) => RoleChecker::new(Role::Guest).check(guard),
    }
}

impl Query {
    /// Index of ticket `issue`, if there is one.
    pub fn issue(&self, store: &Store, guard: Option<&RoleGuard>, issue: i32) -> (r: Result<Option<usize>, ApiError>)
        requires
            store.wf(),
        ensures
            !may_read(guard) <==> r is Err,
            r matches Ok(Some(j)) ==> j < store.issues@.len() && store.issues@[j as int].id == issue,
            r matches Ok(None) ==> forall|j: int| 0 <= j < store.issues@.len() ==> #[trigger] store.issues@[j].id != issue,
    {
        if let Err(e) = gate_read(guard) {
            return Err(ApiError::Guard(e));
        }
        if issue >= 1 && (issue as usize) <= store.issues.len() {
            let j = (issue - 1) as usize;
            assert(store.issues@[j as int].id == j + 1);
            Ok(Some(j))
        } else {
            assert forall|j: int| 0 <= j < store.issues@.len() implies #[trigger] store.issues@[j].id != issue by {
                assert(store.issues@[j].id == j + 1);
            }
            Ok(None)
        }
    }

    /// Indices of the tickets with `issue_status` (all but Closed when none is given) on
    /// node `target` (any node when none is given), in id order.
    pub fn issues(
        &self,
        store: &Store,
        guard: Option<&RoleGuard>,
        issue_status: Option<IssueStatus>,
        target: Option<String>,
    ) -> (r: Result<Vec<usize>, ApiError>)
        requires
            store.wf(),
        ensures
            !may_read(guard) <==> r is Err,
            r is Ok ==> {
                let v = r->Ok_0;
                &&& forall|i: int| 0 <= i < v@.len() ==> #[trigger] v@[i] < store.issues@.len()
                &&& forall|i: int, k: int| 0 <= i < k < v@.len() ==> v@[i] < v@[k]
                &&& forall|j: int| 0 <= j < store.issues@.len() ==> (v@.contains(j as usize) <==> #[trigger] listed(
                    *store,
                    j,
                    issue_status,
                    opt_view(target),
                ))
            },
    {
        if let Err(e) = gate_read(guard) {
            return Err(ApiError::Guard(e));
        }
        let ghost tv = opt_view(target);
        let mut out: Vec<usize> = Vec::new();
        let mut j: usize = 0;
        while j < store.issues.len()
            invariant
                store.wf(),
                j <= store.issues@.len(),
                tv == opt_view(target),
                forall|i: int| 0 <= i < out@.len() ==> #[trigger] out@[i] < j,
                forall|i: int, k: int| 0 <= i < k < out@.len() ==> out@[i] < out@[k],
                forall|x: int| 0 <= x < j ==> (out@.contains(x as usize) <==> #[trigger] listed(*store, x, issue_status, tv)),
            decreases store.issues@.len() - j,
        {
            let st = store.issues[j].status;
            let status_ok = match issue_status {
                Some(s) => st == s,
                None => st != IssueStatus::Closed,
            };
            assert(store.issues@[j as int].id == j + 1);
            let t = (store.issues[j].target_id - 1) as usize;
            let target_ok = match &target {
                Some(name) => store.targets[t].name == *name,
                None => true,
            };
            let ghost prev = out@;
            if status_ok && target_ok {
                out.push(j);
            }
            proof {
                assert forall|x: int| 0 <= x < j + 1 implies (out@.contains(x as usize) <==> #[trigger] listed(*store, x, issue_status, tv)) by {
                    if x < j {
                        if prev.contains(x as usize) {
                            let i = choose|i: int| 0 <= i < prev.len() && prev[i] == x as usize;
                            assert(out@[i] == x as usize);
                        }
                        if out@.contains(x as usize) {
                            let i = choose|i: int| 0 <= i < out@.len() && out@[i] == x as usize;
                            if i < prev.len() {
                                assert(prev[i] == x as usize);
                            }
                        }
                    } else {
                        if status_ok && target_ok {
                            assert(out@[prev.len() as int] == j);
                        } else if out@.contains(x as usize) {
                            let i = choose|i: int| 0 <= i < out@.len() && out@[i] == x as usize;
                            assert(prev[i] < j);
                        }
                    }
                }
            }
            j = j + 1;
        }
        Ok(out)
    }
}

impl Mutation {
    /// Opens a ticket for an Admin, under the Admin's name.
    pub fn open(
        &self,
        store: &mut Store,
        cluster: &RegexCluster,
        guard: Option<&RoleGuard>,
        issue: &NewIssue,
        now: i64,
    ) -> (r: Result<(i32, Option<ChangeLogMsg>), ApiError>)
        requires
            old(store).wf(),
        ensures
            final(store).wf(),
            !may_write(guard) ==> (r matches Err(ApiError::Guard(_))) && *final(store) == *old(store),
            may_write(guard) ==> match r {
                Ok(x) => Store::opened(*old(store), *final(store), *cluster, *issue, guard.unwrap().user@, now, Ok(x)),
                Err(ApiError::Store(e)) => Store::opened(*old(store), *final(store), *cluster, *issue, guard.unwrap().user@, now, Err(e)),
                Err(ApiError::Guard(_)) => false,
            },
    {
        let g = match guard {
            Some(g) => g,
            None => {
                return Err(ApiError::Guard(GuardError::NoRole));
            },
        };
        if g.role != Role::Admin {
            return Err(ApiError::Guard(GuardError::InsufficientPermission));
        }
        match store.issue_open(cluster, issue, g.user.as_str(), now) {
            Ok(x) => Ok(x),
            Err(e) => Err(ApiError::Store(e)),
        }
    }

    /// Moves a ticket to Closing for an Admin, with the Admin's comment.
    pub fn close(
        &self,
        store: &mut Store,
        guard: Option<&RoleGuard>,
        issue: i32,
        comment: &str,
        now: i64,
    ) -> (r: Result<Option<ChangeLogMsg>, ApiError>)
        requires
            old(store).wf(),
        ensures
            final(store).wf(),
            !may_write(guard) ==> (r matches Err(ApiError::Guard(_))) && *final(store) == *old(store),
            may_write(guard) ==> match r {
                Ok(x) => Store::closed(*old(store), *final(store), issue, guard.unwrap().user@, comment@, now, Ok(x)),
                Err(ApiError::Store(e)) => Store::closed(*old(store), *final(store), issue, guard.unwrap().user@, comment@, now, Err(e)),
                Err(ApiError::Guard(_)) => false,
            },
    {
        let g = match guard {
            Some(g) => g,
            None => {
                return Err(ApiError::Guard(GuardError::NoRole));
            },
        };
        if g.role != Role::Admin {
            return Err(ApiError::Guard(GuardError::InsufficientPermission));
        }
        match store.issue_close(issue, g.user.as_str(), comment, now) {
            Ok(x) => Ok(x),
            Err(e) => Err(ApiError::Store(e)),
        }
    }

    /// Changes a ticket for an Admin; see `Store::issue_update`.
    pub fn update_issue(
        &self,
        store: &mut Store,
        cluster: &RegexCluster,
        guard: Option<&RoleGuard>,
        issue: &UpdateIssue,
        now: i64,
    ) -> (r: Result<UpdateOutcome, ApiError>)
        requires
            old(store).wf(),
        ensures
            final(store).wf(),
            !may_write(guard) ==> (r matches Err(ApiError::Guard(_))) && *final(store) == *old(store),
            may_write(guard) ==> match r {
                Ok(x) => Store::updated(*old(store), *final(store), *cluster, *issue, guard.unwrap().user@, now, Ok(x)),
                Err(ApiError::Store(e)) => Store::updated(*old(store), *final(store), *cluster, *issue, guard.unwrap().user@, now, Err(e)),
                Err(ApiError::Guard(_)) => false,
            },
    {
        let g = match guard {
            Some(g) => g,
            None => {
                return Err(ApiError::Guard(GuardError::NoRole));
            },
        };
        if g.role != Role::Admin {
            return Err(ApiError::Guard(GuardError::InsufficientPermission));
        }
        match store.issue_update(cluster, issue, g.user.as_str(), now) {
            Ok(x) => Ok(x),
            Err(e) => Err(ApiError::Store(e)),
        }
    }
}

} // verus!
