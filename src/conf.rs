//! The daemon's settings.
use vstd::prelude::*;
use crate::scheduler::ShellScheduler;
use crate::auth::Role;
use crate::topology::{view_names, NodeType};
use crate::expected::contains_name;

verus! {

/// Everything the daemon is configured with.
pub struct Conf {
    pub poll_interval: u64,
    pub slack: Slack,
    pub db: String,
    pub certs_dir: String,
    pub server_addr: String,
    pub auth: Auth,
    pub cluster: Cluster,
    pub scheduler: Scheduler,
}

/// The OS groups whose members get the Admin and the Guest role.
pub struct Auth {
    pub admin: Vec<String>,
    pub guest: Vec<String>,
}

/// Where the activity digest is posted.
pub struct Slack {
    pub channel: String,
    pub token: String,
}

/// Which scheduler drives the nodes.
pub enum Scheduler {
    Pbs,
    Shell(ShellScheduler),
}

/// How the node layout is known.
pub enum Cluster {
    Regex(Vec<NodeType>),
    Shell(ShellClusterConf),
}

/// Commands that print a node's siblings, cousins, and whether it is a node.
pub struct ShellClusterConf {
    pub siblings_cmd: String,
    pub cousins_cmd: String,
    pub real_node_cmd: String,
}

impl Conf {
    /// Seconds between two activity digests: six passes of the reconciler.
    pub fn digest_interval(&self) -> (r: u64)
        ensures
            self.poll_interval <= u64::MAX / 6 ==> r == self.poll_interval * 6,
            self.poll_interval > u64::MAX / 6 ==> r == u64::MAX,
    {
        if self.poll_interval <= u64::MAX / 6 {
            self.poll_interval * 6
        } else {
            u64::MAX
        }
    }
}

/// Some group of `names` is in `groups`.
pub open spec fn shares_group(names: Seq<String>, groups: Seq<String>) -> bool {
    exists|i: int| 0 <= i < names.len() && view_names(groups).contains(#[trigger] names[i]@)
}

impl Auth {
    /// The role of a user who is in `groups`: Admin where one of them is an admin group,
    /// else Guest where one is a guest group. A user whose uid does not match the one
    /// the login proved gets none.
    pub fn check_role(&self, uid_matches: bool, groups: &Vec<String>) -> (r: Option<Role>)
        ensures
            !uid_matches ==> r is None,
            uid_matches && shares_group(self.admin@, groups@) ==> r == Some(Role::Admin),
            uid_matches && !shares_group(self.admin@, groups@) && shares_group(self.guest@, groups@)
                ==> r == Some(Role::Guest),
            uid_matches && !shares_group(self.admin@, groups@) && !shares_group(self.guest@, groups@)
                ==> r is None,
    {
        if !uid_matches {
            return None;
        }
        if first_shared(&self.admin, groups) {
            return Some(Role::Admin);
        }
        if first_shared(&self.guest, groups) {
            return Some(Role::Guest);
        }
        None
    }
}

fn first_shared(names: &Vec<String>, groups: &Vec<String>) -> (r: bool)
    ensures
        r == shares_group(names@, groups@),
{
    let mut k: usize = 0;
    while k < names.len()
        invariant
            k <= names@.len(),
            forall|i: int| 0 <= i < k ==> !view_names(groups@).contains(#[trigger] names@[i]@),
        decreases names@.len() - k,
    {
        if contains_name(groups, &names[k]) {
            return true;
        }
        k = k + 1;
    }
    false
}

} // verus!
