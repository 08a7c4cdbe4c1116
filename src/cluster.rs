//! The cluster layouts the daemon knows, and how the configuration picks one.
use vstd::prelude::*;
use crate::conf::{Cluster, Scheduler, ShellClusterConf};
use crate::topology::{view_names, NodeType, RegexCluster};

verus! {

/// Node names, their cards and blades.
pub trait ClusterTrait {
    fn siblings(&self, target: &str) -> Vec<String>;

    fn cousins(&self, target: &str) -> Vec<String>;

    fn real_node(&self, target: &str) -> bool;
}

impl ClusterTrait for RegexCluster {
    fn siblings(&self, target: &str) -> Vec<String> {
        RegexCluster::siblings(self, target)
    }

    fn cousins(&self, target: &str) -> Vec<String> {
        RegexCluster::cousins(self, target)
    }

    fn real_node(&self, target: &str) -> bool {
        RegexCluster::real_node(self, target)
    }
}

/// A layout answered by operator commands; the daemon runs them.
pub struct ShellCluster {
    pub sched: Scheduler,
    pub siblings_cmd: String,
    pub cousins_cmd: String,
    pub real_node_cmd: String,
}

impl ShellCluster {
    pub fn new(conf: ShellClusterConf, sched: Scheduler) -> (r: Self)
        ensures
            r.siblings_cmd@ == conf.siblings_cmd@,
            r.cousins_cmd@ == conf.cousins_cmd@,
            r.real_node_cmd@ == conf.real_node_cmd@,
            r.sched == sched,
    {
        Self {
            sched,
            siblings_cmd: conf.siblings_cmd,
            cousins_cmd: conf.cousins_cmd,
            real_node_cmd: conf.real_node_cmd,
        }
    }
}

/// Digits in a node number of the fixed layout.
pub const SHASTA_DIGITS: usize = 4;

/// Nodes of the fixed layout are numbered from one to this.
pub const SHASTA_LAST: u32 = 18;

/// Nodes on a card of the fixed layout.
pub const SHASTA_CARD: u32 = 2;

/// Nodes on a blade of the fixed layout.
pub const SHASTA_BLADE: u32 = 4;

/// The node type of the fixed layout with name prefix `prefix`.
pub open spec fn shasta_type(prefix: Seq<char>, nt: NodeType) -> bool {
    &&& nt.prefix@ == prefix
    &&& nt.digits == Some(SHASTA_DIGITS)
    &&& nt.board == Some(SHASTA_CARD)
    &&& nt.first_num == Some(1u32)
    &&& nt.last_num == Some(SHASTA_LAST)
    &&& nt.slot == Some(SHASTA_BLADE)
}

/// A fixed layout: four-digit node numbers from one to eighteen, two nodes to a card,
/// four to a blade.
pub struct Shasta {
    pub prefix: String,
}

impl Shasta {
    pub fn new(prefix: String) -> (r: Self)
        ensures
            r.prefix@ == prefix@,
    {
        Self { prefix }
    }

    /// The layout as a list of node types.
    pub open spec fn spec_layout(&self, c: RegexCluster) -> bool {
        c.types().len() == 1 && shasta_type(self.prefix@, c.types()[0])
    }

    pub fn layout(&self) -> (r: RegexCluster)
        ensures
            self.spec_layout(r),
    {
        let mut types: Vec<NodeType> = Vec::new();
        types.push(
            NodeType {
                prefix: self.prefix.clone(),
                digits: Some(SHASTA_DIGITS),
                board: Some(SHASTA_CARD),
                first_num: Some(1),
                last_num: Some(SHASTA_LAST),
                slot: Some(SHASTA_BLADE),
            },
        );
        RegexCluster::new(types, Scheduler::Pbs)
    }

    /// The nodes on the card of `target`.
    pub fn siblings(&self, target: &str) -> (r: Vec<String>)
        ensures
            exists|c: RegexCluster| self.spec_layout(c) && view_names(r@) == c.spec_siblings(target@),
    {
        let c = self.layout();
        c.siblings(target)
    }

    /// The nodes on the blade of `target`.
    pub fn cousins(&self, target: &str) -> (r: Vec<String>)
        ensures
            exists|c: RegexCluster| self.spec_layout(c) && view_names(r@) == c.spec_cousins(target@),
    {
        let c = self.layout();
        c.cousins(target)
    }

    /// Whether `target` is a node of the layout.
    pub fn real_node(&self, target: &str) -> (r: bool)
        ensures
            exists|c: RegexCluster| self.spec_layout(c) && r == c.spec_real_node(target@),
    {
        let c = self.layout();
        c.real_node(target)
    }
}

/// The fixed layout of the nodes named `gu` and a number.
pub struct Gust;

impl Gust {
    pub fn layout() -> (r: Shasta)
        ensures
            r.prefix@ == "gu"@,
    {
        Shasta::new(String::from_str("gu"))
    }

    pub fn siblings(target: &str) -> (r: Vec<String>)
        ensures
            exists|c: RegexCluster| shasta_type("gu"@, c.types()[0]) && c.types().len() == 1
                && view_names(r@) == c.spec_siblings(target@),
    {
        Self::layout().siblings(target)
    }

    pub fn cousins(target: &str) -> (r: Vec<String>)
        ensures
            exists|c: RegexCluster| shasta_type("gu"@, c.types()[0]) && c.types().len() == 1
                && view_names(r@) == c.spec_cousins(target@),
    {
        Self::layout().cousins(target)
    }

    pub fn real_node(target: &str) -> (r: bool)
        ensures
            exists|c: RegexCluster| shasta_type("gu"@, c.types()[0]) && c.types().len() == 1
                && r == c.spec_real_node(target@),
    {
        Self::layout().real_node(target)
    }
}

/// A layout chosen by the configuration.
pub enum ClusterKind {
    Regex(RegexCluster),
    Shell(ShellCluster),
}

/// Builds the layout that the configuration names, with its scheduler.
pub fn new(c: Cluster, s: Scheduler) -> (r: ClusterKind)
    ensures
        c matches Cluster::Regex(types) ==> r matches ClusterKind::Regex(rc) && rc.types() == types@
            && rc.sched == s,
        c matches Cluster::Shell(conf) ==> r matches ClusterKind::Shell(sc) && sc.sched == s
            && sc.siblings_cmd@ == conf.siblings_cmd@ && sc.cousins_cmd@ == conf.cousins_cmd@
            && sc.real_node_cmd@ == conf.real_node_cmd@,
{
    match c {
        Cluster::Regex(node_types) => ClusterKind::Regex(RegexCluster::new(node_types, s)),
        Cluster::Shell(conf) => ClusterKind::Shell(ShellCluster::new(conf, s)),
    }
}

} // verus!
