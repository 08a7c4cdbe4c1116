//! Tickets, nodes and the events that their changes produce.
use vstd::prelude::*;
use crate::text::text_is;
use crate::topology::RegexCluster;

verus! {

/// What the daemon believes of a node.
#[derive(Debug, Clone, Copy, PartialEq, Eq, Structural)]
pub enum TargetStatus {
    Online,
    Draining,
    Offline,
    Down,
}

/// Phase of a ticket; `Opening` and `Closing` wait for the reconciler.
#[derive(Debug, Clone, Copy, PartialEq, Eq, Structural)]
pub enum IssueStatus {
    Open,
    Closed,
    Opening,
    Closing,
}

/// How much hardware a ticket takes out of service.
#[derive(Debug, Clone, Copy, PartialEq, Eq, Structural)]
pub enum ToOffline {
    Node,
    Card,
    Blade,
}

pub open spec fn is_open_ish(s: IssueStatus) -> bool {
    s == IssueStatus::Opening || s == IssueStatus::Open
}

impl TargetStatus {
    /// Reads a status from its name, as the shell scheduler prints it.
    pub fn from_str(state: &str) -> (r: Option<Self>)
        ensures
            state@ == "Online"@ <==> r == Some(TargetStatus::Online),
            state@ == "Draining"@ <==> r == Some(TargetStatus::Draining),
            state@ == "Offline"@ <==> r == Some(TargetStatus::Offline),
            state@ == "Down"@ <==> r == Some(TargetStatus::Down),
    {
        proof {
            reveal_strlit("Online");
            reveal_strlit("Draining");
            reveal_strlit("Offline");
            reveal_strlit("Down");
            assert("Online"@.len() == 6);
            assert("Draining"@.len() == 8);
            assert("Offline"@.len() == 7);
            assert("Down"@.len() == 4);
        }
        if text_is(state, "Online") {
            Some(Self::Online)
        } else if text_is(state, "Draining") {
            Some(Self::Draining)
        } else if text_is(state, "Offline") {
            Some(Self::Offline)
        } else if text_is(state, "Down") {
            Some(Self::Down)
        } else {
            None
        }
    }
}

/// A compute node known to the daemon.
pub struct Target {
    pub id: i32,
    pub name: String,
    pub status: TargetStatus,
}

/// A ticket against one node.
pub struct Issue {
    pub id: i32,
    pub target_id: i32,
    pub title: String,
    pub description: String,
    pub created_by: String,
    pub assigned_to: Option<String>,
    pub created_at: i64,
    pub updated_at: i64,
    pub to_offline: Option<ToOffline>,
    pub status: IssueStatus,
}

/// One entry of a ticket's history.
pub struct Comment {
    pub id: i32,
    pub issue_id: i32,
    pub created_by: String,
    pub created_at: i64,
    pub comment: String,
}

/// A change worth telling the operators about.
#[derive(Debug, Clone, PartialEq, Eq, Hash)]
pub enum ChangeLogMsg {
    Offline { target: String, operator: String },
    Resume { target: String, operator: String },
    Close { issue: i32, title: String, comment: String, operator: String },
    Open { issue: i32, title: String, operator: String },
    Update { issue: i32, title: String, operator: String },
}

/// A request to open a ticket.
pub struct NewIssue {
    pub assigned_to: Option<String>,
    pub description: String,
    pub to_offline: Option<ToOffline>,
    pub target: String,
    pub title: String,
}

/// A request to change fields of a ticket; `None` leaves a field as it is.
pub struct UpdateIssue {
    pub assigned_to: Option<String>,
    pub description: Option<String>,
    pub enforce_down: Option<bool>,
    pub to_offline: Option<ToOffline>,
    pub id: i32,
    pub title: Option<String>,
}

impl NewIssue {
    /// A request to open a ticket on `target`; None where `target` is no node of `cluster`.
    pub fn new(
        assigned_to: Option<String>,
        description: String,
        title: String,
        target: String,
        to_offline: Option<ToOffline>,
        cluster: &RegexCluster,
    ) -> (r: Option<Self>)
        ensures
            r is Some <==> cluster.spec_real_node(target@),
            r matches Some(n) ==> n.assigned_to == assigned_to && n.description == description
                && n.title == title && n.target == target && n.to_offline == to_offline,
    {
        if cluster.real_node(target.as_str()) {
            Some(Self { assigned_to, description, to_offline, target, title })
        } else {
            None
        }
    }
}

} // verus!
