use ctt::changelog::Digest;
use ctt::conf::Scheduler;
use ctt::model::{ChangeLogMsg, IssueStatus, NewIssue, TargetStatus, ToOffline, UpdateIssue};
use ctt::reconcile::{NodeReport, SchedAction};
use ctt::store::{Store, StoreError};
use ctt::topology::{NodeType, RegexCluster};

fn cluster() -> RegexCluster {
    RegexCluster::new(
        vec![NodeType {
            prefix: "gu".to_string(),
            digits: Some(4),
            board: Some(2),
            first_num: Some(1),
            last_num: Some(18),
            slot: Some(4),
        }],
        Scheduler::Pbs,
    )
}

fn name(i: u32) -> String {
    format!("gu{:0>4}", i)
}

fn reports(states: &[(u32, TargetStatus)]) -> Vec<NodeReport> {
    (1..=18)
        .map(|i| {
            let status = states
                .iter()
                .find(|(n, _)| *n == i)
                .map(|(_, s)| *s)
                .unwrap_or(TargetStatus::Online);
            NodeReport { name: name(i), status, comment: String::new() }
        })
        .collect()
}

fn new_issue(target: &str, title: &str, to_offline: Option<ToOffline>) -> NewIssue {
    NewIssue {
        assigned_to: None,
        description: "details".to_string(),
        to_offline,
        target: target.to_string(),
        title: title.to_string(),
    }
}

fn status_of(store: &Store, target: &str) -> TargetStatus {
    store.targets.iter().find(|t| t.name == target).unwrap().status
}

fn offline_targets(actions: &[SchedAction]) -> Vec<String> {
    let mut v: Vec<String> = actions
        .iter()
        .filter_map(|a| match a {
            SchedAction::Offline { target, .. } => Some(target.clone()),
            _ => None,
        })
        .collect();
    v.sort();
    v
}

fn released_targets(actions: &[SchedAction]) -> Vec<String> {
    let mut v: Vec<String> = actions
        .iter()
        .filter_map(|a| match a {
            SchedAction::Release { target } => Some(target.clone()),
            _ => None,
        })
        .collect();
    v.sort();
    v
}

#[test]
fn open_and_drain_card() {
    let c = cluster();
    let mut store = Store::new();
    let (id, ev) = store
        .issue_open(&c, &new_issue("gu0005", "NIC flap", Some(ToOffline::Card)), "alice", 10)
        .unwrap();
    assert_eq!(id, 1);
    assert!(matches!(ev, Some(ChangeLogMsg::Open { issue: 1, ref operator, .. }) if operator == "alice"));
    assert_eq!(store.issues[0].status, IssueStatus::Opening);
    assert_eq!(store.comments.len(), 1);
    assert_eq!(store.comments[0].comment, "Opening issue");

    let out = store.tick(&c, &reports(&[]), 20);
    assert_eq!(offline_targets(&out.actions), vec!["gu0005", "gu0006"]);
    let offline_events = out
        .events
        .iter()
        .filter(|e| matches!(e, ChangeLogMsg::Offline { .. }))
        .count();
    assert_eq!(offline_events, 2);
    assert_eq!(out.events.len(), 2);
    assert_eq!(store.issues[0].status, IssueStatus::Open);
    assert_eq!(status_of(&store, "gu0005"), TargetStatus::Draining);
    assert_eq!(status_of(&store, "gu0006"), TargetStatus::Draining);
    assert_eq!(status_of(&store, "gu0007"), TargetStatus::Online);
    assert_eq!(store.targets.len(), 18);
}

#[test]
fn close_and_resume_card() {
    let c = cluster();
    let mut store = Store::new();
    let (id, _) = store
        .issue_open(&c, &new_issue("gu0005", "NIC flap", Some(ToOffline::Card)), "alice", 10)
        .unwrap();
    store.tick(&c, &reports(&[]), 20);
    let ev = store.issue_close(id, "alice", "replaced cable", 30).unwrap();
    assert!(matches!(ev, Some(ChangeLogMsg::Close { ref comment, .. }) if comment == "replaced cable"));
    assert_eq!(store.issues[0].status, IssueStatus::Closing);

    let out = store.tick(
        &c,
        &reports(&[(5, TargetStatus::Offline), (6, TargetStatus::Offline)]),
        40,
    );
    assert_eq!(released_targets(&out.actions), vec!["gu0005", "gu0006"]);
    let resumes = out
        .events
        .iter()
        .filter(|e| matches!(e, ChangeLogMsg::Resume { .. }))
        .count();
    assert_eq!(resumes, 2);
    assert_eq!(store.issues[0].status, IssueStatus::Closed);
    assert_eq!(status_of(&store, "gu0005"), TargetStatus::Online);
    assert_eq!(status_of(&store, "gu0006"), TargetStatus::Online);
}

#[test]
fn narrow_scope_releases_cousins() {
    let c = cluster();
    let mut store = Store::new();
    let (id, _) = store
        .issue_open(&c, &new_issue("gu0009", "PSU", Some(ToOffline::Blade)), "alice", 10)
        .unwrap();
    let out = store.tick(&c, &reports(&[]), 20);
    assert_eq!(offline_targets(&out.actions), vec!["gu0009", "gu0010", "gu0011", "gu0012"]);

    let upd = UpdateIssue {
        assigned_to: None,
        description: None,
        enforce_down: None,
        to_offline: Some(ToOffline::Node),
        id,
        title: None,
    };
    let res = store.issue_update(&c, &upd, "alice", 30).unwrap();
    let mut release = res.release.clone();
    release.sort();
    assert_eq!(release, vec!["gu0010", "gu0011", "gu0012"]);
    assert_eq!(res.actions.len(), 3);
    assert_eq!(res.resumes.len(), 3);
    for (a, e) in res.actions.iter().zip(res.resumes.iter()) {
        match (a, e) {
            (SchedAction::Release { target }, ChangeLogMsg::Resume { target: t, operator }) => {
                assert_eq!(target, t);
                assert_eq!(operator, "alice");
            }
            _ => panic!("expected a release and a resume"),
        }
    }
    assert!(matches!(res.event, ChangeLogMsg::Update { issue, .. } if issue == id));
    assert_eq!(store.issues[0].to_offline, Some(ToOffline::Node));
    assert_eq!(store.comments.last().unwrap().comment, "Updating to_offline from Blade to Node");

    // the released nodes come back up; only the ticket's own node stays out
    let out = store.tick(&c, &reports(&[(9, TargetStatus::Offline)]), 40);
    assert!(out.actions.is_empty());
    assert_eq!(status_of(&store, "gu0009"), TargetStatus::Offline);
    for n in ["gu0010", "gu0011", "gu0012"] {
        assert_eq!(status_of(&store, n), TargetStatus::Online);
    }
    assert_eq!(store.issues.len(), 1);
}

#[test]
fn narrowing_keeps_nodes_another_ticket_holds() {
    let c = cluster();
    let mut store = Store::new();
    let (id, _) = store
        .issue_open(&c, &new_issue("gu0009", "PSU", Some(ToOffline::Blade)), "alice", 10)
        .unwrap();
    store
        .issue_open(&c, &new_issue("gu0011", "fan", Some(ToOffline::Node)), "bob", 11)
        .unwrap();
    let upd = UpdateIssue {
        assigned_to: None,
        description: None,
        enforce_down: None,
        to_offline: Some(ToOffline::Node),
        id,
        title: None,
    };
    let res = store.issue_update(&c, &upd, "alice", 30).unwrap();
    let mut release = res.release.clone();
    release.sort();
    assert_eq!(release, vec!["gu0010", "gu0012"]);
}

#[test]
fn unknown_scheduler_node_is_registered() {
    let c = cluster();
    let mut store = Store::new();
    let rep = vec![NodeReport {
        name: "gu0003".to_string(),
        status: TargetStatus::Online,
        comment: String::new(),
    }];
    let out = store.tick(&c, &rep, 5);
    assert_eq!(store.targets.len(), 1);
    assert_eq!(store.targets[0].name, "gu0003");
    assert_eq!(store.targets[0].status, TargetStatus::Online);
    assert!(store.issues.is_empty());
    assert!(out.actions.is_empty());
    assert!(out.events.is_empty());
}

#[test]
fn unexpected_down_opens_ticket() {
    let c = cluster();
    let mut store = Store::new();
    let rep = vec![NodeReport {
        name: "gu0007".to_string(),
        status: TargetStatus::Down,
        comment: "bad dimm".to_string(),
    }];
    let out = store.tick(&c, &rep, 5);
    assert_eq!(store.issues.len(), 1);
    assert_eq!(store.issues[0].created_by, "ctt");
    assert_eq!(store.issues[0].title, "bad dimm");
    assert_eq!(store.issues[0].to_offline, None);
    assert_eq!(store.issues[0].status, IssueStatus::Opening);
    assert_eq!(store.targets[0].status, TargetStatus::Down);
    assert!(out.actions.is_empty());

    let mut d = Digest::new();
    for e in out.events {
        d.record(e);
    }
    assert_eq!(d.flush(), None);

    // the next pass finds the node up again and closes the ticket
    let rep = vec![NodeReport {
        name: "gu0007".to_string(),
        status: TargetStatus::Online,
        comment: String::new(),
    }];
    store.tick(&c, &rep, 6);
    assert_eq!(store.issues[0].status, IssueStatus::Closed);
    assert_eq!(store.targets[0].status, TargetStatus::Online);
    assert_eq!(
        store.comments.last().unwrap().comment,
        "node found up, assuming issue is resolved"
    );
}

#[test]
fn node_missing_from_scheduler_gets_ticket() {
    let c = cluster();
    let mut store = Store::new();
    store
        .issue_open(&c, &new_issue("gu0002", "note", None), "alice", 1)
        .unwrap();
    store.tick(&c, &Vec::new(), 2);
    assert_eq!(store.issues.len(), 2);
    assert_eq!(store.issues[1].title, "Node not found in pbs");
    // not opened twice
    store.tick(&c, &Vec::new(), 3);
    assert_eq!(store.issues.len(), 2);
}

#[test]
fn duplicate_open_is_idempotent() {
    let c = cluster();
    let mut store = Store::new();
    let (a, ea) = store
        .issue_open(&c, &new_issue("gu0001", "bad memory", None), "alice", 1)
        .unwrap();
    let (b, eb) = store
        .issue_open(&c, &new_issue("gu0001", "bad memory", None), "bob", 2)
        .unwrap();
    assert_eq!(a, b);
    assert!(ea.is_some());
    assert!(eb.is_none());
    assert_eq!(store.issues.len(), 1);
}

#[test]
fn open_outside_range_is_rejected() {
    let c = cluster();
    let mut store = Store::new();
    let r = store.issue_open(&c, &new_issue("gu0019", "x", None), "alice", 1);
    assert!(matches!(r, Err(StoreError::NotARealNode)));
    let r = store.issue_open(&c, &new_issue("gu0000", "x", None), "alice", 1);
    assert!(matches!(r, Err(StoreError::NotARealNode)));
    assert!(store.targets.is_empty());
    assert!(store.issues.is_empty());
}

#[test]
fn close_unknown_and_closed_tickets() {
    let c = cluster();
    let mut store = Store::new();
    assert!(matches!(store.issue_close(7, "alice", "x", 1), Err(StoreError::NoSuchIssue)));
    let (id, _) = store
        .issue_open(&c, &new_issue("gu0001", "t", None), "alice", 1)
        .unwrap();
    assert!(store.issue_close(id, "alice", "done", 2).unwrap().is_some());
    // already Closing: nothing more
    assert!(store.issue_close(id, "alice", "again", 3).unwrap().is_none());
    assert_eq!(store.comments.len(), 2);
}

#[test]
fn update_fields_and_comments() {
    let c = cluster();
    let mut store = Store::new();
    let (id, _) = store
        .issue_open(&c, &new_issue("gu0001", "t1", None), "alice", 100)
        .unwrap();
    store
        .issue_open(&c, &new_issue("gu0001", "t2", None), "alice", 100)
        .unwrap();
    let upd = UpdateIssue {
        assigned_to: Some("bob".to_string()),
        description: Some("details".to_string()),
        enforce_down: None,
        to_offline: None,
        id,
        title: Some("t3".to_string()),
    };
    let res = store.issue_update(&c, &upd, "carol", 50).unwrap();
    assert!(res.release.is_empty());
    assert_eq!(store.issues[0].assigned_to.as_deref(), Some("bob"));
    assert_eq!(store.issues[0].title, "t3");
    assert_eq!(store.issues[0].updated_at, 101);
    let notes: Vec<&str> = store.comments[2..].iter().map(|c| c.comment.as_str()).collect();
    assert_eq!(
        notes,
        vec!["Updating assigned_to from  to bob", "Updating title from t1 to t3"]
    );
    // clearing the assignee
    let clear = UpdateIssue {
        assigned_to: Some(String::new()),
        description: None,
        enforce_down: None,
        to_offline: None,
        id,
        title: None,
    };
    store.issue_update(&c, &clear, "carol", 200).unwrap();
    assert_eq!(store.issues[0].assigned_to, None);
    assert_eq!(store.issues[0].updated_at, 200);
    // a title that another open ticket on the node has
    let clash = UpdateIssue {
        assigned_to: None,
        description: None,
        enforce_down: None,
        to_offline: None,
        id,
        title: Some("t2".to_string()),
    };
    assert!(matches!(
        store.issue_update(&c, &clash, "carol", 300),
        Err(StoreError::TitleTaken)
    ));
    let missing = UpdateIssue {
        assigned_to: None,
        description: None,
        enforce_down: None,
        to_offline: None,
        id: 9,
        title: None,
    };
    assert!(matches!(
        store.issue_update(&c, &missing, "carol", 300),
        Err(StoreError::NoSuchIssue)
    ));
}

#[test]
fn opening_ticket_not_promoted_until_next_pass() {
    let c = cluster();
    let mut store = Store::new();
    store.tick(&c, &reports(&[]), 1);
    store
        .issue_open(&c, &new_issue("gu0003", "x", Some(ToOffline::Node)), "alice", 2)
        .unwrap();
    assert_eq!(store.issues[0].status, IssueStatus::Opening);
    let out = store.tick(&c, &reports(&[(3, TargetStatus::Down)]), 3);
    assert_eq!(offline_targets(&out.actions), vec!["gu0003"]);
    // a drained node gets no Offline event, only the call
    assert!(out.events.is_empty());
    assert_eq!(status_of(&store, "gu0003"), TargetStatus::Offline);
    assert_eq!(store.issues[0].status, IssueStatus::Open);
}

#[test]
fn reports_of_unknown_names_are_not_registered() {
    let c = cluster();
    let mut store = Store::new();
    let rep = vec![
        NodeReport { name: "login01".to_string(), status: TargetStatus::Down, comment: String::new() },
        NodeReport { name: "gu0004".to_string(), status: TargetStatus::Online, comment: String::new() },
    ];
    let out = store.tick(&c, &rep, 1);
    assert_eq!(store.targets.len(), 1);
    assert_eq!(store.targets[0].name, "gu0004");
    assert!(store.issues.is_empty());
    assert!(out.actions.is_empty());
    let nodes = store.get_ctt_nodes();
    assert_eq!(nodes, vec![("gu0004".to_string(), TargetStatus::Online)]);
}

#[test]
fn well_formed_check() {
    let c = cluster();
    let mut store = Store::new();
    assert!(store.check_wf());
    store.issue_open(&c, &new_issue("gu0001", "a", None), "alice", 1).unwrap();
    store.issue_open(&c, &new_issue("gu0001", "b", None), "alice", 1).unwrap();
    assert!(store.check_wf());
    // two open tickets with one title on one node
    store.issues[1].title = "a".to_string();
    assert!(!store.check_wf());
    store.issues[1].title = "b".to_string();
    store.issues[1].id = 5;
    assert!(!store.check_wf());
}
