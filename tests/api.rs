use ctt::api::{ApiError, Mutation, Query};
use ctt::auth::{GuardError, Role, RoleGuard};
use ctt::conf::{Auth, Scheduler};
use ctt::expected::{node_group, to_offline};
use ctt::model::{IssueStatus, NewIssue, TargetStatus, ToOffline, UpdateIssue};
use ctt::reconcile::NodeReport;
use ctt::store::Store;
use ctt::topology::{NodeType, RegexCluster};

fn cluster() -> RegexCluster {
    RegexCluster::new(
        vec![NodeType {
            prefix: "gu".to_string(),
            digits: Some(4),
            board: Some(2),
            first_num: Some(1),
            last_num: Some(18),
            slot: Some(4),
        }],
        Scheduler::Pbs,
    )
}

fn ticket(target: &str, title: &str) -> NewIssue {
    NewIssue {
        assigned_to: None,
        description: String::new(),
        to_offline: None,
        target: target.to_string(),
        title: title.to_string(),
    }
}

#[test]
fn changes_need_admin() {
    let c = cluster();
    let mut store = Store::new();
    let guest = RoleGuard::new(Role::Guest, "gina".to_string(), 0);
    let admin = RoleGuard::new(Role::Admin, "alice".to_string(), 0);
    let r = Mutation.open(&mut store, &c, Some(&guest), &ticket("gu0001", "t"), 1);
    assert!(matches!(r, Err(ApiError::Guard(GuardError::InsufficientPermission))));
    let r = Mutation.open(&mut store, &c, None, &ticket("gu0001", "t"), 1);
    assert!(matches!(r, Err(ApiError::Guard(GuardError::NoRole))));
    assert!(store.issues.is_empty());
    let (id, _) = Mutation.open(&mut store, &c, Some(&admin), &ticket("gu0001", "t"), 1).unwrap();
    assert_eq!(store.issues[0].created_by, "alice");
    assert!(matches!(
        Mutation.close(&mut store, Some(&guest), id, "x", 2),
        Err(ApiError::Guard(GuardError::InsufficientPermission))
    ));
    assert!(Mutation.close(&mut store, Some(&admin), id, "x", 2).unwrap().is_some());
    assert_eq!(store.issues[0].status, IssueStatus::Closing);
    let upd = UpdateIssue {
        assigned_to: None,
        description: None,
        enforce_down: None,
        to_offline: None,
        id: 42,
        title: None,
    };
    assert!(matches!(
        Mutation.update_issue(&mut store, &c, Some(&admin), &upd, 3),
        Err(ApiError::Store(_))
    ));
    let r = Mutation.open(&mut store, &c, Some(&admin), &ticket("gu0019", "t"), 4);
    assert!(matches!(r, Err(ApiError::Store(_))));
}

#[test]
fn listing_filters() {
    let c = cluster();
    let mut store = Store::new();
    store.issue_open(&c, &ticket("gu0001", "a"), "alice", 1).unwrap();
    store.issue_open(&c, &ticket("gu0002", "b"), "alice", 1).unwrap();
    store.issue_open(&c, &ticket("gu0001", "c"), "alice", 1).unwrap();
    store.issue_close(2, "alice", "done", 2).unwrap();
    store.tick(&c, &Vec::new(), 3);
    let guest = RoleGuard::new(Role::Guest, "gina".to_string(), 0);
    // by default: all but closed, here the two on gu0001 and the not-found tickets
    let all = Query.issues(&store, Some(&guest), None, None).unwrap();
    assert!(all.iter().all(|&j| store.issues[j].status != IssueStatus::Closed));
    let on_one = Query.issues(&store, Some(&guest), None, Some("gu0001".to_string())).unwrap();
    let titles: Vec<&str> = on_one.iter().map(|&j| store.issues[j].title.as_str()).collect();
    assert_eq!(titles, vec!["a", "c", "Node not found in pbs"]);
    let closed = Query.issues(&store, Some(&guest), Some(IssueStatus::Closed), None).unwrap();
    assert_eq!(closed, vec![1]);
    assert!(Query.issues(&store, None, None, None).is_err());
    assert_eq!(Query.issue(&store, Some(&guest), 2).unwrap(), Some(1));
    assert_eq!(Query.issue(&store, Some(&guest), 99).unwrap(), None);
}

#[test]
fn role_from_groups() {
    let auth = Auth {
        admin: vec!["wheel".to_string()],
        guest: vec!["users".to_string(), "staff".to_string()],
    };
    let g = |v: &[&str]| v.iter().map(|s| s.to_string()).collect::<Vec<String>>();
    assert_eq!(auth.check_role(true, &g(&["staff", "wheel"])), Some(Role::Admin));
    assert_eq!(auth.check_role(true, &g(&["staff"])), Some(Role::Guest));
    assert_eq!(auth.check_role(true, &g(&["audio"])), None);
    assert_eq!(auth.check_role(false, &g(&["wheel"])), None);
}

#[test]
fn groups_and_nodes_to_take_out() {
    let c = cluster();
    assert_eq!(node_group("gu0005", Some(ToOffline::Card), &c), vec!["gu0005", "gu0006"]);
    assert_eq!(
        node_group("gu0005", Some(ToOffline::Blade), &c),
        vec!["gu0005", "gu0006", "gu0007", "gu0008"]
    );
    assert!(node_group("gu0005", Some(ToOffline::Node), &c).is_empty());
    assert!(node_group("gu0005", None, &c).is_empty());
    let status: Vec<NodeReport> = (5..=8)
        .map(|i| NodeReport {
            name: format!("gu{:0>4}", i),
            status: if i == 7 { TargetStatus::Offline } else { TargetStatus::Online },
            comment: String::new(),
        })
        .collect();
    let mut v = to_offline("gu0005", &status, Some(ToOffline::Blade), &c);
    v.sort();
    assert_eq!(v, vec!["gu0006", "gu0008"]);
}

#[test]
fn expected_state_map() {
    let c = cluster();
    let mut store = Store::new();
    store.issue_open(&c, &ticket("gu0002", "record only"), "alice", 1).unwrap();
    let mut blade = ticket("gu0003", "psu");
    blade.to_offline = Some(ToOffline::Blade);
    store.issue_open(&c, &blade, "alice", 1).unwrap();
    store.issue_open(&c, &ticket("gu0009", "later closed"), "alice", 1).unwrap();
    store.issue_close(3, "alice", "ok", 2).unwrap();
    let m = store.get_expected_state(&c);
    let mut v: Vec<(String, TargetStatus)> = m.iter().map(|e| (e.name.clone(), e.status)).collect();
    v.sort_by(|a, b| a.0.cmp(&b.0));
    assert_eq!(
        v,
        vec![
            ("gu0001".to_string(), TargetStatus::Offline),
            ("gu0002".to_string(), TargetStatus::Offline),
            ("gu0003".to_string(), TargetStatus::Offline),
            ("gu0004".to_string(), TargetStatus::Offline),
        ]
    );
    assert_eq!(store.desired_state(&c, &"gu0009".to_string()), TargetStatus::Online);
    assert_eq!(store.desired_state(&c, &"gu0002".to_string()), TargetStatus::Offline);
}

#[test]
fn down_without_scope() {
    let c = cluster();
    let mut store = Store::new();
    store.issue_open(&c, &ticket("gu0010", "flaky"), "alice", 1).unwrap();
    let m = store.get_expected_state(&c);
    assert_eq!(m.len(), 1);
    assert_eq!(m[0].name, "gu0010");
    assert_eq!(m[0].status, TargetStatus::Down);
}

#[test]
fn closing_tickets_covering_a_node() {
    let c = cluster();
    let mut store = Store::new();
    let mut blade = ticket("gu0001", "psu");
    blade.to_offline = Some(ToOffline::Blade);
    store.issue_open(&c, &blade, "alice", 1).unwrap();
    store.issue_open(&c, &ticket("gu0003", "note"), "alice", 1).unwrap();
    store.issue_close(1, "alice", "ok", 2).unwrap();
    store.issue_close(2, "alice", "ok", 2).unwrap();
    assert_eq!(store.related_closing(&c, &"gu0003".to_string()), vec![0, 1]);
    assert_eq!(store.related_closing(&c, &"gu0004".to_string()), vec![0]);
    assert!(store.related_closing(&c, &"gu0009".to_string()).is_empty());
    assert!(store.related_closing(&c, &"gu00004".to_string()).is_empty());
    // closing moved the change time forward
    assert_eq!(store.issues[0].updated_at, 2);
}
