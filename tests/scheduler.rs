use ctt::auth::{GuardError, Role, RoleChecker, RoleGuard};
use ctt::changelog::Digest;
use ctt::model::{ChangeLogMsg, TargetStatus};
use ctt::reconcile::{handle_transition, Step};
use ctt::scheduler::{classify_state, on_status_error, StatusFailure};

#[test]
fn classification_table() {
    assert_eq!(classify_state("down,offline", true), TargetStatus::Draining);
    assert_eq!(classify_state("offline", false), TargetStatus::Offline);
    assert_eq!(classify_state("down", true), TargetStatus::Draining);
    assert_eq!(classify_state("down", false), TargetStatus::Down);
    assert_eq!(classify_state("job-exclusive", true), TargetStatus::Online);
    assert_eq!(classify_state("resv-exclusive", false), TargetStatus::Online);
    assert_eq!(classify_state("job-busy", true), TargetStatus::Online);
    assert_eq!(classify_state("free", false), TargetStatus::Online);
    assert_eq!(classify_state("free ", false), TargetStatus::Down);
    assert_eq!(classify_state("provisioning", true), TargetStatus::Down);
    assert_eq!(classify_state("", false), TargetStatus::Down);
}

#[test]
fn status_names() {
    assert_eq!(TargetStatus::from_str("Online"), Some(TargetStatus::Online));
    assert_eq!(TargetStatus::from_str("Draining"), Some(TargetStatus::Draining));
    assert_eq!(TargetStatus::from_str("Offline"), Some(TargetStatus::Offline));
    assert_eq!(TargetStatus::from_str("Down"), Some(TargetStatus::Down));
    assert_eq!(TargetStatus::from_str("down"), None);
}

#[test]
fn expired_credential_is_retried_once() {
    assert_eq!(
        on_status_error("pbs: Expired credential (15019)", false),
        StatusFailure::RetryWithNewHandle
    );
    assert_eq!(
        on_status_error("pbs: Expired credential (15019)", true),
        StatusFailure::SkipTick
    );
    assert_eq!(on_status_error("connection refused", false), StatusFailure::SkipTick);
}

#[test]
fn transition_table() {
    assert_eq!(handle_transition(TargetStatus::Online, TargetStatus::Online, false), (Step::Keep, TargetStatus::Online));
    assert_eq!(handle_transition(TargetStatus::Online, TargetStatus::Offline, true), (Step::Release, TargetStatus::Online));
    assert_eq!(handle_transition(TargetStatus::Online, TargetStatus::Down, false), (Step::OpenTicket, TargetStatus::Down));
    assert_eq!(handle_transition(TargetStatus::Offline, TargetStatus::Draining, false), (Step::Keep, TargetStatus::Draining));
    assert_eq!(handle_transition(TargetStatus::Offline, TargetStatus::Offline, false), (Step::Keep, TargetStatus::Offline));
    assert_eq!(handle_transition(TargetStatus::Offline, TargetStatus::Down, false), (Step::Offline, TargetStatus::Offline));
    assert_eq!(handle_transition(TargetStatus::Offline, TargetStatus::Online, false), (Step::Offline, TargetStatus::Draining));
    assert_eq!(handle_transition(TargetStatus::Down, TargetStatus::Draining, false), (Step::Keep, TargetStatus::Draining));
    assert_eq!(handle_transition(TargetStatus::Down, TargetStatus::Offline, false), (Step::Keep, TargetStatus::Offline));
    assert_eq!(handle_transition(TargetStatus::Down, TargetStatus::Online, false), (Step::CloseIssues, TargetStatus::Online));
}

#[test]
fn digest_sections_and_reset() {
    let mut d = Digest::new();
    assert_eq!(d.flush(), None);
    d.record(ChangeLogMsg::Open { issue: 3, title: "a".to_string(), operator: "alice".to_string() });
    d.record(ChangeLogMsg::Open { issue: 4, title: "b".to_string(), operator: "ctt".to_string() });
    d.record(ChangeLogMsg::Close {
        issue: 5,
        title: "c".to_string(),
        comment: "fixed".to_string(),
        operator: "bob".to_string(),
    });
    d.record(ChangeLogMsg::Update { issue: 3, title: "a".to_string(), operator: "alice".to_string() });
    d.record(ChangeLogMsg::Offline { target: "gu0001".to_string(), operator: "ctt".to_string() });
    d.record(ChangeLogMsg::Offline { target: "gu0001".to_string(), operator: "ctt".to_string() });
    d.record(ChangeLogMsg::Resume { target: "gu0002".to_string(), operator: "ctt".to_string() });
    let text = d.flush().unwrap();
    assert_eq!(
        text,
        "{\"alice\", \"bob\", \"ctt\"}\nOpened: {3}\nUpdated: {\"a\": {3}}\nClosed: {\"c\": {5}}\nOfflined: {\"gu0001\"}\nResumed: {\"gu0002\"}"
    );
    assert_eq!(d.flush(), None);
}

#[test]
fn bot_housekeeping_alone_is_not_told() {
    let mut d = Digest::new();
    d.record(ChangeLogMsg::Close {
        issue: 1,
        title: "x".to_string(),
        comment: String::new(),
        operator: "ctt".to_string(),
    });
    assert_eq!(d.flush(), None);
    d.record(ChangeLogMsg::Resume { target: "gu0002".to_string(), operator: "ctt".to_string() });
    assert_eq!(d.flush().unwrap(), "{\"ctt\"}\nResumed: {\"gu0002\"}");
}

#[test]
fn role_checks() {
    let admin = RoleChecker::new(Role::Admin);
    let g = RoleGuard::new(Role::Guest, "bob".to_string(), 100);
    assert_eq!(g.exp, 100);
    assert_eq!(admin.check(None), Err(GuardError::NoRole));
    assert_eq!(admin.check(Some(&g)), Err(GuardError::InsufficientPermission));
    let a = RoleGuard::new(Role::Admin, "alice".to_string(), -5);
    assert_eq!(a.exp, 0);
    assert_eq!(admin.check(Some(&a)), Ok(()));
}

#[test]
fn digest_sets_are_sorted() {
    let mut d = Digest::new();
    d.record(ChangeLogMsg::Offline { target: "gu0003".to_string(), operator: "zed".to_string() });
    d.record(ChangeLogMsg::Offline { target: "gu0001".to_string(), operator: "amy".to_string() });
    d.record(ChangeLogMsg::Update { issue: 9, title: "b".to_string(), operator: "amy".to_string() });
    d.record(ChangeLogMsg::Update { issue: 2, title: "b".to_string(), operator: "amy".to_string() });
    d.record(ChangeLogMsg::Update { issue: 4, title: "a".to_string(), operator: "amy".to_string() });
    d.record(ChangeLogMsg::Open { issue: -3, title: "x".to_string(), operator: "amy".to_string() });
    assert_eq!(
        d.flush().unwrap(),
        "{\"amy\", \"zed\"}\nOpened: {-3}\nUpdated: {\"a\": {4}, \"b\": {2, 9}}\nOfflined: {\"gu0001\", \"gu0003\"}"
    );
}
