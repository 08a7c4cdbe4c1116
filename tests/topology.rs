use ctt::cluster::{Gust, Shasta};
use ctt::conf::Scheduler;
use ctt::topology::{admits_after_match, NodeType, RegexCluster};

fn gu_cluster(first_num: Option<u32>) -> RegexCluster {
    RegexCluster::new(
        vec![NodeType {
            prefix: "gu".to_string(),
            digits: Some(4),
            board: Some(2),
            first_num,
            last_num: Some(18),
            slot: Some(4),
        }],
        Scheduler::Pbs,
    )
}

#[test]
fn gust_siblings() {
    let expected = vec![
        vec!["gu0001", "gu0002"],
        vec!["gu0003", "gu0004"],
        vec!["gu0005", "gu0006"],
    ];
    for e in &expected {
        for s in e.iter() {
            let actual = Gust::siblings(s);
            println!("expected: {:?} actual: {:?}", &e, &actual);
            assert!(e.eq(&actual));
        }
    }
}

#[test]
fn gust_cousins() {
    let expected = vec![
        vec!["gu0001", "gu0002", "gu0003", "gu0004"],
        vec!["gu0005", "gu0006", "gu0007", "gu0008"],
    ];
    for e in &expected {
        for s in e.iter() {
            let actual = Gust::cousins(s);
            println!("expected: {:?} actual: {:?}", &e, &actual);
            assert!(e.eq(&actual));
        }
    }
}

#[test]
fn shasta_siblings() {
    let gust = Shasta::new("gu".to_string());
    let expected = vec![
        vec!["gu0001", "gu0002"],
        vec!["gu0003", "gu0004"],
        vec!["gu0005", "gu0006"],
    ];
    for e in &expected {
        for s in e.iter() {
            let actual = gust.siblings(s);
            println!("expected: {:?} actual: {:?}", &e, &actual);
            assert!(e.eq(&actual));
        }
    }
}

#[test]
fn shasta_cousins() {
    let gust = Shasta::new("gu".to_string());
    let expected = vec![
        vec!["gu0001", "gu0002", "gu0003", "gu0004"],
        vec!["gu0005", "gu0006", "gu0007", "gu0008"],
    ];
    for e in &expected {
        for s in e.iter() {
            let actual = gust.cousins(s);
            println!("expected: {:?} actual: {:?}", &e, &actual);
            assert!(e.eq(&actual));
        }
    }
}

#[test]
fn real_node() {
    let gust = Shasta::new("gu".to_string());
    let expected_true = vec!["gu0001", "gu0002", "gu0015", "gu0016", "gu0017", "gu0018"];
    let expected_false = vec!["gu1", "gu0000", "NotANode", "gu-001", "gu0019"];
    for n in &expected_true {
        let actual = gust.real_node(n);
        println!("for {} expected: true, actual: {}", n, actual);
        assert!(actual);
    }
    for n in &expected_false {
        let actual = gust.real_node(n);
        println!("for {} expected: false, actual: {}", n, actual);
        assert!(!actual);
    }
}

#[test]
fn regex_cluster_matches_layout() {
    let c = gu_cluster(None);
    assert_eq!(c.siblings("gu0005"), vec!["gu0005", "gu0006"]);
    assert_eq!(c.cousins("gu0010"), vec!["gu0009", "gu0010", "gu0011", "gu0012"]);
    assert!(c.real_node("gu0018"));
    assert!(!c.real_node("gu00017"));
    assert!(c.siblings("gu0019").is_empty());
    assert!(c.cousins("NotANode").is_empty());
}

#[test]
fn range_bounds_are_inclusive() {
    let c = gu_cluster(Some(3));
    assert!(!c.real_node("gu0002"));
    assert!(c.real_node("gu0003"));
    assert!(c.real_node("gu0018"));
    assert!(!c.real_node("gu0019"));
}

#[test]
fn prefix_is_literal_text() {
    let c = RegexCluster::new(
        vec![NodeType {
            prefix: "n.".to_string(),
            digits: None,
            board: Some(3),
            first_num: None,
            last_num: None,
            slot: None,
        }],
        Scheduler::Pbs,
    );
    assert!(c.real_node("n.7"));
    assert!(!c.real_node("nx7"));
    assert_eq!(c.siblings("n.5"), vec!["n.4", "n.5", "n.6"]);
    // no blade size: a blade is a card
    assert_eq!(c.cousins("n.5"), vec!["n.4", "n.5", "n.6"]);
    // numbers grow past the written width
    assert_eq!(c.siblings("n.10"), vec!["n.10", "n.11", "n.12"]);
}

#[test]
fn first_matching_type_wins() {
    let c = RegexCluster::new(
        vec![
            NodeType {
                prefix: "gu".to_string(),
                digits: Some(4),
                board: Some(2),
                first_num: None,
                last_num: Some(4),
                slot: Some(4),
            },
            NodeType {
                prefix: "gu".to_string(),
                digits: Some(4),
                board: None,
                first_num: None,
                last_num: None,
                slot: None,
            },
        ],
        Scheduler::Pbs,
    );
    assert_eq!(c.siblings("gu0003"), vec!["gu0003", "gu0004"]);
    assert_eq!(c.siblings("gu0007"), vec!["gu0007"]);
}

#[test]
fn number_too_large_is_not_a_node() {
    let c = RegexCluster::new(
        vec![NodeType {
            prefix: "x".to_string(),
            digits: None,
            board: None,
            first_num: None,
            last_num: None,
            slot: None,
        }],
        Scheduler::Pbs,
    );
    assert!(c.real_node("x4294967295"));
    assert!(!c.real_node("x4294967296"));
    assert!(!c.real_node("x"));
}

#[test]
fn range_and_spelling_after_a_match() {
    let nt = NodeType {
        prefix: "gu".to_string(),
        digits: Some(4),
        board: Some(2),
        first_num: Some(1),
        last_num: Some(18),
        slot: Some(4),
    };
    assert_eq!(admits_after_match(&nt, "gu0005", true), Some(5));
    assert_eq!(admits_after_match(&nt, "gu0005", false), None);
    assert_eq!(admits_after_match(&nt, "gu0019", true), None);
    assert_eq!(admits_after_match(&nt, "gu0000", true), None);
    assert_eq!(admits_after_match(&nt, "gu005", true), None);
    assert_eq!(admits_after_match(&nt, "xx0005", true), None);
}
