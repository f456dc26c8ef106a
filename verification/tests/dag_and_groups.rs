use flowlog_profiler::dag::{DagSpec, NameNodeSpec};
use flowlog_profiler::errors::ReportError;
use flowlog_profiler::groups::{NameGroupSpec, OperatorRefSpec, OpsSpec};

fn dag(names: Vec<&str>, edges: Vec<(&str, &str)>, roots: Vec<&str>) -> DagSpec {
    DagSpec {
        nodes: names
            .into_iter()
            .map(|n| NameNodeSpec { name: n.to_string(), label: None })
            .collect(),
        edges: edges
            .into_iter()
            .map(|(a, b)| (a.to_string(), b.to_string()))
            .collect(),
        roots: roots.into_iter().map(|r| r.to_string()).collect(),
    }
}

#[test]
fn dag_valid_with_inferred_roots() {
    let d = dag(vec!["a", "b", "c"], vec![("a", "b"), ("b", "c")], vec![]).validate_and_build()
        .unwrap();
    assert_eq!(d.nodes.len(), 3);
    assert_eq!(d.roots, vec!["a".to_string()]);
    // children of a (index 0) is b (index 1)
    assert_eq!(d.children[0], vec![1]);
    assert_eq!(d.parents[1], vec![0]);
}

#[test]
fn dag_label_defaults_to_name() {
    let spec = DagSpec {
        nodes: vec![
            NameNodeSpec { name: "x".to_string(), label: Some("The X".to_string()) },
            NameNodeSpec { name: "y".to_string(), label: None },
        ],
        edges: vec![],
        roots: vec![],
    };
    let d = spec.validate_and_build().unwrap();
    assert_eq!(d.nodes[0].label, "The X");
    assert_eq!(d.nodes[1].label, "y");
}

#[test]
fn dag_duplicate_name_rejected() {
    let e = dag(vec!["a", "a"], vec![], vec![]).validate_and_build().unwrap_err();
    assert_eq!(e, ReportError::DuplicateNodeName { name: "a".to_string() });
}

#[test]
fn dag_unknown_edge_endpoint_rejected() {
    let e = dag(vec!["a"], vec![("a", "zz")], vec![]).validate_and_build().unwrap_err();
    assert_eq!(e, ReportError::EdgeUnknownNode { name: "zz".to_string() });
}

#[test]
fn dag_unknown_declared_root_rejected() {
    let e = dag(vec!["a"], vec![], vec!["zz"]).validate_and_build().unwrap_err();
    assert_eq!(e, ReportError::UnknownRoot { name: "zz".to_string() });
}

#[test]
fn dag_cycle_rejected_naming_both_nodes() {
    let e = dag(vec!["r", "a", "b"], vec![("r", "a"), ("a", "b"), ("b", "a")], vec![])
        .validate_and_build()
        .unwrap_err();
    match &e {
        ReportError::Cycle { path } => {
            assert!(path.iter().any(|p| p == "a"));
            assert!(path.iter().any(|p| p == "b"));
        },
        other => panic!("expected a cycle error, got {:?}", other),
    }
}

#[test]
fn dag_all_nodes_with_parents_rejected() {
    let e = dag(vec!["a", "b"], vec![("a", "b"), ("b", "a")], vec![]).validate_and_build()
        .unwrap_err();
    assert_eq!(e, ReportError::EmptyRoots);
    assert!(e.message().contains("cycle"));
}

#[test]
fn dag_declared_roots_are_unioned_with_inferred() {
    let d = dag(vec!["a", "b"], vec![("a", "b")], vec!["b"]).validate_and_build().unwrap();
    assert_eq!(d.roots, vec!["a".to_string(), "b".to_string()]);
}

#[test]
fn groups_resolve_and_merge() {
    let d = dag(vec!["a", "b"], vec![("a", "b")], vec![]).validate_and_build().unwrap();
    let g = OpsSpec {
        groups: vec![
            NameGroupSpec {
                name: "a".to_string(),
                operators: vec![
                    OperatorRefSpec::Explicit { addr: vec![0, 2] },
                    OperatorRefSpec::Explicit { addr: vec![0, 1] },
                ],
            },
            NameGroupSpec {
                name: "a".to_string(),
                operators: vec![OperatorRefSpec::Explicit { addr: vec![0, 2] }],
            },
            NameGroupSpec { name: "b".to_string(), operators: vec![] },
        ],
    };
    let out = g.validate_and_build(&d).unwrap();
    assert_eq!(out.len(), 2);
    assert_eq!(out[0].name, "a");
    let addrs: Vec<Vec<u32>> = out[0].operators.iter().map(|a| a.0.clone()).collect();
    assert_eq!(addrs, vec![vec![0, 1], vec![0, 2]]);
    assert_eq!(out[1].name, "b");
    assert!(out[1].operators.is_empty());
}

#[test]
fn groups_unknown_name_rejected() {
    let d = dag(vec!["a"], vec![], vec![]).validate_and_build().unwrap();
    let g = OpsSpec {
        groups: vec![NameGroupSpec { name: "nope".to_string(), operators: vec![] }],
    };
    let e = g.validate_and_build(&d).unwrap_err();
    assert_eq!(e, ReportError::UnknownGroupName { name: "nope".to_string() });
}
