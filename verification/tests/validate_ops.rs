use flowlog_profiler::addr::Addr;
use flowlog_profiler::errors::ReportError;
use flowlog_profiler::ops::{OpsSpec, RawNode, RawPlanNode, RawRule};

fn node(id: u32, name: &str, parents: Vec<u32>) -> RawNode {
    RawNode {
        id,
        name: name.to_string(),
        block: None,
        fingerprint: None,
        tags: vec![],
        operators: vec![],
        parents,
    }
}

fn node_fp(id: u32, name: &str, block: &str, fp: &str) -> RawNode {
    RawNode {
        id,
        name: name.to_string(),
        block: Some(block.to_string()),
        fingerprint: Some(fp.to_string()),
        tags: vec![],
        operators: vec![],
        parents: vec![],
    }
}

#[test]
fn valid_small_topology() {
    let spec = OpsSpec {
        nodes: vec![node(0, "a", vec![]), node(1, "b", vec![0]), node(2, "c", vec![0, 1])],
        rules: vec![],
    };
    let v = spec.validate_and_build().unwrap();
    assert_eq!(v.nodes.len(), 3);
    assert_eq!(v.roots, vec![0]);
    assert_eq!(v.nodes[2].parents, vec![0, 1]);
}

#[test]
fn parents_sorted_and_deduplicated() {
    let spec = OpsSpec {
        nodes: vec![node(0, "a", vec![]), node(1, "b", vec![]), node(2, "c", vec![1, 0, 1, 0])],
        rules: vec![],
    };
    let v = spec.validate_and_build().unwrap();
    assert_eq!(v.nodes[2].parents, vec![0, 1]);
}

#[test]
fn operators_sorted_and_deduplicated() {
    let mut n = node(0, "a", vec![]);
    n.operators = vec![
        Addr::new(vec![0, 2]),
        Addr::new(vec![0, 1]),
        Addr::new(vec![0, 2]),
        Addr::new(vec![0]),
    ];
    let spec = OpsSpec { nodes: vec![n], rules: vec![] };
    let v = spec.validate_and_build().unwrap();
    let got: Vec<Vec<u32>> = v.nodes[0].operators.iter().map(|a| a.0.clone()).collect();
    assert_eq!(got, vec![vec![0], vec![0, 1], vec![0, 2]]);
}

#[test]
fn duplicate_id_rejected() {
    let spec = OpsSpec { nodes: vec![node(5, "a", vec![]), node(5, "b", vec![])], rules: vec![] };
    let e = spec.validate_and_build().unwrap_err();
    assert_eq!(e, ReportError::DuplicateNodeId { id: 5 });
    assert!(e.message().contains("5"));
}

#[test]
fn empty_topology_rejected() {
    let spec = OpsSpec { nodes: vec![], rules: vec![] };
    assert_eq!(spec.validate_and_build().unwrap_err(), ReportError::NoNodes);
}

#[test]
fn missing_parent_rejected() {
    let spec = OpsSpec { nodes: vec![node(0, "a", vec![7])], rules: vec![] };
    // a single node pointing at a missing id has no roots either; the root
    // check fires first
    let e = spec.validate_and_build().unwrap_err();
    assert_eq!(e, ReportError::EmptyRoots);
    let spec2 = OpsSpec { nodes: vec![node(0, "a", vec![]), node(1, "b", vec![7])], rules: vec![] };
    let e2 = spec2.validate_and_build().unwrap_err();
    assert_eq!(e2, ReportError::MissingParent { node: 1, parent: 7 });
    assert!(e2.message().contains("7"));
}

#[test]
fn cycle_rejected_naming_both_nodes() {
    // node 1 -> 2 -> 1, with node 0 as an unrelated root
    let spec = OpsSpec {
        nodes: vec![node(0, "r", vec![]), node(1, "a", vec![2]), node(2, "b", vec![1])],
        rules: vec![],
    };
    let e = spec.validate_and_build().unwrap_err();
    match &e {
        ReportError::Cycle { path } => {
            assert!(path.iter().any(|p| p == "1"));
            assert!(path.iter().any(|p| p == "2"));
        },
        other => panic!("expected a cycle error, got {:?}", other),
    }
    assert!(e.message().contains("cycle"));
}

#[test]
fn fingerprint_collision_names_both_ids() {
    let spec = OpsSpec {
        nodes: vec![node_fp(3, "a", "blk", "fp1"), node_fp(4, "b", "blk", "fp1")],
        rules: vec![],
    };
    let e = spec.validate_and_build().unwrap_err();
    assert_eq!(
        e,
        ReportError::FingerprintCollision {
            fingerprint: "fp1".to_string(),
            block: "blk".to_string(),
            first_node: 3,
            second_node: 4,
        }
    );
    let msg = e.message();
    assert!(msg.contains("3") && msg.contains("4") && msg.contains("fp1"));
}

#[test]
fn same_fingerprint_in_different_blocks_allowed() {
    let spec = OpsSpec {
        nodes: vec![node_fp(0, "a", "blk1", "fp1"), node_fp(1, "b", "blk2", "fp1")],
        rules: vec![
            RawRule {
                text: "r".to_string(),
                plan_tree: vec![RawPlanNode { fingerprint: "fp1".to_string(), parents: vec![] }],
            },
        ],
    };
    assert!(spec.validate_and_build().is_ok());
}

#[test]
fn fingerprint_trimmed_and_empty_dropped() {
    let spec = OpsSpec {
        nodes: vec![node_fp(0, "a", "blk", "  fp9  "), node_fp(1, "b", "blk", "   ")],
        rules: vec![
            RawRule {
                text: "r".to_string(),
                plan_tree: vec![RawPlanNode { fingerprint: "fp9".to_string(), parents: vec![] }],
            },
        ],
    };
    let v = spec.validate_and_build().unwrap();
    assert_eq!(v.nodes[0].fingerprint.as_deref(), Some("fp9"));
    assert_eq!(v.nodes[1].fingerprint, None);
    assert_eq!(v.fingerprint_to_node.len(), 1);
    assert_eq!(v.fingerprint_to_node[0].fingerprint, "fp9");
    assert_eq!(v.fingerprint_to_node[0].node, 0);
}

#[test]
fn rule_with_two_sinks_rejected() {
    let spec = OpsSpec {
        nodes: vec![node_fp(0, "a", "b1", "f1"), node_fp(1, "b", "b2", "f2")],
        rules: vec![
            RawRule {
                text: "myrule".to_string(),
                plan_tree: vec![
                    RawPlanNode { fingerprint: "f1".to_string(), parents: vec![] },
                    RawPlanNode { fingerprint: "f2".to_string(), parents: vec![] },
                ],
            },
        ],
    };
    let e = spec.validate_and_build().unwrap_err();
    assert_eq!(e, ReportError::RuleSinkCount { rule: "myrule".to_string(), found: 2 });
    let msg = e.message();
    assert!(msg.contains("exactly one sink"));
    assert!(msg.contains("found 2"));
}

#[test]
fn rule_tree_built_with_children_and_root() {
    // f2 lists f1 as parent, so f1's derived child is f2 and the only
    // entry without children (the sink) is f2
    let spec = OpsSpec {
        nodes: vec![node_fp(0, "a", "b1", "f1"), node_fp(1, "b", "b2", "f2")],
        rules: vec![
            RawRule {
                text: "r".to_string(),
                plan_tree: vec![
                    RawPlanNode { fingerprint: "f1".to_string(), parents: vec![] },
                    RawPlanNode { fingerprint: "f2".to_string(), parents: vec!["f1".to_string()] },
                ],
            },
        ],
    };
    let v = spec.validate_and_build().unwrap();
    assert_eq!(v.rules.len(), 1);
    assert_eq!(v.rules[0].root, "f2");
    assert_eq!(v.rules[0].nodes[0].fingerprint, "f1");
    assert_eq!(v.rules[0].nodes[0].plan.children, vec!["f2".to_string()]);
    assert_eq!(v.rules[0].nodes[1].plan.children, Vec::<String>::new());
}

#[test]
fn rule_unknown_fingerprint_rejected() {
    let spec = OpsSpec {
        nodes: vec![node(0, "a", vec![])],
        rules: vec![
            RawRule {
                text: "r".to_string(),
                plan_tree: vec![RawPlanNode { fingerprint: "zz".to_string(), parents: vec![] }],
            },
        ],
    };
    let e = spec.validate_and_build().unwrap_err();
    assert_eq!(
        e,
        ReportError::RuleUnknownFingerprint { rule: "r".to_string(), fingerprint: "zz".to_string() }
    );
}

#[test]
fn rule_duplicate_fingerprint_rejected() {
    let spec = OpsSpec {
        nodes: vec![node_fp(0, "a", "b1", "f1")],
        rules: vec![
            RawRule {
                text: "r".to_string(),
                plan_tree: vec![
                    RawPlanNode { fingerprint: "f1".to_string(), parents: vec![] },
                    RawPlanNode { fingerprint: " f1 ".to_string(), parents: vec![] },
                ],
            },
        ],
    };
    let e = spec.validate_and_build().unwrap_err();
    assert_eq!(
        e,
        ReportError::RuleDuplicateFingerprint {
            rule: "r".to_string(),
            fingerprint: "f1".to_string(),
        }
    );
}

#[test]
fn rule_parent_outside_tree_rejected() {
    let spec = OpsSpec {
        nodes: vec![node_fp(0, "a", "b1", "f1")],
        rules: vec![
            RawRule {
                text: "r".to_string(),
                plan_tree: vec![
                    RawPlanNode { fingerprint: "f1".to_string(), parents: vec!["gone".to_string()] },
                ],
            },
        ],
    };
    let e = spec.validate_and_build().unwrap_err();
    assert_eq!(
        e,
        ReportError::RulePlanParentMissing { rule: "r".to_string(), parent: "gone".to_string() }
    );
}

#[test]
fn fingerprinted_node_must_be_in_some_rule() {
    let spec = OpsSpec { nodes: vec![node_fp(0, "a", "b1", "f1")], rules: vec![] };
    let e = spec.validate_and_build().unwrap_err();
    assert_eq!(
        e,
        ReportError::FingerprintNotInRules { node: 0, fingerprint: "f1".to_string() }
    );
}

#[test]
fn block_defaults_to_other() {
    let spec = OpsSpec { nodes: vec![node(0, "a", vec![])], rules: vec![] };
    let v = spec.validate_and_build().unwrap();
    assert_eq!(v.nodes[0].block, "other");
}
