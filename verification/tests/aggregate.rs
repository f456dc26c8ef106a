use flowlog_profiler::addr::Addr;
use flowlog_profiler::errors::ReportError;
use flowlog_profiler::logs::{MemoryEntry, MemoryIndex, MemoryRow, TimeEntry, TimeIndex, TimeRow};
use flowlog_profiler::view::{build_report_data, FpNameEntry, NamedNode};
use flowlog_profiler::ops::{RulePlanEntry, RulePlanNodeSpec, RuleSpec};

fn named(name: &str, parents: Vec<&str>, operators: Vec<Vec<u32>>) -> NamedNode {
    NamedNode {
        name: name.to_string(),
        label: name.to_string(),
        block: "other".to_string(),
        fingerprint: None,
        tags: vec![],
        parents: parents.into_iter().map(|p| p.to_string()).collect(),
        operators: operators.into_iter().map(Addr::new).collect(),
    }
}

fn time_row(addr: Vec<u32>, activations: u64, us: u64, op: &str) -> TimeEntry {
    TimeEntry {
        addr: Addr::new(addr),
        row: TimeRow { activations, total_active_us: us, op_name: op.to_string() },
    }
}

fn mem_row(addr: Vec<u32>, batched: u64, op: &str) -> MemoryEntry {
    MemoryEntry {
        addr: Addr::new(addr),
        row: MemoryRow {
            batched_in: batched,
            merges: 1,
            merge_in: 2,
            merge_out: 3,
            dropped: 4,
            op_name: op.to_string(),
        },
    }
}

#[test]
fn address_owned_twice_is_fatal() {
    // both nodes list address [0, 1]
    let nodes = vec![named("x", vec![], vec![vec![0, 1]]), named("y", vec![], vec![vec![0, 1]])];
    let time = TimeIndex::new();
    let memory = MemoryIndex::new();
    let e = build_report_data(&nodes, &vec![], &vec![], &vec![], &time, &memory).unwrap_err();
    match &e {
        ReportError::AddrOwnedTwice { addr, first_owner, second_owner } => {
            assert_eq!(addr.0, vec![0, 1]);
            assert_eq!(first_owner, "x");
            assert_eq!(second_owner, "y");
        },
        other => panic!("expected an ownership error, got {:?}", other),
    }
    let msg = e.message();
    assert!(msg.contains("x") && msg.contains("y") && msg.contains("[0, 1]"));
}

#[test]
fn cross_source_name_mismatch_is_fatal() {
    let nodes = vec![named("n", vec![], vec![vec![0, 8, 10]])];
    let time = TimeIndex::from_rows(vec![time_row(vec![0, 8, 10], 1, 5, "Foo")]).unwrap();
    let memory = MemoryIndex::from_rows(vec![mem_row(vec![0, 8, 10], 9, "Bar")]).unwrap();
    let e = build_report_data(&nodes, &vec![], &vec![], &vec![], &time, &memory).unwrap_err();
    match &e {
        ReportError::OpNameMismatch { addr, time_name, memory_name } => {
            assert_eq!(addr.0, vec![0, 8, 10]);
            assert_eq!(time_name, "Foo");
            assert_eq!(memory_name, "Bar");
        },
        other => panic!("expected a mismatch error, got {:?}", other),
    }
    assert!(e.message().contains("Foo") && e.message().contains("Bar"));
}

#[test]
fn aggregation_sums_activations_and_time() {
    // addresses [0] and [1] with 10.0 ms and 5.0 ms active time
    let nodes = vec![named("n", vec![], vec![vec![0], vec![1]])];
    let time = TimeIndex::from_rows(vec![
        time_row(vec![0], 3, 10_000, "A"),
        time_row(vec![1], 4, 5_000, "B"),
    ])
    .unwrap();
    let memory = MemoryIndex::new();
    let rd = build_report_data(&nodes, &vec![], &vec![], &vec![], &time, &memory).unwrap();
    assert_eq!(rd.nodes.len(), 1);
    assert_eq!(rd.nodes[0].self_total_active_us, 15_000);
    assert_eq!(rd.nodes[0].self_activations, 7);
    assert_eq!(rd.totals.total_mapped_us, 15_000);
    assert_eq!(rd.totals.total_mapped_activations, 7);
    assert_eq!(rd.totals.operators_mapped, 2);
    assert_eq!(rd.totals.operators_in_time, 2);
    assert_eq!(rd.totals.names, 1);
    assert!(!rd.nodes[0].has_memory_data);
    assert!(rd.warnings.is_empty());
}

#[test]
fn missing_address_warns_but_report_is_produced() {
    let nodes = vec![named("n", vec![], vec![vec![0], vec![9, 9]])];
    let time = TimeIndex::from_rows(vec![time_row(vec![0], 2, 1_000, "A")]).unwrap();
    let memory = MemoryIndex::new();
    let rd = build_report_data(&nodes, &vec![], &vec![], &vec![], &time, &memory).unwrap();
    // one warning for the address missing from the time source
    assert_eq!(rd.warnings.len(), 1);
    assert_eq!(rd.warnings[0].name, "n");
    assert_eq!(rd.warnings[0].addr.0, vec![9, 9]);
    assert!(rd.warnings[0].message().contains("not found in time log"));
    // the missing operator contributes zero but is still listed
    assert_eq!(rd.nodes[0].operators.len(), 2);
    let missing = &rd.nodes[0].operators[1];
    assert_eq!(missing.addr, vec![9, 9]);
    assert_eq!(missing.activations, 0);
    assert_eq!(missing.total_active_us, 0);
    assert_eq!(missing.op_name, "");
    assert_eq!(rd.nodes[0].self_total_active_us, 1_000);
}

#[test]
fn memory_only_operator_is_listed_with_memory_fields() {
    let nodes = vec![named("n", vec![], vec![vec![2]])];
    let time = TimeIndex::new();
    let memory = MemoryIndex::from_rows(vec![mem_row(vec![2], 42, "M")]).unwrap();
    let rd = build_report_data(&nodes, &vec![], &vec![], &vec![], &time, &memory).unwrap();
    let op = &rd.nodes[0].operators[0];
    assert_eq!(op.batched_in, Some(42));
    assert_eq!(op.merges, Some(1));
    assert_eq!(op.dropped, Some(4));
    assert!(rd.nodes[0].has_memory_data);
    assert_eq!(rd.nodes[0].self_batched_in, 42);
    assert_eq!(rd.totals.total_batched_in, 42);
    // the address was absent from the time source: a warning, zero time
    assert_eq!(rd.warnings.len(), 1);
    assert_eq!(op.activations, 0);
}

#[test]
fn spanning_tree_primary_parent_and_children() {
    let nodes = vec![
        named("a", vec![], vec![]),
        named("b", vec!["a"], vec![]),
        named("c", vec!["b", "a"], vec![]),
    ];
    let time = TimeIndex::new();
    let memory = MemoryIndex::new();
    let rd = build_report_data(&nodes, &vec![], &vec![], &vec![], &time, &memory).unwrap();
    // c's parents sort to [a, b]: primary parent a, extra parent b
    assert_eq!(rd.nodes[2].dag_parents, vec!["a".to_string(), "b".to_string()]);
    assert_eq!(rd.nodes[2].extra_parents, vec!["b".to_string()]);
    // a's primary children are b and c
    assert_eq!(rd.nodes[0].children, vec!["b".to_string(), "c".to_string()]);
    assert_eq!(rd.nodes[1].children, Vec::<String>::new());
    // roots: only a has no parents
    assert_eq!(rd.roots, vec!["a".to_string()]);
}

#[test]
fn declared_roots_are_unioned() {
    let nodes = vec![named("a", vec![], vec![]), named("b", vec!["a"], vec![])];
    let time = TimeIndex::new();
    let memory = MemoryIndex::new();
    let declared = vec!["b".to_string()];
    let rd = build_report_data(&nodes, &declared, &vec![], &vec![], &time, &memory).unwrap();
    assert_eq!(rd.roots, vec!["a".to_string(), "b".to_string()]);
}

#[test]
fn rule_views_mark_shared_fingerprints() {
    // f3 is a child of both f1 and f2: it is shared
    let rules = vec![RuleSpec {
        text: "r".to_string(),
        root: "f3".to_string(),
        nodes: vec![
            RulePlanEntry {
                fingerprint: "f1".to_string(),
                plan: RulePlanNodeSpec { children: vec!["f3".to_string()] },
            },
            RulePlanEntry {
                fingerprint: "f2".to_string(),
                plan: RulePlanNodeSpec { children: vec!["f3".to_string()] },
            },
            RulePlanEntry {
                fingerprint: "f3".to_string(),
                plan: RulePlanNodeSpec { children: vec![] },
            },
        ],
    }];
    let nodes = vec![named("a", vec![], vec![])];
    let fp_map = vec![FpNameEntry { fingerprint: "f3".to_string(), node: "a".to_string() }];
    let time = TimeIndex::new();
    let memory = MemoryIndex::new();
    let rd = build_report_data(&nodes, &vec![], &rules, &fp_map, &time, &memory).unwrap();
    assert_eq!(rd.rules.len(), 1);
    let rv = &rd.rules[0];
    assert_eq!(rv.root, "f3");
    let f3 = &rv.nodes[2];
    assert_eq!(f3.fingerprint, "f3");
    assert!(f3.shared);
    assert_eq!(f3.parents, vec!["f1".to_string(), "f2".to_string()]);
    assert_eq!(f3.node.as_deref(), Some("a"));
    assert_eq!(f3.label.as_deref(), Some("a"));
    assert!(!rv.nodes[0].shared);
    assert_eq!(rv.nodes[0].node, None);
}

#[test]
fn duplicate_addr_in_one_source_rejected_by_index() {
    let e = TimeIndex::from_rows(vec![
        time_row(vec![0], 1, 1, "A"),
        time_row(vec![0], 2, 2, "B"),
    ])
    .unwrap_err();
    match e {
        ReportError::DuplicateAddr { addr } => assert_eq!(addr.0, vec![0]),
        other => panic!("expected a duplicate-address error, got {:?}", other),
    }
}
