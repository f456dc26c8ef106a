//! The flat topology schema: a list of nodes with inline parent edges plus
//! rule plan trees keyed by fingerprints. Validation normalizes the node
//! rows, checks structural integrity (unique ids, referential integrity,
//! acyclicity, fingerprint uniqueness per block) and validates each rule's
//! plan tree, which must have exactly one sink.

use vstd::prelude::*;
use vstd::string::StringExecFns;
use crate::addr::Addr;
use crate::errors::ReportError;
use crate::graph;
use crate::norm;
use crate::strs;

verus! {

/// The raw flat-schema topology: nodes and optional rules.
#[derive(Debug)]
pub struct OpsSpec {
    pub nodes: Vec<RawNode>,
    pub rules: Vec<RawRule>,
}

/// A raw node row as supplied by the topology document.
#[derive(Debug)]
pub struct RawNode {
    pub id: u32,
    pub name: String,
    pub block: Option<String>,
    pub fingerprint: Option<String>,
    pub tags: Vec<String>,
    pub operators: Vec<Addr>,
    pub parents: Vec<u32>,
}

/// A raw rule: its text and its plan tree entries.
#[derive(Debug)]
pub struct RawRule {
    pub text: String,
    pub plan_tree: Vec<RawPlanNode>,
}

/// One plan-tree entry: a fingerprint and its parent fingerprints.
#[derive(Debug)]
pub struct RawPlanNode {
    pub fingerprint: String,
    pub parents: Vec<String>,
}

/// A normalized, validated node.
#[derive(Debug)]
pub struct NodeSpec {
    pub id: u32,
    pub label: String,
    pub block: String,
    pub fingerprint: Option<String>,
    pub tags: Vec<String>,
    pub parents: Vec<u32>,
    pub operators: Vec<Addr>,
}

/// A validated plan-tree node: its children, sorted and deduplicated.
#[derive(Debug)]
pub struct RulePlanNodeSpec {
    pub children: Vec<String>,
}

/// One validated plan-tree entry, keyed by its trimmed fingerprint.
#[derive(Debug)]
pub struct RulePlanEntry {
    pub fingerprint: String,
    pub plan: RulePlanNodeSpec,
}

/// A validated rule: its text, its unique sink fingerprint, and its
/// plan-tree entries in input order.
#[derive(Debug)]
pub struct RuleSpec {
    pub text: String,
    pub root: String,
    pub nodes: Vec<RulePlanEntry>,
}

/// Which node (by id) carries a fingerprint; the node with the first
/// occurrence in the node list wins.
#[derive(Debug)]
pub struct FingerprintOwner {
    pub fingerprint: String,
    pub node: u32,
}

/// The validated flat topology.
#[derive(Debug)]
pub struct ValidatedOps {
    pub nodes: Vec<NodeSpec>,
    pub roots: Vec<u32>,
    pub rules: Vec<RuleSpec>,
    pub fingerprint_to_node: Vec<FingerprintOwner>,
}

// ------------------------------------------------------------ input specs

/// The node's grouping block, defaulting to "other".
pub open spec fn block_norm(n: RawNode) -> Seq<char> {
    match n.block {
        Some(b) => b@,
        None => "other"@,
    }
}

/// The node's fingerprint after trimming; empty becomes absent.
pub open spec fn fp_norm(n: RawNode) -> Option<Seq<char>> {
    match n.fingerprint {
        Some(f) => if strs::trim_spec(f@).len() == 0 {
            None
        } else {
            Some(strs::trim_spec(f@))
        },
        None => None,
    }
}

pub open spec fn opt_str_view(o: Option<String>) -> Option<Seq<char>> {
    match o {
        Some(s) => Some(s@),
        None => None,
    }
}

/// No two node rows share an id.
pub open spec fn unique_ids(nodes: Seq<RawNode>) -> bool {
    forall|i: int, j: int| 0 <= i < j < nodes.len() ==> nodes[i].id != nodes[j].id
}

/// Some node carries this id.
pub open spec fn some_node_has_id(nodes: Seq<RawNode>, id: u32) -> bool {
    exists|j: int| 0 <= j < nodes.len() && #[trigger] nodes[j].id == id
}

/// Every parent id names some node.
pub open spec fn parents_exist(nodes: Seq<RawNode>) -> bool {
    forall|i: int, k: int|
        #![trigger nodes[i].parents@[k]]
        0 <= i < nodes.len() && 0 <= k < nodes[i].parents@.len() ==> some_node_has_id(
            nodes,
            nodes[i].parents@[k],
        )
}

/// No two nodes in the same block share a (normalized) fingerprint.
pub open spec fn no_fingerprint_collision(nodes: Seq<RawNode>) -> bool {
    forall|i: int, j: int|
        0 <= i < j < nodes.len() ==> !(fp_norm(nodes[i]) is Some && fp_norm(nodes[i]) == fp_norm(
            nodes[j],
        ) && block_norm(nodes[i]) == block_norm(nodes[j]))
}

/// Node `i` is a parent of node `j`.
pub open spec fn ops_edge(nodes: Seq<RawNode>, i: int, j: int) -> bool {
    &&& 0 <= i < nodes.len()
    &&& 0 <= j < nodes.len()
    &&& nodes[j].parents@.contains(nodes[i].id)
}

/// Some measure strictly decreases along every parent-to-child edge.
pub open spec fn ops_acyclic(nodes: Seq<RawNode>) -> bool {
    exists|m: Seq<nat>|
        m.len() == nodes.len() && forall|i: int, j: int|
            #[trigger] ops_edge(nodes, i, j) ==> m[j] < m[i]
}

/// A closed walk along parent-to-child edges, witnessing a cycle.
pub open spec fn ops_cycle(nodes: Seq<RawNode>, p: Seq<int>) -> bool {
    &&& p.len() >= 2
    &&& p[0] == p[p.len() - 1]
    &&& forall|k: int| 0 <= k < p.len() - 1 ==> #[trigger] ops_edge(nodes, p[k], p[k + 1])
}

/// The reported path names a closed walk of the input by decimal node ids:
/// consecutive entries are edges and the last entry repeats an earlier one.
pub open spec fn ops_walk_named(nodes: Seq<RawNode>, path: Seq<String>, q: Seq<int>) -> bool {
    &&& q.len() == path.len()
    &&& path.len() >= 2
    &&& forall|k: int|
        0 <= k < q.len() ==> 0 <= #[trigger] q[k] < nodes.len() && path[k]@ == crate::strs::u32_digits(
            nodes[q[k]].id as nat,
        )
    &&& forall|k: int| 0 <= k < q.len() - 1 ==> ops_edge(nodes, #[trigger] q[k], q[k + 1])
    &&& exists|i: int| 0 <= i < q.len() - 1 && #[trigger] q[i] == q[q.len() - 1]
}

pub open spec fn ops_cycle_path_sound(nodes: Seq<RawNode>, path: Seq<String>) -> bool {
    exists|q: Seq<int>| #[trigger] ops_walk_named(nodes, path, q)
}

/// An acyclic topology has no closed walk along its edges.
pub proof fn lemma_ops_acyclic_no_cycle(nodes: Seq<RawNode>)
    requires
        ops_acyclic(nodes),
    ensures
        forall|p: Seq<int>| !ops_cycle(nodes, p),
{
    let m = choose|m: Seq<nat>|
        m.len() == nodes.len() && forall|i: int, j: int|
            #[trigger] ops_edge(nodes, i, j) ==> m[j] < m[i];
    assert forall|p: Seq<int>| !ops_cycle(nodes, p) by {
        if ops_cycle(nodes, p) {
            lemma_ops_path_measure(nodes, m, p);
        }
    }
}

proof fn lemma_ops_path_measure(nodes: Seq<RawNode>, m: Seq<nat>, p: Seq<int>)
    requires
        m.len() == nodes.len(),
        forall|i: int, j: int| #[trigger] ops_edge(nodes, i, j) ==> m[j] < m[i],
        forall|k: int| 0 <= k < p.len() - 1 ==> #[trigger] ops_edge(nodes, p[k], p[k + 1]),
        p.len() >= 1,
    ensures
        p.len() >= 2 ==> m[p[p.len() - 1]] + p.len() <= m[p[0]] + 1,
    decreases p.len(),
{
    if p.len() > 1 {
        let q = p.drop_last();
        assert(forall|k: int| 0 <= k < q.len() - 1 ==> #[trigger] q[k] == p[k] && q[k + 1] == p[k + 1]);
        lemma_ops_path_measure(nodes, m, q);
        let k = p.len() - 2;
        assert(ops_edge(nodes, p[k], p[k + 1]));
        assert(m[p[k + 1]] < m[p[k]]);
    }
}

// ----------------------------------------------------------- small helpers

/// Copies of the given strings, in order.
pub fn clone_string_vec(v: &Vec<String>) -> (r: Vec<String>)
    ensures
        r@.len() == v@.len(),
        forall|i: int| 0 <= i < v@.len() ==> r@[i]@ == v@[i]@,
{
    let mut r: Vec<String> = Vec::new();
    let mut i: usize = 0;
    while i < v.len()
        invariant
            i <= v@.len(),
            r@.len() == i,
            forall|k: int| 0 <= k < i ==> r@[k]@ == v@[k]@,
        decreases v@.len() - i,
    {
        r.push(v[i].clone());
        i += 1;
    }
    r
}

/// The position of the node with the given id, if any.
pub fn find_node_by_id(nodes: &Vec<NodeSpec>, id: u32) -> (r: Option<usize>)
    ensures
        match r {
            Some(i) => 0 <= i < nodes@.len() && nodes@[i as int].id == id,
            None => forall|i: int| 0 <= i < nodes@.len() ==> nodes@[i].id != id,
        },
{
    let mut i: usize = 0;
    while i < nodes.len()
        invariant
            i <= nodes@.len(),
            forall|k: int| 0 <= k < i ==> nodes@[k].id != id,
        decreases nodes@.len() - i,
    {
        if nodes[i].id == id {
            return Some(i);
        }
        i += 1;
    }
    None
}

// ----------------------------------------------------- node normalization

/// The output node is the normalized form of the input row.
pub open spec fn node_normalized(raw: RawNode, out: NodeSpec) -> bool {
    &&& out.id == raw.id
    &&& out.label@ == raw.name@
    &&& out.block@ == block_norm(raw)
    &&& opt_str_view(out.fingerprint) == fp_norm(raw)
    &&& out.tags@.len() == raw.tags@.len()
    &&& forall|k: int| 0 <= k < raw.tags@.len() ==> out.tags@[k]@ == raw.tags@[k]@
    &&& out.parents@ == norm::normalize_u32_spec(raw.parents@)
    &&& norm::sorted_unique_addrs(out.operators@)
    &&& forall|t: Seq<u32>|
        norm::contains_addr(out.operators@, t) <==> norm::contains_addr(raw.operators@, t)
    &&& out.operators@.len() <= raw.operators@.len()
}

fn normalize_node(raw: &RawNode) -> (out: NodeSpec)
    ensures
        node_normalized(*raw, out),
{
    let block: String = match &raw.block {
        Some(b) => b.clone(),
        None => String::from_str("other"),
    };
    let fingerprint: Option<String> = match &raw.fingerprint {
        Some(f) => {
            let t = strs::trim_string(f.as_str());
            if t.unicode_len() == 0 {
                None
            } else {
                Some(t)
            }
        },
        None => None,
    };
    NodeSpec {
        id: raw.id,
        label: raw.name.clone(),
        block,
        fingerprint,
        tags: clone_string_vec(&raw.tags),
        parents: norm::normalize_parents(&raw.parents),
        operators: norm::normalize_operators(&raw.operators),
    }
}


// ------------------------------------------------------------- the checks

/// The id of the first duplicated node row, if any.
fn check_unique_ids(nodes: &Vec<RawNode>) -> (r: Option<u32>)
    ensures
        match r {
            None => unique_ids(nodes@),
            Some(id) => exists|i: int, j: int|
                #![trigger nodes@[i].id, nodes@[j].id]
                0 <= i < j < nodes@.len() && nodes@[i].id == nodes@[j].id && nodes@[j].id == id,
        },
{
    let n: usize = nodes.len();
    let mut j: usize = 0;
    while j < n
        invariant
            n == nodes@.len(),
            j <= n,
            forall|i0: int, j0: int| 0 <= i0 < j0 < j ==> nodes@[i0].id != nodes@[j0].id,
        decreases n - j,
    {
        let mut i: usize = 0;
        while i < j
            invariant
                j < n == nodes@.len(),
                i <= j,
                forall|i0: int| 0 <= i0 < i ==> nodes@[i0].id != nodes@[j as int].id,
            decreases j - i,
        {
            if nodes[i].id == nodes[j].id {
                return Some(nodes[j].id);
            }
            i += 1;
        }
        j += 1;
    }
    None
}

fn build_nodes(raws: &Vec<RawNode>) -> (out: Vec<NodeSpec>)
    ensures
        out@.len() == raws@.len(),
        forall|i: int| 0 <= i < raws@.len() ==> node_normalized(raws@[i], #[trigger] out@[i]),
{
    let mut out: Vec<NodeSpec> = Vec::new();
    let mut i: usize = 0;
    while i < raws.len()
        invariant
            i <= raws@.len(),
            out@.len() == i,
            forall|k: int| 0 <= k < i ==> node_normalized(raws@[k], #[trigger] out@[k]),
        decreases raws@.len() - i,
    {
        let node = normalize_node(&raws[i]);
        out.push(node);
        i += 1;
    }
    out
}

fn compute_roots(nodes: &Vec<NodeSpec>) -> (roots: Vec<u32>)
    ensures
        norm::sorted_unique_u32(roots@),
        forall|id: u32|
            roots@.contains(id) <==> exists|i: int|
                0 <= i < nodes@.len() && (#[trigger] nodes@[i]).id == id && nodes@[i].parents@.len()
                    == 0,
{
    let mut collected: Vec<u32> = Vec::new();
    let mut i: usize = 0;
    while i < nodes.len()
        invariant
            i <= nodes@.len(),
            forall|id: u32|
                collected@.contains(id) <==> exists|k: int|
                    0 <= k < i && (#[trigger] nodes@[k]).id == id && nodes@[k].parents@.len() == 0,
        decreases nodes@.len() - i,
    {
        let ghost c_old = collected@;
        if nodes[i].parents.len() == 0 {
            proof {
                norm::lemma_push_contains(collected@, nodes@[i as int].id);
            }
            collected.push(nodes[i].id);
            proof {
                assert forall|id: u32|
                    collected@.contains(id) <==> exists|k: int|
                        0 <= k < i + 1 && (#[trigger] nodes@[k]).id == id
                            && nodes@[k].parents@.len() == 0 by {
                    if collected@.contains(id) {
                        if c_old.contains(id) {
                            let k = choose|k: int|
                                0 <= k < i && (#[trigger] nodes@[k]).id == id
                                    && nodes@[k].parents@.len() == 0;
                            assert(0 <= k < i + 1 && nodes@[k].id == id
                                && nodes@[k].parents@.len() == 0);
                        } else {
                            assert(id == nodes@[i as int].id);
                            assert(0 <= i < i + 1 && nodes@[i as int].id == id && nodes@[
                                i as int
                            ].parents@.len() == 0);
                        }
                    }
                    if exists|k: int|
                        0 <= k < i + 1 && (#[trigger] nodes@[k]).id == id
                            && nodes@[k].parents@.len() == 0 {
                        let k = choose|k: int|
                            0 <= k < i + 1 && (#[trigger] nodes@[k]).id == id
                                && nodes@[k].parents@.len() == 0;
                        if k < i {
                            assert(c_old.contains(id));
                        } else {
                            assert(id == nodes@[i as int].id);
                        }
                        assert(collected@.contains(id));
                    }
                }
            }
        } else {
            proof {
                assert forall|id: u32|
                    collected@.contains(id) <==> exists|k: int|
                        0 <= k < i + 1 && (#[trigger] nodes@[k]).id == id
                            && nodes@[k].parents@.len() == 0 by {
                    if exists|k: int|
                        0 <= k < i + 1 && (#[trigger] nodes@[k]).id == id
                            && nodes@[k].parents@.len() == 0 {
                        let k = choose|k: int|
                            0 <= k < i + 1 && (#[trigger] nodes@[k]).id == id
                                && nodes@[k].parents@.len() == 0;
                        assert(k < i);
                    }
                }
            }
        }
        i += 1;
    }
    let roots = norm::normalize_parents(&collected);
    proof {
        assert forall|id: u32|
            roots@.contains(id) <==> exists|i0: int|
                0 <= i0 < nodes@.len() && (#[trigger] nodes@[i0]).id == id
                    && nodes@[i0].parents@.len() == 0 by {
            assert(roots@.contains(id) <==> collected@.contains(id));
        }
    }
    roots
}

/// The first edge whose parent id names no node, if any; returns the
/// child's position and the missing id.
fn check_parents(nodes: &Vec<NodeSpec>) -> (r: Option<(usize, u32)>)
    ensures
        match r {
            None => forall|i: int, k: int|
                #![trigger nodes@[i].parents@[k]]
                0 <= i < nodes@.len() && 0 <= k < nodes@[i].parents@.len() ==> exists|j: int|
                    0 <= j < nodes@.len() && (#[trigger] nodes@[j]).id == nodes@[i].parents@[k],
            Some((i, pid)) => 0 <= i < nodes@.len() && nodes@[i as int].parents@.contains(pid)
                && forall|j: int| 0 <= j < nodes@.len() ==> (#[trigger] nodes@[j]).id != pid,
        },
{
    let mut i: usize = 0;
    while i < nodes.len()
        invariant
            i <= nodes@.len(),
            forall|i0: int, k: int|
                #![trigger nodes@[i0].parents@[k]]
                0 <= i0 < i && 0 <= k < nodes@[i0].parents@.len() ==> exists|j: int|
                    0 <= j < nodes@.len() && (#[trigger] nodes@[j]).id == nodes@[i0].parents@[k],
        decreases nodes@.len() - i,
    {
        let mut k: usize = 0;
        while k < nodes[i].parents.len()
            invariant
                i < nodes@.len(),
                k <= nodes@[i as int].parents@.len(),
                forall|k0: int|
                    #![trigger nodes@[i as int].parents@[k0]]
                    0 <= k0 < k ==> exists|j: int|
                        0 <= j < nodes@.len() && (#[trigger] nodes@[j]).id == nodes@[
                            i as int
                        ].parents@[k0],
            decreases nodes@[i as int].parents@.len() - k,
        {
            let pid = nodes[i].parents[k];
            match find_node_by_id(nodes, pid) {
                Some(_) => {},
                None => {
                    assert(nodes@[i as int].parents@.contains(pid));
                    return Some((i, pid));
                },
            }
            k += 1;
        }
        i += 1;
    }
    None
}

/// Whether the list holds the value.
pub fn contains_u32(v: &Vec<u32>, x: u32) -> (r: bool)
    ensures
        r == v@.contains(x),
{
    let mut i: usize = 0;
    while i < v.len()
        invariant
            i <= v@.len(),
            forall|k: int| 0 <= k < i ==> v@[k] != x,
        decreases v@.len() - i,
    {
        if v[i] == x {
            return true;
        }
        i += 1;
    }
    false
}

/// Child index lists per node: `j` is a child of `i` when `j`'s parents
/// name `i`'s id.
fn build_children(nodes: &Vec<NodeSpec>) -> (adj: Vec<Vec<usize>>)
    ensures
        adj@.len() == nodes@.len(),
        graph::wf_adj(graph::adj_view(adj@)),
        forall|i: int, j: int|
            #![trigger graph::adj_view(adj@)[i].contains(j as usize)]
            0 <= i < nodes@.len() && 0 <= j < nodes@.len() ==> (graph::adj_view(adj@)[i].contains(
                j as usize,
            ) <==> nodes@[j].parents@.contains(nodes@[i].id)),
{
    let n: usize = nodes.len();
    let mut adj: Vec<Vec<usize>> = Vec::new();
    let mut i: usize = 0;
    while i < n
        invariant
            n == nodes@.len(),
            i <= n,
            adj@.len() == i,
            forall|i0: int, j0: int|
                #![trigger adj@[i0]@.contains(j0 as usize)]
                0 <= i0 < i && 0 <= j0 < n ==> (adj@[i0]@.contains(j0 as usize) <==>
                nodes@[j0].parents@.contains(nodes@[i0].id)),
            forall|i0: int, kk: int|
                #![trigger adj@[i0]@[kk]]
                0 <= i0 < i && 0 <= kk < adj@[i0]@.len() ==> adj@[i0]@[kk] < n,
        decreases n - i,
    {
        let id = nodes[i].id;
        let mut row: Vec<usize> = Vec::new();
        let mut j: usize = 0;
        while j < n
            invariant
                n == nodes@.len(),
                i < n,
                j <= n,
                id == nodes@[i as int].id,
                forall|t: usize| row@.contains(t) ==> t < j,
                forall|j0: int|
                    0 <= j0 < j ==> (row@.contains(j0 as usize) <==> (#[trigger] nodes@[
                        j0
                    ]).parents@.contains(id)),
            decreases n - j,
        {
            if contains_u32(&nodes[j].parents, id) {
                proof {
                    norm::lemma_push_contains(row@, j);
                }
                row.push(j);
            }
            j += 1;
        }
        proof {
            norm::lemma_push_contains(adj@, row);
        }
        adj.push(row);
        proof {
            assert(adj@[i as int]@ == row@);
            assert forall|i0: int, kk: int|
                #![trigger adj@[i0]@[kk]]
                0 <= i0 < i + 1 && 0 <= kk < adj@[i0]@.len() implies adj@[i0]@[kk] < n by {
                if i0 == i {
                    assert(row@.contains(row@[kk]));
                }
            }
        }
        i += 1;
    }
    proof {
        assert forall|i0: int, j0: int|
            #![trigger graph::adj_view(adj@)[i0].contains(j0 as usize)]
            0 <= i0 < nodes@.len() && 0 <= j0 < nodes@.len() implies (graph::adj_view(
            adj@,
        )[i0].contains(j0 as usize) <==> nodes@[j0].parents@.contains(nodes@[i0].id)) by {
            assert(graph::adj_view(adj@)[i0] == adj@[i0]@);
        }
        assert forall|i0: int, kk: int|
            0 <= i0 < graph::adj_view(adj@).len() && 0 <= kk < graph::adj_view(adj@)[i0].len()
            implies #[trigger] graph::adj_view(adj@)[i0][kk] < graph::adj_view(adj@).len() by {
            assert(graph::adj_view(adj@)[i0] == adj@[i0]@);
        }
    }
    adj
}


// ------------------------------------------------------------ fingerprints

/// Whether some node carries this normalized fingerprint.
pub open spec fn fp_is_known(nodes: Seq<RawNode>, f: Seq<char>) -> bool {
    exists|i: int| 0 <= i < nodes.len() && fp_norm(#[trigger] nodes[i]) == Some(f)
}

fn opt_fp_matches(a: &Option<String>, b: &Option<String>) -> (r: bool)
    ensures
        r == (opt_str_view(*a) == opt_str_view(*b) && a is Some),
{
    match (a, b) {
        (Some(x), Some(y)) => norm::string_eq(x, y),
        _ => false,
    }
}

/// The first two nodes sharing a fingerprint within one block, if any.
fn check_fp_collision(nodes: &Vec<NodeSpec>) -> (r: Option<ReportError>)
    ensures
        match r {
            None => forall|i: int, j: int|
                0 <= i < j < nodes@.len() ==> !(opt_str_view((#[trigger] nodes@[i]).fingerprint)
                    is Some && opt_str_view(nodes@[i].fingerprint) == opt_str_view(
                    (#[trigger] nodes@[j]).fingerprint,
                ) && nodes@[i].block@ == nodes@[j].block@),
            Some(e) => match e {
                ReportError::FingerprintCollision { fingerprint, block, first_node, second_node } => exists|
                    i: int,
                    j: int,
                |
                    #![trigger nodes@[i].block, nodes@[j].block]
                    0 <= i < j < nodes@.len() && nodes@[i].id == first_node && nodes@[j].id
                        == second_node && opt_str_view(nodes@[i].fingerprint) == Some(fingerprint@)
                        && opt_str_view(nodes@[j].fingerprint) == Some(fingerprint@)
                        && nodes@[i].block@ == block@ && nodes@[j].block@ == block@,
                _ => false,
            },
        },
{
    let n: usize = nodes.len();
    let mut j: usize = 0;
    while j < n
        invariant
            n == nodes@.len(),
            j <= n,
            forall|i0: int, j0: int|
                0 <= i0 < j0 < j ==> !(opt_str_view((#[trigger] nodes@[i0]).fingerprint) is Some
                    && opt_str_view(nodes@[i0].fingerprint) == opt_str_view(
                    (#[trigger] nodes@[j0]).fingerprint,
                ) && nodes@[i0].block@ == nodes@[j0].block@),
        decreases n - j,
    {
        let mut i: usize = 0;
        while i < j
            invariant
                j < n == nodes@.len(),
                i <= j,
                forall|i0: int|
                    0 <= i0 < i ==> !(opt_str_view((#[trigger] nodes@[i0]).fingerprint) is Some
                        && opt_str_view(nodes@[i0].fingerprint) == opt_str_view(
                        nodes@[j as int].fingerprint,
                    ) && nodes@[i0].block@ == nodes@[j as int].block@),
            decreases j - i,
        {
            if opt_fp_matches(&nodes[i].fingerprint, &nodes[j].fingerprint)
                && norm::string_eq(&nodes[i].block, &nodes[j].block) {
                let fp = match &nodes[i].fingerprint {
                    Some(f) => f.clone(),
                    None => {
                        proof {
                            assert(false);
                        }
                        String::new()
                    },
                };
                return Some(ReportError::FingerprintCollision {
                    fingerprint: fp,
                    block: nodes[i].block.clone(),
                    first_node: nodes[i].id,
                    second_node: nodes[j].id,
                });
            }
            i += 1;
        }
        j += 1;
    }
    None
}

/// The map entries are sound (an entry names a node that carries the
/// fingerprint, and no earlier node carries it), complete (every carried
/// fingerprint has an entry) and free of duplicates.
/// Entry `e` names a node that carries its fingerprint.
pub open spec fn map_entry_sound(nodes: Seq<NodeSpec>, map: Seq<FingerprintOwner>, e: int) -> bool {
    exists|i: int|
        0 <= i < nodes.len() && opt_str_view((#[trigger] nodes[i]).fingerprint) == Some(
            map[e].fingerprint@,
        ) && nodes[i].id == map[e].node
}

/// Node `i`'s fingerprint has an entry.
pub open spec fn node_fp_in_map(nodes: Seq<NodeSpec>, map: Seq<FingerprintOwner>, i: int) -> bool {
    exists|e: int|
        0 <= e < map.len() && (#[trigger] map[e]).fingerprint@ == opt_str_view(
            nodes[i].fingerprint,
        ).unwrap()
}

/// The map entries are sound (an entry names a node that carries the
/// fingerprint), complete (every carried fingerprint has an entry) and free
/// of duplicates.
pub open spec fn fp_map_ok(nodes: Seq<NodeSpec>, map: Seq<FingerprintOwner>) -> bool {
    &&& forall|e: int, f: int|
        0 <= e < f < map.len() ==> (#[trigger] map[e]).fingerprint@ != (
        #[trigger] map[f]).fingerprint@
    &&& forall|e: int| 0 <= e < map.len() ==> #[trigger] map_entry_sound(nodes, map, e)
    &&& forall|i: int|
        0 <= i < nodes.len() && opt_str_view((#[trigger] nodes[i]).fingerprint) is Some
            ==> node_fp_in_map(nodes, map, i)
}

fn find_fp_owner(map: &Vec<FingerprintOwner>, f: &String) -> (r: Option<usize>)
    ensures
        match r {
            Some(e) => 0 <= e < map@.len() && map@[e as int].fingerprint@ == f@,
            None => forall|e: int| 0 <= e < map@.len() ==> (#[trigger] map@[e]).fingerprint@ != f@,
        },
{
    let mut e: usize = 0;
    while e < map.len()
        invariant
            e <= map@.len(),
            forall|k: int| 0 <= k < e ==> (#[trigger] map@[k]).fingerprint@ != f@,
        decreases map@.len() - e,
    {
        if norm::string_eq(&map[e].fingerprint, f) {
            return Some(e);
        }
        e += 1;
    }
    None
}

#[verifier::rlimit(60)]
fn build_fp_map(nodes: &Vec<NodeSpec>) -> (map: Vec<FingerprintOwner>)
    ensures
        fp_map_ok(nodes@, map@),
{
    let mut map: Vec<FingerprintOwner> = Vec::new();
    let mut i: usize = 0;
    while i < nodes.len()
        invariant
            i <= nodes@.len(),
            forall|e: int, f: int|
                0 <= e < f < map@.len() ==> (#[trigger] map@[e]).fingerprint@ != (
                #[trigger] map@[f]).fingerprint@,
            forall|e: int| 0 <= e < map@.len() ==> #[trigger] map_entry_sound(nodes@, map@, e),
            forall|k: int|
                0 <= k < i && opt_str_view((#[trigger] nodes@[k]).fingerprint) is Some
                    ==> node_fp_in_map(nodes@, map@, k),
        decreases nodes@.len() - i,
    {
        let ghost map_old = map@;
        match &nodes[i].fingerprint {
            Some(f) => {
                match find_fp_owner(&map, f) {
                    Some(e) => {
                        proof {
                            assert(map@[e as int].fingerprint@ == opt_str_view(
                                nodes@[i as int].fingerprint,
                            ).unwrap());
                            assert(node_fp_in_map(nodes@, map@, i as int));
                        }
                    },
                    None => {
                        map.push(FingerprintOwner { fingerprint: f.clone(), node: nodes[i].id });
                        proof {
                            let le = map@.len() - 1;
                            assert(forall|e: int| 0 <= e < map_old.len() ==> map@[e] == map_old[e]);
                            assert(map@[le].fingerprint@ == opt_str_view(
                                nodes@[i as int].fingerprint,
                            ).unwrap());
                            assert(map@[le].node == nodes@[i as int].id);
                            assert forall|e: int, f2: int|
                                0 <= e < f2 < map@.len() implies (#[trigger] map@[e]).fingerprint@
                                != (#[trigger] map@[f2]).fingerprint@ by {
                                if f2 == le {
                                    assert(map_old[e].fingerprint@ != f@);
                                }
                            }
                            assert forall|e: int|
                                0 <= e < map@.len() implies #[trigger] map_entry_sound(
                                nodes@,
                                map@,
                                e,
                            ) by {
                                if e < le {
                                    assert(map_entry_sound(nodes@, map_old, e));
                                    let k = choose|k: int|
                                        0 <= k < nodes@.len() && opt_str_view(
                                            (#[trigger] nodes@[k]).fingerprint,
                                        ) == Some(map_old[e].fingerprint@) && nodes@[k].id
                                            == map_old[e].node;
                                    assert(opt_str_view(nodes@[k].fingerprint) == Some(
                                        map@[e].fingerprint@,
                                    ) && nodes@[k].id == map@[e].node);
                                } else {
                                    assert(opt_str_view(nodes@[i as int].fingerprint) == Some(
                                        map@[e].fingerprint@,
                                    ) && nodes@[i as int].id == map@[e].node);
                                }
                            }
                            assert(map@[le].fingerprint@ == opt_str_view(
                                nodes@[i as int].fingerprint,
                            ).unwrap());
                            assert(node_fp_in_map(nodes@, map@, i as int));
                        }
                    },
                }
            },
            None => {},
        }
        proof {
            assert forall|k: int|
                0 <= k < i + 1 && opt_str_view((#[trigger] nodes@[k]).fingerprint) is Some
                implies node_fp_in_map(nodes@, map@, k) by {
                if k < i {
                    assert(node_fp_in_map(nodes@, map_old, k));
                    let e = choose|e: int|
                        0 <= e < map_old.len() && (#[trigger] map_old[e]).fingerprint@
                            == opt_str_view(nodes@[k].fingerprint).unwrap();
                    assert(map@[e].fingerprint@ == opt_str_view(nodes@[k].fingerprint).unwrap());
                }
            }
        }
        i += 1;
    }
    map
}

// ------------------------------------------------------------------ rules

/// The plan tree has an entry with this trimmed fingerprint.
pub open spec fn plan_has_fp(pt: Seq<RawPlanNode>, t: Seq<char>) -> bool {
    exists|f: int| 0 <= f < pt.len() && strs::trim_spec((#[trigger] pt[f]).fingerprint@) == t
}

/// Some plan-tree entry's fingerprint is empty after trimming.
pub open spec fn rule_has_empty_fp(r: RawRule) -> bool {
    exists|e0: int|
        0 <= e0 < r.plan_tree@.len() && crate::strs::trim_spec(
            (#[trigger] r.plan_tree@[e0]).fingerprint@,
        ).len() == 0
}

/// Two plan-tree entries trim to the same fingerprint `f`.
pub open spec fn rule_has_dup_fp(r: RawRule, f: Seq<char>) -> bool {
    exists|e0: int, f0: int|
        #![trigger r.plan_tree@[e0], r.plan_tree@[f0]]
        0 <= e0 < f0 < r.plan_tree@.len() && crate::strs::trim_spec(r.plan_tree@[e0].fingerprint@)
            == f && crate::strs::trim_spec(r.plan_tree@[f0].fingerprint@) == f
}

/// Some plan-tree entry lists `t` among its parents.
pub open spec fn rule_lists_parent(r: RawRule, t: Seq<char>) -> bool {
    exists|e0: int, l: int|
        #![trigger r.plan_tree@[e0].parents@[l]]
        0 <= e0 < r.plan_tree@.len() && 0 <= l < r.plan_tree@[e0].parents@.len() && r.plan_tree@[
            e0
        ].parents@[l]@ == t
}

/// The number of sink entries among the first `bound`.
pub open spec fn plan_sink_count(pt: Seq<RawPlanNode>, bound: int) -> nat
    decreases bound,
{
    if bound <= 0 {
        0
    } else {
        plan_sink_count(pt, bound - 1) + if plan_is_sink(pt, bound - 1) {
            1nat
        } else {
            0nat
        }
    }
}

/// No entry lists this entry's fingerprint as a parent: the entry has no
/// children in the derived tree.
pub open spec fn plan_is_sink(pt: Seq<RawPlanNode>, e: int) -> bool {
    forall|f: int|
        0 <= f < pt.len() ==> !norm::contains_str(
            (#[trigger] pt[f]).parents@,
            strs::trim_spec(pt[e].fingerprint@),
        )
}

/// The validated rule reflects its raw form: same text, entries in order
/// keyed by trimmed fingerprints, children exactly the entries that list
/// this entry as a parent, sorted; the root is the unique sink.
pub open spec fn rule_out_ok(rule: RawRule, rs: RuleSpec) -> bool {
    let pt = rule.plan_tree@;
    &&& rs.text@ == rule.text@
    &&& rs.nodes@.len() == pt.len()
    &&& forall|e: int|
        0 <= e < pt.len() ==> (#[trigger] rs.nodes@[e]).fingerprint@ == strs::trim_spec(
            pt[e].fingerprint@,
        )
    &&& forall|e: int|
        0 <= e < pt.len() ==> norm::sorted_unique_strs((#[trigger] rs.nodes@[e]).plan.children@)
    &&& forall|e: int, t: Seq<char>|
        #![trigger norm::contains_str(rs.nodes@[e].plan.children@, t)]
        0 <= e < pt.len() ==> (norm::contains_str(rs.nodes@[e].plan.children@, t) <==> exists|
            f: int,
        |
            0 <= f < pt.len() && strs::trim_spec((#[trigger] pt[f]).fingerprint@) == t
                && norm::contains_str(pt[f].parents@, strs::trim_spec(pt[e].fingerprint@)))
    &&& exists|e0: int|
        0 <= e0 < pt.len() && #[trigger] plan_is_sink(pt, e0) && rs.root@ == strs::trim_spec(
            pt[e0].fingerprint@,
        )
}

pub fn contains_string(v: &Vec<String>, t: &String) -> (r: bool)
    ensures
        r == norm::contains_str(v@, t@),
{
    let mut i: usize = 0;
    while i < v.len()
        invariant
            i <= v@.len(),
            forall|k: int| 0 <= k < i ==> (#[trigger] v@[k])@ != t@,
        decreases v@.len() - i,
    {
        if norm::string_eq(&v[i], t) {
            assert(v@[i as int]@ == t@);
            return true;
        }
        i += 1;
    }
    proof {
        if norm::contains_str(v@, t@) {
            let k = choose|k: int| 0 <= k < v@.len() && (#[trigger] v@[k])@ == t@;
        }
    }
    false
}


/// The map has an entry with this fingerprint.
pub open spec fn fp_in_map(map: Seq<FingerprintOwner>, f: Seq<char>) -> bool {
    exists|x: int| 0 <= x < map.len() && (#[trigger] map[x]).fingerprint@ == f
}

/// Exactly one plan-tree entry is a sink.
pub open spec fn plan_unique_sink(pt: Seq<RawPlanNode>) -> bool {
    exists|e0: int|
        0 <= e0 < pt.len() && #[trigger] plan_is_sink(pt, e0) && (forall|e: int|
            0 <= e < pt.len() && #[trigger] plan_is_sink(pt, e) ==> e == e0)
}

/// Entry `f` lists entry `e` as a parent and has the fingerprint `t`.
pub open spec fn plan_child_of(pt: Seq<RawPlanNode>, e: int, t: Seq<char>) -> bool {
    exists|f: int|
        0 <= f < pt.len() && strs::trim_spec((#[trigger] pt[f]).fingerprint@) == t
            && norm::contains_str(pt[f].parents@, strs::trim_spec(pt[e].fingerprint@))
}

/// The rule's shape constraints that do not look at the topology: non-empty
/// distinct trimmed fingerprints, in-tree parent references, a unique sink.
pub open spec fn rule_shape_ok(rule: RawRule) -> bool {
    let pt = rule.plan_tree@;
    &&& forall|e: int|
        0 <= e < pt.len() ==> strs::trim_spec((#[trigger] pt[e]).fingerprint@).len() > 0
    &&& forall|e: int, f: int|
        #![trigger pt[e].fingerprint, pt[f].fingerprint]
        0 <= e < f < pt.len() ==> strs::trim_spec(pt[e].fingerprint@) != strs::trim_spec(
            pt[f].fingerprint@,
        )
    &&& forall|e: int, l: int|
        #![trigger pt[e].parents@[l]]
        0 <= e < pt.len() && 0 <= l < pt[e].parents@.len() ==> plan_has_fp(pt, pt[e].parents@[l]@)
    &&& plan_unique_sink(pt)
}

/// Every plan-tree fingerprint is carried by some node (expressed through
/// the fingerprint map).
pub open spec fn rule_fps_in_map(map: Seq<FingerprintOwner>, rule: RawRule) -> bool {
    forall|e: int|
        0 <= e < rule.plan_tree@.len() ==> fp_in_map(
            map,
            strs::trim_spec((#[trigger] rule.plan_tree@[e]).fingerprint@),
        )
}

/// The root is the trimmed fingerprint of a sink entry.
pub open spec fn root_is_sink(pt: Seq<RawPlanNode>, root: Seq<char>) -> bool {
    exists|e0: int|
        0 <= e0 < pt.len() && #[trigger] plan_is_sink(pt, e0) && strs::trim_spec(
            pt[e0].fingerprint@,
        ) == root
}

/// Validate one rule against the known fingerprints and build its
/// normalized form.
#[verifier::rlimit(100)]
fn validate_rule(rule: &RawRule, map: &Vec<FingerprintOwner>) -> (r: Result<RuleSpec, ReportError>)
    ensures
        match r {
            Ok(rs) => rule_shape_ok(*rule) && rule_fps_in_map(map@, *rule) && rule_out_ok(
                *rule,
                rs,
            ),
            Err(e) => !(rule_shape_ok(*rule) && rule_fps_in_map(map@, *rule)) && match e {
                ReportError::RuleEmptyFingerprint { rule: rn } => rn@ == rule.text@
                    && rule_has_empty_fp(*rule),
                ReportError::RuleDuplicateFingerprint { rule: rn, fingerprint } => rn@
                    == rule.text@ && rule_has_dup_fp(*rule, fingerprint@),
                ReportError::RuleUnknownFingerprint { rule: rn, fingerprint } => rn@ == rule.text@
                    && plan_has_fp(rule.plan_tree@, fingerprint@) && !fp_in_map(
                    map@,
                    fingerprint@,
                ),
                ReportError::RulePlanParentMissing { rule: rn, parent } => rn@ == rule.text@
                    && rule_lists_parent(*rule, parent@) && !plan_has_fp(
                    rule.plan_tree@,
                    parent@,
                ),
                ReportError::RuleSinkCount { rule: rn, found } => rn@ == rule.text@ && found as nat
                    == plan_sink_count(rule.plan_tree@, rule.plan_tree@.len() as int) && found
                    != 1,
                _ => false,
            },
        },
{
    let ghost pt = rule.plan_tree@;
    let n: usize = rule.plan_tree.len();
    // trimmed fingerprints, checked non-empty, distinct and known
    let mut trimmed: Vec<String> = Vec::new();
    let mut e: usize = 0;
    while e < n
        invariant
            n == pt.len(),
            pt == rule.plan_tree@,
            e <= n,
            trimmed@.len() == e,
            forall|k: int|
                0 <= k < e ==> (#[trigger] trimmed@[k])@ == strs::trim_spec(pt[k].fingerprint@),
            forall|k: int| 0 <= k < e ==> strs::trim_spec((#[trigger] pt[k]).fingerprint@).len() > 0,
            forall|k: int, l: int|
                #![trigger pt[k].fingerprint, pt[l].fingerprint]
                0 <= k < l < e ==> strs::trim_spec(pt[k].fingerprint@) != strs::trim_spec(
                    pt[l].fingerprint@,
                ),
            forall|k: int|
                0 <= k < e ==> fp_in_map(map@, strs::trim_spec((#[trigger] pt[k]).fingerprint@)),
        decreases n - e,
    {
        let t = strs::trim_string(rule.plan_tree[e].fingerprint.as_str());
        if t.as_str().unicode_len() == 0 {
            proof {
                assert(strs::trim_spec(pt[e as int].fingerprint@).len() == 0);
                assert(rule_has_empty_fp(*rule));
            }
            return Err(ReportError::RuleEmptyFingerprint { rule: rule.text.clone() });
        }
        let mut k: usize = 0;
        while k < e
            invariant
                e < n == pt.len(),
                pt == rule.plan_tree@,
                trimmed@.len() == e,
                t@ == strs::trim_spec(pt[e as int].fingerprint@),
                forall|k0: int|
                    0 <= k0 < e ==> (#[trigger] trimmed@[k0])@ == strs::trim_spec(
                        pt[k0].fingerprint@,
                    ),
                k <= e,
                forall|k0: int|
                    0 <= k0 < k ==> strs::trim_spec((#[trigger] pt[k0]).fingerprint@) != t@,
            decreases e - k,
        {
            if norm::string_eq(&trimmed[k], &t) {
                proof {
                    assert(strs::trim_spec(pt[k as int].fingerprint@) == t@);
                    assert(strs::trim_spec(pt[e as int].fingerprint@) == t@);
                    assert(rule_has_dup_fp(*rule, t@));
                }
                return Err(ReportError::RuleDuplicateFingerprint {
                    rule: rule.text.clone(),
                    fingerprint: t,
                });
            }
            k += 1;
        }
        match find_fp_owner(map, &t) {
            Some(x) => {
                proof {
                    assert(fp_in_map(map@, t@));
                }
            },
            None => {
                proof {
                    if fp_in_map(map@, t@) {
                        let x = choose|x: int|
                            0 <= x < map@.len() && (#[trigger] map@[x]).fingerprint@ == t@;
                    }
                    assert(strs::trim_spec((#[trigger] pt[e as int]).fingerprint@) == t@);
                    assert(plan_has_fp(pt, t@));
                }
                return Err(ReportError::RuleUnknownFingerprint {
                    rule: rule.text.clone(),
                    fingerprint: t,
                });
            },
        }
        trimmed.push(t);
        e += 1;
    }
    // every parent reference stays inside the plan tree
    let mut e2: usize = 0;
    while e2 < n
        invariant
            n == pt.len(),
            pt == rule.plan_tree@,
            e2 <= n,
            trimmed@.len() == n,
            forall|k: int|
                0 <= k < n ==> (#[trigger] trimmed@[k])@ == strs::trim_spec(pt[k].fingerprint@),
            forall|k: int, l: int|
                #![trigger pt[k].parents@[l]]
                0 <= k < e2 && 0 <= l < pt[k].parents@.len() ==> plan_has_fp(
                    pt,
                    pt[k].parents@[l]@,
                ),
        decreases n - e2,
    {
        let mut l: usize = 0;
        while l < rule.plan_tree[e2].parents.len()
            invariant
                e2 < n == pt.len(),
                pt == rule.plan_tree@,
                trimmed@.len() == n,
                forall|k: int|
                    0 <= k < n ==> (#[trigger] trimmed@[k])@ == strs::trim_spec(
                        pt[k].fingerprint@,
                    ),
                l <= pt[e2 as int].parents@.len(),
                forall|l0: int|
                    #![trigger pt[e2 as int].parents@[l0]]
                    0 <= l0 < l ==> plan_has_fp(pt, pt[e2 as int].parents@[l0]@),
            decreases pt[e2 as int].parents@.len() - l,
        {
            let parent = &rule.plan_tree[e2].parents[l];
            if !contains_string(&trimmed, parent) {
                proof {
                    if plan_has_fp(pt, pt[e2 as int].parents@[l as int]@) {
                        let f = choose|f: int|
                            0 <= f < pt.len() && strs::trim_spec((#[trigger] pt[f]).fingerprint@)
                                == pt[e2 as int].parents@[l as int]@;
                        assert(trimmed@[f]@ == pt[e2 as int].parents@[l as int]@);
                        assert(norm::contains_str(trimmed@, pt[e2 as int].parents@[l as int]@));
                    }
                    assert(!plan_has_fp(pt, pt[e2 as int].parents@[l as int]@));
                    assert(rule_lists_parent(*rule, pt[e2 as int].parents@[l as int]@));
                }
                return Err(ReportError::RulePlanParentMissing {
                    rule: rule.text.clone(),
                    parent: parent.clone(),
                });
            }
            proof {
                let f = choose|f: int|
                    0 <= f < trimmed@.len() && (#[trigger] trimmed@[f])@ == pt[
                        e2 as int
                    ].parents@[l as int]@;
                assert(strs::trim_spec(pt[f].fingerprint@) == pt[e2 as int].parents@[l as int]@);
                assert(plan_has_fp(pt, pt[e2 as int].parents@[l as int]@));
            }
            l += 1;
        }
        e2 += 1;
    }
    // derive children; count sinks
    let mut entries: Vec<RulePlanEntry> = Vec::new();
    let mut sink_count: usize = 0;
    let mut first_sink: Option<String> = None;
    let ghost mut sink_set: Seq<int> = Seq::empty();
    let mut e3: usize = 0;
    while e3 < n
        invariant
            n == pt.len(),
            pt == rule.plan_tree@,
            e3 <= n,
            trimmed@.len() == n,
            forall|k: int|
                0 <= k < n ==> (#[trigger] trimmed@[k])@ == strs::trim_spec(pt[k].fingerprint@),
            entries@.len() == e3,
            forall|k: int|
                0 <= k < e3 ==> (#[trigger] entries@[k]).fingerprint@ == strs::trim_spec(
                    pt[k].fingerprint@,
                ),
            forall|k: int|
                0 <= k < e3 ==> norm::sorted_unique_strs((#[trigger] entries@[k]).plan.children@),
            forall|k: int, t: Seq<char>|
                #![trigger norm::contains_str(entries@[k].plan.children@, t)]
                0 <= k < e3 ==> (norm::contains_str(entries@[k].plan.children@, t)
                    <==> plan_child_of(pt, k, t)),
            sink_count <= e3,
            sink_count as nat == plan_sink_count(pt, e3 as int),
            sink_count as int == sink_set.len(),
            forall|k: int| sink_set.contains(k) ==> 0 <= k < e3 && plan_is_sink(pt, k),
            forall|k: int| 0 <= k < e3 && #[trigger] plan_is_sink(pt, k) ==> sink_set.contains(k),
            forall|x: int, y: int| 0 <= x < y < sink_set.len() ==> sink_set[x] != sink_set[y],
            sink_count > 0 <==> first_sink is Some,
            sink_count > 0 ==> sink_set.len() > 0 && first_sink.unwrap()@ == strs::trim_spec(
                pt[sink_set[0]].fingerprint@,
            ) && plan_is_sink(pt, sink_set[0]),
        decreases n - e3,
    {
        let mut collected: Vec<String> = Vec::new();
        let mut f: usize = 0;
        while f < n
            invariant
                e3 < n == pt.len(),
                pt == rule.plan_tree@,
                trimmed@.len() == n,
                forall|k: int|
                    0 <= k < n ==> (#[trigger] trimmed@[k])@ == strs::trim_spec(
                        pt[k].fingerprint@,
                    ),
                f <= n,
                forall|t: Seq<char>|
                    norm::contains_str(collected@, t) ==> exists|f0: int|
                        0 <= f0 < f && strs::trim_spec((#[trigger] pt[f0]).fingerprint@) == t
                            && norm::contains_str(
                            pt[f0].parents@,
                            strs::trim_spec(pt[e3 as int].fingerprint@),
                        ),
                forall|f0: int|
                    0 <= f0 < f && norm::contains_str(
                        (#[trigger] pt[f0]).parents@,
                        strs::trim_spec(pt[e3 as int].fingerprint@),
                    ) ==> norm::contains_str(collected@, strs::trim_spec(pt[f0].fingerprint@)),
            decreases n - f,
        {
            let ghost c_old = collected@;
            if contains_string(&rule.plan_tree[f].parents, &trimmed[e3]) {
                proof {
                    norm::lemma_push_contains(collected@, trimmed@[f as int]);
                }
                collected.push(trimmed[f].clone());
                proof {
                    assert(forall|k: int| 0 <= k < c_old.len() ==> collected@[k] == c_old[k]);
                    assert(collected@[collected@.len() - 1]@ == strs::trim_spec(
                        pt[f as int].fingerprint@,
                    ));
                    assert forall|t: Seq<char>|
                        norm::contains_str(collected@, t) implies exists|f0: int|
                        0 <= f0 < f + 1 && strs::trim_spec((#[trigger] pt[f0]).fingerprint@) == t
                            && norm::contains_str(
                            pt[f0].parents@,
                            strs::trim_spec(pt[e3 as int].fingerprint@),
                        ) by {
                        let k = choose|k: int| 0 <= k < collected@.len() && (#[trigger] collected@[k])@ == t;
                        if k < c_old.len() {
                            assert(norm::contains_str(c_old, t));
                        } else {
                            assert(strs::trim_spec(pt[f as int].fingerprint@) == t);
                        }
                    }
                    assert forall|f0: int|
                        0 <= f0 < f + 1 && norm::contains_str(
                            (#[trigger] pt[f0]).parents@,
                            strs::trim_spec(pt[e3 as int].fingerprint@),
                        ) implies norm::contains_str(
                        collected@,
                        strs::trim_spec(pt[f0].fingerprint@),
                    ) by {
                        if f0 < f {
                            assert(norm::contains_str(c_old, strs::trim_spec(pt[f0].fingerprint@)));
                            let k = choose|k: int|
                                0 <= k < c_old.len() && (#[trigger] c_old[k])@ == strs::trim_spec(
                                    pt[f0].fingerprint@,
                                );
                            assert(collected@[k]@ == strs::trim_spec(pt[f0].fingerprint@));
                        } else {
                            assert(collected@[collected@.len() - 1]@ == strs::trim_spec(
                                pt[f0].fingerprint@,
                            ));
                        }
                    }
                }
            } else {
                proof {
                    assert forall|f0: int|
                        0 <= f0 < f + 1 && norm::contains_str(
                            (#[trigger] pt[f0]).parents@,
                            strs::trim_spec(pt[e3 as int].fingerprint@),
                        ) implies norm::contains_str(
                        collected@,
                        strs::trim_spec(pt[f0].fingerprint@),
                    ) by {
                        if f0 == f {
                            assert(!norm::contains_str(
                                pt[f as int].parents@,
                                strs::trim_spec(pt[e3 as int].fingerprint@),
                            ));
                        }
                    }
                }
            }
            f += 1;
        }
        let children = norm::normalize_names(&collected);
        let is_sink = children.len() == 0;
        proof {
            // empty children exactly when no entry lists this one as parent
            if is_sink {
                assert forall|f0: int|
                    0 <= f0 < pt.len() implies !norm::contains_str(
                    (#[trigger] pt[f0]).parents@,
                    strs::trim_spec(pt[e3 as int].fingerprint@),
                ) by {
                    if norm::contains_str(
                        pt[f0].parents@,
                        strs::trim_spec(pt[e3 as int].fingerprint@),
                    ) {
                        assert(norm::contains_str(
                            collected@,
                            strs::trim_spec(pt[f0].fingerprint@),
                        ));
                        assert(norm::contains_str(children@, strs::trim_spec(pt[f0].fingerprint@)));
                    }
                }
                assert(plan_is_sink(pt, e3 as int));
            } else {
                assert(children@[0]@ == children@[0]@);
                assert(norm::contains_str(children@, children@[0]@));
                assert(norm::contains_str(collected@, children@[0]@));
                let f0 = choose|f0: int|
                    0 <= f0 < n && strs::trim_spec((#[trigger] pt[f0]).fingerprint@)
                        == children@[0]@ && norm::contains_str(
                        pt[f0].parents@,
                        strs::trim_spec(pt[e3 as int].fingerprint@),
                    );
                assert(!plan_is_sink(pt, e3 as int));
            }
        }
        if is_sink {
            sink_count = sink_count + 1;
            if sink_count == 1 {
                first_sink = Some(trimmed[e3].clone());
            }
            proof {
                let old_set = sink_set;
                sink_set = sink_set.push(e3 as int);
                norm::lemma_push_contains(old_set, e3 as int);
                assert(forall|x: int| 0 <= x < old_set.len() ==> sink_set[x] == old_set[x]);
                assert(sink_set[sink_set.len() - 1] == e3 as int);
                assert forall|k: int| sink_set.contains(k) implies 0 <= k < e3 + 1
                    && plan_is_sink(pt, k) by {
                    assert(old_set.contains(k) || k == e3 as int);
                }
                assert forall|k: int|
                    0 <= k < e3 + 1 && #[trigger] plan_is_sink(pt, k) implies sink_set.contains(
                    k,
                ) by {
                    if k < e3 {
                        assert(old_set.contains(k));
                    }
                }
                assert forall|x: int, y: int|
                    0 <= x < y < sink_set.len() implies sink_set[x] != sink_set[y] by {
                    if y == sink_set.len() - 1 {
                        assert(sink_set[x] == old_set[x]);
                        assert(old_set.contains(old_set[x]));
                        assert(sink_set[x] < e3 as int);
                    }
                }
                if old_set.len() == 0 {
                    assert(sink_set[0] == e3 as int);
                } else {
                    assert(sink_set[0] == old_set[0]);
                }
            }
        } else {
            proof {
                assert forall|k: int|
                    0 <= k < e3 + 1 && #[trigger] plan_is_sink(pt, k) implies sink_set.contains(
                    k,
                ) by {
                    if k == e3 as int {
                        assert(!plan_is_sink(pt, e3 as int));
                    }
                }
            }
        }
        let entry = RulePlanEntry {
            fingerprint: trimmed[e3].clone(),
            plan: RulePlanNodeSpec { children },
        };
        entries.push(entry);
        proof {
            assert(forall|k: int| 0 <= k < e3 ==> entries@[k] == entries@.drop_last()[k]);
            assert forall|k: int, t: Seq<char>|
                #![trigger norm::contains_str(entries@[k].plan.children@, t)]
                0 <= k < e3 + 1 implies (norm::contains_str(entries@[k].plan.children@, t)
                <==> plan_child_of(pt, k, t)) by {
                if k == e3 {
                    if norm::contains_str(entries@[k].plan.children@, t) {
                        assert(norm::contains_str(collected@, t));
                        let f0 = choose|f0: int|
                            0 <= f0 < n && strs::trim_spec((#[trigger] pt[f0]).fingerprint@) == t
                                && norm::contains_str(
                                pt[f0].parents@,
                                strs::trim_spec(pt[e3 as int].fingerprint@),
                            );
                        assert(plan_child_of(pt, k, t));
                    }
                    if plan_child_of(pt, k, t) {
                        let f0 = choose|f0: int|
                            0 <= f0 < pt.len() && strs::trim_spec((#[trigger] pt[f0]).fingerprint@)
                                == t && norm::contains_str(
                                pt[f0].parents@,
                                strs::trim_spec(pt[k].fingerprint@),
                            );
                        assert(norm::contains_str(
                            collected@,
                            strs::trim_spec(pt[f0].fingerprint@),
                        ));
                        assert(norm::contains_str(entries@[k].plan.children@, t));
                    }
                }
            }
        }
        e3 += 1;
    }
    if sink_count != 1 {
        proof {
            if plan_unique_sink(pt) {
                let e0 = choose|e0: int|
                    0 <= e0 < pt.len() && #[trigger] plan_is_sink(pt, e0) && (forall|k: int|
                        0 <= k < pt.len() && #[trigger] plan_is_sink(pt, k) ==> k == e0);
                assert(sink_set.contains(e0));
                if sink_set.len() > 1 {
                    assert(sink_set[0] != sink_set[1]);
                    assert(plan_is_sink(pt, sink_set[0]) && plan_is_sink(pt, sink_set[1]));
                    assert(sink_set[0] == e0 && sink_set[1] == e0);
                }
                if sink_set.len() == 0 {
                    let x = choose|x: int| 0 <= x < sink_set.len() && sink_set[x] == e0;
                }
            }
        }
        return Err(ReportError::RuleSinkCount { rule: rule.text.clone(), found: sink_count });
    }
    let root = match first_sink {
        Some(root) => root,
        None => {
            assert(false);
            String::new()
        },
    };
    proof {
        assert(plan_is_sink(pt, sink_set[0]));
        assert(root_is_sink(pt, root@));
        assert forall|e0: int|
            0 <= e0 < pt.len() && #[trigger] plan_is_sink(pt, e0) implies e0 == sink_set[0] by {
            assert(sink_set.contains(e0));
            let x = choose|x: int| 0 <= x < sink_set.len() && sink_set[x] == e0;
            assert(x == 0);
        }
        assert(plan_unique_sink(pt));
    }
    Ok(RuleSpec { text: rule.text.clone(), root, nodes: entries })
}


// ----------------------------------------------------------- composition

/// Every plan-tree fingerprint of the rule is carried by some node.
pub open spec fn rule_fps_known(nodes: Seq<RawNode>, rule: RawRule) -> bool {
    forall|e: int|
        0 <= e < rule.plan_tree@.len() ==> fp_is_known(
            nodes,
            strs::trim_spec((#[trigger] rule.plan_tree@[e]).fingerprint@),
        )
}

/// A rule is valid against the topology.
pub open spec fn rule_valid(nodes: Seq<RawNode>, rule: RawRule) -> bool {
    rule_shape_ok(rule) && rule_fps_known(nodes, rule)
}

/// Some rule's plan tree records this fingerprint.
pub open spec fn fp_in_rules(rules: Seq<RawRule>, f: Seq<char>) -> bool {
    exists|k: int, e: int|
        #![trigger rules[k].plan_tree@[e]]
        0 <= k < rules.len() && 0 <= e < rules[k].plan_tree@.len() && strs::trim_spec(
            rules[k].plan_tree@[e].fingerprint@,
        ) == f
}

/// A well-formed topology input: at least one node; unique ids; parent
/// references resolve; the edges are acyclic; fingerprints are unique
/// within a block; every rule is valid; and every fingerprinted node is
/// recorded in some rule.
pub open spec fn valid_ops_input(nodes: Seq<RawNode>, rules: Seq<RawRule>) -> bool {
    &&& nodes.len() > 0
    &&& unique_ids(nodes)
    &&& parents_exist(nodes)
    &&& ops_acyclic(nodes)
    &&& no_fingerprint_collision(nodes)
    &&& forall|k: int| 0 <= k < rules.len() ==> rule_valid(nodes, #[trigger] rules[k])
    &&& forall|i: int|
        0 <= i < nodes.len() && fp_norm(#[trigger] nodes[i]) is Some ==> fp_in_rules(
            rules,
            fp_norm(nodes[i]).unwrap(),
        )
}

/// The error names real offenders of the input topology: the duplicated
/// id, the missing parent reference, the closed walk, the colliding
/// fingerprint with both node ids, the invalid rule, or the unrecorded
/// fingerprinted node.
pub open spec fn ops_err_sound(nodes: Seq<RawNode>, rules: Seq<RawRule>, e: ReportError) -> bool {
    match e {
        ReportError::DuplicateNodeId { id } => exists|i: int, j: int|
            #![trigger nodes[i].id, nodes[j].id]
            0 <= i < j < nodes.len() && nodes[i].id == id && nodes[j].id == id,
        ReportError::NoNodes => nodes.len() == 0,
        ReportError::MissingParent { node, parent } => !some_node_has_id(nodes, parent) && exists|
            i: int,
        |
            0 <= i < nodes.len() && (#[trigger] nodes[i]).id == node && nodes[i].parents@.contains(
                parent,
            ),
        ReportError::EmptyRoots => nodes.len() > 0 && forall|i: int|
            0 <= i < nodes.len() ==> (#[trigger] nodes[i]).parents@.len() > 0,
        ReportError::Cycle { path } => ops_cycle_path_sound(nodes, path@),
        ReportError::FingerprintCollision { fingerprint, block, first_node, second_node } => exists|
            i: int,
            j: int,
        |
            #![trigger nodes[i].id, nodes[j].id]
            0 <= i < j < nodes.len() && nodes[i].id == first_node && nodes[j].id == second_node
                && fp_norm(nodes[i]) == Some(fingerprint@) && fp_norm(nodes[j]) == Some(
                fingerprint@,
            ) && block_norm(nodes[i]) == block@ && block_norm(nodes[j]) == block@,
        ReportError::RuleEmptyFingerprint { rule } => exists|k: int|
            0 <= k < rules.len() && (#[trigger] rules[k]).text@ == rule@ && rule_has_empty_fp(
                rules[k],
            ),
        ReportError::RuleDuplicateFingerprint { rule, fingerprint } => exists|k: int|
            0 <= k < rules.len() && (#[trigger] rules[k]).text@ == rule@ && rule_has_dup_fp(
                rules[k],
                fingerprint@,
            ),
        ReportError::RuleUnknownFingerprint { rule, fingerprint } => !fp_is_known(
            nodes,
            fingerprint@,
        ) && exists|k: int|
            0 <= k < rules.len() && (#[trigger] rules[k]).text@ == rule@ && plan_has_fp(
                rules[k].plan_tree@,
                fingerprint@,
            ),
        ReportError::RulePlanParentMissing { rule, parent } => exists|k: int|
            0 <= k < rules.len() && (#[trigger] rules[k]).text@ == rule@ && rule_lists_parent(
                rules[k],
                parent@,
            ) && !plan_has_fp(rules[k].plan_tree@, parent@),
        ReportError::RuleSinkCount { rule, found } => found != 1 && exists|k: int|
            0 <= k < rules.len() && (#[trigger] rules[k]).text@ == rule@ && found as nat
                == plan_sink_count(rules[k].plan_tree@, rules[k].plan_tree@.len() as int),
        ReportError::FingerprintNotInRules { node, fingerprint } => !fp_in_rules(
            rules,
            fingerprint@,
        ) && exists|i: int|
            0 <= i < nodes.len() && (#[trigger] nodes[i]).id == node && fp_norm(nodes[i]) == Some(
                fingerprint@,
            ),
        _ => false,
    }
}

/// Some node has this id and no parents.
pub open spec fn raw_root_id(nodes: Seq<RawNode>, id: u32) -> bool {
    exists|i: int|
        0 <= i < nodes.len() && (#[trigger] nodes[i]).id == id && nodes[i].parents@.len() == 0
}

/// The validated topology reflects its input: nodes normalized in order,
/// roots exactly the sorted parentless ids, rules validated in order, and
/// a sound and complete fingerprint map.
pub open spec fn vops_ok(s: OpsSpec, v: ValidatedOps) -> bool {
    &&& v.nodes@.len() == s.nodes@.len()
    &&& forall|i: int|
        0 <= i < s.nodes@.len() ==> node_normalized(s.nodes@[i], #[trigger] v.nodes@[i])
    &&& norm::sorted_unique_u32(v.roots@)
    &&& forall|id: u32| v.roots@.contains(id) <==> raw_root_id(s.nodes@, id)
    &&& v.rules@.len() == s.rules@.len()
    &&& forall|k: int|
        0 <= k < s.rules@.len() ==> rule_out_ok(s.rules@[k], #[trigger] v.rules@[k])
    &&& fp_map_ok(v.nodes@, v.fingerprint_to_node@)
}

/// In a non-empty acyclic topology whose parent references resolve, some
/// node has no parents.
pub proof fn lemma_ops_has_root(nodes: Seq<RawNode>)
    requires
        parents_exist(nodes),
        ops_acyclic(nodes),
        nodes.len() > 0,
    ensures
        exists|i: int| 0 <= i < nodes.len() && (#[trigger] nodes[i]).parents@.len() == 0,
{
    let m = choose|m: Seq<nat>|
        m.len() == nodes.len() && forall|i: int, j: int|
            #[trigger] ops_edge(nodes, i, j) ==> m[j] < m[i];
    let v = graph::seq_max_index(m);
    graph::lemma_seq_max_index(m);
    if nodes[v].parents@.len() > 0 {
        let pid = nodes[v].parents@[0];
        assert(nodes[v].parents@.contains(pid));
        assert(some_node_has_id(nodes, pid));
        let j = choose|j: int| 0 <= j < nodes.len() && (#[trigger] nodes[j]).id == pid;
        assert(ops_edge(nodes, j, v));
        assert(m[v] < m[j]);
        assert(m[j] <= m[v]);
        assert(false);
    }
    assert(0 <= v < nodes.len() && nodes[v].parents@.len() == 0);
}

/// Acyclicity of the input edges coincides with acyclicity of the derived
/// child-index adjacency.
proof fn lemma_acyclic_bridge(raws: Seq<RawNode>, built: Seq<NodeSpec>, a: Seq<Seq<usize>>)
    requires
        built.len() == raws.len(),
        a.len() == raws.len(),
        raws.len() <= usize::MAX,
        forall|i: int| 0 <= i < raws.len() ==> node_normalized(raws[i], #[trigger] built[i]),
        graph::wf_adj(a),
        forall|i: int, j: int|
            #![trigger a[i].contains(j as usize)]
            0 <= i < built.len() && 0 <= j < built.len() ==> (a[i].contains(j as usize)
                <==> built[j].parents@.contains(built[i].id)),
    ensures
        ops_acyclic(raws) <==> graph::acyclic(a),
{
    if ops_acyclic(raws) {
        let m = choose|m: Seq<nat>|
            m.len() == raws.len() && forall|i: int, j: int|
                #[trigger] ops_edge(raws, i, j) ==> m[j] < m[i];
        assert(graph::respects_measure(a, m)) by {
            assert forall|v: int, jj: int|
                0 <= v < a.len() && 0 <= jj < a[v].len() implies m[#[trigger] a[v][jj] as int]
                < m[v] by {
                let cu = a[v][jj];
                let c = cu as int;
                assert(a[v].contains(cu));
                assert(cu < a.len());
                assert(cu == c as usize);
                assert(a[v].contains(c as usize));
                assert(node_normalized(raws[c], built[c]));
                assert(node_normalized(raws[v], built[v]));
                assert(built[c].parents@.contains(built[v].id));
                norm::lemma_normalize_u32(raws[c].parents@);
                assert(built[c].parents@ == norm::normalize_u32_spec(raws[c].parents@));
                assert(raws[c].parents@.contains(raws[v].id));
                assert(ops_edge(raws, v, c));
            }
        }
        assert(graph::acyclic(a));
    }
    if graph::acyclic(a) {
        let m = choose|m: Seq<nat>| graph::respects_measure(a, m);
        assert forall|i: int, j: int| #[trigger] ops_edge(raws, i, j) implies m[j] < m[i] by {
            assert(raws[j].parents@.contains(raws[i].id));
            assert(node_normalized(raws[j], built[j]));
            assert(node_normalized(raws[i], built[i]));
            norm::lemma_normalize_u32(raws[j].parents@);
            assert(built[j].parents@ == norm::normalize_u32_spec(raws[j].parents@));
            assert(built[j].parents@.contains(built[i].id));
            assert(a[i].contains(j as usize));
            let jj = choose|jj: int| 0 <= jj < a[i].len() && a[i][jj] == j as usize;
            assert(a[i][jj] as int == j);
            assert(m[a[i][jj] as int] < m[i]);
        }
        assert(ops_acyclic(raws)) by {
            assert(m.len() == raws.len() && forall|i: int, j: int|
                #[trigger] ops_edge(raws, i, j) ==> m[j] < m[i]);
        }
    }
}

/// A validated rule's entries record this fingerprint.
pub open spec fn entries_have_fp(entries: Seq<RulePlanEntry>, f: Seq<char>) -> bool {
    exists|e: int| 0 <= e < entries.len() && (#[trigger] entries[e]).fingerprint@ == f
}

/// Some validated rule records this fingerprint.
pub open spec fn fp_in_rules_out(rules: Seq<RuleSpec>, f: Seq<char>) -> bool {
    exists|k: int| 0 <= k < rules.len() && entries_have_fp((#[trigger] rules[k]).nodes@, f)
}

fn rule_has_entry(rs: &RuleSpec, f: &String) -> (r: bool)
    ensures
        r == entries_have_fp(rs.nodes@, f@),
{
    let mut e: usize = 0;
    while e < rs.nodes.len()
        invariant
            e <= rs.nodes@.len(),
            forall|k: int| 0 <= k < e ==> (#[trigger] rs.nodes@[k]).fingerprint@ != f@,
        decreases rs.nodes@.len() - e,
    {
        if norm::string_eq(&rs.nodes[e].fingerprint, f) {
            assert(rs.nodes@[e as int].fingerprint@ == f@);
            return true;
        }
        e += 1;
    }
    proof {
        if entries_have_fp(rs.nodes@, f@) {
            let e0 = choose|e0: int|
                0 <= e0 < rs.nodes@.len() && (#[trigger] rs.nodes@[e0]).fingerprint@ == f@;
        }
    }
    false
}

/// The first fingerprinted node that no rule records, if any.
fn check_fps_in_rules(nodes: &Vec<NodeSpec>, rules_out: &Vec<RuleSpec>) -> (r: Option<
    ReportError,
>)
    ensures
        match r {
            None => forall|i: int|
                0 <= i < nodes@.len() && opt_str_view((#[trigger] nodes@[i]).fingerprint) is Some
                    ==> fp_in_rules_out(rules_out@, opt_str_view(nodes@[i].fingerprint).unwrap()),
            Some(e) => match e {
                ReportError::FingerprintNotInRules { node, fingerprint } => exists|i: int|
                    0 <= i < nodes@.len() && (#[trigger] nodes@[i]).id == node && opt_str_view(
                        nodes@[i].fingerprint,
                    ) == Some(fingerprint@) && !fp_in_rules_out(rules_out@, fingerprint@),
                _ => false,
            },
        },
{
    let mut i: usize = 0;
    while i < nodes.len()
        invariant
            i <= nodes@.len(),
            forall|k: int|
                0 <= k < i && opt_str_view((#[trigger] nodes@[k]).fingerprint) is Some
                    ==> fp_in_rules_out(rules_out@, opt_str_view(nodes@[k].fingerprint).unwrap()),
        decreases nodes@.len() - i,
    {
        match &nodes[i].fingerprint {
            Some(f) => {
                let mut k: usize = 0;
                let mut found: bool = false;
                while k < rules_out.len() && !found
                    invariant
                        k <= rules_out@.len(),
                        found ==> fp_in_rules_out(rules_out@, f@),
                        !found ==> forall|k0: int|
                            0 <= k0 < k ==> !entries_have_fp(
                                (#[trigger] rules_out@[k0]).nodes@,
                                f@,
                            ),
                    decreases rules_out@.len() - k,
                {
                    if rule_has_entry(&rules_out[k], f) {
                        found = true;
                        proof {
                            assert(entries_have_fp(rules_out@[k as int].nodes@, f@));
                        }
                    }
                    k += 1;
                }
                if !found {
                    proof {
                        if fp_in_rules_out(rules_out@, f@) {
                            let k0 = choose|k0: int|
                                0 <= k0 < rules_out@.len() && entries_have_fp(
                                    (#[trigger] rules_out@[k0]).nodes@,
                                    f@,
                                );
                        }
                    }
                    return Some(ReportError::FingerprintNotInRules {
                        node: nodes[i].id,
                        fingerprint: f.clone(),
                    });
                }
            },
            None => {},
        }
        i += 1;
    }
    None
}

impl OpsSpec {
    /// Validate the flat topology and build its normalized form.
    ///
    /// Succeeds exactly on well-formed inputs (`valid_ops_input`); on
    /// failure the returned error names the violated check and real
    /// offending identifiers of the input (`ops_err_sound`), and nothing
    /// is produced.
    #[verifier::rlimit(100)]
    pub fn validate_and_build(&self) -> (r: Result<ValidatedOps, ReportError>)
        ensures
            match r {
                Ok(v) => valid_ops_input(self.nodes@, self.rules@) && vops_ok(*self, v),
                Err(e) => !valid_ops_input(self.nodes@, self.rules@) && ops_err_sound(
                    self.nodes@,
                    self.rules@,
                    e,
                ),
            },
    {
        let raws = &self.nodes;
        if let Some(id) = check_unique_ids(raws) {
            return Err(ReportError::DuplicateNodeId { id });
        }
        if raws.len() == 0 {
            return Err(ReportError::NoNodes);
        }
        let nodes = build_nodes(raws);
        // roots: ids of nodes without parents, sorted
        let roots = compute_roots(&nodes);
        if roots.len() == 0 {
            proof {
                if valid_ops_input(self.nodes@, self.rules@) {
                    lemma_ops_has_root(self.nodes@);
                    let i = choose|i: int|
                        0 <= i < self.nodes@.len() && (#[trigger] self.nodes@[i]).parents@.len()
                            == 0;
                    assert(nodes@[i].parents@ == norm::normalize_u32_spec(
                        self.nodes@[i].parents@,
                    ));
                    assert(self.nodes@[i].parents@ =~= Seq::<u32>::empty());
                    assert(nodes@[i].parents@.len() == 0);
                    assert(roots@.contains(nodes@[i].id));
                }
                // the error is sound: every node has parents
                assert forall|i: int|
                    0 <= i < self.nodes@.len() implies (#[trigger] self.nodes@[i]).parents@.len()
                    > 0 by {
                    if self.nodes@[i].parents@.len() == 0 {
                        assert(node_normalized(self.nodes@[i], nodes@[i]));
                        assert(self.nodes@[i].parents@ =~= Seq::<u32>::empty());
                        assert(nodes@[i].parents@.len() == 0);
                        assert(roots@.contains(nodes@[i].id));
                    }
                }
            }
            return Err(ReportError::EmptyRoots);
        }
        // referential integrity
        if let Some((bad_i, pid)) = check_parents(&nodes) {
            proof {
                let i = bad_i as int;
                assert(node_normalized(self.nodes@[i], nodes@[i]));
                norm::lemma_normalize_u32(self.nodes@[i].parents@);
                assert(nodes@[i].parents@ == norm::normalize_u32_spec(self.nodes@[i].parents@));
                assert(self.nodes@[i].parents@.contains(pid));
                assert(nodes@[i].id == self.nodes@[i].id);
                // no node carries the referenced id
                if some_node_has_id(self.nodes@, pid) {
                    let j = choose|j: int|
                        0 <= j < self.nodes@.len() && (#[trigger] self.nodes@[j]).id == pid;
                    assert(node_normalized(self.nodes@[j], nodes@[j]));
                    assert(nodes@[j].id == pid);
                    assert(false);
                }
                assert(!some_node_has_id(self.nodes@, pid));
                let k = choose|k: int|
                    0 <= k < self.nodes@[i].parents@.len() && self.nodes@[i].parents@[k] == pid;
                if parents_exist(self.nodes@) {
                    assert(0 <= i < self.nodes@.len() && 0 <= k < self.nodes@[i].parents@.len());
                    assert(self.nodes@[i].parents@[k] == pid);
                    assert(some_node_has_id(self.nodes@, self.nodes@[i].parents@[k]));
                }
            }
            return Err(ReportError::MissingParent { node: nodes[bad_i].id, parent: pid });
        }
        proof {
            assert forall|i: int, k: int|
                #![trigger self.nodes@[i].parents@[k]]
                0 <= i < self.nodes@.len() && 0 <= k < self.nodes@[i].parents@.len()
                implies some_node_has_id(self.nodes@, self.nodes@[i].parents@[k]) by {
                let pid = self.nodes@[i].parents@[k];
                assert(node_normalized(self.nodes@[i], nodes@[i]));
                assert(self.nodes@[i].parents@.contains(pid));
                norm::lemma_normalize_u32(self.nodes@[i].parents@);
                assert(nodes@[i].parents@ == norm::normalize_u32_spec(self.nodes@[i].parents@));
                assert(nodes@[i].parents@.contains(pid));
                let kk = choose|kk: int|
                    0 <= kk < nodes@[i].parents@.len() && nodes@[i].parents@[kk] == pid;
                let j = choose|j: int| 0 <= j < nodes@.len() && (#[trigger] nodes@[j]).id == pid;
                assert(node_normalized(self.nodes@[j], nodes@[j]));
                assert(self.nodes@[j].id == pid);
                assert(some_node_has_id(self.nodes@, pid));
            }
            assert(parents_exist(self.nodes@));
        }
        // cycle detection over the derived child edges
        let adj = build_children(&nodes);
        let mut roots_idx: Vec<usize> = Vec::new();
        let mut t: usize = 0;
        while t < roots.len()
            invariant
                t <= roots@.len(),
                nodes@.len() == adj@.len(),
                forall|x: int| 0 <= x < roots_idx@.len() ==> roots_idx@[x] < nodes@.len(),
                forall|id: u32|
                    roots@.contains(id) <==> exists|i: int|
                        0 <= i < nodes@.len() && (#[trigger] nodes@[i]).id == id
                            && nodes@[i].parents@.len() == 0,
            decreases roots@.len() - t,
        {
            match find_node_by_id(&nodes, roots[t]) {
                Some(ix) => {
                    roots_idx.push(ix);
                },
                None => {
                    proof {
                        assert(roots@.contains(roots@[t as int]));
                        let i = choose|i: int|
                            0 <= i < nodes@.len() && (#[trigger] nodes@[i]).id == roots@[t as int]
                                && nodes@[i].parents@.len() == 0;
                        assert(false);
                    }
                    return Err(ReportError::EmptyRoots);
                },
            }
            t += 1;
        }
        let ghost a = graph::adj_view(adj@);
        proof {
            lemma_acyclic_bridge(self.nodes@, nodes@, a);
        }
        match graph::find_cycle(&adj, &roots_idx) {
            Ok(_) => {},
            Err(p) => {
                let mut path: Vec<String> = Vec::new();
                let mut x: usize = 0;
                while x < p.len()
                    invariant
                        x <= p@.len(),
                        nodes@.len() == adj@.len(),
                        nodes@.len() == self.nodes@.len(),
                        forall|i: int|
                            0 <= i < self.nodes@.len() ==> node_normalized(
                                self.nodes@[i],
                                #[trigger] nodes@[i],
                            ),
                        forall|k: int| 0 <= k < p@.len() ==> p@[k] < adj@.len(),
                        path@.len() == x,
                        forall|k: int|
                            0 <= k < x ==> (#[trigger] path@[k])@ == strs::u32_digits(
                                self.nodes@[p@[k] as int].id as nat,
                            ),
                    decreases p@.len() - x,
                {
                    let d = strs::u32_to_string(nodes[p[x]].id);
                    proof {
                        assert(node_normalized(self.nodes@[p@[x as int] as int], nodes@[p@[
                            x as int
                        ] as int]));
                    }
                    path.push(d);
                    x += 1;
                }
                proof {
                    let q = Seq::new(p@.len(), |k: int| p@[k] as int);
                    assert(ops_walk_named(self.nodes@, path@, q)) by {
                        assert(forall|k: int| 0 <= k < q.len() ==> q[k] == p@[k] as int);
                        assert forall|k: int|
                            0 <= k < q.len() - 1 implies ops_edge(
                            self.nodes@,
                            #[trigger] q[k],
                            q[k + 1],
                        ) by {
                            assert(a[p@[k] as int].contains(p@[k + 1]));
                            assert(q[k + 1] as usize == p@[k + 1]);
                            assert(graph::adj_view(adj@)[q[k] as int].contains(
                                q[k + 1] as usize,
                            ));
                            let ii = q[k];
                            let jj = q[k + 1];
                            assert(nodes@[jj].parents@.contains(nodes@[ii].id));
                            assert(node_normalized(self.nodes@[ii], nodes@[ii]));
                            assert(node_normalized(self.nodes@[jj], nodes@[jj]));
                            norm::lemma_normalize_u32(self.nodes@[jj].parents@);
                            assert(nodes@[jj].parents@ == norm::normalize_u32_spec(
                                self.nodes@[jj].parents@,
                            ));
                            assert(self.nodes@[jj].parents@.contains(self.nodes@[ii].id));
                        }
                        let i0 = choose|i: int|
                            0 <= i < p@.len() - 1 && #[trigger] p@[i] == p@[p@.len() - 1];
                        assert(q[i0] == q[q.len() - 1]);
                        assert(0 <= i0 < q.len() - 1);
                    }
                    assert(ops_cycle_path_sound(self.nodes@, path@));
                }
                return Err(ReportError::Cycle { path });
            },
        }
        // fingerprint uniqueness per block
        if let Some(e) = check_fp_collision(&nodes) {
            proof {
                match &e {
                    ReportError::FingerprintCollision {
                        fingerprint,
                        block,
                        first_node,
                        second_node,
                    } => {
                        let (i, j): (int, int) = choose|i: int, j: int|
                            #![trigger nodes@[i].block, nodes@[j].block]
                            0 <= i < j < nodes@.len() && nodes@[i].id == *first_node
                                && nodes@[j].id == *second_node && opt_str_view(
                                nodes@[i].fingerprint,
                            ) == Some(fingerprint@) && opt_str_view(nodes@[j].fingerprint)
                                == Some(fingerprint@) && nodes@[i].block@ == block@
                                && nodes@[j].block@ == block@;
                        assert(node_normalized(self.nodes@[i], nodes@[i]));
                        assert(node_normalized(self.nodes@[j], nodes@[j]));
                        assert(self.nodes@[i].id == *first_node && self.nodes@[j].id
                            == *second_node);
                        assert(fp_norm(self.nodes@[i]) == Some(fingerprint@));
                        assert(fp_norm(self.nodes@[j]) == Some(fingerprint@));
                        assert(block_norm(self.nodes@[i]) == block@ && block_norm(self.nodes@[j])
                            == block@);
                        assert(ops_err_sound(self.nodes@, self.rules@, e));
                    },
                    _ => {
                        assert(false);
                    },
                }
            }
            return Err(e);
        }
        proof {
            assert forall|i: int, j: int|
                0 <= i < j < self.nodes@.len() implies !(fp_norm(self.nodes@[i]) is Some
                && fp_norm(self.nodes@[i]) == fp_norm(self.nodes@[j]) && block_norm(
                self.nodes@[i],
            ) == block_norm(self.nodes@[j])) by {
                assert(opt_str_view(nodes@[i].fingerprint) == fp_norm(self.nodes@[i]));
                assert(opt_str_view(nodes@[j].fingerprint) == fp_norm(self.nodes@[j]));
                assert(nodes@[i].block@ == block_norm(self.nodes@[i]));
                assert(nodes@[j].block@ == block_norm(self.nodes@[j]));
            }
        }
        let fingerprint_to_node = build_fp_map(&nodes);
        // rules
        let mut rules_out: Vec<RuleSpec> = Vec::new();
        let mut k: usize = 0;
        while k < self.rules.len()
            invariant
                k <= self.rules@.len(),
                rules_out@.len() == k,
                fp_map_ok(nodes@, fingerprint_to_node@),
                nodes@.len() == self.nodes@.len(),
                forall|i: int|
                    0 <= i < self.nodes@.len() ==> node_normalized(
                        self.nodes@[i],
                        #[trigger] nodes@[i],
                    ),
                forall|k0: int|
                    0 <= k0 < k ==> rule_out_ok(self.rules@[k0], #[trigger] rules_out@[k0]),
                forall|k0: int| 0 <= k0 < k ==> rule_valid(self.nodes@, #[trigger] self.rules@[k0]),
            decreases self.rules@.len() - k,
        {
            match validate_rule(&self.rules[k], &fingerprint_to_node) {
                Ok(rs) => {
                    proof {
                        // the map's fingerprints are carried by nodes, so
                        // each plan-tree fingerprint is known to the input
                        assert forall|e: int|
                            0 <= e < self.rules@[k as int].plan_tree@.len() implies fp_is_known(
                            self.nodes@,
                            strs::trim_spec(
                                (#[trigger] self.rules@[k as int].plan_tree@[e]).fingerprint@,
                            ),
                        ) by {
                            let f = strs::trim_spec(
                                self.rules@[k as int].plan_tree@[e].fingerprint@,
                            );
                            assert(fp_in_map(fingerprint_to_node@, f));
                            let x = choose|x: int|
                                0 <= x < fingerprint_to_node@.len() && (
                                #[trigger] fingerprint_to_node@[x]).fingerprint@ == f;
                            assert(map_entry_sound(nodes@, fingerprint_to_node@, x));
                            let i = choose|i: int|
                                0 <= i < nodes@.len() && opt_str_view(
                                    (#[trigger] nodes@[i]).fingerprint,
                                ) == Some(fingerprint_to_node@[x].fingerprint@) && nodes@[i].id
                                    == fingerprint_to_node@[x].node;
                            assert(fp_norm(self.nodes@[i]) == Some(f));
                        }
                    }
                    proof {
                        assert(rule_fps_known(self.nodes@, self.rules@[k as int]));
                        assert(rule_valid(self.nodes@, self.rules@[k as int]));
                    }
                    let ghost ro_old = rules_out@;
                    rules_out.push(rs);
                    proof {
                        assert(forall|k0: int| 0 <= k0 < k ==> rules_out@[k0] == ro_old[k0]);
                    }
                },
                Err(e) => {
                    proof {
                        if rule_valid(self.nodes@, self.rules@[k as int]) {
                            assert forall|e: int|
                                0 <= e < self.rules@[k as int].plan_tree@.len() implies fp_in_map(
                                fingerprint_to_node@,
                                strs::trim_spec(
                                    (#[trigger] self.rules@[k as int].plan_tree@[e]).fingerprint@,
                                ),
                            ) by {
                                let f = strs::trim_spec(
                                    self.rules@[k as int].plan_tree@[e].fingerprint@,
                                );
                                assert(fp_is_known(self.nodes@, f));
                                let i = choose|i: int|
                                    0 <= i < self.nodes@.len() && fp_norm(
                                        #[trigger] self.nodes@[i],
                                    ) == Some(f);
                                assert(opt_str_view(nodes@[i].fingerprint) == Some(f));
                                assert(node_fp_in_map(nodes@, fingerprint_to_node@, i));
                                let x = choose|x: int|
                                    0 <= x < fingerprint_to_node@.len() && (
                                    #[trigger] fingerprint_to_node@[x]).fingerprint@
                                        == opt_str_view(nodes@[i].fingerprint).unwrap();
                                assert(fp_in_map(fingerprint_to_node@, f));
                            }
                        }
                        // the error names the offending rule and entries
                        match &e {
                            ReportError::RuleEmptyFingerprint { rule: rn } => {
                                assert(self.rules@[k as int].text@ == rn@);
                                assert(ops_err_sound(self.nodes@, self.rules@, e));
                            },
                            ReportError::RuleDuplicateFingerprint { rule: rn, fingerprint } => {
                                assert(self.rules@[k as int].text@ == rn@);
                                assert(ops_err_sound(self.nodes@, self.rules@, e));
                            },
                            ReportError::RuleUnknownFingerprint { rule: rn, fingerprint } => {
                                assert(self.rules@[k as int].text@ == rn@);
                                if fp_is_known(self.nodes@, fingerprint@) {
                                    let i = choose|i: int|
                                        0 <= i < self.nodes@.len() && fp_norm(
                                            #[trigger] self.nodes@[i],
                                        ) == Some(fingerprint@);
                                    assert(node_normalized(self.nodes@[i], nodes@[i]));
                                    assert(opt_str_view(nodes@[i].fingerprint) == Some(
                                        fingerprint@,
                                    ));
                                    assert(node_fp_in_map(nodes@, fingerprint_to_node@, i));
                                    let x = choose|x: int|
                                        0 <= x < fingerprint_to_node@.len() && (
                                        #[trigger] fingerprint_to_node@[x]).fingerprint@
                                            == opt_str_view(nodes@[i].fingerprint).unwrap();
                                    assert(fp_in_map(fingerprint_to_node@, fingerprint@));
                                    assert(false);
                                }
                                assert(!fp_is_known(self.nodes@, fingerprint@));
                                assert(ops_err_sound(self.nodes@, self.rules@, e));
                            },
                            ReportError::RulePlanParentMissing { rule: rn, parent } => {
                                assert(self.rules@[k as int].text@ == rn@);
                                assert(ops_err_sound(self.nodes@, self.rules@, e));
                            },
                            ReportError::RuleSinkCount { rule: rn, found } => {
                                assert(self.rules@[k as int].text@ == rn@);
                                assert(ops_err_sound(self.nodes@, self.rules@, e));
                            },
                            _ => {
                                assert(false);
                            },
                        }
                    }
                    return Err(e);
                },
            }
            k += 1;
        }
        // every fingerprinted node must be recorded in some rule
        if let Some(e) = check_fps_in_rules(&nodes, &rules_out) {
            proof {
                match &e {
                    ReportError::FingerprintNotInRules { node, fingerprint } => {
                        let i = choose|i: int|
                            0 <= i < nodes@.len() && (#[trigger] nodes@[i]).id == *node
                                && opt_str_view(nodes@[i].fingerprint) == Some(fingerprint@)
                                && !fp_in_rules_out(rules_out@, fingerprint@);
                        let f = fingerprint@;
                        assert(node_normalized(self.nodes@[i], nodes@[i]));
                        assert(self.nodes@[i].id == *node);
                        assert(fp_norm(self.nodes@[i]) == Some(f));
                        if fp_in_rules(self.rules@, f) {
                            let (k0, e0): (int, int) = choose|k0: int, e0: int|
                                #![trigger self.rules@[k0].plan_tree@[e0]]
                                0 <= k0 < self.rules@.len() && 0 <= e0 < self.rules@[
                                    k0
                                ].plan_tree@.len() && strs::trim_spec(
                                    self.rules@[k0].plan_tree@[e0].fingerprint@,
                                ) == f;
                            assert(rule_out_ok(self.rules@[k0], rules_out@[k0]));
                            assert(rules_out@[k0].nodes@[e0].fingerprint@ == f);
                            assert(entries_have_fp(rules_out@[k0].nodes@, f));
                            assert(fp_in_rules_out(rules_out@, f));
                            assert(false);
                        }
                        assert(!fp_in_rules(self.rules@, f));
                        assert(ops_err_sound(self.nodes@, self.rules@, e));
                    },
                    _ => {
                        assert(false);
                    },
                }
            }
            return Err(e);
        }
        proof {
            assert forall|i: int|
                0 <= i < self.nodes@.len() && fp_norm(#[trigger] self.nodes@[i]) is Some
                implies fp_in_rules(self.rules@, fp_norm(self.nodes@[i]).unwrap()) by {
                let f = fp_norm(self.nodes@[i]).unwrap();
                assert(opt_str_view(nodes@[i].fingerprint) == Some(f));
                assert(fp_in_rules_out(rules_out@, f));
                let k0 = choose|k0: int|
                    0 <= k0 < rules_out@.len() && entries_have_fp(
                        (#[trigger] rules_out@[k0]).nodes@,
                        f,
                    );
                let e0 = choose|e0: int|
                    0 <= e0 < rules_out@[k0].nodes@.len() && (
                    #[trigger] rules_out@[k0].nodes@[e0]).fingerprint@ == f;
                assert(rule_out_ok(self.rules@[k0], rules_out@[k0]));
                assert(rules_out@[k0].nodes@[e0].fingerprint@ == strs::trim_spec(
                    self.rules@[k0].plan_tree@[e0].fingerprint@,
                ));
                assert(strs::trim_spec(self.rules@[k0].plan_tree@[e0].fingerprint@) == f);
                assert(fp_in_rules(self.rules@, f));
            }
            // roots match the parentless input ids
            assert forall|id: u32|
                roots@.contains(id) <==> raw_root_id(self.nodes@, id) by {
                if roots@.contains(id) {
                    let i = choose|i: int|
                        0 <= i < nodes@.len() && (#[trigger] nodes@[i]).id == id
                            && nodes@[i].parents@.len() == 0;
                    norm::lemma_normalize_u32(self.nodes@[i].parents@);
                    if self.nodes@[i].parents@.len() > 0 {
                        assert(self.nodes@[i].parents@.contains(self.nodes@[i].parents@[0]));
                        assert(nodes@[i].parents@.contains(self.nodes@[i].parents@[0]));
                    }
                    assert(self.nodes@[i].id == id && self.nodes@[i].parents@.len() == 0);
                }
                if raw_root_id(self.nodes@, id) {
                    let i = choose|i: int|
                        0 <= i < self.nodes@.len() && (#[trigger] self.nodes@[i]).id == id
                            && self.nodes@[i].parents@.len() == 0;
                    assert(self.nodes@[i].parents@ =~= Seq::<u32>::empty());
                    assert(nodes@[i].parents@.len() == 0);
                    assert(nodes@[i].id == id);
                }
            }
        }
        proof {
            assert(self.nodes@.len() > 0);
            assert(unique_ids(self.nodes@));
            assert(parents_exist(self.nodes@));
            assert(ops_acyclic(self.nodes@));
            assert(no_fingerprint_collision(self.nodes@));
            assert(forall|k0: int|
                0 <= k0 < self.rules@.len() ==> rule_valid(self.nodes@, #[trigger] self.rules@[k0]));
            assert(forall|i: int|
                0 <= i < self.nodes@.len() && fp_norm(#[trigger] self.nodes@[i]) is Some
                    ==> fp_in_rules(self.rules@, fp_norm(self.nodes@[i]).unwrap()));
            assert(valid_ops_input(self.nodes@, self.rules@));
            assert(nodes@.len() == self.nodes@.len());
            assert(norm::sorted_unique_u32(roots@));
            assert(rules_out@.len() == self.rules@.len());
            assert(forall|k0: int|
                0 <= k0 < self.rules@.len() ==> rule_out_ok(
                    self.rules@[k0],
                    #[trigger] rules_out@[k0],
                ));
            assert(fp_map_ok(nodes@, fingerprint_to_node@));
        }
        Ok(ValidatedOps { nodes, roots, rules: rules_out, fingerprint_to_node })
    }
}


/// For a valid topology the computed root set is exactly the parentless
/// ids and is non-empty.
pub proof fn lemma_roots_nonempty(s: OpsSpec, v: ValidatedOps)
    requires
        valid_ops_input(s.nodes@, s.rules@),
        vops_ok(s, v),
    ensures
        forall|id: u32| v.roots@.contains(id) <==> raw_root_id(s.nodes@, id),
        v.roots@.len() > 0,
{
    lemma_ops_has_root(s.nodes@);
    let i = choose|i: int|
        0 <= i < s.nodes@.len() && (#[trigger] s.nodes@[i]).parents@.len() == 0;
    assert(raw_root_id(s.nodes@, s.nodes@[i].id));
    assert(v.roots@.contains(s.nodes@[i].id));
}

} // verus!
