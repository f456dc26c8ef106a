//! The DAG topology schema: named nodes with an explicit edge list and
//! optional declared roots. Validation checks name uniqueness, referential
//! integrity of edges and declared roots, and acyclicity.

use vstd::prelude::*;
use vstd::string::StringExecFns;
use crate::errors::ReportError;
use crate::graph;
use crate::norm;

verus! {

/// The raw DAG document: nodes, directed edges (source, target), optional
/// declared roots.
#[derive(Debug)]
pub struct DagSpec {
    pub nodes: Vec<NameNodeSpec>,
    pub edges: Vec<(String, String)>,
    pub roots: Vec<String>,
}

/// A raw node: its unique name and an optional display label.
#[derive(Debug)]
pub struct NameNodeSpec {
    pub name: String,
    pub label: Option<String>,
}

/// A validated node; the label defaults to the name.
#[derive(Debug)]
pub struct NameNode {
    pub name: String,
    pub label: String,
}

/// The validated name DAG: nodes in input order, child and parent index
/// lists, and the sorted root names.
#[derive(Debug)]
pub struct NameDag {
    pub nodes: Vec<NameNode>,
    pub children: Vec<Vec<usize>>,
    pub parents: Vec<Vec<usize>>,
    pub roots: Vec<String>,
}

// ------------------------------------------------------------ input specs

pub open spec fn unique_names(nodes: Seq<NameNodeSpec>) -> bool {
    forall|i: int, j: int|
        0 <= i < j < nodes.len() ==> (#[trigger] nodes[i]).name@ != (#[trigger] nodes[j]).name@
}

/// Some node carries this name.
pub open spec fn some_named(nodes: Seq<NameNodeSpec>, t: Seq<char>) -> bool {
    exists|i: int| 0 <= i < nodes.len() && (#[trigger] nodes[i]).name@ == t
}

/// Every edge endpoint names a node.
pub open spec fn edges_ok(s: DagSpec) -> bool {
    forall|e: int|
        0 <= e < s.edges@.len() ==> some_named(s.nodes@, (#[trigger] s.edges@[e]).0@)
            && some_named(s.nodes@, s.edges@[e].1@)
}

/// Every declared root names a node.
pub open spec fn roots_ok(s: DagSpec) -> bool {
    forall|r: int| 0 <= r < s.roots@.len() ==> some_named(s.nodes@, (#[trigger] s.roots@[r])@)
}

/// Edge from node `i` to node `j`, by name.
pub open spec fn dag_edge(s: DagSpec, i: int, j: int) -> bool {
    &&& 0 <= i < s.nodes@.len()
    &&& 0 <= j < s.nodes@.len()
    &&& exists|e: int|
        0 <= e < s.edges@.len() && (#[trigger] s.edges@[e]).0@ == s.nodes@[i].name@
            && s.edges@[e].1@ == s.nodes@[j].name@
}

/// Some measure strictly decreases along every edge.
pub open spec fn dag_measure_ok(s: DagSpec, m: Seq<nat>) -> bool {
    m.len() == s.nodes@.len() && forall|i: int, j: int| #[trigger] dag_edge(s, i, j) ==> m[j] < m[i]
}

pub open spec fn dag_acyclic(s: DagSpec) -> bool {
    exists|m: Seq<nat>| #[trigger] dag_measure_ok(s, m)
}

/// Some edge points at this name.
pub open spec fn has_incoming(s: DagSpec, t: Seq<char>) -> bool {
    exists|e: int| 0 <= e < s.edges@.len() && (#[trigger] s.edges@[e]).1@ == t
}

/// A well-formed DAG document.
pub open spec fn valid_dag(s: DagSpec) -> bool {
    &&& s.nodes@.len() > 0
    &&& unique_names(s.nodes@)
    &&& edges_ok(s)
    &&& roots_ok(s)
    &&& dag_acyclic(s)
}

/// The reported path names a closed walk of the input: consecutive entries
/// are edges, every entry names a node, and the last entry repeats an
/// earlier one.
pub open spec fn dag_walk_named(s: DagSpec, path: Seq<String>, q: Seq<int>) -> bool {
    &&& q.len() == path.len()
    &&& path.len() >= 2
    &&& forall|k: int|
        0 <= k < q.len() ==> 0 <= #[trigger] q[k] < s.nodes@.len() && path[k]@ == s.nodes@[
            q[k]
        ].name@
    &&& forall|k: int| 0 <= k < q.len() - 1 ==> dag_edge(s, #[trigger] q[k], q[k + 1])
    &&& exists|i: int| 0 <= i < q.len() - 1 && #[trigger] q[i] == q[q.len() - 1]
}

pub open spec fn dag_cycle_path_sound(s: DagSpec, path: Seq<String>) -> bool {
    exists|q: Seq<int>| #[trigger] dag_walk_named(s, path, q)
}

/// The error names real offenders of the input document.
pub open spec fn dag_err_sound(s: DagSpec, e: ReportError) -> bool {
    match e {
        ReportError::DuplicateNodeName { name } => exists|i: int, j: int|
            #![trigger s.nodes@[i].name, s.nodes@[j].name]
            0 <= i < j < s.nodes@.len() && s.nodes@[i].name@ == name@ && s.nodes@[j].name@
                == name@,
        ReportError::NoNodes => s.nodes@.len() == 0,
        ReportError::EdgeUnknownNode { name } => !some_named(s.nodes@, name@) && exists|e0: int|
            0 <= e0 < s.edges@.len() && ((#[trigger] s.edges@[e0]).0@ == name@ || s.edges@[e0].1@
                == name@),
        ReportError::UnknownRoot { name } => !some_named(s.nodes@, name@) && exists|r: int|
            0 <= r < s.roots@.len() && (#[trigger] s.roots@[r])@ == name@,
        ReportError::EmptyRoots => s.nodes@.len() > 0 && s.roots@.len() == 0 && forall|i: int|
            0 <= i < s.nodes@.len() ==> has_incoming(s, (#[trigger] s.nodes@[i]).name@),
        ReportError::Cycle { path } => dag_cycle_path_sound(s, path@),
        _ => false,
    }
}

/// The validated DAG reflects its input: nodes in order with labels
/// defaulted, adjacency exactly the edge relation, roots the sorted union
/// of the declared roots and the nodes without incoming edges.
pub open spec fn dag_ok(s: DagSpec, d: NameDag) -> bool {
    &&& d.nodes@.len() == s.nodes@.len()
    &&& forall|i: int|
        0 <= i < s.nodes@.len() ==> (#[trigger] d.nodes@[i]).name@ == s.nodes@[i].name@
            && d.nodes@[i].label@ == (match s.nodes@[i].label {
            Some(l) => l@,
            None => s.nodes@[i].name@,
        })
    &&& d.children@.len() == s.nodes@.len()
    &&& d.parents@.len() == s.nodes@.len()
    &&& forall|i: int, j: int|
        #![trigger graph::adj_view(d.children@)[i].contains(j as usize)]
        0 <= i < s.nodes@.len() && 0 <= j < s.nodes@.len() ==> (graph::adj_view(
            d.children@,
        )[i].contains(j as usize) <==> dag_edge(s, i, j))
    &&& forall|i: int, j: int|
        #![trigger graph::adj_view(d.parents@)[j].contains(i as usize)]
        0 <= i < s.nodes@.len() && 0 <= j < s.nodes@.len() ==> (graph::adj_view(
            d.parents@,
        )[j].contains(i as usize) <==> dag_edge(s, i, j))
    &&& forall|i: int, x: int, y: int|
        #![trigger d.children@[i]@[x], d.children@[i]@[y]]
        0 <= i < d.children@.len() && 0 <= x < y < d.children@[i]@.len() ==> d.children@[i]@[x]
            < d.children@[i]@[y]
    &&& forall|i: int, x: int, y: int|
        #![trigger d.parents@[i]@[x], d.parents@[i]@[y]]
        0 <= i < d.parents@.len() && 0 <= x < y < d.parents@[i]@.len() ==> d.parents@[i]@[x]
            < d.parents@[i]@[y]
    &&& norm::sorted_unique_strs(d.roots@)
    &&& forall|t: Seq<char>|
        #![trigger norm::contains_str(d.roots@, t)]
        norm::contains_str(d.roots@, t) <==> (norm::contains_str(s.roots@, t) || (some_named(
            s.nodes@,
            t,
        ) && !has_incoming(s, t)))
}

/// In a non-empty acyclic DAG with resolving edges, some node has no
/// incoming edge.
pub proof fn lemma_dag_has_source(s: DagSpec)
    requires
        valid_dag(s),
    ensures
        exists|i: int|
            0 <= i < s.nodes@.len() && !has_incoming(s, (#[trigger] s.nodes@[i]).name@),
{
    let m = choose|m: Seq<nat>| #[trigger] dag_measure_ok(s, m);
    let v = graph::seq_max_index(m);
    graph::lemma_seq_max_index(m);
    if has_incoming(s, s.nodes@[v].name@) {
        let e = choose|e: int|
            0 <= e < s.edges@.len() && (#[trigger] s.edges@[e]).1@ == s.nodes@[v].name@;
        assert(some_named(s.nodes@, s.edges@[e].0@));
        let j = choose|j: int| 0 <= j < s.nodes@.len() && (#[trigger] s.nodes@[j]).name@ == s.edges@[e].0@;
        assert(dag_edge(s, j, v));
        assert(m[v] < m[j]);
        assert(m[j] <= m[v]);
        assert(false);
    }
    assert(0 <= v < s.nodes@.len() && !has_incoming(s, s.nodes@[v].name@));
}

// ---------------------------------------------------------------- helpers

/// The position of the node with this name, if any.
pub fn find_named(nodes: &Vec<NameNode>, t: &String) -> (r: Option<usize>)
    ensures
        match r {
            Some(i) => 0 <= i < nodes@.len() && nodes@[i as int].name@ == t@,
            None => forall|i: int| 0 <= i < nodes@.len() ==> (#[trigger] nodes@[i]).name@ != t@,
        },
{
    let mut i: usize = 0;
    while i < nodes.len()
        invariant
            i <= nodes@.len(),
            forall|k: int| 0 <= k < i ==> (#[trigger] nodes@[k]).name@ != t@,
        decreases nodes@.len() - i,
    {
        if norm::string_eq(&nodes[i].name, t) {
            return Some(i);
        }
        i += 1;
    }
    None
}

impl DagSpec {
    /// Validate the DAG document and build its normalized form. Succeeds
    /// exactly on well-formed inputs; on failure the returned error names
    /// the violated check and real offending identifiers of the input
    /// (`dag_err_sound`).
    #[verifier::rlimit(100)]
    pub fn validate_and_build(&self) -> (r: Result<NameDag, ReportError>)
        ensures
            match r {
                Ok(d) => valid_dag(*self) && dag_ok(*self, d),
                Err(e) => !valid_dag(*self) && dag_err_sound(*self, e),
            },
    {
        let n: usize = self.nodes.len();
        // unique names, labels defaulted
        let mut nodes: Vec<NameNode> = Vec::new();
        let mut i: usize = 0;
        while i < n
            invariant
                n == self.nodes@.len(),
                i <= n,
                nodes@.len() == i,
                forall|k: int|
                    0 <= k < i ==> (#[trigger] nodes@[k]).name@ == self.nodes@[k].name@
                        && nodes@[k].label@ == (match self.nodes@[k].label {
                        Some(l) => l@,
                        None => self.nodes@[k].name@,
                    }),
                forall|k: int, l: int|
                    0 <= k < l < i ==> (#[trigger] self.nodes@[k]).name@ != (
                    #[trigger] self.nodes@[l]).name@,
            decreases n - i,
        {
            match find_named(&nodes, &self.nodes[i].name) {
                Some(k) => {
                    proof {
                        assert(nodes@[k as int].name@ == self.nodes@[k as int].name@);
                        assert(self.nodes@[k as int].name@ == self.nodes@[i as int].name@);
                    }
                    return Err(ReportError::DuplicateNodeName {
                        name: self.nodes[i].name.clone(),
                    });
                },
                None => {
                    proof {
                        assert forall|k: int, l: int|
                            0 <= k < l < i + 1 implies (#[trigger] self.nodes@[k]).name@ != (
                        #[trigger] self.nodes@[l]).name@ by {
                            if l == i {
                                assert(nodes@[k].name@ != self.nodes@[i as int].name@);
                                assert(nodes@[k].name@ == self.nodes@[k].name@);
                            }
                        }
                    }
                },
            }
            let label: String = match &self.nodes[i].label {
                Some(l) => l.clone(),
                None => self.nodes[i].name.clone(),
            };
            nodes.push(NameNode { name: self.nodes[i].name.clone(), label });
            i += 1;
        }
        if n == 0 {
            return Err(ReportError::NoNodes);
        }
        // edge endpoints must resolve
        let mut e: usize = 0;
        while e < self.edges.len()
            invariant
                n == self.nodes@.len(),
                nodes@.len() == n,
                forall|k: int| 0 <= k < n ==> (#[trigger] nodes@[k]).name@ == self.nodes@[k].name@,
                e <= self.edges@.len(),
                forall|e0: int|
                    0 <= e0 < e ==> some_named(self.nodes@, (#[trigger] self.edges@[e0]).0@)
                        && some_named(self.nodes@, self.edges@[e0].1@),
            decreases self.edges@.len() - e,
        {
            match find_named(&nodes, &self.edges[e].0) {
                Some(_) => {},
                None => {
                    proof {
                        if some_named(self.nodes@, self.edges@[e as int].0@) {
                            let k = choose|k: int|
                                0 <= k < self.nodes@.len() && (#[trigger] self.nodes@[k]).name@
                                    == self.edges@[e as int].0@;
                            assert(nodes@[k].name@ == self.edges@[e as int].0@);
                        }
                        assert(!some_named(self.nodes@, self.edges@[e as int].0@));
                    }
                    return Err(ReportError::EdgeUnknownNode { name: self.edges[e].0.clone() });
                },
            }
            match find_named(&nodes, &self.edges[e].1) {
                Some(_) => {},
                None => {
                    proof {
                        if some_named(self.nodes@, self.edges@[e as int].1@) {
                            let k = choose|k: int|
                                0 <= k < self.nodes@.len() && (#[trigger] self.nodes@[k]).name@
                                    == self.edges@[e as int].1@;
                            assert(nodes@[k].name@ == self.edges@[e as int].1@);
                        }
                        assert(!some_named(self.nodes@, self.edges@[e as int].1@));
                    }
                    return Err(ReportError::EdgeUnknownNode { name: self.edges[e].1.clone() });
                },
            }
            proof {
                let i0 = choose|i0: int|
                    0 <= i0 < nodes@.len() && (#[trigger] nodes@[i0]).name@ == self.edges@[
                        e as int
                    ].0@;
                assert(some_named(self.nodes@, self.edges@[e as int].0@));
                let i1 = choose|i1: int|
                    0 <= i1 < nodes@.len() && (#[trigger] nodes@[i1]).name@ == self.edges@[
                        e as int
                    ].1@;
                assert(some_named(self.nodes@, self.edges@[e as int].1@));
            }
            e += 1;
        }
        // declared roots must resolve
        let mut r0: usize = 0;
        while r0 < self.roots.len()
            invariant
                n == self.nodes@.len(),
                nodes@.len() == n,
                forall|k: int| 0 <= k < n ==> (#[trigger] nodes@[k]).name@ == self.nodes@[k].name@,
                r0 <= self.roots@.len(),
                forall|z: int| 0 <= z < r0 ==> some_named(self.nodes@, (#[trigger] self.roots@[z])@),
            decreases self.roots@.len() - r0,
        {
            match find_named(&nodes, &self.roots[r0]) {
                Some(_) => {
                    proof {
                        let k = choose|k: int|
                            0 <= k < nodes@.len() && (#[trigger] nodes@[k]).name@ == self.roots@[
                                r0 as int
                            ]@;
                        assert(some_named(self.nodes@, self.roots@[r0 as int]@));
                    }
                },
                None => {
                    proof {
                        if some_named(self.nodes@, self.roots@[r0 as int]@) {
                            let k = choose|k: int|
                                0 <= k < self.nodes@.len() && (#[trigger] self.nodes@[k]).name@
                                    == self.roots@[r0 as int]@;
                            assert(nodes@[k].name@ == self.roots@[r0 as int]@);
                        }
                        assert(!some_named(self.nodes@, self.roots@[r0 as int]@));
                    }
                    return Err(ReportError::UnknownRoot { name: self.roots[r0].clone() });
                },
            }
            r0 += 1;
        }
        // adjacency by index, from the edge list
        let children = build_dag_adj(self, &nodes, true);
        let parents = build_dag_adj(self, &nodes, false);
        // roots: declared union nodes without incoming edges
        let mut collected: Vec<String> = crate::ops::clone_string_vec(&self.roots);
        proof {
            assert forall|t: Seq<char>|
                norm::contains_str(collected@, t) <==> norm::contains_str(self.roots@, t) by {
                if norm::contains_str(collected@, t) {
                    let z = choose|z: int|
                        0 <= z < collected@.len() && (#[trigger] collected@[z])@ == t;
                    assert(self.roots@[z]@ == t);
                }
                if norm::contains_str(self.roots@, t) {
                    let z = choose|z: int|
                        0 <= z < self.roots@.len() && (#[trigger] self.roots@[z])@ == t;
                    assert(collected@[z]@ == t);
                }
            }
        }
        let mut i2: usize = 0;
        while i2 < n
            invariant
                n == self.nodes@.len(),
                nodes@.len() == n,
                forall|k: int| 0 <= k < n ==> (#[trigger] nodes@[k]).name@ == self.nodes@[k].name@,
                forall|k: int, l: int|
                    0 <= k < l < n ==> (#[trigger] self.nodes@[k]).name@ != (
                    #[trigger] self.nodes@[l]).name@,
                i2 <= n,
                forall|t: Seq<char>|
                    #![trigger norm::contains_str(collected@, t)]
                    norm::contains_str(collected@, t) <==> (norm::contains_str(self.roots@, t)
                        || exists|k: int|
                        0 <= k < i2 && (#[trigger] self.nodes@[k]).name@ == t && !has_incoming(
                            *self,
                            t,
                        )),
            decreases n - i2,
        {
            let ghost c_old = collected@;
            let mut has_in: bool = false;
            let mut e2: usize = 0;
            while e2 < self.edges.len()
                invariant
                    i2 < n == self.nodes@.len(),
                    nodes@.len() == n,
                    forall|k: int|
                        0 <= k < n ==> (#[trigger] nodes@[k]).name@ == self.nodes@[k].name@,
                    e2 <= self.edges@.len(),
                    has_in ==> has_incoming(*self, self.nodes@[i2 as int].name@),
                    !has_in ==> forall|e0: int|
                        0 <= e0 < e2 ==> (#[trigger] self.edges@[e0]).1@ != self.nodes@[
                            i2 as int
                        ].name@,
                decreases self.edges@.len() - e2,
            {
                if !has_in && norm::string_eq(&self.edges[e2].1, &nodes[i2].name) {
                    has_in = true;
                }
                e2 += 1;
            }
            if !has_in {
                proof {
                    norm::lemma_push_contains(collected@, nodes@[i2 as int].name);
                    if has_incoming(*self, self.nodes@[i2 as int].name@) {
                        let e0 = choose|e0: int|
                            0 <= e0 < self.edges@.len() && (#[trigger] self.edges@[e0]).1@
                                == self.nodes@[i2 as int].name@;
                    }
                    assert(!has_incoming(*self, self.nodes@[i2 as int].name@));
                }
                collected.push(nodes[i2].name.clone());
            }
            proof {
                assert forall|t: Seq<char>|
                    #![trigger norm::contains_str(collected@, t)]
                    norm::contains_str(collected@, t) <==> (norm::contains_str(self.roots@, t)
                        || exists|k: int|
                        0 <= k < i2 + 1 && (#[trigger] self.nodes@[k]).name@ == t && !has_incoming(
                            *self,
                            t,
                        )) by {
                    if norm::contains_str(collected@, t) && !norm::contains_str(c_old, t) {
                        let z = choose|z: int|
                            0 <= z < collected@.len() && (#[trigger] collected@[z])@ == t;
                        assert(z == c_old.len());
                        assert(t == self.nodes@[i2 as int].name@);
                    }
                    if norm::contains_str(c_old, t) {
                        if collected@.len() > c_old.len() {
                            let z = choose|z: int|
                                0 <= z < c_old.len() && (#[trigger] c_old[z])@ == t;
                            assert(collected@[z]@ == t);
                        }
                        if exists|k: int|
                            0 <= k < i2 && (#[trigger] self.nodes@[k]).name@ == t
                                && !has_incoming(*self, t) {
                            let k = choose|k: int|
                                0 <= k < i2 && (#[trigger] self.nodes@[k]).name@ == t
                                    && !has_incoming(*self, t);
                            assert(0 <= k < i2 + 1 && self.nodes@[k].name@ == t && !has_incoming(
                                *self,
                                t,
                            ));
                        }
                    }
                    if exists|k: int|
                        0 <= k < i2 + 1 && (#[trigger] self.nodes@[k]).name@ == t && !has_incoming(
                            *self,
                            t,
                        ) {
                        let k = choose|k: int|
                            0 <= k < i2 + 1 && (#[trigger] self.nodes@[k]).name@ == t
                                && !has_incoming(*self, t);
                        if k == i2 {
                            assert(collected@[collected@.len() - 1]@ == t);
                        }
                    }
                }
            }
            i2 += 1;
        }
        let roots = norm::normalize_names(&collected);
        if roots.len() == 0 {
            proof {
                if valid_dag(*self) {
                    lemma_dag_has_source(*self);
                    let i0 = choose|i0: int|
                        0 <= i0 < self.nodes@.len() && !has_incoming(
                            *self,
                            (#[trigger] self.nodes@[i0]).name@,
                        );
                    assert(norm::contains_str(collected@, self.nodes@[i0].name@));
                    assert(norm::contains_str(roots@, self.nodes@[i0].name@));
                }
                // the error is sound: no declared roots and every node has
                // an incoming edge, else the root list could not be empty
                if self.roots@.len() > 0 {
                    let t0 = self.roots@[0]@;
                    assert(norm::contains_str(self.roots@, t0));
                    assert(norm::contains_str(collected@, t0));
                    assert(norm::contains_str(roots@, t0));
                    let z = choose|z: int| 0 <= z < roots@.len() && (#[trigger] roots@[z])@ == t0;
                    assert(false);
                }
                assert(self.roots@.len() == 0);
                assert forall|i0: int|
                    0 <= i0 < self.nodes@.len() implies has_incoming(
                    *self,
                    (#[trigger] self.nodes@[i0]).name@,
                ) by {
                    if !has_incoming(*self, self.nodes@[i0].name@) {
                        assert(norm::contains_str(collected@, self.nodes@[i0].name@));
                        assert(norm::contains_str(roots@, self.nodes@[i0].name@));
                    }
                }
            }
            return Err(ReportError::EmptyRoots);
        }
        // cycle detection from the roots, then over every remaining node
        let mut roots_idx: Vec<usize> = Vec::new();
        let mut t: usize = 0;
        while t < roots.len()
            invariant
                n == self.nodes@.len(),
                nodes@.len() == n,
                children@.len() == n,
                forall|k: int| 0 <= k < n ==> (#[trigger] nodes@[k]).name@ == self.nodes@[k].name@,
                t <= roots@.len(),
                forall|x: int| 0 <= x < roots_idx@.len() ==> roots_idx@[x] < n,
                forall|z: int|
                    0 <= z < self.roots@.len() ==> some_named(
                        self.nodes@,
                        (#[trigger] self.roots@[z])@,
                    ),
                forall|tt: Seq<char>|
                    #![trigger norm::contains_str(roots@, tt)]
                    norm::contains_str(roots@, tt) <==> (norm::contains_str(self.roots@, tt)
                        || exists|k: int|
                        0 <= k < n && (#[trigger] self.nodes@[k]).name@ == tt && !has_incoming(
                            *self,
                            tt,
                        )),
            decreases roots@.len() - t,
        {
            match find_named(&nodes, &roots[t]) {
                Some(ix) => {
                    roots_idx.push(ix);
                },
                None => {
                    proof {
                        assert(norm::contains_str(roots@, roots@[t as int]@));
                        if norm::contains_str(self.roots@, roots@[t as int]@) {
                            let z = choose|z: int|
                                0 <= z < self.roots@.len() && (#[trigger] self.roots@[z])@
                                    == roots@[t as int]@;
                            assert(some_named(self.nodes@, roots@[t as int]@));
                            let k = choose|k: int|
                                0 <= k < self.nodes@.len() && (#[trigger] self.nodes@[k]).name@
                                    == roots@[t as int]@;
                            assert(nodes@[k].name@ == roots@[t as int]@);
                            assert(false);
                        } else {
                            let k = choose|k: int|
                                0 <= k < n && (#[trigger] self.nodes@[k]).name@ == roots@[
                                    t as int
                                ]@ && !has_incoming(*self, roots@[t as int]@);
                            assert(nodes@[k].name@ == roots@[t as int]@);
                            assert(false);
                        }
                    }
                    return Err(ReportError::UnknownRoot { name: roots[t].clone() });
                },
            }
            t += 1;
        }
        let ghost a = graph::adj_view(children@);
        proof {
            lemma_dag_acyclic_bridge(*self, nodes@, a);
        }
        match graph::find_cycle(&children, &roots_idx) {
            Ok(_) => {},
            Err(p) => {
                let mut path: Vec<String> = Vec::new();
                let mut x: usize = 0;
                while x < p.len()
                    invariant
                        x <= p@.len(),
                        n == self.nodes@.len(),
                        nodes@.len() == n,
                        children@.len() == n,
                        forall|k: int|
                            0 <= k < n ==> (#[trigger] nodes@[k]).name@ == self.nodes@[k].name@,
                        forall|k: int| 0 <= k < p@.len() ==> p@[k] < children@.len(),
                        path@.len() == x,
                        forall|k: int|
                            0 <= k < x ==> (#[trigger] path@[k])@ == self.nodes@[
                                p@[k] as int
                            ].name@,
                    decreases p@.len() - x,
                {
                    path.push(nodes[p[x]].name.clone());
                    x += 1;
                }
                proof {
                    let q = Seq::new(p@.len(), |k: int| p@[k] as int);
                    assert(dag_walk_named(*self, path@, q)) by {
                        assert(forall|k: int| 0 <= k < q.len() ==> q[k] == p@[k] as int);
                        assert forall|k: int|
                            0 <= k < q.len() - 1 implies dag_edge(
                            *self,
                            #[trigger] q[k],
                            q[k + 1],
                        ) by {
                            assert(a[p@[k] as int].contains(p@[k + 1]));
                            assert(q[k + 1] as usize == p@[k + 1]);
                            assert(graph::adj_view(children@)[q[k] as int].contains(
                                q[k + 1] as usize,
                            ));
                        }
                        let i0 = choose|i: int|
                            0 <= i < p@.len() - 1 && #[trigger] p@[i] == p@[p@.len() - 1];
                        assert(q[i0] == q[q.len() - 1]);
                        assert(0 <= i0 < q.len() - 1);
                    }
                    assert(dag_cycle_path_sound(*self, path@));
                }
                return Err(ReportError::Cycle { path });
            },
        }
        proof {
            assert forall|t2: Seq<char>|
                #![trigger norm::contains_str(roots@, t2)]
                norm::contains_str(roots@, t2) <==> (norm::contains_str(self.roots@, t2) || (
                some_named(self.nodes@, t2) && !has_incoming(*self, t2))) by {
                if norm::contains_str(roots@, t2) && !norm::contains_str(self.roots@, t2) {
                    let k = choose|k: int|
                        0 <= k < n && (#[trigger] self.nodes@[k]).name@ == t2 && !has_incoming(
                            *self,
                            t2,
                        );
                    assert(some_named(self.nodes@, t2));
                }
                if some_named(self.nodes@, t2) && !has_incoming(*self, t2) {
                    let k = choose|k: int|
                        0 <= k < self.nodes@.len() && (#[trigger] self.nodes@[k]).name@ == t2;
                }
            }
            assert(valid_dag(*self));
        }
        Ok(NameDag { nodes, children, parents, roots })
    }
}

/// Acyclicity of the edge list coincides with acyclicity of the child-index
/// adjacency.
proof fn lemma_dag_acyclic_bridge(s: DagSpec, built: Seq<NameNode>, a: Seq<Seq<usize>>)
    requires
        built.len() == s.nodes@.len(),
        a.len() == s.nodes@.len(),
        s.nodes@.len() <= usize::MAX,
        forall|i: int| 0 <= i < s.nodes@.len() ==> (#[trigger] built[i]).name@ == s.nodes@[i].name@,
        graph::wf_adj(a),
        forall|i: int, j: int|
            #![trigger a[i].contains(j as usize)]
            0 <= i < s.nodes@.len() && 0 <= j < s.nodes@.len() ==> (a[i].contains(j as usize)
                <==> dag_edge(s, i, j)),
    ensures
        dag_acyclic(s) <==> graph::acyclic(a),
{
    if dag_acyclic(s) {
        let m = choose|m: Seq<nat>| #[trigger] dag_measure_ok(s, m);
        assert(graph::respects_measure(a, m)) by {
            assert forall|v: int, jj: int|
                0 <= v < a.len() && 0 <= jj < a[v].len() implies m[#[trigger] a[v][jj] as int]
                < m[v] by {
                let cu = a[v][jj];
                let c = cu as int;
                assert(a[v].contains(cu));
                assert(cu < a.len());
                assert(cu == c as usize);
                assert(a[v].contains(c as usize));
                assert(dag_edge(s, v, c));
            }
        }
        assert(graph::acyclic(a));
    }
    if graph::acyclic(a) {
        let m = choose|m: Seq<nat>| graph::respects_measure(a, m);
        assert forall|i: int, j: int| #[trigger] dag_edge(s, i, j) implies m[j] < m[i] by {
            assert(a[i].contains(j as usize));
            let jj = choose|jj: int| 0 <= jj < a[i].len() && a[i][jj] == j as usize;
            assert(a[i][jj] as int == j);
            assert(m[a[i][jj] as int] < m[i]);
        }
        assert(dag_acyclic(s)) by {
            assert(dag_measure_ok(s, m));
        }
    }
}

/// The child (or, reversed, parent) index lists derived from the edge list.
fn build_dag_adj(s: &DagSpec, nodes: &Vec<NameNode>, forward: bool) -> (adj: Vec<Vec<usize>>)
    requires
        nodes@.len() == s.nodes@.len(),
        forall|k: int|
            0 <= k < s.nodes@.len() ==> (#[trigger] nodes@[k]).name@ == s.nodes@[k].name@,
        forall|k: int, l: int|
            0 <= k < l < s.nodes@.len() ==> (#[trigger] s.nodes@[k]).name@ != (
            #[trigger] s.nodes@[l]).name@,
        forall|e: int|
            0 <= e < s.edges@.len() ==> some_named(s.nodes@, (#[trigger] s.edges@[e]).0@)
                && some_named(s.nodes@, s.edges@[e].1@),
    ensures
        adj@.len() == s.nodes@.len(),
        graph::wf_adj(graph::adj_view(adj@)),
        forall|i: int, x: int, y: int|
            #![trigger adj@[i]@[x], adj@[i]@[y]]
            0 <= i < adj@.len() && 0 <= x < y < adj@[i]@.len() ==> adj@[i]@[x] < adj@[i]@[y],
        forward ==> forall|i: int, j: int|
            #![trigger graph::adj_view(adj@)[i].contains(j as usize)]
            0 <= i < s.nodes@.len() && 0 <= j < s.nodes@.len() ==> (graph::adj_view(
                adj@,
            )[i].contains(j as usize) <==> dag_edge(*s, i, j)),
        !forward ==> forall|i: int, j: int|
            #![trigger graph::adj_view(adj@)[j].contains(i as usize)]
            0 <= i < s.nodes@.len() && 0 <= j < s.nodes@.len() ==> (graph::adj_view(
                adj@,
            )[j].contains(i as usize) <==> dag_edge(*s, i, j)),
{
    let n: usize = nodes.len();
    let mut adj: Vec<Vec<usize>> = Vec::new();
    let mut i: usize = 0;
    while i < n
        invariant
            n == s.nodes@.len(),
            nodes@.len() == n,
            forall|k: int|
                0 <= k < s.nodes@.len() ==> (#[trigger] nodes@[k]).name@ == s.nodes@[k].name@,
            forall|k: int, l: int|
                0 <= k < l < s.nodes@.len() ==> (#[trigger] s.nodes@[k]).name@ != (
                #[trigger] s.nodes@[l]).name@,
            i <= n,
            adj@.len() == i,
            forall|i0: int, kk: int|
                #![trigger adj@[i0]@[kk]]
                0 <= i0 < i && 0 <= kk < adj@[i0]@.len() ==> adj@[i0]@[kk] < n,
            forall|i0: int, x: int, y: int|
                #![trigger adj@[i0]@[x], adj@[i0]@[y]]
                0 <= i0 < i && 0 <= x < y < adj@[i0]@.len() ==> adj@[i0]@[x] < adj@[i0]@[y],
            forward ==> forall|i0: int, j0: int|
                #![trigger adj@[i0]@.contains(j0 as usize)]
                0 <= i0 < i && 0 <= j0 < n ==> (adj@[i0]@.contains(j0 as usize) <==> dag_edge(
                    *s,
                    i0,
                    j0,
                )),
            !forward ==> forall|i0: int, j0: int|
                #![trigger adj@[i0]@.contains(j0 as usize)]
                0 <= i0 < i && 0 <= j0 < n ==> (adj@[i0]@.contains(j0 as usize) <==> dag_edge(
                    *s,
                    j0,
                    i0,
                )),
        decreases n - i,
    {
        let mut row: Vec<usize> = Vec::new();
        let mut j: usize = 0;
        while j < n
            invariant
                n == s.nodes@.len(),
                nodes@.len() == n,
                forall|k: int|
                    0 <= k < s.nodes@.len() ==> (#[trigger] nodes@[k]).name@ == s.nodes@[k].name@,
                forall|k: int, l: int|
                    0 <= k < l < s.nodes@.len() ==> (#[trigger] s.nodes@[k]).name@ != (
                    #[trigger] s.nodes@[l]).name@,
                i < n,
                j <= n,
                forall|t0: usize| row@.contains(t0) ==> t0 < j,
                forall|x: int, y: int|
                    0 <= x < y < row@.len() ==> #[trigger] row@[x] < #[trigger] row@[y],
                forward ==> forall|j0: int|
                    0 <= j0 < j ==> (row@.contains(j0 as usize) <==> dag_edge(*s, i as int, j0)),
                !forward ==> forall|j0: int|
                    0 <= j0 < j ==> (row@.contains(j0 as usize) <==> dag_edge(*s, j0, i as int)),
            decreases n - j,
        {
            let hit = if forward {
                edge_between(s, &nodes[i].name, &nodes[j].name)
            } else {
                edge_between(s, &nodes[j].name, &nodes[i].name)
            };
            proof {
                if forward {
                    assert(hit == dag_edge(*s, i as int, j as int));
                } else {
                    assert(hit == dag_edge(*s, j as int, i as int));
                }
            }
            if hit {
                proof {
                    norm::lemma_push_contains(row@, j);
                }
                let ghost row_old = row@;
                row.push(j);
                proof {
                    assert forall|x: int, y: int|
                        0 <= x < y < row@.len() implies #[trigger] row@[x] < #[trigger] row@[y] by {
                        if y == row@.len() - 1 {
                            assert(row@[x] == row_old[x]);
                            assert(row_old.contains(row_old[x]));
                            assert(row@[y] == j);
                        } else {
                            assert(row@[x] == row_old[x] && row@[y] == row_old[y]);
                        }
                    }
                }
            }
            j += 1;
        }
        proof {
            norm::lemma_push_contains(adj@, row);
        }
        adj.push(row);
        proof {
            assert(adj@[i as int]@ == row@);
            assert forall|i0: int, kk: int|
                #![trigger adj@[i0]@[kk]]
                0 <= i0 < i + 1 && 0 <= kk < adj@[i0]@.len() implies adj@[i0]@[kk] < n by {
                if i0 == i {
                    assert(row@.contains(row@[kk]));
                }
            }
            assert forall|i0: int, x: int, y: int|
                #![trigger adj@[i0]@[x], adj@[i0]@[y]]
                0 <= i0 < i + 1 && 0 <= x < y < adj@[i0]@.len() implies adj@[i0]@[x]
                < adj@[i0]@[y] by {
                if i0 == i {
                    assert(adj@[i0]@ == row@);
                }
            }
        }
        i += 1;
    }
    proof {
        assert forall|i0: int, j0: int|
            #![trigger graph::adj_view(adj@)[i0].contains(j0 as usize)]
            0 <= i0 < n && 0 <= j0 < n implies (graph::adj_view(adj@)[i0].contains(j0 as usize)
            == adj@[i0]@.contains(j0 as usize)) by {
            assert(graph::adj_view(adj@)[i0] == adj@[i0]@);
        }
        assert forall|i0: int, kk: int|
            0 <= i0 < graph::adj_view(adj@).len() && 0 <= kk < graph::adj_view(adj@)[i0].len()
            implies #[trigger] graph::adj_view(adj@)[i0][kk] < graph::adj_view(adj@).len() by {
            assert(graph::adj_view(adj@)[i0] == adj@[i0]@);
        }
    }
    adj
}

/// Whether the edge list holds an edge between these two names, with the
/// edge-existence fact phrased through node indices.
fn edge_between(s: &DagSpec, src: &String, dst: &String) -> (r: bool)
    ensures
        r == exists|e: int|
            0 <= e < s.edges@.len() && (#[trigger] s.edges@[e]).0@ == src@ && s.edges@[e].1@
                == dst@,
{
    let mut e: usize = 0;
    while e < self_edges_len(s)
        invariant
            e <= s.edges@.len(),
            forall|e0: int|
                0 <= e0 < e ==> !((#[trigger] s.edges@[e0]).0@ == src@ && s.edges@[e0].1@ == dst@),
        decreases s.edges@.len() - e,
    {
        if norm::string_eq(&s.edges[e].0, src) && norm::string_eq(&s.edges[e].1, dst) {
            return true;
        }
        e += 1;
    }
    false
}

fn self_edges_len(s: &DagSpec) -> (r: usize)
    ensures
        r == s.edges@.len(),
{
    s.edges.len()
}


/// For a valid DAG the root set (declared union parentless) is non-empty.
pub proof fn lemma_dag_roots_nonempty(s: DagSpec, d: NameDag)
    requires
        valid_dag(s),
        dag_ok(s, d),
    ensures
        d.roots@.len() > 0,
{
    lemma_dag_has_source(s);
    let i = choose|i: int|
        0 <= i < s.nodes@.len() && !has_incoming(s, (#[trigger] s.nodes@[i]).name@);
    assert(some_named(s.nodes@, s.nodes@[i].name@));
    assert(norm::contains_str(d.roots@, s.nodes@[i].name@));
}

} // verus!
