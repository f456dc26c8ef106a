//! The name-to-operators mapping: each group assigns operator addresses to
//! a node of the name DAG. Groups naming the same node are merged; group
//! names must exist in the DAG.

use vstd::prelude::*;
use vstd::pervasive::VecAdditionalExecFns;
use crate::addr::Addr;
use crate::dag::{NameDag, find_named};
use crate::errors::ReportError;
use crate::norm;

verus! {

/// The raw mapping document: a list of groups.
#[derive(Debug)]
pub struct OpsSpec {
    pub groups: Vec<NameGroupSpec>,
}

/// One group: a node name and the operators it owns.
#[derive(Debug)]
pub struct NameGroupSpec {
    pub name: String,
    pub operators: Vec<OperatorRefSpec>,
}

/// An operator reference; only explicit addresses are supported.
#[derive(Debug)]
pub enum OperatorRefSpec {
    Explicit { addr: Vec<u32> },
}

/// The merged operator set of one name.
#[derive(Debug)]
pub struct NameOperators {
    pub name: String,
    pub operators: Vec<Addr>,
}

pub open spec fn ref_addr(r: OperatorRefSpec) -> Seq<u32> {
    match r {
        OperatorRefSpec::Explicit { addr } => addr@,
    }
}

/// Group `g` claims address `a` for the name `nm`.
pub open spec fn group_claims(groups: Seq<NameGroupSpec>, nm: Seq<char>, a: Seq<u32>) -> bool {
    exists|g: int, o: int|
        #![trigger groups[g].operators@[o]]
        0 <= g < groups.len() && 0 <= o < groups[g].operators@.len() && groups[g].name@ == nm
            && ref_addr(groups[g].operators@[o]) == a
}

/// Some group uses this name.
pub open spec fn some_group_named(groups: Seq<NameGroupSpec>, nm: Seq<char>) -> bool {
    exists|g: int| 0 <= g < groups.len() && (#[trigger] groups[g]).name@ == nm
}

/// Some output entry uses this name.
pub open spec fn some_entry_named(out: Seq<NameOperators>, nm: Seq<char>) -> bool {
    exists|e: int| 0 <= e < out.len() && (#[trigger] out[e]).name@ == nm
}

/// Some DAG node carries this name.
pub open spec fn dag_has_name(dag: NameDag, nm: Seq<char>) -> bool {
    exists|i: int| 0 <= i < dag.nodes@.len() && (#[trigger] dag.nodes@[i]).name@ == nm
}

/// Every group names a DAG node.
pub open spec fn groups_known(s: OpsSpec, dag: NameDag) -> bool {
    forall|g: int| 0 <= g < s.groups@.len() ==> dag_has_name(dag, (#[trigger] s.groups@[g]).name@)
}

/// The merged mapping reflects the groups: entry names are distinct, there
/// is one for each group name, and each entry holds exactly the addresses
/// its name's groups claim, sorted and deduplicated.
pub open spec fn groups_out_ok(s: OpsSpec, out: Seq<NameOperators>) -> bool {
    &&& forall|e: int, f: int|
        0 <= e < f < out.len() ==> (#[trigger] out[e]).name@ != (#[trigger] out[f]).name@
    &&& forall|nm: Seq<char>|
        #![trigger some_entry_named(out, nm)]
        some_entry_named(out, nm) <==> some_group_named(s.groups@, nm)
    &&& forall|e: int| 0 <= e < out.len() ==> norm::sorted_unique_addrs((#[trigger] out[e]).operators@)
    &&& forall|e: int, a: Seq<u32>|
        #![trigger norm::contains_addr(out[e].operators@, a)]
        0 <= e < out.len() ==> (norm::contains_addr(out[e].operators@, a) <==> group_claims(
            s.groups@,
            out[e].name@,
            a,
        ))
}

fn find_entry(out: &Vec<NameOperators>, nm: &String) -> (r: Option<usize>)
    ensures
        match r {
            Some(e) => 0 <= e < out@.len() && out@[e as int].name@ == nm@,
            None => forall|e: int| 0 <= e < out@.len() ==> (#[trigger] out@[e]).name@ != nm@,
        },
{
    let mut e: usize = 0;
    while e < out.len()
        invariant
            e <= out@.len(),
            forall|k: int| 0 <= k < e ==> (#[trigger] out@[k]).name@ != nm@,
        decreases out@.len() - e,
    {
        if norm::string_eq(&out[e].name, nm) {
            return Some(e);
        }
        e += 1;
    }
    None
}

impl OpsSpec {
    /// Validate the groups against the DAG and merge them into one sorted
    /// operator set per name. Succeeds exactly when every group names a
    /// DAG node; on failure the error names the unknown group name.
    #[verifier::rlimit(100)]
    pub fn validate_and_build(&self, dag: &NameDag) -> (r: Result<Vec<NameOperators>, ReportError>)
        ensures
            match r {
                Ok(out) => groups_known(*self, *dag) && groups_out_ok(*self, out@),
                Err(e) => !groups_known(*self, *dag) && match e {
                    ReportError::UnknownGroupName { name } => some_group_named(
                        self.groups@,
                        name@,
                    ) && !dag_has_name(*dag, name@),
                    _ => false,
                },
            },
    {
        let mut out: Vec<NameOperators> = Vec::new();
        let mut g: usize = 0;
        while g < self.groups.len()
            invariant
                g <= self.groups@.len(),
                forall|g0: int|
                    0 <= g0 < g ==> dag_has_name(*dag, (#[trigger] self.groups@[g0]).name@),
                forall|e: int, f: int|
                    0 <= e < f < out@.len() ==> (#[trigger] out@[e]).name@ != (
                    #[trigger] out@[f]).name@,
                forall|nm: Seq<char>|
                    #![trigger some_entry_named(out@, nm)]
                    some_entry_named(out@, nm) <==> some_group_named(self.groups@.take(g as int), nm),
                forall|e: int|
                    0 <= e < out@.len() ==> norm::sorted_unique_addrs(
                        (#[trigger] out@[e]).operators@,
                    ),
                forall|e: int, a: Seq<u32>|
                    #![trigger norm::contains_addr(out@[e].operators@, a)]
                    0 <= e < out@.len() ==> (norm::contains_addr(out@[e].operators@, a)
                        <==> group_claims(self.groups@.take(g as int), out@[e].name@, a)),
            decreases self.groups@.len() - g,
        {
            let grp = &self.groups[g];
            match find_named(&dag.nodes, &grp.name) {
                Some(i) => {
                    proof {
                        assert(dag.nodes@[i as int].name@ == self.groups@[g as int].name@);
                        assert(dag_has_name(*dag, self.groups@[g as int].name@));
                    }
                },
                None => {
                    proof {
                        if dag_has_name(*dag, self.groups@[g as int].name@) {
                            let i = choose|i: int|
                                0 <= i < dag.nodes@.len() && (#[trigger] dag.nodes@[i]).name@
                                    == self.groups@[g as int].name@;
                            assert(false);
                        }
                        assert(!groups_known(*self, *dag));
                        assert(self.groups@[g as int].name@ == grp.name@);
                        assert(some_group_named(self.groups@, grp.name@));
                    }
                    return Err(ReportError::UnknownGroupName { name: grp.name.clone() });
                },
            }
            // the addresses this group claims
            let mut claimed: Vec<Addr> = Vec::new();
            let mut o: usize = 0;
            while o < grp.operators.len()
                invariant
                    g < self.groups@.len(),
                    grp == self.groups@[g as int],
                    o <= grp.operators@.len(),
                    forall|a: Seq<u32>|
                        norm::contains_addr(claimed@, a) <==> exists|o0: int|
                            0 <= o0 < o && ref_addr(#[trigger] grp.operators@[o0]) == a,
                decreases grp.operators@.len() - o,
            {
                let ghost c_old = claimed@;
                let addr = match &grp.operators[o] {
                    OperatorRefSpec::Explicit { addr } => Addr::new(addr.clone()).dup(),
                };
                proof {
                    assert(addr@ =~= ref_addr(grp.operators@[o as int])) by {
                        assert(forall|z: int|
                            0 <= z < addr@.len() ==> addr@[z] == ref_addr(
                                grp.operators@[o as int],
                            )[z]);
                    }
                    norm::lemma_push_contains(claimed@, addr);
                }
                claimed.push(addr);
                proof {
                    assert forall|a: Seq<u32>|
                        norm::contains_addr(claimed@, a) <==> exists|o0: int|
                            0 <= o0 < o + 1 && ref_addr(#[trigger] grp.operators@[o0]) == a by {
                        if norm::contains_addr(claimed@, a) && !norm::contains_addr(c_old, a) {
                            let z = choose|z: int|
                                0 <= z < claimed@.len() && (#[trigger] claimed@[z])@ == a;
                            assert(z == c_old.len());
                            assert(ref_addr(grp.operators@[o as int]) == a);
                        }
                        if norm::contains_addr(c_old, a) {
                            let z = choose|z: int|
                                0 <= z < c_old.len() && (#[trigger] c_old[z])@ == a;
                            assert(claimed@[z]@ == a);
                            let o0 = choose|o0: int|
                                0 <= o0 < o && ref_addr(#[trigger] grp.operators@[o0]) == a;
                        }
                        if exists|o0: int|
                            0 <= o0 < o + 1 && ref_addr(#[trigger] grp.operators@[o0]) == a {
                            let o0 = choose|o0: int|
                                0 <= o0 < o + 1 && ref_addr(#[trigger] grp.operators@[o0]) == a;
                            if o0 < o {
                                assert(norm::contains_addr(c_old, a));
                                let z = choose|z: int|
                                    0 <= z < c_old.len() && (#[trigger] c_old[z])@ == a;
                                assert(claimed@[z]@ == a);
                            } else {
                                assert(claimed@[claimed@.len() - 1]@ == a);
                            }
                        }
                    }
                }
                o += 1;
            }
            let ghost out_old = out@;
            let ghost gname = self.groups@[g as int].name@;
            match find_entry(&out, &grp.name) {
                Some(e) => {
                    // merge into the existing entry
                    let mut combined: Vec<Addr> = Vec::new();
                    let mut x: usize = 0;
                    while x < out[e].operators.len()
                        invariant
                            e < out@.len(),
                            x <= out@[e as int].operators@.len(),
                            combined@.len() == x,
                            forall|z: int|
                                0 <= z < x ==> (#[trigger] combined@[z])@ == out@[
                                    e as int
                                ].operators@[z]@,
                        decreases out@[e as int].operators@.len() - x,
                    {
                        let d = out[e].operators[x].dup();
                        combined.push(d);
                        x += 1;
                    }
                    let mut y: usize = 0;
                    while y < claimed.len()
                        invariant
                            e < out@.len(),
                            y <= claimed@.len(),
                            combined@.len() == out@[e as int].operators@.len() + y,
                            forall|z: int|
                                0 <= z < out@[e as int].operators@.len() ==> (
                                #[trigger] combined@[z])@ == out@[e as int].operators@[z]@,
                            forall|z: int|
                                0 <= z < y ==> combined@[out@[e as int].operators@.len() + z]@
                                    == (#[trigger] claimed@[z])@,
                        decreases claimed@.len() - y,
                    {
                        let d = claimed[y].dup();
                        combined.push(d);
                        y += 1;
                    }
                    let merged = norm::normalize_operators(&combined);
                    proof {
                        assert forall|a: Seq<u32>|
                            norm::contains_addr(combined@, a) <==> (norm::contains_addr(
                                out_old[e as int].operators@,
                                a,
                            ) || norm::contains_addr(claimed@, a)) by {
                            let ol = out_old[e as int].operators@.len() as int;
                            if norm::contains_addr(combined@, a) {
                                let z = choose|z: int|
                                    0 <= z < combined@.len() && (#[trigger] combined@[z])@ == a;
                                if z < ol {
                                    assert(out_old[e as int].operators@[z]@ == a);
                                } else {
                                    assert(claimed@[z - ol]@ == a);
                                }
                            }
                            if norm::contains_addr(out_old[e as int].operators@, a) {
                                let z = choose|z: int|
                                    0 <= z < out_old[e as int].operators@.len() && (
                                    #[trigger] out_old[e as int].operators@[z])@ == a;
                                assert(combined@[z]@ == a);
                            }
                            if norm::contains_addr(claimed@, a) {
                                let z = choose|z: int|
                                    0 <= z < claimed@.len() && (#[trigger] claimed@[z])@ == a;
                                assert(combined@[ol + z]@ == a);
                            }
                        }
                    }
                    out.set(e, NameOperators { name: grp.name.clone(), operators: merged });
                    proof {
                        assert(forall|x: int|
                            0 <= x < out_old.len() && x != e ==> out@[x] == out_old[x]);
                        assert(out@[e as int].name@ == gname);
                        assert(out_old[e as int].name@ == gname);
                        assert(some_entry_named(out@, gname));
                    }
                },
                None => {
                    let merged = norm::normalize_operators(&claimed);
                    out.push(NameOperators { name: grp.name.clone(), operators: merged });
                    proof {
                        assert(forall|x: int| 0 <= x < out_old.len() ==> out@[x] == out_old[x]);
                        assert(out@[out@.len() - 1].name@ == gname);
                        assert(some_entry_named(out@, gname));
                    }
                },
            }
            proof {
                assert(forall|x: int|
                    0 <= x < out_old.len() ==> (#[trigger] out@[x]).name@ == out_old[x].name@);
                assert forall|nm: Seq<char>|
                    #![trigger some_entry_named(out@, nm)]
                    some_entry_named(out@, nm) <==> some_group_named(
                    self.groups@.take(g + 1),
                    nm,
                ) by {
                    if some_entry_named(out@, nm) {
                        let e0 = choose|e0: int|
                            0 <= e0 < out@.len() && (#[trigger] out@[e0]).name@ == nm;
                        if e0 < out_old.len() {
                            assert(out@[e0].name@ == out_old[e0].name@);
                            assert(out_old[e0].name@ == nm);
                            assert(some_entry_named(out_old, nm));
                            let g0 = choose|g0: int|
                                0 <= g0 < g && (#[trigger] self.groups@.take(g as int)[g0]).name@
                                    == nm;
                            assert(self.groups@.take(g + 1)[g0].name@ == nm);
                            assert(some_group_named(self.groups@.take(g + 1), nm));
                        } else {
                            assert(nm == gname);
                            assert(self.groups@.take(g + 1)[g as int].name@ == nm);
                            assert(some_group_named(self.groups@.take(g + 1), nm));
                        }
                    }
                    if some_group_named(self.groups@.take(g + 1), nm) {
                        let g0 = choose|g0: int|
                            0 <= g0 < g + 1 && (#[trigger] self.groups@.take(g + 1)[g0]).name@
                                == nm;
                        if g0 < g {
                            assert(self.groups@.take(g as int)[g0].name@ == nm);
                            assert(some_group_named(self.groups@.take(g as int), nm));
                            assert(some_entry_named(out_old, nm));
                            let e0 = choose|e0: int|
                                0 <= e0 < out_old.len() && (#[trigger] out_old[e0]).name@ == nm;
                            assert(out@[e0].name@ == out_old[e0].name@);
                            assert(out@[e0].name@ == nm);
                            assert(some_entry_named(out@, nm));
                        } else {
                            assert(nm == gname);
                            assert(some_entry_named(out@, nm));
                        }
                    }
                }
                assert forall|e: int, f: int|
                    0 <= e < f < out@.len() implies (#[trigger] out@[e]).name@ != (
                #[trigger] out@[f]).name@ by {
                    if f < out_old.len() {
                        assert(out@[e].name@ == out_old[e].name@);
                        assert(out@[f].name@ == out_old[f].name@);
                    } else {
                        // the pushed entry is new: no old entry was named gname
                        assert(out@[f].name@ == gname);
                        assert(out@[e].name@ == out_old[e].name@);
                        if out_old[e].name@ == gname {
                            assert(some_entry_named(out_old, gname));
                        }
                    }
                }
                assert forall|e: int, a: Seq<u32>|
                    #![trigger norm::contains_addr(out@[e].operators@, a)]
                    0 <= e < out@.len() implies (norm::contains_addr(out@[e].operators@, a)
                    <==> group_claims(self.groups@.take(g + 1), out@[e].name@, a)) by {
                    if out@[e].name@ == gname {
                        // this entry absorbed the group's claims
                        assert(norm::contains_addr(out@[e].operators@, a) <==> (group_claims(
                            self.groups@.take(g as int),
                            gname,
                            a,
                        ) || norm::contains_addr(claimed@, a))) by {
                            if e < out_old.len() && out_old[e].name@ == gname {
                                assert(norm::contains_addr(out_old[e].operators@, a)
                                    <==> group_claims(self.groups@.take(g as int), gname, a));
                            } else {
                                if group_claims(self.groups@.take(g as int), gname, a) {
                                    let (g0, o0): (int, int) = choose|g0: int, o0: int|
                                        #![trigger self.groups@.take(g as int)[g0].operators@[o0]]
                                        0 <= g0 < g && 0 <= o0 < self.groups@.take(
                                            g as int,
                                        )[g0].operators@.len() && self.groups@.take(
                                            g as int,
                                        )[g0].name@ == gname && ref_addr(
                                            self.groups@.take(g as int)[g0].operators@[o0],
                                        ) == a;
                                    assert(some_entry_named(out_old, gname));
                                    let e1 = choose|e1: int|
                                        0 <= e1 < out_old.len() && (#[trigger] out_old[e1]).name@
                                            == gname;
                                }
                            }
                        }
                        assert forall|a2: Seq<u32>|
                            group_claims(self.groups@.take(g + 1), gname, a2) <==> (group_claims(
                            self.groups@.take(g as int),
                            gname,
                            a2,
                        ) || norm::contains_addr(claimed@, a2)) by {
                            if group_claims(self.groups@.take(g + 1), gname, a2) {
                                let (g0, o0): (int, int) = choose|g0: int, o0: int|
                                    #![trigger self.groups@.take(g + 1)[g0].operators@[o0]]
                                    0 <= g0 < g + 1 && 0 <= o0 < self.groups@.take(
                                        g + 1,
                                    )[g0].operators@.len() && self.groups@.take(g + 1)[g0].name@
                                        == gname && ref_addr(
                                        self.groups@.take(g + 1)[g0].operators@[o0],
                                    ) == a2;
                                if g0 < g {
                                    assert(self.groups@.take(g as int)[g0]
                                        == self.groups@.take(g + 1)[g0]);
                                    assert(group_claims(self.groups@.take(g as int), gname, a2));
                                } else {
                                    assert(self.groups@.take(g + 1)[g0] == self.groups@[g as int]);
                                    assert(ref_addr(grp.operators@[o0]) == a2);
                                    assert(norm::contains_addr(claimed@, a2));
                                }
                            }
                            if group_claims(self.groups@.take(g as int), gname, a2) {
                                let (g0, o0): (int, int) = choose|g0: int, o0: int|
                                    #![trigger self.groups@.take(g as int)[g0].operators@[o0]]
                                    0 <= g0 < g && 0 <= o0 < self.groups@.take(
                                        g as int,
                                    )[g0].operators@.len() && self.groups@.take(
                                        g as int,
                                    )[g0].name@ == gname && ref_addr(
                                        self.groups@.take(g as int)[g0].operators@[o0],
                                    ) == a2;
                                assert(self.groups@.take(g + 1)[g0] == self.groups@.take(
                                    g as int,
                                )[g0]);
                                assert(self.groups@.take(g + 1)[g0].operators@[o0]
                                    == self.groups@.take(g as int)[g0].operators@[o0]);
                                assert(group_claims(self.groups@.take(g + 1), gname, a2));
                            }
                            if norm::contains_addr(claimed@, a2) {
                                let o0 = choose|o0: int|
                                    0 <= o0 < grp.operators@.len() && ref_addr(
                                        #[trigger] grp.operators@[o0],
                                    ) == a2;
                                assert(self.groups@.take(g + 1)[g as int] == self.groups@[
                                    g as int
                                ]);
                                assert(ref_addr(self.groups@.take(g + 1)[g as int].operators@[o0])
                                    == a2);
                                assert(group_claims(self.groups@.take(g + 1), gname, a2));
                            }
                        }
                    } else {
                        // untouched entry: same contents, same claims
                        assert(e < out_old.len() && out@[e] == out_old[e]);
                        assert forall|a2: Seq<u32>|
                            group_claims(self.groups@.take(g + 1), out@[e].name@, a2)
                                <==> group_claims(
                                self.groups@.take(g as int),
                                out@[e].name@,
                                a2,
                            ) by {
                            if group_claims(self.groups@.take(g + 1), out@[e].name@, a2) {
                                let (g0, o0): (int, int) = choose|g0: int, o0: int|
                                    #![trigger self.groups@.take(g + 1)[g0].operators@[o0]]
                                    0 <= g0 < g + 1 && 0 <= o0 < self.groups@.take(
                                        g + 1,
                                    )[g0].operators@.len() && self.groups@.take(g + 1)[g0].name@
                                        == out@[e].name@ && ref_addr(
                                        self.groups@.take(g + 1)[g0].operators@[o0],
                                    ) == a2;
                                assert(g0 < g);
                                assert(self.groups@.take(g as int)[g0] == self.groups@.take(
                                    g + 1,
                                )[g0]);
                                assert(group_claims(
                                    self.groups@.take(g as int),
                                    out@[e].name@,
                                    a2,
                                ));
                            }
                            if group_claims(self.groups@.take(g as int), out@[e].name@, a2) {
                                let (g0, o0): (int, int) = choose|g0: int, o0: int|
                                    #![trigger self.groups@.take(g as int)[g0].operators@[o0]]
                                    0 <= g0 < g && 0 <= o0 < self.groups@.take(
                                        g as int,
                                    )[g0].operators@.len() && self.groups@.take(
                                        g as int,
                                    )[g0].name@ == out@[e].name@ && ref_addr(
                                        self.groups@.take(g as int)[g0].operators@[o0],
                                    ) == a2;
                                assert(self.groups@.take(g + 1)[g0] == self.groups@.take(
                                    g as int,
                                )[g0]);
                                assert(self.groups@.take(g + 1)[g0].operators@[o0]
                                    == self.groups@.take(g as int)[g0].operators@[o0]);
                                assert(group_claims(self.groups@.take(g + 1), out@[e].name@, a2));
                            }
                        }
                    }
                }
            }
            g += 1;
        }
        proof {
            assert(self.groups@.take(self.groups@.len() as int) =~= self.groups@);
        }
        Ok(out)
    }
}

} // verus!
