//! Pipeline glue: turn a validated flat topology into the name-keyed form
//! the aggregator consumes, naming each node by its decimal id.

use vstd::prelude::*;
use vstd::string::StringExecFns;
use crate::norm;
use crate::ops::{NodeSpec, ValidatedOps, FingerprintOwner, clone_string_vec};
use crate::strs::{digit_char, digits_val, u32_digits, u32_to_string};
use crate::view::{NamedNode, FpNameEntry};

verus! {

/// Reading the decimal digits back gives the number: decimal rendering is
/// injective.
proof fn lemma_digits_roundtrip(n: nat)
    ensures
        digits_val(u32_digits(n)) == n,
    decreases n,
{
    if n < 10 {
        let s = u32_digits(n);
        assert(s.len() == 1);
        assert(s.drop_last() =~= Seq::<char>::empty());
        assert(s.last() == digit_char(n));
        assert(crate::strs::digit_val(digit_char(n)) == n);
        assert(digits_val(s) == digits_val(s.drop_last()) * 10 + crate::strs::digit_val(s.last()));
        assert(digits_val(s.drop_last()) == 0);
    } else {
        lemma_digits_roundtrip(n / 10);
        let s = u32_digits(n);
        assert(s.drop_last() =~= u32_digits(n / 10));
        assert(s.last() == digit_char(n % 10));
        assert(crate::strs::digit_val(digit_char(n % 10)) == n % 10);
        assert(digits_val(s) == digits_val(s.drop_last()) * 10 + crate::strs::digit_val(s.last()));
        assert(digits_val(s) == (n / 10) * 10 + n % 10);
        assert((n / 10) * 10 + n % 10 == n);
    }
}

/// One converted node: the decimal id as its name, parents rendered and
/// sorted, the other fields carried over.
pub open spec fn named_of(nd: NodeSpec, out: NamedNode) -> bool {
    &&& out.name@ == u32_digits(nd.id as nat)
    &&& out.label@ == nd.label@
    &&& out.block@ == nd.block@
    &&& crate::ops::opt_str_view(out.fingerprint) == crate::ops::opt_str_view(nd.fingerprint)
    &&& out.tags@.len() == nd.tags@.len()
    &&& (forall|x: int| 0 <= x < nd.tags@.len() ==> (#[trigger] out.tags@[x])@ == nd.tags@[x]@)
    &&& norm::sorted_unique_strs(out.parents@)
    &&& (forall|t: Seq<char>|
        #![trigger norm::contains_str(out.parents@, t)]
        norm::contains_str(out.parents@, t) <==> exists|k: int|
            0 <= k < nd.parents@.len() && u32_digits((#[trigger] nd.parents@[k]) as nat) == t)
    &&& out.operators@.len() == nd.operators@.len()
    &&& (forall|x: int|
        0 <= x < nd.operators@.len() ==> (#[trigger] out.operators@[x])@ == nd.operators@[x]@)
}

/// Convert the validated nodes into the aggregator's name-keyed form.
pub fn nodes_by_name(v: &ValidatedOps) -> (out: Vec<NamedNode>)
    ensures
        out@.len() == v.nodes@.len(),
        forall|i: int| 0 <= i < v.nodes@.len() ==> named_of(v.nodes@[i], #[trigger] out@[i]),
{
    let mut out: Vec<NamedNode> = Vec::new();
    let mut i: usize = 0;
    while i < v.nodes.len()
        invariant
            i <= v.nodes@.len(),
            out@.len() == i,
            forall|k: int| 0 <= k < i ==> named_of(v.nodes@[k], #[trigger] out@[k]),
        decreases v.nodes@.len() - i,
    {
        let nd = &v.nodes[i];
        // render the parent ids and sort the names
        let mut pnames: Vec<String> = Vec::new();
        let mut k: usize = 0;
        while k < nd.parents.len()
            invariant
                i < v.nodes@.len(),
                nd == v.nodes@[i as int],
                k <= nd.parents@.len(),
                pnames@.len() == k,
                forall|z: int|
                    0 <= z < k ==> (#[trigger] pnames@[z])@ == u32_digits(
                        nd.parents@[z] as nat,
                    ),
            decreases nd.parents@.len() - k,
        {
            pnames.push(u32_to_string(nd.parents[k]));
            k += 1;
        }
        let parents = norm::normalize_names(&pnames);
        proof {
            norm::lemma_normalize_strs(pnames@);
            assert forall|t: Seq<char>|
                #![trigger norm::contains_str(parents@, t)]
                norm::contains_str(parents@, t) <==> exists|z: int|
                    0 <= z < nd.parents@.len() && u32_digits(
                        (#[trigger] nd.parents@[z]) as nat,
                    ) == t by {
                if norm::contains_str(parents@, t) {
                    assert(norm::contains_str(pnames@, t));
                    let z = choose|z: int| 0 <= z < pnames@.len() && (#[trigger] pnames@[z])@ == t;
                    assert(u32_digits(nd.parents@[z] as nat) == t);
                }
                if exists|z: int|
                    0 <= z < nd.parents@.len() && u32_digits((#[trigger] nd.parents@[z]) as nat)
                        == t {
                    let z = choose|z: int|
                        0 <= z < nd.parents@.len() && u32_digits(
                            (#[trigger] nd.parents@[z]) as nat,
                        ) == t;
                    assert(pnames@[z]@ == t);
                    assert(norm::contains_str(pnames@, t));
                    assert(norm::contains_str(parents@, t));
                }
            }
        }
        let mut operators: Vec<crate::addr::Addr> = Vec::new();
        let mut z: usize = 0;
        while z < nd.operators.len()
            invariant
                i < v.nodes@.len(),
                nd == v.nodes@[i as int],
                z <= nd.operators@.len(),
                operators@.len() == z,
                forall|x: int|
                    0 <= x < z ==> (#[trigger] operators@[x])@ == nd.operators@[x]@,
            decreases nd.operators@.len() - z,
        {
            operators.push(nd.operators[z].dup());
            z += 1;
        }
        let named = NamedNode {
            name: u32_to_string(nd.id),
            label: nd.label.clone(),
            block: nd.block.clone(),
            fingerprint: match &nd.fingerprint {
                Some(f) => Some(f.clone()),
                None => None,
            },
            tags: clone_string_vec(&nd.tags),
            parents,
            operators,
        };
        out.push(named);
        proof {
            assert(forall|k0: int| 0 <= k0 < i ==> out@[k0] == out@.drop_last()[k0]);
        }
        i += 1;
    }
    out
}

/// Convert the fingerprint map, naming the owning node by its decimal id.
pub fn fp_map_by_name(map: &Vec<FingerprintOwner>) -> (out: Vec<FpNameEntry>)
    ensures
        out@.len() == map@.len(),
        forall|e: int|
            0 <= e < map@.len() ==> (#[trigger] out@[e]).fingerprint@ == map@[e].fingerprint@
                && out@[e].node@ == u32_digits(map@[e].node as nat),
{
    let mut out: Vec<FpNameEntry> = Vec::new();
    let mut e: usize = 0;
    while e < map.len()
        invariant
            e <= map@.len(),
            out@.len() == e,
            forall|k: int|
                0 <= k < e ==> (#[trigger] out@[k]).fingerprint@ == map@[k].fingerprint@
                    && out@[k].node@ == u32_digits(map@[k].node as nat),
        decreases map@.len() - e,
    {
        out.push(FpNameEntry {
            fingerprint: map[e].fingerprint.clone(),
            node: u32_to_string(map[e].node),
        });
        e += 1;
    }
    out
}


/// The name-keyed form of a valid topology is itself well-formed: names are
/// unique, parent names resolve, and the name graph is acyclic. The
/// spanning-tree laws then apply to it.
pub proof fn lemma_named_graph_wellformed(
    s: crate::ops::OpsSpec,
    v: ValidatedOps,
    named: Seq<NamedNode>,
)
    requires
        crate::ops::valid_ops_input(s.nodes@, s.rules@),
        crate::ops::vops_ok(s, v),
        named.len() == v.nodes@.len(),
        forall|i: int| 0 <= i < named.len() ==> named_of(v.nodes@[i], #[trigger] named[i]),
    ensures
        crate::view::view_unique_names(named),
        crate::view::view_parents_resolve(named),
        crate::view::name_acyclic(named),
{
    let raws = s.nodes@;
    let built = v.nodes@;
    assert forall|i: int, j: int|
        0 <= i < j < named.len() implies (#[trigger] named[i]).name@ != (
    #[trigger] named[j]).name@ by {
        if named[i].name@ == named[j].name@ {
            assert(crate::ops::node_normalized(raws[i], built[i]));
            assert(crate::ops::node_normalized(raws[j], built[j]));
            lemma_digits_roundtrip(built[i].id as nat);
            lemma_digits_roundtrip(built[j].id as nat);
            assert(built[i].id == built[j].id);
            assert(raws[i].id == raws[j].id);
        }
    }
    assert forall|j: int, k: int|
        #![trigger named[j].parents@[k]]
        0 <= j < named.len() && 0 <= k < named[j].parents@.len() implies exists|i: int|
        0 <= i < named.len() && (#[trigger] named[i]).name@ == named[j].parents@[k]@ by {
        let t = named[j].parents@[k]@;
        assert(norm::contains_str(named[j].parents@, t));
        let kk = choose|kk: int|
            0 <= kk < built[j].parents@.len() && u32_digits(
                (#[trigger] built[j].parents@[kk]) as nat,
            ) == t;
        let pid = built[j].parents@[kk];
        assert(crate::ops::node_normalized(raws[j], built[j]));
        norm::lemma_normalize_u32(raws[j].parents@);
        assert(built[j].parents@ == norm::normalize_u32_spec(raws[j].parents@));
        assert(built[j].parents@.contains(pid));
        assert(raws[j].parents@.contains(pid));
        let kr = choose|kr: int|
            0 <= kr < raws[j].parents@.len() && raws[j].parents@[kr] == pid;
        assert(crate::ops::some_node_has_id(raws, raws[j].parents@[kr]));
        let i = choose|i: int| 0 <= i < raws.len() && (#[trigger] raws[i]).id == pid;
        assert(crate::ops::node_normalized(raws[i], built[i]));
        assert(named[i].name@ == u32_digits(pid as nat));
        assert(named[i].name@ == t);
    }
    let m = choose|m: Seq<nat>|
        m.len() == raws.len() && forall|i: int, j: int|
            #[trigger] crate::ops::ops_edge(raws, i, j) ==> m[j] < m[i];
    assert(crate::view::name_measure_ok(named, m)) by {
        assert forall|i: int, j: int|
            #[trigger] crate::view::name_edge(named, i, j) implies m[j] < m[i] by {
            assert(norm::contains_str(named[j].parents@, named[i].name@));
            let kk = choose|kk: int|
                0 <= kk < built[j].parents@.len() && u32_digits(
                    (#[trigger] built[j].parents@[kk]) as nat,
                ) == named[i].name@;
            let pid = built[j].parents@[kk];
            assert(crate::ops::node_normalized(raws[i], built[i]));
            assert(named[i].name@ == u32_digits(built[i].id as nat));
            lemma_digits_roundtrip(pid as nat);
            lemma_digits_roundtrip(built[i].id as nat);
            assert(pid == built[i].id);
            assert(crate::ops::node_normalized(raws[j], built[j]));
            norm::lemma_normalize_u32(raws[j].parents@);
            assert(built[j].parents@ == norm::normalize_u32_spec(raws[j].parents@));
            assert(built[j].parents@.contains(pid));
            assert(raws[j].parents@.contains(raws[i].id));
            assert(crate::ops::ops_edge(raws, i, j));
        }
    }
    assert(crate::view::name_acyclic(named));
}

} // verus!
