//! Aggregation: join the validated, name-keyed topology with the time and
//! memory metric sources, enforcing single ownership of every operator
//! address and cross-source agreement on operator names, and produce
//! per-node aggregates, global totals, rule views and mapping warnings.

use vstd::prelude::*;
use vstd::string::StrSliceExecFns;
use vstd::string::StringExecFns;
use crate::addr::Addr;
use crate::errors::{MappingWarning, ReportError};
use crate::logs::{MemoryIndex, TimeIndex, TimeEntry, MemoryEntry, time_find, mem_find};
use crate::norm;
use crate::ops::{RuleSpec, clone_string_vec};
use crate::strs::seq_char_lt;

verus! {

/// A topology node keyed by name, as the aggregator consumes it: the
/// name-keyed form of a validated node.
#[derive(Debug)]
pub struct NamedNode {
    pub name: String,
    pub label: String,
    pub block: String,
    pub fingerprint: Option<String>,
    pub tags: Vec<String>,
    pub parents: Vec<String>,
    pub operators: Vec<Addr>,
}

/// Which node name owns a fingerprint.
#[derive(Debug)]
pub struct FpNameEntry {
    pub fingerprint: String,
    pub node: String,
}

/// One resolved operator of a node: its time-source values (zero when the
/// address is missing there) and its memory-source values (absent when the
/// address is missing there).
#[derive(Debug)]
pub struct OperatorView {
    pub addr: Vec<u32>,
    pub op_name: String,
    pub activations: u64,
    pub total_active_us: u64,
    pub batched_in: Option<u64>,
    pub merges: Option<u64>,
    pub merge_in: Option<u64>,
    pub merge_out: Option<u64>,
    pub dropped: Option<u64>,
}

/// A node with its spanning-tree place and aggregated metrics.
#[derive(Debug)]
pub struct NameNodeView {
    pub name: String,
    pub label: String,
    pub block: String,
    pub fingerprint: Option<String>,
    pub tags: Vec<String>,
    pub children: Vec<String>,
    pub dag_parents: Vec<String>,
    pub extra_parents: Vec<String>,
    pub self_activations: u128,
    pub self_total_active_us: u128,
    pub self_batched_in: u128,
    pub self_merges: u128,
    pub self_merge_in: u128,
    pub self_merge_out: u128,
    pub self_dropped: u128,
    pub has_memory_data: bool,
    pub operators: Vec<OperatorView>,
}

/// One plan-tree entry of a rule, with derived parents and sharing flag.
#[derive(Debug)]
pub struct RulePlanNodeView {
    pub fingerprint: String,
    pub node: Option<String>,
    pub label: Option<String>,
    pub children: Vec<String>,
    pub parents: Vec<String>,
    pub shared: bool,
}

/// A rule with its plan-tree views.
#[derive(Debug)]
pub struct RuleView {
    pub text: String,
    pub root: String,
    pub nodes: Vec<RulePlanNodeView>,
}

/// Global totals and drift counters.
#[derive(Debug)]
pub struct TotalsView {
    pub names: usize,
    pub operators_in_time: usize,
    pub operators_mapped: u64,
    pub total_mapped_us: u128,
    pub total_mapped_activations: u128,
    pub total_batched_in: u128,
}

/// The complete report view model, with the accumulated non-fatal
/// diagnostics alongside.
#[derive(Debug)]
pub struct ReportData {
    pub roots: Vec<String>,
    pub nodes: Vec<NameNodeView>,
    pub rules: Vec<RuleView>,
    pub totals: TotalsView,
    pub warnings: Vec<MappingWarning>,
}

// ------------------------------------------------------------ input specs

pub open spec fn names_sorted(nodes: Seq<NamedNode>) -> bool {
    forall|i: int, j: int|
        0 <= i < j < nodes.len() ==> seq_char_lt((#[trigger] nodes[i]).name@, (
        #[trigger] nodes[j]).name@)
}

/// Wherever an address appears in both sources, the operator names agree.
pub open spec fn cross_ok(time: Seq<TimeEntry>, mem: Seq<MemoryEntry>) -> bool {
    forall|x: int|
        0 <= x < mem.len() ==> match time_find(time, (#[trigger] mem[x]).addr@) {
            Some(tr) => tr.op_name@ == mem[x].row.op_name@,
            None => true,
        }
}

/// No two nodes claim the same operator address.
pub open spec fn ownership_ok(nodes: Seq<NamedNode>) -> bool {
    forall|i: int, j: int, t: Seq<u32>|
        #![trigger norm::contains_addr(nodes[i].operators@, t), norm::contains_addr(nodes[j].operators@, t)]
        0 <= i < j < nodes.len() ==> !(norm::contains_addr(nodes[i].operators@, t)
            && norm::contains_addr(nodes[j].operators@, t))
}

// ---------------------------------------------------------- sum functions

pub open spec fn t_acts(time: Seq<TimeEntry>, a: Seq<u32>) -> int {
    match time_find(time, a) {
        Some(r) => r.activations as int,
        None => 0,
    }
}

pub open spec fn t_us(time: Seq<TimeEntry>, a: Seq<u32>) -> int {
    match time_find(time, a) {
        Some(r) => r.total_active_us as int,
        None => 0,
    }
}

pub open spec fn t_hit(time: Seq<TimeEntry>, a: Seq<u32>) -> int {
    match time_find(time, a) {
        Some(_) => 1,
        None => 0,
    }
}

pub open spec fn m_field(mem: Seq<MemoryEntry>, a: Seq<u32>, which: int) -> int {
    match mem_find(mem, a) {
        Some(r) => if which == 0 {
            r.batched_in as int
        } else if which == 1 {
            r.merges as int
        } else if which == 2 {
            r.merge_in as int
        } else if which == 3 {
            r.merge_out as int
        } else {
            r.dropped as int
        },
        None => 0,
    }
}

pub open spec fn sum_acts(time: Seq<TimeEntry>, addrs: Seq<Addr>) -> int
    decreases addrs.len(),
{
    if addrs.len() == 0 {
        0
    } else {
        sum_acts(time, addrs.drop_last()) + t_acts(time, addrs.last()@)
    }
}

pub open spec fn sum_us(time: Seq<TimeEntry>, addrs: Seq<Addr>) -> int
    decreases addrs.len(),
{
    if addrs.len() == 0 {
        0
    } else {
        sum_us(time, addrs.drop_last()) + t_us(time, addrs.last()@)
    }
}

pub open spec fn sum_hits(time: Seq<TimeEntry>, addrs: Seq<Addr>) -> int
    decreases addrs.len(),
{
    if addrs.len() == 0 {
        0
    } else {
        sum_hits(time, addrs.drop_last()) + t_hit(time, addrs.last()@)
    }
}

pub open spec fn sum_mem(mem: Seq<MemoryEntry>, addrs: Seq<Addr>, which: int) -> int
    decreases addrs.len(),
{
    if addrs.len() == 0 {
        0
    } else {
        sum_mem(mem, addrs.drop_last(), which) + m_field(mem, addrs.last()@, which)
    }
}

/// Some address of the node has a memory row.
pub open spec fn has_mem(mem: Seq<MemoryEntry>, addrs: Seq<Addr>) -> bool {
    exists|k: int| 0 <= k < addrs.len() && mem_find(mem, (#[trigger] addrs[k])@) is Some
}

pub proof fn lemma_sum_bounds(time: Seq<TimeEntry>, mem: Seq<MemoryEntry>, addrs: Seq<Addr>)
    ensures
        0 <= sum_acts(time, addrs) <= addrs.len() * 0xFFFF_FFFF_FFFF_FFFF,
        0 <= sum_us(time, addrs) <= addrs.len() * 0xFFFF_FFFF_FFFF_FFFF,
        0 <= sum_hits(time, addrs) <= addrs.len(),
        forall|w: int| 0 <= #[trigger] sum_mem(mem, addrs, w) <= addrs.len() * 0xFFFF_FFFF_FFFF_FFFF,
    decreases addrs.len(),
{
    if addrs.len() > 0 {
        lemma_sum_bounds(time, mem, addrs.drop_last());
        assert((addrs.len() - 1) * 0xFFFF_FFFF_FFFF_FFFF + 0xFFFF_FFFF_FFFF_FFFF == addrs.len()
            * 0xFFFF_FFFF_FFFF_FFFF) by (nonlinear_arith);
        assert forall|w: int|
            0 <= #[trigger] sum_mem(mem, addrs, w) <= addrs.len() * 0xFFFF_FFFF_FFFF_FFFF by {
            assert(0 <= sum_mem(mem, addrs.drop_last(), w) <= (addrs.len() - 1)
                * 0xFFFF_FFFF_FFFF_FFFF);
            assert(0 <= m_field(mem, addrs.last()@, w) <= 0xFFFF_FFFF_FFFF_FFFF);
        }
    } else {
        let l = addrs.len() as int;
        assert(l == 0);
        assert(l * 0xFFFF_FFFF_FFFF_FFFF == 0) by (nonlinear_arith)
            requires
                l == 0,
        ;
    }
}

// ---------------------------------------------------------------- totals

pub open spec fn total_acts(time: Seq<TimeEntry>, nodes: Seq<NamedNode>) -> int
    decreases nodes.len(),
{
    if nodes.len() == 0 {
        0
    } else {
        total_acts(time, nodes.drop_last()) + sum_acts(time, nodes.last().operators@)
    }
}

pub open spec fn total_us(time: Seq<TimeEntry>, nodes: Seq<NamedNode>) -> int
    decreases nodes.len(),
{
    if nodes.len() == 0 {
        0
    } else {
        total_us(time, nodes.drop_last()) + sum_us(time, nodes.last().operators@)
    }
}

pub open spec fn total_hits(time: Seq<TimeEntry>, nodes: Seq<NamedNode>) -> int
    decreases nodes.len(),
{
    if nodes.len() == 0 {
        0
    } else {
        total_hits(time, nodes.drop_last()) + sum_hits(time, nodes.last().operators@)
    }
}

pub open spec fn total_batched(mem: Seq<MemoryEntry>, nodes: Seq<NamedNode>) -> int
    decreases nodes.len(),
{
    if nodes.len() == 0 {
        0
    } else {
        total_batched(mem, nodes.drop_last()) + sum_mem(mem, nodes.last().operators@, 0)
    }
}

// -------------------------------------------------------------- warnings

pub open spec fn contains_warning(ws: Seq<MappingWarning>, nm: Seq<char>, ad: Seq<u32>) -> bool {
    exists|x: int| 0 <= x < ws.len() && (#[trigger] ws[x]).name@ == nm && ws[x].addr@ == ad
}

/// A warning is owed exactly for a node address absent from the time
/// source.
pub open spec fn warnings_ok(
    ws: Seq<MappingWarning>,
    nodes: Seq<NamedNode>,
    time: Seq<TimeEntry>,
) -> bool {
    forall|nm: Seq<char>, ad: Seq<u32>|
        #![trigger contains_warning(ws, nm, ad)]
        contains_warning(ws, nm, ad) <==> exists|i: int|
            0 <= i < nodes.len() && (#[trigger] nodes[i]).name@ == nm && norm::contains_addr(
                nodes[i].operators@,
                ad,
            ) && time_find(time, ad) is None
}


// ---------------------------------------------------------------- checks

/// The aggregation error names real offenders of the input: the mismatched
/// operator names at their shared address, or the two nodes claiming one
/// address.
pub open spec fn report_err_sound(
    nodes: Seq<NamedNode>,
    time: Seq<TimeEntry>,
    mem: Seq<MemoryEntry>,
    e: ReportError,
) -> bool {
    match e {
        ReportError::OpNameMismatch { addr, time_name, memory_name } => match (
            time_find(time, addr@),
            mem_find(mem, addr@),
        ) {
            (Some(tr), Some(mr)) => tr.op_name@ == time_name@ && mr.op_name@ == memory_name@
                && time_name@ != memory_name@,
            _ => false,
        },
        ReportError::AddrOwnedTwice { addr, first_owner, second_owner } => exists|i: int, j: int|
            #![trigger nodes[i].name, nodes[j].name]
            0 <= i < j < nodes.len() && nodes[i].name@ == first_owner@ && nodes[j].name@
                == second_owner@ && norm::contains_addr(nodes[i].operators@, addr@)
                && norm::contains_addr(nodes[j].operators@, addr@),
        _ => false,
    }
}

/// The first cross-source operator-name disagreement, if any.
fn check_cross(time: &TimeIndex, memory: &MemoryIndex, nodes: &Vec<NamedNode>) -> (r: Option<
    ReportError,
>)
    requires
        memory.wf(),
    ensures
        match r {
            None => cross_ok(time.entries@, memory.entries@),
            Some(e) => !cross_ok(time.entries@, memory.entries@) && report_err_sound(
                nodes@,
                time.entries@,
                memory.entries@,
                e,
            ),
        },
{
    let mut x: usize = 0;
    while x < memory.entries.len()
        invariant
            memory.wf(),
            x <= memory.entries@.len(),
            forall|x0: int|
                0 <= x0 < x ==> match time_find(
                    time.entries@,
                    (#[trigger] memory.entries@[x0]).addr@,
                ) {
                    Some(tr) => tr.op_name@ == memory.entries@[x0].row.op_name@,
                    None => true,
                },
        decreases memory.entries@.len() - x,
    {
        let me = &memory.entries[x];
        match time.get(&me.addr) {
            Some(tr) => {
                if !norm::string_eq(&tr.op_name, &me.row.op_name) {
                    proof {
                        crate::logs::lemma_mem_find_at(memory.entries@, x as int);
                    }
                    return Some(ReportError::OpNameMismatch {
                        addr: me.addr.dup(),
                        time_name: tr.op_name.clone(),
                        memory_name: me.row.op_name.clone(),
                    });
                }
            },
            None => {},
        }
        x += 1;
    }
    None
}

/// The first operator address claimed by two nodes, if any.
#[verifier::rlimit(60)]
fn check_ownership(nodes: &Vec<NamedNode>, time: &TimeIndex, memory: &MemoryIndex) -> (r: Option<
    ReportError,
>)
    ensures
        match r {
            None => ownership_ok(nodes@),
            Some(e) => !ownership_ok(nodes@) && report_err_sound(
                nodes@,
                time.entries@,
                memory.entries@,
                e,
            ),
        },
{
    let n: usize = nodes.len();
    let mut j: usize = 0;
    while j < n
        invariant
            n == nodes@.len(),
            j <= n,
            forall|i0: int, j0: int, t: Seq<u32>|
                #![trigger norm::contains_addr(nodes@[i0].operators@, t), norm::contains_addr(nodes@[j0].operators@, t)]
                0 <= i0 < j0 < j ==> !(norm::contains_addr(nodes@[i0].operators@, t)
                    && norm::contains_addr(nodes@[j0].operators@, t)),
        decreases n - j,
    {
        let mut i: usize = 0;
        while i < j
            invariant
                j < n == nodes@.len(),
                i <= j,
                forall|i0: int, t: Seq<u32>|
                    #![trigger norm::contains_addr(nodes@[i0].operators@, t)]
                    0 <= i0 < i ==> !(norm::contains_addr(nodes@[i0].operators@, t)
                        && norm::contains_addr(nodes@[j as int].operators@, t)),
            decreases j - i,
        {
            let mut k: usize = 0;
            while k < nodes[i].operators.len()
                invariant
                    i < j < n == nodes@.len(),
                    k <= nodes@[i as int].operators@.len(),
                    forall|k0: int|
                        #![trigger nodes@[i as int].operators@[k0]]
                        0 <= k0 < k ==> !norm::contains_addr(
                            nodes@[j as int].operators@,
                            nodes@[i as int].operators@[k0]@,
                        ),
                decreases nodes@[i as int].operators@.len() - k,
            {
                let a = &nodes[i].operators[k];
                if contains_addr_exec(&nodes[j].operators, a) {
                    proof {
                        assert(norm::contains_addr(nodes@[i as int].operators@, a@));
                        assert(nodes@[i as int].name@ == nodes@[i as int].name@);
                        assert(nodes@[j as int].name@ == nodes@[j as int].name@);
                    }
                    return Some(ReportError::AddrOwnedTwice {
                        addr: a.dup(),
                        first_owner: nodes[i].name.clone(),
                        second_owner: nodes[j].name.clone(),
                    });
                }
                k += 1;
            }
            proof {
                assert forall|t: Seq<u32>|
                    norm::contains_addr(nodes@[i as int].operators@, t) implies !norm::contains_addr(
                    nodes@[j as int].operators@,
                    t,
                ) by {
                    let k0 = choose|k0: int|
                        0 <= k0 < nodes@[i as int].operators@.len() && (#[trigger] nodes@[
                            i as int
                        ].operators@[k0])@ == t;
                }
            }
            i += 1;
        }
        j += 1;
    }
    None
}

/// Whether the list holds this address.
pub fn contains_addr_exec(v: &Vec<Addr>, a: &Addr) -> (r: bool)
    ensures
        r == norm::contains_addr(v@, a@),
{
    let mut i: usize = 0;
    while i < v.len()
        invariant
            i <= v@.len(),
            forall|k: int| 0 <= k < i ==> (#[trigger] v@[k])@ != a@,
        decreases v@.len() - i,
    {
        if v[i].eq_addr(a) {
            assert(v@[i as int]@ == a@);
            return true;
        }
        i += 1;
    }
    proof {
        if norm::contains_addr(v@, a@) {
            let k = choose|k: int| 0 <= k < v@.len() && (#[trigger] v@[k])@ == a@;
        }
    }
    false
}

// ------------------------------------------------------- node aggregation

/// The resolved operator list of one node matches the metric sources
/// address by address.
pub open spec fn operators_resolved(
    ops: Seq<OperatorView>,
    addrs: Seq<Addr>,
    time: Seq<TimeEntry>,
    mem: Seq<MemoryEntry>,
) -> bool {
    &&& ops.len() == addrs.len()
    &&& forall|k: int|
        0 <= k < addrs.len() ==> {
            let ov = #[trigger] ops[k];
            &&& ov.addr@ == addrs[k]@
            &&& match time_find(time, addrs[k]@) {
                Some(tr) => ov.activations == tr.activations && ov.total_active_us
                    == tr.total_active_us && ov.op_name@ == tr.op_name@,
                None => ov.activations == 0 && ov.total_active_us == 0 && ov.op_name@.len() == 0,
            }
            &&& match mem_find(mem, addrs[k]@) {
                Some(mr) => ov.batched_in == Some(mr.batched_in) && ov.merges == Some(mr.merges)
                    && ov.merge_in == Some(mr.merge_in) && ov.merge_out == Some(mr.merge_out)
                    && ov.dropped == Some(mr.dropped),
                None => ov.batched_in is None && ov.merges is None && ov.merge_in is None
                    && ov.merge_out is None && ov.dropped is None,
            }
        }
}

struct NodeAgg {
    operators: Vec<OperatorView>,
    self_activations: u128,
    self_total_active_us: u128,
    self_batched_in: u128,
    self_merges: u128,
    self_merge_in: u128,
    self_merge_out: u128,
    self_dropped: u128,
    has_memory_data: bool,
    mapped: u64,
}

/// Resolve one node's addresses against both sources, accumulating the
/// owed warnings.
#[verifier::rlimit(100)]
fn aggregate_node(
    name: &String,
    addrs: &Vec<Addr>,
    time: &TimeIndex,
    memory: &MemoryIndex,
    warnings: &mut Vec<MappingWarning>,
) -> (out: NodeAgg)
    requires
        addrs@.len() <= 0x8000_0000,
    ensures
        operators_resolved(out.operators@, addrs@, time.entries@, memory.entries@),
        out.self_activations as int == sum_acts(time.entries@, addrs@),
        out.self_total_active_us as int == sum_us(time.entries@, addrs@),
        out.self_batched_in as int == sum_mem(memory.entries@, addrs@, 0),
        out.self_merges as int == sum_mem(memory.entries@, addrs@, 1),
        out.self_merge_in as int == sum_mem(memory.entries@, addrs@, 2),
        out.self_merge_out as int == sum_mem(memory.entries@, addrs@, 3),
        out.self_dropped as int == sum_mem(memory.entries@, addrs@, 4),
        out.has_memory_data == has_mem(memory.entries@, addrs@),
        out.mapped as int == sum_hits(time.entries@, addrs@),
        final(warnings)@.len() >= old(warnings)@.len(),
        forall|x: int|
            0 <= x < old(warnings)@.len() ==> final(warnings)@[x] == old(warnings)@[x],
        forall|nm: Seq<char>, ad: Seq<u32>|
            #![trigger contains_warning(final(warnings)@, nm, ad)]
            contains_warning(final(warnings)@, nm, ad) <==> (contains_warning(
                old(warnings)@,
                nm,
                ad,
            ) || (nm == name@ && norm::contains_addr(addrs@, ad) && time_find(time.entries@, ad)
                is None)),
{
    let mut operators: Vec<OperatorView> = Vec::new();
    let mut self_activations: u128 = 0;
    let mut self_total_active_us: u128 = 0;
    let mut self_batched_in: u128 = 0;
    let mut self_merges: u128 = 0;
    let mut self_merge_in: u128 = 0;
    let mut self_merge_out: u128 = 0;
    let mut self_dropped: u128 = 0;
    let mut has_memory_data: bool = false;
    let mut mapped: u64 = 0;
    let n: usize = addrs.len();
    let mut k: usize = 0;
    while k < n
        invariant
            n == addrs@.len(),
            n <= 0x8000_0000,
            k <= n,
            operators_resolved(operators@, addrs@.take(k as int), time.entries@, memory.entries@),
            self_activations as int == sum_acts(time.entries@, addrs@.take(k as int)),
            self_total_active_us as int == sum_us(time.entries@, addrs@.take(k as int)),
            self_batched_in as int == sum_mem(memory.entries@, addrs@.take(k as int), 0),
            self_merges as int == sum_mem(memory.entries@, addrs@.take(k as int), 1),
            self_merge_in as int == sum_mem(memory.entries@, addrs@.take(k as int), 2),
            self_merge_out as int == sum_mem(memory.entries@, addrs@.take(k as int), 3),
            self_dropped as int == sum_mem(memory.entries@, addrs@.take(k as int), 4),
            has_memory_data == has_mem(memory.entries@, addrs@.take(k as int)),
            mapped as int == sum_hits(time.entries@, addrs@.take(k as int)),
            warnings@.len() >= old(warnings)@.len(),
            forall|x: int|
                0 <= x < old(warnings)@.len() ==> warnings@[x] == old(warnings)@[x],
            forall|nm: Seq<char>, ad: Seq<u32>|
                #![trigger contains_warning(warnings@, nm, ad)]
                contains_warning(warnings@, nm, ad) <==> (contains_warning(old(warnings)@, nm, ad)
                    || (nm == name@ && norm::contains_addr(addrs@.take(k as int), ad) && time_find(
                    time.entries@,
                    ad,
                ) is None)),
        decreases n - k,
    {
        proof {
            lemma_sum_bounds(time.entries@, memory.entries@, addrs@.take(k as int));
            assert(addrs@.take(k + 1).drop_last() =~= addrs@.take(k as int));
            assert(addrs@.take(k + 1).last() == addrs@[k as int]);
            assert((k as int) * 0xFFFF_FFFF_FFFF_FFFF + 0xFFFF_FFFF_FFFF_FFFF < 0x1_0000_0000_0000_0000_0000_0000_0000_0000) by (nonlinear_arith)
                requires
                    0 <= k < 0x8000_0000,
            ;
        }
        let a = &addrs[k];
        let ghost warnings_old_iter = warnings@;
        let (activations, total_active_us, op_name): (u64, u64, String) = match time.get(a) {
            Some(tr) => {
                mapped = mapped + 1;
                (tr.activations, tr.total_active_us, tr.op_name.clone())
            },
            None => {
                let w = MappingWarning { name: name.clone(), addr: a.dup() };
                proof {
                    norm::lemma_push_contains(warnings@, w);
                }
                warnings.push(w);
                (0, 0, String::new())
            },
        };
        self_activations = self_activations + activations as u128;
        self_total_active_us = self_total_active_us + total_active_us as u128;
        let (batched_in, merges, merge_in, merge_out, dropped): (
            Option<u64>,
            Option<u64>,
            Option<u64>,
            Option<u64>,
            Option<u64>,
        ) = match memory.get(a) {
            Some(mr) => {
                has_memory_data = true;
                self_batched_in = self_batched_in + mr.batched_in as u128;
                self_merges = self_merges + mr.merges as u128;
                self_merge_in = self_merge_in + mr.merge_in as u128;
                self_merge_out = self_merge_out + mr.merge_out as u128;
                self_dropped = self_dropped + mr.dropped as u128;
                (
                    Some(mr.batched_in),
                    Some(mr.merges),
                    Some(mr.merge_in),
                    Some(mr.merge_out),
                    Some(mr.dropped),
                )
            },
            None => {
                self_batched_in = self_batched_in + 0;
                (None, None, None, None, None)
            },
        };
        let ov = OperatorView {
            addr: a.0.clone(),
            op_name,
            activations,
            total_active_us,
            batched_in,
            merges,
            merge_in,
            merge_out,
            dropped,
        };
        proof {
            assert(ov.addr@ =~= a@) by {
                assert(forall|z: int|
                    0 <= z < a.0@.len() ==> vstd::pervasive::cloned::<u32>(
                        a.0@[z],
                        ov.addr@[z],
                    ) ==> ov.addr@[z] == a.0@[z]);
            }
        }
        operators.push(ov);
        proof {
            assert(operators@.drop_last() =~= operators@.take(operators@.len() - 1));
            assert(forall|x: int|
                0 <= x < operators@.len() - 1 ==> operators@[x] == operators@.drop_last()[x]);
            // has_memory_data tracks an existing hit
            if mem_find(memory.entries@, addrs@[k as int]@) is Some {
                assert(addrs@.take(k + 1)[k as int] == addrs@[k as int]);
                assert(has_mem(memory.entries@, addrs@.take(k + 1)));
            }
            if has_mem(memory.entries@, addrs@.take(k + 1)) && mem_find(
                memory.entries@,
                addrs@[k as int]@,
            ) is None {
                let kk = choose|kk: int|
                    0 <= kk < addrs@.take(k + 1).len() && mem_find(
                        memory.entries@,
                        (#[trigger] addrs@.take(k + 1)[kk])@,
                    ) is Some;
                if kk < k {
                    assert(addrs@.take(k as int)[kk] == addrs@.take(k + 1)[kk]);
                    assert(has_mem(memory.entries@, addrs@.take(k as int)));
                }
            }
            if has_mem(memory.entries@, addrs@.take(k as int)) {
                let kk = choose|kk: int|
                    0 <= kk < addrs@.take(k as int).len() && mem_find(
                        memory.entries@,
                        (#[trigger] addrs@.take(k as int)[kk])@,
                    ) is Some;
                assert(addrs@.take(k + 1)[kk] == addrs@.take(k as int)[kk]);
                assert(has_mem(memory.entries@, addrs@.take(k + 1)));
            }
            // warnings membership across the step
            assert forall|nm: Seq<char>, ad: Seq<u32>|
                #![trigger contains_warning(warnings@, nm, ad)]
                contains_warning(warnings@, nm, ad) <==> (contains_warning(old(warnings)@, nm, ad)
                    || (nm == name@ && norm::contains_addr(addrs@.take(k + 1), ad) && time_find(
                    time.entries@,
                    ad,
                ) is None)) by {
                if norm::contains_addr(addrs@.take(k + 1), ad) && !norm::contains_addr(
                    addrs@.take(k as int),
                    ad,
                ) {
                    let z = choose|z: int|
                        0 <= z < addrs@.take(k + 1).len() && (#[trigger] addrs@.take(
                            k + 1,
                        )[z])@ == ad;
                    assert(z == k);
                    assert(ad == addrs@[k as int]@);
                }
                if norm::contains_addr(addrs@.take(k as int), ad) {
                    let z = choose|z: int|
                        0 <= z < addrs@.take(k as int).len() && (#[trigger] addrs@.take(
                            k as int,
                        )[z])@ == ad;
                    assert(addrs@.take(k + 1)[z]@ == ad);
                    assert(norm::contains_addr(addrs@.take(k + 1), ad));
                }
                if time_find(time.entries@, addrs@[k as int]@) is None {
                    // this step filed one warning for the missing address
                    assert(warnings@.len() == warnings_old_iter.len() + 1);
                    assert(warnings@[warnings@.len() - 1].name@ == name@);
                    assert(warnings@[warnings@.len() - 1].addr@ == addrs@[k as int]@);
                    assert(forall|x: int|
                        0 <= x < warnings_old_iter.len() ==> warnings@[x] == warnings_old_iter[x]);
                    assert(addrs@.take(k + 1)[k as int]@ == addrs@[k as int]@);
                    assert(norm::contains_addr(addrs@.take(k + 1), addrs@[k as int]@));
                    if contains_warning(warnings@, nm, ad) {
                        let x = choose|x: int|
                            0 <= x < warnings@.len() && (#[trigger] warnings@[x]).name@ == nm
                                && warnings@[x].addr@ == ad;
                        if x < warnings_old_iter.len() {
                            assert(contains_warning(warnings_old_iter, nm, ad));
                        } else {
                            assert(nm == name@ && ad == addrs@[k as int]@);
                        }
                    }
                    if contains_warning(warnings_old_iter, nm, ad) {
                        let x = choose|x: int|
                            0 <= x < warnings_old_iter.len() && (
                            #[trigger] warnings_old_iter[x]).name@ == nm
                                && warnings_old_iter[x].addr@ == ad;
                        assert(warnings@[x].name@ == nm && warnings@[x].addr@ == ad);
                        assert(contains_warning(warnings@, nm, ad));
                    }
                    if nm == name@ && ad == addrs@[k as int]@ {
                        assert(contains_warning(warnings@, nm, ad));
                    }
                } else {
                    assert(warnings@ == warnings_old_iter);
                }
            }
        }
        k += 1;
    }
    proof {
        assert(addrs@.take(n as int) =~= addrs@);
    }
    NodeAgg {
        operators,
        self_activations,
        self_total_active_us,
        self_batched_in,
        self_merges,
        self_merge_in,
        self_merge_out,
        self_dropped,
        has_memory_data,
        mapped,
    }
}


// ----------------------------------------------------------- tree fields

/// The canonical (lexicographically smallest) parent, if any.
pub open spec fn primary_parent_of(n: NamedNode) -> Option<Seq<char>> {
    if norm::normalize_strs_spec(n.parents@).len() == 0 {
        None
    } else {
        Some(norm::normalize_strs_spec(n.parents@)[0]@)
    }
}

/// Node `j` is a primary child of the node named `p` and is named `t`.
pub open spec fn child_rel(nodes: Seq<NamedNode>, p: Seq<char>, t: Seq<char>) -> bool {
    exists|j: int|
        0 <= j < nodes.len() && (#[trigger] nodes[j]).name@ == t && primary_parent_of(nodes[j])
            == Some(p)
}

/// Some node is named `t` and has no parents.
pub open spec fn parentless_named(nodes: Seq<NamedNode>, t: Seq<char>) -> bool {
    exists|i: int|
        0 <= i < nodes.len() && (#[trigger] nodes[i]).name@ == t && norm::normalize_strs_spec(
            nodes[i].parents@,
        ).len() == 0
}

struct TreeInfo {
    dag_parents: Vec<String>,
    extra_parents: Vec<String>,
    children: Vec<String>,
}

spec fn tree_info_ok(nodes: Seq<NamedNode>, i: int, tf: TreeInfo) -> bool {
    &&& tf.dag_parents@ == norm::normalize_strs_spec(nodes[i].parents@)
    &&& tf.extra_parents@.len() == if tf.dag_parents@.len() == 0 {
        0int
    } else {
        tf.dag_parents@.len() - 1
    }
    &&& forall|x: int|
        0 <= x < tf.extra_parents@.len() ==> (#[trigger] tf.extra_parents@[x])@
            == tf.dag_parents@[x + 1]@
    &&& norm::sorted_unique_strs(tf.children@)
    &&& forall|t: Seq<char>|
        #![trigger norm::contains_str(tf.children@, t)]
        norm::contains_str(tf.children@, t) <==> child_rel(nodes, nodes[i].name@, t)
}

/// Derive one node's spanning-tree fields: its sorted parent list, the
/// primary parent's leftovers, and its primary children.
fn tree_info_for(nodes: &Vec<NamedNode>, i: usize) -> (tf: TreeInfo)
    requires
        i < nodes@.len(),
    ensures
        tree_info_ok(nodes@, i as int, tf),
{
    let dag_parents = norm::normalize_names(&nodes[i].parents);
    let mut extra_parents: Vec<String> = Vec::new();
    let mut x: usize = 1;
    while x < dag_parents.len()
        invariant
            1 <= x,
            dag_parents@.len() > 0 ==> x <= dag_parents@.len(),
            dag_parents@.len() == 0 ==> x == 1,
            extra_parents@.len() == if x > dag_parents@.len() {
                0int
            } else {
                x - 1
            },
            forall|z: int|
                0 <= z < extra_parents@.len() ==> (#[trigger] extra_parents@[z])@
                    == dag_parents@[z + 1]@,
        decreases dag_parents@.len() - x,
    {
        extra_parents.push(dag_parents[x].clone());
        x += 1;
    }
    // primary children: nodes whose smallest parent is this node's name
    let mut collected: Vec<String> = Vec::new();
    let mut j: usize = 0;
    while j < nodes.len()
        invariant
            i < nodes@.len(),
            j <= nodes@.len(),
            forall|t: Seq<char>|
                #![trigger norm::contains_str(collected@, t)]
                norm::contains_str(collected@, t) <==> exists|j0: int|
                    0 <= j0 < j && (#[trigger] nodes@[j0]).name@ == t && primary_parent_of(
                        nodes@[j0],
                    ) == Some(nodes@[i as int].name@),
        decreases nodes@.len() - j,
    {
        let ghost c_old = collected@;
        let jp = norm::normalize_names(&nodes[j].parents);
        let is_child: bool = if jp.len() > 0 {
            norm::string_eq(&jp[0], &nodes[i].name)
        } else {
            false
        };
        proof {
            assert(is_child == (primary_parent_of(nodes@[j as int]) == Some(
                nodes@[i as int].name@,
            )));
        }
        if is_child {
            proof {
                norm::lemma_push_contains(collected@, nodes@[j as int].name);
            }
            collected.push(nodes[j].name.clone());
        }
        proof {
            assert forall|t: Seq<char>|
                #![trigger norm::contains_str(collected@, t)]
                norm::contains_str(collected@, t) <==> exists|j0: int|
                    0 <= j0 < j + 1 && (#[trigger] nodes@[j0]).name@ == t && primary_parent_of(
                        nodes@[j0],
                    ) == Some(nodes@[i as int].name@) by {
                if norm::contains_str(collected@, t) {
                    if norm::contains_str(c_old, t) {
                        let j0 = choose|j0: int|
                            0 <= j0 < j && (#[trigger] nodes@[j0]).name@ == t
                                && primary_parent_of(nodes@[j0]) == Some(nodes@[i as int].name@);
                        assert(0 <= j0 < j + 1 && nodes@[j0].name@ == t && primary_parent_of(
                            nodes@[j0],
                        ) == Some(nodes@[i as int].name@));
                    } else {
                        let z = choose|z: int|
                            0 <= z < collected@.len() && (#[trigger] collected@[z])@ == t;
                        assert(z == c_old.len());
                        assert(t == nodes@[j as int].name@);
                    }
                }
                if exists|j0: int|
                    0 <= j0 < j + 1 && (#[trigger] nodes@[j0]).name@ == t && primary_parent_of(
                        nodes@[j0],
                    ) == Some(nodes@[i as int].name@) {
                    let j0 = choose|j0: int|
                        0 <= j0 < j + 1 && (#[trigger] nodes@[j0]).name@ == t
                            && primary_parent_of(nodes@[j0]) == Some(nodes@[i as int].name@);
                    if j0 < j {
                        assert(norm::contains_str(c_old, t));
                        let z = choose|z: int|
                            0 <= z < c_old.len() && (#[trigger] c_old[z])@ == t;
                        assert(collected@[z]@ == t);
                    } else {
                        assert(is_child);
                        assert(collected@[collected@.len() - 1]@ == t);
                    }
                }
            }
        }
        j += 1;
    }
    let children = norm::normalize_names(&collected);
    proof {
        assert forall|t: Seq<char>|
            #![trigger norm::contains_str(children@, t)]
            norm::contains_str(children@, t) <==> child_rel(nodes@, nodes@[i as int].name@, t) by {
            assert(norm::contains_str(children@, t) == norm::contains_str(collected@, t));
        }
    }
    TreeInfo { dag_parents, extra_parents, children }
}

/// The union of the declared roots and the parentless nodes, sorted.
pub fn compute_view_roots(nodes: &Vec<NamedNode>, declared: &Vec<String>) -> (roots: Vec<String>)
    ensures
        norm::sorted_unique_strs(roots@),
        forall|t: Seq<char>|
            #![trigger norm::contains_str(roots@, t)]
            norm::contains_str(roots@, t) <==> (norm::contains_str(declared@, t)
                || parentless_named(nodes@, t)),
{
    let mut collected: Vec<String> = clone_string_vec(declared);
    proof {
        assert forall|t: Seq<char>|
            norm::contains_str(collected@, t) implies norm::contains_str(declared@, t) by {
            let z = choose|z: int| 0 <= z < collected@.len() && (#[trigger] collected@[z])@ == t;
            assert(declared@[z]@ == t);
        }
        assert forall|t: Seq<char>|
            norm::contains_str(declared@, t) implies norm::contains_str(collected@, t) by {
            let z = choose|z: int| 0 <= z < declared@.len() && (#[trigger] declared@[z])@ == t;
            assert(collected@[z]@ == t);
        }
    }
    let mut i: usize = 0;
    while i < nodes.len()
        invariant
            i <= nodes@.len(),
            forall|t: Seq<char>|
                #![trigger norm::contains_str(collected@, t)]
                norm::contains_str(collected@, t) <==> (norm::contains_str(declared@, t) || exists|
                    i0: int,
                |
                    0 <= i0 < i && (#[trigger] nodes@[i0]).name@ == t && norm::normalize_strs_spec(
                        nodes@[i0].parents@,
                    ).len() == 0),
        decreases nodes@.len() - i,
    {
        let ghost c_old = collected@;
        let ip = norm::normalize_names(&nodes[i].parents);
        if ip.len() == 0 {
            proof {
                norm::lemma_push_contains(collected@, nodes@[i as int].name);
            }
            collected.push(nodes[i].name.clone());
        }
        proof {
            assert forall|t: Seq<char>|
                #![trigger norm::contains_str(collected@, t)]
                norm::contains_str(collected@, t) <==> (norm::contains_str(declared@, t) || exists|
                    i0: int,
                |
                    0 <= i0 < i + 1 && (#[trigger] nodes@[i0]).name@ == t
                        && norm::normalize_strs_spec(nodes@[i0].parents@).len() == 0) by {
                if norm::contains_str(collected@, t) && !norm::contains_str(c_old, t) {
                    let z = choose|z: int|
                        0 <= z < collected@.len() && (#[trigger] collected@[z])@ == t;
                    assert(z == c_old.len());
                    assert(t == nodes@[i as int].name@);
                }
                if norm::contains_str(c_old, t) {
                    if collected@.len() > c_old.len() {
                        let z = choose|z: int|
                            0 <= z < c_old.len() && (#[trigger] c_old[z])@ == t;
                        assert(collected@[z]@ == t);
                    }
                    if exists|i0: int|
                        0 <= i0 < i && (#[trigger] nodes@[i0]).name@ == t
                            && norm::normalize_strs_spec(nodes@[i0].parents@).len() == 0 {
                        let i0 = choose|i0: int|
                            0 <= i0 < i && (#[trigger] nodes@[i0]).name@ == t
                                && norm::normalize_strs_spec(nodes@[i0].parents@).len() == 0;
                        assert(0 <= i0 < i + 1 && nodes@[i0].name@ == t
                            && norm::normalize_strs_spec(nodes@[i0].parents@).len() == 0);
                    }
                }
                if exists|i0: int|
                    0 <= i0 < i + 1 && (#[trigger] nodes@[i0]).name@ == t
                        && norm::normalize_strs_spec(nodes@[i0].parents@).len() == 0 {
                    let i0 = choose|i0: int|
                        0 <= i0 < i + 1 && (#[trigger] nodes@[i0]).name@ == t
                            && norm::normalize_strs_spec(nodes@[i0].parents@).len() == 0;
                    if i0 == i {
                        assert(collected@[collected@.len() - 1]@ == t);
                    }
                }
            }
        }
        i += 1;
    }
    let roots = norm::normalize_names(&collected);
    proof {
        assert forall|t: Seq<char>|
            #![trigger norm::contains_str(roots@, t)]
            norm::contains_str(roots@, t) <==> (norm::contains_str(declared@, t)
                || parentless_named(nodes@, t)) by {
            assert(norm::contains_str(roots@, t) == norm::contains_str(collected@, t));
        }
    }
    roots
}


// ------------------------------------------------------------- rule views

/// The first node name filed for this fingerprint, if any.
pub open spec fn fpname_lookup(map: Seq<FpNameEntry>, f: Seq<char>) -> Option<Seq<char>>
    decreases map.len(),
{
    if map.len() == 0 {
        None
    } else if map[0].fingerprint@ == f {
        Some(map[0].node@)
    } else {
        fpname_lookup(map.skip(1), f)
    }
}

/// The label of the first node with this name, if any.
pub open spec fn label_of(nodes: Seq<NamedNode>, nm: Seq<char>) -> Option<Seq<char>>
    decreases nodes.len(),
{
    if nodes.len() == 0 {
        None
    } else if nodes[0].name@ == nm {
        Some(nodes[0].label@)
    } else {
        label_of(nodes.skip(1), nm)
    }
}

fn fpname_get<'a>(map: &'a Vec<FpNameEntry>, f: &String) -> (r: Option<&'a String>)
    ensures
        match r {
            Some(nm) => fpname_lookup(map@, f@) == Some(nm@),
            None => fpname_lookup(map@, f@) is None,
        },
{
    let mut i: usize = 0;
    proof {
        assert(map@.skip(0) =~= map@);
    }
    loop
        invariant
            i <= map@.len(),
            fpname_lookup(map@, f@) == fpname_lookup(map@.skip(i as int), f@),
        decreases map@.len() - i,
    {
        if i == map.len() {
            return None;
        }
        assert(map@.skip(i as int)[0] == map@[i as int]);
        if norm::string_eq(&map[i].fingerprint, f) {
            return Some(&map[i].node);
        }
        proof {
            assert(map@.skip(i as int).skip(1) =~= map@.skip(i + 1));
        }
        i += 1;
    }
}

fn label_get<'a>(nodes: &'a Vec<NamedNode>, nm: &String) -> (r: Option<&'a String>)
    ensures
        match r {
            Some(lb) => label_of(nodes@, nm@) == Some(lb@),
            None => label_of(nodes@, nm@) is None,
        },
{
    let mut i: usize = 0;
    proof {
        assert(nodes@.skip(0) =~= nodes@);
    }
    loop
        invariant
            i <= nodes@.len(),
            label_of(nodes@, nm@) == label_of(nodes@.skip(i as int), nm@),
        decreases nodes@.len() - i,
    {
        if i == nodes.len() {
            return None;
        }
        assert(nodes@.skip(i as int)[0] == nodes@[i as int]);
        if norm::string_eq(&nodes[i].name, nm) {
            return Some(&nodes[i].label);
        }
        proof {
            assert(nodes@.skip(i as int).skip(1) =~= nodes@.skip(i + 1));
        }
        i += 1;
    }
}

/// Entry `f` of the plan tree lists entry `e`'s fingerprint among its
/// children and carries the fingerprint `t`.
pub open spec fn rplan_parent_rel(
    entries: Seq<crate::ops::RulePlanEntry>,
    e: int,
    t: Seq<char>,
) -> bool {
    exists|f: int|
        0 <= f < entries.len() && (#[trigger] entries[f]).fingerprint@ == t && norm::contains_str(
            entries[f].plan.children@,
            entries[e].fingerprint@,
        )
}

/// A rendered plan entry matches its validated form: same fingerprint and
/// children; parents are exactly the entries that list it as a child; it is
/// shared when it has more than one parent; node and label resolve through
/// the fingerprint map.
pub open spec fn rule_view_ok(
    rs: RuleSpec,
    rv: RuleView,
    nodes: Seq<NamedNode>,
    map: Seq<FpNameEntry>,
) -> bool {
    &&& rv.text@ == rs.text@
    &&& rv.root@ == rs.root@
    &&& rv.nodes@.len() == rs.nodes@.len()
    &&& forall|e: int|
        0 <= e < rs.nodes@.len() ==> {
            let v = #[trigger] rv.nodes@[e];
            &&& v.fingerprint@ == rs.nodes@[e].fingerprint@
            &&& v.children@.len() == rs.nodes@[e].plan.children@.len()
            &&& (forall|x: int|
                0 <= x < v.children@.len() ==> (#[trigger] v.children@[x])@ == rs.nodes@[
                    e
                ].plan.children@[x]@)
            &&& norm::sorted_unique_strs(v.parents@)
            &&& (forall|t: Seq<char>|
                #![trigger norm::contains_str(v.parents@, t)]
                norm::contains_str(v.parents@, t) <==> rplan_parent_rel(rs.nodes@, e, t))
            &&& (v.shared <==> v.parents@.len() > 1)
            &&& crate::ops::opt_str_view(v.node) == fpname_lookup(map, v.fingerprint@)
            &&& crate::ops::opt_str_view(v.label) == (match fpname_lookup(map, v.fingerprint@) {
                Some(nm) => label_of(nodes, nm),
                None => None,
            })
        }
}

/// Render the validated rules: per plan entry, derive the parent list from
/// the children lists, flag sharing, and resolve the owning node and label.
#[verifier::rlimit(100)]
pub fn build_rule_views(
    rules_spec: &Vec<RuleSpec>,
    nodes_spec: &Vec<NamedNode>,
    fingerprint_to_node: &Vec<FpNameEntry>,
) -> (views: Vec<RuleView>)
    ensures
        views@.len() == rules_spec@.len(),
        forall|k: int|
            0 <= k < rules_spec@.len() ==> rule_view_ok(
                rules_spec@[k],
                #[trigger] views@[k],
                nodes_spec@,
                fingerprint_to_node@,
            ),
{
    let mut views: Vec<RuleView> = Vec::new();
    let mut k: usize = 0;
    while k < rules_spec.len()
        invariant
            k <= rules_spec@.len(),
            views@.len() == k,
            forall|k0: int|
                0 <= k0 < k ==> rule_view_ok(
                    rules_spec@[k0],
                    #[trigger] views@[k0],
                    nodes_spec@,
                    fingerprint_to_node@,
                ),
        decreases rules_spec@.len() - k,
    {
        let rs = &rules_spec[k];
        let n: usize = rs.nodes.len();
        let mut entry_views: Vec<RulePlanNodeView> = Vec::new();
        let mut e: usize = 0;
        while e < n
            invariant
                n == rs.nodes@.len(),
                rs == rules_spec@[k as int],
                k < rules_spec@.len(),
                e <= n,
                entry_views@.len() == e,
                forall|e0: int|
                    0 <= e0 < e ==> {
                        let v = #[trigger] entry_views@[e0];
                        &&& v.fingerprint@ == rs.nodes@[e0].fingerprint@
                        &&& v.children@.len() == rs.nodes@[e0].plan.children@.len()
                        &&& (forall|x: int|
                            0 <= x < v.children@.len() ==> (#[trigger] v.children@[x])@
                                == rs.nodes@[e0].plan.children@[x]@)
                        &&& norm::sorted_unique_strs(v.parents@)
                        &&& (forall|t: Seq<char>|
                            #![trigger norm::contains_str(v.parents@, t)]
                            norm::contains_str(v.parents@, t) <==> rplan_parent_rel(
                                rs.nodes@,
                                e0,
                                t,
                            ))
                        &&& (v.shared <==> v.parents@.len() > 1)
                        &&& crate::ops::opt_str_view(v.node) == fpname_lookup(
                            fingerprint_to_node@,
                            v.fingerprint@,
                        )
                        &&& crate::ops::opt_str_view(v.label) == (match fpname_lookup(
                            fingerprint_to_node@,
                            v.fingerprint@,
                        ) {
                            Some(nm) => label_of(nodes_spec@, nm),
                            None => None,
                        })
                    },
            decreases n - e,
        {
            // collect the entries that list this one as a child
            let mut collected: Vec<String> = Vec::new();
            let mut f: usize = 0;
            while f < n
                invariant
                    n == rs.nodes@.len(),
                    rs == rules_spec@[k as int],
                    k < rules_spec@.len(),
                    e < n,
                    f <= n,
                    forall|t: Seq<char>|
                        #![trigger norm::contains_str(collected@, t)]
                        norm::contains_str(collected@, t) <==> exists|f0: int|
                            0 <= f0 < f && (#[trigger] rs.nodes@[f0]).fingerprint@ == t
                                && norm::contains_str(
                                rs.nodes@[f0].plan.children@,
                                rs.nodes@[e as int].fingerprint@,
                            ),
                decreases n - f,
            {
                let ghost c_old = collected@;
                if crate::ops::contains_string(&rs.nodes[f].plan.children, &rs.nodes[e].fingerprint) {
                    proof {
                        norm::lemma_push_contains(collected@, rs.nodes@[f as int].fingerprint);
                    }
                    collected.push(rs.nodes[f].fingerprint.clone());
                }
                proof {
                    assert forall|t: Seq<char>|
                        #![trigger norm::contains_str(collected@, t)]
                        norm::contains_str(collected@, t) <==> exists|f0: int|
                            0 <= f0 < f + 1 && (#[trigger] rs.nodes@[f0]).fingerprint@ == t
                                && norm::contains_str(
                                rs.nodes@[f0].plan.children@,
                                rs.nodes@[e as int].fingerprint@,
                            ) by {
                        if norm::contains_str(collected@, t) && !norm::contains_str(c_old, t) {
                            let z = choose|z: int|
                                0 <= z < collected@.len() && (#[trigger] collected@[z])@ == t;
                            assert(z == c_old.len());
                            assert(t == rs.nodes@[f as int].fingerprint@);
                        }
                        if norm::contains_str(c_old, t) {
                            if collected@.len() > c_old.len() {
                                let z = choose|z: int|
                                    0 <= z < c_old.len() && (#[trigger] c_old[z])@ == t;
                                assert(collected@[z]@ == t);
                            }
                            let f0 = choose|f0: int|
                                0 <= f0 < f && (#[trigger] rs.nodes@[f0]).fingerprint@ == t
                                    && norm::contains_str(
                                    rs.nodes@[f0].plan.children@,
                                    rs.nodes@[e as int].fingerprint@,
                                );
                            assert(0 <= f0 < f + 1 && rs.nodes@[f0].fingerprint@ == t
                                && norm::contains_str(
                                rs.nodes@[f0].plan.children@,
                                rs.nodes@[e as int].fingerprint@,
                            ));
                        }
                        if exists|f0: int|
                            0 <= f0 < f + 1 && (#[trigger] rs.nodes@[f0]).fingerprint@ == t
                                && norm::contains_str(
                                rs.nodes@[f0].plan.children@,
                                rs.nodes@[e as int].fingerprint@,
                            ) {
                            let f0 = choose|f0: int|
                                0 <= f0 < f + 1 && (#[trigger] rs.nodes@[f0]).fingerprint@ == t
                                    && norm::contains_str(
                                    rs.nodes@[f0].plan.children@,
                                    rs.nodes@[e as int].fingerprint@,
                                );
                            if f0 == f {
                                assert(collected@[collected@.len() - 1]@ == t);
                            }
                        }
                    }
                }
                f += 1;
            }
            let parents = norm::normalize_names(&collected);
            let shared = parents.len() > 1;
            let node: Option<String> = match fpname_get(fingerprint_to_node, &rs.nodes[e].fingerprint) {
                Some(nm) => Some(nm.clone()),
                None => None,
            };
            let label: Option<String> = match &node {
                Some(nm) => match label_get(nodes_spec, nm) {
                    Some(lb) => Some(lb.clone()),
                    None => None,
                },
                None => None,
            };
            let v = RulePlanNodeView {
                fingerprint: rs.nodes[e].fingerprint.clone(),
                node,
                label,
                children: clone_string_vec(&rs.nodes[e].plan.children),
                parents,
                shared,
            };
            proof {
                assert forall|t: Seq<char>|
                    #![trigger norm::contains_str(v.parents@, t)]
                    norm::contains_str(v.parents@, t) <==> rplan_parent_rel(
                    rs.nodes@,
                    e as int,
                    t,
                ) by {
                    assert(norm::contains_str(v.parents@, t) == norm::contains_str(collected@, t));
                }
            }
            entry_views.push(v);
            proof {
                assert(forall|e0: int|
                    0 <= e0 < e ==> entry_views@[e0] == entry_views@.drop_last()[e0]);
            }
            e += 1;
        }
        let rv = RuleView {
            text: rs.text.clone(),
            root: rs.root.clone(),
            nodes: entry_views,
        };
        views.push(rv);
        proof {
            assert(forall|k0: int| 0 <= k0 < k ==> views@[k0] == views@.drop_last()[k0]);
            assert(rule_view_ok(
                rules_spec@[k as int],
                views@[k as int],
                nodes_spec@,
                fingerprint_to_node@,
            ));
        }
        k += 1;
    }
    views
}


// ------------------------------------------------------------ composition

/// One rendered node matches its input: fields copied, spanning-tree fields
/// derived, operators resolved and sums exact.
pub open spec fn node_view_ok(
    nv: NameNodeView,
    nodes: Seq<NamedNode>,
    i: int,
    time: Seq<TimeEntry>,
    mem: Seq<MemoryEntry>,
) -> bool {
    let nd = nodes[i];
    &&& nv.name@ == nd.name@
    &&& nv.label@ == nd.label@
    &&& nv.block@ == nd.block@
    &&& crate::ops::opt_str_view(nv.fingerprint) == crate::ops::opt_str_view(nd.fingerprint)
    &&& nv.tags@.len() == nd.tags@.len()
    &&& (forall|x: int| 0 <= x < nd.tags@.len() ==> (#[trigger] nv.tags@[x])@ == nd.tags@[x]@)
    &&& nv.dag_parents@ == norm::normalize_strs_spec(nd.parents@)
    &&& nv.extra_parents@.len() == if nv.dag_parents@.len() == 0 {
        0int
    } else {
        nv.dag_parents@.len() - 1
    }
    &&& (forall|x: int|
        0 <= x < nv.extra_parents@.len() ==> (#[trigger] nv.extra_parents@[x])@
            == nv.dag_parents@[x + 1]@)
    &&& norm::sorted_unique_strs(nv.children@)
    &&& (forall|t: Seq<char>|
        #![trigger norm::contains_str(nv.children@, t)]
        norm::contains_str(nv.children@, t) <==> child_rel(nodes, nd.name@, t))
    &&& operators_resolved(nv.operators@, nd.operators@, time, mem)
    &&& nv.self_activations as int == sum_acts(time, nd.operators@)
    &&& nv.self_total_active_us as int == sum_us(time, nd.operators@)
    &&& nv.self_batched_in as int == sum_mem(mem, nd.operators@, 0)
    &&& nv.self_merges as int == sum_mem(mem, nd.operators@, 1)
    &&& nv.self_merge_in as int == sum_mem(mem, nd.operators@, 2)
    &&& nv.self_merge_out as int == sum_mem(mem, nd.operators@, 3)
    &&& nv.self_dropped as int == sum_mem(mem, nd.operators@, 4)
    &&& nv.has_memory_data == has_mem(mem, nd.operators@)
}

proof fn lemma_total_bounds(time: Seq<TimeEntry>, mem: Seq<MemoryEntry>, nodes: Seq<NamedNode>)
    requires
        forall|i: int| 0 <= i < nodes.len() ==> (#[trigger] nodes[i]).operators@.len() <= 0x8000_0000,
    ensures
        0 <= total_acts(time, nodes) <= nodes.len() * (0x8000_0000 * 0xFFFF_FFFF_FFFF_FFFF),
        0 <= total_us(time, nodes) <= nodes.len() * (0x8000_0000 * 0xFFFF_FFFF_FFFF_FFFF),
        0 <= total_hits(time, nodes) <= nodes.len() * 0x8000_0000,
        0 <= total_batched(mem, nodes) <= nodes.len() * (0x8000_0000 * 0xFFFF_FFFF_FFFF_FFFF),
    decreases nodes.len(),
{
    let big = 0x8000_0000 * 0xFFFF_FFFF_FFFF_FFFF;
    if nodes.len() > 0 {
        lemma_total_bounds(time, mem, nodes.drop_last());
        assert(forall|i: int|
            0 <= i < nodes.drop_last().len() ==> nodes.drop_last()[i] == nodes[i]);
        lemma_sum_bounds(time, mem, nodes.last().operators@);
        assert(nodes.last().operators@.len() <= 0x8000_0000);
        assert(sum_acts(time, nodes.last().operators@) <= 0x8000_0000 * 0xFFFF_FFFF_FFFF_FFFF) by {
            assert(nodes.last().operators@.len() * 0xFFFF_FFFF_FFFF_FFFF <= 0x8000_0000
                * 0xFFFF_FFFF_FFFF_FFFF) by (nonlinear_arith)
                requires
                    nodes.last().operators@.len() <= 0x8000_0000,
            ;
        }
        assert(sum_us(time, nodes.last().operators@) <= big) by {
            assert(nodes.last().operators@.len() * 0xFFFF_FFFF_FFFF_FFFF <= 0x8000_0000
                * 0xFFFF_FFFF_FFFF_FFFF) by (nonlinear_arith)
                requires
                    nodes.last().operators@.len() <= 0x8000_0000,
            ;
        }
        assert(sum_mem(mem, nodes.last().operators@, 0) <= big) by {
            assert(nodes.last().operators@.len() * 0xFFFF_FFFF_FFFF_FFFF <= 0x8000_0000
                * 0xFFFF_FFFF_FFFF_FFFF) by (nonlinear_arith)
                requires
                    nodes.last().operators@.len() <= 0x8000_0000,
            ;
        }
        assert((nodes.len() - 1) * (0x8000_0000 * 0xFFFF_FFFF_FFFF_FFFF) + (0x8000_0000
            * 0xFFFF_FFFF_FFFF_FFFF) == nodes.len() * (0x8000_0000 * 0xFFFF_FFFF_FFFF_FFFF))
            by (nonlinear_arith);
        assert((nodes.len() - 1) * 0x8000_0000 + 0x8000_0000 == nodes.len() * 0x8000_0000)
            by (nonlinear_arith);
    } else {
        let l = nodes.len() as int;
        assert(l == 0);
        assert(l * (0x8000_0000 * 0xFFFF_FFFF_FFFF_FFFF) == 0 && l * 0x8000_0000 == 0)
            by (nonlinear_arith)
            requires
                l == 0,
        ;
    }
}

/// Build the report: cross-validate the metric sources, enforce single
/// ownership of addresses, derive the spanning tree, resolve and sum each
/// node's operators, compute totals, and render the rule views. Succeeds
/// exactly when the sources agree on names and no address is claimed twice;
/// addresses missing from a source yield warnings, never failure.
#[verifier::rlimit(100)]
pub fn build_report_data(
    nodes_spec: &Vec<NamedNode>,
    roots: &Vec<String>,
    rules_spec: &Vec<RuleSpec>,
    fingerprint_to_node: &Vec<FpNameEntry>,
    time: &TimeIndex,
    memory: &MemoryIndex,
) -> (r: Result<ReportData, ReportError>)
    requires
        time.wf(),
        memory.wf(),
        nodes_spec@.len() <= 0x8000_0000,
        forall|i: int|
            0 <= i < nodes_spec@.len() ==> (#[trigger] nodes_spec@[i]).operators@.len()
                <= 0x8000_0000,
    ensures
        match r {
            Ok(rd) => {
                &&& cross_ok(time.entries@, memory.entries@)
                &&& ownership_ok(nodes_spec@)
                &&& rd.nodes@.len() == nodes_spec@.len()
                &&& (forall|i: int|
                    0 <= i < nodes_spec@.len() ==> node_view_ok(
                        #[trigger] rd.nodes@[i],
                        nodes_spec@,
                        i,
                        time.entries@,
                        memory.entries@,
                    ))
                &&& norm::sorted_unique_strs(rd.roots@)
                &&& (forall|t: Seq<char>|
                    #![trigger norm::contains_str(rd.roots@, t)]
                    norm::contains_str(rd.roots@, t) <==> (norm::contains_str(roots@, t)
                        || parentless_named(nodes_spec@, t)))
                &&& rd.rules@.len() == rules_spec@.len()
                &&& (forall|k: int|
                    0 <= k < rules_spec@.len() ==> rule_view_ok(
                        rules_spec@[k],
                        #[trigger] rd.rules@[k],
                        nodes_spec@,
                        fingerprint_to_node@,
                    ))
                &&& warnings_ok(rd.warnings@, nodes_spec@, time.entries@)
                &&& rd.totals.names == nodes_spec@.len()
                &&& rd.totals.operators_in_time == time.entries@.len()
                &&& rd.totals.operators_mapped as int == total_hits(time.entries@, nodes_spec@)
                &&& rd.totals.total_mapped_us as int == total_us(time.entries@, nodes_spec@)
                &&& rd.totals.total_mapped_activations as int == total_acts(
                    time.entries@,
                    nodes_spec@,
                )
                &&& rd.totals.total_batched_in as int == total_batched(
                    memory.entries@,
                    nodes_spec@,
                )
            },
            Err(e) => !(cross_ok(time.entries@, memory.entries@) && ownership_ok(nodes_spec@))
                && report_err_sound(nodes_spec@, time.entries@, memory.entries@, e),
        },
{
    if let Some(e) = check_cross(time, memory, nodes_spec) {
        return Err(e);
    }
    if let Some(e) = check_ownership(nodes_spec, time, memory) {
        return Err(e);
    }
    let out_roots = compute_view_roots(nodes_spec, roots);
    let rules = build_rule_views(rules_spec, nodes_spec, fingerprint_to_node);
    let mut warnings: Vec<MappingWarning> = Vec::new();
    let mut out_nodes: Vec<NameNodeView> = Vec::new();
    let mut total_mapped_us: u128 = 0;
    let mut total_mapped_activations: u128 = 0;
    let mut total_batched_in: u128 = 0;
    let mut operators_mapped: u64 = 0;
    let n: usize = nodes_spec.len();
    let mut i: usize = 0;
    while i < n
        invariant
            n == nodes_spec@.len(),
            n <= 0x8000_0000,
            forall|i0: int|
                0 <= i0 < n ==> (#[trigger] nodes_spec@[i0]).operators@.len() <= 0x8000_0000,
            time.wf(),
            memory.wf(),
            i <= n,
            out_nodes@.len() == i,
            forall|i0: int|
                0 <= i0 < i ==> node_view_ok(
                    #[trigger] out_nodes@[i0],
                    nodes_spec@,
                    i0,
                    time.entries@,
                    memory.entries@,
                ),
            total_mapped_activations as int == total_acts(
                time.entries@,
                nodes_spec@.take(i as int),
            ),
            total_mapped_us as int == total_us(time.entries@, nodes_spec@.take(i as int)),
            total_batched_in as int == total_batched(memory.entries@, nodes_spec@.take(i as int)),
            operators_mapped as int == total_hits(time.entries@, nodes_spec@.take(i as int)),
            forall|nm: Seq<char>, ad: Seq<u32>|
                #![trigger contains_warning(warnings@, nm, ad)]
                contains_warning(warnings@, nm, ad) <==> exists|i0: int|
                    0 <= i0 < i && (#[trigger] nodes_spec@[i0]).name@ == nm && norm::contains_addr(
                        nodes_spec@[i0].operators@,
                        ad,
                    ) && time_find(time.entries@, ad) is None,
        decreases n - i,
    {
        proof {
            lemma_total_bounds(time.entries@, memory.entries@, nodes_spec@.take(i as int));
            assert(forall|z: int|
                0 <= z < i ==> nodes_spec@.take(i as int)[z] == nodes_spec@[z]);
            lemma_sum_bounds(time.entries@, memory.entries@, nodes_spec@[i as int].operators@);
            assert(nodes_spec@[i as int].operators@.len() * 0xFFFF_FFFF_FFFF_FFFF <= 0x8000_0000
                * 0xFFFF_FFFF_FFFF_FFFF) by (nonlinear_arith)
                requires
                    nodes_spec@[i as int].operators@.len() <= 0x8000_0000,
            ;
            assert((i as int) * (0x8000_0000 * 0xFFFF_FFFF_FFFF_FFFF) + (0x8000_0000
                * 0xFFFF_FFFF_FFFF_FFFF) < 0x1_0000_0000_0000_0000_0000_0000_0000_0000)
                by (nonlinear_arith)
                requires
                    0 <= i < 0x8000_0000,
            ;
            assert((i as int) * 0x8000_0000 + 0x8000_0000 < 0xFFFF_FFFF_FFFF_FFFF)
                by (nonlinear_arith)
                requires
                    0 <= i < 0x8000_0000,
            ;
            assert(total_acts(time.entries@, nodes_spec@.take(i as int)) <= (i as int) * (
            0x8000_0000 * 0xFFFF_FFFF_FFFF_FFFF));
            assert(total_us(time.entries@, nodes_spec@.take(i as int)) <= (i as int) * (
            0x8000_0000 * 0xFFFF_FFFF_FFFF_FFFF));
            assert(total_batched(memory.entries@, nodes_spec@.take(i as int)) <= (i as int) * (
            0x8000_0000 * 0xFFFF_FFFF_FFFF_FFFF));
            assert(total_hits(time.entries@, nodes_spec@.take(i as int)) <= (i as int)
                * 0x8000_0000);
        }
        let ghost warnings_before = warnings@;
        let nd = &nodes_spec[i];
        let tf = tree_info_for(nodes_spec, i);
        let agg = aggregate_node(&nd.name, &nd.operators, time, memory, &mut warnings);
        let nv = NameNodeView {
            name: nd.name.clone(),
            label: nd.label.clone(),
            block: nd.block.clone(),
            fingerprint: match &nd.fingerprint {
                Some(f) => Some(f.clone()),
                None => None,
            },
            tags: clone_string_vec(&nd.tags),
            children: tf.children,
            dag_parents: tf.dag_parents,
            extra_parents: tf.extra_parents,
            self_activations: agg.self_activations,
            self_total_active_us: agg.self_total_active_us,
            self_batched_in: agg.self_batched_in,
            self_merges: agg.self_merges,
            self_merge_in: agg.self_merge_in,
            self_merge_out: agg.self_merge_out,
            self_dropped: agg.self_dropped,
            has_memory_data: agg.has_memory_data,
            operators: agg.operators,
        };
        total_mapped_activations = total_mapped_activations + agg.self_activations;
        total_mapped_us = total_mapped_us + agg.self_total_active_us;
        total_batched_in = total_batched_in + agg.self_batched_in;
        operators_mapped = operators_mapped + agg.mapped;
        out_nodes.push(nv);
        proof {
            assert(nodes_spec@.take(i + 1).drop_last() =~= nodes_spec@.take(i as int));
            assert(nodes_spec@.take(i + 1).last() == nodes_spec@[i as int]);
            assert(forall|z: int| 0 <= z < i ==> out_nodes@[z] == out_nodes@.drop_last()[z]);
            assert(node_view_ok(
                out_nodes@[i as int],
                nodes_spec@,
                i as int,
                time.entries@,
                memory.entries@,
            ));
            // warnings of this node only extend the accumulated set
            assert forall|nm: Seq<char>, ad: Seq<u32>|
                #![trigger contains_warning(warnings@, nm, ad)]
                contains_warning(warnings@, nm, ad) <==> exists|i0: int|
                    0 <= i0 < i + 1 && (#[trigger] nodes_spec@[i0]).name@ == nm
                        && norm::contains_addr(nodes_spec@[i0].operators@, ad) && time_find(
                    time.entries@,
                    ad,
                ) is None by {
                if contains_warning(warnings@, nm, ad) {
                    if contains_warning(warnings_before, nm, ad) {
                        let i0 = choose|i0: int|
                            0 <= i0 < i && (#[trigger] nodes_spec@[i0]).name@ == nm
                                && norm::contains_addr(nodes_spec@[i0].operators@, ad)
                                && time_find(time.entries@, ad) is None;
                        assert(0 <= i0 < i + 1 && nodes_spec@[i0].name@ == nm
                            && norm::contains_addr(nodes_spec@[i0].operators@, ad) && time_find(
                            time.entries@,
                            ad,
                        ) is None);
                    } else {
                        assert(nm == nodes_spec@[i as int].name@ && norm::contains_addr(
                            nodes_spec@[i as int].operators@,
                            ad,
                        ) && time_find(time.entries@, ad) is None);
                    }
                }
                if exists|i0: int|
                    0 <= i0 < i + 1 && (#[trigger] nodes_spec@[i0]).name@ == nm
                        && norm::contains_addr(nodes_spec@[i0].operators@, ad) && time_find(
                    time.entries@,
                    ad,
                ) is None {
                    let i0 = choose|i0: int|
                        0 <= i0 < i + 1 && (#[trigger] nodes_spec@[i0]).name@ == nm
                            && norm::contains_addr(nodes_spec@[i0].operators@, ad) && time_find(
                        time.entries@,
                        ad,
                    ) is None;
                    if i0 < i {
                        assert(contains_warning(warnings_before, nm, ad));
                    }
                    assert(contains_warning(warnings@, nm, ad));
                }
            }
        }
        i += 1;
    }
    proof {
        assert(nodes_spec@.take(n as int) =~= nodes_spec@);
    }
    let totals = TotalsView {
        names: nodes_spec.len(),
        operators_in_time: time.len(),
        operators_mapped,
        total_mapped_us,
        total_mapped_activations,
        total_batched_in,
    };
    Ok(ReportData { roots: out_roots, nodes: out_nodes, rules, totals, warnings })
}


// ----------------------------------------------------- spanning-tree laws

pub open spec fn view_unique_names(nodes: Seq<NamedNode>) -> bool {
    forall|i: int, j: int|
        0 <= i < j < nodes.len() ==> (#[trigger] nodes[i]).name@ != (#[trigger] nodes[j]).name@
}

/// Node `i` is a parent of node `j` (by name).
pub open spec fn name_edge(nodes: Seq<NamedNode>, i: int, j: int) -> bool {
    &&& 0 <= i < nodes.len()
    &&& 0 <= j < nodes.len()
    &&& norm::contains_str(nodes[j].parents@, nodes[i].name@)
}

pub open spec fn name_measure_ok(nodes: Seq<NamedNode>, m: Seq<nat>) -> bool {
    m.len() == nodes.len() && forall|i: int, j: int|
        #[trigger] name_edge(nodes, i, j) ==> m[j] < m[i]
}

/// The name graph is acyclic: some measure strictly decreases along every
/// parent-to-child edge.
pub open spec fn name_acyclic(nodes: Seq<NamedNode>) -> bool {
    exists|m: Seq<nat>| #[trigger] name_measure_ok(nodes, m)
}

/// Every parent name resolves to a node.
pub open spec fn view_parents_resolve(nodes: Seq<NamedNode>) -> bool {
    forall|j: int, k: int|
        #![trigger nodes[j].parents@[k]]
        0 <= j < nodes.len() && 0 <= k < nodes[j].parents@.len() ==> exists|i: int|
            0 <= i < nodes.len() && (#[trigger] nodes[i]).name@ == nodes[j].parents@[k]@
}

/// Node `i` reaches a parentless node by primary-parent steps within `fuel`
/// steps.
pub open spec fn reaches_root(nodes: Seq<NamedNode>, i: int, fuel: nat) -> bool
    decreases fuel,
{
    if !(0 <= i < nodes.len()) {
        false
    } else if primary_parent_of(nodes[i]) is None {
        true
    } else if fuel == 0 {
        false
    } else {
        exists|j: int|
            0 <= j < nodes.len() && (#[trigger] nodes[j]).name@ == primary_parent_of(
                nodes[i],
            ).unwrap() && reaches_root(nodes, j, (fuel - 1) as nat)
    }
}

/// Node `i` reaches a root after finitely many primary-parent steps.
pub open spec fn eventually_reaches(nodes: Seq<NamedNode>, i: int) -> bool {
    exists|fuel: nat| #[trigger] reaches_root(nodes, i, fuel)
}

/// The spanning tree is a partition: no node is a primary child of two
/// different parents. (With unique names, the primary parent is a function
/// of the child.)
pub proof fn lemma_tree_children_partition(
    nodes: Seq<NamedNode>,
    p1: Seq<char>,
    p2: Seq<char>,
    t: Seq<char>,
)
    requires
        view_unique_names(nodes),
        child_rel(nodes, p1, t),
        child_rel(nodes, p2, t),
    ensures
        p1 == p2,
{
    let j1 = choose|j: int|
        0 <= j < nodes.len() && (#[trigger] nodes[j]).name@ == t && primary_parent_of(nodes[j])
            == Some(p1);
    let j2 = choose|j: int|
        0 <= j < nodes.len() && (#[trigger] nodes[j]).name@ == t && primary_parent_of(nodes[j])
            == Some(p2);
    if j1 != j2 {
        assert(nodes[j1].name@ == nodes[j2].name@);
        assert(false);
    }
}

proof fn lemma_reach_up(nodes: Seq<NamedNode>, m: Seq<nat>, maxm: nat, i: int, fuel: nat)
    requires
        view_unique_names(nodes),
        view_parents_resolve(nodes),
        name_measure_ok(nodes, m),
        0 <= i < nodes.len(),
        forall|u: int| 0 <= u < m.len() ==> #[trigger] m[u] <= maxm,
        fuel >= maxm - m[i] + 1,
    ensures
        reaches_root(nodes, i, fuel),
    decreases fuel,
{
    if primary_parent_of(nodes[i]) is Some {
        let p = primary_parent_of(nodes[i]).unwrap();
        norm::lemma_normalize_strs(nodes[i].parents@);
        let np = norm::normalize_strs_spec(nodes[i].parents@);
        assert(np.len() > 0);
        assert(norm::contains_str(np, np[0]@)) by {
            assert(np[0]@ == np[0]@);
        }
        assert(norm::contains_str(nodes[i].parents@, p));
        let k = choose|k: int|
            0 <= k < nodes[i].parents@.len() && (#[trigger] nodes[i].parents@[k])@ == p;
        let j = choose|j: int|
            0 <= j < nodes.len() && (#[trigger] nodes[j]).name@ == nodes[i].parents@[k]@;
        assert(name_edge(nodes, j, i)) by {
            assert(norm::contains_str(nodes[i].parents@, nodes[j].name@));
        }
        assert(m[i] < m[j]);
        assert(m[j] <= maxm);
        assert(fuel >= 1);
        lemma_reach_up(nodes, m, maxm, j, (fuel - 1) as nat);
        assert(nodes[j].name@ == p);
        assert(reaches_root(nodes, i, fuel));
    }
}

/// Every node reaches a root by primary-parent steps: the spanning tree is
/// a forest rooted at the parentless nodes.
pub proof fn lemma_tree_reaches_root(nodes: Seq<NamedNode>)
    requires
        view_unique_names(nodes),
        view_parents_resolve(nodes),
        name_acyclic(nodes),
    ensures
        forall|i: int| 0 <= i < nodes.len() ==> eventually_reaches(nodes, i),
{
    let m = choose|m: Seq<nat>| #[trigger] name_measure_ok(nodes, m);
    assert forall|i: int| 0 <= i < nodes.len() implies eventually_reaches(nodes, i) by {
        if nodes.len() > 0 {
            let vmax = crate::graph::seq_max_index(m);
            crate::graph::lemma_seq_max_index(m);
            let maxm = m[vmax];
            lemma_reach_up(nodes, m, maxm, i, (maxm - m[i] + 1) as nat);
            assert(reaches_root(nodes, i, (maxm - m[i] + 1) as nat));
        }
    }
}

} // verus!
