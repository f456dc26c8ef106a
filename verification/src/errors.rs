//! Fatal errors and non-fatal diagnostics of the validation, aggregation and
//! layout pipeline. Every fatal error names the offending identifiers; the
//! pipeline aborts on the first one and never produces a partial result.

use vstd::prelude::*;
use vstd::string::StringExecFns;
use crate::addr::Addr;
use crate::strs::u32_to_string;

verus! {

/// A fatal structural or consistency error. The whole pipeline run aborts
/// with exactly one of these; no partial output is produced.
#[derive(Debug, Clone, PartialEq, Eq)]
pub enum ReportError {
    /// Two input nodes share an id.
    DuplicateNodeId { id: u32 },
    /// The node list is empty.
    NoNodes,
    /// A node references a parent id that no node has.
    MissingParent { node: u32, parent: u32 },
    /// Nodes exist but no node is without parents: the edges cannot form a
    /// rooted acyclic graph.
    EmptyRoots,
    /// An edge cycle; the path lists the ids or names as they were
    /// encountered, ending with the repeated entry.
    Cycle { path: Vec<String> },
    /// Two nodes in the same block carry the same fingerprint.
    FingerprintCollision { fingerprint: String, block: String, first_node: u32, second_node: u32 },
    /// A rule's plan tree holds an entry whose fingerprint is empty after
    /// trimming.
    RuleEmptyFingerprint { rule: String },
    /// A rule's plan tree lists the same fingerprint twice.
    RuleDuplicateFingerprint { rule: String, fingerprint: String },
    /// A rule's plan tree names a fingerprint that no node carries.
    RuleUnknownFingerprint { rule: String, fingerprint: String },
    /// A plan-tree entry names a parent fingerprint that is not an entry of
    /// the same plan tree.
    RulePlanParentMissing { rule: String, parent: String },
    /// A plan tree does not have exactly one sink (entry without children).
    RuleSinkCount { rule: String, found: usize },
    /// A node carries a fingerprint that no rule's plan tree records.
    FingerprintNotInRules { node: u32, fingerprint: String },
    /// Two input nodes share a name.
    DuplicateNodeName { name: String },
    /// An edge endpoint names an unknown node.
    EdgeUnknownNode { name: String },
    /// A declared root names an unknown node.
    UnknownRoot { name: String },
    /// An operator group names an unknown node.
    UnknownGroupName { name: String },
    /// The same operator address is claimed by two different nodes.
    AddrOwnedTwice { addr: Addr, first_owner: String, second_owner: String },
    /// The time and memory sources disagree on an operator's name.
    OpNameMismatch { addr: Addr, time_name: String, memory_name: String },
    /// The same address appears twice within one metric source.
    DuplicateAddr { addr: Addr },
    /// An address string is not a bracketed list of integers.
    AddrNotBracketed { text: String },
    /// An address element is not an integer that fits 32 bits.
    BadAddrElement { text: String },
}

/// A non-fatal diagnostic: an address that the topology maps to a node but
/// that a metric source does not list. The report is still produced; the
/// address contributes zero to that source's aggregates.
#[derive(Debug, Clone, PartialEq, Eq)]
pub struct MappingWarning {
    pub name: String,
    pub addr: Addr,
}

/// Render an address as bracketed, comma-separated text; the text parses
/// back to the same address.
pub fn addr_to_string(a: &Addr) -> (r: String)
    ensures
        r@ == crate::parse::addr_text(a@),
        crate::parse::parse_addr_spec(r@) == Some(a@),
{
    let mut s = String::from_str("[");
    proof {
        assert(a@.take(0) =~= Seq::<u32>::empty());
        assert(s@ =~= "["@ + crate::parse::addr_inner(a@.take(0)));
    }
    let mut i: usize = 0;
    while i < a.0.len()
        invariant
            i <= a@.len(),
            s@ == "["@ + crate::parse::addr_inner(a@.take(i as int)),
        decreases a@.len() - i,
    {
        proof {
            crate::parse::lemma_addr_inner_snoc(a@.take(i as int), a@[i as int]);
            assert(a@.take(i + 1) =~= a@.take(i as int).push(a@[i as int]));
        }
        if i > 0 {
            s.append(", ");
            let d = u32_to_string(a.0[i]);
            s.append(d.as_str());
            proof {
                assert(s@ =~= "["@ + (crate::parse::addr_inner(a@.take(i as int)) + ", "@
                    + crate::strs::u32_digits(a@[i as int] as nat)));
            }
        } else {
            let d = u32_to_string(a.0[i]);
            s.append(d.as_str());
            proof {
                assert(a@.take(0).len() == 0);
                assert(s@ =~= "["@ + crate::strs::u32_digits(a@[0] as nat));
            }
        }
        i += 1;
    }
    s.append("]");
    proof {
        assert(a@.take(a@.len() as int) =~= a@);
        assert(s@ =~= "["@ + crate::parse::addr_inner(a@) + "]"@);
        crate::parse::lemma_addr_text_parses(a@);
    }
    s
}

fn quoted(t: &str) -> String {
    let mut s = String::from_str("'");
    s.append(t);
    s.append("'");
    s
}

fn join_path(path: &Vec<String>) -> String {
    let mut s = String::new();
    let mut i: usize = 0;
    while i < path.len()
        invariant
            i <= path@.len(),
        decreases path@.len() - i,
    {
        if i > 0 {
            s.append(" -> ");
        }
        s.append(path[i].as_str());
        i += 1;
    }
    s
}

impl MappingWarning {
    /// Human-readable form of the diagnostic.
    pub fn message(&self) -> String {
        let mut s = String::from_str("topology maps name ");
        let q = quoted(self.name.as_str());
        s.append(q.as_str());
        s.append(" to addr ");
        let a = addr_to_string(&self.addr);
        s.append(a.as_str());
        s.append(", but addr not found in time log");
        s
    }
}

impl ReportError {
    /// Human-readable form of the error, naming the offending identifiers.
    pub fn message(&self) -> String {
        match self {
            ReportError::DuplicateNodeId { id } => {
                let mut s = String::from_str("duplicate node id: ");
                let d = u32_to_string(*id);
                s.append(d.as_str());
                s
            },
            ReportError::NoNodes => String::from_str("the topology contained no nodes"),
            ReportError::MissingParent { node, parent } => {
                let mut s = String::from_str("node ");
                let d = u32_to_string(*node);
                s.append(d.as_str());
                s.append(" references missing parent id ");
                let d2 = u32_to_string(*parent);
                s.append(d2.as_str());
                s
            },
            ReportError::EmptyRoots => String::from_str(
                "no roots found (graph may contain a cycle or all nodes have parents)",
            ),
            ReportError::Cycle { path } => {
                let mut s = String::from_str("cycle detected: ");
                let p = join_path(path);
                s.append(p.as_str());
                s
            },
            ReportError::FingerprintCollision { fingerprint, block, first_node, second_node } => {
                let mut s = String::from_str("fingerprint ");
                let q = quoted(fingerprint.as_str());
                s.append(q.as_str());
                s.append(" is used by multiple nodes in block ");
                let qb = quoted(block.as_str());
                s.append(qb.as_str());
                s.append(" (");
                let d = u32_to_string(*first_node);
                s.append(d.as_str());
                s.append(" and ");
                let d2 = u32_to_string(*second_node);
                s.append(d2.as_str());
                s.append(")");
                s
            },
            ReportError::RuleEmptyFingerprint { rule } => {
                let mut s = String::from_str("rule ");
                let q = quoted(rule.as_str());
                s.append(q.as_str());
                s.append(" has an empty fingerprint entry");
                s
            },
            ReportError::RuleDuplicateFingerprint { rule, fingerprint } => {
                let mut s = String::from_str("rule ");
                let q = quoted(rule.as_str());
                s.append(q.as_str());
                s.append(" has duplicate fingerprint ");
                let qf = quoted(fingerprint.as_str());
                s.append(qf.as_str());
                s.append(" in plan tree");
                s
            },
            ReportError::RuleUnknownFingerprint { rule, fingerprint } => {
                let mut s = String::from_str("rule ");
                let q = quoted(rule.as_str());
                s.append(q.as_str());
                s.append(" references fingerprint ");
                let qf = quoted(fingerprint.as_str());
                s.append(qf.as_str());
                s.append(" not found in any node");
                s
            },
            ReportError::RulePlanParentMissing { rule, parent } => {
                let mut s = String::from_str("rule ");
                let q = quoted(rule.as_str());
                s.append(q.as_str());
                s.append(" references parent fingerprint ");
                let qp = quoted(parent.as_str());
                s.append(qp.as_str());
                s.append(" not present in its plan tree");
                s
            },
            ReportError::RuleSinkCount { rule, found } => {
                let mut s = String::from_str("rule ");
                let q = quoted(rule.as_str());
                s.append(q.as_str());
                s.append(" plan tree must have exactly one sink fingerprint (found ");
                let d = usize_to_string(*found);
                s.append(d.as_str());
                s.append(")");
                s
            },
            ReportError::FingerprintNotInRules { node, fingerprint } => {
                let mut s = String::from_str("node ");
                let d = u32_to_string(*node);
                s.append(d.as_str());
                s.append(" has fingerprint ");
                let qf = quoted(fingerprint.as_str());
                s.append(qf.as_str());
                s.append(" but it is not recorded in rules");
                s
            },
            ReportError::DuplicateNodeName { name } => {
                let mut s = String::from_str("duplicate node name: ");
                s.append(name.as_str());
                s
            },
            ReportError::EdgeUnknownNode { name } => {
                let mut s = String::from_str("edge references unknown node: ");
                s.append(name.as_str());
                s
            },
            ReportError::UnknownRoot { name } => {
                let mut s = String::from_str("roots references unknown node: ");
                s.append(name.as_str());
                s
            },
            ReportError::UnknownGroupName { name } => {
                let mut s = String::from_str("operator group references unknown name: ");
                s.append(name.as_str());
                s
            },
            ReportError::AddrOwnedTwice { addr, first_owner, second_owner } => {
                let mut s = String::from_str("operator addr ");
                let a = addr_to_string(addr);
                s.append(a.as_str());
                s.append(" is assigned to multiple names: ");
                s.append(first_owner.as_str());
                s.append(" and ");
                s.append(second_owner.as_str());
                s
            },
            ReportError::OpNameMismatch { addr, time_name, memory_name } => {
                let mut s = String::from_str("op_name mismatch at addr ");
                let a = addr_to_string(addr);
                s.append(a.as_str());
                s.append(": time log has ");
                let qt = quoted(time_name.as_str());
                s.append(qt.as_str());
                s.append(" but memory log has ");
                let qm = quoted(memory_name.as_str());
                s.append(qm.as_str());
                s
            },
            ReportError::DuplicateAddr { addr } => {
                let mut s = String::from_str("duplicate addr entry: ");
                let a = addr_to_string(addr);
                s.append(a.as_str());
                s
            },
            ReportError::AddrNotBracketed { text } => {
                let mut s = String::from_str("addr must be bracketed: ");
                s.append(text.as_str());
                s
            },
            ReportError::BadAddrElement { text } => {
                let mut s = String::from_str("bad addr element: ");
                s.append(text.as_str());
                s
            },
        }
    }
}

/// Render a count in decimal; counts are bounded by collection sizes, so the
/// 32-bit renderer covers realistic values and larger ones saturate.
fn usize_to_string(n: usize) -> String {
    if n > 0xFFFF_FFFF {
        u32_to_string(0xFFFF_FFFF)
    } else {
        u32_to_string(n as u32)
    }
}

} // verus!
