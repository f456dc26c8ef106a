//! Normalization of edge and operator lists: sorting and deduplication into
//! strictly increasing sequences, for ids, names and addresses.

use vstd::prelude::*;
use vstd::string::StrSliceExecFns;
use crate::addr::{Addr, seq_u32_lt, lemma_seq_u32_lt_trichotomy, lemma_seq_u32_lt_trans};
use crate::strs::{seq_char_lt, lemma_seq_char_lt_trichotomy, lemma_seq_char_lt_trans};

verus! {

/// Appending extends membership by exactly the new element.
pub proof fn lemma_push_contains<A>(s: Seq<A>, x: A)
    ensures
        forall|y: A| #[trigger] s.push(x).contains(y) <==> s.contains(y) || y == x,
{
    assert forall|y: A| #[trigger] s.push(x).contains(y) <==> s.contains(y) || y == x by {
        if s.push(x).contains(y) {
            let i = choose|i: int| 0 <= i < s.push(x).len() && s.push(x)[i] == y;
            if i < s.len() {
                assert(s[i] == y);
            }
        }
        if s.contains(y) {
            let i = choose|i: int| 0 <= i < s.len() && s[i] == y;
            assert(s.push(x)[i] == y);
        }
        if y == x {
            assert(s.push(x)[s.len() as int] == y);
        }
    }
}

// ---------------------------------------------------------------- u32 ids

pub open spec fn sorted_unique_u32(s: Seq<u32>) -> bool {
    forall|i: int, j: int| 0 <= i < j < s.len() ==> s[i] < s[j]
}

/// Insert `x` into a strictly sorted sequence, keeping it strictly sorted.
pub open spec fn insert_unique_u32(s: Seq<u32>, x: u32) -> Seq<u32>
    decreases s.len(),
{
    if s.len() == 0 {
        seq![x]
    } else if x < s[0] {
        seq![x] + s
    } else if x == s[0] {
        s
    } else {
        seq![s[0]] + insert_unique_u32(s.skip(1), x)
    }
}

/// The sorted deduplication of `s`.
pub open spec fn normalize_u32_spec(s: Seq<u32>) -> Seq<u32>
    decreases s.len(),
{
    if s.len() == 0 {
        Seq::empty()
    } else {
        insert_unique_u32(normalize_u32_spec(s.drop_last()), s.last())
    }
}

pub proof fn lemma_insert_unique_u32(s: Seq<u32>, x: u32)
    requires
        sorted_unique_u32(s),
    ensures
        sorted_unique_u32(insert_unique_u32(s, x)),
        forall|y: u32| insert_unique_u32(s, x).contains(y) <==> s.contains(y) || y == x,
        insert_unique_u32(s, x).contains(x),
        insert_unique_u32(s, x).len() <= s.len() + 1,
    decreases s.len(),
{
    let r = insert_unique_u32(s, x);
    if s.len() == 0 {
        assert(r[0] == x);
    } else if x < s[0] {
        assert(r[0] == x);
    } else if x == s[0] {
        assert(r.contains(x)) by {
            assert(r[0] == x);
        }
    } else {
        lemma_insert_unique_u32_contains_x(s, x);
    }
    if s.len() == 0 {
        assert forall|y: u32| r.contains(y) <==> s.contains(y) || y == x by {
            if y == x {
                assert(r[0] == x);
            }
        }
    } else if x < s[0] {
        assert forall|y: u32| r.contains(y) <==> s.contains(y) || y == x by {
            if r.contains(y) {
                let i = choose|i: int| 0 <= i < r.len() && r[i] == y;
                if i > 0 {
                    assert(s[i - 1] == y);
                }
            }
            if s.contains(y) {
                let i = choose|i: int| 0 <= i < s.len() && s[i] == y;
                assert(r[i + 1] == y);
            }
            if y == x {
                assert(r[0] == y);
            }
        }
    } else if x == s[0] {
        assert forall|y: u32| r.contains(y) <==> s.contains(y) || y == x by {
            if y == x {
                assert(s[0] == y);
            }
        }
    } else {
        let t = s.skip(1);
        assert(sorted_unique_u32(t)) by {
            assert(forall|i: int, j: int|
                0 <= i < j < t.len() ==> t[i] == s[i + 1] && t[j] == s[j + 1]);
        }
        lemma_insert_unique_u32(t, x);
        let rt = insert_unique_u32(t, x);
        // sortedness: s[0] < x and s[0] < every element of t.
        assert forall|i: int, j: int| 0 <= i < j < r.len() implies r[i] < r[j] by {
            if i == 0 {
                assert(r[j] == rt[j - 1]);
                assert(rt.contains(rt[j - 1]));
                if rt[j - 1] != x {
                    assert(t.contains(rt[j - 1]));
                    let k = choose|k: int| 0 <= k < t.len() && t[k] == rt[j - 1];
                    assert(s[k + 1] == rt[j - 1]);
                }
            } else {
                assert(r[i] == rt[i - 1] && r[j] == rt[j - 1]);
            }
        }
        assert forall|y: u32| r.contains(y) <==> s.contains(y) || y == x by {
            if r.contains(y) {
                let i = choose|i: int| 0 <= i < r.len() && r[i] == y;
                if i == 0 {
                    assert(s[0] == y);
                } else {
                    assert(rt[i - 1] == y);
                    assert(rt.contains(y));
                    if t.contains(y) {
                        let k = choose|k: int| 0 <= k < t.len() && t[k] == y;
                        assert(s[k + 1] == y);
                    }
                }
            }
            if s.contains(y) {
                let i = choose|i: int| 0 <= i < s.len() && s[i] == y;
                if i == 0 {
                    assert(r[0] == y);
                } else {
                    assert(t[i - 1] == y);
                    assert(t.contains(y));
                    assert(rt.contains(y));
                    let k = choose|k: int| 0 <= k < rt.len() && rt[k] == y;
                    assert(r[k + 1] == y);
                }
            }
            if y == x {
                assert(rt.contains(y));
                let k = choose|k: int| 0 <= k < rt.len() && rt[k] == y;
                assert(r[k + 1] == y);
            }
        }
    }
}

proof fn lemma_insert_unique_u32_contains_x(s: Seq<u32>, x: u32)
    ensures
        insert_unique_u32(s, x).contains(x),
    decreases s.len(),
{
    let r = insert_unique_u32(s, x);
    if s.len() == 0 {
        assert(r[0] == x);
    } else if x < s[0] {
        assert(r[0] == x);
    } else if x == s[0] {
        assert(r[0] == x);
    } else {
        lemma_insert_unique_u32_contains_x(s.skip(1), x);
        let rt = insert_unique_u32(s.skip(1), x);
        let k = choose|k: int| 0 <= k < rt.len() && rt[k] == x;
        assert(r[k + 1] == x);
    }
}

pub proof fn lemma_normalize_u32(s: Seq<u32>)
    ensures
        sorted_unique_u32(normalize_u32_spec(s)),
        forall|y: u32| normalize_u32_spec(s).contains(y) <==> s.contains(y),
        normalize_u32_spec(s).len() <= s.len(),
    decreases s.len(),
{
    if s.len() > 0 {
        let p = s.drop_last();
        lemma_normalize_u32(p);
        lemma_insert_unique_u32(normalize_u32_spec(p), s.last());
        assert forall|y: u32| normalize_u32_spec(s).contains(y) <==> s.contains(y) by {
            if p.contains(y) {
                let i = choose|i: int| 0 <= i < p.len() && p[i] == y;
                assert(s[i] == y);
            }
            if s.contains(y) {
                let i = choose|i: int| 0 <= i < s.len() && s[i] == y;
                if i < s.len() - 1 {
                    assert(p[i] == y);
                }
            }
        }
    }
}

proof fn lemma_insert_at_pos_u32(s: Seq<u32>, x: u32, pos: int)
    requires
        sorted_unique_u32(s),
        0 <= pos <= s.len(),
        forall|k: int| 0 <= k < pos ==> s[k] < x,
        pos == s.len() || s[pos] >= x,
    ensures
        insert_unique_u32(s, x) == if pos < s.len() && s[pos] == x {
            s
        } else {
            s.insert(pos, x)
        },
    decreases s.len(),
{
    if s.len() == 0 {
        assert(insert_unique_u32(s, x) =~= s.insert(0, x));
    } else if pos == 0 {
        if s[0] == x {
        } else {
            assert(x < s[0]);
            assert(seq![x] + s =~= s.insert(0, x));
        }
    } else {
        assert(s[0] < x);
        let t = s.skip(1);
        assert(sorted_unique_u32(t)) by {
            assert(forall|i: int, j: int|
                0 <= i < j < t.len() ==> t[i] == s[i + 1] && t[j] == s[j + 1]);
        }
        assert(forall|k: int| 0 <= k < pos - 1 ==> t[k] == s[k + 1] && t[k] < x);
        lemma_insert_at_pos_u32(t, x, pos - 1);
        if pos < s.len() && s[pos] == x {
            assert(t[pos - 1] == x);
            assert(seq![s[0]] + t =~= s);
        } else {
            assert(seq![s[0]] + t.insert(pos - 1, x) =~= s.insert(pos, x));
        }
    }
}

/// Sort and deduplicate a list of ids.
pub fn normalize_parents(parents: &Vec<u32>) -> (r: Vec<u32>)
    ensures
        r@ == normalize_u32_spec(parents@),
        sorted_unique_u32(r@),
        forall|y: u32| r@.contains(y) <==> parents@.contains(y),
        r@.len() <= parents@.len(),
{
    let n: usize = parents.len();
    let mut r: Vec<u32> = Vec::new();
    proof {
        assert(parents@.take(0) =~= Seq::<u32>::empty());
    }
    let mut idx: usize = 0;
    while idx < n
        invariant
            n == parents@.len(),
            idx <= n,
            r@ == normalize_u32_spec(parents@.take(idx as int)),
        decreases n - idx,
    {
        proof {
            lemma_normalize_u32(parents@.take(idx as int));
        }
        let x = parents[idx];
        let mut pos: usize = 0;
        while pos < r.len() && r[pos] < x
            invariant
                pos <= r@.len(),
                forall|k: int| 0 <= k < pos ==> r@[k] < x,
            decreases r@.len() - pos,
        {
            pos += 1;
        }
        proof {
            lemma_insert_at_pos_u32(r@, x, pos as int);
        }
        if pos < r.len() && r[pos] == x {
        } else {
            r.insert(pos, x);
        }
        proof {
            assert(parents@.take(idx + 1).drop_last() =~= parents@.take(idx as int));
            assert(parents@.take(idx + 1).last() == parents@[idx as int]);
        }
        idx += 1;
    }
    proof {
        assert(parents@.take(n as int) =~= parents@);
        lemma_normalize_u32(parents@);
    }
    r
}

// ------------------------------------------------------------- name lists

/// Strictly increasing in the lexicographic character order, so also free of
/// duplicate views.
pub open spec fn sorted_unique_strs(s: Seq<String>) -> bool {
    forall|i: int, j: int| 0 <= i < j < s.len() ==> seq_char_lt(s[i]@, s[j]@)
}

pub open spec fn contains_str(s: Seq<String>, t: Seq<char>) -> bool {
    exists|i: int| 0 <= i < s.len() && s[i]@ == t
}

pub open spec fn insert_unique_str(s: Seq<String>, x: String) -> Seq<String>
    decreases s.len(),
{
    if s.len() == 0 {
        seq![x]
    } else if seq_char_lt(x@, s[0]@) {
        seq![x] + s
    } else if x@ == s[0]@ {
        s
    } else {
        seq![s[0]] + insert_unique_str(s.skip(1), x)
    }
}

pub open spec fn normalize_strs_spec(s: Seq<String>) -> Seq<String>
    decreases s.len(),
{
    if s.len() == 0 {
        Seq::empty()
    } else {
        insert_unique_str(normalize_strs_spec(s.drop_last()), s.last())
    }
}

pub proof fn lemma_insert_unique_str(s: Seq<String>, x: String)
    requires
        sorted_unique_strs(s),
    ensures
        sorted_unique_strs(insert_unique_str(s, x)),
        forall|t: Seq<char>|
            contains_str(insert_unique_str(s, x), t) <==> contains_str(s, t) || t == x@,
        contains_str(insert_unique_str(s, x), x@),
        insert_unique_str(s, x).len() <= s.len() + 1,
    decreases s.len(),
{
    let r = insert_unique_str(s, x);
    lemma_insert_unique_str_contains_x(s, x);
    if s.len() == 0 {
        assert forall|t: Seq<char>| contains_str(r, t) <==> contains_str(s, t) || t == x@ by {
            if t == x@ {
                assert(r[0]@ == t);
            }
        }
    } else if seq_char_lt(x@, s[0]@) {
        assert forall|i: int, j: int| 0 <= i < j < r.len() implies seq_char_lt(r[i]@, r[j]@) by {
            if i == 0 && j > 1 {
                lemma_seq_char_lt_trans(x@, s[0]@, s[j - 1]@);
            }
        }
        assert forall|t: Seq<char>| contains_str(r, t) <==> contains_str(s, t) || t == x@ by {
            if contains_str(r, t) {
                let i = choose|i: int| 0 <= i < r.len() && r[i]@ == t;
                if i > 0 {
                    assert(s[i - 1]@ == t);
                }
            }
            if contains_str(s, t) {
                let i = choose|i: int| 0 <= i < s.len() && s[i]@ == t;
                assert(r[i + 1]@ == t);
            }
            if t == x@ {
                assert(r[0]@ == t);
            }
        }
    } else if x@ == s[0]@ {
        assert forall|t: Seq<char>| contains_str(r, t) <==> contains_str(s, t) || t == x@ by {
            if t == x@ {
                assert(s[0]@ == t);
            }
        }
    } else {
        lemma_seq_char_lt_trichotomy(x@, s[0]@);
        assert(seq_char_lt(s[0]@, x@));
        let t0 = s.skip(1);
        assert(sorted_unique_strs(t0)) by {
            assert(forall|i: int, j: int|
                0 <= i < j < t0.len() ==> t0[i] == s[i + 1] && t0[j] == s[j + 1]);
        }
        lemma_insert_unique_str(t0, x);
        let rt = insert_unique_str(t0, x);
        assert forall|i: int, j: int| 0 <= i < j < r.len() implies seq_char_lt(r[i]@, r[j]@) by {
            if i == 0 {
                assert(r[j] == rt[j - 1]);
                assert(contains_str(rt, rt[j - 1]@));
                if rt[j - 1]@ != x@ {
                    assert(contains_str(t0, rt[j - 1]@));
                    let k = choose|k: int| 0 <= k < t0.len() && t0[k]@ == rt[j - 1]@;
                    assert(s[k + 1]@ == rt[j - 1]@);
                }
            } else {
                assert(r[i] == rt[i - 1] && r[j] == rt[j - 1]);
            }
        }
        assert forall|t: Seq<char>| contains_str(r, t) <==> contains_str(s, t) || t == x@ by {
            if contains_str(r, t) {
                let i = choose|i: int| 0 <= i < r.len() && r[i]@ == t;
                if i == 0 {
                    assert(s[0]@ == t);
                } else {
                    assert(rt[i - 1]@ == t);
                    assert(contains_str(rt, t));
                    if contains_str(t0, t) {
                        let k = choose|k: int| 0 <= k < t0.len() && t0[k]@ == t;
                        assert(s[k + 1]@ == t);
                    }
                }
            }
            if contains_str(s, t) {
                let i = choose|i: int| 0 <= i < s.len() && s[i]@ == t;
                if i == 0 {
                    assert(r[0]@ == t);
                } else {
                    assert(t0[i - 1]@ == t);
                    assert(contains_str(t0, t));
                    assert(contains_str(rt, t));
                    let k = choose|k: int| 0 <= k < rt.len() && rt[k]@ == t;
                    assert(r[k + 1]@ == t);
                }
            }
            if t == x@ {
                assert(contains_str(rt, t));
                let k = choose|k: int| 0 <= k < rt.len() && rt[k]@ == t;
                assert(r[k + 1]@ == t);
            }
        }
    }
}

proof fn lemma_insert_unique_str_contains_x(s: Seq<String>, x: String)
    ensures
        contains_str(insert_unique_str(s, x), x@),
    decreases s.len(),
{
    let r = insert_unique_str(s, x);
    if s.len() == 0 {
        assert(r[0]@ == x@);
    } else if seq_char_lt(x@, s[0]@) {
        assert(r[0]@ == x@);
    } else if x@ == s[0]@ {
        assert(r[0]@ == x@);
    } else {
        lemma_insert_unique_str_contains_x(s.skip(1), x);
        let rt = insert_unique_str(s.skip(1), x);
        let k = choose|k: int| 0 <= k < rt.len() && rt[k]@ == x@;
        assert(r[k + 1]@ == x@);
    }
}

pub proof fn lemma_normalize_strs(s: Seq<String>)
    ensures
        sorted_unique_strs(normalize_strs_spec(s)),
        forall|t: Seq<char>| contains_str(normalize_strs_spec(s), t) <==> contains_str(s, t),
        normalize_strs_spec(s).len() <= s.len(),
    decreases s.len(),
{
    if s.len() > 0 {
        let p = s.drop_last();
        lemma_normalize_strs(p);
        lemma_insert_unique_str(normalize_strs_spec(p), s.last());
        assert forall|t: Seq<char>|
            contains_str(normalize_strs_spec(s), t) <==> contains_str(s, t) by {
            if contains_str(p, t) {
                let i = choose|i: int| 0 <= i < p.len() && p[i]@ == t;
                assert(s[i]@ == t);
            }
            if contains_str(s, t) {
                let i = choose|i: int| 0 <= i < s.len() && s[i]@ == t;
                if i < s.len() - 1 {
                    assert(p[i]@ == t);
                } else {
                    assert(s.last()@ == t);
                }
            }
        }
    }
}

proof fn lemma_insert_at_pos_str(s: Seq<String>, x: String, pos: int)
    requires
        sorted_unique_strs(s),
        0 <= pos <= s.len(),
        forall|k: int| 0 <= k < pos ==> seq_char_lt(s[k]@, x@),
        pos == s.len() || !seq_char_lt(s[pos]@, x@),
    ensures
        insert_unique_str(s, x) == if pos < s.len() && s[pos]@ == x@ {
            s
        } else {
            s.insert(pos, x)
        },
    decreases s.len(),
{
    if s.len() == 0 {
        assert(insert_unique_str(s, x) =~= s.insert(0, x));
    } else if pos == 0 {
        lemma_seq_char_lt_trichotomy(x@, s[0]@);
        if s[0]@ == x@ {
        } else {
            assert(seq_char_lt(x@, s[0]@));
            assert(seq![x] + s =~= s.insert(0, x));
        }
    } else {
        assert(seq_char_lt(s[0]@, x@));
        lemma_seq_char_lt_trichotomy(x@, s[0]@);
        let t = s.skip(1);
        assert(sorted_unique_strs(t)) by {
            assert(forall|i: int, j: int|
                0 <= i < j < t.len() ==> t[i] == s[i + 1] && t[j] == s[j + 1]);
        }
        assert(forall|k: int| 0 <= k < pos - 1 ==> t[k] == s[k + 1]);
        lemma_insert_at_pos_str(t, x, pos - 1);
        if pos < s.len() && s[pos]@ == x@ {
            assert(t[pos - 1]@ == x@);
            assert(seq![s[0]] + t =~= s);
        } else {
            assert(seq![s[0]] + t.insert(pos - 1, x) =~= s.insert(pos, x));
        }
    }
}

/// Sort and deduplicate a list of names in lexicographic order.
pub fn normalize_names(names: &Vec<String>) -> (r: Vec<String>)
    ensures
        r@ == normalize_strs_spec(names@),
        sorted_unique_strs(r@),
        forall|t: Seq<char>| contains_str(r@, t) <==> contains_str(names@, t),
        r@.len() <= names@.len(),
{
    let n: usize = names.len();
    let mut r: Vec<String> = Vec::new();
    proof {
        assert(names@.take(0) =~= Seq::<String>::empty());
    }
    let mut idx: usize = 0;
    while idx < n
        invariant
            n == names@.len(),
            idx <= n,
            r@ == normalize_strs_spec(names@.take(idx as int)),
        decreases n - idx,
    {
        proof {
            lemma_normalize_strs(names@.take(idx as int));
        }
        let x = names[idx].clone();
        assert(x@ == names@[idx as int]@);
        let mut pos: usize = 0;
        while pos < r.len() && str_lt_pair(&r[pos], &x)
            invariant
                pos <= r@.len(),
                forall|k: int| 0 <= k < pos ==> seq_char_lt(r@[k]@, x@),
            decreases r@.len() - pos,
        {
            pos += 1;
        }
        proof {
            lemma_insert_at_pos_str(r@, x, pos as int);
        }
        if pos < r.len() && string_eq(&r[pos], &x) {
            proof {
                assert(insert_unique_str(r@, x) == r@);
            }
        } else {
            r.insert(pos, x);
        }
        proof {
            assert(names@.take(idx + 1).drop_last() =~= names@.take(idx as int));
            assert(names@.take(idx + 1).last() == names@[idx as int]);
        }
        idx += 1;
    }
    proof {
        assert(names@.take(n as int) =~= names@);
        lemma_normalize_strs(names@);
    }
    r
}

pub fn str_lt_pair(a: &String, b: &String) -> (r: bool)
    ensures
        r == seq_char_lt(a@, b@),
{
    crate::strs::str_lt(a.as_str(), b.as_str())
}

pub fn string_eq(a: &String, b: &String) -> (r: bool)
    ensures
        r == (a@ == b@),
{
    a.eq(b)
}

// ---------------------------------------------------------- address lists

pub open spec fn sorted_unique_addrs(s: Seq<Addr>) -> bool {
    forall|i: int, j: int| 0 <= i < j < s.len() ==> seq_u32_lt(s[i]@, s[j]@)
}

pub open spec fn contains_addr(s: Seq<Addr>, t: Seq<u32>) -> bool {
    exists|i: int| 0 <= i < s.len() && s[i]@ == t
}

pub open spec fn insert_unique_addr(s: Seq<Addr>, x: Addr) -> Seq<Addr>
    decreases s.len(),
{
    if s.len() == 0 {
        seq![x]
    } else if seq_u32_lt(x@, s[0]@) {
        seq![x] + s
    } else if x@ == s[0]@ {
        s
    } else {
        seq![s[0]] + insert_unique_addr(s.skip(1), x)
    }
}

pub open spec fn normalize_addrs_spec(s: Seq<Addr>) -> Seq<Addr>
    decreases s.len(),
{
    if s.len() == 0 {
        Seq::empty()
    } else {
        insert_unique_addr(normalize_addrs_spec(s.drop_last()), s.last())
    }
}

pub proof fn lemma_insert_unique_addr(s: Seq<Addr>, x: Addr)
    requires
        sorted_unique_addrs(s),
    ensures
        sorted_unique_addrs(insert_unique_addr(s, x)),
        forall|t: Seq<u32>|
            contains_addr(insert_unique_addr(s, x), t) <==> contains_addr(s, t) || t == x@,
        contains_addr(insert_unique_addr(s, x), x@),
        insert_unique_addr(s, x).len() <= s.len() + 1,
    decreases s.len(),
{
    let r = insert_unique_addr(s, x);
    lemma_insert_unique_addr_contains_x(s, x);
    if s.len() == 0 {
        assert forall|t: Seq<u32>| contains_addr(r, t) <==> contains_addr(s, t) || t == x@ by {
            if t == x@ {
                assert(r[0]@ == t);
            }
        }
    } else if seq_u32_lt(x@, s[0]@) {
        assert forall|i: int, j: int| 0 <= i < j < r.len() implies seq_u32_lt(r[i]@, r[j]@) by {
            if i == 0 && j > 1 {
                lemma_seq_u32_lt_trans(x@, s[0]@, s[j - 1]@);
            }
        }
        assert forall|t: Seq<u32>| contains_addr(r, t) <==> contains_addr(s, t) || t == x@ by {
            if contains_addr(r, t) {
                let i = choose|i: int| 0 <= i < r.len() && r[i]@ == t;
                if i > 0 {
                    assert(s[i - 1]@ == t);
                }
            }
            if contains_addr(s, t) {
                let i = choose|i: int| 0 <= i < s.len() && s[i]@ == t;
                assert(r[i + 1]@ == t);
            }
            if t == x@ {
                assert(r[0]@ == t);
            }
        }
    } else if x@ == s[0]@ {
        assert forall|t: Seq<u32>| contains_addr(r, t) <==> contains_addr(s, t) || t == x@ by {
            if t == x@ {
                assert(s[0]@ == t);
            }
        }
    } else {
        lemma_seq_u32_lt_trichotomy(x@, s[0]@);
        assert(seq_u32_lt(s[0]@, x@));
        let t0 = s.skip(1);
        assert(sorted_unique_addrs(t0)) by {
            assert(forall|i: int, j: int|
                0 <= i < j < t0.len() ==> t0[i] == s[i + 1] && t0[j] == s[j + 1]);
        }
        lemma_insert_unique_addr(t0, x);
        let rt = insert_unique_addr(t0, x);
        assert forall|i: int, j: int| 0 <= i < j < r.len() implies seq_u32_lt(r[i]@, r[j]@) by {
            if i == 0 {
                assert(r[j] == rt[j - 1]);
                assert(contains_addr(rt, rt[j - 1]@));
                if rt[j - 1]@ != x@ {
                    assert(contains_addr(t0, rt[j - 1]@));
                    let k = choose|k: int| 0 <= k < t0.len() && t0[k]@ == rt[j - 1]@;
                    assert(s[k + 1]@ == rt[j - 1]@);
                }
            } else {
                assert(r[i] == rt[i - 1] && r[j] == rt[j - 1]);
            }
        }
        assert forall|t: Seq<u32>| contains_addr(r, t) <==> contains_addr(s, t) || t == x@ by {
            if contains_addr(r, t) {
                let i = choose|i: int| 0 <= i < r.len() && r[i]@ == t;
                if i == 0 {
                    assert(s[0]@ == t);
                } else {
                    assert(rt[i - 1]@ == t);
                    assert(contains_addr(rt, t));
                    if contains_addr(t0, t) {
                        let k = choose|k: int| 0 <= k < t0.len() && t0[k]@ == t;
                        assert(s[k + 1]@ == t);
                    }
                }
            }
            if contains_addr(s, t) {
                let i = choose|i: int| 0 <= i < s.len() && s[i]@ == t;
                if i == 0 {
                    assert(r[0]@ == t);
                } else {
                    assert(t0[i - 1]@ == t);
                    assert(contains_addr(t0, t));
                    assert(contains_addr(rt, t));
                    let k = choose|k: int| 0 <= k < rt.len() && rt[k]@ == t;
                    assert(r[k + 1]@ == t);
                }
            }
            if t == x@ {
                assert(contains_addr(rt, t));
                let k = choose|k: int| 0 <= k < rt.len() && rt[k]@ == t;
                assert(r[k + 1]@ == t);
            }
        }
    }
}

proof fn lemma_insert_unique_addr_contains_x(s: Seq<Addr>, x: Addr)
    ensures
        contains_addr(insert_unique_addr(s, x), x@),
    decreases s.len(),
{
    let r = insert_unique_addr(s, x);
    if s.len() == 0 {
        assert(r[0]@ == x@);
    } else if seq_u32_lt(x@, s[0]@) {
        assert(r[0]@ == x@);
    } else if x@ == s[0]@ {
        assert(r[0]@ == x@);
    } else {
        lemma_insert_unique_addr_contains_x(s.skip(1), x);
        let rt = insert_unique_addr(s.skip(1), x);
        let k = choose|k: int| 0 <= k < rt.len() && rt[k]@ == x@;
        assert(r[k + 1]@ == x@);
    }
}

pub proof fn lemma_normalize_addrs(s: Seq<Addr>)
    ensures
        sorted_unique_addrs(normalize_addrs_spec(s)),
        forall|t: Seq<u32>| contains_addr(normalize_addrs_spec(s), t) <==> contains_addr(s, t),
        normalize_addrs_spec(s).len() <= s.len(),
    decreases s.len(),
{
    if s.len() > 0 {
        let p = s.drop_last();
        lemma_normalize_addrs(p);
        lemma_insert_unique_addr(normalize_addrs_spec(p), s.last());
        assert forall|t: Seq<u32>|
            contains_addr(normalize_addrs_spec(s), t) <==> contains_addr(s, t) by {
            if contains_addr(p, t) {
                let i = choose|i: int| 0 <= i < p.len() && p[i]@ == t;
                assert(s[i]@ == t);
            }
            if contains_addr(s, t) {
                let i = choose|i: int| 0 <= i < s.len() && s[i]@ == t;
                if i < s.len() - 1 {
                    assert(p[i]@ == t);
                } else {
                    assert(s.last()@ == t);
                }
            }
        }
    }
}

proof fn lemma_insert_at_pos_addr(s: Seq<Addr>, x: Addr, pos: int)
    requires
        sorted_unique_addrs(s),
        0 <= pos <= s.len(),
        forall|k: int| 0 <= k < pos ==> seq_u32_lt(s[k]@, x@),
        pos == s.len() || !seq_u32_lt(s[pos]@, x@),
    ensures
        insert_unique_addr(s, x) == if pos < s.len() && s[pos]@ == x@ {
            s
        } else {
            s.insert(pos, x)
        },
    decreases s.len(),
{
    if s.len() == 0 {
        assert(insert_unique_addr(s, x) =~= s.insert(0, x));
    } else if pos == 0 {
        lemma_seq_u32_lt_trichotomy(x@, s[0]@);
        if s[0]@ == x@ {
        } else {
            assert(seq_u32_lt(x@, s[0]@));
            assert(seq![x] + s =~= s.insert(0, x));
        }
    } else {
        assert(seq_u32_lt(s[0]@, x@));
        lemma_seq_u32_lt_trichotomy(x@, s[0]@);
        let t = s.skip(1);
        assert(sorted_unique_addrs(t)) by {
            assert(forall|i: int, j: int|
                0 <= i < j < t.len() ==> t[i] == s[i + 1] && t[j] == s[j + 1]);
        }
        assert(forall|k: int| 0 <= k < pos - 1 ==> t[k] == s[k + 1]);
        lemma_insert_at_pos_addr(t, x, pos - 1);
        if pos < s.len() && s[pos]@ == x@ {
            assert(t[pos - 1]@ == x@);
            assert(seq![s[0]] + t =~= s);
        } else {
            assert(seq![s[0]] + t.insert(pos - 1, x) =~= s.insert(pos, x));
        }
    }
}

/// Sort and deduplicate a list of operator addresses.
/// Sort and deduplicate a list of operator addresses.
///
/// The result holds copies, so the contract speaks of address views: the
/// output is strictly increasing and carries exactly the input's addresses.
pub fn normalize_operators(operators: &Vec<Addr>) -> (r: Vec<Addr>)
    ensures
        sorted_unique_addrs(r@),
        forall|t: Seq<u32>| contains_addr(r@, t) <==> contains_addr(operators@, t),
        r@.len() <= operators@.len(),
{
    let n: usize = operators.len();
    let mut r: Vec<Addr> = Vec::new();
    let mut idx: usize = 0;
    while idx < n
        invariant
            n == operators@.len(),
            idx <= n,
            sorted_unique_addrs(r@),
            forall|t: Seq<u32>|
                contains_addr(r@, t) <==> contains_addr(operators@.take(idx as int), t),
            r@.len() <= idx,
        decreases n - idx,
    {
        let ghost r_old = r@;
        let x = operators[idx].dup();
        assert(x@ == operators@[idx as int]@);
        let mut pos: usize = 0;
        while pos < r.len() && r[pos].lt(&x)
            invariant
                pos <= r@.len(),
                forall|k: int| 0 <= k < pos ==> seq_u32_lt(r@[k]@, x@),
            decreases r@.len() - pos,
        {
            pos += 1;
        }
        proof {
            lemma_insert_at_pos_addr(r@, x, pos as int);
            lemma_insert_unique_addr(r@, x);
        }
        if pos < r.len() && r[pos].eq_addr(&x) {
            proof {
                assert(insert_unique_addr(r@, x) == r@);
            }
        } else {
            r.insert(pos, x);
        }
        assert(r@ == insert_unique_addr(r_old, x));
        proof {
            assert forall|t: Seq<u32>|
                contains_addr(r@, t) <==> contains_addr(
                    operators@.take(idx + 1),
                    t,
                ) by {
                assert(contains_addr(insert_unique_addr(r_old, x), t) <==> contains_addr(
                    r_old,
                    t,
                ) || t == x@);
                if contains_addr(operators@.take(idx + 1), t) {
                    let i = choose|i: int|
                        0 <= i < operators@.take(idx + 1).len() && (#[trigger] operators@.take(
                            idx + 1,
                        )[i])@ == t;
                    if i < idx {
                        assert(operators@.take(idx as int)[i]@ == t);
                        assert(contains_addr(operators@.take(idx as int), t));
                    } else {
                        assert(t == x@);
                    }
                }
                if contains_addr(operators@.take(idx as int), t) {
                    let i = choose|i: int|
                        0 <= i < operators@.take(idx as int).len() && (#[trigger] operators@.take(
                            idx as int,
                        )[i])@ == t;
                    assert(operators@.take(idx + 1)[i]@ == t);
                }
                if t == x@ {
                    assert(operators@.take(idx + 1)[idx as int]@ == t);
                }
            }
        }
        idx += 1;
    }
    proof {
        assert(operators@.take(n as int) =~= operators@);
    }
    r
}

} // verus!
