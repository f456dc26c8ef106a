//! Operator addresses: ordered integer paths used as the join key between
//! topology nodes and metric rows.

use vstd::prelude::*;

verus! {

/// An operator address: an immutable ordered sequence of non-negative
/// integers. Total order is lexicographic over the sequence.
#[derive(Debug, Clone, PartialEq, Eq, PartialOrd, Ord, Hash)]
pub struct Addr(pub Vec<u32>);

impl View for Addr {
    type V = Seq<u32>;

    open spec fn view(&self) -> Seq<u32> {
        self.0@
    }
}

/// Strict lexicographic order on integer sequences: a proper prefix comes
/// first, otherwise the first differing element decides.
pub open spec fn seq_u32_lt(a: Seq<u32>, b: Seq<u32>) -> bool
    decreases a.len(),
{
    if b.len() == 0 {
        false
    } else if a.len() == 0 {
        true
    } else if a[0] != b[0] {
        a[0] < b[0]
    } else {
        seq_u32_lt(a.skip(1), b.skip(1))
    }
}

impl Addr {
    pub fn new(path: Vec<u32>) -> (r: Self)
        ensures
            r@ == path@,
    {
        Addr(path)
    }

    /// An identical copy of this address.
    pub fn dup(&self) -> (r: Addr)
        ensures
            r@ == self@,
    {
        let n: usize = self.0.len();
        let mut v: Vec<u32> = Vec::new();
        let mut i: usize = 0;
        while i < n
            invariant
                n == self@.len(),
                i <= n,
                v@ == self@.take(i as int),
            decreases n - i,
        {
            v.push(self.0[i]);
            proof {
                assert(v@ =~= self@.take(i + 1));
            }
            i += 1;
        }
        proof {
            assert(self@.take(n as int) =~= self@);
        }
        Addr(v)
    }

    /// Element-wise equality of the two address paths.
    pub fn eq_addr(&self, other: &Addr) -> (r: bool)
        ensures
            r == (self@ == other@),
    {
        if self.0.len() != other.0.len() {
            assert(self@ !~= other@);
            return false;
        }
        let n: usize = self.0.len();
        let mut i: usize = 0;
        while i < n
            invariant
                n == self@.len() == other@.len(),
                i <= n,
                forall|j: int| 0 <= j < i ==> self@[j] == other@[j],
            decreases n - i,
        {
            if self.0[i] != other.0[i] {
                return false;
            }
            i += 1;
        }
        assert(self@ =~= other@);
        true
    }

    /// Strict lexicographic comparison of the two address paths.
    pub fn lt(&self, other: &Addr) -> (r: bool)
        ensures
            r == seq_u32_lt(self@, other@),
    {
        let a = &self.0;
        let b = &other.0;
        proof {
            assert(a@.skip(0) =~= a@);
            assert(b@.skip(0) =~= b@);
        }
        let mut i: usize = 0;
        loop
            invariant
                i <= a@.len(),
                i <= b@.len(),
                seq_u32_lt(self@, other@) == seq_u32_lt(a@.skip(i as int), b@.skip(i as int)),
            decreases a@.len() - i,
        {
            if i == b.len() {
                return false;
            }
            if i == a.len() {
                return true;
            }
            if a[i] != b[i] {
                assert(a@.skip(i as int)[0] == a@[i as int]);
                assert(b@.skip(i as int)[0] == b@[i as int]);
                return a[i] < b[i];
            }
            proof {
                assert(a@.skip(i as int).skip(1) =~= a@.skip(i + 1));
                assert(b@.skip(i as int).skip(1) =~= b@.skip(i + 1));
            }
            i += 1;
        }
    }
}

/// The lexicographic order is total: for any two addresses, exactly one of
/// `a < b`, `a == b`, `b < a` holds.
pub proof fn lemma_seq_u32_lt_trichotomy(a: Seq<u32>, b: Seq<u32>)
    ensures
        seq_u32_lt(a, b) || seq_u32_lt(b, a) || a == b,
        seq_u32_lt(a, b) ==> !seq_u32_lt(b, a) && a != b,
        seq_u32_lt(b, a) ==> !seq_u32_lt(a, b) && a != b,
    decreases a.len(),
{
    if b.len() == 0 || a.len() == 0 {
        if a.len() == b.len() {
            assert(a =~= b);
        }
    } else if a[0] != b[0] {
    } else {
        lemma_seq_u32_lt_trichotomy(a.skip(1), b.skip(1));
        if a.skip(1) == b.skip(1) && a.len() == b.len() {
            assert(a =~= b) by {
                assert(forall|i: int|
                    1 <= i < a.len() ==> a[i] == a.skip(1)[i - 1] && b[i] == b.skip(1)[i - 1]);
            }
        }
        if a == b {
            assert(a.skip(1) =~= b.skip(1));
        }
    }
}

/// The lexicographic order is transitive.
pub proof fn lemma_seq_u32_lt_trans(a: Seq<u32>, b: Seq<u32>, c: Seq<u32>)
    requires
        seq_u32_lt(a, b),
        seq_u32_lt(b, c),
    ensures
        seq_u32_lt(a, c),
    decreases a.len(),
{
    if c.len() == 0 {
    } else if a.len() == 0 {
    } else if b.len() == 0 {
    } else if a[0] != c[0] {
        if a[0] == b[0] {
        } else if b[0] == c[0] {
        }
    } else {
        if a[0] == b[0] && b[0] == c[0] {
            lemma_seq_u32_lt_trans(a.skip(1), b.skip(1), c.skip(1));
        }
    }
}

} // verus!
