//! Address-indexed metric rows. The time source carries activation counts
//! and active time; the memory source carries batching and merge counters.
//! Active time is held in integer microseconds (the logs write milliseconds
//! with at most three decimal places).

use vstd::prelude::*;
use crate::addr::Addr;
use crate::errors::ReportError;

verus! {

/// A single operator row from the time log.
#[derive(Debug, Clone)]
pub struct TimeRow {
    pub activations: u64,
    pub total_active_us: u64,
    pub op_name: String,
}

/// A single operator row from the memory log.
#[derive(Debug, Clone)]
pub struct MemoryRow {
    pub batched_in: u64,
    pub merges: u64,
    pub merge_in: u64,
    pub merge_out: u64,
    pub dropped: u64,
    pub op_name: String,
}

#[derive(Debug)]
pub struct TimeEntry {
    pub addr: Addr,
    pub row: TimeRow,
}

#[derive(Debug)]
pub struct MemoryEntry {
    pub addr: Addr,
    pub row: MemoryRow,
}

/// The first row filed under this address, if any.
pub open spec fn time_find(s: Seq<TimeEntry>, a: Seq<u32>) -> Option<TimeRow>
    decreases s.len(),
{
    if s.len() == 0 {
        None
    } else if s[0].addr@ == a {
        Some(s[0].row)
    } else {
        time_find(s.skip(1), a)
    }
}

pub open spec fn mem_find(s: Seq<MemoryEntry>, a: Seq<u32>) -> Option<MemoryRow>
    decreases s.len(),
{
    if s.len() == 0 {
        None
    } else if s[0].addr@ == a {
        Some(s[0].row)
    } else {
        mem_find(s.skip(1), a)
    }
}

pub open spec fn time_unique_addrs(s: Seq<TimeEntry>) -> bool {
    forall|i: int, j: int| 0 <= i < j < s.len() ==> (#[trigger] s[i]).addr@ != (#[trigger] s[j]).addr@
}

pub open spec fn mem_unique_addrs(s: Seq<MemoryEntry>) -> bool {
    forall|i: int, j: int| 0 <= i < j < s.len() ==> (#[trigger] s[i]).addr@ != (#[trigger] s[j]).addr@
}

/// With unique addresses, looking an entry's own address up yields exactly
/// that entry's row.
pub proof fn lemma_mem_find_at(s: Seq<MemoryEntry>, x: int)
    requires
        mem_unique_addrs(s),
        0 <= x < s.len(),
    ensures
        mem_find(s, s[x].addr@) == Some(s[x].row),
    decreases s.len(),
{
    if x == 0 {
    } else {
        assert(s[0].addr@ != s[x].addr@);
        assert(mem_unique_addrs(s.skip(1))) by {
            assert(forall|i: int, j: int|
                0 <= i < j < s.skip(1).len() ==> s.skip(1)[i] == s[i + 1] && s.skip(1)[j] == s[j
                    + 1]);
        }
        assert(s.skip(1)[x - 1] == s[x]);
        lemma_mem_find_at(s.skip(1), x - 1);
    }
}

/// The time rows of one run, indexed by operator address. Addresses are
/// unique: a duplicate within one source is rejected when the index is
/// built.
#[derive(Debug)]
pub struct TimeIndex {
    pub entries: Vec<TimeEntry>,
}

/// The memory rows of one run, indexed by operator address.
#[derive(Debug)]
pub struct MemoryIndex {
    pub entries: Vec<MemoryEntry>,
}

impl TimeIndex {
    pub open spec fn wf(&self) -> bool {
        time_unique_addrs(self.entries@)
    }

    /// An empty index (no time source rows).
    pub fn new() -> (r: TimeIndex)
        ensures
            r.wf(),
            r.entries@.len() == 0,
    {
        TimeIndex { entries: Vec::new() }
    }

    /// File rows in order; the first duplicated address is a fatal input
    /// error, as the log collaborator guarantees unique rows per address,
    /// and the error names the duplicated address.
    pub fn from_rows(rows: Vec<TimeEntry>) -> (r: Result<TimeIndex, ReportError>)
        ensures
            match r {
                Ok(ix) => ix.wf() && ix.entries@ == rows@ && time_unique_addrs(rows@),
                Err(e) => !time_unique_addrs(rows@) && match e {
                    ReportError::DuplicateAddr { addr } => exists|i: int, j: int|
                        #![trigger rows@[i].addr, rows@[j].addr]
                        0 <= i < j < rows@.len() && rows@[i].addr@ == addr@ && rows@[j].addr@
                            == addr@,
                    _ => false,
                },
            },
    {
        let n: usize = rows.len();
        let mut i: usize = 1;
        while i < n
            invariant
                n == rows@.len(),
                i <= n || n == 0,
                forall|x: int, y: int|
                    0 <= x < y < i && y < n ==> (#[trigger] rows@[x]).addr@ != (
                    #[trigger] rows@[y]).addr@,
            decreases n - i,
        {
            let mut x: usize = 0;
            while x < i
                invariant
                    i < n == rows@.len(),
                    x <= i,
                    forall|x0: int|
                        0 <= x0 < x ==> (#[trigger] rows@[x0]).addr@ != rows@[i as int].addr@,
                decreases i - x,
            {
                if rows[x].addr.eq_addr(&rows[i].addr) {
                    return Err(ReportError::DuplicateAddr { addr: rows[i].addr.dup() });
                }
                x += 1;
            }
            i += 1;
        }
        Ok(TimeIndex { entries: rows })
    }

    /// Look up the row filed under this address.
    pub fn get(&self, a: &Addr) -> (r: Option<&TimeRow>)
        ensures
            match r {
                Some(row) => time_find(self.entries@, a@) == Some(*row),
                None => time_find(self.entries@, a@) is None,
            },
    {
        let mut i: usize = 0;
        proof {
            assert(self.entries@.skip(0) =~= self.entries@);
        }
        loop
            invariant
                i <= self.entries@.len(),
                time_find(self.entries@, a@) == time_find(self.entries@.skip(i as int), a@),
            decreases self.entries@.len() - i,
        {
            if i == self.entries.len() {
                return None;
            }
            assert(self.entries@.skip(i as int)[0] == self.entries@[i as int]);
            if self.entries[i].addr.eq_addr(a) {
                return Some(&self.entries[i].row);
            }
            proof {
                assert(self.entries@.skip(i as int).skip(1) =~= self.entries@.skip(i + 1));
            }
            i += 1;
        }
    }

    /// The number of rows.
    pub fn len(&self) -> (r: usize)
        ensures
            r == self.entries@.len(),
    {
        self.entries.len()
    }
}

impl MemoryIndex {
    pub open spec fn wf(&self) -> bool {
        mem_unique_addrs(self.entries@)
    }

    /// An empty index (no memory source rows).
    pub fn new() -> (r: MemoryIndex)
        ensures
            r.wf(),
            r.entries@.len() == 0,
    {
        MemoryIndex { entries: Vec::new() }
    }

    /// File rows in order; duplicates are a fatal input error, and the
    /// error names the duplicated address.
    pub fn from_rows(rows: Vec<MemoryEntry>) -> (r: Result<MemoryIndex, ReportError>)
        ensures
            match r {
                Ok(ix) => ix.wf() && ix.entries@ == rows@ && mem_unique_addrs(rows@),
                Err(e) => !mem_unique_addrs(rows@) && match e {
                    ReportError::DuplicateAddr { addr } => exists|i: int, j: int|
                        #![trigger rows@[i].addr, rows@[j].addr]
                        0 <= i < j < rows@.len() && rows@[i].addr@ == addr@ && rows@[j].addr@
                            == addr@,
                    _ => false,
                },
            },
    {
        let n: usize = rows.len();
        let mut i: usize = 1;
        while i < n
            invariant
                n == rows@.len(),
                i <= n || n == 0,
                forall|x: int, y: int|
                    0 <= x < y < i && y < n ==> (#[trigger] rows@[x]).addr@ != (
                    #[trigger] rows@[y]).addr@,
            decreases n - i,
        {
            let mut x: usize = 0;
            while x < i
                invariant
                    i < n == rows@.len(),
                    x <= i,
                    forall|x0: int|
                        0 <= x0 < x ==> (#[trigger] rows@[x0]).addr@ != rows@[i as int].addr@,
                decreases i - x,
            {
                if rows[x].addr.eq_addr(&rows[i].addr) {
                    return Err(ReportError::DuplicateAddr { addr: rows[i].addr.dup() });
                }
                x += 1;
            }
            i += 1;
        }
        Ok(MemoryIndex { entries: rows })
    }

    /// Look up the row filed under this address.
    pub fn get(&self, a: &Addr) -> (r: Option<&MemoryRow>)
        ensures
            match r {
                Some(row) => mem_find(self.entries@, a@) == Some(*row),
                None => mem_find(self.entries@, a@) is None,
            },
    {
        let mut i: usize = 0;
        proof {
            assert(self.entries@.skip(0) =~= self.entries@);
        }
        loop
            invariant
                i <= self.entries@.len(),
                mem_find(self.entries@, a@) == mem_find(self.entries@.skip(i as int), a@),
            decreases self.entries@.len() - i,
        {
            if i == self.entries.len() {
                return None;
            }
            assert(self.entries@.skip(i as int)[0] == self.entries@[i as int]);
            if self.entries[i].addr.eq_addr(a) {
                return Some(&self.entries[i].row);
            }
            proof {
                assert(self.entries@.skip(i as int).skip(1) =~= self.entries@.skip(i + 1));
            }
            i += 1;
        }
    }

    /// The number of rows.
    pub fn len(&self) -> (r: usize)
        ensures
            r == self.entries@.len(),
    {
        self.entries.len()
    }
}

} // verus!
