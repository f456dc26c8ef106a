//! The layered layout: block-derived base ranks propagated along parent
//! edges, nodes bucketed into layers, label word-wrapping and box sizing,
//! deterministic positioning, elbow edge routing and active-time coloring.
//! Every stage equals a pure function of the input, so recomputation cannot
//! differ between runs.

use vstd::prelude::*;
use vstd::string::StrSliceExecFns;
use vstd::string::StringExecFns;
use crate::strs;

verus! {

/// Character cell width, in pixels.
pub const CHAR_W: u64 = 8;

/// Line height, in pixels.
pub const LINE_H: u64 = 18;

/// Horizontal box padding, in pixels.
pub const PAD_W: u64 = 16;

/// Vertical box padding, in pixels.
pub const PAD_H: u64 = 12;

/// Smallest box height, in pixels.
pub const MIN_H: u64 = 36;

/// Largest number of characters per wrapped line.
pub const MAX_LINE_CHARS: u64 = 22;

/// Horizontal slot per node within a layer, in pixels.
pub const SLOT_W: u64 = 160;

/// Vertical distance between layers, in pixels.
pub const LAYER_GAP: u64 = 120;

/// Base rank of blocks outside the named families.
pub const OTHER_RANK: u64 = 0x1_0000_0001;

/// Base rank of the inspection block, after everything else.
pub const INSPECT_RANK: u64 = 0x1_0000_0002;

/// One node as the layout consumes it: its id, display label, block tag,
/// parent ids and aggregated active time.
pub struct LayoutInput {
    pub id: u32,
    pub label: String,
    pub block: String,
    pub parents: Vec<u32>,
    pub active_us: u64,
}

/// One placed node.
pub struct LayoutNode {
    pub id: u32,
    pub rank: u64,
    pub order_in_rank: u64,
    pub center_x: u64,
    pub center_y: u64,
    pub box_w: u64,
    pub box_h: u64,
    pub wrapped_lines: Vec<String>,
    pub intensity_milli: u64,
}

/// One routed edge: a vertical-horizontal-vertical elbow from the parent
/// box bottom to the child box top.
pub struct EdgePath {
    pub from_x: u64,
    pub from_y: u64,
    pub mid_y: u64,
    pub to_x: u64,
    pub to_y: u64,
}

// ------------------------------------------------------------ block bands

/// The base rank of a block tag: an input-like block first, the stratum
/// family by its number, others in a fixed middle band, inspection last.
pub open spec fn block_band(b: Seq<char>) -> nat {
    if b == "input"@ {
        0
    } else if is_stratum(b) {
        1 + strs::digits_val(b.skip(8))
    } else if b == "inspect"@ {
        INSPECT_RANK as nat
    } else {
        OTHER_RANK as nat
    }
}

pub open spec fn is_stratum(b: Seq<char>) -> bool {
    &&& b.len() > 8
    &&& b.subrange(0, 8) == "stratum "@
    &&& strs::all_digits(b.skip(8))
    &&& strs::digits_val(b.skip(8)) < 0x1_0000_0000
}

fn chars_eq(a: &Vec<char>, b: &Vec<char>) -> (r: bool)
    ensures
        r == (a@ == b@),
{
    if a.len() != b.len() {
        proof {
            assert(a@ !~= b@);
        }
        return false;
    }
    let mut i: usize = 0;
    while i < a.len()
        invariant
            a@.len() == b@.len(),
            i <= a@.len(),
            forall|k: int| 0 <= k < i ==> a@[k] == b@[k],
        decreases a@.len() - i,
    {
        if a[i] != b[i] {
            return false;
        }
        i += 1;
    }
    proof {
        assert(a@ =~= b@);
    }
    true
}

/// The base rank of a block tag.
pub fn block_band_exec(b: &String) -> (r: u64)
    ensures
        r as nat == block_band(b@),
{
    let bc = strs::str_to_chars(b.as_str());
    let input_lit = strs::str_to_chars("input");
    if chars_eq(&bc, &input_lit) {
        return 0;
    }
    // the stratum family: the prefix then a number
    let prefix = strs::str_to_chars("stratum ");
    assert(prefix@ == "stratum "@);
    proof {
        reveal_strlit("stratum ");
        assert(prefix@.len() == 8);
    }
    if bc.len() > 8 {
        let mut is_pref: bool = true;
        let mut k: usize = 0;
        while k < 8
            invariant
                bc@.len() > 8,
                prefix@ == "stratum "@,
                prefix@.len() == 8,
                k <= 8,
                is_pref == (forall|z: int| 0 <= z < k ==> bc@[z] == prefix@[z]),
            decreases 8 - k,
        {
            if bc[k] != prefix[k] {
                is_pref = false;
            }
            k += 1;
        }
        proof {
            if is_pref {
                assert(bc@.subrange(0, 8) =~= "stratum "@);
            } else {
                if bc@.subrange(0, 8) == "stratum "@ {
                    let z = choose|z: int| 0 <= z < 8 && bc@[z] != prefix@[z];
                    assert(bc@.subrange(0, 8)[z] == bc@[z]);
                }
            }
        }
        if is_pref {
            let mut rest: Vec<char> = Vec::new();
            let mut z: usize = 8;
            while z < bc.len()
                invariant
                    8 <= z <= bc@.len(),
                    rest@ == bc@.subrange(8, z as int),
                decreases bc@.len() - z,
            {
                rest.push(bc[z]);
                proof {
                    assert(rest@ =~= bc@.subrange(8, z + 1));
                }
                z += 1;
            }
            proof {
                assert(rest@ =~= bc@.skip(8));
            }
            match strs::parse_u32_digits(&rest) {
                Some(x) => {
                    return 1 + x as u64;
                },
                None => {
                    proof {
                        assert(!is_stratum(bc@));
                    }
                },
            }
        }
    }
    let inspect_lit = strs::str_to_chars("inspect");
    if chars_eq(&bc, &inspect_lit) {
        proof {
            assert(b@ == "inspect"@);
            assert(b@ != "input"@) by {
                reveal_strlit("inspect");
                reveal_strlit("input");
            }
            assert(!is_stratum(b@));
        }
        return INSPECT_RANK;
    }
    proof {
        assert(b@ != "input"@ && b@ != "inspect"@);
        assert(!is_stratum(b@));
    }
    OTHER_RANK
}

// ----------------------------------------------------------------- ranks

/// Whether node `j` is a parent of node `v` (by id).
pub open spec fn lay_edge(nodes: Seq<LayoutInput>, j: int, v: int) -> bool {
    &&& 0 <= j < nodes.len()
    &&& 0 <= v < nodes.len()
    &&& nodes[v].parents@.contains(nodes[j].id)
}

/// The larger of the given rank and every parent rank plus one, scanning
/// parents up to index `bound`.
pub open spec fn rank_with_parents(
    nodes: Seq<LayoutInput>,
    prev: Seq<nat>,
    v: int,
    bound: int,
    acc: nat,
) -> nat
    decreases bound,
{
    if bound <= 0 {
        acc
    } else {
        let j = bound - 1;
        let acc2 = if lay_edge(nodes, j, v) && prev[j] + 1 > acc {
            (prev[j] + 1) as nat
        } else {
            acc
        };
        rank_with_parents(nodes, prev, v, j, acc2)
    }
}

/// One propagation round: every node takes the larger of its base rank and
/// its parents' ranks plus one.
pub open spec fn rank_round(nodes: Seq<LayoutInput>, prev: Seq<nat>) -> Seq<nat> {
    Seq::new(
        nodes.len(),
        |v: int| rank_with_parents(nodes, prev, v, nodes.len() as int, block_band(nodes[v].block@)),
    )
}

/// The ranks after `k` propagation rounds; on an acyclic graph as many
/// rounds as there are nodes reach the fixed point.
pub open spec fn ranks_spec(nodes: Seq<LayoutInput>, k: nat) -> Seq<nat>
    decreases k,
{
    if k == 0 {
        Seq::new(nodes.len(), |v: int| block_band(nodes[v].block@))
    } else {
        rank_round(nodes, ranks_spec(nodes, (k - 1) as nat))
    }
}

proof fn lemma_rank_with_parents_bound(
    nodes: Seq<LayoutInput>,
    prev: Seq<nat>,
    v: int,
    bound: int,
    acc: nat,
    cap: nat,
)
    requires
        acc <= cap,
        forall|j: int| 0 <= j < prev.len() ==> #[trigger] prev[j] + 1 <= cap,
        bound <= prev.len(),
    ensures
        rank_with_parents(nodes, prev, v, bound, acc) <= cap,
    decreases bound,
{
    if bound > 0 {
        let j = bound - 1;
        let acc2 = if lay_edge(nodes, j, v) && prev[j] + 1 > acc {
            (prev[j] + 1) as nat
        } else {
            acc
        };
        lemma_rank_with_parents_bound(nodes, prev, v, j, acc2, cap);
    }
}

pub proof fn lemma_ranks_bound(nodes: Seq<LayoutInput>, k: nat)
    ensures
        ranks_spec(nodes, k).len() == nodes.len(),
        forall|v: int|
            0 <= v < nodes.len() ==> #[trigger] ranks_spec(nodes, k)[v] <= INSPECT_RANK + k,
    decreases k,
{
    if k == 0 {
        assert forall|v: int|
            0 <= v < nodes.len() implies #[trigger] ranks_spec(nodes, 0)[v] <= INSPECT_RANK
            + 0 by {
            assert(block_band(nodes[v].block@) <= INSPECT_RANK as nat);
        }
    } else {
        lemma_ranks_bound(nodes, (k - 1) as nat);
        let prev = ranks_spec(nodes, (k - 1) as nat);
        assert forall|v: int|
            0 <= v < nodes.len() implies #[trigger] ranks_spec(nodes, k)[v] <= INSPECT_RANK
            + k by {
            assert(forall|j: int|
                0 <= j < prev.len() ==> #[trigger] prev[j] + 1 <= INSPECT_RANK + k);
            assert(block_band(nodes[v].block@) <= (INSPECT_RANK + k) as nat);
            lemma_rank_with_parents_bound(
                nodes,
                prev,
                v,
                nodes.len() as int,
                block_band(nodes[v].block@),
                (INSPECT_RANK + k) as nat,
            );
        }
    }
}

/// Compute the propagated ranks: as many rounds as there are nodes.
pub fn assign_ranks(nodes: &Vec<LayoutInput>) -> (r: Vec<u64>)
    requires
        nodes@.len() <= 0x10_0000,
    ensures
        r@.len() == nodes@.len(),
        forall|v: int|
            0 <= v < nodes@.len() ==> (#[trigger] r@[v]) as nat == ranks_spec(
                nodes@,
                nodes@.len() as nat,
            )[v],
{
    let n: usize = nodes.len();
    let mut cur: Vec<u64> = Vec::new();
    let mut v0: usize = 0;
    while v0 < n
        invariant
            n == nodes@.len(),
            v0 <= n,
            cur@.len() == v0,
            forall|v: int|
                0 <= v < v0 ==> (#[trigger] cur@[v]) as nat == ranks_spec(nodes@, 0)[v],
        decreases n - v0,
    {
        let b = block_band_exec(&nodes[v0].block);
        cur.push(b);
        v0 += 1;
    }
    let mut round: usize = 0;
    while round < n
        invariant
            n == nodes@.len(),
            n <= 0x10_0000,
            round <= n,
            cur@.len() == n,
            forall|v: int|
                0 <= v < n ==> (#[trigger] cur@[v]) as nat == ranks_spec(nodes@, round as nat)[v],
        decreases n - round,
    {
        proof {
            lemma_ranks_bound(nodes@, round as nat);
        }
        let ghost prev_spec = ranks_spec(nodes@, round as nat);
        let mut next: Vec<u64> = Vec::new();
        let mut v: usize = 0;
        while v < n
            invariant
                n == nodes@.len(),
                n <= 0x10_0000,
                round < n,
                v <= n,
                cur@.len() == n,
                prev_spec == ranks_spec(nodes@, round as nat),
                forall|u: int|
                    0 <= u < n ==> (#[trigger] cur@[u]) as nat == prev_spec[u],
                forall|u: int| 0 <= u < n ==> #[trigger] prev_spec[u] <= INSPECT_RANK + round,
                next@.len() == v,
                forall|u: int|
                    0 <= u < v ==> (#[trigger] next@[u]) as nat == ranks_spec(
                        nodes@,
                        (round + 1) as nat,
                    )[u],
            decreases n - v,
        {
            let base = block_band_exec(&nodes[v].block);
            let mut acc: u64 = base;
            let mut j: usize = n;
            proof {
                assert(acc as nat == block_band(nodes@[v as int].block@));
            }
            while j > 0
                invariant
                    n == nodes@.len(),
                    n <= 0x10_0000,
                    round < n,
                    v < n,
                    cur@.len() == n,
                    prev_spec == ranks_spec(nodes@, round as nat),
                    forall|u: int|
                        0 <= u < n ==> (#[trigger] cur@[u]) as nat == prev_spec[u],
                    forall|u: int| 0 <= u < n ==> #[trigger] prev_spec[u] <= INSPECT_RANK + round,
                    j <= n,
                    acc <= INSPECT_RANK + round + 1,
                    rank_with_parents(
                        nodes@,
                        prev_spec,
                        v as int,
                        n as int,
                        block_band(nodes@[v as int].block@),
                    ) == rank_with_parents(nodes@, prev_spec, v as int, j as int, acc as nat),
                decreases j,
            {
                let jj = j - 1;
                let is_edge = crate::ops::contains_u32(&nodes[v].parents, nodes[jj].id);
                proof {
                    assert(is_edge == lay_edge(nodes@, jj as int, v as int));
                }
                if is_edge && cur[jj] + 1 > acc {
                    acc = cur[jj] + 1;
                }
                j = jj;
            }
            next.push(acc);
            proof {
                assert(ranks_spec(nodes@, (round + 1) as nat) == rank_round(nodes@, prev_spec));
                assert(ranks_spec(nodes@, (round + 1) as nat)[v as int] == rank_with_parents(
                    nodes@,
                    prev_spec,
                    v as int,
                    n as int,
                    block_band(nodes@[v as int].block@),
                ));
            }
            v += 1;
        }
        cur = next;
        round += 1;
    }
    cur
}

// ----------------------------------------------------------- label wrapping

/// Index of the first space at or after `i`, or -1.
pub open spec fn first_space_from(s: Seq<char>, i: int) -> int
    decreases s.len() - i,
{
    if i < 0 || i >= s.len() {
        -1
    } else if s[i] == ' ' {
        i
    } else {
        first_space_from(s, i + 1)
    }
}

/// The whitespace-separated words of `s` from position `i` on.
pub open spec fn words_from(s: Seq<char>, i: int) -> Seq<Seq<char>>
    decreases s.len() - i,
{
    if !(0 <= i <= s.len()) {
        Seq::empty()
    } else {
        let c = first_space_from(s, i);
        if !(i <= c < s.len()) {
            let w = s.subrange(i, s.len() as int);
            if w.len() == 0 {
                Seq::empty()
            } else {
                seq![w]
            }
        } else {
            let w = s.subrange(i, c);
            if w.len() == 0 {
                words_from(s, c + 1)
            } else {
                seq![w] + words_from(s, c + 1)
            }
        }
    }
}

/// Greedy wrap: words are packed onto the current line while it stays
/// within the width; a longer word opens a new line.
pub open spec fn wrap_words(words: Seq<Seq<char>>, i: int, cur: Seq<char>) -> Seq<Seq<char>>
    decreases words.len() - i,
{
    if !(0 <= i < words.len()) {
        if cur.len() == 0 {
            Seq::empty()
        } else {
            seq![cur]
        }
    } else {
        let w = words[i];
        if cur.len() == 0 {
            wrap_words(words, i + 1, w)
        } else if cur.len() + 1 + w.len() <= MAX_LINE_CHARS {
            wrap_words(words, i + 1, cur + seq![' '] + w)
        } else {
            seq![cur] + wrap_words(words, i + 1, w)
        }
    }
}

/// The wrapped lines of a label.
pub open spec fn wrapped_of(label: Seq<char>) -> Seq<Seq<char>> {
    wrap_words(words_from(label, 0), 0, Seq::empty())
}

fn first_space(v: &Vec<char>, i: usize) -> (r: Option<usize>)
    requires
        i <= v@.len(),
    ensures
        match r {
            Some(c) => i <= c < v@.len() && first_space_from(v@, i as int) == c as int,
            None => first_space_from(v@, i as int) == -1,
        },
{
    let mut cur: usize = i;
    while cur < v.len()
        invariant
            i <= cur <= v@.len(),
            first_space_from(v@, i as int) == first_space_from(v@, cur as int),
        decreases v@.len() - cur,
    {
        if v[cur] == ' ' {
            return Some(cur);
        }
        cur += 1;
    }
    None
}

fn copy_chars(v: &Vec<char>, lo: usize, hi: usize) -> (r: Vec<char>)
    requires
        lo <= hi <= v@.len(),
    ensures
        r@ == v@.subrange(lo as int, hi as int),
{
    let mut r: Vec<char> = Vec::new();
    let mut k: usize = lo;
    while k < hi
        invariant
            lo <= k <= hi <= v@.len(),
            r@ == v@.subrange(lo as int, k as int),
        decreases hi - k,
    {
        r.push(v[k]);
        proof {
            assert(r@ =~= v@.subrange(lo as int, k + 1));
        }
        k += 1;
    }
    r
}

/// Split a label into words.
fn split_words(v: &Vec<char>, i: usize) -> (r: Vec<Vec<char>>)
    requires
        i <= v@.len(),
    ensures
        r@.len() == words_from(v@, i as int).len(),
        forall|k: int|
            0 <= k < r@.len() ==> (#[trigger] r@[k])@ == words_from(v@, i as int)[k],
    decreases v@.len() - i,
{
    match first_space(v, i) {
        None => {
            let w = copy_chars(v, i, v.len());
            let mut r: Vec<Vec<char>> = Vec::new();
            if w.len() > 0 {
                r.push(w);
            }
            r
        },
        Some(c) => {
            assert(c < v.len());
            let w = copy_chars(v, i, c);
            let rest = split_words(v, c + 1);
            if w.len() == 0 {
                rest
            } else {
                let mut r: Vec<Vec<char>> = Vec::new();
                r.push(w);
                let mut k: usize = 0;
                let ghost rspec = words_from(v@, i as int);
                while k < rest.len()
                    invariant
                        k <= rest@.len(),
                        r@.len() == k + 1,
                        rspec == words_from(v@, i as int),
                        rspec.len() == rest@.len() + 1,
                        forall|z: int| 0 <= z < r@.len() ==> (#[trigger] r@[z])@ == rspec[z],
                        forall|z: int|
                            0 <= z < rest@.len() ==> (#[trigger] rest@[z])@ == rspec[z + 1],
                    decreases rest@.len() - k,
                {
                    let mut wcopy: Vec<char> = Vec::new();
                    let mut y: usize = 0;
                    while y < rest[k].len()
                        invariant
                            k < rest@.len(),
                            y <= rest@[k as int]@.len(),
                            wcopy@ == rest@[k as int]@.take(y as int),
                        decreases rest@[k as int]@.len() - y,
                    {
                        wcopy.push(rest[k][y]);
                        proof {
                            assert(wcopy@ =~= rest@[k as int]@.take(y + 1));
                        }
                        y += 1;
                    }
                    proof {
                        assert(wcopy@ =~= rest@[k as int]@);
                    }
                    r.push(wcopy);
                    k += 1;
                }
                r
            }
        },
    }
}

/// Wrap the words greedily; mirrors `wrap_words`.
fn wrap_exec(words: &Vec<Vec<char>>, i: usize, cur: Vec<char>) -> (r: Vec<Vec<char>>)
    requires
        i <= words@.len(),
    ensures
        r@.len() == wrap_words(words_view(words@), i as int, cur@).len(),
        forall|k: int|
            0 <= k < r@.len() ==> (#[trigger] r@[k])@ == wrap_words(
                words_view(words@),
                i as int,
                cur@,
            )[k],
    decreases words@.len() - i,
{
    let ghost wv = words_view(words@);
    proof {
        assert(wv.len() == words@.len());
        assert(forall|z: int| 0 <= z < words@.len() ==> wv[z] == (#[trigger] words@[z])@);
    }
    if i == words.len() {
        let mut r: Vec<Vec<char>> = Vec::new();
        if cur.len() > 0 {
            r.push(cur);
            proof {
                assert(r@[0] == r@[0]);
            }
        }
        return r;
    }
    let wlen: usize = words[i].len();
    assert(wlen == wv[i as int].len());
    if cur.len() == 0 {
        let mut w: Vec<char> = Vec::new();
        let mut y: usize = 0;
        while y < words[i].len()
            invariant
                i < words@.len(),
                y <= words@[i as int]@.len(),
                w@ == words@[i as int]@.take(y as int),
            decreases words@[i as int]@.len() - y,
        {
            w.push(words[i][y]);
            proof {
                assert(w@ =~= words@[i as int]@.take(y + 1));
            }
            y += 1;
        }
        proof {
            assert(w@ =~= words@[i as int]@);
            assert(wrap_words(wv, i as int, cur@) == wrap_words(wv, i + 1, wv[i as int]));
        }
        wrap_exec(words, i + 1, w)
    } else if cur.len() < MAX_LINE_CHARS as usize && wlen < MAX_LINE_CHARS as usize && cur.len()
        + 1 + wlen <= MAX_LINE_CHARS as usize {
        let mut joined = cur;
        joined.push(' ');
        let mut y: usize = 0;
        let ghost base = joined@;
        while y < words[i].len()
            invariant
                i < words@.len(),
                y <= words@[i as int]@.len(),
                joined@ == base + words@[i as int]@.take(y as int),
            decreases words@[i as int]@.len() - y,
        {
            joined.push(words[i][y]);
            proof {
                assert(joined@ =~= base + words@[i as int]@.take(y + 1));
            }
            y += 1;
        }
        proof {
            assert(words@[i as int]@.take(words@[i as int]@.len() as int) =~= words@[i as int]@);
            assert(joined@ =~= cur@ + seq![' '] + wv[i as int]);
            assert(cur@.len() + 1 + wv[i as int].len() <= MAX_LINE_CHARS);
            assert(wrap_words(wv, i as int, cur@) == wrap_words(
                wv,
                i + 1,
                cur@ + seq![' '] + wv[i as int],
            ));
        }
        wrap_exec(words, i + 1, joined)
    } else {
        let mut w: Vec<char> = Vec::new();
        let mut y: usize = 0;
        while y < words[i].len()
            invariant
                i < words@.len(),
                y <= words@[i as int]@.len(),
                w@ == words@[i as int]@.take(y as int),
            decreases words@[i as int]@.len() - y,
        {
            w.push(words[i][y]);
            proof {
                assert(w@ =~= words@[i as int]@.take(y + 1));
            }
            y += 1;
        }
        proof {
            assert(w@ =~= words@[i as int]@);
            assert(!(cur@.len() + 1 + wv[i as int].len() <= MAX_LINE_CHARS));
            assert(cur@.len() > 0);
            assert(wrap_words(wv, i as int, cur@) == seq![cur@] + wrap_words(
                wv,
                i + 1,
                wv[i as int],
            ));
        }
        let ghost cur_view = cur@;
        let rest = wrap_exec(words, i + 1, w);
        let mut r: Vec<Vec<char>> = Vec::new();
        r.push(cur);
        let mut k: usize = 0;
        let ghost rspec = wrap_words(wv, i as int, cur_view);
        while k < rest.len()
            invariant
                i < words@.len(),
                wv == words_view(words@),
                k <= rest@.len(),
                r@.len() == k + 1,
                rspec == wrap_words(wv, i as int, r@[0]@),
                r@[0]@ == rspec[0],
                rspec.len() == rest@.len() + 1,
                forall|z: int| 0 <= z < r@.len() ==> (#[trigger] r@[z])@ == rspec[z],
                forall|z: int| 0 <= z < rest@.len() ==> (#[trigger] rest@[z])@ == rspec[z + 1],
            decreases rest@.len() - k,
        {
            let mut wcopy: Vec<char> = Vec::new();
            let mut y2: usize = 0;
            while y2 < rest[k].len()
                invariant
                    k < rest@.len(),
                    y2 <= rest@[k as int]@.len(),
                    wcopy@ == rest@[k as int]@.take(y2 as int),
                decreases rest@[k as int]@.len() - y2,
            {
                wcopy.push(rest[k][y2]);
                proof {
                    assert(wcopy@ =~= rest@[k as int]@.take(y2 + 1));
                }
                y2 += 1;
            }
            proof {
                assert(wcopy@ =~= rest@[k as int]@);
            }
            r.push(wcopy);
            k += 1;
        }
        r
    }
}

pub open spec fn words_view(ws: Seq<Vec<char>>) -> Seq<Seq<char>> {
    ws.map_values(|w: Vec<char>| w@)
}

proof fn lemma_words_len(s: Seq<char>, i: int)
    requires
        0 <= i <= s.len(),
    ensures
        words_from(s, i).len() <= s.len() - i + 1,
    decreases s.len() - i,
{
    let c = first_space_from(s, i);
    if i <= c < s.len() {
        lemma_first_space_ge(s, i);
        lemma_words_len(s, c + 1);
    }
}

proof fn lemma_first_space_ge(s: Seq<char>, i: int)
    requires
        0 <= i,
    ensures
        first_space_from(s, i) == -1 || first_space_from(s, i) >= i,
    decreases s.len() - i,
{
    if i < s.len() && s[i] != ' ' {
        lemma_first_space_ge(s, i + 1);
    }
}

proof fn lemma_wrap_len(words: Seq<Seq<char>>, i: int, cur: Seq<char>)
    requires
        0 <= i <= words.len(),
    ensures
        wrap_words(words, i, cur).len() <= words.len() - i + 1,
    decreases words.len() - i,
{
    if i < words.len() {
        let w = words[i];
        if cur.len() == 0 {
            lemma_wrap_len(words, i + 1, w);
        } else if cur.len() + 1 + w.len() <= MAX_LINE_CHARS {
            lemma_wrap_len(words, i + 1, cur + seq![' '] + w);
        } else {
            lemma_wrap_len(words, i + 1, w);
        }
    }
}

// --------------------------------------------------------- layers and order

/// How many nodes carry rank `r` among the first `upto`.
pub open spec fn count_rank(ranks: Seq<nat>, r: nat, upto: int) -> nat
    decreases upto,
{
    if upto <= 0 {
        0
    } else {
        count_rank(ranks, r, upto - 1) + if ranks[upto - 1] == r {
            1nat
        } else {
            0nat
        }
    }
}

/// `v`'s order within its rank: how many earlier nodes share it.
pub open spec fn order_in_rank_spec(ranks: Seq<nat>, v: int) -> nat {
    count_rank(ranks, ranks[v], v)
}

/// The largest layer size.
pub open spec fn widest_layer(ranks: Seq<nat>, upto: int) -> nat
    decreases upto,
{
    if upto <= 0 {
        0
    } else {
        let c = count_rank(ranks, ranks[upto - 1], ranks.len() as int);
        let rest = widest_layer(ranks, upto - 1);
        if c > rest {
            c
        } else {
            rest
        }
    }
}

/// Whether position `v` holds the first occurrence of rank `r`.
pub open spec fn first_at(ranks: Seq<nat>, r: nat, v: int) -> bool {
    ranks[v] == r && forall|u: int| 0 <= u < v ==> ranks[u] != r
}

/// The number of distinct rank values smaller than `r`, counting each value
/// at its first occurrence: the layer index of rank `r`.
pub open spec fn distinct_below(ranks: Seq<nat>, r: nat, upto: int) -> nat
    decreases upto,
{
    if upto <= 0 {
        0
    } else {
        distinct_below(ranks, r, upto - 1) + if ranks[upto - 1] < r && first_at(
            ranks,
            ranks[upto - 1],
            upto - 1,
        ) {
            1nat
        } else {
            0nat
        }
    }
}

pub open spec fn layer_index_spec(ranks: Seq<nat>, r: nat) -> nat {
    distinct_below(ranks, r, ranks.len() as int)
}

/// The largest aggregated active time.
pub open spec fn max_active(nodes: Seq<LayoutInput>, upto: int) -> nat
    decreases upto,
{
    if upto <= 0 {
        0
    } else {
        let rest = max_active(nodes, upto - 1);
        if nodes[upto - 1].active_us > rest {
            nodes[upto - 1].active_us as nat
        } else {
            rest
        }
    }
}

/// A neighbor for the sweep: a parent in an earlier layer on the downward
/// pass, a child in a later layer on the upward pass.
pub open spec fn is_nbr(
    nodes: Seq<LayoutInput>,
    ranks: Seq<nat>,
    v: int,
    j: int,
    down: bool,
) -> bool {
    if down {
        lay_edge(nodes, j, v) && ranks[j] < ranks[v]
    } else {
        lay_edge(nodes, v, j) && ranks[j] > ranks[v]
    }
}

pub open spec fn nbr_cnt(
    nodes: Seq<LayoutInput>,
    ranks: Seq<nat>,
    v: int,
    down: bool,
    bound: int,
) -> nat
    decreases bound,
{
    if bound <= 0 {
        0
    } else {
        nbr_cnt(nodes, ranks, v, down, bound - 1) + if is_nbr(nodes, ranks, v, bound - 1, down) {
            1nat
        } else {
            0nat
        }
    }
}

pub open spec fn nbr_sum(
    nodes: Seq<LayoutInput>,
    ranks: Seq<nat>,
    ord: Seq<nat>,
    v: int,
    down: bool,
    bound: int,
) -> nat
    decreases bound,
{
    if bound <= 0 {
        0
    } else {
        nbr_sum(nodes, ranks, ord, v, down, bound - 1) + if is_nbr(
            nodes,
            ranks,
            v,
            bound - 1,
            down,
        ) {
            ord[bound - 1]
        } else {
            0nat
        }
    }
}

/// Nodes without neighbors in the adjacent layers sort last.
pub const NO_NBR_KEY: u64 = 0x8_0000_0000_0000;

/// The barycenter key: the mean neighbor position in fixed-point
/// thousandths-of-a-slot (1024 per position).
pub open spec fn bary_key(
    nodes: Seq<LayoutInput>,
    ranks: Seq<nat>,
    ord: Seq<nat>,
    v: int,
    down: bool,
) -> nat {
    let c = nbr_cnt(nodes, ranks, v, down, nodes.len() as int);
    if c == 0 {
        NO_NBR_KEY as nat
    } else {
        nbr_sum(nodes, ranks, ord, v, down, nodes.len() as int) * 1024 / c
    }
}

/// The sort key of a node within its layer: the barycenter key with the id
/// as the tie-break.
pub open spec fn comb_key(
    nodes: Seq<LayoutInput>,
    ranks: Seq<nat>,
    ord: Seq<nat>,
    v: int,
    down: bool,
) -> nat {
    (bary_key(nodes, ranks, ord, v, down) * 0x1_0000_0000 + nodes[v].id) as nat
}

/// The node's position after the sweep: how many nodes of its layer carry a
/// smaller key.
pub open spec fn swept_ord(
    nodes: Seq<LayoutInput>,
    ranks: Seq<nat>,
    ord: Seq<nat>,
    v: int,
    down: bool,
    bound: int,
) -> nat
    decreases bound,
{
    if bound <= 0 {
        0
    } else {
        swept_ord(nodes, ranks, ord, v, down, bound - 1) + if ranks[bound - 1] == ranks[v]
            && comb_key(nodes, ranks, ord, bound - 1, down) < comb_key(
            nodes,
            ranks,
            ord,
            v,
            down,
        ) {
            1nat
        } else {
            0nat
        }
    }
}

/// One full sweep.
pub open spec fn sweep_spec(
    nodes: Seq<LayoutInput>,
    ranks: Seq<nat>,
    ord: Seq<nat>,
    down: bool,
) -> Seq<nat> {
    Seq::new(nodes.len(), |v: int| swept_ord(nodes, ranks, ord, v, down, nodes.len() as int))
}

/// The initial within-layer order: by position in the node list.
pub open spec fn ord0_spec(ranks: Seq<nat>) -> Seq<nat> {
    Seq::new(ranks.len(), |v: int| count_rank(ranks, ranks[v], v))
}

/// The order after crossing reduction: a downward, an upward and another
/// downward barycenter sweep over the initial order.
pub open spec fn final_ord_spec(nodes: Seq<LayoutInput>, ranks: Seq<nat>) -> Seq<nat> {
    sweep_spec(
        nodes,
        ranks,
        sweep_spec(nodes, ranks, sweep_spec(nodes, ranks, ord0_spec(ranks), true), false),
        true,
    )
}

/// Execute one barycenter sweep.
#[verifier::rlimit(100)]
fn sweep_exec(
    nodes: &Vec<LayoutInput>,
    ranks: &Vec<u64>,
    Ghost(rs): Ghost<Seq<nat>>,
    ord: &Vec<u64>,
    down: bool,
) -> (out: Vec<u64>)
    requires
        nodes@.len() <= 0x10_0000,
        ranks@.len() == nodes@.len(),
        rs.len() == nodes@.len(),
        forall|u: int| 0 <= u < nodes@.len() ==> (#[trigger] ranks@[u]) as nat == rs[u],
        ord@.len() == nodes@.len(),
        forall|u: int| 0 <= u < nodes@.len() ==> (#[trigger] ord@[u]) <= 0x10_0000,
    ensures
        out@.len() == nodes@.len(),
        forall|v: int|
            0 <= v < nodes@.len() ==> (#[trigger] out@[v]) as nat == sweep_spec(
                nodes@,
                rs,
                ord@.map_values(|x: u64| x as nat),
                down,
            )[v],
        forall|v: int| 0 <= v < nodes@.len() ==> (#[trigger] out@[v]) <= 0x10_0000,
{
    let ghost os = ord@.map_values(|x: u64| x as nat);
    proof {
        assert(forall|u: int| 0 <= u < ord@.len() ==> os[u] == (#[trigger] ord@[u]) as nat);
    }
    let n: usize = nodes.len();
    // the sort key of every node
    let mut keys: Vec<u128> = Vec::new();
    let mut v: usize = 0;
    while v < n
        invariant
            n == nodes@.len(),
            n <= 0x10_0000,
            ranks@.len() == n,
            rs.len() == n,
            forall|u: int| 0 <= u < n ==> (#[trigger] ranks@[u]) as nat == rs[u],
            ord@.len() == n,
            forall|u: int| 0 <= u < n ==> (#[trigger] ord@[u]) <= 0x10_0000,
            os == ord@.map_values(|x: u64| x as nat),
            forall|u: int| 0 <= u < ord@.len() ==> os[u] == (#[trigger] ord@[u]) as nat,
            v <= n,
            keys@.len() == v,
            forall|u: int|
                0 <= u < v ==> (#[trigger] keys@[u]) as nat == comb_key(nodes@, rs, os, u, down),
        decreases n - v,
    {
        let mut cnt: u64 = 0;
        let mut sum: u64 = 0;
        let mut j: usize = 0;
        while j < n
            invariant
                n == nodes@.len(),
                n <= 0x10_0000,
                ranks@.len() == n,
                rs.len() == n,
                forall|u: int| 0 <= u < n ==> (#[trigger] ranks@[u]) as nat == rs[u],
                ord@.len() == n,
                forall|u: int| 0 <= u < n ==> (#[trigger] ord@[u]) <= 0x10_0000,
                forall|u: int| 0 <= u < ord@.len() ==> os[u] == (#[trigger] ord@[u]) as nat,
                v < n,
                j <= n,
                cnt as nat == nbr_cnt(nodes@, rs, v as int, down, j as int),
                sum as nat == nbr_sum(nodes@, rs, os, v as int, down, j as int),
                cnt <= j,
                sum as int <= (j as int) * 0x10_0000,
            decreases n - j,
        {
            let nb = if down {
                crate::ops::contains_u32(&nodes[v].parents, nodes[j].id) && ranks[j] < ranks[v]
            } else {
                crate::ops::contains_u32(&nodes[j].parents, nodes[v].id) && ranks[j] > ranks[v]
            };
            proof {
                assert(nb == is_nbr(nodes@, rs, v as int, j as int, down));
                let ji = j as int;
                assert(ji * 0x10_0000 + 0x10_0000 == (ji + 1) * 0x10_0000) by (nonlinear_arith);
                assert((ji + 1) * 0x10_0000 <= 0x10_0000 * 0x10_0000) by (nonlinear_arith)
                    requires
                        0 <= ji && ji < 0x10_0000,
                ;
            }
            if nb {
                cnt = cnt + 1;
                sum = sum + ord[j];
            }
            j += 1;
        }
        let key: u64 = if cnt == 0 {
            NO_NBR_KEY
        } else {
            proof {
                let si = sum as int;
                assert(si * 1024 <= (0x10_0000 * 0x10_0000) * 1024) by (nonlinear_arith)
                    requires
                        0 <= si && si <= 0x10_0000 * 0x10_0000,
                ;
            }
            (sum * 1024) / cnt
        };
        proof {
            assert(key as nat == bary_key(nodes@, rs, os, v as int, down)) by {
                if cnt != 0 {
                    assert((sum * 1024) as nat / cnt as nat == (sum as nat * 1024) / cnt as nat);
                }
            }
        }
        let comb: u128 = (key as u128) * 0x1_0000_0000 + (nodes[v].id as u128);
        keys.push(comb);
        v += 1;
    }
    // the new order: nodes of the same layer with a smaller key
    let mut out: Vec<u64> = Vec::new();
    let mut v2: usize = 0;
    while v2 < n
        invariant
            n == nodes@.len(),
            n <= 0x10_0000,
            ranks@.len() == n,
            rs.len() == n,
            forall|u: int| 0 <= u < n ==> (#[trigger] ranks@[u]) as nat == rs[u],
            keys@.len() == n,
            forall|u: int|
                0 <= u < n ==> (#[trigger] keys@[u]) as nat == comb_key(nodes@, rs, os, u, down),
            v2 <= n,
            out@.len() == v2,
            forall|u: int|
                0 <= u < v2 ==> (#[trigger] out@[u]) as nat == swept_ord(
                    nodes@,
                    rs,
                    os,
                    u,
                    down,
                    n as int,
                ),
            forall|u: int| 0 <= u < v2 ==> (#[trigger] out@[u]) <= 0x10_0000,
        decreases n - v2,
    {
        let mut c: u64 = 0;
        let mut u: usize = 0;
        while u < n
            invariant
                n == nodes@.len(),
                n <= 0x10_0000,
                ranks@.len() == n,
                rs.len() == n,
                forall|z: int| 0 <= z < n ==> (#[trigger] ranks@[z]) as nat == rs[z],
                keys@.len() == n,
                forall|z: int|
                    0 <= z < n ==> (#[trigger] keys@[z]) as nat == comb_key(
                        nodes@,
                        rs,
                        os,
                        z,
                        down,
                    ),
                v2 < n,
                u <= n,
                c as nat == swept_ord(nodes@, rs, os, v2 as int, down, u as int),
                c <= u,
            decreases n - u,
        {
            if ranks[u] == ranks[v2] && keys[u] < keys[v2] {
                c = c + 1;
            }
            u += 1;
        }
        out.push(c);
        v2 += 1;
    }
    proof {
        assert forall|v3: int|
            0 <= v3 < n implies (#[trigger] out@[v3]) as nat == sweep_spec(
            nodes@,
            rs,
            os,
            down,
        )[v3] by {
            assert(out@[v3] as nat == swept_ord(nodes@, rs, os, v3, down, n as int));
        }
    }
    out
}

// --------------------------------------------------------------- the boxes

/// The longest wrapped line, capped one past the wrap width (longer lines
/// only ever come from single long words and are cut off by the box cap).
pub open spec fn capped_line_len(lines: Seq<Seq<char>>, upto: int) -> nat
    decreases upto,
{
    if upto <= 0 {
        0
    } else {
        let here = if lines[upto - 1].len() >= MAX_LINE_CHARS + 1 {
            (MAX_LINE_CHARS + 1) as nat
        } else {
            lines[upto - 1].len()
        };
        let rest = capped_line_len(lines, upto - 1);
        if here > rest {
            here
        } else {
            rest
        }
    }
}

/// The box width: the wrapped content width plus padding, capped.
pub open spec fn box_w_spec(label: Seq<char>) -> nat {
    let m = capped_line_len(wrapped_of(label), wrapped_of(label).len() as int);
    (m * (CHAR_W as nat) + PAD_W) as nat
}

/// The box height: one line height per wrapped line plus padding, at least
/// the minimum height.
pub open spec fn box_h_spec(label: Seq<char>) -> nat {
    let lines = wrapped_of(label).len();
    let h = (lines * (LINE_H as nat) + PAD_H) as nat;
    if h < MIN_H {
        MIN_H as nat
    } else {
        h
    }
}

/// One placed node matches the layout's pure functions of the input.
pub open spec fn node_placed(
    nodes: Seq<LayoutInput>,
    ranks: Seq<nat>,
    i: int,
    out: LayoutNode,
) -> bool {
    &&& out.id == nodes[i].id
    &&& out.rank as nat == ranks[i]
    &&& out.order_in_rank as nat == final_ord_spec(nodes, ranks)[i]
    &&& out.wrapped_lines@.len() == wrapped_of(nodes[i].label@).len()
    &&& (forall|k: int|
        0 <= k < out.wrapped_lines@.len() ==> (#[trigger] out.wrapped_lines@[k])@ == wrapped_of(
            nodes[i].label@,
        )[k])
    &&& out.box_w as nat == box_w_spec(nodes[i].label@)
    &&& out.box_h as nat == box_h_spec(nodes[i].label@)
    &&& out.center_x as nat == (final_ord_spec(nodes, ranks)[i] + 1) * (widest_layer(
        ranks,
        ranks.len() as int,
    ) * (SLOT_W as nat)) / (count_rank(ranks, ranks[i], ranks.len() as int) + 1)
    &&& out.center_y as nat == layer_index_spec(ranks, ranks[i]) * (LAYER_GAP as nat) + (
    LAYER_GAP as nat) / 2
    &&& out.intensity_milli as nat == (if max_active(nodes, nodes.len() as int) == 0 {
        0nat
    } else {
        let raw = (nodes[i].active_us as nat) * 1000 / max_active(nodes, nodes.len() as int);
        if raw > 1000 {
            1000nat
        } else {
            raw
        }
    })
}

/// How many nodes share this rank.
fn count_rank_exec(ranks: &Vec<u64>, Ghost(rs): Ghost<Seq<nat>>, r: u64, upto: usize) -> (c: u64)
    requires
        ranks@.len() <= 0x10_0000,
        rs.len() == ranks@.len(),
        forall|u: int| 0 <= u < ranks@.len() ==> (#[trigger] ranks@[u]) as nat == rs[u],
        upto <= ranks@.len(),
    ensures
        c as nat == count_rank(rs, r as nat, upto as int),
        c <= upto,
{
    let mut c: u64 = 0;
    let mut u: usize = 0;
    while u < upto
        invariant
            ranks@.len() <= 0x10_0000,
            rs.len() == ranks@.len(),
            forall|z: int| 0 <= z < ranks@.len() ==> (#[trigger] ranks@[z]) as nat == rs[z],
            upto <= ranks@.len(),
            u <= upto,
            c as nat == count_rank(rs, r as nat, u as int),
            c <= u,
        decreases upto - u,
    {
        if ranks[u] == r {
            c = c + 1;
        }
        u += 1;
    }
    c
}

/// Whether position `v` holds the first occurrence of its rank.
fn is_first_at(ranks: &Vec<u64>, Ghost(rs): Ghost<Seq<nat>>, r: u64, v: usize) -> (b: bool)
    requires
        rs.len() == ranks@.len(),
        forall|u: int| 0 <= u < ranks@.len() ==> (#[trigger] ranks@[u]) as nat == rs[u],
        v < ranks@.len(),
        ranks@[v as int] == r,
    ensures
        b == first_at(rs, r as nat, v as int),
{
    let mut u: usize = 0;
    while u < v
        invariant
            rs.len() == ranks@.len(),
            forall|z: int| 0 <= z < ranks@.len() ==> (#[trigger] ranks@[z]) as nat == rs[z],
            v < ranks@.len(),
            ranks@[v as int] == r,
            u <= v,
            forall|z: int| 0 <= z < u ==> rs[z] != r as nat,
        decreases v - u,
    {
        if ranks[u] == r {
            return false;
        }
        u += 1;
    }
    true
}

/// Lay out the nodes: propagate ranks, order each layer, wrap the labels,
/// size the boxes, place the centers and derive a color intensity. Every
/// field of the result is a pure function of the input, so two runs on the
/// same input agree (see [`lemma_layout_deterministic`]).
#[verifier::rlimit(100)]
pub fn layout_nodes(nodes: &Vec<LayoutInput>) -> (out: Vec<LayoutNode>)
    requires
        nodes@.len() <= 0x10_0000,
        forall|i: int| 0 <= i < nodes@.len() ==> (#[trigger] nodes@[i]).label@.len() <= 0x10_0000,
    ensures
        out@.len() == nodes@.len(),
        forall|i: int|
            0 <= i < nodes@.len() ==> node_placed(
                nodes@,
                ranks_spec(nodes@, nodes@.len() as nat),
                i,
                #[trigger] out@[i],
            ),
{
    let n: usize = nodes.len();
    let ranks = assign_ranks(nodes);
    let ghost rs = ranks_spec(nodes@, nodes@.len() as nat);
    proof {
        lemma_ranks_bound(nodes@, nodes@.len() as nat);
    }
    // widest layer
    let mut widest: u64 = 0;
    let mut w: usize = 0;
    while w < n
        invariant
            n == nodes@.len(),
            n <= 0x10_0000,
            ranks@.len() == n,
            rs == ranks_spec(nodes@, nodes@.len() as nat),
            rs.len() == n,
            forall|u: int| 0 <= u < n ==> (#[trigger] ranks@[u]) as nat == rs[u],
            w <= n,
            widest as nat == widest_layer(rs, w as int),
            widest <= n,
        decreases n - w,
    {
        let c = count_rank_exec(&ranks, Ghost(rs), ranks[w], n);
        if c > widest {
            widest = c;
        }
        w += 1;
    }
    // maximum active time
    let mut maxa: u64 = 0;
    let mut m: usize = 0;
    while m < n
        invariant
            n == nodes@.len(),
            m <= n,
            maxa as nat == max_active(nodes@, m as int),
        decreases n - m,
    {
        if nodes[m].active_us > maxa {
            maxa = nodes[m].active_us;
        }
        m += 1;
    }
    // crossing reduction: initial order by list position, then three sweeps
    let mut ord0: Vec<u64> = Vec::new();
    let mut o0: usize = 0;
    while o0 < n
        invariant
            n == nodes@.len(),
            n <= 0x10_0000,
            ranks@.len() == n,
            rs.len() == n,
            forall|u: int| 0 <= u < n ==> (#[trigger] ranks@[u]) as nat == rs[u],
            o0 <= n,
            ord0@.len() == o0,
            forall|u: int| 0 <= u < o0 ==> (#[trigger] ord0@[u]) as nat == ord0_spec(rs)[u],
            forall|u: int| 0 <= u < o0 ==> (#[trigger] ord0@[u]) <= 0x10_0000,
        decreases n - o0,
    {
        let c = count_rank_exec(&ranks, Ghost(rs), ranks[o0], o0);
        ord0.push(c);
        o0 += 1;
    }
    let ord1 = sweep_exec(nodes, &ranks, Ghost(rs), &ord0, true);
    let ord2 = sweep_exec(nodes, &ranks, Ghost(rs), &ord1, false);
    let ords = sweep_exec(nodes, &ranks, Ghost(rs), &ord2, true);
    proof {
        assert(ord0@.map_values(|x: u64| x as nat) =~= ord0_spec(rs));
        assert(ord1@.map_values(|x: u64| x as nat) =~= sweep_spec(nodes@, rs, ord0_spec(rs), true));
        assert(ord2@.map_values(|x: u64| x as nat) =~= sweep_spec(
            nodes@,
            rs,
            sweep_spec(nodes@, rs, ord0_spec(rs), true),
            false,
        ));
        assert(ords@.map_values(|x: u64| x as nat) =~= final_ord_spec(nodes@, rs));
    }
    let mut out: Vec<LayoutNode> = Vec::new();
    let mut i: usize = 0;
    while i < n
        invariant
            n == nodes@.len(),
            n <= 0x10_0000,
            forall|z: int|
                0 <= z < nodes@.len() ==> (#[trigger] nodes@[z]).label@.len() <= 0x10_0000,
            ranks@.len() == n,
            rs == ranks_spec(nodes@, nodes@.len() as nat),
            rs.len() == n,
            forall|u: int| 0 <= u < n ==> (#[trigger] ranks@[u]) as nat == rs[u],
            widest as nat == widest_layer(rs, n as int),
            widest <= n,
            maxa as nat == max_active(nodes@, n as int),
            ords@.len() == n,
            forall|u: int| 0 <= u < n ==> (#[trigger] ords@[u]) as nat == final_ord_spec(nodes@, rs)[u],
            forall|u: int| 0 <= u < n ==> (#[trigger] ords@[u]) <= 0x10_0000,
            i <= n,
            out@.len() == i,
            forall|z: int|
                0 <= z < i ==> node_placed(nodes@, rs, z, #[trigger] out@[z]),
        decreases n - i,
    {
        // order within the rank, layer index and layer size
        let ord = ords[i];
        let cnt = count_rank_exec(&ranks, Ghost(rs), ranks[i], n);
        let mut li: u64 = 0;
        let mut u2: usize = 0;
        while u2 < n
            invariant
                i < n,
                n <= 0x10_0000,
                ranks@.len() == n,
                rs.len() == n,
                forall|z: int| 0 <= z < n ==> (#[trigger] ranks@[z]) as nat == rs[z],
                u2 <= n,
                li as nat == distinct_below(rs, rs[i as int], u2 as int),
                li <= u2,
            decreases n - u2,
        {
            if ranks[u2] < ranks[i] {
                let fa = is_first_at(&ranks, Ghost(rs), ranks[u2], u2);
                if fa {
                    li = li + 1;
                }
            }
            u2 += 1;
        }
        // wrapped label
        let chars = strs::str_to_chars(nodes[i].label.as_str());
        let words = split_words(&chars, 0);
        let empty_cur: Vec<char> = Vec::new();
        let lines_chars = wrap_exec(&words, 0, empty_cur);
        proof {
            assert(words_view(words@) =~= words_from(nodes@[i as int].label@, 0)) by {
                assert(words_view(words@).len() == words_from(nodes@[i as int].label@, 0).len());
                assert(forall|z: int|
                    0 <= z < words@.len() ==> words_view(words@)[z] == (#[trigger] words@[z])@);
            }
            lemma_words_len(nodes@[i as int].label@, 0);
            lemma_wrap_len(words_view(words@), 0, Seq::empty());
            assert(lines_chars@.len() <= 0x10_0000 + 2);
        }
        let mut lines: Vec<String> = Vec::new();
        let mut maxcap: u64 = 0;
        let mut z: usize = 0;
        while z < lines_chars.len()
            invariant
                z <= lines_chars@.len(),
                lines@.len() == z,
                forall|y: int| 0 <= y < z ==> (#[trigger] lines@[y])@ == lines_chars@[y]@,
                maxcap as nat == capped_line_len(
                    lines_chars@.map_values(|l: Vec<char>| l@),
                    z as int,
                ),
                maxcap <= MAX_LINE_CHARS + 1,
            decreases lines_chars@.len() - z,
        {
            let line = chars_to_string(&lines_chars[z]);
            let ll: usize = lines_chars[z].len();
            let here: u64 = if ll >= (MAX_LINE_CHARS + 1) as usize {
                MAX_LINE_CHARS + 1
            } else {
                ll as u64
            };
            proof {
                let lv = lines_chars@.map_values(|l: Vec<char>| l@);
                assert(lv[z as int] == lines_chars@[z as int]@);
            }
            if here > maxcap {
                maxcap = here;
            }
            lines.push(line);
            z += 1;
        }
        proof {
            assert(lines_chars@.map_values(|l: Vec<char>| l@) =~= wrapped_of(
                nodes@[i as int].label@,
            )) by {
                assert(forall|y: int|
                    0 <= y < lines_chars@.len() ==> lines_chars@.map_values(|l: Vec<char>| l@)[y]
                        == (#[trigger] lines_chars@[y])@);
            }
        }
        let box_w: u64 = maxcap * CHAR_W + PAD_W;
        let nlines: usize = lines.len();
        let hh: u64 = (nlines as u64) * LINE_H + PAD_H;
        let box_h: u64 = if hh < MIN_H {
            MIN_H
        } else {
            hh
        };
        // position
        proof {
            assert((ord as int + 1) * ((widest as int) * (SLOT_W as int)) < 0x1_0000_0000_0000)
                by (nonlinear_arith)
                requires
                    0 <= ord as int <= 0x10_0000,
                    0 <= widest as int <= 0x10_0000,
            ;
        }
        let center_x: u64 = (ord + 1) * (widest * SLOT_W) / (cnt + 1);
        let center_y: u64 = li * LAYER_GAP + LAYER_GAP / 2;
        // intensity
        let intensity_milli: u64 = if maxa == 0 {
            0
        } else {
            let raw: u128 = (nodes[i].active_us as u128) * 1000 / (maxa as u128);
            if raw > 1000 {
                1000
            } else {
                raw as u64
            }
        };
        let node = LayoutNode {
            id: nodes[i].id,
            rank: ranks[i],
            order_in_rank: ord,
            center_x,
            center_y,
            box_w,
            box_h,
            wrapped_lines: lines,
            intensity_milli,
        };
        out.push(node);
        proof {
            assert(forall|z0: int| 0 <= z0 < i ==> out@[z0] == out@.drop_last()[z0]);
            assert(node_placed(nodes@, rs, i as int, out@[i as int]));
        }
        i += 1;
    }
    out
}

/// The elbow path of the edge from placed parent `j` to placed child `v`:
/// bottom-center of the parent box down to top-center of the child box,
/// through the vertical midpoint (the child's top floors at zero).
pub open spec fn edge_of(placed: Seq<LayoutNode>, j: int, v: int) -> EdgePath {
    let fy = placed[j].center_y + placed[j].box_h / 2;
    let ty: int = if placed[v].center_y >= placed[v].box_h / 2 {
        placed[v].center_y - placed[v].box_h / 2
    } else {
        0
    };
    EdgePath {
        from_x: placed[j].center_x,
        from_y: fy as u64,
        mid_y: (fy / 2 + ty / 2) as u64,
        to_x: placed[v].center_x,
        to_y: ty as u64,
    }
}

/// The routed edges of child `v`, parents taken in index order.
pub open spec fn row_edges_spec(
    nodes: Seq<LayoutInput>,
    placed: Seq<LayoutNode>,
    v: int,
    j: int,
) -> Seq<EdgePath>
    decreases j,
{
    if j <= 0 {
        Seq::empty()
    } else if lay_edge(nodes, j - 1, v) {
        row_edges_spec(nodes, placed, v, j - 1).push(edge_of(placed, j - 1, v))
    } else {
        row_edges_spec(nodes, placed, v, j - 1)
    }
}

/// All routed edges, children taken in index order: one elbow path for
/// every parent-to-child pair, and nothing else.
pub open spec fn edges_spec(
    nodes: Seq<LayoutInput>,
    placed: Seq<LayoutNode>,
    v: int,
) -> Seq<EdgePath>
    decreases v,
{
    if v <= 0 {
        Seq::empty()
    } else {
        edges_spec(nodes, placed, v - 1) + row_edges_spec(
            nodes,
            placed,
            v - 1,
            nodes.len() as int,
        )
    }
}

/// The elbow paths of the parent-to-child edges, parent box bottom to child
/// box top through the vertical midpoint. The result equals a pure function
/// of the inputs, so routing is deterministic and exactly one edge exists
/// per parent-to-child pair.
pub fn route_edges(nodes: &Vec<LayoutInput>, placed: &Vec<LayoutNode>) -> (edges: Vec<EdgePath>)
    requires
        placed@.len() == nodes@.len(),
        forall|i: int|
            0 <= i < placed@.len() ==> (#[trigger] placed@[i]).center_y <= 0x1_0000_0000_0000
                && placed@[i].box_h <= 0x1_0000_0000_0000,
    ensures
        edges@ == edges_spec(nodes@, placed@, nodes@.len() as int),
{
    let n: usize = nodes.len();
    let mut edges: Vec<EdgePath> = Vec::new();
    let mut v: usize = 0;
    while v < n
        invariant
            n == nodes@.len(),
            placed@.len() == n,
            forall|i: int|
                0 <= i < n ==> (#[trigger] placed@[i]).center_y <= 0x1_0000_0000_0000
                    && placed@[i].box_h <= 0x1_0000_0000_0000,
            v <= n,
            edges@ == edges_spec(nodes@, placed@, v as int),
        decreases n - v,
    {
        proof {
            assert(edges@ =~= edges_spec(nodes@, placed@, v as int) + row_edges_spec(
                nodes@,
                placed@,
                v as int,
                0,
            ));
        }
        let mut j: usize = 0;
        while j < n
            invariant
                n == nodes@.len(),
                placed@.len() == n,
                forall|i: int|
                    0 <= i < n ==> (#[trigger] placed@[i]).center_y <= 0x1_0000_0000_0000
                        && placed@[i].box_h <= 0x1_0000_0000_0000,
                v < n,
                j <= n,
                edges@ == edges_spec(nodes@, placed@, v as int) + row_edges_spec(
                    nodes@,
                    placed@,
                    v as int,
                    j as int,
                ),
            decreases n - j,
        {
            if crate::ops::contains_u32(&nodes[v].parents, nodes[j].id) {
                let from_y = placed[j].center_y + placed[j].box_h / 2;
                let to_y = if placed[v].center_y >= placed[v].box_h / 2 {
                    placed[v].center_y - placed[v].box_h / 2
                } else {
                    0
                };
                let mid_y = from_y / 2 + to_y / 2;
                let e = EdgePath {
                    from_x: placed[j].center_x,
                    from_y,
                    mid_y,
                    to_x: placed[v].center_x,
                    to_y,
                };
                proof {
                    assert(lay_edge(nodes@, j as int, v as int));
                    assert(e == edge_of(placed@, j as int, v as int));
                }
                edges.push(e);
                proof {
                    assert(edges@ =~= edges_spec(nodes@, placed@, v as int) + row_edges_spec(
                        nodes@,
                        placed@,
                        v as int,
                        j + 1,
                    ));
                }
            }
            j += 1;
        }
        proof {
            assert(edges@ =~= edges_spec(nodes@, placed@, v + 1));
        }
        v += 1;
    }
    edges
}

/// Two layouts of the same input agree on every rank, order, box,
/// position, wrapped text and intensity: the layout is deterministic.
pub proof fn lemma_layout_deterministic(
    nodes: Seq<LayoutInput>,
    out1: Seq<LayoutNode>,
    out2: Seq<LayoutNode>,
)
    requires
        out1.len() == nodes.len(),
        out2.len() == nodes.len(),
        forall|i: int|
            0 <= i < nodes.len() ==> node_placed(
                nodes,
                ranks_spec(nodes, nodes.len() as nat),
                i,
                #[trigger] out1[i],
            ),
        forall|i: int|
            0 <= i < nodes.len() ==> node_placed(
                nodes,
                ranks_spec(nodes, nodes.len() as nat),
                i,
                #[trigger] out2[i],
            ),
    ensures
        forall|i: int|
            0 <= i < nodes.len() ==> {
                &&& (#[trigger] out1[i]).rank == out2[i].rank
                &&& out1[i].order_in_rank == out2[i].order_in_rank
                &&& out1[i].box_w == out2[i].box_w
                &&& out1[i].box_h == out2[i].box_h
                &&& out1[i].center_x == out2[i].center_x
                &&& out1[i].center_y == out2[i].center_y
                &&& out1[i].intensity_milli == out2[i].intensity_milli
                &&& out1[i].wrapped_lines@.len() == out2[i].wrapped_lines@.len()
            },
{
}

/// The characters as a string.
fn chars_to_string(v: &Vec<char>) -> (r: String)
    ensures
        r@ == v@,
{
    let mut r = String::new();
    let mut i: usize = 0;
    while i < v.len()
        invariant
            i <= v@.len(),
            r@ == v@.take(i as int),
        decreases v@.len() - i,
    {
        let d = char_str(v[i]);
        r.append(d.as_str());
        proof {
            assert(r@ =~= v@.take(i + 1));
        }
        i += 1;
    }
    proof {
        assert(v@.take(v@.len() as int) =~= v@);
    }
    r
}

/// Relies on String::push: appending one character appends exactly that
/// character to the string's contents.
#[verifier::external_body]
fn char_str(c: char) -> (r: String)
    ensures
        r@ == seq![c],
{
    let mut s = String::new();
    s.push(c);
    s
}

} // verus!
