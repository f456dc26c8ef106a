//! Cycle detection over index-based adjacency lists, shared by both topology
//! schemas. Acyclicity is certified by a measure that strictly decreases
//! along every child edge; the detector either produces such a measure or a
//! concrete closed walk.

use vstd::prelude::*;
use vstd::pervasive::VecAdditionalExecFns;

verus! {

/// The child lists of an adjacency vector, as sequences.
pub open spec fn adj_view(adj: Seq<Vec<usize>>) -> Seq<Seq<usize>> {
    adj.map_values(|v: Vec<usize>| v@)
}

/// Every listed child is a valid node index.
pub open spec fn wf_adj(a: Seq<Seq<usize>>) -> bool {
    forall|i: int, j: int| 0 <= i < a.len() && 0 <= j < a[i].len() ==> a[i][j] < a.len()
}

/// `p` is a walk along child edges.
pub open spec fn is_path(a: Seq<Seq<usize>>, p: Seq<usize>) -> bool {
    &&& forall|k: int| 0 <= k < p.len() ==> p[k] < a.len()
    &&& forall|k: int| 0 <= k < p.len() - 1 ==> a[p[k] as int].contains(p[k + 1])
}

/// A walk of at least one edge that returns to its start.
pub open spec fn is_cycle(a: Seq<Seq<usize>>, p: Seq<usize>) -> bool {
    is_path(a, p) && p.len() >= 2 && p[0] == p[p.len() - 1]
}

/// `m` strictly decreases along every child edge.
pub open spec fn respects_measure(a: Seq<Seq<usize>>, m: Seq<nat>) -> bool {
    &&& m.len() == a.len()
    &&& forall|v: int, j: int|
        0 <= v < a.len() && 0 <= j < a[v].len() ==> m[a[v][j] as int] < m[v]
}

/// The graph is acyclic: some measure strictly decreases along every edge.
/// Equivalently (see [`lemma_acyclic_no_cycle`]) no closed walk exists.
pub open spec fn acyclic(a: Seq<Seq<usize>>) -> bool {
    exists|m: Seq<nat>| respects_measure(a, m)
}

/// Along a walk, the measure drops by at least the number of edges.
pub proof fn lemma_path_measure(a: Seq<Seq<usize>>, m: Seq<nat>, p: Seq<usize>)
    requires
        wf_adj(a),
        respects_measure(a, m),
        is_path(a, p),
        p.len() >= 1,
    ensures
        m[p[p.len() - 1] as int] + p.len() <= m[p[0] as int] + 1,
    decreases p.len(),
{
    if p.len() > 1 {
        let q = p.drop_last();
        assert(is_path(a, q)) by {
            assert(forall|k: int| 0 <= k < q.len() ==> q[k] == p[k]);
        }
        lemma_path_measure(a, m, q);
        let u = p[p.len() - 2];
        let w = p[p.len() - 1];
        assert(a[u as int].contains(w));
        let j = choose|j: int| 0 <= j < a[u as int].len() && a[u as int][j] == w;
        assert(m[w as int] < m[u as int]);
        assert(q[q.len() - 1] == u && q[0] == p[0]);
    }
}

/// An acyclic graph has no closed walk.
pub proof fn lemma_acyclic_no_cycle(a: Seq<Seq<usize>>)
    requires
        wf_adj(a),
        acyclic(a),
    ensures
        forall|p: Seq<usize>| !is_cycle(a, p),
{
    let m = choose|m: Seq<nat>| respects_measure(a, m);
    assert forall|p: Seq<usize>| !is_cycle(a, p) by {
        if is_cycle(a, p) {
            lemma_path_measure(a, m, p);
        }
    }
}

/// A walk that revisits its last node contains a closed walk, so the graph
/// is not acyclic.
pub proof fn lemma_lasso_cycle(a: Seq<Seq<usize>>, p: Seq<usize>, i: int)
    requires
        wf_adj(a),
        is_path(a, p),
        0 <= i < p.len() - 1,
        p[i] == p[p.len() - 1],
    ensures
        is_cycle(a, p.subrange(i, p.len() as int)),
        !acyclic(a),
{
    let c = p.subrange(i, p.len() as int);
    assert(is_path(a, c)) by {
        assert(forall|k: int| 0 <= k < c.len() ==> c[k] == p[k + i]);
    }
    assert(c.len() >= 2);
    assert(c[0] == p[i] && c[c.len() - 1] == p[p.len() - 1]);
    if acyclic(a) {
        lemma_acyclic_no_cycle(a);
        assert(!is_cycle(a, c));
        assert(false);
    }
}

/// An index at which `m` attains its maximum.
pub open spec fn seq_max_index(m: Seq<nat>) -> int
    decreases m.len(),
{
    if m.len() <= 1 {
        0
    } else {
        let r = seq_max_index(m.drop_last());
        if m[m.len() - 1] > m[r] {
            m.len() - 1
        } else {
            r
        }
    }
}

pub proof fn lemma_seq_max_index(m: Seq<nat>)
    requires
        m.len() > 0,
    ensures
        0 <= seq_max_index(m) < m.len(),
        forall|u: int| 0 <= u < m.len() ==> #[trigger] m[u] <= m[seq_max_index(m)],
    decreases m.len(),
{
    if m.len() > 1 {
        lemma_seq_max_index(m.drop_last());
        assert(forall|u: int| 0 <= u < m.len() - 1 ==> m.drop_last()[u] == m[u]);
    }
}

/// One entry of the traversal stack: a node and how many of its children
/// have been taken up already.
#[derive(Clone, Copy)]
pub struct Frame {
    pub node: usize,
    pub next: usize,
}

spec fn count_white(c: Seq<u8>) -> nat
    decreases c.len(),
{
    if c.len() == 0 {
        0
    } else {
        count_white(c.drop_last()) + if c.last() == 0u8 {
            1nat
        } else {
            0nat
        }
    }
}

proof fn lemma_count_white_update(c: Seq<u8>, i: int, x: u8)
    requires
        0 <= i < c.len(),
        x != 0,
    ensures
        c[i] == 0 ==> count_white(c.update(i, x)) + 1 == count_white(c),
        c[i] != 0 ==> count_white(c.update(i, x)) == count_white(c),
    decreases c.len(),
{
    let c2 = c.update(i, x);
    if i == c.len() - 1 {
        assert(c2.drop_last() =~= c.drop_last());
        assert(c2.last() == x && c.last() == c[i]);
    } else {
        lemma_count_white_update(c.drop_last(), i, x);
        assert(c2.drop_last() =~= c.drop_last().update(i, x));
        assert(c2.last() == c.last());
    }
}

spec fn frame_rem(a: Seq<Seq<usize>>, f: Frame) -> nat {
    if f.node < a.len() && f.next <= a[f.node as int].len() {
        (a[f.node as int].len() - f.next) as nat
    } else {
        0
    }
}

spec fn frames_remaining(st: Seq<Frame>, a: Seq<Seq<usize>>) -> nat
    decreases st.len(),
{
    if st.len() == 0 {
        0
    } else {
        frames_remaining(st.drop_last(), a) + frame_rem(a, st.last())
    }
}

/// The invariant of finished nodes: each is ranked below the counter and all
/// its children are finished with strictly smaller ranks.
spec fn done_closed(a: Seq<Seq<usize>>, colors: Seq<u8>, rank: Seq<usize>, counter: nat) -> bool {
    &&& forall|v: int| 0 <= v < a.len() && colors[v] == 2 ==> (rank[v] as nat) < counter
    &&& forall|v: int, j: int|
        0 <= v < a.len() && #[trigger] colors[v] == 2 && 0 <= j < a[v].len() ==> colors[#[trigger] a[v][j] as int] == 2 && rank[a[v][j] as int] < rank[v]
}

/// Search for a closed walk, starting from the given roots first and then
/// from every remaining node, taking children in list order.
///
/// Returns `Ok` exactly when the graph is acyclic; on `Err` the returned
/// walk follows child edges and ends at a node it already visited.
pub fn find_cycle(adj: &Vec<Vec<usize>>, roots: &Vec<usize>) -> (r: Result<(), Vec<usize>>)
    requires
        wf_adj(adj_view(adj@)),
        forall|i: int| 0 <= i < roots@.len() ==> roots@[i] < adj@.len(),
    ensures
        match r {
            Ok(_) => acyclic(adj_view(adj@)),
            Err(p) => {
                &&& is_path(adj_view(adj@), p@)
                &&& p@.len() >= 2
                &&& repeats_last(p@)
                &&& !acyclic(adj_view(adj@))
            },
        },
{
    let ghost a = adj_view(adj@);
    let n: usize = adj.len();
    let mut colors: Vec<u8> = Vec::new();
    let mut rank: Vec<usize> = Vec::new();
    let mut k: usize = 0;
    while k < n
        invariant
            k <= n,
            colors@.len() == k,
            rank@.len() == k,
            forall|v: int| 0 <= v < k ==> colors@[v] == 0,
        decreases n - k,
    {
        colors.push(0);
        rank.push(0);
        k += 1;
    }
    proof {
        lemma_count_all_white(colors@);
    }
    let mut counter: usize = 0;
    let mut stack: Vec<Frame> = Vec::new();
    let mut t: usize = 0;
    while t < roots.len()
        invariant
            n == adj@.len(),
            a == adj_view(adj@),
            wf_adj(a),
            forall|i: int| 0 <= i < roots@.len() ==> roots@[i] < n,
            t <= roots@.len(),
            colors@.len() == n,
            rank@.len() == n,
            stack@.len() == 0,
            forall|v: int| 0 <= v < n ==> colors@[v] == 0 || colors@[v] == 2,
            counter + count_white(colors@) == n,
            done_closed(a, colors@, rank@, counter as nat),
        decreases roots@.len() - t,
    {
        let start: usize = roots[t];
        if colors[start] == 0 {
            let ghost colors_old = colors@;
            colors.set(start, 1);
            proof {
                lemma_count_white_update(colors_old, start as int, 1);
                assert forall|v: int| 0 <= v < n && colors@[v] == 1 implies exists|i: int|
                    0 <= i < stack@.push(Frame { node: start, next: 0 }).len()
                        && (#[trigger] stack@.push(Frame { node: start, next: 0 })[i]).node
                        == v by {
                    assert(stack@.push(Frame { node: start, next: 0 })[0].node == start);
                }
            }
            stack.push(Frame { node: start, next: 0 });
            let r = walk(adj, Ghost(a), &mut colors, &mut rank, &mut counter, &mut stack);
            if let Some(p) = r {
                proof {
                    let i = choose|i: int| 0 <= i < p@.len() - 1 && #[trigger] p@[i] == p@[p@.len() - 1];
                    lemma_lasso_cycle(a, p@, i);
                }
                return Err(p);
            }
        }
        t += 1;
    }
    let mut start: usize = 0;
    while start < n
        invariant
            n == adj@.len(),
            a == adj_view(adj@),
            wf_adj(a),
            start <= n,
            colors@.len() == n,
            rank@.len() == n,
            stack@.len() == 0,
            forall|v: int| 0 <= v < n ==> colors@[v] == 0 || colors@[v] == 2,
            counter + count_white(colors@) == n,
            done_closed(a, colors@, rank@, counter as nat),
            forall|u: int| 0 <= u < start ==> colors@[u] == 2,
        decreases n - start,
    {
        if colors[start] == 0 {
            let ghost colors_old = colors@;
            colors.set(start, 1);
            proof {
                lemma_count_white_update(colors_old, start as int, 1);
                assert forall|v: int| 0 <= v < n && colors@[v] == 1 implies exists|i: int|
                    0 <= i < stack@.push(Frame { node: start, next: 0 }).len()
                        && (#[trigger] stack@.push(Frame { node: start, next: 0 })[i]).node
                        == v by {
                    assert(stack@.push(Frame { node: start, next: 0 })[0].node == start);
                }
            }
            stack.push(Frame { node: start, next: 0 });
            let r = walk(adj, Ghost(a), &mut colors, &mut rank, &mut counter, &mut stack);
            if let Some(p) = r {
                proof {
                    let i = choose|i: int| 0 <= i < p@.len() - 1 && #[trigger] p@[i] == p@[p@.len() - 1];
                    lemma_lasso_cycle(a, p@, i);
                }
                return Err(p);
            }
        }
        start += 1;
    }
    proof {
        assert(forall|u: int| 0 <= u < n ==> colors@[u] == 2);
        let m = Seq::new(n as nat, |v: int| rank@[v] as nat);
        assert(respects_measure(a, m)) by {
            assert(forall|v: int, j: int|
                0 <= v < a.len() && 0 <= j < a[v].len() ==> #[trigger] a[v][j] < a.len()
                    && colors@[v] == 2);
        }
    }
    Ok(())
}

proof fn lemma_count_all_white(c: Seq<u8>)
    requires
        forall|v: int| 0 <= v < c.len() ==> c[v] == 0,
    ensures
        count_white(c) == c.len(),
    decreases c.len(),
{
    if c.len() > 0 {
        lemma_count_all_white(c.drop_last());
    }
}

/// The walk's last node appears earlier in it.
pub open spec fn repeats_last(p: Seq<usize>) -> bool {
    exists|i: int| 0 <= i < p.len() - 1 && #[trigger] p[i] == p[p.len() - 1]
}

/// Stack invariants of the traversal: stack nodes are exactly the gray
/// nodes, consecutive frames are joined by the child edge the lower frame
/// last took, and every child a frame has passed is finished (or is the
/// frame above).
spec fn stack_inv(
    a: Seq<Seq<usize>>,
    colors: Seq<u8>,
    st: Seq<Frame>,
) -> bool {
    &&& forall|i: int|
        0 <= i < st.len() ==> (#[trigger] st[i]).node < a.len() && colors[st[i].node as int] == 1
            && st[i].next <= a[st[i].node as int].len()
    &&& forall|i: int|
        0 <= i < st.len() - 1 ==> (#[trigger] st[i]).next >= 1 && a[st[i].node as int][st[i].next
            - 1] == st[i + 1].node
    &&& forall|i: int, j: int| 0 <= i < j < st.len() ==> st[i].node != st[j].node
    &&& forall|v: int|
        0 <= v < a.len() && colors[v] == 1 ==> exists|i: int|
            0 <= i < st.len() && (#[trigger] st[i]).node == v
    &&& forall|i: int, j: int|
        #![trigger a[st[i].node as int][j]]
        0 <= i < st.len() && 0 <= j < st[i].next ==> colors[a[st[i].node as int][j] as int]
            == 2 || (i + 1 < st.len() && j == st[i].next - 1)
}

/// Finishing the top frame: pop it, mark its node done with the next rank.
proof fn lemma_pop_step(
    a: Seq<Seq<usize>>,
    colors0: Seq<u8>,
    colors1: Seq<u8>,
    rank0: Seq<usize>,
    rank1: Seq<usize>,
    counter0: usize,
    st0: Seq<Frame>,
    st1: Seq<Frame>,
)
    requires
        wf_adj(a),
        colors0.len() == a.len(),
        rank0.len() == a.len(),
        stack_inv(a, colors0, st0),
        done_closed(a, colors0, rank0, counter0 as nat),
        st0.len() >= 1,
        st0.last().next == a[st0.last().node as int].len(),
        st1 == st0.drop_last(),
        colors1 == colors0.update(st0.last().node as int, 2),
        rank1 == rank0.update(st0.last().node as int, counter0),
        forall|v: int| 0 <= v < a.len() ==> colors0[v] <= 2,
    ensures
        stack_inv(a, colors1, st1),
        done_closed(a, colors1, rank1, (counter0 + 1) as nat),
        frames_remaining(st0, a) == frames_remaining(st1, a),
        forall|v: int| 0 <= v < a.len() && colors0[v] == 2 ==> colors1[v] == 2,
        forall|v: int| 0 <= v < a.len() ==> colors1[v] <= 2,
{
    let top = st0.last();
    let v0 = top.node as int;
    assert(frame_rem(a, top) == 0);
    // the popped node's children are all finished with smaller ranks
    assert forall|j: int|
        0 <= j < a[v0].len() implies colors1[a[v0][j] as int] == 2 && rank1[a[v0][j] as int]
        < rank1[v0] by {
        assert(colors0[a[v0][j] as int] == 2 || (st0.len() - 1 + 1 < st0.len() && j == top.next
            - 1));
        assert(a[v0][j] != top.node);
        assert((rank0[a[v0][j] as int] as nat) < counter0 as nat);
    }
    assert forall|v: int, j: int|
        0 <= v < a.len() && #[trigger] colors1[v] == 2 && 0 <= j < a[v].len() implies colors1[#[trigger] a[v][j] as int]
        == 2 && rank1[a[v][j] as int] < rank1[v] by {
        if v != v0 {
            assert(colors0[v] == 2);
            assert(a[v][j] != v0) by {
                if a[v][j] == v0 {
                    assert(colors0[v0] == 2);
                    assert(colors0[v0] == 1);
                }
            }
        }
    }
    assert forall|v: int| 0 <= v < a.len() && #[trigger] colors1[v] == 2 implies (rank1[v] as nat)
        < (counter0 + 1) as nat by {
        if v != v0 {
            assert(colors0[v] == 2);
        }
    }
    // remaining gray nodes keep a stack witness
    assert forall|v: int|
        0 <= v < a.len() && colors1[v] == 1 implies exists|i: int|
        0 <= i < st1.len() && (#[trigger] st1[i]).node == v by {
        assert(colors0[v] == 1);
        let i = choose|i: int| 0 <= i < st0.len() && (#[trigger] st0[i]).node == v;
        assert(i < st0.len() - 1);
        assert(st1[i].node == v);
    }
    // the frame now on top has its last taken child finished
    assert forall|i: int, j: int|
        #![trigger a[st1[i].node as int][j]]
        0 <= i < st1.len() && 0 <= j < st1[i].next implies colors1[a[st1[i].node as int][j] as int]
        == 2 || (i + 1 < st1.len() && j == st1[i].next - 1) by {
        assert(st0[i] == st1[i]);
        if !(colors0[a[st0[i].node as int][j] as int] == 2) {
            assert(i + 1 < st0.len() && j == st0[i].next - 1);
            if i + 1 == st0.len() - 1 {
                assert(a[st0[i].node as int][j] == st0[i + 1].node);
                assert(st0[i + 1].node == top.node);
            }
        }
    }
}

/// Taking up a child that is already finished: only the top frame's
/// counter moves.
proof fn lemma_advance_step(a: Seq<Seq<usize>>, colors: Seq<u8>, st0: Seq<Frame>, st1: Seq<Frame>)
    requires
        wf_adj(a),
        colors.len() == a.len(),
        stack_inv(a, colors, st0),
        st0.len() >= 1,
        st0.last().next < a[st0.last().node as int].len(),
        st0.last().next < usize::MAX,
        colors[a[st0.last().node as int][st0.last().next as int] as int] == 2,
        st1 == st0.update(
            st0.len() - 1,
            Frame { node: st0.last().node, next: (st0.last().next + 1) as usize },
        ),
    ensures
        stack_inv(a, colors, st1),
        frames_remaining(st1, a) < frames_remaining(st0, a),
{
    let top = st0.last();
    assert(st1.drop_last() =~= st0.drop_last());
    assert(forall|k: int| 0 <= k < st1.len() ==> (#[trigger] st1[k]).node == st0[k].node);
    assert(st1.last().node == top.node && st1.last().next == top.next + 1);
    assert(frame_rem(a, st1.last()) < frame_rem(a, st0.last()));
    assert(frames_remaining(st1, a) == frames_remaining(st1.drop_last(), a) + frame_rem(
        a,
        st1.last(),
    ));
    assert(frames_remaining(st0, a) == frames_remaining(st0.drop_last(), a) + frame_rem(
        a,
        st0.last(),
    ));
    assert forall|v: int|
        0 <= v < a.len() && colors[v] == 1 implies exists|i: int|
        0 <= i < st1.len() && (#[trigger] st1[i]).node == v by {
        let i = choose|i: int| 0 <= i < st0.len() && (#[trigger] st0[i]).node == v;
        assert(st1[i].node == v);
    }
    assert forall|i: int, j: int|
        #![trigger a[st1[i].node as int][j]]
        0 <= i < st1.len() && 0 <= j < st1[i].next implies colors[a[st1[i].node as int][j] as int]
        == 2 || (i + 1 < st1.len() && j == st1[i].next - 1) by {
        if i < st1.len() - 1 {
            assert(st0[i] == st1[i]);
        } else {
            if j < top.next {
                assert(colors[a[st0[i].node as int][j] as int] == 2 || (i + 1 < st0.len() && j
                    == st0[i].next - 1));
            } else {
                assert(j == top.next);
            }
        }
    }
}

/// Taking up an unvisited child: color it gray and open a frame for it.
proof fn lemma_push_step(
    a: Seq<Seq<usize>>,
    colors0: Seq<u8>,
    colors1: Seq<u8>,
    st0: Seq<Frame>,
    st1: Seq<Frame>,
)
    requires
        wf_adj(a),
        colors0.len() == a.len(),
        stack_inv(a, colors0, st0),
        st0.len() >= 1,
        st0.last().next < a[st0.last().node as int].len(),
        st0.last().next < usize::MAX,
        colors0[a[st0.last().node as int][st0.last().next as int] as int] == 0,
        colors1 == colors0.update(a[st0.last().node as int][st0.last().next as int] as int, 1),
        st1 == st0.update(
            st0.len() - 1,
            Frame { node: st0.last().node, next: (st0.last().next + 1) as usize },
        ).push(
            Frame { node: a[st0.last().node as int][st0.last().next as int] as usize, next: 0 },
        ),
        forall|v: int| 0 <= v < a.len() ==> colors0[v] <= 2,
    ensures
        stack_inv(a, colors1, st1),
        forall|v: int| 0 <= v < a.len() && colors0[v] == 2 ==> colors1[v] == 2,
        forall|v: int| 0 <= v < a.len() ==> colors1[v] <= 2,
{
    let top = st0.last();
    let c = a[top.node as int][top.next as int];
    let mid = st0.update(st0.len() - 1, Frame { node: top.node, next: (top.next + 1) as usize });
    assert(st1 == mid.push(Frame { node: c as usize, next: 0 }));
    assert(forall|k: int| 0 <= k < mid.len() ==> st1[k] == mid[k]);
    assert(forall|k: int| 0 <= k < st0.len() ==> (#[trigger] st1[k]).node == st0[k].node);
    assert(st1[st1.len() - 1].node == c);
    assert(st1[st0.len() - 1].next == top.next + 1);
    assert forall|v: int|
        0 <= v < a.len() && colors1[v] == 1 implies exists|i: int|
        0 <= i < st1.len() && (#[trigger] st1[i]).node == v by {
        if v == c {
            assert(st1[st1.len() - 1].node == v);
        } else {
            assert(colors0[v] == 1);
            let i = choose|i: int| 0 <= i < st0.len() && (#[trigger] st0[i]).node == v;
            assert(st1[i].node == v);
        }
    }
    assert forall|i: int, j: int| 0 <= i < j < st1.len() implies st1[i].node != st1[j].node by {
        if j < st1.len() - 1 {
            assert(st1[i].node == st0[i].node && st1[j].node == st0[j].node);
        } else {
            assert(st1[j].node == c);
            assert(colors0[st0[i].node as int] == 1);
            assert(st1[i].node == st0[i].node);
        }
    }
    assert forall|i: int, j: int|
        #![trigger a[st1[i].node as int][j]]
        0 <= i < st1.len() && 0 <= j < st1[i].next implies colors1[a[st1[i].node as int][j] as int]
        == 2 || (i + 1 < st1.len() && j == st1[i].next - 1) by {
        if i < st1.len() - 1 {
            if i == st1.len() - 2 && j == st1[i].next - 1 {
            } else {
                assert(st0[i].node == st1[i].node);
                if i == st0.len() - 1 {
                    assert(j < top.next);
                    assert(colors0[a[st0[i].node as int][j] as int] == 2 || (i + 1 < st0.len()
                        && j == st0[i].next - 1));
                } else {
                    assert(st0[i].next == st1[i].next);
                    assert(colors0[a[st0[i].node as int][j] as int] == 2 || (i + 1 < st0.len()
                        && j == st0[i].next - 1));
                    assert(st1[i + 1].node == st0[i + 1].node);
                }
            }
        }
    }
}

/// One traversal move on a non-empty stack: finish the top frame, advance
/// past a finished child, descend into an unvisited one, or report a walk
/// that closes on a gray node.
#[verifier::rlimit(100)]
#[verifier::spinoff_prover]
fn walk_step(
    adj: &Vec<Vec<usize>>,
    Ghost(a): Ghost<Seq<Seq<usize>>>,
    colors: &mut Vec<u8>,
    rank: &mut Vec<usize>,
    counter: &mut usize,
    stack: &mut Vec<Frame>,
) -> (r: Option<Vec<usize>>)
    requires
        a == adj_view(adj@),
        wf_adj(a),
        old(colors)@.len() == adj@.len(),
        old(rank)@.len() == adj@.len(),
        forall|v: int| 0 <= v < a.len() ==> old(colors)@[v] <= 2,
        *old(counter) + count_white(old(colors)@) + old(stack)@.len() == a.len(),
        done_closed(a, old(colors)@, old(rank)@, *old(counter) as nat),
        stack_inv(a, old(colors)@, old(stack)@),
        old(stack)@.len() >= 1,
    ensures
        match r {
            None => {
                &&& final(colors)@.len() == a.len()
                &&& final(rank)@.len() == a.len()
                &&& forall|v: int| 0 <= v < a.len() ==> final(colors)@[v] <= 2
                &&& forall|v: int|
                    0 <= v < a.len() && old(colors)@[v] == 2 ==> final(colors)@[v] == 2
                &&& *final(counter) + count_white(final(colors)@) + final(stack)@.len() == a.len()
                &&& done_closed(a, final(colors)@, final(rank)@, *final(counter) as nat)
                &&& stack_inv(a, final(colors)@, final(stack)@)
                &&& final(stack)@.len() > 0 ==> final(stack)@[0].node == old(stack)@[0].node
                &&& final(stack)@.len() == 0 ==> final(colors)@[old(stack)@[0].node as int] == 2
                &&& {
                    ||| count_white(final(colors)@) < count_white(old(colors)@)
                    ||| (count_white(final(colors)@) == count_white(old(colors)@)
                        && frames_remaining(final(stack)@, a) < frames_remaining(old(stack)@, a))
                    ||| (count_white(final(colors)@) == count_white(old(colors)@)
                        && frames_remaining(final(stack)@, a) == frames_remaining(old(stack)@, a)
                        && final(stack)@.len() < old(stack)@.len())
                }
            },
            Some(p) => {
                &&& is_path(a, p@)
                &&& p@.len() >= 2
                &&& repeats_last(p@)
            },
        },
{
    let ghost n = a.len();
    let n_exec: usize = adj.len();
    assert(n == n_exec as nat);
    let top_idx: usize = stack.len() - 1;
    let top: Frame = stack[top_idx];
    let deg: usize = adj[top.node].len();
    assert(a[top.node as int] == adj@[top.node as int]@);
    assert(top == stack@.last());
    if top.next == deg {
        // finished: pop, mark done, assign the next rank
        let ghost st_old = stack@;
        let ghost colors_old = colors@;
        let ghost rank_old = rank@;
        stack.pop();
        colors.set(top.node, 2);
        assert(*counter < n);
        let ghost counter_old = *counter;
        rank.set(top.node, *counter);
        *counter = *counter + 1;
        proof {
            lemma_count_white_update(colors_old, top.node as int, 2);
            assert(stack@ =~= st_old.drop_last());
            lemma_pop_step(a, colors_old, colors@, rank_old, rank@, counter_old, st_old, stack@);
        }
        None
    } else {
        let c: usize = adj[top.node][top.next];
        assert(c < n);
        let ghost st_old = stack@;
        stack.set(top_idx, Frame { node: top.node, next: top.next + 1 });
        let cc: u8 = colors[c];
        if cc == 2 {
            // already finished: move on
            proof {
                lemma_advance_step(a, colors@, st_old, stack@);
            }
            None
        } else if cc == 1 {
            // a gray child: the stack from its frame onward is a closed walk
            let mut p: Vec<usize> = Vec::new();
            let mut i: usize = 0;
            while i < stack.len()
                invariant
                    i <= stack@.len(),
                    p@.len() == i,
                    forall|k: int| 0 <= k < i ==> p@[k] == (#[trigger] stack@[k]).node,
                decreases stack@.len() - i,
            {
                let f: Frame = stack[i];
                p.push(f.node);
                i += 1;
            }
            p.push(c);
            proof {
                let pl = p@.len();
                assert(p@[pl - 1] == c);
                assert(forall|k: int|
                    0 <= k < stack@.len() ==> (#[trigger] stack@[k]).node == st_old[k].node);
                assert(forall|k: int|
                    0 <= k < pl - 1 ==> p@[k] == (#[trigger] stack@[k]).node);
                assert(is_path(a, p@)) by {
                    assert forall|k: int| 0 <= k < pl implies p@[k] < a.len() by {
                        if k < pl - 1 {
                            assert(stack@[k].node == st_old[k].node);
                            assert(p@[k] == stack@[k].node);
                            assert(st_old[k].node < a.len());
                        } else {
                            assert(p@[k] == c);
                        }
                    }
                    assert forall|k: int| 0 <= k < pl - 1 implies a[p@[k] as int].contains(
                        p@[k + 1],
                    ) by {
                        if k < pl - 2 {
                            assert(st_old[k].next >= 1);
                            assert(a[st_old[k].node as int][st_old[k].next - 1] == st_old[k
                                + 1].node);
                            assert(stack@[k].node == st_old[k].node);
                            assert(stack@[k + 1].node == st_old[k + 1].node);
                            assert(p@[k] == st_old[k].node);
                            assert(p@[k + 1] == st_old[k + 1].node);
                            assert(a[p@[k] as int][st_old[k].next - 1] == p@[k + 1]);
                            assert(a[p@[k] as int].contains(p@[k + 1]));
                        } else {
                            assert(stack@[k].node == st_old[k].node);
                            assert(p@[k] == stack@[k].node);
                            assert(p@[k] == st_old[st_old.len() - 1].node == top.node);
                            assert(a[top.node as int][top.next as int] == c);
                            assert(p@[k + 1] == c);
                        }
                    }
                }
                let i0 = choose|i0: int|
                    0 <= i0 < st_old.len() && (#[trigger] st_old[i0]).node == c;
                assert(stack@[i0].node == st_old[i0].node);
                assert(p@[i0] == stack@[i0].node);
                assert(p@[i0] == c);
                assert(0 <= i0 < pl - 1);
                assert(repeats_last(p@));
            }
            Some(p)
        } else {
            // first visit: color gray and descend
            assert(cc == 0);
            let ghost colors_old = colors@;
            colors.set(c, 1);
            stack.push(Frame { node: c, next: 0 });
            proof {
                lemma_count_white_update(colors_old, c as int, 1);
                lemma_push_step(a, colors_old, colors@, st_old, stack@);
            }
            None
        }
    }
}

/// Drive one start's traversal to completion; `None` means the reachable
/// region finished, `Some` returns a walk ending at a revisited node.
fn walk(
    adj: &Vec<Vec<usize>>,
    Ghost(a): Ghost<Seq<Seq<usize>>>,
    colors: &mut Vec<u8>,
    rank: &mut Vec<usize>,
    counter: &mut usize,
    stack: &mut Vec<Frame>,
) -> (r: Option<Vec<usize>>)
    requires
        a == adj_view(adj@),
        wf_adj(a),
        old(colors)@.len() == adj@.len(),
        old(rank)@.len() == adj@.len(),
        forall|v: int| 0 <= v < a.len() ==> old(colors)@[v] <= 2,
        *old(counter) + count_white(old(colors)@) + old(stack)@.len() == a.len(),
        done_closed(a, old(colors)@, old(rank)@, *old(counter) as nat),
        stack_inv(a, old(colors)@, old(stack)@),
        old(stack)@.len() >= 1,
    ensures
        match r {
            None => {
                &&& final(colors)@.len() == a.len()
                &&& final(rank)@.len() == a.len()
                &&& forall|v: int| 0 <= v < a.len() ==> final(colors)@[v] <= 2
                &&& forall|v: int|
                    0 <= v < a.len() && old(colors)@[v] == 2 ==> final(colors)@[v] == 2
                &&& final(colors)@[old(stack)@[0].node as int] == 2
                &&& forall|v: int| 0 <= v < a.len() ==> final(colors)@[v] != 1
                &&& *final(counter) + count_white(final(colors)@) == a.len()
                &&& done_closed(a, final(colors)@, final(rank)@, *final(counter) as nat)
                &&& final(stack)@.len() == 0
            },
            Some(p) => {
                &&& is_path(a, p@)
                &&& p@.len() >= 2
                &&& repeats_last(p@)
            },
        },
{
    let ghost n = a.len();
    loop
        invariant
            a == adj_view(adj@),
            wf_adj(a),
            colors@.len() == n,
            rank@.len() == n,
            n == adj@.len(),
            forall|v: int| 0 <= v < n ==> colors@[v] <= 2,
            *counter + count_white(colors@) + stack@.len() == n,
            done_closed(a, colors@, rank@, *counter as nat),
            stack_inv(a, colors@, stack@),
            forall|v: int| 0 <= v < n && old(colors)@[v] == 2 ==> colors@[v] == 2,
            stack@.len() == 0 ==> colors@[old(stack)@[0].node as int] == 2,
            stack@.len() > 0 ==> stack@[0].node == old(stack)@[0].node,
        decreases count_white(colors@), frames_remaining(stack@, a), stack@.len(),
    {
        if stack.len() == 0 {
            proof {
                assert forall|v: int| 0 <= v < n implies colors@[v] != 1 by {
                    if colors@[v] == 1 {
                        let i = choose|i: int|
                            0 <= i < stack@.len() && (#[trigger] stack@[i]).node == v;
                    }
                }
            }
            return None;
        }
        let r = walk_step(adj, Ghost(a), colors, rank, counter, stack);
        if let Some(p) = r {
            return Some(p);
        }
    }
}

} // verus!
