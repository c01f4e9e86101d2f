//! Traversal engine: depth-first walks with an explicit stack.
//!
//! A node is marked visited at first discovery, so any cyclic or
//! multiply-connected input collapses into an implicit spanning tree:
//! every reachable node is emitted exactly once, each non-root node with
//! the single parent that discovered it, and the walk terminates on any
//! finite graph.
use vstd::prelude::*;

use crate::dag::{adj_in_range, lemma_total_edges_row_bound, DAGID, DAG};

verus! {

/// A traversal can emit a node when it is first discovered or when its
/// whole subtree has been exhausted.
#[derive(Debug, PartialEq, Eq, Clone, Copy, Structural)]
pub enum TraversalOrder {
    PreOrder,
    PostOrder,
}

/// One visit record: the node, its depth along the discovery path, and,
/// for non-root nodes, the parent that discovered it together with the
/// index of the edge through which it was discovered.
#[derive(Debug, Clone, Copy)]
pub struct DFOut {
    pub dagid: DAGID,
    pub depth: usize,
    /// Parent's id and this node's index in the parent's expansion order.
    pub parent_ref: Option<(DAGID, usize)>,
}

/// `p` is a walk through `adj`: nonempty, every node in range, and each
/// step follows a listed edge.
pub open spec fn is_path(adj: Seq<Seq<DAGID>>, p: Seq<DAGID>) -> bool {
    &&& p.len() >= 1
    &&& forall|k: int| 0 <= k < p.len() ==> (#[trigger] p[k]) < adj.len()
    &&& forall|k: int| 0 <= k < p.len() - 1 ==> (#[trigger] adj[p[k] as int]).contains(p[k + 1])
}

/// Some walk through `adj` leads from `from` to `to`.
pub open spec fn reachable(adj: Seq<Seq<DAGID>>, from: DAGID, to: DAGID) -> bool {
    exists|p: Seq<DAGID>| is_path(adj, p) && p.first() == from && p.last() == to
}

/// Every node reaches itself.
pub proof fn lemma_reachable_refl(adj: Seq<Seq<DAGID>>, u: DAGID)
    requires
        u < adj.len(),
    ensures
        reachable(adj, u, u),
{
    let p = seq![u];
    assert(is_path(adj, p) && p.first() == u && p.last() == u);
}

/// Reachability extends along one listed edge.
pub proof fn lemma_reachable_step(adj: Seq<Seq<DAGID>>, from: DAGID, u: DAGID, c: DAGID)
    requires
        reachable(adj, from, u),
        adj[u as int].contains(c),
        c < adj.len(),
    ensures
        reachable(adj, from, c),
{
    let p = choose|p: Seq<DAGID>| is_path(adj, p) && p.first() == from && p.last() == u;
    let q = p.push(c);
    assert forall|k: int| 0 <= k < q.len() - 1 implies (#[trigger] adj[q[k] as int]).contains(
        q[k + 1],
    ) by {
        if k < p.len() - 1 {
            assert(q[k] == p[k] && q[k + 1] == p[k + 1]);
        } else {
            assert(q[k] == u && q[k + 1] == c);
        }
    }
    assert(is_path(adj, q) && q.first() == from && q.last() == c);
}

/// A visited set that contains the start of a path and is closed under
/// listed edges contains the path's end.
proof fn lemma_path_end_visited(adj: Seq<Seq<DAGID>>, vis: Seq<bool>, p: Seq<DAGID>)
    requires
        vis.len() == adj.len(),
        is_path(adj, p),
        vis[p.first() as int],
        forall|u: int, j: int|
            0 <= u < vis.len() && vis[u] && 0 <= j < adj[u].len() ==> vis[
                #[trigger] adj[u][j] as int
            ],
    ensures
        vis[p.last() as int],
    decreases p.len(),
{
    if p.len() > 1 {
        let q = p.drop_last();
        assert(q.first() == p.first());
        lemma_path_end_visited(adj, vis, q);
        let prev = p[p.len() - 2];
        assert(q.last() == prev);
        assert(adj[prev as int].contains(p.last()));
        let j = choose|j: int| 0 <= j < adj[prev as int].len() && adj[prev as int][j] == p.last();
        assert(vis[adj[prev as int][j] as int]);
    }
}

/// In a closed visited set containing the root, every reachable node is
/// visited.
proof fn lemma_reachable_in_closed(adj: Seq<Seq<DAGID>>, vis: Seq<bool>, root: DAGID, v: DAGID)
    requires
        vis.len() == adj.len(),
        root < adj.len(),
        vis[root as int],
        forall|u: int, j: int|
            0 <= u < vis.len() && vis[u] && 0 <= j < adj[u].len() ==> vis[
                #[trigger] adj[u][j] as int
            ],
        reachable(adj, root, v),
        v < adj.len(),
    ensures
        vis[v as int],
{
    let p = choose|p: Seq<DAGID>| is_path(adj, p) && p.first() == root && p.last() == v;
    lemma_path_end_visited(adj, vis, p);
}

/// Pushing an element makes it contained; everything already contained
/// stays contained, and nothing else appears.
proof fn lemma_contains_push<A>(s: Seq<A>, e: A, x: A)
    ensures
        s.push(e).contains(x) <==> (s.contains(x) || x == e),
{
    if s.contains(x) {
        let i = choose|i: int| 0 <= i < s.len() && s[i] == x;
        assert(s.push(e)[i] == x);
    }
    assert(s.push(e)[s.len() as int] == e);
    if s.push(e).contains(x) && x != e {
        let i = choose|i: int| 0 <= i < s.push(e).len() && s.push(e)[i] == x;
        assert(s[i] == x);
    }
}

/// Pushing a fresh element keeps a sequence duplicate-free.
proof fn lemma_no_dup_push(s: Seq<DAGID>, e: DAGID)
    requires
        s.no_duplicates(),
        !s.contains(e),
    ensures
        s.push(e).no_duplicates(),
{
    let t = s.push(e);
    assert forall|k1: int, k2: int| 0 <= k1 < k2 < t.len() implies t[k1] != t[k2] by {
        if k2 == t.len() - 1 {
            assert(s.contains(s[k1]));
        }
    }
}

/// A duplicate-free sequence of values below `n` has at most `n` entries.
proof fn lemma_no_dup_len_bound(s: Seq<DAGID>, n: nat)
    requires
        s.no_duplicates(),
        n <= usize::MAX,
        forall|k: int| 0 <= k < s.len() ==> (#[trigger] s[k]) < n,
    ensures
        s.len() <= n,
{
    let st = s.to_set();
    s.unique_seq_to_set();
    let range = Set::<DAGID>::new(|u: DAGID| u < n);
    assert(st.subset_of(range));
    lemma_range_set_card(n);
    vstd::set_lib::lemma_len_subset(st, range);
}

/// The set of ids below `n` has cardinality `n`.
proof fn lemma_range_set_card(n: nat)
    requires
        n <= usize::MAX,
    ensures
        Set::<DAGID>::new(|u: DAGID| u < n).finite(),
        Set::<DAGID>::new(|u: DAGID| u < n).len() == n,
    decreases n,
{
    if n == 0 {
        assert(Set::<DAGID>::new(|u: DAGID| u < n) =~= Set::<DAGID>::empty());
    } else {
        lemma_range_set_card((n - 1) as nat);
        assert(Set::<DAGID>::new(|u: DAGID| u < n) =~= Set::<DAGID>::new(
            |u: DAGID| u < n - 1,
        ).insert((n - 1) as DAGID));
    }
}

/// How many entries of the row are true.
pub open spec fn count_true(s: Seq<bool>) -> int
    decreases s.len(),
{
    if s.len() == 0 {
        0
    } else {
        count_true(s.drop_last()) + if s.last() {
            1int
        } else {
            0int
        }
    }
}

proof fn lemma_count_true_bounds(s: Seq<bool>)
    ensures
        0 <= count_true(s) <= s.len(),
    decreases s.len(),
{
    if s.len() > 0 {
        lemma_count_true_bounds(s.drop_last());
    }
}

proof fn lemma_count_true_update(s: Seq<bool>, i: int)
    requires
        0 <= i < s.len(),
        !s[i],
    ensures
        count_true(s.update(i, true)) == count_true(s) + 1,
    decreases s.len(),
{
    let t = s.update(i, true);
    if i == s.len() - 1 {
        assert(t.drop_last() =~= s.drop_last());
    } else {
        assert(t.drop_last() =~= s.drop_last().update(i, true));
        lemma_count_true_update(s.drop_last(), i);
        assert(t.last() == s.last());
    }
}

/// Neighbors not yet examined, summed over all stack frames.
pub open spec fn rem_work(adj: Seq<Seq<DAGID>>, st: Seq<(DAGID, usize)>) -> int
    decreases st.len(),
{
    if st.len() == 0 {
        0
    } else {
        rem_work(adj, st.drop_last()) + (adj[st.last().0 as int].len() - st.last().1)
    }
}

proof fn lemma_rem_work_nonneg(adj: Seq<Seq<DAGID>>, st: Seq<(DAGID, usize)>)
    requires
        forall|k: int|
            0 <= k < st.len() ==> (#[trigger] st[k]).0 < adj.len() && st[k].1 <= adj[st[k].0 as int].len(),
    ensures
        rem_work(adj, st) >= 0,
    decreases st.len(),
{
    if st.len() > 0 {
        lemma_rem_work_nonneg(adj, st.drop_last());
    }
}

proof fn lemma_rem_work_update_last(
    adj: Seq<Seq<DAGID>>,
    st: Seq<(DAGID, usize)>,
    f: (DAGID, usize),
)
    requires
        st.len() >= 1,
        f.0 == st.last().0,
    ensures
        rem_work(adj, st.update(st.len() - 1, f)) == rem_work(adj, st) + st.last().1 - f.1,
{
    let t = st.update(st.len() - 1, f);
    assert(t.drop_last() =~= st.drop_last());
    assert(t.last() == f);
}

proof fn lemma_rem_work_push(adj: Seq<Seq<DAGID>>, st: Seq<(DAGID, usize)>, f: (DAGID, usize))
    ensures
        rem_work(adj, st.push(f)) == rem_work(adj, st) + (adj[f.0 as int].len() - f.1),
{
    assert(st.push(f).drop_last() =~= st);
    assert(st.push(f).last() == f);
}

/// Does any stack frame hold node `u`?
pub open spec fn stack_has(st: Seq<(DAGID, usize)>, u: DAGID) -> bool {
    exists|k: int| 0 <= k < st.len() && (#[trigger] st[k]).0 == u
}

/// Every frame holds an in-range visited node whose examined prefix of
/// neighbors is entirely visited.
pub open spec fn frames_ok(adj: Seq<Seq<DAGID>>, st: Seq<(DAGID, usize)>, vis: Seq<bool>) -> bool {
    &&& forall|k: int|
        0 <= k < st.len() ==> {
            let f = #[trigger] st[k];
            &&& f.0 < adj.len()
            &&& f.1 <= adj[f.0 as int].len()
            &&& vis[f.0 as int]
        }
    &&& forall|k: int, j: int|
        0 <= k < st.len() && 0 <= j < st[k].1 ==> vis[#[trigger] adj[st[k].0 as int][j] as int]
}

/// No node appears in two frames.
pub open spec fn stack_distinct(st: Seq<(DAGID, usize)>) -> bool {
    forall|k1: int, k2: int|
        0 <= k1 < k2 < st.len() ==> (#[trigger] st[k1]).0 != (#[trigger] st[k2]).0
}

/// Each frame above the bottom holds the child its predecessor most
/// recently advanced past: the stack spells the discovery path.
pub open spec fn stack_chain(adj: Seq<Seq<DAGID>>, st: Seq<(DAGID, usize)>) -> bool {
    forall|k: int|
        1 <= k < st.len() ==> {
            let f = #[trigger] st[k];
            let e = st[k - 1];
            &&& e.1 >= 1
            &&& f.0 == adj[e.0 as int][e.1 - 1]
        }
}

/// Every visited node that is no longer on the stack has had all its
/// neighbors visited.
pub open spec fn closure_off_stack(
    adj: Seq<Seq<DAGID>>,
    vis: Seq<bool>,
    st: Seq<(DAGID, usize)>,
) -> bool {
    forall|u: int, j: int|
        0 <= u < vis.len() && vis[u] && !stack_has(st, u as DAGID) && 0 <= j < adj[u].len()
            ==> vis[#[trigger] adj[u][j] as int]
}

/// Every visited node is reachable from the root.
pub open spec fn visited_reachable(adj: Seq<Seq<DAGID>>, vis: Seq<bool>, root: DAGID) -> bool {
    forall|u: int| 0 <= u < vis.len() && #[trigger] vis[u] ==> reachable(adj, root, u as DAGID)
}

/// The emission log holds in-range nodes, each at most once.
pub open spec fn emitted_ok(em: Seq<DAGID>, n: nat) -> bool {
    &&& forall|k: int| 0 <= k < em.len() ==> (#[trigger] em[k]) < n
    &&& em.no_duplicates()
}

/// Ties the emission log to the visited set: pre-order has emitted
/// exactly the visited nodes; post-order has emitted exactly the visited
/// nodes that have already left the stack.
pub open spec fn order_sync(
    order: TraversalOrder,
    started: bool,
    st: Seq<(DAGID, usize)>,
    vis: Seq<bool>,
    em: Seq<DAGID>,
    root: DAGID,
) -> bool {
    &&& !started ==> {
        &&& st == seq![(root, 0usize)]
        &&& em == Seq::<DAGID>::empty()
        &&& forall|u: int| 0 <= u < vis.len() ==> (#[trigger] vis[u] <==> u == root)
    }
    &&& (started && order == TraversalOrder::PreOrder) ==> forall|u: int|
        0 <= u < vis.len() ==> (#[trigger] vis[u] <==> em.contains(u as DAGID))
    &&& order == TraversalOrder::PostOrder ==> {
        &&& forall|u: int|
            0 <= u < vis.len() ==> (#[trigger] vis[u] <==> (em.contains(u as DAGID) || stack_has(
                st,
                u as DAGID,
            )))
        &&& forall|k: int| 0 <= k < st.len() ==> !em.contains((#[trigger] st[k]).0)
    }
}

/// The discovery-depth map assigns every stack frame its position: the
/// stack spells the discovery path, so a frame's index is its node's
/// depth; and only visited nodes have a recorded depth.
pub open spec fn depths_ok(
    st: Seq<(DAGID, usize)>,
    vis: Seq<bool>,
    dm: Map<DAGID, usize>,
) -> bool {
    &&& forall|k: int|
        0 <= k < st.len() ==> dm.contains_key((#[trigger] st[k]).0) && dm[st[k].0] == k
    &&& forall|x: DAGID| #[trigger] dm.contains_key(x) ==> x < vis.len() && vis[x as int]
}

/// The whole invariant of a depth-first walk in flight.
pub open spec fn iter_inv(
    adj: Seq<Seq<DAGID>>,
    st: Seq<(DAGID, usize)>,
    vis: Seq<bool>,
    em: Seq<DAGID>,
    root: DAGID,
    order: TraversalOrder,
    started: bool,
    dm: Map<DAGID, usize>,
) -> bool {
    &&& vis.len() == adj.len()
    &&& adj.len() <= usize::MAX
    &&& adj_in_range(adj, adj.len())
    &&& root < adj.len()
    &&& vis[root as int]
    &&& frames_ok(adj, st, vis)
    &&& stack_distinct(st)
    &&& stack_chain(adj, st)
    &&& (st.len() >= 1 ==> st[0].0 == root)
    &&& closure_off_stack(adj, vis, st)
    &&& visited_reachable(adj, vis, root)
    &&& emitted_ok(em, adj.len())
    &&& order_sync(order, started, st, vis, em, root)
    &&& depths_ok(st, vis, dm)
}

/// Advancing the top frame past an already-visited child keeps the
/// invariant.
#[verifier::rlimit(100)]
#[verifier::spinoff_prover]
proof fn lemma_step_advance(
    adj: Seq<Seq<DAGID>>,
    st: Seq<(DAGID, usize)>,
    vis: Seq<bool>,
    em: Seq<DAGID>,
    root: DAGID,
    order: TraversalOrder,
    bumped: usize,
    dm: Map<DAGID, usize>,
)
    requires
        iter_inv(adj, st, vis, em, root, order, true, dm),
        st.len() >= 1,
        st.last().1 < adj[st.last().0 as int].len(),
        bumped == st.last().1 + 1,
        vis[adj[st.last().0 as int][st.last().1 as int] as int],
    ensures
        iter_inv(
            adj,
            st.update(st.len() - 1, (st.last().0, bumped)),
            vis,
            em,
            root,
            order,
            true,
            dm,
        ),
        rem_work(adj, st.update(st.len() - 1, (st.last().0, bumped))) == rem_work(adj, st) - 1,
{
    let st1 = st.update(st.len() - 1, (st.last().0, bumped));
    lemma_rem_work_update_last(adj, st, (st.last().0, bumped));
    assert(frames_ok(adj, st1, vis)) by {
        assert forall|k: int| 0 <= k < st1.len() implies ({
            let f = #[trigger] st1[k];
            &&& f.0 < adj.len()
            &&& f.1 <= adj[f.0 as int].len()
            &&& vis[f.0 as int]
        }) by {
            assert(st1[k].0 == st[k].0);
            assert(k == st1.len() - 1 || st1[k].1 == st[k].1);
        }
        assert forall|k: int, j: int|
            0 <= k < st1.len() && 0 <= j < st1[k].1 implies vis[
            #[trigger] adj[st1[k].0 as int][j] as int] by {
            if k == st1.len() - 1 {
                if j < st.last().1 {
                    assert(vis[adj[st[k].0 as int][j] as int]);
                } else {
                    assert(j == st.last().1);
                }
            } else {
                assert(st[k] == st1[k]);
            }
        }
    }
    assert(stack_distinct(st1)) by {
        assert forall|k1: int, k2: int|
            0 <= k1 < k2 < st1.len() implies (#[trigger] st1[k1]).0 != (#[trigger] st1[k2]).0 by {
            assert(st1[k1].0 == st[k1].0 && st1[k2].0 == st[k2].0);
        }
    }
    assert(stack_chain(adj, st1)) by {
        assert forall|k: int| 1 <= k < st1.len() implies ({
            let f = #[trigger] st1[k];
            let e = st1[k - 1];
            &&& e.1 >= 1
            &&& f.0 == adj[e.0 as int][e.1 - 1]
        }) by {
            assert(st1[k].0 == st[k].0);
            assert(st1[k - 1] == st[k - 1]);
        }
    }
    assert(closure_off_stack(adj, vis, st1)) by {
        assert forall|x: int, j: int|
            0 <= x < vis.len() && vis[x] && !stack_has(st1, x as DAGID) && 0 <= j
                < adj[x].len() implies vis[#[trigger] adj[x][j] as int] by {
            if stack_has(st, x as DAGID) {
                let k = choose|k: int| 0 <= k < st.len() && (#[trigger] st[k]).0 == x as DAGID;
                assert(st1[k].0 == x as DAGID);
            }
        }
    }
    if order == TraversalOrder::PostOrder {
        lemma_same_nodes_sync(st, st1, vis, em);
    }
    assert(depths_ok(st1, vis, dm)) by {
        assert forall|k: int|
            0 <= k < st1.len() implies dm.contains_key((#[trigger] st1[k]).0) && dm[st1[k].0]
            == k by {
            assert(st1[k].0 == st[k].0);
        }
    }
    assert(iter_inv(adj, st1, vis, em, root, order, true, dm));
}

/// Post-order bookkeeping survives any stack change that keeps the same
/// nodes in the same frames.
proof fn lemma_same_nodes_sync(
    st: Seq<(DAGID, usize)>,
    st1: Seq<(DAGID, usize)>,
    vis: Seq<bool>,
    em: Seq<DAGID>,
)
    requires
        st1.len() == st.len(),
        forall|k: int| 0 <= k < st.len() ==> (#[trigger] st1[k]).0 == st[k].0,
        forall|u: int|
            0 <= u < vis.len() ==> (#[trigger] vis[u] <==> (em.contains(u as DAGID) || stack_has(
                st,
                u as DAGID,
            ))),
        forall|k: int| 0 <= k < st.len() ==> !em.contains((#[trigger] st[k]).0),
    ensures
        forall|u: int|
            0 <= u < vis.len() ==> (#[trigger] vis[u] <==> (em.contains(u as DAGID) || stack_has(
                st1,
                u as DAGID,
            ))),
        forall|k: int| 0 <= k < st1.len() ==> !em.contains((#[trigger] st1[k]).0),
{
    assert forall|u: int|
        0 <= u < vis.len() implies (#[trigger] vis[u] <==> (em.contains(u as DAGID) || stack_has(
        st1,
        u as DAGID,
    ))) by {
        if vis[u] && !em.contains(u as DAGID) {
            let k = choose|k: int| 0 <= k < st.len() && (#[trigger] st[k]).0 == u as DAGID;
            assert(st1[k].0 == u as DAGID);
        }
        if stack_has(st1, u as DAGID) {
            let k = choose|k: int| 0 <= k < st1.len() && (#[trigger] st1[k]).0 == u as DAGID;
            assert(st[k].0 == u as DAGID);
        }
    }
}

/// Discovering a fresh child: it is marked visited and pushed; pre-order
/// also emits it. The invariant is kept either way.
#[verifier::rlimit(100)]
#[verifier::spinoff_prover]
proof fn lemma_step_discover(
    adj: Seq<Seq<DAGID>>,
    st: Seq<(DAGID, usize)>,
    vis: Seq<bool>,
    em: Seq<DAGID>,
    root: DAGID,
    order: TraversalOrder,
    bumped: usize,
    c: DAGID,
    dm: Map<DAGID, usize>,
    cdepth: usize,
)
    requires
        iter_inv(adj, st, vis, em, root, order, true, dm),
        cdepth == st.len(),
        st.len() >= 1,
        st.last().1 < adj[st.last().0 as int].len(),
        bumped == st.last().1 + 1,
        c == adj[st.last().0 as int][st.last().1 as int],
        !vis[c as int],
    ensures
        ({
            let st2 = st.update(st.len() - 1, (st.last().0, bumped)).push((c, 0usize));
            let vis1 = vis.update(c as int, true);
            let dm1 = dm.insert(c, cdepth);
            &&& c < adj.len()
            &&& !em.contains(c)
            &&& c != st.last().0
            &&& !dm.contains_key(c)
            &&& dm.contains_key(st.last().0)
            &&& dm[st.last().0] + 1 == cdepth
            &&& reachable(adj, root, c)
            &&& reachable(adj, root, st.last().0)
            &&& count_true(vis1) == count_true(vis) + 1
            &&& order == TraversalOrder::PreOrder ==> {
                &&& iter_inv(adj, st2, vis1, em.push(c), root, order, true, dm1)
                &&& em.contains(st.last().0)
            }
            &&& order != TraversalOrder::PreOrder ==> iter_inv(
                adj,
                st2,
                vis1,
                em,
                root,
                order,
                true,
                dm1,
            )
        }),
{
    let u = st.last().0;
    let mid = st.update(st.len() - 1, (u, bumped));
    let st2 = mid.push((c, 0usize));
    let vis1 = vis.update(c as int, true);
    let dm1 = dm.insert(c, cdepth);
    assert(dm.contains_key(u) && dm[u] == st.len() - 1) by {
        assert(st[st.len() - 1].0 == u);
    }
    assert(!dm.contains_key(c)) by {
        if dm.contains_key(c) {
            assert(vis[c as int]);
        }
    }
    assert(depths_ok(st2, vis1, dm1)) by {
        assert forall|k: int|
            0 <= k < st2.len() implies dm1.contains_key((#[trigger] st2[k]).0) && dm1[st2[k].0]
            == k by {
            if k == st2.len() - 1 {
                assert(st2[k].0 == c);
            } else {
                assert(st2[k].0 == st[k].0);
                assert(st[k].0 != c) by {
                    assert(vis[st[k].0 as int]);
                }
            }
        }
        assert forall|x: DAGID| #[trigger] dm1.contains_key(x) implies x < vis1.len() && vis1[
        x as int] by {
            if x != c {
                assert(dm.contains_key(x));
            }
        }
    }
    assert(adj[u as int].contains(c)) by {
        assert(adj[u as int][st.last().1 as int] == c);
    }
    lemma_count_true_update(vis, c as int);
    assert(vis[u as int]);
    lemma_reachable_step(adj, root, u, c);
    // c is on no old frame: all frame nodes are visited
    assert forall|k: int| 0 <= k < st.len() implies (#[trigger] st[k]).0 != c by {
        assert(vis[st[k].0 as int]);
    }
    // membership of the new stack
    assert forall|x: DAGID| stack_has(st2, x) <==> (stack_has(st, x) || x == c) by {
        if stack_has(st, x) {
            let k = choose|k: int| 0 <= k < st.len() && (#[trigger] st[k]).0 == x;
            assert(st2[k].0 == x);
        }
        assert(st2[st2.len() - 1].0 == c);
        if stack_has(st2, x) && x != c {
            let k = choose|k: int| 0 <= k < st2.len() && (#[trigger] st2[k]).0 == x;
            assert(k < st2.len() - 1);
            assert(st[k].0 == x);
        }
    }
    // frames: the bumped prefix ends exactly at the fresh child
    assert forall|k: int, j: int|
        0 <= k < st2.len() && 0 <= j < st2[k].1 implies vis1[
        #[trigger] adj[st2[k].0 as int][j] as int] by {
        if k < st.len() {
            if k == st.len() - 1 && j == st.last().1 {
                assert(adj[st2[k].0 as int][j] == c);
            } else {
                assert(st2[k].0 == st[k].0);
                assert(j < st[k].1);
                assert(vis[adj[st[k].0 as int][j] as int]);
            }
        }
    }
    // distinctness and the chain link to the new top
    assert(stack_distinct(st2)) by {
        assert forall|k1: int, k2: int|
            0 <= k1 < k2 < st2.len() implies (#[trigger] st2[k1]).0 != (#[trigger] st2[k2]).0 by {
            if k2 == st2.len() - 1 {
                assert(st[k1].0 == st2[k1].0);
            } else {
                assert(st[k1].0 == st2[k1].0 && st[k2].0 == st2[k2].0);
            }
        }
    }
    assert(stack_chain(adj, st2)) by {
        assert forall|k: int|
            1 <= k < st2.len() implies ({
                let f = #[trigger] st2[k];
                let e = st2[k - 1];
                &&& e.1 >= 1
                &&& f.0 == adj[e.0 as int][e.1 - 1]
            }) by {
            if k == st2.len() - 1 {
                assert(st2[k - 1] == (u, bumped));
                assert(st2[k].0 == c);
            } else if k == st.len() - 1 && k >= 1 {
                assert(st2[k].0 == st[k].0);
                assert(st2[k - 1] == st[k - 1]);
            } else {
                assert(st2[k] == st[k] && st2[k - 1] == st[k - 1]);
            }
        }
    }
    // closure: only c changed, and c is on the stack
    assert forall|x: int, j: int|
        0 <= x < vis1.len() && vis1[x] && !stack_has(st2, x as DAGID) && 0 <= j
            < adj[x].len() implies vis1[#[trigger] adj[x][j] as int] by {
        assert(x != c as int);
        assert(!stack_has(st, x as DAGID));
        assert(vis[adj[x][j] as int]);
    }
    if order == TraversalOrder::PreOrder {
        let em1 = em.push(c);
        assert(!em.contains(c)) by {
            assert(!vis[c as int]);
        }
        lemma_no_dup_push(em, c);
        assert(em.contains(u)) by {
            assert(vis[u as int]);
        }
        assert forall|x: int|
            0 <= x < vis1.len() implies (#[trigger] vis1[x] <==> em1.contains(x as DAGID)) by {
            lemma_contains_push(em, c, x as DAGID);
        }
        assert(iter_inv(adj, st2, vis1, em1, root, order, true, dm1));
    } else {
        assert(order == TraversalOrder::PostOrder);
        assert(!em.contains(c)) by {
            assert(!vis[c as int]);
            if em.contains(c) {
                let k = choose|k: int| 0 <= k < em.len() && em[k] == c;
                assert(vis[c as int]);
            }
        }
        assert forall|x: int|
            0 <= x < vis1.len() implies (#[trigger] vis1[x] <==> (em.contains(x as DAGID)
                || stack_has(st2, x as DAGID))) by {
            if x == c as int {
                assert(stack_has(st2, c));
            }
        }
        assert forall|k: int| 0 <= k < st2.len() implies !em.contains((#[trigger] st2[k]).0) by {
            if k == st2.len() - 1 {
                assert(st2[k].0 == c);
            } else {
                assert(st2[k].0 == st[k].0);
            }
        }
        assert(iter_inv(adj, st2, vis1, em, root, order, true, dm1));
    }
}

/// Popping an exhausted frame: post-order emits the node on the way out.
/// The invariant is kept, and the popped node's parent frame, if any,
/// names the edge it was discovered through.
#[verifier::rlimit(100)]
#[verifier::spinoff_prover]
proof fn lemma_step_pop(
    adj: Seq<Seq<DAGID>>,
    st: Seq<(DAGID, usize)>,
    vis: Seq<bool>,
    em: Seq<DAGID>,
    root: DAGID,
    order: TraversalOrder,
    dm: Map<DAGID, usize>,
)
    requires
        iter_inv(adj, st, vis, em, root, order, true, dm),
        st.len() >= 1,
        st.last().1 == adj[st.last().0 as int].len(),
    ensures
        ({
            let st1 = st.drop_last();
            let u = st.last().0;
            &&& u < adj.len()
            &&& reachable(adj, root, u)
            &&& dm.contains_key(u)
            &&& dm[u] == st.len() - 1
            &&& st.len() >= 2 ==> dm.contains_key(st[st.len() - 2].0) && dm[st[st.len() - 2].0]
                + 1 == st.len() - 1
            &&& rem_work(adj, st1) == rem_work(adj, st)
            &&& st.len() >= 2 ==> {
                let e = st[st.len() - 2];
                &&& e.1 >= 1
                &&& e.1 - 1 < adj[e.0 as int].len()
                &&& e.0 < adj.len()
                &&& adj[e.0 as int][e.1 - 1] == u
                &&& reachable(adj, root, e.0)
                &&& u != e.0
            }
            &&& st.len() == 1 ==> u == root
            &&& order == TraversalOrder::PreOrder ==> iter_inv(
                adj,
                st1,
                vis,
                em,
                root,
                order,
                true,
                dm,
            )
            &&& order == TraversalOrder::PostOrder ==> {
                &&& iter_inv(adj, st1, vis, em.push(u), root, order, true, dm)
                &&& !em.contains(u)
                &&& st.len() >= 2 ==> !em.push(u).contains(st[st.len() - 2].0)
            }
        }),
{
    let st1 = st.drop_last();
    let u = st.last().0;
    assert(vis[u as int]);
    assert(dm.contains_key(u) && dm[u] == st.len() - 1) by {
        assert(st[st.len() - 1].0 == u);
    }
    assert(depths_ok(st1, vis, dm)) by {
        assert forall|k: int|
            0 <= k < st1.len() implies dm.contains_key((#[trigger] st1[k]).0) && dm[st1[k].0]
            == k by {
            assert(st1[k] == st[k]);
        }
    }
    assert(rem_work(adj, st1) == rem_work(adj, st));
    if st.len() >= 2 {
        let e = st[st.len() - 2];
        assert(st[st.len() - 1].0 == adj[e.0 as int][e.1 - 1]);
        assert(vis[e.0 as int]);
    }
    assert(frames_ok(adj, st1, vis)) by {
        assert forall|k: int, j: int|
            0 <= k < st1.len() && 0 <= j < st1[k].1 implies vis[
            #[trigger] adj[st1[k].0 as int][j] as int] by {
            assert(st1[k] == st[k]);
        }
    }
    assert(stack_distinct(st1)) by {
        assert forall|k1: int, k2: int|
            0 <= k1 < k2 < st1.len() implies (#[trigger] st1[k1]).0 != (#[trigger] st1[k2]).0 by {
            assert(st1[k1] == st[k1] && st1[k2] == st[k2]);
        }
    }
    assert(stack_chain(adj, st1)) by {
        assert forall|k: int| 1 <= k < st1.len() implies ({
            let f = #[trigger] st1[k];
            let e = st1[k - 1];
            &&& e.1 >= 1
            &&& f.0 == adj[e.0 as int][e.1 - 1]
        }) by {
            assert(st1[k] == st[k] && st1[k - 1] == st[k - 1]);
        }
    }
    // u leaves the stack with every neighbor examined
    assert(closure_off_stack(adj, vis, st1)) by {
        assert forall|x: int, j: int|
            0 <= x < vis.len() && vis[x] && !stack_has(st1, x as DAGID) && 0 <= j
                < adj[x].len() implies vis[#[trigger] adj[x][j] as int] by {
            if x == u as int {
                assert(st[st.len() - 1] == (u, st.last().1));
                assert(vis[adj[u as int][j] as int]);
            } else {
                if stack_has(st, x as DAGID) {
                    let k = choose|k: int| 0 <= k < st.len() && (#[trigger] st[k]).0 == x as DAGID;
                    assert(k < st.len() - 1);
                    assert(st1[k].0 == x as DAGID);
                }
            }
        }
    }
    if order == TraversalOrder::PostOrder {
        assert(!em.contains(u)) by {
            assert(st[st.len() - 1].0 == u);
        }
        let em1 = em.push(u);
        lemma_no_dup_push(em, u);
        assert(emitted_ok(em1, adj.len())) by {
            assert forall|k: int| 0 <= k < em1.len() implies (#[trigger] em1[k]) < adj.len() by {
                if k < em.len() {
                    assert(em1[k] == em[k]);
                } else {
                    assert(em1[k] == u);
                }
            }
        }
        assert forall|x: int|
            0 <= x < vis.len() implies (#[trigger] vis[x] <==> (em1.contains(x as DAGID)
                || stack_has(st1, x as DAGID))) by {
            lemma_contains_push(em, u, x as DAGID);
            if x != u as int {
                if vis[x] && !em.contains(x as DAGID) {
                    let k = choose|k: int| 0 <= k < st.len() && (#[trigger] st[k]).0 == x as DAGID;
                    assert(k < st.len() - 1);
                    assert(st1[k].0 == x as DAGID);
                }
                if stack_has(st1, x as DAGID) {
                    let k = choose|k: int|
                        0 <= k < st1.len() && (#[trigger] st1[k]).0 == x as DAGID;
                    assert(st[k].0 == x as DAGID);
                }
            }
        }
        assert forall|k: int| 0 <= k < st1.len() implies !em1.contains((#[trigger] st1[k]).0) by {
            assert(st[k].0 == st1[k].0);
            lemma_contains_push(em, u, st1[k].0);
        }
        if st.len() >= 2 {
            assert(st1[st.len() - 2].0 == st[st.len() - 2].0);
            assert(!em1.contains(st[st.len() - 2].0));
        }
        assert(iter_inv(adj, st1, vis, em1, root, order, true, dm));
    } else {
        assert(iter_inv(adj, st1, vis, em, root, order, true, dm));
    }
}

/// Depth-first traversal with an explicit stack of (node, next edge
/// index) frames; not recursive, so deep trees cannot exhaust the call
/// stack. Nodes are marked visited at first discovery; a later edge to an
/// already-visited node is silently skipped.
pub struct DepthFirstIter<'a, T> {
    tree: &'a DAG<T>,
    /// Stack of open nodes and the index of the next neighbor to examine.
    parents: Vec<(DAGID, usize)>,
    visited: Vec<bool>,
    order: TraversalOrder,
    root: DAGID,
    started: bool,
    emitted: Ghost<Seq<DAGID>>,
    depths: Ghost<Map<DAGID, usize>>,
}

impl<'a, T> DepthFirstIter<'a, T> {
    /// The graph being walked.
    pub closed spec fn graph(&self) -> DAG<T> {
        *self.tree
    }

    /// The ids emitted so far, in emission order.
    pub closed spec fn emitted(&self) -> Seq<DAGID> {
        self.emitted@
    }

    pub closed spec fn root_spec(&self) -> DAGID {
        self.root
    }

    pub closed spec fn order_spec(&self) -> TraversalOrder {
        self.order
    }

    pub closed spec fn stack(&self) -> Seq<(DAGID, usize)> {
        self.parents@
    }

    pub closed spec fn visited_row(&self) -> Seq<bool> {
        self.visited@
    }

    pub closed spec fn started_spec(&self) -> bool {
        self.started
    }

    /// The depth at which each node so far was first discovered: the
    /// length of its discovery path from the root.
    pub closed spec fn depth_map(&self) -> Map<DAGID, usize> {
        self.depths@
    }

    /// Iterator invariant, established by `depth_first_iter` and kept by
    /// every call of `next`.
    pub open spec fn wf(&self) -> bool {
        &&& self.graph().wf()
        &&& self.graph().adj().len() == self.graph().n()
        &&& iter_inv(
            self.graph().adj(),
            self.stack(),
            self.visited_row(),
            self.emitted(),
            self.root_spec(),
            self.order_spec(),
            self.started_spec(),
            self.depth_map(),
        )
    }

    /// The graph, order and root of a walk never change across `next`.
    pub open spec fn same_run(pre: Self, post: Self) -> bool {
        &&& post.graph() == pre.graph()
        &&& post.order_spec() == pre.order_spec()
        &&& post.root_spec() == pre.root_spec()
    }

    /// A node's discovery depth, once recorded, never changes.
    pub open spec fn depths_preserved(pre: Self, post: Self) -> bool {
        forall|x: DAGID|
            #[trigger] pre.depth_map().contains_key(x) ==> post.depth_map().contains_key(x)
                && post.depth_map()[x] == pre.depth_map()[x]
    }

    /// What one emission guarantees: a node not emitted before is
    /// appended to the emission log; it is reachable from the root; its
    /// parent reference names the edge through which it was discovered,
    /// and the parent itself is emitted before it in pre-order and after
    /// it in post-order.
    pub open spec fn emits(pre: Self, post: Self, out: DFOut) -> bool {
        let g = pre.graph();
        &&& post.emitted() == pre.emitted().push(out.dagid)
        &&& !pre.emitted().contains(out.dagid)
        &&& out.dagid < g.n()
        &&& reachable(g.adj(), pre.root_spec(), out.dagid)
        &&& post.depth_map().contains_key(out.dagid)
        &&& post.depth_map()[out.dagid] == out.depth
        &&& match out.parent_ref {
            Option::Some((p, i)) => {
                &&& p < g.n()
                &&& i < g.adj()[p as int].len()
                &&& g.adj()[p as int][i as int] == out.dagid
                &&& p != out.dagid
                &&& reachable(g.adj(), pre.root_spec(), p)
                &&& post.depth_map().contains_key(p)
                &&& post.depth_map()[p] + 1 == out.depth
                &&& pre.order_spec() == TraversalOrder::PreOrder ==> pre.emitted().contains(p)
                &&& pre.order_spec() == TraversalOrder::PostOrder ==> !post.emitted().contains(p)
            },
            Option::None => out.dagid == pre.root_spec() && out.depth == 0,
        }
    }

    /// Examines the next neighbor of the node on top of the stack:
    /// advances past an already-visited child, or discovers a fresh one,
    /// which pre-order emits on the spot.
    fn step_examine(&mut self) -> (r: Option<DFOut>)
        requires
            old(self).wf(),
            old(self).started_spec(),
            old(self).stack().len() >= 1,
            old(self).stack().last().1 < old(self).graph().adj()[old(
                self,
            ).stack().last().0 as int].len(),
        ensures
            final(self).wf(),
            final(self).started_spec(),
            Self::same_run(*old(self), *final(self)),
            Self::depths_preserved(*old(self), *final(self)),
            match r {
                Option::Some(out) => {
                    &&& old(self).order_spec() == TraversalOrder::PreOrder
                    &&& Self::emits(*old(self), *final(self), out)
                },
                Option::None => {
                    &&& final(self).emitted() == old(self).emitted()
                    &&& {
                        ||| (final(self).visited_row() == old(self).visited_row() && rem_work(
                            final(self).graph().adj(),
                            final(self).stack(),
                        ) == rem_work(old(self).graph().adj(), old(self).stack()) - 1)
                        ||| count_true(final(self).visited_row()) == count_true(
                            old(self).visited_row(),
                        ) + 1
                    }
                },
            },
    {
        let slen = self.parents.len();
        let (u, idx) = self.parents[slen - 1];
        proof {
            assert((u, idx) == old(self).stack().last());
        }
        let row = self.tree.neighbors(u);
        let row_len = row.len();
        let c = row[idx];
        let ghost old_st = self.stack();
        let ghost old_vis = self.visited_row();
        let ghost adj = self.graph().adj();
        self.parents[slen - 1] = (u, idx + 1);
        if !self.visited[c] {
            let depth = slen;
            proof {
                lemma_step_discover(
                    adj,
                    old_st,
                    old_vis,
                    self.emitted@,
                    self.root,
                    self.order,
                    (idx + 1) as usize,
                    c,
                    self.depths@,
                    depth,
                );
                self.depths@ = self.depths@.insert(c, depth);
            }
            self.visited.set(c, true);
            self.parents.push((c, 0));
            if self.order == TraversalOrder::PreOrder {
                let out = DFOut { dagid: c, depth, parent_ref: Some((u, idx)) };
                proof {
                    self.emitted@ = self.emitted@.push(c);
                }
                return Some(out);
            }
            None
        } else {
            proof {
                lemma_step_advance(
                    adj,
                    old_st,
                    old_vis,
                    self.emitted@,
                    self.root,
                    self.order,
                    (idx + 1) as usize,
                    self.depths@,
                );
            }
            None
        }
    }

    /// Pops the node on top of the stack, whose neighbors are exhausted;
    /// post-order emits it on the way out.
    fn step_pop(&mut self) -> (r: Option<DFOut>)
        requires
            old(self).wf(),
            old(self).started_spec(),
            old(self).stack().len() >= 1,
            old(self).stack().last().1 == old(self).graph().adj()[old(
                self,
            ).stack().last().0 as int].len(),
        ensures
            final(self).wf(),
            final(self).started_spec(),
            Self::same_run(*old(self), *final(self)),
            Self::depths_preserved(*old(self), *final(self)),
            final(self).visited_row() == old(self).visited_row(),
            final(self).stack() == old(self).stack().drop_last(),
            rem_work(final(self).graph().adj(), final(self).stack()) == rem_work(
                old(self).graph().adj(),
                old(self).stack(),
            ),
            match r {
                Option::Some(out) => {
                    &&& old(self).order_spec() == TraversalOrder::PostOrder
                    &&& Self::emits(*old(self), *final(self), out)
                },
                Option::None => {
                    &&& final(self).emitted() == old(self).emitted()
                    &&& old(self).order_spec() == TraversalOrder::PreOrder
                },
            },
    {
        let slen = self.parents.len();
        let (u, idx) = self.parents[slen - 1];
        let ghost old_st = self.stack();
        proof {
            assert(old_st[old_st.len() - 1] == (u, idx));
            lemma_step_pop(
                self.graph().adj(),
                old_st,
                self.visited_row(),
                self.emitted@,
                self.root,
                self.order,
                self.depths@,
            );
        }
        let _ = self.parents.pop();
        proof {
            assert(self.stack() =~= old_st.drop_last());
        }
        let out: DFOut;
        if slen >= 2 {
            let (p, pi) = self.parents[slen - 2];
            out = DFOut { dagid: u, depth: slen - 1, parent_ref: Some((p, pi - 1)) };
        } else {
            out = DFOut { dagid: u, depth: 0, parent_ref: None };
        }
        if self.order == TraversalOrder::PostOrder {
            proof {
                self.emitted@ = self.emitted@.push(u);
            }
            return Some(out);
        }
        None
    }

    /// Emits the next visit record, or `None` once every node reachable
    /// from the root has been emitted. Each reachable node is emitted
    /// exactly once over the whole run; the walk terminates on any finite
    /// graph, cyclic or not.
    pub fn next(&mut self) -> (r: Option<DFOut>)
        requires
            old(self).wf(),
        ensures
            final(self).wf(),
            Self::same_run(*old(self), *final(self)),
            Self::depths_preserved(*old(self), *final(self)),
            match r {
                Option::Some(out) => Self::emits(*old(self), *final(self), out),
                Option::None => {
                    let g = old(self).graph();
                    &&& final(self).emitted() == old(self).emitted()
                    &&& final(self).stack().len() == 0
                    &&& forall|v: DAGID|
                        v < g.n() && reachable(g.adj(), old(self).root_spec(), v)
                            ==> old(self).emitted().contains(v)
                },
            },
    {
        if !self.started {
            self.started = true;
            if self.order == TraversalOrder::PreOrder {
                let out = DFOut { dagid: self.root, depth: 0, parent_ref: None };
                proof {
                    let em0 = self.emitted@;
                    assert(em0 == Seq::<DAGID>::empty());
                    self.emitted@ = self.emitted@.push(self.root);
                    assert(self.emitted@.no_duplicates()) by {
                        assert(em0.push(self.root).len() == 1);
                    }
                    assert forall|u: int|
                        0 <= u < self.visited_row().len() implies (#[trigger] self.visited_row()[u]
                        <==> self.emitted().contains(u as DAGID)) by {
                        lemma_contains_push(em0, self.root, u as DAGID);
                        assert(old(self).visited_row()[u] <==> u == old(self).root_spec() as int);
                    }
                }
                return Some(out);
            }
        }
        loop
            invariant
                self.wf(),
                self.started_spec(),
                self.graph() == old(self).graph(),
                self.order_spec() == old(self).order_spec(),
                self.root_spec() == old(self).root_spec(),
                self.emitted() == old(self).emitted(),
                Self::depths_preserved(*old(self), *self),
            decreases
                    self.graph().n() - count_true(self.visited_row()),
                    rem_work(self.graph().adj(), self.stack()),
                    self.stack().len(),
        {
            proof {
                lemma_count_true_bounds(self.visited_row());
                lemma_rem_work_nonneg(self.graph().adj(), self.stack());
            }
            let slen = self.parents.len();
            if slen == 0 {
                proof {
                    let g = self.graph();
                    let adj = g.adj();
                    let vis = self.visited_row();
                    let em = self.emitted();
                    let root = self.root_spec();
                    assert forall|v: DAGID|
                        v < g.n() && reachable(adj, root, v) implies em.contains(v) by {
                        lemma_reachable_in_closed(adj, vis, root, v);
                    }
                }
                return None;
            }
            let (u, idx) = self.parents[slen - 1];
            let row_len = self.tree.neighbors(u).len();
            if idx < row_len {
                match self.step_examine() {
                    Some(out) => {
                        return Some(out);
                    },
                    None => {},
                }
            } else {
                match self.step_pop() {
                    Some(out) => {
                        return Some(out);
                    },
                    None => {},
                }
            }
            proof {
                lemma_count_true_bounds(self.visited_row());
                lemma_rem_work_nonneg(self.graph().adj(), self.stack());
            }
        }
    }
}

impl<T> DAG<T> {
    /// Begins a depth-first walk from `from` in the given order.
    pub fn depth_first_iter(&self, from: DAGID, order: TraversalOrder) -> (it: DepthFirstIter<
        '_,
        T,
    >)
        requires
            self.wf(),
            from < self.n(),
        ensures
            it.wf(),
            it.graph() == *self,
            it.root_spec() == from,
            it.order_spec() == order,
            it.emitted() == Seq::<DAGID>::empty(),
    {
        let n = self.num_nodes();
        let mut visited: Vec<bool> = Vec::new();
        let mut i: usize = 0;
        while i < n
            invariant
                i <= n,
                visited@.len() == i,
                forall|k: int| 0 <= k < i ==> !(#[trigger] visited@[k]),
            decreases n - i,
        {
            visited.push(false);
            i = i + 1;
        }
        visited.set(from, true);
        let mut parents: Vec<(DAGID, usize)> = Vec::new();
        parents.push((from, 0));
        let it = DepthFirstIter {
            tree: self,
            parents,
            visited,
            order,
            root: from,
            started: false,
            emitted: Ghost(Seq::empty()),
            depths: Ghost(Map::empty().insert(from, 0)),
        };
        proof {
            lemma_reachable_refl(self.adj(), from);
            assert(it.stack() =~= seq![(from, 0usize)]);
            assert(it.stack()[0].0 == from);
            assert forall|u: int|
                0 <= u < it.visited_row().len() implies (#[trigger] it.visited_row()[u] <==> u
                == from as int) by {}
            assert forall|u: int|
                0 <= u < it.visited_row().len() && #[trigger] it.visited_row()[u] implies reachable(
                self.adj(),
                from,
                u as DAGID,
            ) by {
                assert(u == from as int);
            }
            assert(it.emitted() =~= Seq::<DAGID>::empty());
            assert(depths_ok(it.stack(), it.visited_row(), it.depth_map())) by {
                assert(it.depth_map().contains_key(from) && it.depth_map()[from] == 0);
                assert forall|x: DAGID| #[trigger] it.depth_map().contains_key(x) implies x
                    < it.visited_row().len() && it.visited_row()[x as int] by {
                    assert(x == from);
                }
            }
        }
        it
    }

    /// Runs a whole depth-first walk from `from` and collects the visit
    /// records: every node reachable from `from` appears exactly once, a
    /// record's parent always appears on the proper side of it (before it
    /// in pre-order, after it in post-order), and unreachable nodes are
    /// absent. Termination holds for any finite graph, cyclic or not.
    #[verifier::rlimit(100)]
    pub fn depth_first_visit(&self, from: DAGID, order: TraversalOrder) -> (records: Vec<DFOut>)
        requires
            self.wf(),
            from < self.n(),
        ensures
            forall|a: int, b: int|
                0 <= a < b < records.len() ==> (#[trigger] records[a]).dagid != (
                #[trigger] records[b]).dagid,
            forall|j: int|
                0 <= j < records.len() ==> (#[trigger] records[j]).dagid < self.n() && reachable(
                    self.adj(),
                    from,
                    records[j].dagid,
                ),
            forall|v: DAGID|
                v < self.n() && reachable(self.adj(), from, v) ==> exists|j: int|
                    0 <= j < records.len() && (#[trigger] records[j]).dagid == v,
            forall|j: int|
                0 <= j < records.len() ==> match (#[trigger] records[j]).parent_ref {
                    Option::Some((p, i)) => {
                        &&& p < self.n()
                        &&& i < self.adj()[p as int].len()
                        &&& self.adj()[p as int][i as int] == records[j].dagid
                        &&& exists|k: int|
                            0 <= k < records.len() && (#[trigger] records[k]).dagid == p
                                && records[k].depth + 1 == records[j].depth && (order
                                == TraversalOrder::PreOrder ==> k < j) && (order
                                == TraversalOrder::PostOrder ==> k > j)
                    },
                    Option::None => records[j].dagid == from && records[j].depth == 0,
                },
            parents_placed(records@, order),
    {
        let mut it = self.depth_first_iter(from, order);
        let mut records: Vec<DFOut> = Vec::new();
        loop
            invariant
                it.wf(),
                it.graph() == *self,
                it.root_spec() == from,
                it.order_spec() == order,
                self.wf(),
                from < self.n(),
                records@.len() == it.emitted().len(),
                forall|k: int|
                    0 <= k < records@.len() ==> (#[trigger] records@[k]).dagid == it.emitted()[k],
                forall|jj: int|
                    0 <= jj < records@.len() ==> it.depth_map().contains_key(
                        (#[trigger] records@[jj]).dagid,
                    ) && it.depth_map()[records@[jj].dagid] == records@[jj].depth,
                forall|j: int|
                    0 <= j < records@.len() ==> match (#[trigger] records@[j]).parent_ref {
                        Option::Some((p, i)) => {
                            &&& p < self.n()
                            &&& i < self.adj()[p as int].len()
                            &&& self.adj()[p as int][i as int] == records@[j].dagid
                            &&& reachable(self.adj(), from, p)
                            &&& it.depth_map().contains_key(p)
                            &&& it.depth_map()[p] + 1 == records@[j].depth
                            &&& order == TraversalOrder::PreOrder ==> exists|k: int|
                                0 <= k < j && it.emitted()[k] == p
                            &&& order == TraversalOrder::PostOrder ==> forall|k: int|
                                0 <= k <= j ==> it.emitted()[k] != p
                        },
                        Option::None => records@[j].dagid == from && records@[j].depth == 0,
                    },
            ensures
                records@.len() == it.emitted().len(),
                it.wf(),
                it.graph() == *self,
                forall|k: int|
                    0 <= k < records@.len() ==> (#[trigger] records@[k]).dagid == it.emitted()[k],
                forall|v: DAGID|
                    v < self.n() && reachable(self.adj(), from, v) ==> it.emitted().contains(v),
                forall|jj: int|
                    0 <= jj < records@.len() ==> it.depth_map().contains_key(
                        (#[trigger] records@[jj]).dagid,
                    ) && it.depth_map()[records@[jj].dagid] == records@[jj].depth,
                forall|j: int|
                    0 <= j < records@.len() ==> match (#[trigger] records@[j]).parent_ref {
                        Option::Some((p, i)) => {
                            &&& p < self.n()
                            &&& i < self.adj()[p as int].len()
                            &&& self.adj()[p as int][i as int] == records@[j].dagid
                            &&& reachable(self.adj(), from, p)
                            &&& it.depth_map().contains_key(p)
                            &&& it.depth_map()[p] + 1 == records@[j].depth
                            &&& order == TraversalOrder::PreOrder ==> exists|k: int|
                                0 <= k < j && it.emitted()[k] == p
                            &&& order == TraversalOrder::PostOrder ==> forall|k: int|
                                0 <= k <= j ==> it.emitted()[k] != p
                        },
                        Option::None => records@[j].dagid == from && records@[j].depth == 0,
                    },
            decreases self.n() - it.emitted().len(),
        {
            proof {
                lemma_no_dup_len_bound(it.emitted(), self.n());
            }
            let ghost em0 = it.emitted();
            let r = it.next();
            match r {
                Some(out) => {
                    records.push(out);
                    proof {
                        lemma_no_dup_len_bound(it.emitted(), self.n());
                        let em = it.emitted();
                        let j_new = records@.len() - 1;
                        assert forall|jj: int|
                            0 <= jj < records@.len() implies it.depth_map().contains_key(
                            (#[trigger] records@[jj]).dagid,
                        ) && it.depth_map()[records@[jj].dagid] == records@[jj].depth by {
                            if jj < j_new {
                                assert(records@[jj] == records@.drop_last()[jj]);
                            }
                        }
                        assert forall|j: int|
                            0 <= j < records@.len() implies match (
                        #[trigger] records@[j]).parent_ref {
                            Option::Some((p, i)) => {
                                &&& p < self.n()
                                &&& i < self.adj()[p as int].len()
                                &&& self.adj()[p as int][i as int] == records@[j].dagid
                                &&& reachable(self.adj(), from, p)
                                &&& it.depth_map().contains_key(p)
                                &&& it.depth_map()[p] + 1 == records@[j].depth
                                &&& order == TraversalOrder::PreOrder ==> exists|k: int|
                                    0 <= k < j && em[k] == p
                                &&& order == TraversalOrder::PostOrder ==> forall|k: int|
                                    0 <= k <= j ==> em[k] != p
                            },
                            Option::None => records@[j].dagid == from && records@[j].depth == 0,
                        } by {
                            match records@[j].parent_ref {
                                Option::Some((p, i)) => {
                                    if j < j_new {
                                        assert(records@[j] == records@.drop_last()[j]);
                                        if order == TraversalOrder::PreOrder {
                                            let k = choose|k: int| 0 <= k < j && em0[k] == p;
                                            assert(em[k] == p);
                                        }
                                        if order == TraversalOrder::PostOrder {
                                            assert forall|k: int| 0 <= k <= j implies em[k]
                                                != p by {
                                                assert(em[k] == em0[k]);
                                            }
                                        }
                                    } else {
                                        if order == TraversalOrder::PreOrder {
                                            assert(em0.contains(p));
                                            let k = choose|k: int|
                                                0 <= k < em0.len() && em0[k] == p;
                                            assert(em[k] == p);
                                        }
                                        if order == TraversalOrder::PostOrder {
                                            assert(!em.contains(p));
                                            assert forall|k: int| 0 <= k <= j implies em[k]
                                                != p by {
                                                if em[k] == p {
                                                    assert(em.contains(p)) by {
                                                        assert(0 <= k < em.len() && em[k] == p);
                                                    }
                                                }
                                            }
                                        }
                                    }
                                },
                                Option::None => {},
                            }
                        }
                    }
                },
                None => {
                    break;
                },
            }
        }
        proof {
            let em = it.emitted();
            assert forall|v: DAGID|
                v < self.n() && reachable(self.adj(), from, v) implies exists|j: int|
                0 <= j < records@.len() && (#[trigger] records@[j]).dagid == v by {
                assert(em.contains(v));
                let k = choose|k: int| 0 <= k < em.len() && em[k] == v;
                assert(records@[k].dagid == v);
            }
            assert forall|j: int|
                0 <= j < records@.len() implies (#[trigger] records@[j]).dagid < self.n()
                && reachable(self.adj(), from, records@[j].dagid) by {
                assert(records@[j].dagid == em[j]);
                assert(em.contains(em[j]));
                assert(it.visited_row()[em[j] as int]);
            }
            assert forall|j: int|
                0 <= j < records@.len() implies match (#[trigger] records@[j]).parent_ref {
                Option::Some((p, i)) => {
                    &&& p < self.n()
                    &&& i < self.adj()[p as int].len()
                    &&& self.adj()[p as int][i as int] == records@[j].dagid
                    &&& exists|k: int|
                        0 <= k < records@.len() && (#[trigger] records@[k]).dagid == p && (order
                            == TraversalOrder::PreOrder ==> k < j) && (order
                            == TraversalOrder::PostOrder ==> k > j)
                },
                Option::None => records@[j].dagid == from,
            } by {
                match records@[j].parent_ref {
                    Option::Some((p, i)) => {
                        if order == TraversalOrder::PreOrder {
                            let k = choose|k: int| 0 <= k < j && em[k] == p;
                            assert(records@[k].dagid == p);
                            assert(records@[k].depth + 1 == records@[j].depth);
                            assert(0 <= k < records@.len() && records@[k].dagid == p
                                && records@[k].depth + 1 == records@[j].depth && k < j);
                        } else {
                            assert(em.contains(p));
                            let k = choose|k: int| 0 <= k < em.len() && em[k] == p;
                            assert(k > j);
                            assert(records@[k].dagid == p);
                            assert(records@[k].depth + 1 == records@[j].depth);
                            assert(0 <= k < records@.len() && records@[k].dagid == p
                                && records@[k].depth + 1 == records@[j].depth && k > j);
                        }
                    },
                    Option::None => {},
                }
            }
            assert forall|a: int, b: int|
                0 <= a < b < records@.len() implies (#[trigger] records@[a]).dagid != (
            #[trigger] records@[b]).dagid by {
                assert(records@[a].dagid == em[a] && records@[b].dagid == em[b]);
            }
        }
        records
    }
}


/// Does record `a`'s parent reference name record `b`'s node?
pub open spec fn parent_link(recs: Seq<DFOut>, a: int, b: int) -> bool {
    match recs[a].parent_ref {
        Option::Some((p, i)) => recs[b].dagid == p,
        Option::None => false,
    }
}

/// A chain of record indices climbing from a node through parent
/// references up to an ancestor.
pub open spec fn chain_ok(recs: Seq<DFOut>, c: Seq<int>) -> bool {
    &&& c.len() >= 1
    &&& forall|m: int| 0 <= m < c.len() ==> 0 <= #[trigger] c[m] < recs.len()
    &&& forall|m: int| 0 <= m < c.len() - 1 ==> parent_link(recs, #[trigger] c[m], c[m + 1])
}

/// The one-step parent placement that `depth_first_visit` guarantees:
/// some record names each non-root record's parent, before it in
/// pre-order and after it in post-order.
pub open spec fn parents_placed(recs: Seq<DFOut>, order: TraversalOrder) -> bool {
    forall|j: int|
        0 <= j < recs.len() ==> match (#[trigger] recs[j]).parent_ref {
            Option::Some((p, i)) => exists|k: int|
                0 <= k < recs.len() && (#[trigger] recs[k]).dagid == p && (order
                    == TraversalOrder::PreOrder ==> k < j) && (order == TraversalOrder::PostOrder
                    ==> k > j),
            Option::None => true,
        }
}

/// Pre-order and post-order are mutually consistent across whole
/// subtrees: along any chain of parent references, a pre-order run
/// emits the ancestor before every descendant, and a post-order run
/// emits it after all of them. The chain lists record indices from the
/// descendant (first) up to the ancestor (last).
pub proof fn lemma_order_consistency(recs: Seq<DFOut>, order: TraversalOrder, c: Seq<int>)
    requires
        recs_distinct(recs),
        parents_placed(recs, order),
        chain_ok(recs, c),
        c.len() >= 2,
    ensures
        order == TraversalOrder::PreOrder ==> c.last() < c.first(),
        order == TraversalOrder::PostOrder ==> c.last() > c.first(),
    decreases c.len(),
{
    let a = c[0];
    let b = c[1];
    assert(parent_link(recs, a, b));
    match recs[a].parent_ref {
        Option::Some((p, i)) => {
            let k = choose|k: int|
                0 <= k < recs.len() && (#[trigger] recs[k]).dagid == p && (order
                    == TraversalOrder::PreOrder ==> k < a) && (order == TraversalOrder::PostOrder
                    ==> k > a);
            assert(recs[b].dagid == p);
            assert(b == k) by {
                if b != k {
                    assert(recs[b].dagid != recs[k].dagid);
                }
            }
        },
        Option::None => {
            assert(false);
        },
    }
    if c.len() > 2 {
        let rest = c.drop_first();
        assert(chain_ok(recs, rest)) by {
            assert forall|m: int|
                0 <= m < rest.len() - 1 implies parent_link(recs, #[trigger] rest[m], rest[m + 1]) by {
                assert(rest[m] == c[m + 1] && rest[m + 1] == c[m + 2]);
            }
            assert forall|m: int| 0 <= m < rest.len() implies 0 <= #[trigger] rest[m]
                < recs.len() by {
                assert(rest[m] == c[m + 1]);
            }
        }
        lemma_order_consistency(recs, order, rest);
        assert(rest.first() == b && rest.last() == c.last());
    } else {
        assert(c.last() == b);
    }
}

/// The symmetric adjacency: forward neighbors first, then incoming ones,
/// so the frontier of a walk spreads as if edges were undirected.
pub open spec fn sym_of(adj: Seq<Seq<DAGID>>, radj: Seq<Seq<DAGID>>) -> Seq<Seq<DAGID>> {
    Seq::new(adj.len(), |x: int| adj[x] + radj[x])
}

/// Is `x` still waiting in the queue at or past `head`?
pub open spec fn in_frontier(q: Seq<(DAGID, usize)>, head: int, x: DAGID) -> bool {
    exists|k: int| head <= k < q.len() && (#[trigger] q[k]).0 == x
}

/// No two records name the same node.
pub open spec fn recs_distinct(recs: Seq<DFOut>) -> bool {
    forall|a: int, b: int|
        0 <= a < b < recs.len() ==> (#[trigger] recs[a]).dagid != (#[trigger] recs[b]).dagid
}

/// The records name exactly the visited nodes.
pub open spec fn recs_match_visited(recs: Seq<DFOut>, vis: Seq<bool>) -> bool {
    &&& forall|j: int|
        0 <= j < recs.len() ==> (#[trigger] recs[j]).dagid < vis.len() && vis[recs[j].dagid as int]
    &&& forall|x: int|
        0 <= x < vis.len() && #[trigger] vis[x] ==> exists|j: int|
            0 <= j < recs.len() && (#[trigger] recs[j]).dagid == x as DAGID
}

/// The shape of one visit record of the symmetric walk: the root record
/// stands first with no parent; every other record names an earlier
/// record as its parent, lies one level deeper than it, and its ordinal
/// index points into the parent's expansion order, which lists forward
/// neighbors first and incoming neighbors after them.
pub open spec fn bfs_rec_ok(
    adj: Seq<Seq<DAGID>>,
    radj: Seq<Seq<DAGID>>,
    recs: Seq<DFOut>,
    focus: DAGID,
    j: int,
) -> bool {
    let r = recs[j];
    &&& r.dagid < adj.len()
    &&& r.depth <= j
    &&& if j == 0 {
        r.dagid == focus && r.depth == 0 && r.parent_ref matches Option::None
    } else {
        match r.parent_ref {
            Option::Some((p, i)) => {
                &&& p < adj.len()
                &&& exists|k: int|
                    0 <= k < j && (#[trigger] recs[k]).dagid == p && recs[k].depth + 1 == r.depth
                &&& i < adj[p as int].len() + radj[p as int].len()
                &&& i < adj[p as int].len() ==> adj[p as int][i as int] == r.dagid
                &&& i >= adj[p as int].len() ==> radj[p as int][i - adj[p as int].len()]
                    == r.dagid
            },
            Option::None => false,
        }
    }
}

/// Every queued entry names an in-range visited node together with the
/// depth its record holds; queued nodes are distinct.
pub open spec fn queue_ok(
    recs: Seq<DFOut>,
    q: Seq<(DAGID, usize)>,
    vis: Seq<bool>,
    n: nat,
) -> bool {
    &&& forall|k: int| 0 <= k < q.len() ==> (#[trigger] q[k]).0 < n && vis[q[k].0 as int]
    &&& forall|k1: int, k2: int|
        0 <= k1 < k2 < q.len() ==> (#[trigger] q[k1]).0 != (#[trigger] q[k2]).0
    &&& forall|k: int|
        0 <= k < q.len() ==> exists|rk: int|
            0 <= rk < recs.len() && (#[trigger] recs[rk]).dagid == (#[trigger] q[k]).0
                && recs[rk].depth == q[k].1
}

/// Every visited node off the frontier has had its whole symmetric
/// neighborhood visited.
pub open spec fn bfs_closed(
    sym: Seq<Seq<DAGID>>,
    vis: Seq<bool>,
    q: Seq<(DAGID, usize)>,
    head: int,
) -> bool {
    forall|x: int, s: int|
        0 <= x < vis.len() && vis[x] && !in_frontier(q, head, x as DAGID) && 0 <= s
            < sym[x].len() ==> vis[#[trigger] sym[x][s] as int]
}

/// The bookkeeping of a symmetric walk in flight, closure aside.
pub open spec fn bfs_core(
    adj: Seq<Seq<DAGID>>,
    radj: Seq<Seq<DAGID>>,
    vis: Seq<bool>,
    recs: Seq<DFOut>,
    q: Seq<(DAGID, usize)>,
    focus: DAGID,
) -> bool {
    &&& adj.len() == radj.len()
    &&& vis.len() == adj.len()
    &&& adj.len() <= usize::MAX
    &&& adj_in_range(adj, adj.len())
    &&& adj_in_range(radj, adj.len())
    &&& focus < adj.len()
    &&& vis[focus as int]
    &&& recs.len() >= 1
    &&& recs[0].dagid == focus
    &&& forall|j: int| 0 <= j < recs.len() ==> #[trigger] bfs_rec_ok(adj, radj, recs, focus, j)
    &&& recs_distinct(recs)
    &&& recs_match_visited(recs, vis)
    &&& queue_ok(recs, q, vis, adj.len())
    &&& visited_reachable(sym_of(adj, radj), vis, focus)
}

/// Distinct records over `n` nodes cannot number more than `n`.
proof fn lemma_recs_len_bound(recs: Seq<DFOut>, n: nat)
    requires
        recs_distinct(recs),
        n <= usize::MAX,
        forall|j: int| 0 <= j < recs.len() ==> (#[trigger] recs[j]).dagid < n,
    ensures
        recs.len() <= n,
{
    let ids = Seq::new(recs.len(), |j: int| recs[j].dagid);
    assert(ids.no_duplicates()) by {
        assert forall|a: int, b: int| 0 <= a < b < ids.len() implies ids[a] != ids[b] by {
            assert(ids[a] == recs[a].dagid && ids[b] == recs[b].dagid);
        }
    }
    assert forall|k: int| 0 <= k < ids.len() implies (#[trigger] ids[k]) < n by {
        assert(ids[k] == recs[k].dagid);
    }
    lemma_no_dup_len_bound(ids, n);
}

/// Discovering a fresh node `c` from `u` at expansion index `i`: it is
/// recorded, marked visited and queued, and all the bookkeeping holds
/// again.
#[verifier::rlimit(100)]
#[verifier::spinoff_prover]
proof fn lemma_bfs_discover(
    adj: Seq<Seq<DAGID>>,
    radj: Seq<Seq<DAGID>>,
    vis: Seq<bool>,
    recs: Seq<DFOut>,
    q: Seq<(DAGID, usize)>,
    focus: DAGID,
    u: DAGID,
    du: usize,
    i: usize,
    c: DAGID,
)
    requires
        bfs_core(adj, radj, vis, recs, q, focus),
        exists|rk: int|
            0 <= rk < recs.len() && (#[trigger] recs[rk]).dagid == u && recs[rk].depth == du,
        u < adj.len(),
        du + 1 <= usize::MAX,
        c < adj.len(),
        !vis[c as int],
        i < adj[u as int].len() + radj[u as int].len(),
        i < adj[u as int].len() ==> adj[u as int][i as int] == c,
        i >= adj[u as int].len() ==> radj[u as int][i - adj[u as int].len()] == c,
    ensures
        ({
            let rec = DFOut {
                dagid: c,
                depth: (du + 1) as usize,
                parent_ref: Option::Some((u, i)),
            };
            let vis1 = vis.update(c as int, true);
            let recs1 = recs.push(rec);
            let q1 = q.push((c, (du + 1) as usize));
            &&& bfs_core(adj, radj, vis1, recs1, q1, focus)
            &&& count_true(vis1) == count_true(vis) + 1
            &&& reachable(sym_of(adj, radj), focus, c)
        }),
{
    let rec = DFOut { dagid: c, depth: (du + 1) as usize, parent_ref: Option::Some((u, i)) };
    let vis1 = vis.update(c as int, true);
    let recs1 = recs.push(rec);
    let q1 = q.push((c, (du + 1) as usize));
    let sym = sym_of(adj, radj);
    lemma_count_true_update(vis, c as int);
    let rk = choose|rk: int|
        0 <= rk < recs.len() && (#[trigger] recs[rk]).dagid == u && recs[rk].depth == du;
    // the symmetric row of u lists c at index i
    assert(sym[u as int].contains(c)) by {
        assert(sym[u as int] == adj[u as int] + radj[u as int]);
        assert(sym[u as int][i as int] == c);
    }
    assert(reachable(sym, focus, c)) by {
        assert(vis[u as int]);
        lemma_reachable_step(sym, focus, u, c);
    }
    assert(bfs_rec_ok(adj, radj, recs1, focus, recs.len() as int)) by {
        assert(recs1[recs.len() as int] == rec);
        assert(bfs_rec_ok(adj, radj, recs, focus, rk));
        assert(recs1[rk] == recs[rk]);
        assert(du <= rk);
    }
    assert forall|j: int| 0 <= j < recs1.len() implies #[trigger] bfs_rec_ok(
        adj,
        radj,
        recs1,
        focus,
        j,
    ) by {
        if j < recs.len() {
            assert(bfs_rec_ok(adj, radj, recs, focus, j));
            assert(recs1[j] == recs[j]);
            if j > 0 {
                match recs[j].parent_ref {
                    Option::Some((p, pi)) => {
                        let k = choose|k: int|
                            0 <= k < j && (#[trigger] recs[k]).dagid == p && recs[k].depth + 1
                                == recs[j].depth;
                        assert(recs1[k] == recs[k]);
                    },
                    Option::None => {},
                }
            }
        }
    }
    assert(recs_distinct(recs1)) by {
        assert forall|a: int, b: int|
            0 <= a < b < recs1.len() implies (#[trigger] recs1[a]).dagid != (
        #[trigger] recs1[b]).dagid by {
            if b == recs1.len() - 1 {
                assert(recs1[a] == recs[a]);
                assert(vis[recs[a].dagid as int]);
            } else {
                assert(recs1[a] == recs[a] && recs1[b] == recs[b]);
            }
        }
    }
    assert(recs_match_visited(recs1, vis1)) by {
        assert forall|x: int|
            0 <= x < vis1.len() && #[trigger] vis1[x] implies exists|j: int|
            0 <= j < recs1.len() && (#[trigger] recs1[j]).dagid == x as DAGID by {
            if x == c as int {
                assert(recs1[recs.len() as int].dagid == c);
            } else {
                let j = choose|j: int|
                    0 <= j < recs.len() && (#[trigger] recs[j]).dagid == x as DAGID;
                assert(recs1[j].dagid == x as DAGID);
            }
        }
        assert forall|j: int|
            0 <= j < recs1.len() implies (#[trigger] recs1[j]).dagid < vis1.len()
            && vis1[recs1[j].dagid as int] by {
            if j < recs.len() {
                assert(recs1[j] == recs[j]);
            }
        }
    }
    assert(queue_ok(recs1, q1, vis1, adj.len())) by {
        assert forall|k1: int, k2: int|
            0 <= k1 < k2 < q1.len() implies (#[trigger] q1[k1]).0 != (#[trigger] q1[k2]).0 by {
            if k2 == q1.len() - 1 {
                assert(q1[k1] == q[k1]);
                assert(vis[q[k1].0 as int]);
            } else {
                assert(q1[k1] == q[k1] && q1[k2] == q[k2]);
            }
        }
        assert forall|k: int|
            0 <= k < q1.len() implies exists|rk2: int|
            0 <= rk2 < recs1.len() && (#[trigger] recs1[rk2]).dagid == (#[trigger] q1[k]).0
                && recs1[rk2].depth == q1[k].1 by {
            if k == q1.len() - 1 {
                assert(recs1[recs.len() as int].dagid == c && recs1[recs.len() as int].depth == (
                du + 1) as usize);
            } else {
                assert(q1[k] == q[k]);
                let rk2 = choose|rk2: int|
                    0 <= rk2 < recs.len() && (#[trigger] recs[rk2]).dagid == q[k].0
                        && recs[rk2].depth == q[k].1;
                assert(recs1[rk2] == recs[rk2]);
            }
        }
        assert forall|k: int|
            0 <= k < q1.len() implies (#[trigger] q1[k]).0 < adj.len() && vis1[q1[k].0 as int] by {
            if k < q.len() {
                assert(q1[k] == q[k]);
            }
        }
    }
    assert(visited_reachable(sym, vis1, focus)) by {
        assert forall|x: int|
            0 <= x < vis1.len() && #[trigger] vis1[x] implies reachable(sym, focus, x as DAGID) by {
            if x != c as int {
                assert(vis[x]);
            }
        }
    }
    assert(bfs_core(adj, radj, vis1, recs1, q1, focus));
}

impl<T> DAG<T> {
    /// Symmetric breadth-first walk from `focus`: the frontier expands
    /// through forward and incoming edges alike, so a layout rooted at an
    /// arbitrary focus reaches descendants and ancestors both. Every node
    /// reachable through the symmetric adjacency is recorded exactly
    /// once, with its depth and the parent that discovered it; the focus
    /// record stands first. Terminates on any finite graph.
    #[verifier::rlimit(100)]
    pub fn breadth_first_visit(&self, focus: DAGID) -> (records: Vec<DFOut>)
        requires
            self.wf(),
            focus < self.n(),
        ensures
            records@.len() >= 1,
            records@[0].dagid == focus,
            records@[0].depth == 0,
            records@[0].parent_ref matches Option::None,
            recs_distinct(records@),
            forall|a: int, b: int|
                0 <= a < b < records@.len() ==> (#[trigger] records@[a]).depth <= (
                #[trigger] records@[b]).depth,
            forall|j: int|
                0 <= j < records@.len() ==> #[trigger] bfs_rec_ok(
                    self.adj(),
                    self.radj(),
                    records@,
                    focus,
                    j,
                ),
            forall|j: int|
                0 <= j < records@.len() ==> reachable(
                    sym_of(self.adj(), self.radj()),
                    focus,
                    (#[trigger] records@[j]).dagid,
                ),
            forall|v: DAGID|
                v < self.n() && reachable(sym_of(self.adj(), self.radj()), focus, v)
                    ==> exists|j: int|
                    0 <= j < records@.len() && (#[trigger] records@[j]).dagid == v,
    {
        let n = self.num_nodes();
        let mut visited: Vec<bool> = Vec::new();
        let mut z: usize = 0;
        while z < n
            invariant
                z <= n,
                visited@.len() == z,
                forall|k: int| 0 <= k < z ==> !(#[trigger] visited@[k]),
            decreases n - z,
        {
            visited.push(false);
            z = z + 1;
        }
        visited.set(focus, true);
        let mut records: Vec<DFOut> = Vec::new();
        records.push(DFOut { dagid: focus, depth: 0, parent_ref: None });
        let mut queue: Vec<(DAGID, usize)> = Vec::new();
        queue.push((focus, 0));
        let mut head: usize = 0;
        proof {
            let sym = sym_of(self.adj(), self.radj());
            lemma_reachable_refl(sym, focus);
            assert(bfs_rec_ok(self.adj(), self.radj(), records@, focus, 0));
            assert forall|x: int|
                0 <= x < visited@.len() && #[trigger] visited@[x] implies reachable(
                sym,
                focus,
                x as DAGID,
            ) by {
                assert(x == focus as int);
            }
            assert forall|x: int|
                0 <= x < visited@.len() && #[trigger] visited@[x] implies exists|j: int|
                0 <= j < records@.len() && (#[trigger] records@[j]).dagid == x as DAGID by {
                assert(records@[0].dagid == focus);
            }
            assert(queue@[0] == (focus, 0usize));
            assert(records@[0].dagid == focus && records@[0].depth == 0);
        }
        while head < queue.len()
            invariant
                self.wf(),
                focus < self.n(),
                bfs_core(self.adj(), self.radj(), visited@, records@, queue@, focus),
                head <= queue@.len(),
                bfs_closed(sym_of(self.adj(), self.radj()), visited@, queue@, head as int),
                forall|k1: int, k2: int|
                    0 <= k1 < k2 < queue@.len() ==> (#[trigger] queue@[k1]).1 <= (
                    #[trigger] queue@[k2]).1,
                forall|k: int|
                    head <= k < queue@.len() ==> (#[trigger] queue@[k]).1 <= queue@[head as int].1
                        + 1,
                forall|a: int, b: int|
                    0 <= a < b < records@.len() ==> (#[trigger] records@[a]).depth <= (
                    #[trigger] records@[b]).depth,
                head < queue@.len() ==> forall|jj: int|
                    0 <= jj < records@.len() ==> (#[trigger] records@[jj]).depth <= queue@[head
                        as int].1 + 1,
            decreases
                    self.n() - count_true(visited@),
                    queue@.len() - head,
        {
            proof {
                lemma_count_true_bounds(visited@);
            }
            let ghost count0 = count_true(visited@);
            let ghost qlen0 = queue@.len();
            let (u, du) = queue[head];
            head = head + 1;
            proof {
                lemma_recs_len_bound(records@, self.n());
                let rk = choose|rk: int|
                    0 <= rk < records@.len() && (#[trigger] records@[rk]).dagid == u
                        && records@[rk].depth == du;
                assert(bfs_rec_ok(self.adj(), self.radj(), records@, focus, rk));
                assert(du <= rk);
            }
            let fwd = self.neighbors(u);
            let fwd_len = fwd.len();
            let mut j: usize = 0;
            while j < fwd_len
                invariant
                    self.wf(),
                    focus < self.n(),
                    u < self.n(),
                    du + 1 <= usize::MAX,
                    fwd@ == self.adj()[u as int],
                    fwd_len == self.adj()[u as int].len(),
                    bfs_core(self.adj(), self.radj(), visited@, records@, queue@, focus),
                    1 <= head <= queue@.len(),
                    queue@[head - 1] == (u, du),
                    forall|k1: int, k2: int|
                        0 <= k1 < k2 < queue@.len() ==> (#[trigger] queue@[k1]).1 <= (
                        #[trigger] queue@[k2]).1,
                    forall|k: int|
                        0 <= k < queue@.len() ==> (#[trigger] queue@[k]).1 <= du + 1,
                    forall|a: int, b: int|
                        0 <= a < b < records@.len() ==> (#[trigger] records@[a]).depth <= (
                        #[trigger] records@[b]).depth,
                    forall|jj: int|
                        0 <= jj < records@.len() ==> (#[trigger] records@[jj]).depth <= du + 1,
                    j <= fwd_len,
                    count0 <= count_true(visited@),
                    queue@.len() - qlen0 == count_true(visited@) - count0,
                    exists|rk: int|
                        0 <= rk < records@.len() && (#[trigger] records@[rk]).dagid == u
                            && records@[rk].depth == du,
                    forall|x: int, s: int|
                        0 <= x < visited@.len() && visited@[x] && x != u && !in_frontier(
                            queue@,
                            head as int,
                            x as DAGID,
                        ) && 0 <= s < sym_of(self.adj(), self.radj())[x].len() ==> visited@[
                            #[trigger] sym_of(self.adj(), self.radj())[x][s] as int
                        ],
                    forall|s: int|
                        0 <= s < j ==> visited@[#[trigger] self.adj()[u as int][s] as int],
                decreases fwd_len - j,
            {
                let c = fwd[j];
                let ghost q_iter = queue@;
                let ghost recs_iter = records@;
                if !visited[c] {
                    proof {
                        lemma_bfs_discover(
                            self.adj(),
                            self.radj(),
                            visited@,
                            records@,
                            queue@,
                            focus,
                            u,
                            du,
                            j,
                            c,
                        );
                    }
                    visited.set(c, true);
                    records.push(DFOut { dagid: c, depth: du + 1, parent_ref: Some((u, j)) });
                    queue.push((c, du + 1));
                    proof {
                        let rk = choose|rk: int|
                            0 <= rk < recs_iter.len() && (#[trigger] recs_iter[rk]).dagid == u
                                && recs_iter[rk].depth == du;
                        assert((#[trigger] records@[rk]).dagid == u && records@[rk].depth == du);
                        assert forall|k1: int, k2: int|
                            0 <= k1 < k2 < queue@.len() implies (#[trigger] queue@[k1]).1 <= (
                        #[trigger] queue@[k2]).1 by {
                            if k2 == queue@.len() - 1 {
                                assert(queue@[k1] == q_iter[k1]);
                            } else {
                                assert(queue@[k1] == q_iter[k1] && queue@[k2] == q_iter[k2]);
                            }
                        }
                        assert forall|a: int, b: int|
                            0 <= a < b < records@.len() implies (#[trigger] records@[a]).depth
                            <= (#[trigger] records@[b]).depth by {
                            if b == records@.len() - 1 {
                                assert(records@[a] == recs_iter[a]);
                            } else {
                                assert(records@[a] == recs_iter[a] && records@[b] == recs_iter[b]);
                            }
                        }
                        assert forall|x: int, s: int|
                            0 <= x < visited@.len() && visited@[x] && x != u && !in_frontier(
                                queue@,
                                head as int,
                                x as DAGID,
                            ) && 0 <= s < sym_of(self.adj(), self.radj())[x].len() implies visited@[
                        #[trigger] sym_of(self.adj(), self.radj())[x][s] as int] by {
                            if x != c as int {
                                assert(!in_frontier(q_iter, head as int, x as DAGID)) by {
                                    if in_frontier(q_iter, head as int, x as DAGID) {
                                        let kk = choose|kk: int|
                                            head as int <= kk < q_iter.len() && (
                                            #[trigger] q_iter[kk]).0 == x as DAGID;
                                        assert((#[trigger] queue@[kk]).0 == x as DAGID);
                                    }
                                }
                            } else {
                                assert((#[trigger] queue@[queue@.len() - 1]).0 == c);
                            }
                        }
                    }
                } else {
                    proof {
                        assert(visited@[self.adj()[u as int][j as int] as int]);
                    }
                }
                j = j + 1;
            }
            let bwd = self.incoming(u);
            let bwd_len = bwd.len();
            proof {
                lemma_total_edges_row_bound(self.adj(), u as int);
                lemma_total_edges_row_bound(self.radj(), u as int);
            }
            let mut k: usize = 0;
            while k < bwd_len
                invariant
                    self.wf(),
                    focus < self.n(),
                    u < self.n(),
                    du + 1 <= usize::MAX,
                    bwd@ == self.radj()[u as int],
                    fwd_len == self.adj()[u as int].len(),
                    bwd_len == self.radj()[u as int].len(),
                    fwd_len + bwd_len <= usize::MAX,
                    bfs_core(self.adj(), self.radj(), visited@, records@, queue@, focus),
                    1 <= head <= queue@.len(),
                    queue@[head - 1] == (u, du),
                    forall|k1: int, k2: int|
                        0 <= k1 < k2 < queue@.len() ==> (#[trigger] queue@[k1]).1 <= (
                        #[trigger] queue@[k2]).1,
                    forall|kk: int|
                        0 <= kk < queue@.len() ==> (#[trigger] queue@[kk]).1 <= du + 1,
                    forall|a: int, b: int|
                        0 <= a < b < records@.len() ==> (#[trigger] records@[a]).depth <= (
                        #[trigger] records@[b]).depth,
                    forall|jj: int|
                        0 <= jj < records@.len() ==> (#[trigger] records@[jj]).depth <= du + 1,
                    k <= bwd_len,
                    count0 <= count_true(visited@),
                    queue@.len() - qlen0 == count_true(visited@) - count0,
                    exists|rk: int|
                        0 <= rk < records@.len() && (#[trigger] records@[rk]).dagid == u
                            && records@[rk].depth == du,
                    forall|x: int, s: int|
                        0 <= x < visited@.len() && visited@[x] && x != u && !in_frontier(
                            queue@,
                            head as int,
                            x as DAGID,
                        ) && 0 <= s < sym_of(self.adj(), self.radj())[x].len() ==> visited@[
                            #[trigger] sym_of(self.adj(), self.radj())[x][s] as int
                        ],
                    forall|s: int|
                        0 <= s < fwd_len ==> visited@[#[trigger] self.adj()[u as int][s] as int],
                    forall|s: int|
                        0 <= s < k ==> visited@[#[trigger] self.radj()[u as int][s] as int],
                decreases bwd_len - k,
            {
                let c = bwd[k];
                let ghost q_iter = queue@;
                let ghost recs_iter = records@;
                let ord: usize = fwd_len + k;
                if !visited[c] {
                    proof {
                        lemma_bfs_discover(
                            self.adj(),
                            self.radj(),
                            visited@,
                            records@,
                            queue@,
                            focus,
                            u,
                            du,
                            ord,
                            c,
                        );
                    }
                    visited.set(c, true);
                    records.push(DFOut { dagid: c, depth: du + 1, parent_ref: Some((u, ord)) });
                    queue.push((c, du + 1));
                    proof {
                        let rk = choose|rk: int|
                            0 <= rk < recs_iter.len() && (#[trigger] recs_iter[rk]).dagid == u
                                && recs_iter[rk].depth == du;
                        assert((#[trigger] records@[rk]).dagid == u && records@[rk].depth == du);
                        assert forall|k1: int, k2: int|
                            0 <= k1 < k2 < queue@.len() implies (#[trigger] queue@[k1]).1 <= (
                        #[trigger] queue@[k2]).1 by {
                            if k2 == queue@.len() - 1 {
                                assert(queue@[k1] == q_iter[k1]);
                            } else {
                                assert(queue@[k1] == q_iter[k1] && queue@[k2] == q_iter[k2]);
                            }
                        }
                        assert forall|a: int, b: int|
                            0 <= a < b < records@.len() implies (#[trigger] records@[a]).depth
                            <= (#[trigger] records@[b]).depth by {
                            if b == records@.len() - 1 {
                                assert(records@[a] == recs_iter[a]);
                            } else {
                                assert(records@[a] == recs_iter[a] && records@[b] == recs_iter[b]);
                            }
                        }
                        assert forall|x: int, s: int|
                            0 <= x < visited@.len() && visited@[x] && x != u && !in_frontier(
                                queue@,
                                head as int,
                                x as DAGID,
                            ) && 0 <= s < sym_of(self.adj(), self.radj())[x].len() implies visited@[
                        #[trigger] sym_of(self.adj(), self.radj())[x][s] as int] by {
                            if x != c as int {
                                assert(!in_frontier(q_iter, head as int, x as DAGID)) by {
                                    if in_frontier(q_iter, head as int, x as DAGID) {
                                        let kk = choose|kk: int|
                                            head as int <= kk < q_iter.len() && (
                                            #[trigger] q_iter[kk]).0 == x as DAGID;
                                        assert((#[trigger] queue@[kk]).0 == x as DAGID);
                                    }
                                }
                            } else {
                                assert((#[trigger] queue@[queue@.len() - 1]).0 == c);
                            }
                        }
                    }
                } else {
                    proof {
                        assert(visited@[self.radj()[u as int][k as int] as int]);
                    }
                }
                k = k + 1;
            }
            proof {
                let sym = sym_of(self.adj(), self.radj());
                assert forall|x: int, s: int|
                    0 <= x < visited@.len() && visited@[x] && !in_frontier(
                        queue@,
                        head as int,
                        x as DAGID,
                    ) && 0 <= s < sym[x].len() implies visited@[#[trigger] sym[x][s] as int] by {
                    if x == u as int {
                        assert(sym[x] == self.adj()[x] + self.radj()[x]);
                        if s < self.adj()[x].len() {
                            assert(sym[x][s] == self.adj()[x][s]);
                        } else {
                            assert(sym[x][s] == self.radj()[x][s - self.adj()[x].len()]);
                        }
                    }
                }
                lemma_count_true_bounds(visited@);
            }
        }
        proof {
            let sym = sym_of(self.adj(), self.radj());
            assert forall|v: DAGID|
                v < self.n() && reachable(sym, focus, v) implies exists|j: int|
                0 <= j < records@.len() && (#[trigger] records@[j]).dagid == v by {
                assert forall|x: int, s: int|
                    0 <= x < visited@.len() && visited@[x] && 0 <= s < sym[x].len() implies visited@[
                #[trigger] sym[x][s] as int] by {
                    assert(!in_frontier(queue@, head as int, x as DAGID));
                }
                lemma_reachable_in_closed(sym, visited@, focus, v);
            }
            assert(bfs_rec_ok(self.adj(), self.radj(), records@, focus, 0));
        }
        records
    }
}

} // verus!
