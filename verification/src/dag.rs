//! Graph store: dense node ids, ordered forward and backward adjacency.
//!
//! Nodes carry an opaque payload and receive dense ids in insertion order.
//! Edges are directed, ordered within their source node's forward list,
//! and mirrored in the target node's backward (incoming) list; duplicates
//! and self-loops are permitted and nothing is ever deleted.
use std::collections::HashMap;
use vstd::prelude::*;

verus! {

broadcast use vstd::std_specs::hash::group_hash_axioms;

/// Identifier of a node: its insertion index.
pub type DAGID = usize;

/// Sum of the lengths of all adjacency rows.
pub open spec fn total_edges(adj: Seq<Seq<DAGID>>) -> int
    decreases adj.len(),
{
    if adj.len() == 0 {
        0
    } else {
        total_edges(adj.drop_last()) + adj.last().len()
    }
}

/// Every entry of every adjacency row names a node below `n`.
pub open spec fn adj_in_range(adj: Seq<Seq<DAGID>>, n: nat) -> bool {
    forall|i: int, j: int|
        0 <= i < adj.len() && 0 <= j < adj[i].len() ==> #[trigger] adj[i][j] < n
}

/// Directed graph with dense integer ids, ordered adjacency in both
/// directions, and an opaque payload per node. Append-only.
#[derive(Debug, PartialEq, Eq, Clone, Default)]
pub struct DAG<T> {
    elements: Vec<T>,
    edges: Vec<Vec<DAGID>>,
    incoming: Vec<Vec<DAGID>>,
}

impl<T> DAG<T> {
    /// The stored payloads, in id order.
    pub closed spec fn elems(&self) -> Seq<T> {
        self.elements@
    }

    /// Forward adjacency rows, in id order.
    pub closed spec fn adj(&self) -> Seq<Seq<DAGID>> {
        self.edges@.map_values(|row: Vec<DAGID>| row@)
    }

    /// Backward (incoming) adjacency rows, in id order.
    pub closed spec fn radj(&self) -> Seq<Seq<DAGID>> {
        self.incoming@.map_values(|row: Vec<DAGID>| row@)
    }

    /// Number of nodes.
    pub open spec fn n(&self) -> nat {
        self.elems().len()
    }

    /// Structural invariant: one forward and one backward row per node,
    /// every edge endpoint in range, the two directions mirror each other,
    /// and the total edge count stays within the machine word.
    pub open spec fn wf(&self) -> bool {
        &&& self.n() <= usize::MAX
        &&& self.adj().len() == self.n()
        &&& self.radj().len() == self.n()
        &&& adj_in_range(self.adj(), self.n())
        &&& adj_in_range(self.radj(), self.n())
        &&& total_edges(self.adj()) == total_edges(self.radj())
        &&& total_edges(self.adj()) <= usize::MAX / 2
        &&& forall|u: int, j: int|
            0 <= u < self.adj().len() && 0 <= j < self.adj()[u].len()
                ==> (#[trigger] self.radj()[self.adj()[u][j] as int]).contains(u as DAGID)
        &&& forall|v: int, k: int|
            0 <= v < self.radj().len() && 0 <= k < self.radj()[v].len()
                ==> (#[trigger] self.adj()[self.radj()[v][k] as int]).contains(v as DAGID)
    }

    /// An empty graph.
    pub fn new() -> (d: Self)
        ensures
            d.wf(),
            d.n() == 0,
            d.elems() == Seq::<T>::empty(),
    {
        Self { elements: Vec::new(), edges: Vec::new(), incoming: Vec::new() }
    }

    /// How many nodes have been inserted.
    pub fn num_nodes(&self) -> (r: usize)
        ensures
            r == self.n(),
    {
        self.elements.len()
    }

    /// Appends a node holding `v` and returns its id: ids are assigned
    /// densely, in insertion order, and never change.
    pub fn insert(&mut self, v: T) -> (id: DAGID)
        requires
            old(self).wf(),
        ensures
            final(self).wf(),
            id == old(self).n(),
            final(self).elems() == old(self).elems().push(v),
            final(self).adj() == old(self).adj().push(Seq::<DAGID>::empty()),
            final(self).radj() == old(self).radj().push(Seq::<DAGID>::empty()),
    {
        let idx = self.elements.len();
        self.elements.push(v);
        self.edges.push(Vec::new());
        self.incoming.push(Vec::new());
        proof {
            assert(self.elements@.len() == self.elements.len());
            assert(self.adj() =~= old(self).adj().push(Seq::<DAGID>::empty()));
            assert(self.radj() =~= old(self).radj().push(Seq::<DAGID>::empty()));
            lemma_total_edges_push_empty(old(self).adj());
            lemma_total_edges_push_empty(old(self).radj());
        }
        idx
    }

    /// Appends the directed edge `from -> to`: to the end of `from`'s
    /// forward row and of `to`'s backward row. No cycle checking.
    pub fn insert_edge(&mut self, from: DAGID, to: DAGID)
        requires
            old(self).wf(),
            from < old(self).n(),
            to < old(self).n(),
            total_edges(old(self).adj()) < usize::MAX / 2,
        ensures
            final(self).wf(),
            final(self).elems() == old(self).elems(),
            final(self).adj() == old(self).adj().update(
                from as int,
                old(self).adj()[from as int].push(to),
            ),
            final(self).radj() == old(self).radj().update(
                to as int,
                old(self).radj()[to as int].push(from),
            ),
    {
        let fwd_row: &mut Vec<DAGID> = &mut self.edges[from];
        fwd_row.push(to);
        let bwd_row: &mut Vec<DAGID> = &mut self.incoming[to];
        bwd_row.push(from);
        proof {
            assert(self.adj() =~= old(self).adj().update(
                from as int,
                old(self).adj()[from as int].push(to),
            ));
            assert(self.radj() =~= old(self).radj().update(
                to as int,
                old(self).radj()[to as int].push(from),
            ));
            lemma_total_edges_update_push(old(self).adj(), from as int, to);
            lemma_total_edges_update_push(old(self).radj(), to as int, from);
            let na = self.adj();
            let nr = self.radj();
            assert forall|u: int, j: int|
                0 <= u < na.len() && 0 <= j < na[u].len() implies (#[trigger] nr[na[u][j] as int])
                .contains(u as DAGID) by {
                if u == from && j == na[u].len() - 1 {
                    assert(na[u][j] == to);
                    assert(nr[to as int] == old(self).radj()[to as int].push(from));
                    lemma_push_contains_new(old(self).radj()[to as int], from);
                } else {
                    assert(na[u][j] == old(self).adj()[u][j]);
                    let v = old(self).adj()[u][j];
                    assert(old(self).radj()[v as int].contains(u as DAGID));
                    if v == to {
                        lemma_push_contains_old(old(self).radj()[v as int], from, u as DAGID);
                    }
                }
            }
            assert forall|v: int, k: int|
                0 <= v < nr.len() && 0 <= k < nr[v].len() implies (#[trigger] na[nr[v][k] as int])
                .contains(v as DAGID) by {
                if v == to && k == nr[v].len() - 1 {
                    assert(nr[v][k] == from);
                    assert(na[from as int] == old(self).adj()[from as int].push(to));
                    lemma_push_contains_new(old(self).adj()[from as int], to);
                } else {
                    assert(nr[v][k] == old(self).radj()[v][k]);
                    let u = old(self).radj()[v][k];
                    assert(old(self).adj()[u as int].contains(v as DAGID));
                    if u == from {
                        lemma_push_contains_old(old(self).adj()[u as int], to, v as DAGID);
                    }
                }
            }
        }
    }

    /// Total number of edges, summed over all forward rows.
    pub fn num_edges(&self) -> (r: usize)
        requires
            self.wf(),
        ensures
            r == total_edges(self.adj()),
    {
        let mut acc: usize = 0;
        let mut i: usize = 0;
        while i < self.edges.len()
            invariant
                self.wf(),
                i <= self.edges.len(),
                self.edges.len() == self.n(),
                acc == total_edges(self.adj().take(i as int)),
            decreases self.edges.len() - i,
        {
            proof {
                lemma_total_edges_take_step(self.adj(), i as int);
                lemma_total_edges_take_bound(self.adj(), i + 1);
            }
            acc = acc + self.edges[i].len();
            i = i + 1;
        }
        proof {
            assert(self.adj().take(i as int) =~= self.adj());
        }
        acc
    }

    /// The ordered forward adjacency row of `of`.
    pub fn neighbors(&self, of: DAGID) -> (r: &Vec<DAGID>)
        requires
            self.wf(),
            of < self.n(),
        ensures
            r@ == self.adj()[of as int],
    {
        &self.edges[of]
    }

    /// The ordered backward (incoming) adjacency row of `of`.
    pub fn incoming(&self, of: DAGID) -> (r: &Vec<DAGID>)
        requires
            self.wf(),
            of < self.n(),
        ensures
            r@ == self.radj()[of as int],
    {
        &self.incoming[of]
    }

    /// The payload stored at `id`.
    pub fn get(&self, id: DAGID) -> (r: &T)
        requires
            self.wf(),
            id < self.n(),
        ensures
            *r == self.elems()[id as int],
    {
        &self.elements[id]
    }
}

/// A pushed element is contained in the result.
proof fn lemma_push_contains_new<A>(s: Seq<A>, e: A)
    ensures
        s.push(e).contains(e),
{
    assert(s.push(e)[s.len() as int] == e);
}

/// Pushing keeps every element that was already contained.
proof fn lemma_push_contains_old<A>(s: Seq<A>, e: A, x: A)
    requires
        s.contains(x),
    ensures
        s.push(e).contains(x),
{
    let i = choose|i: int| 0 <= i < s.len() && s[i] == x;
    assert(s.push(e)[i] == x);
}

/// Pushing a node with no edges leaves the edge total unchanged.
proof fn lemma_total_edges_push_empty(adj: Seq<Seq<DAGID>>)
    ensures
        total_edges(adj.push(Seq::<DAGID>::empty())) == total_edges(adj),
{
    assert(adj.push(Seq::<DAGID>::empty()).drop_last() =~= adj);
}

/// Appending one entry to one row raises the edge total by one.
proof fn lemma_total_edges_update_push(adj: Seq<Seq<DAGID>>, u: int, to: DAGID)
    requires
        0 <= u < adj.len(),
    ensures
        total_edges(adj.update(u, adj[u].push(to))) == total_edges(adj) + 1,
    decreases adj.len(),
{
    let upd = adj.update(u, adj[u].push(to));
    if u == adj.len() - 1 {
        assert(upd.drop_last() =~= adj.drop_last());
    } else {
        assert(upd.drop_last() =~= adj.drop_last().update(u, adj.drop_last()[u].push(to)));
        lemma_total_edges_update_push(adj.drop_last(), u, to);
    }
}

/// Unfolds the prefix sum by one row.
proof fn lemma_total_edges_take_step(adj: Seq<Seq<DAGID>>, i: int)
    requires
        0 <= i < adj.len(),
    ensures
        total_edges(adj.take(i + 1)) == total_edges(adj.take(i)) + adj[i].len(),
{
    assert(adj.take(i + 1).drop_last() =~= adj.take(i));
    assert(adj.take(i + 1).last() == adj[i]);
}

/// Each row holds no more edges than the whole graph.
pub proof fn lemma_total_edges_row_bound(adj: Seq<Seq<DAGID>>, u: int)
    requires
        0 <= u < adj.len(),
    ensures
        adj[u].len() <= total_edges(adj),
    decreases adj.len(),
{
    lemma_total_edges_nonneg(adj.drop_last());
    if u < adj.len() - 1 {
        lemma_total_edges_row_bound(adj.drop_last(), u);
        assert(adj.drop_last()[u] == adj[u]);
        assert(adj.last().len() >= 0);
    }
}

/// The edge total is never negative.
pub proof fn lemma_total_edges_nonneg(adj: Seq<Seq<DAGID>>)
    ensures
        total_edges(adj) >= 0,
    decreases adj.len(),
{
    if adj.len() > 0 {
        lemma_total_edges_nonneg(adj.drop_last());
    }
}

/// A prefix never holds more edges than the whole.
proof fn lemma_total_edges_take_bound(adj: Seq<Seq<DAGID>>, i: int)
    requires
        0 <= i <= adj.len(),
    ensures
        total_edges(adj.take(i)) <= total_edges(adj),
    decreases adj.len() - i,
{
    if i < adj.len() {
        lemma_total_edges_take_step(adj, i);
        lemma_total_edges_take_bound(adj, i + 1);
    } else {
        assert(adj.take(i) =~= adj);
    }
}


/// The first position of `v` in `s` (meaningful when `s` contains `v`).
pub open spec fn first_index(s: Seq<u64>, v: u64) -> int
    decreases s.len(),
{
    if s.len() == 0 {
        0
    } else if s.first() == v {
        0
    } else {
        1 + first_index(s.drop_first(), v)
    }
}

/// In a duplicate-free sequence, any position of `v` is the first one.
proof fn lemma_first_index_unique(s: Seq<u64>, v: u64, i: int)
    requires
        s.no_duplicates(),
        0 <= i < s.len(),
        s[i] == v,
    ensures
        first_index(s, v) == i,
    decreases s.len(),
{
    if i == 0 {
        assert(s.first() == v);
    } else {
        assert(s.first() != v);
        let t = s.drop_first();
        assert(t.no_duplicates()) by {
            assert forall|a: int, b: int| 0 <= a < b < t.len() implies t[a] != t[b] by {
                assert(t[a] == s[a + 1] && t[b] == s[b + 1]);
            }
        }
        assert(t[i - 1] == v);
        lemma_first_index_unique(t, v, i - 1);
    }
}

/// The graph that batch construction from a pair list denotes: values
/// are deduplicated by equality and receive dense ids in first-seen
/// order, and each pair appends one edge between its values' ids, in
/// order. The result triple is (payloads, forward rows, backward rows).
pub open spec fn from_pairs_spec(pairs: Seq<(u64, u64)>) -> (Seq<u64>, Seq<Seq<DAGID>>, Seq<
    Seq<DAGID>,
>)
    decreases pairs.len(),
{
    if pairs.len() == 0 {
        (Seq::empty(), Seq::empty(), Seq::empty())
    } else {
        let prev = from_pairs_spec(pairs.drop_last());
        let src = pairs.last().0;
        let dst = pairs.last().1;
        let with_src = if prev.0.contains(src) {
            prev
        } else {
            (prev.0.push(src), prev.1.push(Seq::empty()), prev.2.push(Seq::empty()))
        };
        let with_dst = if with_src.0.contains(dst) {
            with_src
        } else {
            (with_src.0.push(dst), with_src.1.push(Seq::empty()), with_src.2.push(Seq::empty()))
        };
        let sid = first_index(with_dst.0, src);
        let did = first_index(with_dst.0, dst);
        (
            with_dst.0,
            with_dst.1.update(sid, with_dst.1[sid].push(did as DAGID)),
            with_dst.2.update(did, with_dst.2[did].push(sid as DAGID)),
        )
    }
}

impl DAG<u64> {
    /// Batch construction from a list of `(source value, target value)`
    /// pairs: values are deduplicated by equality through a
    /// first-occurrence map, ids are assigned in first-seen order, and
    /// each pair contributes one edge, in list order. The result is
    /// exactly the graph `from_pairs_spec` denotes.
    #[verifier::rlimit(100)]
    pub fn from_pairs(pairs: &Vec<(u64, u64)>) -> (d: DAG<u64>)
        requires
            pairs@.len() < usize::MAX / 2,
        ensures
            d.wf(),
            d.elems() == from_pairs_spec(pairs@).0,
            d.adj() == from_pairs_spec(pairs@).1,
            d.radj() == from_pairs_spec(pairs@).2,
    {
        let mut seen: HashMap<u64, usize> = HashMap::new();
        let mut out: DAG<u64> = DAG::new();
        let mut k: usize = 0;
        while k < pairs.len()
            invariant
                pairs@.len() < usize::MAX / 2,
                k <= pairs@.len(),
                out.wf(),
                out.elems().no_duplicates(),
                total_edges(out.adj()) == k,
                out.elems() == from_pairs_spec(pairs@.take(k as int)).0,
                out.adj() == from_pairs_spec(pairs@.take(k as int)).1,
                out.radj() == from_pairs_spec(pairs@.take(k as int)).2,
                forall|v: u64| seen@.contains_key(v) <==> out.elems().contains(v),
                forall|v: u64|
                    #[trigger] seen@.contains_key(v) ==> seen@[v] < out.n() && out.elems()[seen@[v]
                        as int] == v,
            decreases pairs@.len() - k,
        {
            let (src, dst) = pairs[k];
            let ghost st0 = (out.elems(), out.adj(), out.radj());
            let sid: DAGID = match seen.get(&src) {
                Some(idr) => *idr,
                None => {
                    proof {
                        assert(!st0.0.contains(src));
                    }
                    let id = out.insert(src);
                    seen.insert(src, id);
                    proof {
                        lemma_total_edges_push_empty(st0.1);
                        lemma_push_contains_new(st0.0, src);
                        assert(out.elems().no_duplicates()) by {
                            let e = out.elems();
                            assert forall|a: int, b: int|
                                0 <= a < b < e.len() implies e[a] != e[b] by {
                                if b == e.len() - 1 {
                                    assert(st0.0.contains(st0.0[a]));
                                }
                            }
                        }
                        assert forall|v: u64| seen@.contains_key(v) implies out.elems().contains(
                            v,
                        ) by {
                            if v != src {
                                let j = choose|j: int| 0 <= j < st0.0.len() && st0.0[j] == v;
                                assert(out.elems()[j] == v);
                            }
                        }
                        assert forall|v: u64| out.elems().contains(v) implies seen@.contains_key(
                            v,
                        ) by {
                            if v != src {
                                let j = choose|j: int|
                                    0 <= j < out.elems().len() && out.elems()[j] == v;
                                assert(st0.0[j] == v);
                                assert(st0.0.contains(v));
                            }
                        }
                        assert forall|v: u64| #[trigger] seen@.contains_key(v) implies seen@[v]
                            < out.n() && out.elems()[seen@[v] as int] == v by {
                            if v != src {
                                assert(out.elems()[seen@[v] as int] == st0.0[seen@[v] as int]);
                            }
                        }
                    }
                    id
                },
            };
            let ghost st1 = (out.elems(), out.adj(), out.radj());
            let did: DAGID = match seen.get(&dst) {
                Some(idr) => *idr,
                None => {
                    proof {
                        assert(!st1.0.contains(dst));
                    }
                    let id = out.insert(dst);
                    seen.insert(dst, id);
                    proof {
                        lemma_total_edges_push_empty(st1.1);
                        lemma_push_contains_new(st1.0, dst);
                        assert(out.elems().no_duplicates()) by {
                            let e = out.elems();
                            assert forall|a: int, b: int|
                                0 <= a < b < e.len() implies e[a] != e[b] by {
                                if b == e.len() - 1 {
                                    assert(st1.0.contains(st1.0[a]));
                                }
                            }
                        }
                        assert forall|v: u64| seen@.contains_key(v) implies out.elems().contains(
                            v,
                        ) by {
                            if v != dst {
                                let j = choose|j: int| 0 <= j < st1.0.len() && st1.0[j] == v;
                                assert(out.elems()[j] == v);
                            }
                        }
                        assert forall|v: u64| out.elems().contains(v) implies seen@.contains_key(
                            v,
                        ) by {
                            if v != dst {
                                let j = choose|j: int|
                                    0 <= j < out.elems().len() && out.elems()[j] == v;
                                assert(st1.0[j] == v);
                                assert(st1.0.contains(v));
                            }
                        }
                        assert forall|v: u64| #[trigger] seen@.contains_key(v) implies seen@[v]
                            < out.n() && out.elems()[seen@[v] as int] == v by {
                            if v != dst {
                                assert(out.elems()[seen@[v] as int] == st1.0[seen@[v] as int]);
                            }
                        }
                    }
                    id
                },
            };
            let ghost st2 = (out.elems(), out.adj(), out.radj());
            proof {
                assert(pairs@.take(k + 1).drop_last() =~= pairs@.take(k as int));
                assert(pairs@.take(k + 1).last() == (src, dst));
                // the two conditional inserts match the spec's two steps
                assert(st1 == (if st0.0.contains(src) {
                    st0
                } else {
                    (st0.0.push(src), st0.1.push(Seq::empty()), st0.2.push(Seq::empty()))
                })) by {
                    if st0.0.contains(src) {
                        let j = choose|j: int| 0 <= j < st0.0.len() && st0.0[j] == src;
                    }
                }
                assert(st2 == (if st1.0.contains(dst) {
                    st1
                } else {
                    (st1.0.push(dst), st1.1.push(Seq::empty()), st1.2.push(Seq::empty()))
                }));
                lemma_first_index_unique(st2.0, src, sid as int);
                lemma_first_index_unique(st2.0, dst, did as int);
            }
            out.insert_edge(sid, did);
            k = k + 1;
            proof {
                lemma_total_edges_update_push(st2.1, sid as int, did);
            }
        }
        proof {
            assert(pairs@.take(pairs@.len() as int) =~= pairs@);
        }
        out
    }
}

} // verus!
