//! Hyperbolic tree layout: angle subdivision over exact rational wedges
//! and a bounded radial law.
//!
//! The layout runs the symmetric breadth-first walk from the focus, then
//! allocates every node an angular wedge inside its parent's wedge and a
//! polar coordinate whose radius grows with depth but never reaches the
//! boundary of the unit disk. All wedge arithmetic is exact: a wedge's
//! start and size are rationals carried as 128-bit numerators over a
//! shared denominator, so the nesting and partition properties below are
//! theorems rather than floating-point approximations.
use vstd::prelude::*;

use crate::dag::{DAGID, DAG};
use crate::traverse::{bfs_rec_ok, recs_distinct, DFOut};

verus! {

/// An angular interval, in degrees. A set range with denominator `den`
/// means the interval `[start_num/den, start_num/den + 360/den)`: its
/// start is `start_num/den` degrees and its size `360/den` degrees. The
/// default range (`den == 0`) marks a node that no wedge has been
/// assigned to, and is what `is_empty` detects; a set range is never
/// angularly empty, since `360/den > 0`.
#[derive(Debug, Default, Copy, Clone, PartialEq, Eq, Structural)]
pub struct AngleRange {
    /// Numerator of the starting degree.
    pub start_num: u128,
    /// Shared denominator of the start and of the size `360/den`.
    pub den: u128,
}

impl AngleRange {
    /// Checks whether this range still holds the default value, i.e. no
    /// wedge has been assigned yet.
    pub fn is_empty(&self) -> (r: bool)
        ensures
            r == (self.den == 0),
    {
        self.den == 0
    }
}

/// A polar coordinate with exact rational radius and angle (the angle in
/// degrees). The Cartesian point it stands for is
/// `(radius · cos(angle), radius · sin(angle))`.
#[derive(Debug, Default, Copy, Clone, PartialEq, Eq, Structural)]
pub struct PolarCoord {
    pub radius_num: u128,
    pub radius_den: u128,
    pub angle_num: u128,
    pub angle_den: u128,
}

/// The layout of one focus choice: per-node wedges and polar
/// coordinates, dense by node id, plus the visit records of the
/// symmetric walk that produced them (for drawing connective edges).
#[derive(Debug)]
pub struct HyperbolicLayout {
    /// Wedge per node id; unreached nodes keep the default empty range.
    pub angles: Vec<AngleRange>,
    /// Polar coordinate per node id; the focus and unreached nodes sit
    /// at the origin.
    pub polar: Vec<PolarCoord>,
    /// Visit records in discovery order; absent nodes were unreachable.
    pub records: Vec<DFOut>,
    /// Greatest depth over all records.
    pub max_depth: usize,
}

/// The layout could not represent a wedge exactly: a discovery path's
/// subdivision products exceed the 128-bit range that the exact
/// arithmetic is carried in.
#[derive(Debug, Clone, Copy, PartialEq, Eq, Structural)]
pub enum LayoutError {
    WedgeTooDeep,
}

/// The number of angular segments a parent's wedge is split into: one
/// per forward neighbor, plus one reserved for the link back toward the
/// parent's own parent, which the symmetric walk may also use.
pub open spec fn spec_segments(adj: Seq<Seq<DAGID>>, p: DAGID) -> int {
    adj[p as int].len() as int + 1
}

/// The wedge relation between a child record and its parent's wedge:
/// the child's denominator multiplies the parent's by the segment
/// count, and its start sits `i` segments past the parent's start.
pub open spec fn child_wedge_of(parent: AngleRange, t: int, i: int, child: AngleRange) -> bool {
    &&& child.den == parent.den * t
    &&& child.start_num == parent.start_num * t + 360 * i
}

/// What the angle-allocation pass guarantees for record `j` of the
/// walk: the focus record owns the full circle, and every other record
/// owns the wedge `i` segments into its parent's subdivision.
pub open spec fn wedge_assigned(
    adj: Seq<Seq<DAGID>>,
    recs: Seq<DFOut>,
    angles: Seq<AngleRange>,
    focus: DAGID,
    j: int,
) -> bool {
    let r = recs[j];
    if j == 0 {
        angles[r.dagid as int] == (AngleRange { start_num: 0, den: 1 })
    } else {
        match r.parent_ref {
            Option::Some((p, i)) => child_wedge_of(
                angles[p as int],
                spec_segments(adj, p),
                i as int,
                angles[r.dagid as int],
            ),
            Option::None => false,
        }
    }
}

/// Whether node `x` appears among the first `j` records.
pub open spec fn recorded_in(recs: Seq<DFOut>, j: int, x: DAGID) -> bool {
    exists|k: int| 0 <= k < j && (#[trigger] recs[k]).dagid == x
}

/// The record index of `j`'s parent: the earlier record naming the
/// parent node (unique, since records are distinct).
pub open spec fn parent_index_of(recs: Seq<DFOut>, j: int) -> int {
    match recs[j].parent_ref {
        Option::Some((p, i)) => choose|k: int| 0 <= k < j && (#[trigger] recs[k]).dagid == p,
        Option::None => -1,
    }
}

/// The exact denominator the subdivision assigns record `j`: 1 at the
/// focus, and the parent's denominator times the parent's segment count
/// below it. Its magnitude is what bounds how deep a layout the 128-bit
/// carriers can represent.
pub open spec fn exact_den(adj: Seq<Seq<DAGID>>, recs: Seq<DFOut>, j: int) -> int
    decreases j,
{
    if j == 0 {
        1
    } else {
        match recs[j].parent_ref {
            Option::Some((p, i)) => {
                let k = parent_index_of(recs, j);
                if 0 <= k < j {
                    exact_den(adj, recs, k) * spec_segments(adj, p)
                } else {
                    0
                }
            },
            Option::None => 0,
        }
    }
}

/// The exact start numerator the subdivision assigns record `j`, over
/// the denominator `exact_den`.
pub open spec fn exact_start(adj: Seq<Seq<DAGID>>, recs: Seq<DFOut>, j: int) -> int
    decreases j,
{
    if j == 0 {
        0
    } else {
        match recs[j].parent_ref {
            Option::Some((p, i)) => {
                let k = parent_index_of(recs, j);
                if 0 <= k < j {
                    exact_start(adj, recs, k) * spec_segments(adj, p) + 360 * i
                } else {
                    0
                }
            },
            Option::None => 0,
        }
    }
}

/// The shape the symmetric walk guarantees of its records: the focus
/// record first without a parent, distinct nodes, and every other
/// record well-formed over the graph's adjacency.
pub open spec fn bfs_valid(
    adj: Seq<Seq<DAGID>>,
    radj: Seq<Seq<DAGID>>,
    recs: Seq<DFOut>,
    focus: DAGID,
) -> bool {
    &&& recs.len() >= 1
    &&& recs[0].dagid == focus
    &&& recs[0].depth == 0
    &&& recs[0].parent_ref matches Option::None
    &&& recs_distinct(recs)
    &&& forall|j: int| 0 <= j < recs.len() ==> #[trigger] bfs_rec_ok(adj, radj, recs, focus, j)
}

/// Some walk whose records overflow the exact 128-bit wedge carriers at
/// one of its records.
pub open spec fn some_walk_overflows(
    adj: Seq<Seq<DAGID>>,
    radj: Seq<Seq<DAGID>>,
    focus: DAGID,
) -> bool {
    exists|recs: Seq<DFOut>, j: int|
        #![trigger bfs_valid(adj, radj, recs, focus), exact_den(adj, recs, j)]
        #![trigger bfs_valid(adj, radj, recs, focus), exact_start(adj, recs, j)]
        {
            &&& bfs_valid(adj, radj, recs, focus)
            &&& 0 <= j < recs.len()
            &&& (exact_den(adj, recs, j) > u128::MAX || exact_start(adj, recs, j) + 180
                > u128::MAX)
        }
}

/// With distinct records, any earlier record naming the parent is the
/// parent index the wedge recursion uses.
proof fn lemma_parent_index_unique(recs: Seq<DFOut>, j: int, k: int, p: DAGID, i: usize)
    requires
        recs_distinct(recs),
        0 <= k < j < recs.len(),
        recs[j].parent_ref == Some((p, i)),
        recs[k].dagid == p,
    ensures
        parent_index_of(recs, j) == k,
{
    let k2 = parent_index_of(recs, j);
    assert(0 <= k2 < j && recs[k2].dagid == p) by {
        assert(0 <= k < j && (#[trigger] recs[k]).dagid == p);
    }
    if k2 != k {
        assert(recs[k2].dagid != recs[k].dagid);
    }
}

/// The radial law: a node at depth `d` of a walk whose deepest node sits
/// at depth `m >= d` receives radius `49·d / (50·m)`, i.e.
/// `0.98 · d/m`, which keeps every coordinate strictly inside the unit
/// disk. The focus (depth 0) and unreached nodes sit at the origin.
pub open spec fn radius_of(d: int, m: int) -> (int, int) {
    if d == 0 {
        (0, 1)
    } else {
        (49 * d, 50 * m)
    }
}

/// Laws of the wedge subdivision, stated over the exact rationals: a
/// child's wedge is a sub-interval of its parent's wedge whenever its
/// segment index lies within the subdivision, the sub-interval is strict
/// when the parent is split at all, a set wedge is never empty, and the
/// `t` equal segments (the siblings' wedges plus the reserved one)
/// partition the parent's size exactly. Interval comparisons are by
/// cross-multiplication: `a/b <= c/d  <=>  a*d <= c*b` for positive
/// denominators.
pub proof fn lemma_wedge_nesting(parent: AngleRange, t: int, i: int, child: AngleRange)
    requires
        child_wedge_of(parent, t, i, child),
        parent.den >= 1,
        t >= 1,
        0 <= i,
        i + 1 <= t,
    ensures
        child.den >= 1,
        // non-empty: the child's angular size 360/den is positive
        child.den > 0,
        // start(child) >= start(parent)
        child.start_num * parent.den >= parent.start_num * child.den,
        // end(child) <= end(parent)
        (child.start_num + 360) * parent.den <= (parent.start_num + 360) * child.den,
        // strictness: splitting at all makes the child's size smaller
        t >= 2 ==> child.den > parent.den,
        // the t equal segments sum exactly to the parent's size:
        // t * (360/child.den) == 360/parent.den
        t * 360 * parent.den == 360 * child.den,
{
    assert(child.den == parent.den * t);
    assert(child.den >= 1) by (nonlinear_arith)
        requires
            child.den == parent.den * t,
            parent.den >= 1,
            t >= 1,
    ;
    assert(child.start_num * parent.den >= parent.start_num * child.den) by (nonlinear_arith)
        requires
            child.den == parent.den * t,
            child.start_num == parent.start_num * t + 360 * i,
            parent.den >= 1,
            t >= 1,
            i >= 0,
    ;
    assert((child.start_num + 360) * parent.den <= (parent.start_num + 360) * child.den)
        by (nonlinear_arith)
        requires
            child.den == parent.den * t,
            child.start_num == parent.start_num * t + 360 * i,
            parent.den >= 1,
            t >= 1,
            i + 1 <= t,
            i >= 0,
    ;
    assert(t >= 2 ==> child.den > parent.den) by (nonlinear_arith)
        requires
            child.den == parent.den * t,
            parent.den >= 1,
    ;
    assert(t * 360 * parent.den == 360 * child.den) by (nonlinear_arith)
        requires
            child.den == parent.den * t,
    ;
}

/// For every non-focus record discovered along a forward edge, the
/// wedge the layout assigns it is a non-empty strict sub-interval of
/// its parent's wedge, and the parent's `t` equal segments — one per
/// forward neighbor plus the reserved one — sum exactly to the parent's
/// wedge size. (A record discovered through a backward edge can carry
/// an ordinal at or past the subdivision, and its wedge may then leave
/// the parent's: such records are exempt here.)
pub proof fn lemma_layout_wedge_nested(
    adj: Seq<Seq<DAGID>>,
    radj: Seq<Seq<DAGID>>,
    recs: Seq<DFOut>,
    angles: Seq<AngleRange>,
    focus: DAGID,
    j: int,
    p: DAGID,
    i: usize,
)
    requires
        0 < j < recs.len(),
        bfs_rec_ok(adj, radj, recs, focus, j),
        wedge_assigned(adj, recs, angles, focus, j),
        recs[j].parent_ref == Some((p, i)),
        i < adj[p as int].len(),
        angles[p as int].den >= 1,
    ensures
        ({
            let child = angles[recs[j].dagid as int];
            let parent = angles[p as int];
            let t = spec_segments(adj, p);
            &&& child.den > parent.den
            &&& child.start_num * parent.den >= parent.start_num * child.den
            &&& (child.start_num + 360) * parent.den <= (parent.start_num + 360) * child.den
            &&& t * 360 * parent.den == 360 * child.den
        }),
{
    let child = angles[recs[j].dagid as int];
    let parent = angles[p as int];
    let t = spec_segments(adj, p);
    assert(child_wedge_of(parent, t, i as int, child));
    assert(t >= 2);
    lemma_wedge_nesting(parent, t, i as int, child);
}

impl<T> DAG<T> {
    /// Projects the graph into the Poincaré disk around `focus`.
    ///
    /// Runs the symmetric breadth-first walk, then assigns wedges in
    /// visitation order — the focus receives `[0°, 360°)` and each later
    /// record a wedge inside its parent's, whose wedge is always already
    /// final — and polar coordinates under the radial law. Every reached
    /// node's wedge and coordinate are pinned down exactly by the
    /// postconditions; unreached nodes keep the empty range and the
    /// origin. Fails only when a wedge's exact numerator or denominator
    /// would exceed the 128-bit range.
    #[verifier::rlimit(100)]
    pub fn hyperbolic_project(&self, focus: DAGID) -> (result: Result<
        HyperbolicLayout,
        LayoutError,
    >)
        requires
            self.wf(),
            focus < self.n(),
        ensures
            match result {
                Result::Ok(layout) => {
                    let recs = layout.records@;
                    let angles = layout.angles@;
                    let polar = layout.polar@;
                    &&& angles.len() == self.n()
                    &&& polar.len() == self.n()
                    // the walk's records, unchanged
                    &&& recs.len() >= 1
                    &&& recs[0].dagid == focus
                    &&& recs[0].depth == 0
                    &&& recs[0].parent_ref matches Option::None
                    &&& recs_distinct(recs)
                    &&& forall|j: int|
                        0 <= j < recs.len() ==> #[trigger] bfs_rec_ok(
                            self.adj(),
                            self.radj(),
                            recs,
                            focus,
                            j,
                        )
                    &&& forall|v: DAGID|
                        v < self.n() && crate::traverse::reachable(
                            crate::traverse::sym_of(self.adj(), self.radj()),
                            focus,
                            v,
                        ) ==> recorded_in(recs, recs.len() as int, v)
                    // the focus owns the full circle and sits at the origin
                    &&& angles[focus as int] == (AngleRange { start_num: 0, den: 1 })
                    &&& polar[focus as int] == (PolarCoord {
                        radius_num: 0,
                        radius_den: 1,
                        angle_num: 180,
                        angle_den: 1,
                    })
                    // every record's wedge is the exact subdivision of its
                    // parent's wedge; every set wedge has den >= 1
                    &&& forall|j: int|
                        0 <= j < recs.len() ==> #[trigger] wedge_assigned(
                            self.adj(),
                            recs,
                            angles,
                            focus,
                            j,
                        )
                    &&& forall|j: int|
                        0 <= j < recs.len() ==> angles[(#[trigger] recs[j]).dagid as int].den >= 1
                    // each wedge is exactly the one the recursion over the
                    // walk denotes
                    &&& forall|j: int|
                        0 <= j < recs.len() ==> angles[(#[trigger] recs[j]).dagid as int].den
                            == exact_den(self.adj(), recs, j) && angles[recs[j].dagid
                            as int].start_num == exact_start(self.adj(), recs, j)
                    // unreached nodes keep the defaults
                    &&& forall|x: int|
                        0 <= x < self.n() && !recorded_in(recs, recs.len() as int, x as DAGID)
                            ==> angles[x] == (AngleRange { start_num: 0, den: 0 }) && polar[x]
                            == (PolarCoord {
                            radius_num: 0,
                            radius_den: 1,
                            angle_num: 180,
                            angle_den: 1,
                        })
                    // depths never exceed max_depth, which is attained
                    &&& forall|j: int|
                        0 <= j < recs.len() ==> (#[trigger] recs[j]).depth <= layout.max_depth
                    &&& exists|j: int|
                        0 <= j < recs.len() && (#[trigger] recs[j]).depth == layout.max_depth
                    // the polar coordinate of every record: radius by the
                    // radial law, angle the bisector of the node's wedge
                    &&& forall|j: int|
                        0 <= j < recs.len() ==> {
                            let r = #[trigger] recs[j];
                            let w = angles[r.dagid as int];
                            polar[r.dagid as int] == (PolarCoord {
                                radius_num: radius_of(r.depth as int, layout.max_depth as int).0
                                    as u128,
                                radius_den: radius_of(r.depth as int, layout.max_depth as int).1
                                    as u128,
                                angle_num: (w.start_num + 180) as u128,
                                angle_den: w.den,
                            })
                        }
                    // every radius stays at or below 49/50 < 1, so every
                    // emitted Cartesian coordinate satisfies x² + y² <= 1
                    &&& forall|x: int|
                        0 <= x < self.n() ==> 50 * (#[trigger] polar[x]).radius_num <= 49
                            * polar[x].radius_den && polar[x].radius_den >= 1
                },
                Result::Err(e) => {
                    &&& e == LayoutError::WedgeTooDeep
                    &&& some_walk_overflows(self.adj(), self.radj(), focus)
                },
            },
    {
        let n = self.num_nodes();
        let records = self.breadth_first_visit(focus);
        let mut angles: Vec<AngleRange> = Vec::new();
        let mut z: usize = 0;
        while z < n
            invariant
                z <= n,
                angles@.len() == z,
                forall|x: int|
                    0 <= x < z ==> (#[trigger] angles@[x]) == (AngleRange { start_num: 0, den: 0 }),
            decreases n - z,
        {
            angles.push(AngleRange { start_num: 0, den: 0 });
            z = z + 1;
        }
        let mut max_depth: usize = 0;
        let rlen = records.len();
        let mut j: usize = 0;
        while j < rlen
            invariant
                self.wf(),
                focus < self.n(),
                rlen == records@.len(),
                records@.len() >= 1,
                records@[0].dagid == focus,
                records@[0].depth == 0,
                records@[0].parent_ref matches Option::None,
                recs_distinct(records@),
                forall|jj: int|
                    0 <= jj < records@.len() ==> #[trigger] bfs_rec_ok(
                        self.adj(),
                        self.radj(),
                        records@,
                        focus,
                        jj,
                    ),
                angles@.len() == self.n(),
                1 <= j ==> angles@[focus as int] == (AngleRange { start_num: 0, den: 1 }),
                j <= rlen,
                forall|jj: int|
                    0 <= jj < j ==> #[trigger] wedge_assigned(
                        self.adj(),
                        records@,
                        angles@,
                        focus,
                        jj,
                    ),
                forall|jj: int|
                    0 <= jj < j ==> angles@[(#[trigger] records@[jj]).dagid as int].den >= 1,
                forall|jj: int|
                    0 <= jj < j ==> angles@[(#[trigger] records@[jj]).dagid as int].den
                        == exact_den(self.adj(), records@, jj) && angles@[records@[jj].dagid
                        as int].start_num == exact_start(self.adj(), records@, jj),
                forall|x: int|
                    0 <= x < self.n() && !recorded_in(records@, j as int, x as DAGID) ==> (
                    #[trigger] angles@[x]) == (AngleRange { start_num: 0, den: 0 }),
                forall|jj: int| 0 <= jj < j ==> (#[trigger] records@[jj]).depth <= max_depth,
                j > 0 ==> exists|jj: int|
                    0 <= jj < j && (#[trigger] records@[jj]).depth == max_depth,
                j == 0 ==> max_depth == 0,
            decreases rlen - j,
        {
            let rec = records[j];
            let ghost angles0 = angles@;
            proof {
                assert(bfs_rec_ok(self.adj(), self.radj(), records@, focus, j as int));
                assert(rec.dagid < self.n());
            }
            if j == 0 {
                angles[rec.dagid] = AngleRange { start_num: 0, den: 1 };
                proof {
                    assert(wedge_assigned(self.adj(), records@, angles@, focus, 0));
                    assert(exact_den(self.adj(), records@, 0) == 1);
                    assert(exact_start(self.adj(), records@, 0) == 0);
                    assert forall|x: int|
                        0 <= x < self.n() && !recorded_in(records@, 1int, x as DAGID) implies (
                    #[trigger] angles@[x]) == (AngleRange { start_num: 0, den: 0 }) by {
                        if x != focus as int {
                            assert(!recorded_in(records@, 0int, x as DAGID));
                        } else {
                            assert(records@[0].dagid == x as DAGID);
                        }
                    }
                }
            } else {
                proof {
                    assert(bfs_rec_ok(self.adj(), self.radj(), records@, focus, j as int));
                }
                let (p, i) = match rec.parent_ref {
                    Some(pr) => pr,
                    None => {
                        proof {
                            assert(false);
                        }
                        (0, 0)
                    },
                };
                proof {
                    let k = choose|k: int|
                        0 <= k < j && (#[trigger] records@[k]).dagid == p && records@[k].depth + 1
                            == records@[j as int].depth;
                    assert(angles@[p as int].den >= 1);
                    lemma_parent_index_unique(records@, j as int, k, p, i);
                    assert(angles@[p as int].den == exact_den(self.adj(), records@, k));
                    assert(angles@[p as int].start_num == exact_start(self.adj(), records@, k));
                    assert(exact_den(self.adj(), records@, j as int) == exact_den(
                        self.adj(),
                        records@,
                        k,
                    ) * spec_segments(self.adj(), p));
                    assert(exact_start(self.adj(), records@, j as int) == exact_start(
                        self.adj(),
                        records@,
                        k,
                    ) * spec_segments(self.adj(), p) + 360 * i);
                    assert(bfs_valid(self.adj(), self.radj(), records@, focus));
                    assert(exact_start(self.adj(), records@, k) >= 0);
                }
                let ghost k0 = parent_index_of(records@, j as int);
                let pw = angles[p];
                let fwd_len = self.neighbors(p).len();
                let t: u128 = (fwd_len as u128) + 1;
                let den = match pw.den.checked_mul(t) {
                    Some(d) => d,
                    None => {
                        proof {
                            assert(exact_den(self.adj(), records@, j as int) > u128::MAX);
                        }
                        return Err(LayoutError::WedgeTooDeep);
                    },
                };
                let start_scaled = match pw.start_num.checked_mul(t) {
                    Some(sc) => sc,
                    None => {
                        proof {
                            assert(exact_start(self.adj(), records@, j as int) + 180 > u128::MAX);
                        }
                        return Err(LayoutError::WedgeTooDeep);
                    },
                };
                let offset = match (i as u128).checked_mul(360) {
                    Some(o) => o,
                    None => {
                        proof {
                            assert(exact_start(self.adj(), records@, k0) * spec_segments(
                                self.adj(),
                                p,
                            ) >= 0) by (nonlinear_arith)
                                requires
                                    exact_start(self.adj(), records@, k0) >= 0,
                                    spec_segments(self.adj(), p) >= 1,
                            ;
                            assert(exact_start(self.adj(), records@, j as int) + 180 > u128::MAX);
                        }
                        return Err(LayoutError::WedgeTooDeep);
                    },
                };
                let start_num = match start_scaled.checked_add(offset) {
                    Some(sn) => sn,
                    None => {
                        proof {
                            assert(exact_start(self.adj(), records@, j as int) + 180 > u128::MAX);
                        }
                        return Err(LayoutError::WedgeTooDeep);
                    },
                };
                angles[rec.dagid] = AngleRange { start_num, den };
                if rec.depth > max_depth {
                    max_depth = rec.depth;
                }
                proof {
                    assert(records@[j as int].dagid != focus) by {
                        assert(records@[0].dagid == focus);
                    }
                    assert(wedge_assigned(self.adj(), records@, angles@, focus, j as int)) by {
                        assert(angles@[p as int] == angles0[p as int]) by {
                            assert(p != records@[j as int].dagid) by {
                                assert(recorded_in(records@, j as int, p)) by {
                                    let k = choose|k: int|
                                        0 <= k < j && (#[trigger] records@[k]).dagid == p
                                            && records@[k].depth + 1 == records@[j as int].depth;
                                    assert(records@[k].dagid == p);
                                }
                                let k = choose|k: int|
                                    0 <= k < j && (#[trigger] records@[k]).dagid == p;
                                assert(records@[k].dagid != records@[j as int].dagid);
                            }
                        }
                        assert(den == angles0[p as int].den * t);
                        assert(start_num == angles0[p as int].start_num * t + 360 * i);
                    }
                    assert forall|jj: int|
                        0 <= jj < j + 1 implies #[trigger] wedge_assigned(
                        self.adj(),
                        records@,
                        angles@,
                        focus,
                        jj,
                    ) by {
                        if jj < j {
                            assert(wedge_assigned(self.adj(), records@, angles0, focus, jj));
                            assert(bfs_rec_ok(self.adj(), self.radj(), records@, focus, jj));
                            assert(records@[jj].dagid < self.n());
                            assert(angles@[(records@[jj]).dagid as int] == angles0[(
                            records@[jj]).dagid as int]) by {
                                assert(records@[jj].dagid != records@[j as int].dagid);
                            }
                            if jj > 0 {
                                match records@[jj].parent_ref {
                                    Option::Some((pp, ii)) => {
                                        assert(bfs_rec_ok(
                                            self.adj(),
                                            self.radj(),
                                            records@,
                                            focus,
                                            jj,
                                        ));
                                        let k = choose|k: int|
                                            0 <= k < jj && (#[trigger] records@[k]).dagid == pp
                                                && records@[k].depth + 1 == records@[jj].depth;
                                        assert(angles@[pp as int] == angles0[pp as int]) by {
                                            assert(records@[k].dagid != records@[j as int].dagid);
                                        }
                                    },
                                    Option::None => {},
                                }
                            }
                        }
                    }
                    assert(den >= 1) by (nonlinear_arith)
                        requires
                            den == angles0[p as int].den * t,
                            angles0[p as int].den >= 1,
                            t >= 1,
                    ;
                    assert forall|jj: int|
                        0 <= jj < j + 1 implies angles@[(#[trigger] records@[jj]).dagid
                        as int].den == exact_den(self.adj(), records@, jj) && angles@[records@[jj].dagid
                        as int].start_num == exact_start(self.adj(), records@, jj) by {
                        assert(bfs_rec_ok(self.adj(), self.radj(), records@, focus, jj));
                        assert(records@[jj].dagid < self.n());
                        if jj < j {
                            assert(records@[jj].dagid != records@[j as int].dagid);
                            assert(angles@[records@[jj].dagid as int] == angles0[records@[jj].dagid
                                as int]);
                        } else {
                            assert(angles@[records@[jj].dagid as int] == (AngleRange {
                                start_num,
                                den,
                            }));
                        }
                    }
                    assert forall|jj: int|
                        0 <= jj < j + 1 implies angles@[(#[trigger] records@[jj]).dagid as int].den
                        >= 1 by {
                        assert(bfs_rec_ok(self.adj(), self.radj(), records@, focus, jj));
                        if jj < j {
                            assert(records@[jj].dagid != records@[j as int].dagid);
                            assert(angles@[records@[jj].dagid as int] == angles0[records@[jj].dagid
                                as int]);
                        }
                    }
                    assert forall|x: int|
                        0 <= x < self.n() && !recorded_in(records@, j + 1, x as DAGID) implies (
                    #[trigger] angles@[x]) == (AngleRange { start_num: 0, den: 0 }) by {
                        if x != records@[j as int].dagid as int {
                            assert(!recorded_in(records@, j as int, x as DAGID));
                        } else {
                            assert(records@[j as int].dagid == x as DAGID);
                        }
                    }
                }
            }
            j = j + 1;
        }
        let mut polar: Vec<PolarCoord> = Vec::new();
        let origin = PolarCoord { radius_num: 0, radius_den: 1, angle_num: 180, angle_den: 1 };
        let mut z2: usize = 0;
        while z2 < n
            invariant
                z2 <= n,
                polar@.len() == z2,
                forall|x: int|
                    0 <= x < z2 ==> (#[trigger] polar@[x]) == (PolarCoord {
                        radius_num: 0,
                        radius_den: 1,
                        angle_num: 180,
                        angle_den: 1,
                    }),
            decreases n - z2,
        {
            polar.push(PolarCoord { radius_num: 0, radius_den: 1, angle_num: 180, angle_den: 1 });
            z2 = z2 + 1;
        }
        let mut j2: usize = 0;
        while j2 < rlen
            invariant
                self.wf(),
                focus < self.n(),
                rlen == records@.len(),
                records@.len() >= 1,
                records@[0].dagid == focus,
                records@[0].depth == 0,
                records@[0].parent_ref matches Option::None,
                recs_distinct(records@),
                forall|jj: int|
                    0 <= jj < records@.len() ==> #[trigger] bfs_rec_ok(
                        self.adj(),
                        self.radj(),
                        records@,
                        focus,
                        jj,
                    ),
                angles@.len() == self.n(),
                polar@.len() == self.n(),
                j2 <= rlen,
                forall|jj: int| 0 <= jj < rlen ==> (#[trigger] records@[jj]).depth <= max_depth,
                forall|jj: int|
                    0 <= jj < rlen ==> angles@[(#[trigger] records@[jj]).dagid as int].den >= 1,
                angles@[focus as int] == (AngleRange { start_num: 0, den: 1 }),
                forall|jj: int|
                    0 <= jj < rlen ==> angles@[(#[trigger] records@[jj]).dagid as int].den
                        == exact_den(self.adj(), records@, jj) && angles@[records@[jj].dagid
                        as int].start_num == exact_start(self.adj(), records@, jj),
                forall|jj: int|
                    0 <= jj < j2 ==> {
                        let r = #[trigger] records@[jj];
                        let w = angles@[r.dagid as int];
                        polar@[r.dagid as int] == (PolarCoord {
                            radius_num: radius_of(r.depth as int, max_depth as int).0 as u128,
                            radius_den: radius_of(r.depth as int, max_depth as int).1 as u128,
                            angle_num: (w.start_num + 180) as u128,
                            angle_den: w.den,
                        })
                    },
                forall|x: int|
                    0 <= x < self.n() && !recorded_in(records@, j2 as int, x as DAGID) ==> (
                    #[trigger] polar@[x]) == (PolarCoord {
                        radius_num: 0,
                        radius_den: 1,
                        angle_num: 180,
                        angle_den: 1,
                    }),
                forall|x: int|
                    0 <= x < self.n() ==> 50 * (#[trigger] polar@[x]).radius_num <= 49
                        * polar@[x].radius_den && polar@[x].radius_den >= 1,
            decreases rlen - j2,
        {
            let rec = records[j2];
            let ghost polar0 = polar@;
            proof {
                assert(bfs_rec_ok(self.adj(), self.radj(), records@, focus, j2 as int));
                assert(rec.dagid < self.n());
            }
            let w = angles[rec.dagid];
            let coord: PolarCoord;
            if rec.depth == 0 {
                proof {
                    // only the focus record sits at depth zero
                    assert(j2 == 0) by {
                        if j2 > 0 {
                            assert(bfs_rec_ok(self.adj(), self.radj(), records@, focus, j2 as int));
                        }
                    }
                    assert(w.start_num == 0);
                }
                coord = PolarCoord {
                    radius_num: 0,
                    radius_den: 1,
                    angle_num: match w.start_num.checked_add(180) {
                        Some(a) => a,
                        None => {
                            proof {
                                assert(false);
                            }
                            return Err(LayoutError::WedgeTooDeep);
                        },
                    },
                    angle_den: w.den,
                };
            } else {
                let rn: u128 = 49 * (rec.depth as u128);
                let rd: u128 = 50 * (max_depth as u128);
                let an = match w.start_num.checked_add(180) {
                    Some(a) => a,
                    None => {
                        proof {
                            assert(bfs_valid(self.adj(), self.radj(), records@, focus));
                            assert(w.start_num == exact_start(self.adj(), records@, j2 as int));
                            assert(exact_den(self.adj(), records@, j2 as int) >= 0 || true);
                            assert(exact_start(self.adj(), records@, j2 as int) + 180
                                > u128::MAX);
                        }
                        return Err(LayoutError::WedgeTooDeep);
                    },
                };
                coord = PolarCoord { radius_num: rn, radius_den: rd, angle_num: an, angle_den: w.den };
                proof {
                    assert(rec.depth <= max_depth);
                    assert(50 * coord.radius_num <= 49 * coord.radius_den) by (nonlinear_arith)
                        requires
                            coord.radius_num == 49 * (rec.depth as u128),
                            coord.radius_den == 50 * (max_depth as u128),
                            rec.depth <= max_depth,
                    ;
                }
            }
            polar[rec.dagid] = coord;
            proof {
                assert forall|jj: int|
                    0 <= jj < j2 + 1 implies {
                    let r = #[trigger] records@[jj];
                    let ww = angles@[r.dagid as int];
                    polar@[r.dagid as int] == (PolarCoord {
                        radius_num: radius_of(r.depth as int, max_depth as int).0 as u128,
                        radius_den: radius_of(r.depth as int, max_depth as int).1 as u128,
                        angle_num: (ww.start_num + 180) as u128,
                        angle_den: ww.den,
                    })
                } by {
                    assert(bfs_rec_ok(self.adj(), self.radj(), records@, focus, jj));
                    assert(records@[jj].dagid < self.n());
                    if jj < j2 {
                        assert(records@[jj].dagid != records@[j2 as int].dagid);
                        assert(polar@[records@[jj].dagid as int] == polar0[records@[jj].dagid
                            as int]);
                    }
                }
                assert forall|x: int|
                    0 <= x < self.n() && !recorded_in(records@, j2 + 1, x as DAGID) implies (
                #[trigger] polar@[x]) == (PolarCoord {
                    radius_num: 0,
                    radius_den: 1,
                    angle_num: 180,
                    angle_den: 1,
                }) by {
                    if x != records@[j2 as int].dagid as int {
                        assert(!recorded_in(records@, j2 as int, x as DAGID));
                    } else {
                        assert(records@[j2 as int].dagid == x as DAGID);
                    }
                }
            }
            j2 = j2 + 1;
        }
        proof {
            assert forall|v: DAGID|
                v < self.n() && crate::traverse::reachable(
                    crate::traverse::sym_of(self.adj(), self.radj()),
                    focus,
                    v,
                ) implies recorded_in(records@, records@.len() as int, v) by {
                let k = choose|k: int|
                    0 <= k < records@.len() && (#[trigger] records@[k]).dagid == v;
                assert(recorded_in(records@, records@.len() as int, v));
            }
            assert(wedge_assigned(self.adj(), records@, angles@, focus, 0));
            assert(records@[0].depth == 0);
        }
        Ok(HyperbolicLayout { angles, polar, records, max_depth })
    }
}

} // verus!
