//! Poincaré-ball point arithmetic over exact rationals.
//!
//! A point of the closed unit disk is carried as a pair of integer
//! coordinates over a shared positive denominator, so membership in the
//! ball, Möbius addition and the argument of the distance formula are
//! computed exactly and their algebraic laws are theorems. The
//! transcendental steps that the rendering layer needs — `tanh`/`atanh`
//! in the exponential and logarithm maps, `acosh` at the end of the
//! distance, sine and cosine in rotations — have no exact finite
//! representation and stay outside this crate, applied to the exact
//! rationals produced here.
use vstd::prelude::*;

verus! {

/// Largest denominator a `PoincarePoint` may carry: about six decimal
/// digits of resolution, chosen so that every product in the Möbius and
/// distance formulas provably fits in 128 bits.
pub const DEN_LIMIT: i64 = 1048576;

/// Bound on every field of a `MobiusSum`: products of up to five
/// `DEN_LIMIT`-bounded factors stay far below it, and one further
/// cross-multiplication against a point still fits in an `i128`.
pub const SUM_LIMIT: i128 = 40564819207303340847894502572032;

/// Rejected construction input: points outside the closed unit ball are
/// refused in strict mode, as are unusable denominators.
#[derive(Debug, Clone, Copy, PartialEq, Eq, Structural)]
pub enum BallError {
    /// The denominator was zero, negative, or above `DEN_LIMIT`.
    BadDenominator,
    /// The coordinates lie outside the closed unit ball.
    OutsideBall,
}

/// A point of the closed unit disk: the pair `(x/den, y/den)` with
/// `x² + y² <= den²`. Strict construction through `from_raw` makes the
/// invariant `wf` hold for every value handed out.
#[derive(Debug, Clone, Copy, PartialEq, Eq, Structural)]
pub struct PoincarePoint {
    x: i64,
    y: i64,
    den: i64,
}

/// The exact Möbius sum of two points, before any rounding: the pair
/// `(x/den, y/den)` again, but over a denominator that may be as large
/// as a product of five point denominators. `den == 0` occurs exactly
/// for antipodal boundary points, where the Möbius sum diverges.
#[derive(Debug, Clone, Copy, PartialEq, Eq, Structural)]
pub struct MobiusSum {
    pub x: i128,
    pub y: i128,
    pub den: i128,
}

/// Numerator of the first coordinate of the Möbius sum
/// `p ⊕ q = ((1+2⟨p,q⟩+‖q‖²)·p + (1−‖p‖²)·q) / (1+2⟨p,q⟩+‖p‖²‖q‖²)`,
/// with every term brought over the common denominator `dp³·dq²`.
pub open spec fn mobius_x(px: int, py: int, dp: int, qx: int, qy: int, dq: int) -> int {
    let u = px * qx + py * qy;
    let np = px * px + py * py;
    let nq = qx * qx + qy * qy;
    let dpdq = dp * dq;
    (dpdq * dpdq + 2 * (u * dpdq) + nq * (dp * dp)) * px + ((dp * dp - np) * qx) * dpdq
}

/// Numerator of the second coordinate of the Möbius sum.
pub open spec fn mobius_y(px: int, py: int, dp: int, qx: int, qy: int, dq: int) -> int {
    let u = px * qx + py * qy;
    let np = px * px + py * py;
    let nq = qx * qx + qy * qy;
    let dpdq = dp * dq;
    (dpdq * dpdq + 2 * (u * dpdq) + nq * (dp * dp)) * py + ((dp * dp - np) * qy) * dpdq
}

/// Denominator of the Möbius sum over the same common denominator.
pub open spec fn mobius_den(px: int, py: int, dp: int, qx: int, qy: int, dq: int) -> int {
    let u = px * qx + py * qy;
    let np = px * px + py * py;
    let nq = qx * qx + qy * qy;
    let dpdq = dp * dq;
    dp * (dpdq * dpdq + 2 * (u * dpdq) + np * nq)
}

/// Numerator of `k = ‖p−q‖² / ((1−‖p‖²)(1−‖q‖²))`, the argument of the
/// hyperbolic distance `acosh(1 + 2k)`.
pub open spec fn dist_num(px: int, py: int, dp: int, qx: int, qy: int, dq: int) -> int {
    (px * dq - qx * dp) * (px * dq - qx * dp) + (py * dq - qy * dp) * (py * dq - qy * dp)
}

/// Denominator of the distance argument `k`.
pub open spec fn dist_den(px: int, py: int, dp: int, qx: int, qy: int, dq: int) -> int {
    (dp * dp - (px * px + py * py)) * (dq * dq - (qx * qx + qy * qy))
}

/// The strict-construction condition on raw coordinates: a usable
/// denominator and membership in the closed unit ball.
pub open spec fn raw_ok(x: int, y: int, den: int) -> bool {
    &&& 1 <= den <= DEN_LIMIT as int
    &&& x * x + y * y <= den * den
}

/// Ball membership bounds each coordinate by the denominator.
proof fn lemma_coord_bounds(x: int, y: int, den: int)
    requires
        raw_ok(x, y, den),
    ensures
        -den <= x <= den,
        -den <= y <= den,
{
    assert(-den <= x <= den && -den <= y <= den) by (nonlinear_arith)
        requires
            x * x + y * y <= den * den,
            1 <= den,
    ;
}

/// `|a·b| <= bound_a·bound_b` for factors bounded in magnitude.
proof fn lemma_mul_bound(a: int, b: int, ba: int, bb: int)
    requires
        -ba <= a <= ba,
        -bb <= b <= bb,
        0 <= ba,
        0 <= bb,
    ensures
        -(ba * bb) <= a * b <= ba * bb,
{
    assert(-(ba * bb) <= a * b <= ba * bb) by (nonlinear_arith)
        requires
            -ba <= a <= ba,
            -bb <= b <= bb,
            0 <= ba,
            0 <= bb,
    ;
}

impl PoincarePoint {
    /// First coordinate's numerator.
    pub closed spec fn x_int(&self) -> int {
        self.x as int
    }

    /// Second coordinate's numerator.
    pub closed spec fn y_int(&self) -> int {
        self.y as int
    }

    /// Shared denominator.
    pub closed spec fn den_int(&self) -> int {
        self.den as int
    }

    /// The strict-construction invariant: a usable denominator and
    /// coordinates inside the closed unit ball, `x² + y² <= den²`.
    pub open spec fn wf(&self) -> bool {
        raw_ok(self.x_int(), self.y_int(), self.den_int())
    }

    /// Builds the point `(x/den, y/den)`, rejecting a denominator
    /// outside `1..=DEN_LIMIT` and any point outside the closed unit
    /// ball: exactly the inputs the strict mode forbids.
    pub fn from_raw(x: i64, y: i64, den: i64) -> (r: Result<PoincarePoint, BallError>)
        ensures
            match r {
                Result::Ok(p) => {
                    &&& p.wf()
                    &&& p.x_int() == x
                    &&& p.y_int() == y
                    &&& p.den_int() == den
                },
                Result::Err(e) => {
                    &&& !raw_ok(x as int, y as int, den as int)
                    &&& e == BallError::BadDenominator <==> !(1 <= den <= DEN_LIMIT)
                    &&& e == BallError::OutsideBall <==> (1 <= den <= DEN_LIMIT && x as int * x
                        + y as int * y > den as int * den)
                },
            },
    {
        if den < 1 || den > DEN_LIMIT {
            return Err(BallError::BadDenominator);
        }
        if x < -den || x > den || y < -den || y > den {
            proof {
                assert(x as int * x + y as int * y > den as int * den) by (nonlinear_arith)
                    requires
                        1 <= den,
                        x < -den || x > den || y < -den || y > den,
                ;
            }
            return Err(BallError::OutsideBall);
        }
        proof {
            lemma_mul_bound(x as int, x as int, DEN_LIMIT as int, DEN_LIMIT as int);
            lemma_mul_bound(y as int, y as int, DEN_LIMIT as int, DEN_LIMIT as int);
            lemma_mul_bound(den as int, den as int, DEN_LIMIT as int, DEN_LIMIT as int);
        }
        let xx = (x as i128) * (x as i128);
        let yy = (y as i128) * (y as i128);
        let dd = (den as i128) * (den as i128);
        if xx + yy > dd {
            return Err(BallError::OutsideBall);
        }
        Ok(PoincarePoint { x, y, den })
    }

    /// The origin of the disk.
    pub fn zero() -> (r: PoincarePoint)
        ensures
            r.wf(),
            r.x_int() == 0,
            r.y_int() == 0,
            r.den_int() == 1,
    {
        PoincarePoint { x: 0, y: 0, den: 1 }
    }

    /// The exact rational coordinates `(x, y, den)`.
    pub fn as_ratio(&self) -> (r: (i64, i64, i64))
        ensures
            r.0 == self.x_int(),
            r.1 == self.y_int(),
            r.2 == self.den_int(),
    {
        (self.x, self.y, self.den)
    }

    /// The point mirrored through the origin.
    pub fn neg(&self) -> (r: PoincarePoint)
        requires
            self.wf(),
        ensures
            r.wf(),
            r.x_int() == -self.x_int(),
            r.y_int() == -self.y_int(),
            r.den_int() == self.den_int(),
    {
        proof {
            lemma_coord_bounds(self.x_int(), self.y_int(), self.den_int());
            assert((-self.x_int()) * (-self.x_int()) + (-self.y_int()) * (-self.y_int())
                == self.x_int() * self.x_int() + self.y_int() * self.y_int()) by (nonlinear_arith);
        }
        PoincarePoint { x: -self.x, y: -self.y, den: self.den }
    }

    /// Whether the point lies in the closed unit ball, `‖p‖ <= 1`.
    /// Strict construction makes this true of every point handed out.
    pub fn is_valid(&self) -> (r: bool)
        requires
            self.wf(),
        ensures
            r == (self.x_int() * self.x_int() + self.y_int() * self.y_int() <= self.den_int()
                * self.den_int()),
            r,
    {
        proof {
            lemma_coord_bounds(self.x_int(), self.y_int(), self.den_int());
            lemma_mul_bound(self.x_int(), self.x_int(), DEN_LIMIT as int, DEN_LIMIT as int);
            lemma_mul_bound(self.y_int(), self.y_int(), DEN_LIMIT as int, DEN_LIMIT as int);
            lemma_mul_bound(self.den_int(), self.den_int(), DEN_LIMIT as int, DEN_LIMIT as int);
        }
        let xx = (self.x as i128) * (self.x as i128);
        let yy = (self.y as i128) * (self.y as i128);
        let dd = (self.den as i128) * (self.den as i128);
        xx + yy <= dd
    }

    /// Möbius gyrovector addition, computed exactly. The result's
    /// coordinates are the formula's numerators over the common
    /// denominator `dp³·dq²`; the denominator is zero exactly for
    /// antipodal boundary points, where the sum diverges. The operation
    /// is neither commutative nor associative; it is what pans the whole
    /// layout under a focus shift.
    #[verifier::rlimit(60)]
    pub fn mobius_add(&self, o: &PoincarePoint) -> (r: MobiusSum)
        requires
            self.wf(),
            o.wf(),
        ensures
            r.x == mobius_x(
                self.x_int(),
                self.y_int(),
                self.den_int(),
                o.x_int(),
                o.y_int(),
                o.den_int(),
            ),
            r.y == mobius_y(
                self.x_int(),
                self.y_int(),
                self.den_int(),
                o.x_int(),
                o.y_int(),
                o.den_int(),
            ),
            r.den == mobius_den(
                self.x_int(),
                self.y_int(),
                self.den_int(),
                o.x_int(),
                o.y_int(),
                o.den_int(),
            ),
            r.den >= 0,
            r.wf(),
    {
        let ghost l = DEN_LIMIT as int;
        proof {
            lemma_coord_bounds(self.x_int(), self.y_int(), self.den_int());
            lemma_coord_bounds(o.x_int(), o.y_int(), o.den_int());
        }
        let px = self.x as i128;
        let py = self.y as i128;
        let dp = self.den as i128;
        let qx = o.x as i128;
        let qy = o.y as i128;
        let dq = o.den as i128;
        proof {
            lemma_mul_bound(px as int, qx as int, l, l);
            lemma_mul_bound(py as int, qy as int, l, l);
            lemma_mul_bound(px as int, px as int, l, l);
            lemma_mul_bound(py as int, py as int, l, l);
            lemma_mul_bound(qx as int, qx as int, l, l);
            lemma_mul_bound(qy as int, qy as int, l, l);
            lemma_mul_bound(dp as int, dq as int, l, l);
            lemma_mul_bound(dp as int, dp as int, l, l);
        }
        let u = px * qx + py * qy;
        let np = px * px + py * py;
        let nq = qx * qx + qy * qy;
        let dpdq = dp * dq;
        let dp2 = dp * dp;
        proof {
            lemma_mul_bound(dpdq as int, dpdq as int, l * l, l * l);
            lemma_mul_bound(u as int, dpdq as int, 2 * (l * l), l * l);
            lemma_mul_bound(nq as int, dp2 as int, 2 * (l * l), l * l);
        }
        let a = dpdq * dpdq;
        let two_u_dpdq = 2 * (u * dpdq);
        let c1 = a + two_u_dpdq + nq * dp2;
        proof {
            lemma_mul_bound(c1 as int, px as int, 7 * (l * l * (l * l)), l);
            lemma_mul_bound(dp2 as int - np as int, qx as int, 3 * (l * l), l);
            lemma_mul_bound((dp2 - np) as int * qx as int, dpdq as int, 3 * ((l * l) * l), l * l);
            lemma_mul_bound(c1 as int, py as int, 7 * (l * l * (l * l)), l);
            lemma_mul_bound(dp2 as int - np as int, qy as int, 3 * (l * l), l);
            lemma_mul_bound((dp2 - np) as int * qy as int, dpdq as int, 3 * ((l * l) * l), l * l);
            lemma_mul_bound(np as int, nq as int, 2 * (l * l), 2 * (l * l));
        }
        let xnum = c1 * px + ((dp2 - np) * qx) * dpdq;
        let ynum = c1 * py + ((dp2 - np) * qy) * dpdq;
        let c3 = a + two_u_dpdq + np * nq;
        proof {
            lemma_mul_bound(dp as int, c3 as int, l, 9 * (l * l * (l * l)));
            // Cauchy-Schwarz by the Lagrange identity: u² <= np·nq, so
            // c3 >= (dpdq + u)² >= 0, and the denominator cannot be
            // negative.
            assert((px * qx + py * qy) * (px * qx + py * qy) <= (px * px + py * py) * (qx * qx + qy
                * qy)) by (nonlinear_arith);
            assert(c3 as int >= 0) by (nonlinear_arith)
                requires
                    c3 == a + two_u_dpdq + np * nq,
                    a == dpdq * dpdq,
                    two_u_dpdq == 2 * (u * dpdq),
                    u * u <= np * nq,
            ;
            assert(dp as int * c3 as int >= 0) by (nonlinear_arith)
                requires
                    dp >= 1,
                    c3 >= 0,
            ;
        }
        let den = dp * c3;
        MobiusSum { x: xnum, y: ynum, den }
    }

    /// Möbius subtraction: the Möbius sum with the mirrored point,
    /// `p ⊖ q = p ⊕ (−q)`.
    pub fn mobius_sub(&self, o: &PoincarePoint) -> (r: MobiusSum)
        requires
            self.wf(),
            o.wf(),
        ensures
            r.x == mobius_x(
                self.x_int(),
                self.y_int(),
                self.den_int(),
                -o.x_int(),
                -o.y_int(),
                o.den_int(),
            ),
            r.y == mobius_y(
                self.x_int(),
                self.y_int(),
                self.den_int(),
                -o.x_int(),
                -o.y_int(),
                o.den_int(),
            ),
            r.den == mobius_den(
                self.x_int(),
                self.y_int(),
                self.den_int(),
                -o.x_int(),
                -o.y_int(),
                o.den_int(),
            ),
            r.den >= 0,
            r.wf(),
    {
        let m = o.neg();
        self.mobius_add(&m)
    }

    /// The exact argument of the hyperbolic distance
    /// `dist(p, q) = acosh(1 + 2·(num/den))`: `num/den` is
    /// `‖p−q‖² / ((1−‖p‖²)(1−‖q‖²))`. Requires both points strictly
    /// inside the ball, since the distance diverges at the boundary.
    /// Applying `acosh` is the rendering layer's final, inexact step.
    pub fn dist_arg(&self, o: &PoincarePoint) -> (r: (i128, i128))
        requires
            self.wf(),
            o.wf(),
            self.x_int() * self.x_int() + self.y_int() * self.y_int() < self.den_int()
                * self.den_int(),
            o.x_int() * o.x_int() + o.y_int() * o.y_int() < o.den_int() * o.den_int(),
        ensures
            r.0 == dist_num(
                self.x_int(),
                self.y_int(),
                self.den_int(),
                o.x_int(),
                o.y_int(),
                o.den_int(),
            ),
            r.1 == dist_den(
                self.x_int(),
                self.y_int(),
                self.den_int(),
                o.x_int(),
                o.y_int(),
                o.den_int(),
            ),
            r.0 >= 0,
            r.1 >= 1,
    {
        let ghost l = DEN_LIMIT as int;
        proof {
            lemma_coord_bounds(self.x_int(), self.y_int(), self.den_int());
            lemma_coord_bounds(o.x_int(), o.y_int(), o.den_int());
        }
        let px = self.x as i128;
        let py = self.y as i128;
        let dp = self.den as i128;
        let qx = o.x as i128;
        let qy = o.y as i128;
        let dq = o.den as i128;
        proof {
            lemma_mul_bound(px as int, dq as int, l, l);
            lemma_mul_bound(qx as int, dp as int, l, l);
            lemma_mul_bound(py as int, dq as int, l, l);
            lemma_mul_bound(qy as int, dp as int, l, l);
            lemma_mul_bound(px as int, px as int, l, l);
            lemma_mul_bound(py as int, py as int, l, l);
            lemma_mul_bound(qx as int, qx as int, l, l);
            lemma_mul_bound(qy as int, qy as int, l, l);
            lemma_mul_bound(dp as int, dp as int, l, l);
            lemma_mul_bound(dq as int, dq as int, l, l);
        }
        let ex = px * dq - qx * dp;
        let ey = py * dq - qy * dp;
        proof {
            lemma_mul_bound(ex as int, ex as int, 2 * (l * l), 2 * (l * l));
            lemma_mul_bound(ey as int, ey as int, 2 * (l * l), 2 * (l * l));
            assert(ex as int * ex as int >= 0 && ey as int * ey as int >= 0) by (nonlinear_arith);
        }
        let num = ex * ex + ey * ey;
        let gp = dp * dp - (px * px + py * py);
        let gq = dq * dq - (qx * qx + qy * qy);
        proof {
            lemma_mul_bound(gp as int, gq as int, 3 * (l * l), 3 * (l * l));
            assert(gp as int * gq as int >= 1) by (nonlinear_arith)
                requires
                    gp >= 1,
                    gq >= 1,
            ;
        }
        let den = gp * gq;
        (num, den)
    }
}

/// The identity law of Möbius addition: for any valid point `p`,
/// `mobius_add(p, zero) == p` as rational values — the sum's coordinates
/// cross-multiplied against `p`'s agree, and the sum's denominator is
/// positive, so the equation is between genuine finite points.
pub proof fn lemma_mobius_add_zero(px: int, py: int, dp: int)
    requires
        raw_ok(px, py, dp),
    ensures
        mobius_den(px, py, dp, 0, 0, 1) > 0,
        mobius_x(px, py, dp, 0, 0, 1) * dp == px * mobius_den(px, py, dp, 0, 0, 1),
        mobius_y(px, py, dp, 0, 0, 1) * dp == py * mobius_den(px, py, dp, 0, 0, 1),
{
    assert(mobius_den(px, py, dp, 0, 0, 1) == dp * (dp * dp)) by (nonlinear_arith);
    assert(dp * (dp * dp) > 0) by (nonlinear_arith)
        requires
            dp >= 1,
    ;
    assert(mobius_x(px, py, dp, 0, 0, 1) == (dp * dp) * px) by (nonlinear_arith);
    assert(mobius_y(px, py, dp, 0, 0, 1) == (dp * dp) * py) by (nonlinear_arith);
    assert(((dp * dp) * px) * dp == px * (dp * (dp * dp))) by (nonlinear_arith);
    assert(((dp * dp) * py) * dp == py * (dp * (dp * dp))) by (nonlinear_arith);
}

/// The distance of a point to itself is zero: the argument `k` of
/// `acosh(1 + 2k)` vanishes, and `acosh(1) == 0`.
pub proof fn lemma_dist_arg_self(px: int, py: int, dp: int)
    requires
        raw_ok(px, py, dp),
    ensures
        dist_num(px, py, dp, px, py, dp) == 0,
{
    assert(dist_num(px, py, dp, px, py, dp) == 0) by (nonlinear_arith);
}

/// The distance is symmetric: both the numerator and the denominator of
/// the argument `k` are unchanged when the two points swap places.
pub proof fn lemma_dist_arg_symmetric(px: int, py: int, dp: int, qx: int, qy: int, dq: int)
    ensures
        dist_num(px, py, dp, qx, qy, dq) == dist_num(qx, qy, dq, px, py, dp),
        dist_den(px, py, dp, qx, qy, dq) == dist_den(qx, qy, dq, px, py, dp),
{
    assert(dist_num(px, py, dp, qx, qy, dq) == dist_num(qx, qy, dq, px, py, dp))
        by (nonlinear_arith);
    assert(dist_den(px, py, dp, qx, qy, dq) == dist_den(qx, qy, dq, px, py, dp))
        by (nonlinear_arith);
}

impl MobiusSum {
    /// Bounds that every Möbius sum of valid points satisfies; wide
    /// enough that one further cross-multiplication against a point's
    /// coordinates stays inside an `i128`.
    pub open spec fn wf(&self) -> bool {
        &&& -SUM_LIMIT <= self.x as int <= SUM_LIMIT
        &&& -SUM_LIMIT <= self.y as int <= SUM_LIMIT
        &&& 0 <= self.den as int <= SUM_LIMIT
    }

    /// Whether this sum and the point `p` name the same point of the
    /// disk, compared exactly by cross-multiplication. A divergent sum
    /// (denominator zero) equals no point.
    pub fn value_eq_point(&self, p: &PoincarePoint) -> (r: bool)
        requires
            self.wf(),
            p.wf(),
        ensures
            r == (self.den as int > 0 && self.x as int * p.den_int() == p.x_int() * self.den as int
                && self.y as int * p.den_int() == p.y_int() * self.den as int),
    {
        proof {
            lemma_coord_bounds(p.x_int(), p.y_int(), p.den_int());
            lemma_mul_bound(self.x as int, p.den_int(), SUM_LIMIT as int, DEN_LIMIT as int);
            lemma_mul_bound(self.y as int, p.den_int(), SUM_LIMIT as int, DEN_LIMIT as int);
            lemma_mul_bound(p.x_int(), self.den as int, DEN_LIMIT as int, SUM_LIMIT as int);
            lemma_mul_bound(p.y_int(), self.den as int, DEN_LIMIT as int, SUM_LIMIT as int);
        }
        let (x, y, den) = p.as_ratio();
        self.den > 0 && self.x * (den as i128) == (x as i128) * self.den && self.y * (den as i128)
            == (y as i128) * self.den
    }
}

} // verus!
