//! Rays, exact rational distances along them, and the ray–triangle test.
use vstd::prelude::*;
use crate::geometry::{coord, cross3, dot3, lemma_mul_bound, sub3, Point, Triangle, V3};

verus! {

/// A rational `num / den`; well formed when `den > 0`.
#[derive(Clone, Copy, Debug, PartialEq, Eq, Structural)]
pub struct Frac {
    pub num: i64,
    pub den: i64,
}

/// `a / b <= c / d`, for positive `b` and `d`.
pub open spec fn frac_le(a: int, b: int, c: int, d: int) -> bool {
    a * d <= c * b
}

/// `a / b < c / d`, for positive `b` and `d`.
pub open spec fn frac_lt(a: int, b: int, c: int, d: int) -> bool {
    a * d < c * b
}

impl Frac {
    pub open spec fn wf(&self) -> bool {
        self.den > 0
    }

    pub open spec fn le_spec(&self, o: Frac) -> bool {
        frac_le(self.num as int, self.den as int, o.num as int, o.den as int)
    }

    pub open spec fn lt_spec(&self, o: Frac) -> bool {
        frac_lt(self.num as int, self.den as int, o.num as int, o.den as int)
    }

    pub fn new(num: i64, den: i64) -> (r: Frac)
        requires
            den > 0,
        ensures
            r.num == num && r.den == den,
            r.wf(),
    {
        Frac { num, den }
    }

    /// The whole number `n`.
    pub fn whole(n: i64) -> (r: Frac)
        ensures
            r.num == n && r.den == 1,
    {
        Frac { num: n, den: 1 }
    }

    /// `self <= o` as rationals.
    pub fn le(&self, o: &Frac) -> (r: bool)
        ensures
            r == self.le_spec(*o),
    {
        proof {
            lemma_mul_bound(self.num as int, o.den as int, 0x8000_0000_0000_0000, 0x8000_0000_0000_0000);
            lemma_mul_bound(o.num as int, self.den as int, 0x8000_0000_0000_0000, 0x8000_0000_0000_0000);
        }
        (self.num as i128) * (o.den as i128) <= (o.num as i128) * (self.den as i128)
    }

    /// `self < o` as rationals.
    pub fn lt(&self, o: &Frac) -> (r: bool)
        ensures
            r == self.lt_spec(*o),
    {
        proof {
            lemma_mul_bound(self.num as int, o.den as int, 0x8000_0000_0000_0000, 0x8000_0000_0000_0000);
            lemma_mul_bound(o.num as int, self.den as int, 0x8000_0000_0000_0000, 0x8000_0000_0000_0000);
        }
        (self.num as i128) * (o.den as i128) < (o.num as i128) * (self.den as i128)
    }
}

/// `a / b <= c / d <= e / f` gives `a / b <= e / f`, for positive denominators.
pub proof fn lemma_frac_le_trans(a: int, b: int, c: int, d: int, e: int, f: int)
    requires
        b > 0,
        d > 0,
        f > 0,
        frac_le(a, b, c, d),
        frac_le(c, d, e, f),
    ensures
        frac_le(a, b, e, f),
{
    assert(a * d * f <= c * b * f) by (nonlinear_arith)
        requires
            a * d <= c * b,
            f > 0,
    ;
    assert(c * f * b <= e * d * b) by (nonlinear_arith)
        requires
            c * f <= e * d,
            b > 0,
    ;
    assert(a * f * d <= e * b * d) by (nonlinear_arith)
        requires
            a * d * f <= c * b * f,
            c * f * b <= e * d * b,
    ;
    assert(a * f <= e * b) by (nonlinear_arith)
        requires
            a * f * d <= e * b * d,
            d > 0,
    ;
}

/// A ray `origin + t * dir`, for `near < t < far` (`far` absent: unbounded).
#[derive(Clone, Copy, Debug)]
pub struct Ray {
    pub origin: Point,
    pub dir: Point,
    pub near: Frac,
    pub far: Option<Frac>,
}

impl Ray {
    pub open spec fn wf(&self) -> bool {
        &&& self.near.wf()
        &&& (self.far matches Some(f) ==> f.wf())
    }

    /// `t` lies strictly between the ray's bounds.
    pub open spec fn within(&self, num: int, den: int) -> bool {
        &&& frac_lt(self.near.num as int, self.near.den as int, num, den)
        &&& (self.far matches Some(f) ==> frac_lt(num, den, f.num as int, f.den as int))
    }

    /// An unbounded ray that starts at its origin: `0 < t`.
    pub fn new(origin: Point, dir: Point) -> (r: Ray)
        ensures
            r.origin == origin && r.dir == dir,
            r.near == (Frac { num: 0, den: 1 }),
            r.far is None,
            r.wf(),
    {
        Ray { origin, dir, near: Frac { num: 0, den: 1 }, far: None }
    }

    /// A ray restricted to `near < t < far`.
    pub fn bounded(origin: Point, dir: Point, near: Frac, far: Frac) -> (r: Ray)
        requires
            near.wf(),
            far.wf(),
        ensures
            r.origin == origin && r.dir == dir && r.near == near && r.far == Some(far),
            r.wf(),
    {
        Ray { origin, dir, near, far: Some(far) }
    }
}

/// The quantities of the barycentric (Möller–Trumbore) solve, with the sign of
/// the determinant folded in so that the denominator `det` is positive:
/// `(det, u, v, t)`, where the crossing is at `t / det` and the barycentric
/// coordinates are `u / det` and `v / det`.
pub open spec fn solve(tri: Triangle, ray: Ray) -> (int, int, int, int) {
    let e1 = sub3(tri.p[1]@, tri.p[0]@);
    let e2 = sub3(tri.p[2]@, tri.p[0]@);
    let pv = cross3(ray.dir@, e2);
    let det = dot3(e1, pv);
    let tv = sub3(ray.origin@, tri.p[0]@);
    let q = cross3(tv, e1);
    let (u, v, t) = (dot3(tv, pv), dot3(ray.dir@, q), dot3(e2, q));
    if det >= 0 {
        (det, u, v, t)
    } else {
        (-det, -u, -v, -t)
    }
}

/// Where the ray's line crosses the triangle (edges included), as
/// `(num, den)` with `den > 0`; `None` when the ray is parallel to the
/// triangle's plane, the triangle has no area, or the line passes outside it.
pub open spec fn crossing(tri: Triangle, ray: Ray) -> Option<(int, int)> {
    let (det, u, v, t) = solve(tri, ray);
    if det != 0 && 0 <= u && 0 <= v && u + v <= det {
        Some((t, det))
    } else {
        None
    }
}

/// The distance at which the ray hits the triangle within its bounds.
pub open spec fn hit_distance(tri: Triangle, ray: Ray) -> Option<(int, int)> {
    match crossing(tri, ray) {
        Some((n, d)) => if ray.within(n, d) {
            Some((n, d))
        } else {
            None
        },
        None => None,
    }
}

/// The ray–triangle test: the distance of the hit within the ray's bounds.
pub fn intersect_triangle(tri: &Triangle, ray: &Ray) -> (r: Option<Frac>)
    requires
        ray.wf(),
    ensures
        match r {
            Some(f) => hit_distance(*tri, *ray) == Some((f.num as int, f.den as int)),
            None => hit_distance(*tri, *ray) is None,
        },
{
    let (den, u, v, t) = solve_exec(tri, ray);
    if den == 0 || u < 0 || v < 0 || u + v > den {
        return None;
    }
    let f = Frac { num: t, den };
    if !ray.near.lt(&f) {
        return None;
    }
    match ray.far {
        Some(far) => {
            if !f.lt(&far) {
                return None;
            }
        },
        None => {},
    }
    Some(f)
}

/// Computes `solve`.
fn solve_exec(tri: &Triangle, ray: &Ray) -> (r: (i64, i64, i64, i64))
    ensures
        (r.0 as int, r.1 as int, r.2 as int, r.3 as int) == solve(*tri, *ray),
        r.0 >= 0,
        -0x40_0000_0000_0000 <= r.1 <= 0x40_0000_0000_0000,
        -0x40_0000_0000_0000 <= r.2 <= 0x40_0000_0000_0000,
        r.0 <= 0x40_0000_0000_0000,
{
    let e1 = tri.p[1].minus(&tri.p[0]);
    let e2 = tri.p[2].minus(&tri.p[0]);
    let d = ray.dir.widen();
    let pv = d.cross(&e2);
    let det = e1.dot(&pv);
    let tv = ray.origin.minus(&tri.p[0]);
    let q = tv.cross(&e1);
    let u0 = tv.dot(&pv);
    let v0 = d.dot(&q);
    let t0 = e2.dot(&q);
    if det >= 0 {
        (det, u0, v0, t0)
    } else {
        (-det, -u0, -v0, -t0)
    }
}

/// Where the ray's line crosses a triangle, in barycentric form: the point is
/// `((den - u - v) * p0 + u * p1 + v * p2) / den`.
#[derive(Clone, Copy, Debug, PartialEq, Eq, Structural)]
pub struct Barycentric {
    pub u: i64,
    pub v: i64,
    pub den: i64,
}

/// The barycentric coordinates of the point where the ray's line crosses the
/// triangle (the point of a hit, for a triangle that the ray hits); `None`
/// where the line does not cross it.
pub fn barycentric(tri: &Triangle, ray: &Ray) -> (r: Option<Barycentric>)
    ensures
        r is Some <==> crossing(*tri, *ray) is Some,
        r matches Some(b) ==> solve(*tri, *ray) == (b.den as int, b.u as int, b.v as int, solve(
            *tri,
            *ray,
        ).3) && b.den > 0 && b.u >= 0 && b.v >= 0 && b.u + b.v <= b.den,
{
    let (den, u, v, _t) = solve_exec(tri, ray);
    if den == 0 || u < 0 || v < 0 || u + v > den {
        return None;
    }
    Some(Barycentric { u, v, den })
}

/// On axis `a`, the crossing point solves `origin + t * dir = p0 + u * e1 + v * e2`,
/// scaled by `det`: `det * origin + t * dir == (det - u - v) * p0 + u * p1 + v * p2`.
pub open spec fn crossing_identity(tri: Triangle, ray: Ray, a: int) -> bool {
    let (det, u, v, t) = solve(tri, ray);
    det * coord(ray.origin@, a) + t * coord(ray.dir@, a) == (det - u - v) * coord(tri.p[0]@, a)
        + u * coord(tri.p[1]@, a) + v * coord(tri.p[2]@, a)
}

/// The crossing identity holds on every axis.
pub proof fn lemma_crossing_point(tri: Triangle, ray: Ray)
    ensures
        forall|a: int| 0 <= a < 3 ==> #[trigger] crossing_identity(tri, ray, a),
{
    let e1 = sub3(tri.p[1]@, tri.p[0]@);
    let e2 = sub3(tri.p[2]@, tri.p[0]@);
    let d = ray.dir@;
    let tv = sub3(ray.origin@, tri.p[0]@);
    lemma_cramer(d, e1, e2, tv);
    let pv = cross3(d, e2);
    let det = dot3(e1, pv);
    let q = cross3(tv, e1);
    let (u, v, t) = (dot3(tv, pv), dot3(d, q), dot3(e2, q));
    assert forall|a: int| 0 <= a < 3 implies #[trigger] crossing_identity(tri, ray, a) by {
        let (o, dd, p0, p1, p2) = (coord(ray.origin@, a), coord(d, a), coord(tri.p[0]@, a), coord(tri.p[1]@, a), coord(tri.p[2]@, a));
        assert(det * (o - p0) + t * dd == u * (p1 - p0) + v * (p2 - p0));
        if det >= 0 {
            assert(det * o + t * dd == (det - u - v) * p0 + u * p1 + v * p2) by (nonlinear_arith)
                requires
                    det * (o - p0) + t * dd == u * (p1 - p0) + v * (p2 - p0),
            ;
        } else {
            assert((-det) * o + (-t) * dd == (-det - (-u) - (-v)) * p0 + (-u) * p1 + (-v) * p2)
                by (nonlinear_arith)
                requires
                    det * (o - p0) + t * dd == u * (p1 - p0) + v * (p2 - p0),
            ;
        }
    }
}

/// One component of Cramer's rule for `[-d, a, b] (t, u, v) = c`, multiplied
/// through by the determinant; the other components follow by rotating axes.
proof fn lemma_cramer_first(a: V3, b: V3, c: V3, d: V3)
    ensures
        dot3(a, cross3(d, b)) * c.0 + dot3(b, cross3(c, a)) * d.0 == dot3(c, cross3(d, b)) * a.0
            + dot3(d, cross3(c, a)) * b.0,
{
    let p = cross3(d, b);
    let q = cross3(c, a);
    let (p0, p1, p2) = p;
    let (q0, q1, q2) = q;
    let (a0, a1, a2) = a;
    let (b0, b1, b2) = b;
    let (c0, c1, c2) = c;
    let (d0, d1, d2) = d;
    lemma_regroup(a0, a1, a2, c0, c1, c2, p0, p1, p2);
    lemma_regroup(b0, b1, b2, d0, d1, d2, q0, q1, q2);
    assert(a1 * c0 - c1 * a0 == q2);
    assert(a2 * c0 - c2 * a0 == -q1);
    assert(b1 * d0 - d1 * b0 == p2);
    assert(b2 * d0 - d2 * b0 == -p1);
    lemma_cancel(p1, p2, q1, q2);
}

/// Regrouping of the first component of Cramer's rule.
proof fn lemma_regroup(a0: int, a1: int, a2: int, c0: int, c1: int, c2: int, p0: int, p1: int, p2: int)
    ensures
        (a0 * p0 + a1 * p1 + a2 * p2) * c0 - (c0 * p0 + c1 * p1 + c2 * p2) * a0 == p1 * (a1 * c0
            - c1 * a0) + p2 * (a2 * c0 - c2 * a0),
{
    lemma_distribute3(a0 * p0, a1 * p1, a2 * p2, c0);
    lemma_distribute3(c0 * p0, c1 * p1, c2 * p2, a0);
    lemma_swap_outer(a0, p0, c0);
    lemma_pull(a1, c1, p1, c0, a0);
    lemma_pull(a2, c2, p2, c0, a0);
}

proof fn lemma_distribute3(x: int, y: int, z: int, c: int)
    ensures
        (x + y + z) * c == x * c + y * c + z * c,
{
    assert((x + y + z) * c == x * c + y * c + z * c) by (nonlinear_arith);
}

proof fn lemma_swap_outer(a: int, p: int, c: int)
    ensures
        (a * p) * c == (c * p) * a,
{
    assert((a * p) * c == (c * p) * a) by (nonlinear_arith);
}

proof fn lemma_pull(a: int, c: int, p: int, c0: int, a0: int)
    ensures
        (a * p) * c0 - (c * p) * a0 == p * (a * c0 - c * a0),
{
    assert((a * p) * c0 == p * (a * c0)) by (nonlinear_arith);
    assert((c * p) * a0 == p * (c * a0)) by (nonlinear_arith);
    assert(p * (a * c0) - p * (c * a0) == p * (a * c0 - c * a0)) by (nonlinear_arith);
}

proof fn lemma_cancel(p1: int, p2: int, q1: int, q2: int)
    ensures
        p1 * q2 + p2 * (-q1) + q1 * p2 + q2 * (-p1) == 0,
{
    assert(p1 * q2 + p2 * (-q1) + q1 * p2 + q2 * (-p1) == 0) by (nonlinear_arith);
}

/// The triple with its axes rotated: `(y, z, x)`.
pub open spec fn rot(a: V3) -> V3 {
    (a.1, a.2, a.0)
}

/// Cramer's rule for `[-d, e1, e2] (t, u, v) = tv`, multiplied through by the
/// determinant.
proof fn lemma_cramer(d: V3, e1: V3, e2: V3, tv: V3)
    ensures
        ({
            let pv = cross3(d, e2);
            let det = dot3(e1, pv);
            let q = cross3(tv, e1);
            let u = dot3(tv, pv);
            let v = dot3(d, q);
            let t = dot3(e2, q);
            &&& det * tv.0 + t * d.0 == u * e1.0 + v * e2.0
            &&& det * tv.1 + t * d.1 == u * e1.1 + v * e2.1
            &&& det * tv.2 + t * d.2 == u * e1.2 + v * e2.2
        }),
{
    lemma_cramer_first(e1, e2, tv, d);
    lemma_cramer_first(rot(e1), rot(e2), rot(tv), rot(d));
    lemma_cramer_first(rot(rot(e1)), rot(rot(e2)), rot(rot(tv)), rot(rot(d)));
    assert(dot3(rot(e1), cross3(rot(d), rot(e2))) == dot3(e1, cross3(d, e2)));
    assert(dot3(rot(e2), cross3(rot(tv), rot(e1))) == dot3(e2, cross3(tv, e1)));
    assert(dot3(rot(tv), cross3(rot(d), rot(e2))) == dot3(tv, cross3(d, e2)));
    assert(dot3(rot(d), cross3(rot(tv), rot(e1))) == dot3(d, cross3(tv, e1)));
    assert(dot3(rot(rot(e1)), cross3(rot(rot(d)), rot(rot(e2)))) == dot3(e1, cross3(d, e2)));
    assert(dot3(rot(rot(e2)), cross3(rot(rot(tv)), rot(rot(e1)))) == dot3(e2, cross3(tv, e1)));
    assert(dot3(rot(rot(tv)), cross3(rot(rot(d)), rot(rot(e2)))) == dot3(tv, cross3(d, e2)));
    assert(dot3(rot(rot(d)), cross3(rot(rot(tv)), rot(rot(e1)))) == dot3(d, cross3(tv, e1)));
}

} // verus!
