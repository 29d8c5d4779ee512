//! Axis-aligned bounding boxes and the slab test.
use vstd::prelude::*;
use crate::geometry::{coord, Point, Triangle};
use crate::ray::{
    crossing, crossing_identity, frac_le, lemma_crossing_point, lemma_frac_le_trans, solve, Frac,
    Ray,
};

verus! {

/// A box `min <= p <= max` on each axis (0: x, 1: y, 2: z). The empty box has
/// `min = i32::MAX` and `max = i32::MIN` on every axis.
#[derive(Clone, Copy, Debug)]
pub struct BoundingBox {
    pub min: [i32; 3],
    pub max: [i32; 3],
}

pub open spec fn spec_min(a: int, b: int) -> int {
    if a <= b {
        a
    } else {
        b
    }
}

pub open spec fn spec_max(a: int, b: int) -> int {
    if a >= b {
        a
    } else {
        b
    }
}

/// At `n / den`, the coordinate `o + t * d` lies in `[mn, mx]`: for `d != 0`,
/// `t` lies between the parameters at which the line crosses `mn` and `mx`.
pub open spec fn slab_holds(mn: int, mx: int, o: int, d: int, n: int, den: int) -> bool {
    if d == 0 {
        mn <= o <= mx
    } else if d > 0 {
        frac_le(mn - o, d, n, den) && frac_le(n, den, mx - o, d)
    } else {
        frac_le(o - mx, -d, n, den) && frac_le(n, den, o - mn, -d)
    }
}

/// The empty box: above every point on the low side, below on the high side.
pub open spec fn empty_box() -> BoundingBox {
    BoundingBox { min: [i32::MAX, i32::MAX, i32::MAX], max: [i32::MIN, i32::MIN, i32::MIN] }
}

/// Component-wise minimum of the minima and maximum of the maxima.
pub open spec fn union_box(a: BoundingBox, b: BoundingBox) -> BoundingBox {
    BoundingBox {
        min: [
            spec_min(a.min[0] as int, b.min[0] as int) as i32,
            spec_min(a.min[1] as int, b.min[1] as int) as i32,
            spec_min(a.min[2] as int, b.min[2] as int) as i32,
        ],
        max: [
            spec_max(a.max[0] as int, b.max[0] as int) as i32,
            spec_max(a.max[1] as int, b.max[1] as int) as i32,
            spec_max(a.max[2] as int, b.max[2] as int) as i32,
        ],
    }
}

impl BoundingBox {
    /// Each coordinate of `p` lies within the box on its axis.
    pub open spec fn contains_point(&self, p: Point) -> bool {
        forall|a: int|
            0 <= a < 3 ==> self.min[a] <= #[trigger] coord(p@, a) <= self.max[a]
    }

    /// The box contains the three vertices of `t`.
    pub open spec fn contains_triangle(&self, t: Triangle) -> bool {
        &&& self.contains_point(t.p[0])
        &&& self.contains_point(t.p[1])
        &&& self.contains_point(t.p[2])
    }

    /// The ray parameter at which the ray enters the slab of `axis`, as
    /// `(num, den)`; meaningful when the direction on `axis` is not zero.
    pub open spec fn enter(&self, ray: Ray, a: int) -> (int, int) {
        let (o, d) = (coord(ray.origin@, a), coord(ray.dir@, a));
        if d > 0 {
            (self.min[a] - o, d)
        } else {
            (o - self.max[a], -d)
        }
    }

    /// The ray parameter at which the ray leaves the slab of `axis`.
    pub open spec fn exit(&self, ray: Ray, a: int) -> (int, int) {
        let (o, d) = (coord(ray.origin@, a), coord(ray.dir@, a));
        if d > 0 {
            (self.max[a] - o, d)
        } else {
            (o - self.min[a], -d)
        }
    }

    /// At `num / den` the ray lies within the slab `min <= p <= max` of `axis`.
    pub open spec fn in_slab(&self, ray: Ray, a: int, num: int, den: int) -> bool {
        slab_holds(
            self.min[a] as int,
            self.max[a] as int,
            coord(ray.origin@, a),
            coord(ray.dir@, a),
            num,
            den,
        )
    }

    /// The slab test up to (not including) axis `upto`.
    pub open spec fn in_slabs_upto(&self, ray: Ray, upto: int, num: int, den: int) -> bool {
        &&& (upto > 0 ==> self.in_slab(ray, 0, num, den))
        &&& (upto > 1 ==> self.in_slab(ray, 1, num, den))
        &&& (upto > 2 ==> self.in_slab(ray, 2, num, den))
    }

    /// `num / den` is a parameter in `[lo, hi]` that passes the first `upto` slabs.
    pub open spec fn candidate(&self, ray: Ray, lo: Frac, hi: Option<Frac>, upto: int, num: int, den: int) -> bool {
        &&& den > 0
        &&& frac_le(lo.num as int, lo.den as int, num, den)
        &&& (hi matches Some(h) ==> frac_le(num, den, h.num as int, h.den as int))
        &&& self.in_slabs_upto(ray, upto, num, den)
    }

    /// What the slab test has established for axis `a` once it is done with it:
    /// `lo` is past the entry, `hi` before the exit.
    pub open spec fn axis_done(&self, ray: Ray, a: int, lo: Frac, hi: Option<Frac>) -> bool {
        if coord(ray.dir@, a) == 0 {
            self.min[a] <= coord(ray.origin@, a) <= self.max[a]
        } else {
            let (en, ed) = self.enter(ray, a);
            let (xn, xd) = self.exit(ray, a);
            &&& frac_le(en, ed, lo.num as int, lo.den as int)
            &&& hi matches Some(h) && frac_le(h.num as int, h.den as int, xn, xd)
        }
    }

    /// Some parameter `t` with `lo <= t <= hi` (no upper bound when `hi` is
    /// `None`) puts the ray inside the box.
    pub open spec fn admits(&self, ray: Ray, lo: Frac, hi: Option<Frac>) -> bool {
        exists|num: int, den: int| #[trigger] self.candidate(ray, lo, hi, 3, num, den)
    }

    /// On `axis`, the minimum and the maximum are both coordinates of points of `pts`.
    pub open spec fn tight_on(&self, pts: Seq<Point>, a: int) -> bool {
        &&& exists|i: int| 0 <= i < pts.len() && self.min[a] == coord(#[trigger] pts[i]@, a)
        &&& exists|i: int| 0 <= i < pts.len() && self.max[a] == coord(#[trigger] pts[i]@, a)
    }

    /// On `axis`, the minimum and the maximum are both coordinates of vertices
    /// of triangles of `tris`.
    pub open spec fn tight_on_triangles(&self, tris: Seq<Triangle>, a: int) -> bool {
        &&& exists|i: int, k: int|
            0 <= i < tris.len() && 0 <= k < 3 && self.min[a] == coord(#[trigger] tris[i].p[k]@, a)
        &&& exists|i: int, k: int|
            0 <= i < tris.len() && 0 <= k < 3 && self.max[a] == coord(#[trigger] tris[i].p[k]@, a)
    }

    /// The box is the smallest one around the triangles: the empty box for
    /// none, otherwise one that contains them all and whose every face touches
    /// a vertex.
    pub open spec fn encloses_exactly(&self, tris: Seq<Triangle>) -> bool {
        &&& tris.len() == 0 ==> *self == empty_box()
        &&& forall|i: int| 0 <= i < tris.len() ==> self.contains_triangle(#[trigger] tris[i])
        &&& tris.len() > 0 ==> forall|a: int| 0 <= a < 3 ==> #[trigger] self.tight_on_triangles(tris, a)
    }

    /// The box holding only the origin.
    pub fn new() -> (r: BoundingBox)
        ensures
            r.min == [0i32, 0, 0] && r.max == [0i32, 0, 0],
    {
        BoundingBox { min: [0, 0, 0], max: [0, 0, 0] }
    }

    /// The box that holds nothing: the identity of `union`.
    pub fn empty() -> (r: BoundingBox)
        ensures
            r == empty_box(),
    {
        BoundingBox { min: [i32::MAX, i32::MAX, i32::MAX], max: [i32::MIN, i32::MIN, i32::MIN] }
    }

    pub fn union(&self, o: &BoundingBox) -> (r: BoundingBox)
        ensures
            r == union_box(*self, *o),
    {
        let mut min = self.min;
        let mut max = self.max;
        let mut a: usize = 0;
        while a < 3
            invariant
                a <= 3,
                forall|k: int| 0 <= k < a ==> min[k] == spec_min(self.min[k] as int, o.min[k] as int),
                forall|k: int| 0 <= k < a ==> max[k] == spec_max(self.max[k] as int, o.max[k] as int),
                forall|k: int| a <= k < 3 ==> min[k] == self.min[k] && max[k] == self.max[k],
            decreases 3 - a,
        {
            if o.min[a] < min[a] {
                min[a] = o.min[a];
            }
            if o.max[a] > max[a] {
                max[a] = o.max[a];
            }
            a = a + 1;
        }
        let r = BoundingBox { min, max };
        assert(r.min =~= union_box(*self, *o).min);
        assert(r.max =~= union_box(*self, *o).max);
        r
    }

    /// Grows the box to hold `p`.
    fn add_point(&mut self, p: &Point)
        ensures
            forall|a: int|
                0 <= a < 3 ==> final(self).min[a] == spec_min(old(self).min[a] as int, coord(p@, a))
                    && final(self).max[a] == spec_max(old(self).max[a] as int, coord(p@, a)),
    {
        let mut a: usize = 0;
        while a < 3
            invariant
                a <= 3,
                forall|k: int|
                    0 <= k < a ==> self.min[k] == spec_min(old(self).min[k] as int, coord(p@, k))
                        && self.max[k] == spec_max(old(self).max[k] as int, coord(p@, k)),
                forall|k: int| a <= k < 3 ==> self.min[k] == old(self).min[k] && self.max[k] == old(self).max[k],
            decreases 3 - a,
        {
            let c = p.get(a) as i32;
            if c < self.min[a] {
                self.min[a] = c;
            }
            if c > self.max[a] {
                self.max[a] = c;
            }
            a = a + 1;
        }
    }

    /// The smallest box that holds every point; the empty box for no points.
    pub fn enclosing(points: &Vec<Point>) -> (r: BoundingBox)
        ensures
            points.len() == 0 ==> r == empty_box(),
            forall|i: int| 0 <= i < points.len() ==> r.contains_point(#[trigger] points[i]),
            points.len() > 0 ==> forall|a: int| 0 <= a < 3 ==> #[trigger] r.tight_on(points@, a),
    {
        let mut b = BoundingBox::empty();
        let mut i: usize = 0;
        while i < points.len()
            invariant
                i <= points.len(),
                i == 0 ==> b == empty_box(),
                forall|j: int| 0 <= j < i ==> b.contains_point(#[trigger] points[j]),
                i > 0 ==> forall|a: int| 0 <= a < 3 ==> #[trigger] b.tight_on(points@.take(i as int), a),
            decreases points.len() - i,
        {
            let ghost prev = b;
            b.add_point(&points[i]);
            let ghost pre = points@.take(i as int);
            let ghost cur = points@.take(i + 1);
            assert forall|a: int| 0 <= a < 3 implies #[trigger] b.tight_on(cur, a) by {
                assert(cur[i as int] == points[i as int]);
                assert(forall|j: int| 0 <= j < i ==> cur[j] == pre[j]);
                if i == 0 {
                    assert(b.min[a] == coord(cur[0]@, a));
                    assert(b.max[a] == coord(cur[0]@, a));
                } else {
                    assert(prev.tight_on(pre, a));
                    let jn = choose|j: int| 0 <= j < pre.len() && prev.min[a] == coord(#[trigger] pre[j]@, a);
                    let jx = choose|j: int| 0 <= j < pre.len() && prev.max[a] == coord(#[trigger] pre[j]@, a);
                    if b.min[a] == prev.min[a] {
                        assert(b.min[a] == coord(cur[jn]@, a));
                    } else {
                        assert(b.min[a] == coord(cur[i as int]@, a));
                    }
                    if b.max[a] == prev.max[a] {
                        assert(b.max[a] == coord(cur[jx]@, a));
                    } else {
                        assert(b.max[a] == coord(cur[i as int]@, a));
                    }
                }
            }
            i = i + 1;
        }
        assert(points@.take(points.len() as int) =~= points@);
        b
    }

    /// The smallest box that holds every vertex of every triangle; the empty
    /// box for no triangles.
    pub fn around(triangles: &Vec<Triangle>) -> (r: BoundingBox)
        ensures
            triangles.len() == 0 ==> r == empty_box(),
            forall|i: int| 0 <= i < triangles.len() ==> r.contains_triangle(#[trigger] triangles[i]),
            triangles.len() > 0 ==> forall|a: int|
                0 <= a < 3 ==> #[trigger] r.tight_on_triangles(triangles@, a),
            r.encloses_exactly(triangles@),
    {
        let mut pts: Vec<Point> = Vec::new();
        let mut i: usize = 0;
        while i < triangles.len()
            invariant
                i <= triangles.len(),
                pts.len() == 3 * i,
                forall|m: int| 0 <= m < pts.len() ==> #[trigger] pts[m] == triangles[m / 3].p[m % 3],
            decreases triangles.len() - i,
        {
            let t = &triangles[i];
            pts.push(t.p[0]);
            pts.push(t.p[1]);
            pts.push(t.p[2]);
            i = i + 1;
        }
        let b = BoundingBox::enclosing(&pts);
        assert forall|j: int| 0 <= j < triangles.len() implies b.contains_triangle(#[trigger] triangles[j]) by {
            assert(pts[3 * j] == triangles[j].p[0]);
            assert(pts[3 * j + 1] == triangles[j].p[1]);
            assert(pts[3 * j + 2] == triangles[j].p[2]);
            assert(b.contains_point(pts[3 * j]));
            assert(b.contains_point(pts[3 * j + 1]));
            assert(b.contains_point(pts[3 * j + 2]));
        }
        if triangles.len() > 0 {
            assert forall|a: int| 0 <= a < 3 implies #[trigger] b.tight_on_triangles(triangles@, a) by {
                assert(b.tight_on(pts@, a));
                let mn = choose|m: int| 0 <= m < pts@.len() && b.min[a] == coord(#[trigger] pts@[m]@, a);
                let mx = choose|m: int| 0 <= m < pts@.len() && b.max[a] == coord(#[trigger] pts@[m]@, a);
                assert(pts[mn] == triangles@[mn / 3].p[mn % 3]);
                assert(pts[mx] == triangles@[mx / 3].p[mx % 3]);
                assert(b.min[a] == coord(triangles@[mn / 3].p[mn % 3]@, a));
                assert(b.max[a] == coord(triangles@[mx / 3].p[mx % 3]@, a));
            }
        }
        b
    }
}

impl BoundingBox {
    /// The slab test: whether some parameter in `[lo, hi]` puts the ray inside
    /// the box. The empty box admits no ray.
    pub fn intersects(&self, ray: &Ray, lo: Frac, hi: Option<Frac>) -> (r: bool)
        requires
            lo.wf(),
            hi matches Some(h) ==> h.wf(),
        ensures
            r == self.admits(*ray, lo, hi),
    {
        let ghost lo0 = lo;
        let ghost hi0 = hi;
        let mut lo = lo;
        let mut hi = hi;
        let mut a: usize = 0;
        while a < 3
            invariant
                a <= 3,
                lo.wf(),
                hi matches Some(h) ==> h.wf(),
                lo0.wf(),
                hi0 matches Some(h0) ==> h0.wf(),
                lo0.le_spec(lo),
                hi0 matches Some(h0) ==> (hi matches Some(h) && h.le_spec(h0)),
                forall|k: int| 0 <= k < a ==> #[trigger] self.axis_done(*ray, k, lo, hi),
                forall|n: int, d: int|
                    #[trigger] self.candidate(*ray, lo0, hi0, a as int, n, d) ==> frac_le(
                        lo.num as int,
                        lo.den as int,
                        n,
                        d,
                    ) && (hi matches Some(h) ==> frac_le(n, d, h.num as int, h.den as int)),
            decreases 3 - a,
        {
            let o = ray.origin.get(a) as i64;
            let d = ray.dir.get(a) as i64;
            let mn = self.min[a] as i64;
            let mx = self.max[a] as i64;
            let ghost lo1 = lo;
            let ghost hi1 = hi;
            if d == 0 {
                if o < mn || o > mx {
                    proof {
                        if self.admits(*ray, lo0, hi0) {
                            let (n, dd) = choose|n: int, dd: int| self.candidate(*ray, lo0, hi0, 3, n, dd);
                            assert(self.in_slab(*ray, a as int, n, dd));
                        }
                    }
                    return false;
                }
            } else {
                let enter = if d > 0 {
                    Frac { num: mn - o, den: d }
                } else {
                    Frac { num: o - mx, den: -d }
                };
                let exit = if d > 0 {
                    Frac { num: mx - o, den: d }
                } else {
                    Frac { num: o - mn, den: -d }
                };
                if lo.lt(&enter) {
                    lo = enter;
                }
                hi = match hi {
                    None => Some(exit),
                    Some(h) => if exit.lt(&h) {
                        Some(exit)
                    } else {
                        Some(h)
                    },
                };
            }
            proof {
                let ai = a as int;
                if d == 0 {
                    assert forall|n: int, dd: int|
                        #[trigger] self.candidate(*ray, lo0, hi0, ai + 1, n, dd) implies frac_le(
                            lo.num as int,
                            lo.den as int,
                            n,
                            dd,
                        ) && (hi matches Some(h) ==> frac_le(n, dd, h.num as int, h.den as int)) by {
                        assert(self.candidate(*ray, lo0, hi0, ai, n, dd));
                    }
                } else {
                    let (en, ed) = self.enter(*ray, ai);
                    let (xn, xd) = self.exit(*ray, ai);
                    let h = hi->Some_0;
                    // lo is the larger of lo1 and the entry; hi the smaller of hi1 and the exit
                    assert(frac_le(lo1.num as int, lo1.den as int, lo.num as int, lo.den as int));
                    assert(frac_le(en, ed, lo.num as int, lo.den as int));
                    assert(frac_le(h.num as int, h.den as int, xn, xd));
                    assert(hi1 matches Some(h1) ==> frac_le(h.num as int, h.den as int, h1.num as int, h1.den as int));
                    lemma_frac_le_trans(lo0.num as int, lo0.den as int, lo1.num as int, lo1.den as int, lo.num as int, lo.den as int);
                    if let Some(h0) = hi0 {
                        let h1 = hi1->Some_0;
                        lemma_frac_le_trans(h.num as int, h.den as int, h1.num as int, h1.den as int, h0.num as int, h0.den as int);
                    }
                    assert forall|k: int| 0 <= k < ai + 1 implies #[trigger] self.axis_done(*ray, k, lo, hi) by {
                        if k < ai && coord(ray.dir@, k) != 0 {
                            assert(self.axis_done(*ray, k, lo1, hi1));
                            let (ekn, ekd) = self.enter(*ray, k);
                            let (xkn, xkd) = self.exit(*ray, k);
                            let h1 = hi1->Some_0;
                            lemma_frac_le_trans(ekn, ekd, lo1.num as int, lo1.den as int, lo.num as int, lo.den as int);
                            lemma_frac_le_trans(h.num as int, h.den as int, h1.num as int, h1.den as int, xkn, xkd);
                        } else if k < ai {
                            assert(self.axis_done(*ray, k, lo1, hi1));
                        }
                    }
                    assert forall|n: int, dd: int|
                        #[trigger] self.candidate(*ray, lo0, hi0, ai + 1, n, dd) implies frac_le(
                            lo.num as int,
                            lo.den as int,
                            n,
                            dd,
                        ) && (hi matches Some(h) ==> frac_le(n, dd, h.num as int, h.den as int)) by {
                        assert(self.candidate(*ray, lo0, hi0, ai, n, dd));
                        assert(self.in_slab(*ray, ai, n, dd));
                    }
                }
            }
            a = a + 1;
        }
        match hi {
            None => {
                proof {
                    let (n, dd) = (lo.num as int, lo.den as int);
                    assert forall|k: int| 0 <= k < 3 implies #[trigger] self.in_slab(*ray, k, n, dd) by {
                        assert(self.axis_done(*ray, k, lo, hi));
                    }
                    assert(self.candidate(*ray, lo0, hi0, 3, n, dd));
                }
                true
            },
            Some(h) => {
                let r = lo.le(&h);
                proof {
                    if r {
                        let (n, dd) = (lo.num as int, lo.den as int);
                        assert forall|k: int| 0 <= k < 3 implies #[trigger] self.in_slab(*ray, k, n, dd) by {
                            assert(self.axis_done(*ray, k, lo, hi));
                            if coord(ray.dir@, k) != 0 {
                                let (xkn, xkd) = self.exit(*ray, k);
                                lemma_frac_le_trans(n, dd, h.num as int, h.den as int, xkn, xkd);
                            }
                        }
                        if let Some(h0) = hi0 {
                            lemma_frac_le_trans(n, dd, h.num as int, h.den as int, h0.num as int, h0.den as int);
                        }
                        assert(self.candidate(*ray, lo0, hi0, 3, n, dd));
                    } else if self.admits(*ray, lo0, hi0) {
                        let (n, dd) = choose|n: int, dd: int| self.candidate(*ray, lo0, hi0, 3, n, dd);
                        lemma_frac_le_trans(lo.num as int, lo.den as int, n, dd, h.num as int, h.den as int);
                    }
                }
                r
            },
        }
    }
}

/// Where the ray crosses a triangle that the box contains, the ray is inside
/// every slab of the box: the slab test never prunes such a crossing.
pub proof fn lemma_crossing_in_box(b: BoundingBox, tri: Triangle, ray: Ray, n: int, d: int)
    requires
        b.contains_triangle(tri),
        crossing(tri, ray) == Some((n, d)),
    ensures
        d > 0,
        b.in_slabs_upto(ray, 3, n, d),
{
    let (det, u, v, t) = solve(tri, ray);
    lemma_crossing_point(tri, ray);
    assert forall|a: int| 0 <= a < 3 implies #[trigger] b.in_slab(ray, a, n, d) by {
        assert(crossing_identity(tri, ray, a));
        let (x0, x1, x2) = (coord(tri.p[0]@, a), coord(tri.p[1]@, a), coord(tri.p[2]@, a));
        assert(b.contains_point(tri.p[0]) && b.min[a] <= x0 <= b.max[a]);
        assert(b.contains_point(tri.p[1]) && b.min[a] <= x1 <= b.max[a]);
        assert(b.contains_point(tri.p[2]) && b.min[a] <= x2 <= b.max[a]);
        lemma_convex(det - u - v, u, v, x0, x1, x2, b.min[a] as int, b.max[a] as int);
        lemma_slab_from_point(
            b.min[a] as int,
            b.max[a] as int,
            coord(ray.origin@, a),
            coord(ray.dir@, a),
            t,
            det,
        );
    }
    assert(b.in_slab(ray, 0, n, d));
    assert(b.in_slab(ray, 1, n, d));
    assert(b.in_slab(ray, 2, n, d));
}

/// A weighted sum with non-negative weights lies between the weights' total
/// times a lower and times an upper bound of the terms.
proof fn lemma_convex(w0: int, w1: int, w2: int, x0: int, x1: int, x2: int, lo: int, hi: int)
    requires
        w0 >= 0,
        w1 >= 0,
        w2 >= 0,
        lo <= x0 <= hi,
        lo <= x1 <= hi,
        lo <= x2 <= hi,
    ensures
        (w0 + w1 + w2) * lo <= w0 * x0 + w1 * x1 + w2 * x2 <= (w0 + w1 + w2) * hi,
{
    lemma_scale_between(w0, x0, lo, hi);
    lemma_scale_between(w1, x1, lo, hi);
    lemma_scale_between(w2, x2, lo, hi);
    assert((w0 + w1 + w2) * lo == w0 * lo + w1 * lo + w2 * lo) by (nonlinear_arith);
    assert((w0 + w1 + w2) * hi == w0 * hi + w1 * hi + w2 * hi) by (nonlinear_arith);
}

proof fn lemma_scale_between(w: int, x: int, lo: int, hi: int)
    requires
        w >= 0,
        lo <= x <= hi,
    ensures
        w * lo <= w * x <= w * hi,
{
    assert(w * lo <= w * x) by (nonlinear_arith)
        requires
            w >= 0,
            lo <= x,
    ;
    assert(w * x <= w * hi) by (nonlinear_arith)
        requires
            w >= 0,
            x <= hi,
    ;
}

/// A point `o + (n / den) * d` between `mn` and `mx`, scaled by `den`, passes
/// the slab test of that axis.
proof fn lemma_slab_from_point(mn: int, mx: int, o: int, d: int, n: int, den: int)
    requires
        den > 0,
        den * mn <= den * o + n * d <= den * mx,
    ensures
        slab_holds(mn, mx, o, d, n, den),
{
    if d == 0 {
        assert(n * d == 0) by (nonlinear_arith)
            requires
                d == 0,
        ;
        assert(mn <= o) by (nonlinear_arith)
            requires
                den > 0,
                den * mn <= den * o,
        ;
        assert(o <= mx) by (nonlinear_arith)
            requires
                den > 0,
                den * o <= den * mx,
        ;
    } else {
        assert((mn - o) * den == den * mn - den * o) by (nonlinear_arith);
        assert((mx - o) * den == den * mx - den * o) by (nonlinear_arith);
        assert((o - mx) * den == den * o - den * mx) by (nonlinear_arith);
        assert((o - mn) * den == den * o - den * mn) by (nonlinear_arith);
        assert(n * (-d) == -(n * d)) by (nonlinear_arith);
    }
}

/// The empty box is an identity of `union`.
pub proof fn lemma_union_empty(a: BoundingBox)
    ensures
        union_box(a, empty_box()) == a,
{
    assert(union_box(a, empty_box()).min =~= a.min);
    assert(union_box(a, empty_box()).max =~= a.max);
}

/// `union` is commutative.
pub proof fn lemma_union_commutative(a: BoundingBox, b: BoundingBox)
    ensures
        union_box(a, b) == union_box(b, a),
{
    assert(union_box(a, b).min =~= union_box(b, a).min);
    assert(union_box(a, b).max =~= union_box(b, a).max);
}

/// `union` is associative.
pub proof fn lemma_union_associative(a: BoundingBox, b: BoundingBox, c: BoundingBox)
    ensures
        union_box(union_box(a, b), c) == union_box(a, union_box(b, c)),
{
    assert(union_box(union_box(a, b), c).min =~= union_box(a, union_box(b, c)).min);
    assert(union_box(union_box(a, b), c).max =~= union_box(a, union_box(b, c)).max);
}

/// The union contains whatever either box contains.
pub proof fn lemma_union_contains(a: BoundingBox, b: BoundingBox, p: Point)
    requires
        a.contains_point(p) || b.contains_point(p),
    ensures
        union_box(a, b).contains_point(p),
{
    let u = union_box(a, b);
    assert forall|k: int| 0 <= k < 3 implies u.min[k] <= #[trigger] coord(p@, k) <= u.max[k] by {
        if a.contains_point(p) {
            assert(a.min[k] <= coord(p@, k) <= a.max[k]);
        } else {
            assert(b.min[k] <= coord(p@, k) <= b.max[k]);
        }
    }
}

/// The smallest box around a concatenation is the union of the smallest
/// boxes around its parts.
pub proof fn lemma_around_concat(
    xs: Seq<Triangle>,
    ys: Seq<Triangle>,
    a: BoundingBox,
    b: BoundingBox,
    c: BoundingBox,
)
    requires
        a.encloses_exactly(xs),
        b.encloses_exactly(ys),
        c.encloses_exactly(xs + ys),
    ensures
        c == union_box(a, b),
{
    let zs = xs + ys;
    if xs.len() == 0 {
        assert(zs =~= ys);
        assert(forall|i: int| 0 <= i < ys.len() ==> ys.contains(#[trigger] ys[i]));
        lemma_enclosing_same_triangles(zs, ys, c, b);
        lemma_union_commutative(a, b);
        lemma_union_empty(b);
        return;
    }
    if ys.len() == 0 {
        assert(zs =~= xs);
        assert(forall|i: int| 0 <= i < xs.len() ==> xs.contains(#[trigger] xs[i]));
        lemma_enclosing_same_triangles(zs, xs, c, a);
        lemma_union_empty(a);
        return;
    }
    let u = union_box(a, b);
    assert forall|ax: int| 0 <= ax < 3 implies c.min[ax] == u.min[ax] && c.max[ax] == u.max[ax] by {
        assert(a.tight_on_triangles(xs, ax));
        assert(b.tight_on_triangles(ys, ax));
        assert(c.tight_on_triangles(zs, ax));
        // the extremes of the parts are vertices of the whole, so inside c
        let (ia, ka) = choose|i: int, k: int|
            0 <= i < xs.len() && 0 <= k < 3 && a.min[ax] == coord(#[trigger] xs[i].p[k]@, ax);
        let (ib, kb) = choose|i: int, k: int|
            0 <= i < ys.len() && 0 <= k < 3 && b.min[ax] == coord(#[trigger] ys[i].p[k]@, ax);
        let (ja, la) = choose|i: int, k: int|
            0 <= i < xs.len() && 0 <= k < 3 && a.max[ax] == coord(#[trigger] xs[i].p[k]@, ax);
        let (jb, lb) = choose|i: int, k: int|
            0 <= i < ys.len() && 0 <= k < 3 && b.max[ax] == coord(#[trigger] ys[i].p[k]@, ax);
        assert(zs[ia] == xs[ia] && c.contains_triangle(zs[ia]) && c.contains_point(zs[ia].p[ka]));
        assert(zs[xs.len() + ib] == ys[ib] && c.contains_triangle(zs[xs.len() + ib]));
        assert(c.contains_point(zs[xs.len() + ib].p[kb]));
        assert(zs[ja] == xs[ja] && c.contains_triangle(zs[ja]) && c.contains_point(zs[ja].p[la]));
        assert(zs[xs.len() + jb] == ys[jb] && c.contains_triangle(zs[xs.len() + jb]));
        assert(c.contains_point(zs[xs.len() + jb].p[lb]));
        // the extremes of c are vertices of one part, so inside a or b
        let (ic, kc) = choose|i: int, k: int|
            0 <= i < zs.len() && 0 <= k < 3 && c.min[ax] == coord(#[trigger] zs[i].p[k]@, ax);
        let (jc, lc) = choose|i: int, k: int|
            0 <= i < zs.len() && 0 <= k < 3 && c.max[ax] == coord(#[trigger] zs[i].p[k]@, ax);
        if ic < xs.len() {
            assert(zs[ic] == xs[ic] && a.contains_triangle(xs[ic]) && a.contains_point(xs[ic].p[kc]));
        } else {
            assert(zs[ic] == ys[ic - xs.len()] && b.contains_triangle(ys[ic - xs.len()]));
            assert(b.contains_point(ys[ic - xs.len()].p[kc]));
        }
        if jc < xs.len() {
            assert(zs[jc] == xs[jc] && a.contains_triangle(xs[jc]) && a.contains_point(xs[jc].p[lc]));
        } else {
            assert(zs[jc] == ys[jc - xs.len()] && b.contains_triangle(ys[jc - xs.len()]));
            assert(b.contains_point(ys[jc - xs.len()].p[lc]));
        }
    }
    assert(c.min =~= u.min);
    assert(c.max =~= u.max);
}

/// Lists that hold the same triangles have the same smallest box.
pub proof fn lemma_enclosing_same_triangles(s1: Seq<Triangle>, s2: Seq<Triangle>, c: BoundingBox, d: BoundingBox)
    requires
        c.encloses_exactly(s1),
        d.encloses_exactly(s2),
        forall|i: int| 0 <= i < s1.len() ==> s2.contains(#[trigger] s1[i]),
        forall|i: int| 0 <= i < s2.len() ==> s1.contains(#[trigger] s2[i]),
    ensures
        c == d,
{
    if s1.len() == 0 {
        if s2.len() > 0 {
            assert(s1.contains(s2[0]));
        }
        return;
    }
    assert(s2.contains(s1[0]));
    assert forall|ax: int| 0 <= ax < 3 implies c.min[ax] == d.min[ax] && c.max[ax] == d.max[ax] by {
        assert(c.tight_on_triangles(s1, ax));
        assert(d.tight_on_triangles(s2, ax));
        let (i1, k1) = choose|i: int, k: int|
            0 <= i < s1.len() && 0 <= k < 3 && c.min[ax] == coord(#[trigger] s1[i].p[k]@, ax);
        let (j1, l1) = choose|i: int, k: int|
            0 <= i < s1.len() && 0 <= k < 3 && c.max[ax] == coord(#[trigger] s1[i].p[k]@, ax);
        let (i2, k2) = choose|i: int, k: int|
            0 <= i < s2.len() && 0 <= k < 3 && d.min[ax] == coord(#[trigger] s2[i].p[k]@, ax);
        let (j2, l2) = choose|i: int, k: int|
            0 <= i < s2.len() && 0 <= k < 3 && d.max[ax] == coord(#[trigger] s2[i].p[k]@, ax);
        assert(s2.contains(s1[i1]));
        let p1 = choose|p: int| 0 <= p < s2.len() && s2[p] == s1[i1];
        assert(d.contains_triangle(s2[p1]) && d.contains_point(s1[i1].p[k1]));
        assert(s2.contains(s1[j1]));
        let q1 = choose|p: int| 0 <= p < s2.len() && s2[p] == s1[j1];
        assert(d.contains_triangle(s2[q1]) && d.contains_point(s1[j1].p[l1]));
        assert(s1.contains(s2[i2]));
        let p2 = choose|p: int| 0 <= p < s1.len() && s1[p] == s2[i2];
        assert(c.contains_triangle(s1[p2]) && c.contains_point(s2[i2].p[k2]));
        assert(s1.contains(s2[j2]));
        let q2 = choose|p: int| 0 <= p < s1.len() && s1[p] == s2[j2];
        assert(c.contains_triangle(s1[q2]) && c.contains_point(s2[j2].p[l2]));
    }
    assert(c.min =~= d.min);
    assert(c.max =~= d.max);
}

/// The smallest box around two lists does not depend on their order.
pub proof fn lemma_around_order(xs: Seq<Triangle>, ys: Seq<Triangle>, c: BoundingBox, d: BoundingBox)
    requires
        c.encloses_exactly(xs + ys),
        d.encloses_exactly(ys + xs),
    ensures
        c == d,
{
    let (s1, s2) = (xs + ys, ys + xs);
    assert forall|i: int| 0 <= i < s1.len() implies s2.contains(#[trigger] s1[i]) by {
        if i < xs.len() {
            assert(s2[ys.len() + i] == s1[i]);
        } else {
            assert(s2[i - xs.len()] == s1[i]);
        }
    }
    assert forall|i: int| 0 <= i < s2.len() implies s1.contains(#[trigger] s2[i]) by {
        if i < ys.len() {
            assert(s1[xs.len() + i] == s2[i]);
        } else {
            assert(s1[i - ys.len()] == s2[i]);
        }
    }
    lemma_enclosing_same_triangles(s1, s2, c, d);
}

} // verus!
