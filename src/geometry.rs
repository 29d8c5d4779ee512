//! Grid points, wide vectors and triangles.
use vstd::prelude::*;

verus! {

/// A position (or a ray direction) on the integer grid.
#[derive(Clone, Copy, Debug, PartialEq, Eq, Structural)]
pub struct Point {
    pub x: i16,
    pub y: i16,
    pub z: i16,
}

/// A vector with wide components: normals and products of grid vectors.
#[derive(Clone, Copy, Debug, PartialEq, Eq, Structural)]
pub struct Vector {
    pub x: i64,
    pub y: i64,
    pub z: i64,
}

/// A spec-level triple of integers.
pub type V3 = (int, int, int);

/// `a - b`.
pub open spec fn sub3(a: V3, b: V3) -> V3 {
    (a.0 - b.0, a.1 - b.1, a.2 - b.2)
}

/// The cross product `a × b`.
pub open spec fn cross3(a: V3, b: V3) -> V3 {
    (a.1 * b.2 - a.2 * b.1, a.2 * b.0 - a.0 * b.2, a.0 * b.1 - a.1 * b.0)
}

/// The dot product `a · b`.
pub open spec fn dot3(a: V3, b: V3) -> int {
    a.0 * b.0 + a.1 * b.1 + a.2 * b.2
}

/// Component `axis` (0, 1 or 2) of a triple.
pub open spec fn coord(a: V3, axis: int) -> int {
    if axis == 0 {
        a.0
    } else if axis == 1 {
        a.1
    } else {
        a.2
    }
}

/// Every component of `a` lies in `[-b, b]`.
pub open spec fn bounded3(a: V3, b: int) -> bool {
    -b <= a.0 <= b && -b <= a.1 <= b && -b <= a.2 <= b
}

impl Point {
    pub open spec fn view(&self) -> V3 {
        (self.x as int, self.y as int, self.z as int)
    }

    pub fn new(x: i16, y: i16, z: i16) -> (r: Point)
        ensures
            r.x == x && r.y == y && r.z == z,
    {
        Point { x, y, z }
    }

    /// Component `axis` (0, 1 or 2).
    pub fn get(&self, axis: usize) -> (r: i16)
        requires
            axis < 3,
        ensures
            r as int == coord(self@, axis as int),
    {
        if axis == 0 {
            self.x
        } else if axis == 1 {
            self.y
        } else {
            self.z
        }
    }

    /// `self - other`, widened.
    pub fn minus(&self, other: &Point) -> (r: Vector)
        ensures
            r@ == sub3(self@, other@),
            bounded3(r@, 0x10000),
    {
        Vector {
            x: self.x as i64 - other.x as i64,
            y: self.y as i64 - other.y as i64,
            z: self.z as i64 - other.z as i64,
        }
    }

    pub fn widen(&self) -> (r: Vector)
        ensures
            r@ == self@,
    {
        Vector { x: self.x as i64, y: self.y as i64, z: self.z as i64 }
    }
}

/// Bounds on two factors bound their product.
pub proof fn lemma_mul_bound(a: int, b: int, ba: int, bb: int)
    requires
        -ba <= a <= ba,
        -bb <= b <= bb,
    ensures
        -(ba * bb) <= a * b <= ba * bb,
{
    assert(-(ba * bb) <= a * b <= ba * bb) by (nonlinear_arith)
        requires
            -ba <= a <= ba,
            -bb <= b <= bb,
    ;
}

impl Vector {
    pub open spec fn view(&self) -> V3 {
        (self.x as int, self.y as int, self.z as int)
    }

    pub fn new(x: i64, y: i64, z: i64) -> (r: Vector)
        ensures
            r.x == x && r.y == y && r.z == z,
    {
        Vector { x, y, z }
    }

    /// Cross product of two vectors whose components are below 2^17.
    pub fn cross(&self, o: &Vector) -> (r: Vector)
        requires
            bounded3(self@, 0x20000),
            bounded3(o@, 0x20000),
        ensures
            r@ == cross3(self@, o@),
            bounded3(r@, 0x8_0000_0000),
    {
        proof {
            lemma_mul_bound(self.y as int, o.z as int, 0x20000, 0x20000);
            lemma_mul_bound(self.z as int, o.y as int, 0x20000, 0x20000);
            lemma_mul_bound(self.z as int, o.x as int, 0x20000, 0x20000);
            lemma_mul_bound(self.x as int, o.z as int, 0x20000, 0x20000);
            lemma_mul_bound(self.x as int, o.y as int, 0x20000, 0x20000);
            lemma_mul_bound(self.y as int, o.x as int, 0x20000, 0x20000);
        }
        Vector {
            x: self.y * o.z - self.z * o.y,
            y: self.z * o.x - self.x * o.z,
            z: self.x * o.y - self.y * o.x,
        }
    }

    /// Dot product of a vector below 2^17 with one below 2^35.
    pub fn dot(&self, o: &Vector) -> (r: i64)
        requires
            bounded3(self@, 0x20000),
            bounded3(o@, 0x8_0000_0000),
        ensures
            r == dot3(self@, o@),
            -0x40_0000_0000_0000 <= r <= 0x40_0000_0000_0000,
    {
        proof {
            lemma_mul_bound(self.x as int, o.x as int, 0x20000, 0x8_0000_0000);
            lemma_mul_bound(self.y as int, o.y as int, 0x20000, 0x8_0000_0000);
            lemma_mul_bound(self.z as int, o.z as int, 0x20000, 0x8_0000_0000);
        }
        self.x * o.x + self.y * o.y + self.z * o.z
    }
}

/// A triangle: three vertices and one normal per vertex.
#[derive(Clone, Copy, Debug)]
pub struct Triangle {
    pub p: [Point; 3],
    pub n: [Vector; 3],
}

/// The flat normal of a triangle: the cross product of its first two edges.
pub open spec fn face_normal(p: [Point; 3]) -> V3 {
    cross3(sub3(p[1]@, p[0]@), sub3(p[2]@, p[1]@))
}

/// Three times the centroid of a triangle, on one axis.
pub open spec fn centroid3(t: Triangle, axis: int) -> int {
    coord(t.p[0]@, axis) + coord(t.p[1]@, axis) + coord(t.p[2]@, axis)
}

impl Triangle {
    /// A triangle whose three normals are all its face normal.
    pub fn from_array(p: [Point; 3]) -> (r: Triangle)
        ensures
            r.p == p,
            r.n[0]@ == face_normal(p),
            r.n[1] == r.n[0],
            r.n[2] == r.n[0],
    {
        let e1 = p[1].minus(&p[0]);
        let e2 = p[2].minus(&p[1]);
        let normal = e1.cross(&e2);
        Triangle { p, n: [normal, normal, normal] }
    }

    pub fn new(a: Point, b: Point, c: Point) -> (r: Triangle)
        ensures
            r.p[0] == a && r.p[1] == b && r.p[2] == c,
            r.n[0]@ == face_normal([a, b, c]),
            r.n[1] == r.n[0],
            r.n[2] == r.n[0],
    {
        Triangle::from_array([a, b, c])
    }

    /// A triangle with the given per-vertex normals.
    pub fn with_normals(p: [Point; 3], n: [Vector; 3]) -> (r: Triangle)
        ensures
            r.p == p && r.n == n,
    {
        Triangle { p, n }
    }

    /// Three times the centroid on `axis`: the sum of the vertices' coordinates.
    pub fn centroid3(&self, axis: usize) -> (r: i32)
        requires
            axis < 3,
        ensures
            r as int == centroid3(*self, axis as int),
    {
        self.p[0].get(axis) as i32 + self.p[1].get(axis) as i32 + self.p[2].get(axis) as i32
    }
}

} // verus!
