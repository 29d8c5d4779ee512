use raytracer::geometry::{Point, Triangle, Vector};
use raytracer::ray::{barycentric, intersect_triangle, Barycentric, Frac, Ray};

fn pt(x: i16, y: i16, z: i16) -> Point {
    Point::new(x, y, z)
}

#[test]
fn test() {
    let t = Triangle::new(pt(-1, 0, 0), pt(1, 0, 0), pt(0, 1, 0));
    println!("{:?}", t);
    assert_eq!(t.n[0], Vector::new(0, 0, 2));
    assert_eq!(t.n[1], t.n[0]);
    assert_eq!(t.n[2], t.n[0]);
}

#[test]
fn with_normals_keeps_the_normals() {
    let n = [Vector::new(0, 0, 1), Vector::new(0, 1, 1), Vector::new(1, 0, 1)];
    let t = Triangle::with_normals([pt(0, 0, 0), pt(1, 0, 0), pt(0, 1, 0)], n);
    assert_eq!(t.n, n);
    assert_eq!(t.p[1], pt(1, 0, 0));
}

#[test]
fn centroid_is_tripled() {
    let t = Triangle::new(pt(0, 3, -1), pt(3, 0, 4), pt(6, 3, 0));
    assert_eq!(t.centroid3(0), 9);
    assert_eq!(t.centroid3(1), 6);
    assert_eq!(t.centroid3(2), 3);
}

#[test]
fn triangle_hit_distance_is_exact() {
    let t = Triangle::new(pt(0, 0, 0), pt(3, 0, 0), pt(0, 3, 0));
    let r = Ray::new(pt(1, 1, 7), pt(0, 0, -2));
    let f = intersect_triangle(&t, &r).unwrap();
    // 7 / 2
    assert_eq!(f.num * 2, 7 * f.den);
    let miss = Ray::new(pt(3, 3, 7), pt(0, 0, -2));
    assert_eq!(intersect_triangle(&t, &miss), None);
    let behind = Ray::new(pt(1, 1, 7), pt(0, 0, 2));
    assert_eq!(intersect_triangle(&t, &behind), None);
}

#[test]
fn triangle_hit_respects_bounds() {
    let t = Triangle::new(pt(0, 0, 0), pt(3, 0, 0), pt(0, 3, 0));
    let short = Ray::bounded(pt(1, 1, 7), pt(0, 0, -1), Frac::new(0, 1), Frac::new(7, 1));
    assert_eq!(intersect_triangle(&t, &short), None);
    let long = Ray::bounded(pt(1, 1, 7), pt(0, 0, -1), Frac::new(0, 1), Frac::new(15, 2));
    assert!(intersect_triangle(&t, &long).is_some());
    let late = Ray::bounded(pt(1, 1, 7), pt(0, 0, -1), Frac::new(7, 1), Frac::new(100, 1));
    assert_eq!(intersect_triangle(&t, &late), None);
}

#[test]
fn degenerate_triangle_is_never_hit() {
    let t = Triangle::new(pt(0, 0, 0), pt(1, 1, 0), pt(2, 2, 0));
    let r = Ray::new(pt(1, 1, 5), pt(0, 0, -1));
    assert_eq!(intersect_triangle(&t, &r), None);
    let still = Ray::new(pt(1, 1, 5), pt(0, 0, 0));
    let u = Triangle::new(pt(0, 0, 0), pt(3, 0, 0), pt(0, 3, 0));
    assert_eq!(intersect_triangle(&u, &still), None);
}

#[test]
fn fractions_compare_exactly() {
    let a = Frac::new(1, 3);
    let b = Frac::new(2, 6);
    let c = Frac::new(1, 2);
    assert!(a.le(&b) && b.le(&a));
    assert!(!a.lt(&b));
    assert!(a.lt(&c));
    assert!(!c.le(&a));
    assert!(Frac::new(i64::MIN, 1).lt(&Frac::new(i64::MAX, i64::MAX)));
}

#[test]
fn barycentric_coordinates_of_a_crossing() {
    let t = Triangle::new(pt(0, 0, 0), pt(4, 0, 0), pt(0, 4, 0));
    let r = Ray::new(pt(1, 2, 5), pt(0, 0, -1));
    let b = barycentric(&t, &r).unwrap();
    // u / den = 1/4 toward p1, v / den = 2/4 toward p2
    assert_eq!(b.u * 4, b.den);
    assert_eq!(b.v * 2, b.den);
    assert_eq!(barycentric(&t, &Ray::new(pt(4, 4, 5), pt(0, 0, -1))), None);
    let c = barycentric(&t, &Ray::new(pt(0, 0, 5), pt(0, 0, -1))).unwrap();
    assert_eq!(c, Barycentric { u: 0, v: 0, den: c.den });
    assert!(c.den > 0);
}
