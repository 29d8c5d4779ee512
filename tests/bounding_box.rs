use raytracer::bounding_box::BoundingBox;
use raytracer::geometry::{Point, Triangle};
use raytracer::ray::{Frac, Ray};

fn pt(x: i16, y: i16, z: i16) -> Point {
    Point::new(x, y, z)
}

// coordinates in half units
#[test]
fn testAround() {
    let b = BoundingBox::around(&vec![Triangle::new(pt(2, 4, 6), pt(-10, -14, 6), pt(1, 8, 2))]);
    assert_eq!(b.min, [-10, -14, 2]);
    assert_eq!(b.max, [2, 8, 6]);
}

#[test]
fn enclosing_holds_every_point() {
    let pts = vec![pt(3, -1, 7), pt(-2, 5, 0), pt(0, 0, -4), pt(1, 1, 1)];
    let b = BoundingBox::enclosing(&pts);
    assert_eq!(b.min, [-2, -1, -4]);
    assert_eq!(b.max, [3, 5, 7]);
    for p in &pts {
        assert!(b.min[0] <= p.x as i32 && p.x as i32 <= b.max[0]);
        assert!(b.min[1] <= p.y as i32 && p.y as i32 <= b.max[1]);
        assert!(b.min[2] <= p.z as i32 && p.z as i32 <= b.max[2]);
    }
}

#[test]
fn enclosing_nothing_is_empty() {
    let b = BoundingBox::enclosing(&vec![]);
    let e = BoundingBox::empty();
    assert_eq!(b.min, e.min);
    assert_eq!(b.max, e.max);
    assert_eq!(e.min, [i32::MAX; 3]);
    assert_eq!(e.max, [i32::MIN; 3]);
}

#[test]
fn new_box_holds_the_origin() {
    let b = BoundingBox::new();
    assert_eq!(b.min, [0, 0, 0]);
    assert_eq!(b.max, [0, 0, 0]);
}

#[test]
fn union_with_empty_is_identity() {
    let a = BoundingBox { min: [-3, 4, 0], max: [5, 9, 2] };
    let u = a.union(&BoundingBox::empty());
    assert_eq!(u.min, a.min);
    assert_eq!(u.max, a.max);
    let u2 = BoundingBox::empty().union(&a);
    assert_eq!(u2.min, a.min);
    assert_eq!(u2.max, a.max);
}

#[test]
fn union_commutes_and_associates() {
    let a = BoundingBox { min: [-3, 4, 0], max: [5, 9, 2] };
    let b = BoundingBox { min: [1, -6, 1], max: [2, 3, 8] };
    let c = BoundingBox { min: [0, 0, -7], max: [10, 0, 0] };
    let ab = a.union(&b);
    let ba = b.union(&a);
    assert_eq!(ab.min, ba.min);
    assert_eq!(ab.max, ba.max);
    assert_eq!(ab.min, [-3, -6, 0]);
    assert_eq!(ab.max, [5, 9, 8]);
    let l = ab.union(&c);
    let r = a.union(&b.union(&c));
    assert_eq!(l.min, r.min);
    assert_eq!(l.max, r.max);
}

#[test]
fn slab_test_hits_and_misses() {
    let b = BoundingBox { min: [0, 0, 0], max: [2, 2, 2] };
    let toward = Ray::new(pt(1, 1, 10), pt(0, 0, -1));
    assert!(b.intersects(&toward, toward.near, toward.far));
    let away = Ray::new(pt(1, 1, 10), pt(0, 0, 1));
    assert!(!b.intersects(&away, away.near, away.far));
    let beside = Ray::new(pt(5, 1, 10), pt(0, 0, -1));
    assert!(!b.intersects(&beside, beside.near, beside.far));
    // stops short of the box: it enters at t = 8
    assert!(!b.intersects(&toward, Frac::whole(0), Some(Frac::whole(7))));
    assert!(b.intersects(&toward, Frac::whole(0), Some(Frac::whole(8))));
    // diagonal
    let diag = Ray::new(pt(-3, -3, -3), pt(1, 1, 1));
    assert!(b.intersects(&diag, diag.near, diag.far));
    let skew = Ray::new(pt(-3, 0, 1), pt(1, 3, 0));
    assert!(!b.intersects(&skew, skew.near, skew.far));
}

#[test]
fn parallel_ray_inside_and_outside_the_slab() {
    let b = BoundingBox { min: [0, 0, 0], max: [2, 2, 2] };
    let inside = Ray::new(pt(-5, 1, 1), pt(1, 0, 0));
    assert!(b.intersects(&inside, inside.near, inside.far));
    let outside = Ray::new(pt(-5, 3, 1), pt(1, 0, 0));
    assert!(!b.intersects(&outside, outside.near, outside.far));
    // a ray along a face lies on the boundary of the slab
    let on_face = Ray::new(pt(-5, 2, 1), pt(1, 0, 0));
    assert!(b.intersects(&on_face, on_face.near, on_face.far));
}

#[test]
fn empty_box_is_never_intersected() {
    let e = BoundingBox::empty();
    let r = Ray::new(pt(0, 0, 0), pt(1, 1, 1));
    assert!(!e.intersects(&r, r.near, r.far));
    let still = Ray::new(pt(0, 0, 0), pt(0, 0, 0));
    assert!(!e.intersects(&still, still.near, still.far));
}

#[test]
fn around_is_the_smallest_box() {
    let xs = vec![Triangle::new(pt(0, 0, 0), pt(4, 1, 2), pt(1, 5, -3))];
    let ys = vec![
        Triangle::new(pt(-2, 2, 2), pt(0, 0, 9), pt(1, 1, 1)),
        Triangle::new(pt(3, -6, 0), pt(0, 0, 0), pt(2, 2, 2)),
    ];
    let a = BoundingBox::around(&xs);
    assert_eq!(a.min, [0, 0, -3]);
    assert_eq!(a.max, [4, 5, 2]);
    let b = BoundingBox::around(&ys);
    let xy: Vec<Triangle> = xs.iter().chain(ys.iter()).copied().collect();
    let yx: Vec<Triangle> = ys.iter().chain(xs.iter()).copied().collect();
    let c = BoundingBox::around(&xy);
    let d = BoundingBox::around(&yx);
    let u = a.union(&b);
    assert_eq!(c.min, u.min);
    assert_eq!(c.max, u.max);
    assert_eq!(d.min, c.min);
    assert_eq!(d.max, c.max);
    assert_eq!(c.min, [-2, -6, -3]);
    assert_eq!(c.max, [4, 5, 9]);
    let e = BoundingBox::around(&vec![]);
    assert_eq!(e.min, BoundingBox::empty().min);
    assert_eq!(e.max, BoundingBox::empty().max);
}
