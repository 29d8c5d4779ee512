use raytracer::bvh::{Bvh, Node, DEFAULT_LEAF_SIZE};
use raytracer::geometry::{Point, Triangle};
use raytracer::query::{Hit, TraversalStats};
use raytracer::bounding_box::BoundingBox;
use raytracer::ray::{Frac, Ray};

fn pt(x: i16, y: i16, z: i16) -> Point {
    Point::new(x, y, z)
}

fn leaves(node: &Node, out: &mut Vec<Vec<usize>>) {
    match node {
        Node::Leaf { items, .. } => out.push(items.clone()),
        Node::Interior { left, right, .. } => {
            leaves(left, out);
            leaves(right, out);
        }
    }
}

fn interior_count(node: &Node) -> usize {
    match node {
        Node::Leaf { .. } => 0,
        Node::Interior { left, right, .. } => 1 + interior_count(left) + interior_count(right),
    }
}

/// One triangle per unit cell of an `n` by `n` grid in the plane z = 0.
fn grid(n: i16) -> Vec<Triangle> {
    let mut v = Vec::new();
    for y in 0..n {
        for x in 0..n {
            v.push(Triangle::new(pt(x, y, 0), pt(x + 1, y, 0), pt(x, y + 1, 0)));
        }
    }
    v
}

/// The unit square (in half units: side 2) as two triangles.
fn square() -> Vec<Triangle> {
    vec![
        Triangle::new(pt(0, 0, 0), pt(2, 0, 0), pt(2, 2, 0)),
        Triangle::new(pt(0, 0, 0), pt(2, 2, 0), pt(0, 2, 0)),
    ]
}

fn brute_force(tris: &[Triangle], ray: &Ray) -> Option<(Frac, usize)> {
    let mut best: Option<(Frac, usize)> = None;
    for (i, t) in tris.iter().enumerate() {
        if let Some(f) = raytracer::ray::intersect_triangle(t, ray) {
            let better = match best {
                None => true,
                Some((b, _)) => f.lt(&b),
            };
            if better {
                best = Some((f, i));
            }
        }
    }
    best
}

#[test]
fn every_triangle_in_exactly_one_leaf() {
    for n in [0i16, 1, 2, 3, 5, 8] {
        let tris = grid(n);
        let count = tris.len();
        let bvh = Bvh::build(tris, 3);
        let mut ls = Vec::new();
        leaves(bvh.root(), &mut ls);
        let mut seen = vec![0usize; count];
        for l in &ls {
            for &i in l {
                seen[i] += 1;
            }
        }
        assert!(seen.iter().all(|&c| c == 1));
    }
}

#[test]
fn grid_of_nine_splits_above_threshold() {
    let bvh = Bvh::build(grid(3), 4);
    assert!(!bvh.root().is_leaf());
    assert!(interior_count(bvh.root()) >= 1);
    let mut ls = Vec::new();
    leaves(bvh.root(), &mut ls);
    assert!(ls.iter().all(|l| !l.is_empty() && l.len() <= 4));
}

#[test]
fn small_set_is_one_leaf() {
    let bvh = Bvh::new(square());
    assert_eq!(bvh.leaf_size(), DEFAULT_LEAF_SIZE);
    assert!(bvh.root().is_leaf());
    let b = bvh.root().bounds();
    assert_eq!(b.min, [0, 0, 0]);
    assert_eq!(b.max, [2, 2, 0]);
}

#[test]
fn coinciding_centroids_make_one_leaf() {
    let t = Triangle::new(pt(0, 0, 0), pt(3, 0, 0), pt(0, 3, 0));
    let bvh = Bvh::build(vec![t; 7], 2);
    assert!(bvh.root().is_leaf());
    let mut ls = Vec::new();
    leaves(bvh.root(), &mut ls);
    assert_eq!(ls, vec![vec![0, 1, 2, 3, 4, 5, 6]]);
}

#[test]
fn unit_square_hit_at_distance_five() {
    let bvh = Bvh::build(square(), 4);
    assert!(bvh.root().is_leaf());
    let ray = Ray::new(pt(1, 1, 5), pt(0, 0, -1));
    let h = bvh.query(&ray).unwrap();
    assert_eq!(h.t.num, 5 * h.t.den);
    // (1, 1, 0) lies on the shared edge; the lower index wins the tie
    assert_eq!(h.triangle, 0);
}

#[test]
fn nearest_of_stacked_triangles() {
    let mut tris = Vec::new();
    for z in [4i16, -2, 7, 1, 3] {
        tris.push(Triangle::new(pt(-5, -5, z), pt(5, -5, z), pt(0, 5, z)));
    }
    let bvh = Bvh::build(tris, 1);
    let down = Ray::new(pt(0, 0, 10), pt(0, 0, -1));
    let h = bvh.query(&down).unwrap();
    assert_eq!(h.triangle, 2);
    assert_eq!(h.t.num, 3 * h.t.den);
    let up = Ray::new(pt(0, 0, -10), pt(0, 0, 1));
    let h = bvh.query(&up).unwrap();
    assert_eq!(h.triangle, 1);
    assert_eq!(h.t.num, 8 * h.t.den);
    // skips the triangle at z = 7 (t = 3), below the near bound
    let between = Ray::bounded(pt(0, 0, 10), pt(0, 0, -1), Frac::whole(4), Frac::whole(100));
    let h = bvh.query(&between).unwrap();
    assert_eq!(h.triangle, 0);
    assert_eq!(h.t.num, 6 * h.t.den);
    // stops before the triangle at z = 4 (t = 6)
    let short = Ray::bounded(pt(0, 0, 10), pt(0, 0, -1), Frac::whole(4), Frac::whole(6));
    assert_eq!(bvh.query(&short), None);
}

#[test]
fn query_matches_brute_force() {
    let tris = grid(6);
    let bvh = Bvh::build(tris.clone(), 2);
    for ox in -2i16..9 {
        for oy in -2i16..9 {
            for (dx, dy, dz) in [(0i16, 0i16, -1i16), (1, 2, -3), (-1, 1, -2), (2, -1, -1), (1, 0, 0)] {
                let ray = Ray::new(pt(ox, oy, 3), pt(dx, dy, dz));
                let got = bvh.query(&ray).map(|h| h.t);
                let want = brute_force(&tris, &ray).map(|(f, _)| f);
                match (got, want) {
                    (None, None) => {}
                    (Some(a), Some(b)) => assert!(a.le(&b) && b.le(&a)),
                    _ => panic!("query and brute force disagree"),
                }
            }
        }
    }
}

#[test]
fn equal_distances_pick_lowest_index() {
    let t = Triangle::new(pt(0, 0, 0), pt(4, 0, 0), pt(0, 4, 0));
    let bvh = Bvh::build(vec![t, t, t], 1);
    let h = bvh.query(&Ray::new(pt(1, 1, 2), pt(0, 0, -1))).unwrap();
    assert_eq!(h.triangle, 0);
}

#[test]
fn query_twice_gives_the_same_hit() {
    let bvh = Bvh::build(grid(4), 2);
    let ray = Ray::new(pt(1, 2, 6), pt(1, 1, -3));
    let a: Option<Hit> = bvh.query(&ray);
    let b: Option<Hit> = bvh.query(&ray);
    assert!(a.is_some());
    assert_eq!(a, b);
}

#[test]
fn empty_tree_has_no_hit() {
    let bvh = Bvh::new(Vec::new());
    assert!(bvh.root().is_leaf());
    let mut ls = Vec::new();
    leaves(bvh.root(), &mut ls);
    assert_eq!(ls, vec![Vec::<usize>::new()]);
    for d in [pt(0, 0, -1), pt(1, 1, 1), pt(0, 0, 0)] {
        assert_eq!(bvh.query(&Ray::new(pt(0, 0, 5), d)), None);
    }
}

#[test]
fn miss_of_scene_box_visits_no_leaf() {
    let bvh = Bvh::build(grid(3), 4);
    let ray = Ray::new(pt(10, 10, 5), pt(0, 0, -1));
    let (h, stats) = bvh.query_counted(&ray);
    assert_eq!(h, None);
    assert_eq!(stats, TraversalStats { box_tests: 1, leaf_visits: 0 });
    let hit = Ray::new(pt(1, 1, 5), pt(0, 0, -1));
    let (h, stats) = bvh.query_counted(&hit);
    assert!(h.is_some());
    assert!(stats.leaf_visits >= 1);
    assert!(stats.box_tests > 1);
}

#[test]
fn miss_within_scene_box_has_no_hit() {
    let bvh = Bvh::build(grid(3), 4);
    // passes over the scene, parallel to it
    let ray = Ray::new(pt(-1, 1, 1), pt(1, 0, 0));
    assert_eq!(bvh.query(&ray), None);
}

#[test]
fn occlusion_agrees_with_nearest_hit() {
    let tris = grid(5);
    let bvh = Bvh::build(tris, 2);
    for ox in -3i16..8 {
        for oy in -3i16..8 {
            let ray = Ray::new(pt(ox, oy, 4), pt(1, 1, -2));
            assert_eq!(bvh.occluded(&ray), bvh.query(&ray).is_some());
        }
    }
}

#[test]
fn occlusion_before_a_distance() {
    let tris = vec![Triangle::new(pt(-5, -5, 0), pt(5, -5, 0), pt(0, 5, 0))];
    let bvh = Bvh::new(tris);
    let light = Ray::bounded(pt(0, 0, 6), pt(0, 0, -1), Frac::whole(0), Frac::whole(6));
    assert!(!bvh.occluded(&light));
    let past = Ray::bounded(pt(0, 0, 6), pt(0, 0, -1), Frac::whole(0), Frac::new(13, 2));
    assert!(bvh.occluded(&past));
    assert!(!Bvh::new(Vec::new()).occluded(&past));
}

#[test]
fn leaf_boxes_are_the_smallest() {
    let tris = grid(4);
    let bvh = Bvh::build(tris.clone(), 3);
    fn check(node: &Node, tris: &[Triangle]) {
        match node {
            Node::Leaf { bounds, items } => {
                let sel: Vec<Triangle> = items.iter().map(|&i| tris[i]).collect();
                let b = BoundingBox::around(&sel);
                assert_eq!(bounds.min, b.min);
                assert_eq!(bounds.max, b.max);
            }
            Node::Interior { bounds, left, right, .. } => {
                let u = left.bounds().union(right.bounds());
                assert_eq!(bounds.min, u.min);
                assert_eq!(bounds.max, u.max);
                check(left, tris);
                check(right, tris);
            }
        }
    }
    check(bvh.root(), &tris);
    let all = BoundingBox::around(&tris);
    assert_eq!(bvh.root().bounds().min, all.min);
    assert_eq!(bvh.root().bounds().max, all.max);
}
