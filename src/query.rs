//! Ray queries: the nearest triangle that a ray hits within its bounds.
use vstd::prelude::*;
use crate::bounding_box::lemma_crossing_in_box;
use crate::bvh::{lemma_each_triangle_in_one_leaf, Bvh, Node};
use crate::geometry::Triangle;
use crate::ray::{frac_le, frac_lt, hit_distance, intersect_triangle, lemma_frac_le_trans, Frac, Ray};

verus! {

broadcast use vstd::seq_lib::group_to_multiset_ensures;

/// The triangle hit, by its index, and the distance of the hit along the ray.
#[derive(Clone, Copy, Debug, PartialEq, Eq, Structural)]
pub struct Hit {
    pub t: Frac,
    pub triangle: usize,
}

/// What a traversal did: how many boxes it tested against the ray, and how
/// many leaves it tested triangle by triangle. Both counts saturate.
#[derive(Clone, Copy, Debug, PartialEq, Eq, Structural)]
pub struct TraversalStats {
    pub box_tests: u64,
    pub leaf_visits: u64,
}

/// `n + 1`, saturating.
pub open spec fn inc(n: u64) -> u64 {
    if n < u64::MAX {
        (n + 1) as u64
    } else {
        n
    }
}

fn inc_exec(n: u64) -> (r: u64)
    ensures
        r == inc(n),
{
    if n < u64::MAX {
        n + 1
    } else {
        n
    }
}

/// `(n1 / d1, j1)` comes strictly before `(n2 / d2, j2)`: it is nearer, or as
/// near with a lower triangle index.
pub open spec fn key_lt(n1: int, d1: int, j1: int, n2: int, d2: int, j2: int) -> bool {
    frac_lt(n1, d1, n2, d2) || (frac_le(n1, d1, n2, d2) && frac_le(n2, d2, n1, d1) && j1 < j2)
}

/// A hit on triangle `j` at `n / d` is preferred to the result `r`.
pub open spec fn beats(n: int, d: int, j: int, r: Option<Hit>) -> bool {
    match r {
        None => true,
        Some(h) => key_lt(n, d, j, h.t.num as int, h.t.den as int, h.triangle as int),
    }
}

/// Triangle `j` is hit within the ray's bounds, by a hit preferred to `r`.
pub open spec fn hit_beats(tris: Seq<Triangle>, ray: Ray, j: int, r: Option<Hit>) -> bool {
    match hit_distance(tris[j], ray) {
        Some((n, d)) => beats(n, d, j, r),
        None => false,
    }
}

/// `h` is a hit of the ray, within its bounds, on the triangle it names.
pub open spec fn is_hit(tris: Seq<Triangle>, ray: Ray, h: Hit) -> bool {
    &&& (h.triangle as int) < tris.len()
    &&& hit_distance(tris[h.triangle as int], ray) == Some((h.t.num as int, h.t.den as int))
}

/// `r` is `init` or a hit preferred to it.
pub open spec fn no_worse(r: Option<Hit>, init: Option<Hit>) -> bool {
    match init {
        None => true,
        Some(b) => r is Some && !beats(b.t.num as int, b.t.den as int, b.triangle as int, r),
    }
}

/// `r` is the preferred one among `init` and the hits on the triangles in `s`.
pub open spec fn best_over(
    tris: Seq<Triangle>,
    ray: Ray,
    s: Seq<usize>,
    init: Option<Hit>,
    r: Option<Hit>,
) -> bool {
    &&& (r == init || (r matches Some(h) && s.contains(h.triangle) && is_hit(tris, ray, h)))
    &&& no_worse(r, init)
    &&& forall|k: int| 0 <= k < s.len() ==> !#[trigger] hit_beats(tris, ray, s[k] as int, r)
}

/// The nearest hit: `None` exactly when the ray hits no triangle within its
/// bounds; otherwise a hit that no triangle is nearer than, and of those as
/// near, the one with the lowest index.
pub open spec fn nearest(tris: Seq<Triangle>, ray: Ray, r: Option<Hit>) -> bool {
    match r {
        None => forall|j: int| 0 <= j < tris.len() ==> #[trigger] hit_distance(tris[j], ray) is None,
        Some(h) => {
            &&& is_hit(tris, ray, h)
            &&& forall|j: int| 0 <= j < tris.len() ==> !#[trigger] hit_beats(tris, ray, j, r)
        },
    }
}

/// Some triangle of the list is hit by the ray within its bounds.
pub open spec fn any_hit(tris: Seq<Triangle>, ray: Ray) -> bool {
    exists|j: int| 0 <= j < tris.len() && #[trigger] hit_distance(tris[j], ray) is Some
}

/// The order of `key_lt` is transitive on its non-strict side: `x <= y <= z`
/// gives `x <= z`, where `a <= b` is `!key_lt(b, a)`.
proof fn lemma_key_le_trans(
    xn: int,
    xd: int,
    xj: int,
    yn: int,
    yd: int,
    yj: int,
    zn: int,
    zd: int,
    zj: int,
)
    requires
        xd > 0,
        yd > 0,
        zd > 0,
        !key_lt(yn, yd, yj, xn, xd, xj),
        !key_lt(zn, zd, zj, yn, yd, yj),
    ensures
        !key_lt(zn, zd, zj, xn, xd, xj),
{
    lemma_frac_le_trans(xn, xd, yn, yd, zn, zd);
    if frac_le(zn, zd, xn, xd) {
        lemma_frac_le_trans(zn, zd, xn, xd, yn, yd);
        lemma_frac_le_trans(yn, yd, zn, zd, xn, xd);
    }
}

/// A result no worse than one that `j` does not beat is not beaten by `j` either.
proof fn lemma_hit_beats_mono(tris: Seq<Triangle>, ray: Ray, j: int, r1: Option<Hit>, r2: Option<Hit>)
    requires
        !hit_beats(tris, ray, j, r1),
        no_worse(r2, r1),
        r1 matches Some(h) ==> h.t.wf(),
        r2 matches Some(h) ==> h.t.wf(),
        0 <= j < tris.len(),
    ensures
        !hit_beats(tris, ray, j, r2),
{
    if let Some((n, d)) = hit_distance(tris[j], ray) {
        let h1 = r1->Some_0;
        let h2 = r2->Some_0;
        lemma_key_le_trans(
            h2.t.num as int,
            h2.t.den as int,
            h2.triangle as int,
            h1.t.num as int,
            h1.t.den as int,
            h1.triangle as int,
            n,
            d,
            j,
        );
    }
}

/// `no_worse` is transitive.
proof fn lemma_no_worse_trans(r1: Option<Hit>, r2: Option<Hit>, r3: Option<Hit>)
    requires
        no_worse(r2, r1),
        no_worse(r3, r2),
        r1 matches Some(h) ==> h.t.wf(),
        r2 matches Some(h) ==> h.t.wf(),
        r3 matches Some(h) ==> h.t.wf(),
    ensures
        no_worse(r3, r1),
{
    if let Some(h1) = r1 {
        let h2 = r2->Some_0;
        let h3 = r3->Some_0;
        lemma_key_le_trans(
            h3.t.num as int,
            h3.t.den as int,
            h3.triangle as int,
            h2.t.num as int,
            h2.t.den as int,
            h2.triangle as int,
            h1.t.num as int,
            h1.t.den as int,
            h1.triangle as int,
        );
    }
}

/// A hit's distance has a positive denominator.
proof fn lemma_hit_den(tris: Seq<Triangle>, ray: Ray, j: int)
    requires
        0 <= j < tris.len(),
    ensures
        hit_distance(tris[j], ray) matches Some((n, d)) ==> d > 0,
{
}

/// Whether a hit on triangle `j` at `f` is preferred to `r`.
fn prefers(f: &Frac, j: usize, r: &Option<Hit>) -> (b: bool)
    ensures
        b == beats(f.num as int, f.den as int, j as int, *r),
{
    match r {
        None => true,
        Some(h) => f.lt(&h.t) || (f.le(&h.t) && h.t.le(f) && j < h.triangle),
    }
}

impl Bvh {
    /// Where the box of a node admits no parameter in `[near, best]` (in
    /// `[near, far]` while there is no best yet), no triangle below it is hit
    /// in a way preferred to `best`.
    proof fn lemma_prune(&self, node: &Node, ray: &Ray, best: Option<Hit>)
        requires
            node.wf(self.spec_triangles()),
            ray.wf(),
            best matches Some(h) ==> is_hit(self.spec_triangles(), *ray, h),
            !node.spec_bounds().admits(
                *ray,
                ray.near,
                match best {
                    Some(h) => Some(h.t),
                    None => ray.far,
                },
            ),
        ensures
            forall|k: int|
                0 <= k < node.items().len() ==> !#[trigger] hit_beats(
                    self.spec_triangles(),
                    *ray,
                    node.items()[k] as int,
                    best,
                ),
    {
        let tris = self.spec_triangles();
        let hi = match best {
            Some(h) => Some(h.t),
            None => ray.far,
        };
        assert forall|k: int| 0 <= k < node.items().len() implies !#[trigger] hit_beats(
            tris,
            *ray,
            node.items()[k] as int,
            best,
        ) by {
            let j = node.items()[k] as int;
            if let Some((n, d)) = hit_distance(tris[j], *ray) {
                if beats(n, d, j, best) {
                    lemma_crossing_in_box(node.spec_bounds(), tris[j], *ray, n, d);
                    assert(node.spec_bounds().candidate(*ray, ray.near, hi, 3, n, d));
                }
            }
        }
    }

    /// Whether some triangle below the node is hit within the ray's bounds;
    /// stops at the first hit found.
    fn visit_any(&self, node: &Node, ray: &Ray) -> (r: bool)
        requires
            node.wf(self.spec_triangles()),
            ray.wf(),
        ensures
            r == exists|k: int|
                0 <= k < node.items().len() && #[trigger] hit_distance(
                    self.spec_triangles()[node.items()[k] as int],
                    *ray,
                ) is Some,
        decreases node,
    {
        let ghost tris = self.spec_triangles();
        if !node.bounds().intersects(ray, ray.near, ray.far) {
            proof {
                self.lemma_prune(node, ray, None);
                assert forall|k: int| 0 <= k < node.items().len() implies #[trigger] hit_distance(
                    tris[node.items()[k] as int],
                    *ray,
                ) is None by {
                    assert(!hit_beats(tris, *ray, node.items()[k] as int, None));
                }
            }
            return false;
        }
        match node {
            Node::Leaf { items, .. } => {
                let mut i: usize = 0;
                while i < items.len()
                    invariant
                        i <= items.len(),
                        node.wf(tris),
                        tris == self.spec_triangles(),
                        items@ == node.items(),
                        ray.wf(),
                        forall|k: int| 0 <= k < i ==> #[trigger] hit_distance(tris[items@[k] as int], *ray) is None,
                    decreases items.len() - i,
                {
                    assert(node.items()[i as int] == items[i as int]);
                    if intersect_triangle(&self.triangles()[items[i]], ray).is_some() {
                        return true;
                    }
                    i = i + 1;
                }
                false
            },
            Node::Interior { left, right, .. } => {
                let ghost li = left.items();
                let ghost ri = right.items();
                proof {
                    assert(node.items() == li + ri);
                }
                if self.visit_any(left, ray) {
                    proof {
                        let k = choose|k: int| 0 <= k < li.len() && #[trigger] hit_distance(tris[li[k] as int], *ray) is Some;
                        assert(node.items()[k] == li[k]);
                    }
                    return true;
                }
                let r = self.visit_any(right, ray);
                proof {
                    if r {
                        let k = choose|k: int| 0 <= k < ri.len() && #[trigger] hit_distance(tris[ri[k] as int], *ray) is Some;
                        assert(node.items()[li.len() + k] == ri[k]);
                    } else {
                        assert forall|k: int| 0 <= k < node.items().len() implies #[trigger] hit_distance(
                            tris[node.items()[k] as int],
                            *ray,
                        ) is None by {
                            if k < li.len() {
                                assert(node.items()[k] == li[k]);
                            } else {
                                assert(node.items()[k] == ri[k - li.len()]);
                            }
                        }
                    }
                }
                r
            },
        }
    }

    /// Visits a subtree: returns the preferred one among `best` and the hits on
    /// its triangles, and `stats` plus the boxes and leaves tested.
    fn visit(&self, node: &Node, ray: &Ray, best: Option<Hit>, stats: TraversalStats) -> (r: (
        Option<Hit>,
        TraversalStats,
    ))
        requires
            node.wf(self.spec_triangles()),
            ray.wf(),
            best matches Some(h) ==> is_hit(self.spec_triangles(), *ray, h),
        ensures
            best_over(self.spec_triangles(), *ray, node.items(), best, r.0),
            r.0 matches Some(h) ==> is_hit(self.spec_triangles(), *ray, h),
            !node.spec_bounds().admits(
                *ray,
                ray.near,
                match best {
                    Some(h) => Some(h.t),
                    None => ray.far,
                },
            ) ==> r.0 == best && r.1 == (TraversalStats { box_tests: inc(stats.box_tests), ..stats }),
        decreases node,
    {
        let ghost tris = self.spec_triangles();
        let hi = match best {
            Some(h) => Some(h.t),
            None => ray.far,
        };
        proof {
            if let Some(h) = best {
                lemma_hit_den(tris, *ray, h.triangle as int);
            }
        }
        let tested = TraversalStats { box_tests: inc_exec(stats.box_tests), ..stats };
        if !node.bounds().intersects(ray, ray.near, hi) {
            proof {
                self.lemma_prune(node, ray, best);
            }
            return (best, tested);
        }
        match node {
            Node::Leaf { items, .. } => {
                let mut b = best;
                let mut i: usize = 0;
                while i < items.len()
                    invariant
                        i <= items.len(),
                        node.wf(tris),
                        tris == self.spec_triangles(),
                        items@ == node.items(),
                        ray.wf(),
                        best matches Some(h) ==> is_hit(tris, *ray, h),
                        b matches Some(h) ==> is_hit(tris, *ray, h),
                        best_over(tris, *ray, items@.take(i as int), best, b),
                    decreases items.len() - i,
                {
                    let j = items[i];
                    let ghost s0 = items@.take(i as int);
                    let ghost s1 = items@.take(i + 1);
                    assert(s1 =~= s0.push(j));
                    let ghost b0 = b;
                    proof {
                        assert(node.items()[i as int] == j);
                        lemma_hit_den(tris, *ray, j as int);
                        if let Some(h) = b0 {
                            lemma_hit_den(tris, *ray, h.triangle as int);
                        }
                        if let Some(h) = best {
                            lemma_hit_den(tris, *ray, h.triangle as int);
                        }
                    }
                    let found = intersect_triangle(&self.triangles()[j], ray);
                    let take = match found {
                        Some(f) => prefers(&f, j, &b),
                        None => false,
                    };
                    if take {
                        let f = found.unwrap();
                        b = Some(Hit { t: f, triangle: j });
                        proof {
                            // the new hit comes before b0, so at or before all that b0 was
                            if let Some(h0) = b0 {
                                assert(!key_lt(
                                    h0.t.num as int,
                                    h0.t.den as int,
                                    h0.triangle as int,
                                    f.num as int,
                                    f.den as int,
                                    j as int,
                                ));
                            }
                            lemma_no_worse_trans(best, b0, b);
                            assert forall|k: int| 0 <= k < s1.len() implies !#[trigger] hit_beats(
                                tris,
                                *ray,
                                s1[k] as int,
                                b,
                            ) by {
                                if k < s0.len() {
                                    assert(s1[k] == s0[k]);
                                    assert(!hit_beats(tris, *ray, s0[k] as int, b0));
                                    lemma_hit_den(tris, *ray, s0[k] as int);
                                    lemma_hit_beats_mono(tris, *ray, s0[k] as int, b0, b);
                                }
                            }
                            assert(s0.len() == i);
                            assert(s1[i as int] == j);
                            assert(s1.contains(j));
                        }
                    } else {
                        proof {
                            // b stays: j is not hit, or not preferred to b
                            assert(!hit_beats(tris, *ray, j as int, b));
                            assert forall|k: int| 0 <= k < s1.len() implies !#[trigger] hit_beats(
                                tris,
                                *ray,
                                s1[k] as int,
                                b,
                            ) by {
                                if k < s0.len() {
                                    assert(s1[k] == s0[k]);
                                }
                            }
                            if let Some(h) = b {
                                if h != best->Some_0 || best is None {
                                    assert(s1.contains(h.triangle)) by {
                                        let w = choose|w: int| 0 <= w < s0.len() && s0[w] == h.triangle;
                                        assert(s1[w] == h.triangle);
                                    }
                                }
                            }
                        }
                    }
                    i = i + 1;
                }
                assert(items@.take(items.len() as int) =~= items@);
                (b, TraversalStats { leaf_visits: inc_exec(tested.leaf_visits), ..tested })
            },
            Node::Interior { left, right, .. } => {
                let (r1, v1) = self.visit(left, ray, best, tested);
                let (r2, v2) = self.visit(right, ray, r1, v1);
                proof {
                    let li = left.items();
                    let ri = right.items();
                    assert(node.items() == li + ri);
                    if let Some(h) = best {
                        lemma_hit_den(tris, *ray, h.triangle as int);
                    }
                    if let Some(h) = r1 {
                        lemma_hit_den(tris, *ray, h.triangle as int);
                    }
                    if let Some(h) = r2 {
                        lemma_hit_den(tris, *ray, h.triangle as int);
                    }
                    lemma_no_worse_trans(best, r1, r2);
                    assert forall|k: int| 0 <= k < node.items().len() implies !#[trigger] hit_beats(
                        tris,
                        *ray,
                        node.items()[k] as int,
                        r2,
                    ) by {
                        if k < li.len() {
                            assert(node.items()[k] == li[k]);
                            assert(!hit_beats(tris, *ray, li[k] as int, r1));
                            lemma_hit_den(tris, *ray, li[k] as int);
                            lemma_hit_beats_mono(tris, *ray, li[k] as int, r1, r2);
                        } else {
                            assert(node.items()[k] == ri[k - li.len()]);
                        }
                    }
                    if let Some(h) = r2 {
                        if r2 != best {
                            if r2 == r1 {
                                let w = choose|w: int| 0 <= w < li.len() && li[w] == h.triangle;
                                assert(node.items()[w] == h.triangle);
                            } else {
                                let w = choose|w: int| 0 <= w < ri.len() && ri[w] == h.triangle;
                                assert(node.items()[li.len() + w] == h.triangle);
                            }
                        }
                    }
                }
                (r2, v2)
            },
        }
    }
}

impl Bvh {
    /// The nearest hit of the ray within its bounds, and what the traversal
    /// tested. A ray that misses the root's box gets no hit, and the root's box
    /// is the only thing tested.
    pub fn query_counted(&self, ray: &Ray) -> (r: (Option<Hit>, TraversalStats))
        requires
            self.wf(),
            ray.wf(),
        ensures
            nearest(self.spec_triangles(), *ray, r.0),
            self.spec_triangles().len() == 0 ==> r.0 is None,
            !self.spec_root().spec_bounds().admits(*ray, ray.near, ray.far) ==> r.0 is None
                && r.1 == (TraversalStats { box_tests: 1, leaf_visits: 0 }),
    {
        let r = self.visit(self.root(), ray, None, TraversalStats { box_tests: 0, leaf_visits: 0 });
        proof {
            let tris = self.spec_triangles();
            let items = self.spec_root().items();
            lemma_each_triangle_in_one_leaf(self);
            assert forall|j: int| 0 <= j < tris.len() implies !#[trigger] hit_beats(tris, *ray, j, r.0) by {
                assert(items.to_multiset().count(j as usize) == 1);
                assert(items.contains(j as usize));
                let k = choose|k: int| 0 <= k < items.len() && items[k] == j as usize;
                assert(!hit_beats(tris, *ray, items[k] as int, r.0));
            }
            if r.0 is None {
                assert forall|j: int| 0 <= j < tris.len() implies #[trigger] hit_distance(tris[j], *ray) is None by {
                    assert(!hit_beats(tris, *ray, j, r.0));
                }
            }
        }
        r
    }

    /// The nearest hit of the ray within its bounds: `None` exactly when no
    /// triangle is hit; otherwise the nearest hit, the lowest triangle index
    /// winning among hits at the same distance.
    pub fn query(&self, ray: &Ray) -> (r: Option<Hit>)
        requires
            self.wf(),
            ray.wf(),
        ensures
            nearest(self.spec_triangles(), *ray, r),
            self.spec_triangles().len() == 0 ==> r is None,
    {
        self.query_counted(ray).0
    }
}

impl Bvh {
    /// The occlusion query: whether the ray hits any triangle within its
    /// bounds (to ask whether anything lies before a distance `d`, bound the
    /// ray's far end by `d`). Stops at the first hit found.
    pub fn occluded(&self, ray: &Ray) -> (r: bool)
        requires
            self.wf(),
            ray.wf(),
        ensures
            r == any_hit(self.spec_triangles(), *ray),
    {
        let r = self.visit_any(self.root(), ray);
        proof {
            let tris = self.spec_triangles();
            let items = self.spec_root().items();
            lemma_each_triangle_in_one_leaf(self);
            if r {
                let k = choose|k: int| 0 <= k < items.len() && #[trigger] hit_distance(tris[items[k] as int], *ray) is Some;
                assert(items.to_multiset().count(items[k]) > 0);
                assert(hit_distance(tris[items[k] as int], *ray) is Some);
            } else {
                assert forall|j: int| 0 <= j < tris.len() implies #[trigger] hit_distance(tris[j], *ray) is None by {
                    assert(items.to_multiset().count(j as usize) == 1);
                    assert(items.contains(j as usize));
                    let k = choose|k: int| 0 <= k < items.len() && items[k] == j as usize;
                    assert(hit_distance(tris[items[k] as int], *ray) is None);
                }
            }
        }
        r
    }
}

/// The nearest-hit and the any-hit query agree on whether the ray hits
/// anything: a result that meets the contract of `query` is a hit exactly
/// when some triangle is hit.
pub proof fn lemma_nearest_agrees_with_any_hit(tris: Seq<Triangle>, ray: Ray, r: Option<Hit>)
    requires
        nearest(tris, ray, r),
    ensures
        (r is Some) == any_hit(tris, ray),
{
    if let Some(h) = r {
        assert(hit_distance(tris[h.triangle as int], ray) is Some);
    }
}

/// Queries are deterministic: any two results that meet the contract of
/// `query`, for one list of triangles and one ray, are the same hit (same
/// distance, same triangle) or both no hit.
pub proof fn lemma_nearest_unique(tris: Seq<Triangle>, ray: Ray, r1: Option<Hit>, r2: Option<Hit>)
    requires
        nearest(tris, ray, r1),
        nearest(tris, ray, r2),
    ensures
        r1 == r2,
{
    match (r1, r2) {
        (Some(h1), Some(h2)) => {
            assert(!hit_beats(tris, ray, h2.triangle as int, r1));
            assert(!hit_beats(tris, ray, h1.triangle as int, r2));
        },
        (Some(h1), None) => {
            assert(hit_distance(tris[h1.triangle as int], ray) is None);
        },
        (None, Some(h2)) => {
            assert(hit_distance(tris[h2.triangle as int], ray) is None);
        },
        (None, None) => {},
    }
}

} // verus!
