//! The hierarchy: its nodes and its construction.
use vstd::prelude::*;
use crate::bounding_box::{empty_box, lemma_union_contains, union_box, BoundingBox};
use crate::geometry::{centroid3, Triangle};

verus! {

broadcast use {vstd::seq_lib::group_to_multiset_ensures, vstd::multiset::group_multiset_axioms};

/// The leaf size below which splitting stops, unless chosen otherwise.
pub const DEFAULT_LEAF_SIZE: usize = 4;

/// The depth past which a node becomes a leaf whatever its size.
pub const MAX_DEPTH: usize = 48;

/// A node of the hierarchy. Leaves hold triangles by their index in the
/// hierarchy's triangle list; interior nodes own exactly two children.
#[derive(Debug)]
pub enum Node {
    Leaf { bounds: BoundingBox, items: Vec<usize> },
    Interior { bounds: BoundingBox, axis: usize, left: Box<Node>, right: Box<Node> },
}

impl Node {
    pub open spec fn spec_bounds(&self) -> BoundingBox {
        match self {
            Node::Leaf { bounds, .. } => *bounds,
            Node::Interior { bounds, .. } => *bounds,
        }
    }

    /// The indices held by the leaves under this node, left to right.
    pub open spec fn items(&self) -> Seq<usize>
        decreases self,
    {
        match self {
            Node::Leaf { items, .. } => items@,
            Node::Interior { left, right, .. } => left.items() + right.items(),
        }
    }

    /// Every index names a triangle, and each node's box contains the
    /// triangles below it.
    pub open spec fn wf(&self, tris: Seq<Triangle>) -> bool
        decreases self,
    {
        &&& forall|k: int|
            0 <= k < self.items().len() ==> (#[trigger] self.items()[k] as int) < tris.len()
                && self.spec_bounds().contains_triangle(tris[self.items()[k] as int])
        &&& match self {
            Node::Leaf { .. } => true,
            Node::Interior { left, right, .. } => left.wf(tris) && right.wf(tris),
        }
    }

    /// The shape that construction gives: a leaf's box is the smallest around
    /// its triangles (the empty box for none), and a leaf holds at most `leaf_size`
    /// triangles unless its centroids coincide or it lies at depth
    /// `MAX_DEPTH`; an interior node holds more than `leaf_size`, has two
    /// non-empty children, its box is the union of theirs, and on its split
    /// axis no centroid on the left lies above one on the right.
    pub open spec fn follows_policy(&self, tris: Seq<Triangle>, leaf_size: usize, depth: nat) -> bool
        decreases self,
    {
        match self {
            Node::Leaf { bounds, items } => {
                &&& bounds.encloses_exactly(select(tris, items@))
                &&& items.len() <= leaf_size || depth >= MAX_DEPTH || centroids_coincide_spec(
                    tris,
                    items@,
                )
            },
            Node::Interior { bounds, axis, left, right } => {
                &&& self.items().len() > leaf_size
                &&& *axis < 3
                &&& separated(tris, left.items(), right.items(), *axis as int)
                &&& left.items().len() > 0
                &&& right.items().len() > 0
                &&& *bounds == union_box(left.spec_bounds(), right.spec_bounds())
                &&& left.follows_policy(tris, leaf_size, depth + 1)
                &&& right.follows_policy(tris, leaf_size, depth + 1)
            },
        }
    }

    pub fn bounds(&self) -> (r: &BoundingBox)
        ensures
            *r == self.spec_bounds(),
    {
        match self {
            Node::Leaf { bounds, .. } => bounds,
            Node::Interior { bounds, .. } => bounds,
        }
    }

    pub fn is_leaf(&self) -> (r: bool)
        ensures
            r == (self is Leaf),
    {
        match self {
            Node::Leaf { .. } => true,
            Node::Interior { .. } => false,
        }
    }
}

/// The two triangles have the same centroid.
pub open spec fn same_centroid(a: Triangle, b: Triangle) -> bool {
    &&& centroid3(a, 0) == centroid3(b, 0)
    &&& centroid3(a, 1) == centroid3(b, 1)
    &&& centroid3(a, 2) == centroid3(b, 2)
}

/// All the triangles at the given indices have the centroid of the first.
pub open spec fn centroids_coincide_spec(tris: Seq<Triangle>, idx: Seq<usize>) -> bool {
    forall|k: int|
        0 <= k < idx.len() ==> same_centroid(#[trigger] tris[idx[k] as int], tris[idx[0] as int])
}

/// On `axis`, every centroid of the triangles at `l` is at most every
/// centroid of those at `r`.
pub open spec fn separated(tris: Seq<Triangle>, l: Seq<usize>, r: Seq<usize>, axis: int) -> bool {
    forall|i: int, j: int|
        0 <= i < l.len() && 0 <= j < r.len() ==> centroid3(tris[#[trigger] l[i] as int], axis)
            <= centroid3(tris[#[trigger] r[j] as int], axis)
}

/// The extent of the box on an axis.
pub open spec fn extent(b: BoundingBox, a: int) -> int {
    b.max[a] - b.min[a]
}

/// The triangles at the given indices, in order.
pub open spec fn select(tris: Seq<Triangle>, idx: Seq<usize>) -> Seq<Triangle> {
    Seq::new(idx.len(), |j: int| tris[idx[j] as int])
}

/// The indices `0, 1, ..., n - 1`.
pub open spec fn all_indices(n: nat) -> Seq<usize> {
    Seq::new(n, |i: int| i as usize)
}

/// A bounding volume hierarchy over a list of triangles, which it owns.
pub struct Bvh {
    triangles: Vec<Triangle>,
    root: Node,
    leaf_size: usize,
}

impl Bvh {
    pub closed spec fn spec_triangles(&self) -> Seq<Triangle> {
        self.triangles@
    }

    pub closed spec fn spec_root(&self) -> Node {
        self.root
    }

    pub closed spec fn spec_leaf_size(&self) -> usize {
        self.leaf_size
    }

    /// The tree is well formed over the triangles and holds each index once.
    pub open spec fn wf(&self) -> bool {
        &&& self.spec_triangles().len() <= usize::MAX
        &&& self.spec_root().wf(self.spec_triangles())
        &&& self.spec_root().follows_policy(self.spec_triangles(), self.spec_leaf_size(), 0)
        &&& self.spec_root().items().to_multiset() == all_indices(self.spec_triangles().len()).to_multiset()
    }

    /// Builds the hierarchy with the default leaf size.
    pub fn new(triangles: Vec<Triangle>) -> (r: Bvh)
        ensures
            r.wf(),
            r.spec_triangles() == triangles@,
            r.spec_leaf_size() == DEFAULT_LEAF_SIZE,
            forall|i: usize|
                #[trigger] r.spec_root().items().to_multiset().count(i) == if (i as int)
                    < triangles.len() {
                    1nat
                } else {
                    0nat
                },
    {
        Bvh::build(triangles, DEFAULT_LEAF_SIZE)
    }

    /// Builds the hierarchy top down: a set of at most `leaf_size` triangles
    /// (or one whose centroids all coincide, or one at depth `MAX_DEPTH`)
    /// becomes a leaf; a larger one is split on the longest axis of its box,
    /// at the box's midpoint, by centroid; where that leaves one side empty, at
    /// the median of the centroids instead. Each triangle goes wholly to one
    /// side. An empty list gives a single empty leaf.
    pub fn build(triangles: Vec<Triangle>, leaf_size: usize) -> (r: Bvh)
        ensures
            r.wf(),
            r.spec_triangles() == triangles@,
            r.spec_leaf_size() == leaf_size,
            forall|i: usize|
                #[trigger] r.spec_root().items().to_multiset().count(i) == if (i as int)
                    < triangles.len() {
                    1nat
                } else {
                    0nat
                },
    {
        let mut idx: Vec<usize> = Vec::new();
        let mut i: usize = 0;
        while i < triangles.len()
            invariant
                i <= triangles.len(),
                idx@ == all_indices(i as nat),
            decreases triangles.len() - i,
        {
            idx.push(i);
            i = i + 1;
            assert(idx@ =~= all_indices(i as nat));
        }
        let root = build_node(&triangles, idx, leaf_size, 0);
        let r = Bvh { triangles, root, leaf_size };
        proof {
            lemma_each_triangle_in_one_leaf(&r);
        }
        r
    }

    pub fn triangles(&self) -> (r: &Vec<Triangle>)
        ensures
            r@ == self.spec_triangles(),
    {
        &self.triangles
    }

    pub fn root(&self) -> (r: &Node)
        ensures
            *r == self.spec_root(),
    {
        &self.root
    }

    pub fn leaf_size(&self) -> (r: usize)
        ensures
            r == self.spec_leaf_size(),
    {
        self.leaf_size
    }
}

/// Each index below `n` occurs exactly once in `0, 1, ..., n - 1`.
pub proof fn lemma_all_indices_once(n: nat)
    requires
        n <= usize::MAX,
    ensures
        forall|i: usize| #[trigger] all_indices(n).to_multiset().count(i) == if (i as int) < n {
            1nat
        } else {
            0nat
        },
    decreases n,
{
    if n > 0 {
        let m = (n - 1) as nat;
        lemma_all_indices_once(m);
        assert(all_indices(n) =~= all_indices(m).push(m as usize));
        assert forall|i: usize| #[trigger] all_indices(n).to_multiset().count(i) == if (i as int) < n {
            1nat
        } else {
            0nat
        } by {
            assert(all_indices(m).to_multiset().count(i) == if (i as int) < m { 1nat } else { 0nat });
        }
    } else {
        assert(all_indices(n) =~= Seq::<usize>::empty());
    }
}

/// Every triangle of a hierarchy appears in exactly one leaf, and once there:
/// each index below the number of triangles occurs once among the leaves'
/// items, and no other index occurs.
pub proof fn lemma_each_triangle_in_one_leaf(bvh: &Bvh)
    requires
        bvh.wf(),
    ensures
        forall|i: usize|
            #[trigger] bvh.spec_root().items().to_multiset().count(i) == if (i as int)
                < bvh.spec_triangles().len() {
                1nat
            } else {
                0nat
            },
{
    assert(bvh.triangles@.len() == bvh.triangles.len());
    lemma_all_indices_once(bvh.spec_triangles().len());
}

/// The smallest box around the triangles at the given indices.
fn enclose(tris: &Vec<Triangle>, idx: &Vec<usize>) -> (r: BoundingBox)
    requires
        forall|k: int| 0 <= k < idx.len() ==> (#[trigger] idx[k] as int) < tris.len(),
    ensures
        idx.len() == 0 ==> r == empty_box(),
        forall|k: int| 0 <= k < idx.len() ==> r.contains_triangle(tris[#[trigger] idx[k] as int]),
        r.encloses_exactly(select(tris@, idx@)),
{
    let mut sel: Vec<Triangle> = Vec::new();
    let mut k: usize = 0;
    while k < idx.len()
        invariant
            k <= idx.len(),
            forall|j: int| 0 <= j < idx.len() ==> (#[trigger] idx[j] as int) < tris.len(),
            sel@ == select(tris@, idx@.take(k as int)),
        decreases idx.len() - k,
    {
        sel.push(tris[idx[k]]);
        k = k + 1;
        assert(sel@ =~= select(tris@, idx@.take(k as int)));
    }
    assert(idx@.take(idx.len() as int) =~= idx@);
    let r = BoundingBox::around(&sel);
    assert forall|j: int| 0 <= j < idx.len() implies r.contains_triangle(tris[#[trigger] idx[j] as int]) by {
        assert(sel@[j] == tris@[idx[j] as int]);
    }
    r
}

/// The axis on which the box is longest; the first such axis on a tie.
fn longest_axis(b: &BoundingBox) -> (r: usize)
    ensures
        r < 3,
        forall|a: int| 0 <= a < 3 ==> extent(*b, r as int) >= #[trigger] extent(*b, a),
        forall|a: int| 0 <= a < r ==> extent(*b, r as int) > #[trigger] extent(*b, a),
{
    let ex = b.max[0] as i64 - b.min[0] as i64;
    let ey = b.max[1] as i64 - b.min[1] as i64;
    let ez = b.max[2] as i64 - b.min[2] as i64;
    if ex >= ey && ex >= ez {
        0
    } else if ey >= ez {
        1
    } else {
        2
    }
}

/// Whether the centroids of the triangles at the given indices all coincide.
fn centroids_coincide(tris: &Vec<Triangle>, idx: &Vec<usize>) -> (r: bool)
    requires
        idx.len() > 0,
        forall|k: int| 0 <= k < idx.len() ==> (#[trigger] idx[k] as int) < tris.len(),
    ensures
        r == centroids_coincide_spec(tris@, idx@),
{
    let first = &tris[idx[0]];
    let mut k: usize = 1;
    while k < idx.len()
        invariant
            1 <= k <= idx.len(),
            forall|j: int| 0 <= j < idx.len() ==> (#[trigger] idx[j] as int) < tris.len(),
            *first == tris@[idx[0] as int],
            forall|j: int| 0 <= j < k ==> same_centroid(#[trigger] tris@[idx[j] as int], *first),
        decreases idx.len() - k,
    {
        let t = &tris[idx[k]];
        if t.centroid3(0) != first.centroid3(0) || t.centroid3(1) != first.centroid3(1)
            || t.centroid3(2) != first.centroid3(2) {
            assert(!same_centroid(tris@[idx[k as int] as int], *first));
            return false;
        }
        k = k + 1;
    }
    true
}

/// Splits the indices by whether the centroid lies below `twice_mid / 2` on
/// `axis` (compared as `2 * (3 * centroid) < 3 * twice_mid`).
fn partition(tris: &Vec<Triangle>, idx: &Vec<usize>, axis: usize, twice_mid: i64) -> (r: (
    Vec<usize>,
    Vec<usize>,
))
    requires
        axis < 3,
        -0x1_0000_0000 <= twice_mid <= 0x1_0000_0000,
        forall|k: int| 0 <= k < idx.len() ==> (#[trigger] idx[k] as int) < tris.len(),
    ensures
        r.0@.to_multiset().add(r.1@.to_multiset()) == idx@.to_multiset(),
        r.0.len() + r.1.len() == idx.len(),
        forall|j: int|
            0 <= j < r.0.len() ==> 2 * centroid3(tris[#[trigger] r.0[j] as int], axis as int) < 3
                * twice_mid,
        forall|j: int|
            0 <= j < r.1.len() ==> 2 * centroid3(tris[#[trigger] r.1[j] as int], axis as int) >= 3
                * twice_mid,
{
    let mut left: Vec<usize> = Vec::new();
    let mut right: Vec<usize> = Vec::new();
    let mut k: usize = 0;
    while k < idx.len()
        invariant
            k <= idx.len(),
            axis < 3,
            -0x1_0000_0000 <= twice_mid <= 0x1_0000_0000,
            forall|j: int| 0 <= j < idx.len() ==> (#[trigger] idx[j] as int) < tris.len(),
            left@.to_multiset().add(right@.to_multiset()) == idx@.take(k as int).to_multiset(),
            left.len() + right.len() == k,
            forall|j: int|
                0 <= j < left.len() ==> 2 * centroid3(tris[#[trigger] left[j] as int], axis as int)
                    < 3 * twice_mid,
            forall|j: int|
                0 <= j < right.len() ==> 2 * centroid3(tris[#[trigger] right[j] as int], axis as int)
                    >= 3 * twice_mid,
        decreases idx.len() - k,
    {
        let i = idx[k];
        let c = tris[i].centroid3(axis) as i64;
        assert(idx@.take(k + 1) =~= idx@.take(k as int).push(i));
        if 2 * c < 3 * twice_mid {
            left.push(i);
        } else {
            right.push(i);
        }
        k = k + 1;
    }
    assert(idx@.take(idx.len() as int) =~= idx@);
    (left, right)
}

/// The indices in ascending order of centroid on `axis`: an insertion sort.
fn sort_by_centroid(tris: &Vec<Triangle>, idx: &Vec<usize>, axis: usize) -> (r: Vec<usize>)
    requires
        axis < 3,
        forall|k: int| 0 <= k < idx.len() ==> (#[trigger] idx[k] as int) < tris.len(),
    ensures
        r@.to_multiset() == idx@.to_multiset(),
        r.len() == idx.len(),
        forall|k: int| 0 <= k < r.len() ==> (#[trigger] r[k] as int) < tris.len(),
        forall|a: int, b: int|
            0 <= a < b < r.len() ==> centroid3(tris[r[a] as int], axis as int) <= centroid3(
                tris[r[b] as int],
                axis as int,
            ),
{
    let mut sorted: Vec<usize> = Vec::new();
    let mut k: usize = 0;
    while k < idx.len()
        invariant
            k <= idx.len(),
            axis < 3,
            forall|j: int| 0 <= j < idx.len() ==> (#[trigger] idx[j] as int) < tris.len(),
            sorted@.to_multiset() == idx@.take(k as int).to_multiset(),
            sorted.len() == k,
            forall|j: int| 0 <= j < sorted.len() ==> (#[trigger] sorted[j] as int) < tris.len(),
            forall|a: int, b: int|
                0 <= a < b < sorted.len() ==> centroid3(tris[sorted[a] as int], axis as int)
                    <= centroid3(tris[sorted[b] as int], axis as int),
        decreases idx.len() - k,
    {
        let i = idx[k];
        let c = tris[i].centroid3(axis);
        let mut pos: usize = sorted.len();
        while pos > 0 && tris[sorted[pos - 1]].centroid3(axis) > c
            invariant
                pos <= sorted.len(),
                axis < 3,
                forall|j: int| 0 <= j < sorted.len() ==> (#[trigger] sorted[j] as int) < tris.len(),
                forall|j: int|
                    pos <= j < sorted.len() ==> centroid3(tris[#[trigger] sorted[j] as int], axis as int)
                        > c,
            decreases pos,
        {
            pos = pos - 1;
        }
        let ghost before = sorted@;
        sorted.insert(pos, i);
        assert(idx@.take(k + 1) =~= idx@.take(k as int).push(i));
        assert(sorted@ == before.insert(pos as int, i));
        k = k + 1;
    }
    assert(idx@.take(idx.len() as int) =~= idx@);
    sorted
}

/// The first `k` indices and the rest.
fn split_at(v: &Vec<usize>, k: usize) -> (r: (Vec<usize>, Vec<usize>))
    requires
        k <= v.len(),
    ensures
        r.0@ == v@.take(k as int),
        r.1@ == v@.skip(k as int),
{
    let mut left: Vec<usize> = Vec::new();
    let mut right: Vec<usize> = Vec::new();
    let mut j: usize = 0;
    while j < v.len()
        invariant
            k <= v.len(),
            j <= v.len(),
            left@ == v@.take(if j < k { j as int } else { k as int }),
            right@ == v@.subrange(k as int, if j < k { k as int } else { j as int }),
        decreases v.len() - j,
    {
        if j < k {
            left.push(v[j]);
            assert(v@.take(j + 1) =~= v@.take(j as int).push(v[j as int]));
        } else {
            right.push(v[j]);
            assert(v@.subrange(k as int, j + 1) =~= v@.subrange(k as int, j as int).push(v[j as int]));
        }
        j = j + 1;
    }
    assert(right@ =~= v@.skip(k as int));
    (left, right)
}

/// Builds the subtree over the triangles at the given indices.
fn build_node(tris: &Vec<Triangle>, idx: Vec<usize>, leaf_size: usize, depth: usize) -> (r: Node)
    requires
        forall|k: int| 0 <= k < idx.len() ==> (#[trigger] idx[k] as int) < tris.len(),
    ensures
        r.wf(tris@),
        r.items().to_multiset() == idx@.to_multiset(),
        r.follows_policy(tris@, leaf_size, depth as nat),
    decreases idx.len(),
{
    let bounds = enclose(tris, &idx);
    if idx.len() <= leaf_size || depth >= MAX_DEPTH || centroids_coincide(tris, &idx) {
        return Node::Leaf { bounds, items: idx };
    }
    let axis = longest_axis(&bounds);
    let twice_mid = bounds.min[axis] as i64 + bounds.max[axis] as i64;
    let (mut left, mut right) = partition(tris, &idx, axis, twice_mid);
    if left.len() == 0 || right.len() == 0 {
        let sorted = sort_by_centroid(tris, &idx, axis);
        let (l, r) = split_at(&sorted, sorted.len() / 2);
        proof {
            let k = sorted.len() / 2;
            assert forall|i: int, j: int| 0 <= i < l.len() && 0 <= j < r.len() implies centroid3(
                tris@[#[trigger] l@[i] as int],
                axis as int,
            ) <= centroid3(tris@[#[trigger] r@[j] as int], axis as int) by {
                assert(l@[i] == sorted@[i]);
                assert(r@[j] == sorted@[k + j]);
            }
            assert(sorted@ =~= l@ + r@);
            vstd::seq_lib::lemma_multiset_commutative(l@, r@);
        }
        left = l;
        right = r;
    }
    assert(left.len() > 0 && right.len() > 0 && left.len() + right.len() == idx.len());
    assert(separated(tris@, left@, right@, axis as int));
    proof {
        assert forall|k: int| 0 <= k < left.len() implies (#[trigger] left[k] as int) < tris.len() by {
            assert(left@.to_multiset().count(left[k]) > 0);
            assert(idx@.to_multiset().count(left[k]) > 0);
        }
        assert forall|k: int| 0 <= k < right.len() implies (#[trigger] right[k] as int) < tris.len() by {
            assert(right@.to_multiset().count(right[k]) > 0);
            assert(idx@.to_multiset().count(right[k]) > 0);
        }
    }
    let ghost (lv, rv) = (left@, right@);
    let lnode = build_node(tris, left, leaf_size, depth + 1);
    let rnode = build_node(tris, right, leaf_size, depth + 1);
    assert(lnode.items().to_multiset().len() == lv.to_multiset().len());
    assert(rnode.items().to_multiset().len() == rv.to_multiset().len());
    let ub = lnode.bounds().union(rnode.bounds());
    let r = Node::Interior { bounds: ub, axis, left: Box::new(lnode), right: Box::new(rnode) };
    proof {
        let li = lnode.items();
        let ri = rnode.items();
        assert forall|i: int, j: int| 0 <= i < li.len() && 0 <= j < ri.len() implies centroid3(
            tris@[#[trigger] li[i] as int],
            axis as int,
        ) <= centroid3(tris@[#[trigger] ri[j] as int], axis as int) by {
            assert(li.to_multiset().count(li[i]) > 0);
            assert(ri.to_multiset().count(ri[j]) > 0);
            assert(lv.contains(li[i]));
            assert(rv.contains(ri[j]));
            let p = choose|p: int| 0 <= p < lv.len() && lv[p] == li[i];
            let q = choose|q: int| 0 <= q < rv.len() && rv[q] == ri[j];
            assert(centroid3(tris@[lv[p] as int], axis as int) <= centroid3(tris@[rv[q] as int], axis as int));
        }
        vstd::seq_lib::lemma_multiset_commutative(li, ri);
        assert forall|k: int| 0 <= k < r.items().len() implies (#[trigger] r.items()[k] as int)
            < tris.len() && r.spec_bounds().contains_triangle(tris[r.items()[k] as int]) by {
            let t = tris[r.items()[k] as int];
            if k < li.len() {
                assert(r.items()[k] == li[k]);
                lemma_union_contains(lnode.spec_bounds(), rnode.spec_bounds(), t.p[0]);
                lemma_union_contains(lnode.spec_bounds(), rnode.spec_bounds(), t.p[1]);
                lemma_union_contains(lnode.spec_bounds(), rnode.spec_bounds(), t.p[2]);
            } else {
                assert(r.items()[k] == ri[k - li.len()]);
                lemma_union_contains(lnode.spec_bounds(), rnode.spec_bounds(), t.p[0]);
                lemma_union_contains(lnode.spec_bounds(), rnode.spec_bounds(), t.p[1]);
                lemma_union_contains(lnode.spec_bounds(), rnode.spec_bounds(), t.p[2]);
            }
        }
    }
    r
}

} // verus!
