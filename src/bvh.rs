use vstd::prelude::*;
use rand::Rng;
use crate::bounds::{
    AabbBoundingBox, build_bounding_box, hull, lemma_hull_bounds, lemma_union_bounds,
    lemma_within_transitive,
};
use crate::nearest::{
    Hit, closer, indices, is_nearest, lemma_nearest_of_is_nearest, lemma_nearest_unique, nearest_of,
};

verus! {

/// Relies on rand::thread_rng and rand::Rng::gen_range: a value drawn from the
/// non-empty range `0..3`.
#[verifier::external_body]
fn random_axis() -> (r: usize)
    ensures
        r < 3,
{
    rand::thread_rng().gen_range(0..3usize)
}

/// The key by which primitive `i` is ordered along `axis`: its box's minimum there.
pub open spec fn sort_key(boxes: Seq<AabbBoundingBox>, i: usize, axis: int) -> u64 {
    boxes[i as int].min_point.coord(axis)
}

/// Every index of `items` names a box.
pub open spec fn all_named(boxes: Seq<AabbBoundingBox>, items: Seq<usize>) -> bool {
    forall|k: int| 0 <= k < items.len() ==> #[trigger] items[k] < boxes.len()
}

/// `items` is ordered by the boxes' minimum along `axis`.
pub open spec fn sorted_on(boxes: Seq<AabbBoundingBox>, items: Seq<usize>, axis: int) -> bool {
    forall|j: int, k: int|
        0 <= j < k < items.len() ==> sort_key(boxes, #[trigger] items[j], axis) <= sort_key(
            boxes,
            #[trigger] items[k],
            axis,
        )
}

/// Two sequences of indices of equal length that hold the same indices.
pub open spec fn same_items(a: Seq<usize>, b: Seq<usize>) -> bool {
    a.len() == b.len() && forall|i: usize| a.contains(i) <==> b.contains(i)
}

/// `items` ordered by the boxes' minimum along `axis`; items with equal keys
/// keep their order.
fn sort_on_axis(boxes: &Vec<AabbBoundingBox>, items: &Vec<usize>, axis: usize) -> (r: Vec<usize>)
    requires
        axis < 3,
        all_named(boxes@, items@),
    ensures
        same_items(r@, items@),
        all_named(boxes@, r@),
        sorted_on(boxes@, r@, axis as int),
{
    let mut r: Vec<usize> = Vec::new();
    let mut k: usize = 0;
    while k < items.len()
        invariant
            k <= items.len(),
            axis < 3,
            all_named(boxes@, items@),
            all_named(boxes@, r@),
            same_items(r@, items@.subrange(0, k as int)),
            sorted_on(boxes@, r@, axis as int),
        decreases items.len() - k,
    {
        let x = items[k];
        let key = boxes[x].min_point.axis(axis);
        let mut p: usize = 0;
        while p < r.len() && boxes[r[p]].min_point.axis(axis) <= key
            invariant
                p <= r.len(),
                axis < 3,
                x < boxes.len(),
                key == sort_key(boxes@, x, axis as int),
                all_named(boxes@, r@),
                sorted_on(boxes@, r@, axis as int),
                forall|j: int| 0 <= j < p ==> sort_key(boxes@, #[trigger] r@[j], axis as int) <= key,
            decreases r.len() - p,
        {
            p = p + 1;
        }
        let ghost old_r = r@;
        let ghost prefix = items@.subrange(0, k as int);
        r.insert(p, x);
        proof {
            assert(r@ == old_r.insert(p as int, x));
            assert forall|j: int| 0 <= j < r@.len() implies #[trigger] r@[j] < boxes.len() by {
                if j < p {
                    assert(r@[j] == old_r[j]);
                } else if j > p {
                    assert(r@[j] == old_r[j - 1]);
                }
            }
            assert forall|j: int, m: int| 0 <= j < m < r@.len() implies sort_key(boxes@, #[trigger] r@[j], axis as int)
                <= sort_key(boxes@, #[trigger] r@[m], axis as int) by {
                if p < old_r.len() {
                    assert(sort_key(boxes@, old_r[p as int], axis as int) > key);
                }
                if m < p {
                    assert(r@[j] == old_r[j]);
                    assert(r@[m] == old_r[m]);
                } else if j < p && m == p {
                    assert(r@[j] == old_r[j]);
                } else if j < p {
                    assert(r@[j] == old_r[j]);
                    assert(r@[m] == old_r[m - 1]);
                } else if j == p {
                    assert(r@[m] == old_r[m - 1]);
                    assert(sort_key(boxes@, old_r[p as int], axis as int) <= sort_key(boxes@, old_r[m - 1], axis as int)
                        || m - 1 == p);
                } else {
                    assert(r@[j] == old_r[j - 1]);
                    assert(r@[m] == old_r[m - 1]);
                }
            }
            let next = items@.subrange(0, k as int + 1);
            assert(next == prefix.push(x));
            assert forall|i: usize| r@.contains(i) <==> next.contains(i) by {
                if r@.contains(i) {
                    let j = choose|j: int| 0 <= j < r@.len() && r@[j] == i;
                    if j < p {
                        assert(old_r[j] == i);
                        assert(old_r.contains(i));
                        let m = choose|m: int| 0 <= m < prefix.len() && prefix[m] == i;
                        assert(next[m] == i);
                    } else if j > p {
                        assert(old_r[j - 1] == i);
                        assert(old_r.contains(i));
                        let m = choose|m: int| 0 <= m < prefix.len() && prefix[m] == i;
                        assert(next[m] == i);
                    } else {
                        assert(next[k as int] == i);
                    }
                }
                if next.contains(i) {
                    let m = choose|m: int| 0 <= m < next.len() && next[m] == i;
                    if m < k {
                        assert(prefix[m] == i);
                        assert(prefix.contains(i));
                        let j = choose|j: int| 0 <= j < old_r.len() && old_r[j] == i;
                        if j < p {
                            assert(r@[j] == i);
                        } else {
                            assert(r@[j + 1] == i);
                        }
                    } else {
                        assert(r@[p as int] == i);
                    }
                }
            }
        }
        k = k + 1;
    }
    proof {
        assert(items@.subrange(0, items.len() as int) =~= items@);
    }
    r
}

/// A copy of `v[lo..hi]`.
fn copy_range(v: &Vec<usize>, lo: usize, hi: usize) -> (r: Vec<usize>)
    requires
        lo <= hi <= v.len(),
    ensures
        r@ == v@.subrange(lo as int, hi as int),
{
    let mut r: Vec<usize> = Vec::new();
    let mut k: usize = lo;
    while k < hi
        invariant
            lo <= k <= hi <= v.len(),
            r@ == v@.subrange(lo as int, k as int),
        decreases hi - k,
    {
        r.push(v[k]);
        k = k + 1;
    }
    r
}

/// A bounding-volume hierarchy over primitives named by their index into a
/// list of boxes. Each node keeps the indices under it, ordered along the axis
/// that it chose.
pub enum BoundingBoxTree {
    Leaf { bounds: AabbBoundingBox, objects: Vec<usize> },
    Node {
        bounds: AabbBoundingBox,
        objects: Vec<usize>,
        left: Box<BoundingBoxTree>,
        right: Box<BoundingBoxTree>,
    },
}

impl BoundingBoxTree {
    pub open spec fn spec_bounds(self) -> AabbBoundingBox {
        match self {
            BoundingBoxTree::Leaf { bounds, .. } => bounds,
            BoundingBoxTree::Node { bounds, .. } => bounds,
        }
    }

    pub open spec fn spec_objects(self) -> Seq<usize> {
        match self {
            BoundingBoxTree::Leaf { objects, .. } => objects@,
            BoundingBoxTree::Node { objects, .. } => objects@,
        }
    }

    /// The tree is built over `boxes` with leaves of at most `leaf_size`
    /// primitives: a leaf's box is the hull of its primitives' boxes; a node
    /// holds more than `leaf_size` primitives, ordered along some axis, hands
    /// the lower half of that order to its left child and the rest to its
    /// right child, and its box is the union of theirs.
    pub open spec fn wf(self, boxes: Seq<AabbBoundingBox>, leaf_size: nat) -> bool
        decreases self,
    {
        match self {
            BoundingBoxTree::Leaf { bounds, objects } => {
                &&& 1 <= objects.len() <= leaf_size
                &&& all_named(boxes, objects@)
                &&& bounds == hull(boxes, objects@)
                &&& exists|a: int| 0 <= a < 3 && sorted_on(boxes, objects@, a)
            },
            BoundingBoxTree::Node { bounds, objects, left, right } => {
                let mid = objects.len() / 2;
                &&& objects.len() > leaf_size
                &&& all_named(boxes, objects@)
                &&& exists|a: int| 0 <= a < 3 && sorted_on(boxes, objects@, a)
                &&& left.wf(boxes, leaf_size)
                &&& right.wf(boxes, leaf_size)
                &&& same_items(left.spec_objects(), objects@.subrange(0, mid as int))
                &&& same_items(right.spec_objects(), objects@.subrange(mid as int, objects.len() as int))
                &&& bounds == left.spec_bounds().spec_union(right.spec_bounds())
            },
        }
    }

    /// The tree over the primitives `items`, split at the median of a randomly
    /// chosen axis until at most `leaf_size` remain.
    pub fn build(boxes: &Vec<AabbBoundingBox>, items: &Vec<usize>, leaf_size: usize) -> (r: BoundingBoxTree)
        requires
            items.len() >= 1,
            leaf_size >= 1,
            all_named(boxes@, items@),
        ensures
            r.wf(boxes@, leaf_size as nat),
            same_items(r.spec_objects(), items@),
        decreases items.len(),
    {
        let axis = random_axis();
        let sorted = sort_on_axis(boxes, items, axis);
        if sorted.len() <= leaf_size {
            let bounds = build_bounding_box(boxes, &sorted);
            return BoundingBoxTree::Leaf { bounds, objects: sorted };
        }
        let n = sorted.len();
        let mid = n / 2;
        let lower = copy_range(&sorted, 0, mid);
        let upper = copy_range(&sorted, mid, n);
        assert(all_named(boxes@, lower@));
        assert(all_named(boxes@, upper@)) by {
            assert forall|k: int| 0 <= k < upper@.len() implies #[trigger] upper@[k] < boxes.len() by {
                assert(upper@[k] == sorted@[mid + k]);
            }
        }
        let left = BoundingBoxTree::build(boxes, &lower, leaf_size);
        let right = BoundingBoxTree::build(boxes, &upper, leaf_size);
        let bounds = left.get_bounding_box().union(&right.get_bounding_box());
        BoundingBoxTree::Node { bounds, objects: sorted, left: Box::new(left), right: Box::new(right) }
    }

    /// The tree over all primitives `0..boxes.len()`, with at most `leaf_size`
    /// in a leaf.
    pub fn new(boxes: &Vec<AabbBoundingBox>, leaf_size: usize) -> (r: BoundingBoxTree)
        requires
            boxes.len() >= 1,
            leaf_size >= 1,
        ensures
            r.wf(boxes@, leaf_size as nat),
            r.spec_objects().len() == boxes.len(),
            forall|i: usize| r.spec_objects().contains(i) <==> i < boxes.len(),
    {
        let mut items: Vec<usize> = Vec::new();
        let mut k: usize = 0;
        while k < boxes.len()
            invariant
                k <= boxes.len(),
                items@ == Seq::new(k as nat, |i: int| i as usize),
            decreases boxes.len() - k,
        {
            items.push(k);
            k = k + 1;
        }
        let r = BoundingBoxTree::build(boxes, &items, leaf_size);
        proof {
            assert forall|i: usize| items@.contains(i) <==> i < boxes.len() by {
                if i < boxes.len() {
                    assert(items@[i as int] == i);
                }
            }
        }
        r
    }

    /// The box of the node: it holds the boxes of every primitive under it.
    pub fn get_bounding_box(&self) -> (r: AabbBoundingBox)
        ensures
            r == self.spec_bounds(),
    {
        match self {
            BoundingBoxTree::Leaf { bounds, .. } => *bounds,
            BoundingBoxTree::Node { bounds, .. } => *bounds,
        }
    }

    /// The primitives under the node, in the order of the axis it chose.
    pub fn objects(&self) -> (r: &Vec<usize>)
        ensures
            r@ == self.spec_objects(),
    {
        match self {
            BoundingBoxTree::Leaf { objects, .. } => objects,
            BoundingBoxTree::Node { objects, .. } => objects,
        }
    }
}

/// `f` answers for primitive `i` exactly `hits(i)`.
pub open spec fn answers_hits<P: Fn(usize) -> Option<u64>>(f: P, hits: spec_fn(usize) -> Option<u64>) -> bool {
    forall|i: usize, r: Option<u64>| f.ensures((i,), r) ==> r == hits(i)
}

/// `f` answers for box `b` exactly `box_hits(b)`.
pub open spec fn answers_boxes<B: Fn(AabbBoundingBox) -> bool>(f: B, box_hits: spec_fn(AabbBoundingBox) -> bool) -> bool {
    forall|b: AabbBoundingBox, r: bool| f.ensures((b,), r) ==> r == box_hits(b)
}

/// The box test never rejects a box that holds a primitive which is hit.
pub open spec fn conservative(
    boxes: Seq<AabbBoundingBox>,
    box_hits: spec_fn(AabbBoundingBox) -> bool,
    hits: spec_fn(usize) -> Option<u64>,
) -> bool {
    forall|c: AabbBoundingBox, i: usize|
        i < boxes.len() && (#[trigger] hits(i)).is_some() && boxes[i as int].within(c) ==> #[trigger] box_hits(c)
}

impl BoundingBoxTree {
    /// What a query returns when the ray meets box `b` exactly where
    /// `box_hits(b)` and primitive `i` at key `t` exactly where
    /// `hits(i) == Some(t)`: nothing where the node's box is missed; in a leaf,
    /// the first of its primitives with the smallest key; in a node, the nearer
    /// of its children's answers, the right one on equal keys.
    pub open spec fn spec_hit(
        self,
        box_hits: spec_fn(AabbBoundingBox) -> bool,
        hits: spec_fn(usize) -> Option<u64>,
    ) -> Option<Hit>
        decreases self,
    {
        match self {
            BoundingBoxTree::Leaf { bounds, objects } => if box_hits(bounds) {
                nearest_of(objects@, hits)
            } else {
                None
            },
            BoundingBoxTree::Node { bounds, left, right, .. } => if box_hits(bounds) {
                closer(left.spec_hit(box_hits, hits), right.spec_hit(box_hits, hits))
            } else {
                None
            },
        }
    }

    /// The nearest primitive that the ray hits, with the key of its `t`.
    /// `box_hit` tests the ray against a box; `prim_hit` tests it against a
    /// primitive and gives the key of `t` on a hit.
    pub fn hit<B: Fn(AabbBoundingBox) -> bool, P: Fn(usize) -> Option<u64>>(
        &self,
        box_hit: &B,
        prim_hit: &P,
    ) -> (r: Option<Hit>)
        requires
            forall|b: AabbBoundingBox| box_hit.requires((b,)),
            forall|i: usize| prim_hit.requires((i,)),
        ensures
            forall|box_hits: spec_fn(AabbBoundingBox) -> bool, hits: spec_fn(usize) -> Option<u64>|
                #[trigger] answers_boxes(*box_hit, box_hits) && #[trigger] answers_hits(*prim_hit, hits)
                    ==> r == self.spec_hit(box_hits, hits),
        decreases self,
    {
        match self {
            BoundingBoxTree::Leaf { bounds, objects } => {
                if !box_hit(*bounds) {
                    return None;
                }
                let mut best: Option<Hit> = None;
                let mut k: usize = 0;
                while k < objects.len()
                    invariant
                        k <= objects.len(),
                        forall|i: usize| prim_hit.requires((i,)),
                        forall|hits: spec_fn(usize) -> Option<u64>|
                            #[trigger] answers_hits(*prim_hit, hits) ==> best == nearest_of(
                                objects@.subrange(0, k as int),
                                hits,
                            ),
                    decreases objects.len() - k,
                {
                    let i = objects[k];
                    let res = prim_hit(i);
                    let ghost prev = best;
                    match res {
                        None => {},
                        Some(t) => {
                            let better = match best {
                                None => true,
                                Some(p) => t < p.1,
                            };
                            if better {
                                best = Some((i, t));
                            }
                        },
                    }
                    proof {
                        assert(objects@.subrange(0, k as int + 1).drop_last() =~= objects@.subrange(0, k as int));
                    }
                    k = k + 1;
                }
                proof {
                    assert(objects@.subrange(0, objects.len() as int) =~= objects@);
                }
                best
            },
            BoundingBoxTree::Node { bounds, left, right, .. } => {
                if !box_hit(*bounds) {
                    return None;
                }
                let l = left.hit(box_hit, prim_hit);
                let r = right.hit(box_hit, prim_hit);
                crate::nearest::nearer(l, r)
            },
        }
    }
}

/// In a node, the box holds the boxes of both children.
pub proof fn lemma_node_encloses_children(tree: BoundingBoxTree, boxes: Seq<AabbBoundingBox>, leaf_size: nat)
    requires
        tree.wf(boxes, leaf_size),
        tree is Node,
    ensures
        tree->left.spec_bounds().within(tree.spec_bounds()),
        tree->right.spec_bounds().within(tree.spec_bounds()),
{
    lemma_union_bounds(tree->left.spec_bounds(), tree->right.spec_bounds(), tree.spec_bounds());
}

/// In a leaf, the box holds the box of each of its primitives.
pub proof fn lemma_leaf_encloses_objects(tree: BoundingBoxTree, boxes: Seq<AabbBoundingBox>, leaf_size: nat)
    requires
        tree.wf(boxes, leaf_size),
        tree is Leaf,
    ensures
        forall|k: int|
            0 <= k < tree.spec_objects().len() ==> #[trigger] boxes[tree.spec_objects()[k] as int].within(
                tree.spec_bounds(),
            ),
{
    lemma_hull_bounds(boxes, tree.spec_objects(), tree.spec_bounds());
}

/// Every node's box holds the box of each primitive under it.
pub proof fn lemma_node_encloses_objects(tree: BoundingBoxTree, boxes: Seq<AabbBoundingBox>, leaf_size: nat)
    requires
        tree.wf(boxes, leaf_size),
    ensures
        forall|k: int|
            0 <= k < tree.spec_objects().len() ==> #[trigger] boxes[tree.spec_objects()[k] as int].within(
                tree.spec_bounds(),
            ),
    decreases tree,
{
    match tree {
        BoundingBoxTree::Leaf { .. } => lemma_leaf_encloses_objects(tree, boxes, leaf_size),
        BoundingBoxTree::Node { bounds, objects, left, right } => {
            lemma_node_encloses_objects(*left, boxes, leaf_size);
            lemma_node_encloses_objects(*right, boxes, leaf_size);
            lemma_node_encloses_children(tree, boxes, leaf_size);
            let mid = objects.len() / 2;
            assert forall|k: int| 0 <= k < objects@.len() implies #[trigger] boxes[objects@[k] as int].within(bounds) by {
                let o = objects@[k];
                if k < mid {
                    let sub = objects@.subrange(0, mid as int);
                    assert(sub[k] == o);
                    assert(sub.contains(o));
                    let j = choose|j: int| 0 <= j < left.spec_objects().len() && left.spec_objects()[j] == o;
                    lemma_within_transitive(boxes[o as int], left.spec_bounds(), bounds);
                } else {
                    let sub = objects@.subrange(mid as int, objects.len() as int);
                    assert(sub[k - mid] == o);
                    assert(sub.contains(o));
                    let j = choose|j: int| 0 <= j < right.spec_objects().len() && right.spec_objects()[j] == o;
                    lemma_within_transitive(boxes[o as int], right.spec_bounds(), bounds);
                }
            }
        },
    }
}

/// The nearer of nearest hits over two candidate lists is a nearest hit over
/// any list that holds what the two hold.
pub proof fn lemma_closer_is_nearest(
    a: Option<Hit>,
    b: Option<Hit>,
    ids_a: Seq<usize>,
    ids_b: Seq<usize>,
    ids: Seq<usize>,
    hits: spec_fn(usize) -> Option<u64>,
)
    requires
        is_nearest(a, ids_a, hits),
        is_nearest(b, ids_b, hits),
        forall|y: usize| ids.contains(y) <==> (ids_a.contains(y) || ids_b.contains(y)),
    ensures
        is_nearest(closer(a, b), ids, hits),
{
    assert forall|k: int| 0 <= k < ids.len() implies ids_a.contains(#[trigger] ids[k]) || ids_b.contains(ids[k]) by {
        assert(ids.contains(ids[k]));
    }
    let c = closer(a, b);
    if let Some(h) = c {
        assert(ids_a.contains(h.0) || ids_b.contains(h.0));
        assert forall|k: int| 0 <= k < ids.len() && (#[trigger] hits(ids[k])).is_some() implies h.1 <= hits(ids[k]).unwrap() by {
            if ids_a.contains(ids[k]) {
                let j = choose|j: int| 0 <= j < ids_a.len() && ids_a[j] == ids[k];
                assert(hits(ids_a[j]).is_some());
            } else {
                let j = choose|j: int| 0 <= j < ids_b.len() && ids_b[j] == ids[k];
                assert(hits(ids_b[j]).is_some());
            }
        }
    } else {
        assert forall|k: int| 0 <= k < ids.len() implies (#[trigger] hits(ids[k])).is_none() by {
            if ids_a.contains(ids[k]) {
                let j = choose|j: int| 0 <= j < ids_a.len() && ids_a[j] == ids[k];
                assert(hits(ids_a[j]).is_none());
            } else {
                let j = choose|j: int| 0 <= j < ids_b.len() && ids_b[j] == ids[k];
                assert(hits(ids_b[j]).is_none());
            }
        }
    }
}

/// With a box test that never rejects a box holding a hit primitive, the query
/// finds a nearest hit among the primitives under the node.
pub proof fn lemma_hit_is_nearest(
    tree: BoundingBoxTree,
    boxes: Seq<AabbBoundingBox>,
    leaf_size: nat,
    box_hits: spec_fn(AabbBoundingBox) -> bool,
    hits: spec_fn(usize) -> Option<u64>,
)
    requires
        tree.wf(boxes, leaf_size),
        conservative(boxes, box_hits, hits),
    ensures
        is_nearest(tree.spec_hit(box_hits, hits), tree.spec_objects(), hits),
    decreases tree,
{
    let objs = tree.spec_objects();
    if !box_hits(tree.spec_bounds()) {
        lemma_node_encloses_objects(tree, boxes, leaf_size);
        assert forall|k: int| 0 <= k < objs.len() implies (#[trigger] hits(objs[k])).is_none() by {
            assert(boxes[objs[k] as int].within(tree.spec_bounds()));
            assert(all_named(boxes, objs));
        }
    } else {
        match tree {
            BoundingBoxTree::Leaf { .. } => lemma_nearest_of_is_nearest(objs, hits),
            BoundingBoxTree::Node { objects, left, right, .. } => {
                lemma_hit_is_nearest(*left, boxes, leaf_size, box_hits, hits);
                lemma_hit_is_nearest(*right, boxes, leaf_size, box_hits, hits);
                let mid = objects.len() / 2;
                let lo = objects@.subrange(0, mid as int);
                let hi = objects@.subrange(mid as int, objects.len() as int);
                assert forall|y: usize| objs.contains(y) <==> (left.spec_objects().contains(y) || right.spec_objects().contains(y)) by {
                    if objs.contains(y) {
                        let k = choose|k: int| 0 <= k < objs.len() && objs[k] == y;
                        if k < mid {
                            assert(lo[k] == y);
                        } else {
                            assert(hi[k - mid] == y);
                        }
                    }
                    if lo.contains(y) {
                        let k = choose|k: int| 0 <= k < lo.len() && lo[k] == y;
                        assert(objs[k] == y);
                    }
                    if hi.contains(y) {
                        let k = choose|k: int| 0 <= k < hi.len() && hi[k] == y;
                        assert(objs[k + mid] == y);
                    }
                }
                lemma_closer_is_nearest(
                    left.spec_hit(box_hits, hits),
                    right.spec_hit(box_hits, hits),
                    left.spec_objects(),
                    right.spec_objects(),
                    objs,
                    hits,
                );
            },
        }
    }
}

/// A query on a tree over all primitives agrees with a linear scan over them,
/// provided the box test never rejects a box that holds a hit primitive: both
/// find a hit or neither does, they find it at the same key, and the
/// primitive that the tree returns is hit at that key.
pub proof fn lemma_tree_hit_matches_scan(
    tree: BoundingBoxTree,
    boxes: Seq<AabbBoundingBox>,
    leaf_size: nat,
    box_hits: spec_fn(AabbBoundingBox) -> bool,
    hits: spec_fn(usize) -> Option<u64>,
)
    requires
        tree.wf(boxes, leaf_size),
        forall|i: usize| tree.spec_objects().contains(i) <==> i < boxes.len(),
        conservative(boxes, box_hits, hits),
    ensures
        ({
            let t = tree.spec_hit(box_hits, hits);
            let s = nearest_of(indices(boxes.len()), hits);
            &&& t.is_some() == s.is_some()
            &&& t.is_some() ==> {
                &&& t.unwrap().1 == s.unwrap().1
                &&& t.unwrap().0 < boxes.len()
                &&& hits(t.unwrap().0) == Some(t.unwrap().1)
            }
        }),
{
    let ids = indices(boxes.len());
    lemma_hit_is_nearest(tree, boxes, leaf_size, box_hits, hits);
    lemma_nearest_of_is_nearest(ids, hits);
    assert forall|i: usize| hits(i).is_some() implies (tree.spec_objects().contains(i) <==> ids.contains(i)) by {
        if i < boxes.len() {
            assert(ids[i as int] == i);
        }
    }
    lemma_nearest_unique(tree.spec_hit(box_hits, hits), nearest_of(ids, hits), tree.spec_objects(), ids, hits);
}

} // verus!
