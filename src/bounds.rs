use vstd::prelude::*;

verus! {

/// A point whose coordinates are order-preserving integer keys: `a <= b` on
/// keys holds exactly when it holds on the coordinates they stand for.
#[derive(Clone, Copy, Debug, PartialEq, Eq, Structural)]
pub struct OrderedPoint {
    pub x: u64,
    pub y: u64,
    pub z: u64,
}

pub open spec fn key_min(a: u64, b: u64) -> u64 {
    if a <= b {
        a
    } else {
        b
    }
}

pub open spec fn key_max(a: u64, b: u64) -> u64 {
    if a >= b {
        a
    } else {
        b
    }
}

impl OrderedPoint {
    pub open spec fn coord(self, axis: int) -> u64 {
        if axis == 0 {
            self.x
        } else if axis == 1 {
            self.y
        } else {
            self.z
        }
    }

    /// Component-wise `self <= other`.
    pub open spec fn below(self, other: OrderedPoint) -> bool {
        self.x <= other.x && self.y <= other.y && self.z <= other.z
    }

    pub open spec fn spec_min(self, other: OrderedPoint) -> OrderedPoint {
        OrderedPoint {
            x: key_min(self.x, other.x),
            y: key_min(self.y, other.y),
            z: key_min(self.z, other.z),
        }
    }

    pub open spec fn spec_max(self, other: OrderedPoint) -> OrderedPoint {
        OrderedPoint {
            x: key_max(self.x, other.x),
            y: key_max(self.y, other.y),
            z: key_max(self.z, other.z),
        }
    }

    /// The key of the coordinate on `axis` (0, 1 or 2 for x, y or z).
    pub fn axis(&self, axis: usize) -> (r: u64)
        requires
            axis < 3,
        ensures
            r == self.coord(axis as int),
    {
        if axis == 0 {
            self.x
        } else if axis == 1 {
            self.y
        } else {
            self.z
        }
    }

    /// Component-wise minimum of two points.
    pub fn min(&self, other: &OrderedPoint) -> (r: OrderedPoint)
        ensures
            r == self.spec_min(*other),
    {
        OrderedPoint {
            x: if self.x <= other.x { self.x } else { other.x },
            y: if self.y <= other.y { self.y } else { other.y },
            z: if self.z <= other.z { self.z } else { other.z },
        }
    }

    /// Component-wise maximum of two points.
    pub fn max(&self, other: &OrderedPoint) -> (r: OrderedPoint)
        ensures
            r == self.spec_max(*other),
    {
        OrderedPoint {
            x: if self.x >= other.x { self.x } else { other.x },
            y: if self.y >= other.y { self.y } else { other.y },
            z: if self.z >= other.z { self.z } else { other.z },
        }
    }
}

/// An axis-aligned box given by its two corners.
#[derive(Clone, Copy, Debug, PartialEq, Eq, Structural)]
pub struct AabbBoundingBox {
    pub min_point: OrderedPoint,
    pub max_point: OrderedPoint,
}

impl AabbBoundingBox {
    /// The corners are ordered component-wise.
    pub open spec fn valid(self) -> bool {
        self.min_point.below(self.max_point)
    }

    /// `self` lies inside `outer`, component-wise.
    pub open spec fn within(self, outer: AabbBoundingBox) -> bool {
        outer.min_point.below(self.min_point) && self.max_point.below(outer.max_point)
    }

    pub open spec fn contains_point(self, p: OrderedPoint) -> bool {
        self.min_point.below(p) && p.below(self.max_point)
    }

    pub open spec fn spec_union(self, other: AabbBoundingBox) -> AabbBoundingBox {
        AabbBoundingBox {
            min_point: self.min_point.spec_min(other.min_point),
            max_point: self.max_point.spec_max(other.max_point),
        }
    }

    /// The smallest box that holds both boxes.
    pub fn union(&self, other: &AabbBoundingBox) -> (r: AabbBoundingBox)
        ensures
            r == self.spec_union(*other),
    {
        AabbBoundingBox {
            min_point: self.min_point.min(&other.min_point),
            max_point: self.max_point.max(&other.max_point),
        }
    }

    /// Whether `self` lies inside `outer`.
    pub fn is_within(&self, outer: &AabbBoundingBox) -> (r: bool)
        ensures
            r == self.within(*outer),
    {
        outer.min_point.x <= self.min_point.x && outer.min_point.y <= self.min_point.y
            && outer.min_point.z <= self.min_point.z && self.max_point.x <= outer.max_point.x
            && self.max_point.y <= outer.max_point.y && self.max_point.z <= outer.max_point.z
    }
}

/// Each of the two boxes lies within their union; the union lies within any
/// box that holds both.
pub proof fn lemma_union_bounds(a: AabbBoundingBox, b: AabbBoundingBox, c: AabbBoundingBox)
    ensures
        a.within(a.spec_union(b)),
        b.within(a.spec_union(b)),
        a.within(c) && b.within(c) ==> a.spec_union(b).within(c),
        a.valid() ==> a.spec_union(b).valid(),
{
}

/// Boxes that lie within boxes lie within the outer one.
pub proof fn lemma_within_transitive(a: AabbBoundingBox, b: AabbBoundingBox, c: AabbBoundingBox)
    requires
        a.within(b),
        b.within(c),
    ensures
        a.within(c),
{
}

/// The union of the boxes `boxes[i]` for the indices `i` of `items`, in order;
/// `items` must not be empty.
pub open spec fn hull(boxes: Seq<AabbBoundingBox>, items: Seq<usize>) -> AabbBoundingBox
    decreases items.len(),
{
    if items.len() <= 1 {
        boxes[items[0] as int]
    } else {
        hull(boxes, items.drop_last()).spec_union(boxes[items.last() as int])
    }
}

/// The hull holds the box of each item, and lies within any box that holds them all.
pub proof fn lemma_hull_bounds(boxes: Seq<AabbBoundingBox>, items: Seq<usize>, c: AabbBoundingBox)
    requires
        items.len() >= 1,
    ensures
        forall|k: int| 0 <= k < items.len() ==> #[trigger] boxes[items[k] as int].within(hull(boxes, items)),
        (forall|k: int| 0 <= k < items.len() ==> #[trigger] boxes[items[k] as int].within(c))
            ==> hull(boxes, items).within(c),
    decreases items.len(),
{
    if items.len() > 1 {
        let init = items.drop_last();
        lemma_hull_bounds(boxes, init, c);
        let h = hull(boxes, init);
        let last = boxes[items.last() as int];
        lemma_union_bounds(h, last, c);
        assert forall|k: int| 0 <= k < items.len() implies #[trigger] boxes[items[k] as int].within(hull(boxes, items)) by {
            if k < items.len() - 1 {
                assert(items[k] == init[k]);
                lemma_within_transitive(boxes[items[k] as int], h, h.spec_union(last));
            }
        }
        if forall|k: int| 0 <= k < items.len() ==> #[trigger] boxes[items[k] as int].within(c) {
            assert forall|k: int| 0 <= k < init.len() implies #[trigger] boxes[init[k] as int].within(c) by {
                assert(init[k] == items[k]);
            }
        }
    }
}

/// The hull of the boxes of `items`: the smallest box that holds each of them.
pub fn build_bounding_box(boxes: &Vec<AabbBoundingBox>, items: &Vec<usize>) -> (r: AabbBoundingBox)
    requires
        items.len() >= 1,
        forall|k: int| 0 <= k < items.len() ==> #[trigger] items[k] < boxes.len(),
    ensures
        r == hull(boxes@, items@),
{
    let mut acc = boxes[items[0]];
    let mut k: usize = 1;
    while k < items.len()
        invariant
            1 <= k <= items.len(),
            forall|j: int| 0 <= j < items.len() ==> #[trigger] items[j] < boxes.len(),
            acc == hull(boxes@, items@.subrange(0, k as int)),
        decreases items.len() - k,
    {
        let next = boxes[items[k]];
        proof {
            assert(items@.subrange(0, k as int + 1).drop_last() =~= items@.subrange(0, k as int));
        }
        acc = acc.union(&next);
        k = k + 1;
    }
    proof {
        assert(items@.subrange(0, items.len() as int) =~= items@);
    }
    acc
}

} // verus!
