use vstd::prelude::*;
use crate::bounds::{AabbBoundingBox, OrderedPoint};
use crate::bvh::{
    BoundingBoxTree, all_named, answers_boxes, answers_hits, conservative, lemma_hit_is_nearest,
    lemma_closer_is_nearest,
};
use crate::nearest::{Hit, closer, indices, is_nearest, lemma_nearest_of_is_nearest, lemma_nearest_unique, nearest_of};

verus! {

/// How many primitives a leaf of the scene's tree holds at most.
pub const LEAF_SIZE: usize = 5;

/// The primitives of a scene, named by index: those with a box sit in a
/// bounding-volume hierarchy, the unbounded ones (infinite planes) in a flat
/// list that every query scans.
pub struct World {
    pub boxes: Vec<AabbBoundingBox>,
    pub tree: Option<BoundingBoxTree>,
    pub unbounded: Vec<usize>,
}

/// The indices `i < bounds.len()` with `bounds[i]` present (`want == true`) or
/// absent (`want == false`), in increasing order.
pub open spec fn select(bounds: Seq<Option<AabbBoundingBox>>, want: bool) -> Seq<usize>
    decreases bounds.len(),
{
    if bounds.len() == 0 {
        Seq::empty()
    } else {
        let prev = select(bounds.drop_last(), want);
        if bounds.last().is_some() == want {
            prev.push((bounds.len() - 1) as usize)
        } else {
            prev
        }
    }
}

proof fn lemma_select_contains(bounds: Seq<Option<AabbBoundingBox>>, want: bool)
    requires
        bounds.len() <= usize::MAX,
    ensures
        forall|i: usize| select(bounds, want).contains(i) <==> (i < bounds.len() && bounds[i as int].is_some() == want),
    decreases bounds.len(),
{
    if bounds.len() > 0 {
        let init = bounds.drop_last();
        lemma_select_contains(init, want);
        let prev = select(init, want);
        let cur = select(bounds, want);
        assert forall|i: usize| cur.contains(i) <==> (i < bounds.len() && bounds[i as int].is_some() == want) by {
            if i < init.len() {
                assert(init[i as int] == bounds[i as int]);
            }
            if bounds.last().is_some() == want {
                assert(cur == prev.push((bounds.len() - 1) as usize));
                if cur.contains(i) {
                    let k = choose|k: int| 0 <= k < cur.len() && cur[k] == i;
                    if k < prev.len() {
                        assert(prev[k] == i);
                    }
                }
                if prev.contains(i) {
                    let k = choose|k: int| 0 <= k < prev.len() && prev[k] == i;
                    assert(cur[k] == i);
                }
                if i == bounds.len() - 1 {
                    assert(cur[prev.len() as int] == i);
                }
            } else {
                assert(cur == prev);
            }
        }
    }
}

impl World {
    /// `bounds[i]` is the box of primitive `i`, absent for an unbounded one.
    pub open spec fn wf(self, bounds: Seq<Option<AabbBoundingBox>>) -> bool {
        &&& self.boxes.len() == bounds.len()
        &&& forall|i: int| 0 <= i < bounds.len() && #[trigger] bounds[i].is_some() ==> self.boxes@[i] == bounds[i].unwrap()
        &&& self.unbounded@ == select(bounds, false)
        &&& match self.tree {
            None => select(bounds, true).len() == 0,
            Some(t) => {
                &&& t.wf(self.boxes@, LEAF_SIZE as nat)
                &&& forall|i: usize| t.spec_objects().contains(i) <==> select(bounds, true).contains(i)
            },
        }
    }

    /// What a query returns when the tests answer as `box_hits` and `hits`
    /// do: the nearer of the first nearest unbounded primitive and the tree's
    /// answer, the tree's on equal keys.
    pub open spec fn spec_hit(
        self,
        box_hits: spec_fn(AabbBoundingBox) -> bool,
        hits: spec_fn(usize) -> Option<u64>,
    ) -> Option<Hit> {
        let flat = nearest_of(self.unbounded@, hits);
        match self.tree {
            None => flat,
            Some(t) => closer(flat, t.spec_hit(box_hits, hits)),
        }
    }

    /// The scene over primitives with the given boxes (absent for an
    /// unbounded primitive).
    pub fn new(bounds: &Vec<Option<AabbBoundingBox>>) -> (r: World)
        ensures
            r.wf(bounds@),
    {
        let mut boxes: Vec<AabbBoundingBox> = Vec::new();
        let mut bounded: Vec<usize> = Vec::new();
        let mut unbounded: Vec<usize> = Vec::new();
        let mut k: usize = 0;
        while k < bounds.len()
            invariant
                k <= bounds.len(),
                boxes.len() == k,
                forall|i: int| 0 <= i < k && #[trigger] bounds@[i].is_some() ==> boxes@[i] == bounds@[i].unwrap(),
                bounded@ == select(bounds@.subrange(0, k as int), true),
                unbounded@ == select(bounds@.subrange(0, k as int), false),
            decreases bounds.len() - k,
        {
            proof {
                assert(bounds@.subrange(0, k as int + 1).drop_last() =~= bounds@.subrange(0, k as int));
            }
            match bounds[k] {
                Some(b) => {
                    boxes.push(b);
                    bounded.push(k);
                },
                None => {
                    boxes.push(AabbBoundingBox {
                        min_point: OrderedPoint { x: 0, y: 0, z: 0 },
                        max_point: OrderedPoint { x: 0, y: 0, z: 0 },
                    });
                    unbounded.push(k);
                },
            }
            k = k + 1;
        }
        proof {
            assert(bounds@.subrange(0, bounds.len() as int) =~= bounds@);
            lemma_select_contains(bounds@, true);
            assert forall|j: int| 0 <= j < bounded@.len() implies #[trigger] bounded@[j] < boxes.len() by {
                assert(bounded@.contains(bounded@[j]));
            }
        }
        let tree = if bounded.len() == 0 {
            None
        } else {
            Some(BoundingBoxTree::build(&boxes, &bounded, LEAF_SIZE))
        };
        World { boxes, tree, unbounded }
    }

    /// The nearest primitive that the ray hits, with the key of its `t`:
    /// the unbounded primitives are tested first, then the tree.
    pub fn hit<B: Fn(AabbBoundingBox) -> bool, P: Fn(usize) -> Option<u64>>(
        &self,
        box_hit: &B,
        prim_hit: &P,
    ) -> (r: Option<Hit>)
        requires
            forall|b: AabbBoundingBox| box_hit.requires((b,)),
            forall|i: usize| prim_hit.requires((i,)),
        ensures
            forall|box_hits: spec_fn(AabbBoundingBox) -> bool, hits: spec_fn(usize) -> Option<u64>|
                #[trigger] answers_boxes(*box_hit, box_hits) && #[trigger] answers_hits(*prim_hit, hits)
                    ==> r == self.spec_hit(box_hits, hits),
    {
        let mut flat: Option<Hit> = None;
        let mut k: usize = 0;
        while k < self.unbounded.len()
            invariant
                k <= self.unbounded.len(),
                forall|i: usize| prim_hit.requires((i,)),
                forall|hits: spec_fn(usize) -> Option<u64>|
                    #[trigger] answers_hits(*prim_hit, hits) ==> flat == nearest_of(
                        self.unbounded@.subrange(0, k as int),
                        hits,
                    ),
            decreases self.unbounded.len() - k,
        {
            let i = self.unbounded[k];
            let res = prim_hit(i);
            match res {
                None => {},
                Some(t) => {
                    let better = match flat {
                        None => true,
                        Some(p) => t < p.1,
                    };
                    if better {
                        flat = Some((i, t));
                    }
                },
            }
            proof {
                assert(self.unbounded@.subrange(0, k as int + 1).drop_last() =~= self.unbounded@.subrange(0, k as int));
            }
            k = k + 1;
        }
        proof {
            assert(self.unbounded@.subrange(0, self.unbounded.len() as int) =~= self.unbounded@);
        }
        match &self.tree {
            None => flat,
            Some(t) => {
                let found = t.hit(box_hit, prim_hit);
                crate::nearest::nearer(flat, found)
            },
        }
    }
}

/// A query on a scene agrees with a linear scan over all of its primitives,
/// provided the box test never rejects a box that holds a hit primitive: both
/// find a hit or neither does, at the same key, and the primitive that the
/// scene returns is hit at that key.
pub proof fn lemma_world_hit_matches_scan(
    world: World,
    bounds: Seq<Option<AabbBoundingBox>>,
    box_hits: spec_fn(AabbBoundingBox) -> bool,
    hits: spec_fn(usize) -> Option<u64>,
)
    requires
        world.wf(bounds),
        conservative(world.boxes@, box_hits, hits),
    ensures
        ({
            let w = world.spec_hit(box_hits, hits);
            let s = nearest_of(indices(bounds.len()), hits);
            &&& w.is_some() == s.is_some()
            &&& w.is_some() ==> {
                &&& w.unwrap().1 == s.unwrap().1
                &&& w.unwrap().0 < bounds.len()
                &&& hits(w.unwrap().0) == Some(w.unwrap().1)
            }
        }),
{
    let ids = indices(bounds.len());
    let flat_ids = world.unbounded@;
    lemma_select_contains(bounds, true);
    lemma_select_contains(bounds, false);
    lemma_nearest_of_is_nearest(flat_ids, hits);
    lemma_nearest_of_is_nearest(ids, hits);
    let flat = nearest_of(flat_ids, hits);
    assert forall|i: usize| ids.contains(i) <==> i < bounds.len() by {
        if i < bounds.len() {
            assert(ids[i as int] == i);
        }
    }
    match world.tree {
        None => {
            assert forall|i: usize| hits(i).is_some() implies (flat_ids.contains(i) <==> ids.contains(i)) by {
                if i < bounds.len() && bounds[i as int].is_some() {
                    assert(select(bounds, true).contains(i));
                }
            }
            lemma_nearest_unique(flat, nearest_of(ids, hits), flat_ids, ids, hits);
        },
        Some(t) => {
            lemma_hit_is_nearest(t, world.boxes@, LEAF_SIZE as nat, box_hits, hits);
            lemma_closer_is_nearest(flat, t.spec_hit(box_hits, hits), flat_ids, t.spec_objects(), ids, hits);
            lemma_nearest_unique(world.spec_hit(box_hits, hits), nearest_of(ids, hits), ids, ids, hits);
        },
    }
}

} // verus!
