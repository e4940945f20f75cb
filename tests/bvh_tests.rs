use path_tracer::bounds::{build_bounding_box, AabbBoundingBox, OrderedPoint};
use path_tracer::bvh::BoundingBoxTree;
use path_tracer::nearest::{nearest_hit, nearer};
use path_tracer::world::World;
use rand::Rng;

fn pt(x: u64, y: u64, z: u64) -> OrderedPoint {
    OrderedPoint { x, y, z }
}

fn bx(lo: (u64, u64, u64), hi: (u64, u64, u64)) -> AabbBoundingBox {
    AabbBoundingBox { min_point: pt(lo.0, lo.1, lo.2), max_point: pt(hi.0, hi.1, hi.2) }
}

/// Order-preserving key of a float: `a <= b` exactly when `key(a) <= key(b)`.
fn key(v: f64) -> u64 {
    let b = v.to_bits();
    if b >> 63 == 1 {
        !b
    } else {
        b | (1u64 << 63)
    }
}

fn unkey(k: u64) -> f64 {
    if k >> 63 == 1 {
        f64::from_bits(k & !(1u64 << 63))
    } else {
        f64::from_bits(!k)
    }
}

fn leaves(t: &BoundingBoxTree, out: &mut Vec<Vec<usize>>) {
    match t {
        BoundingBoxTree::Leaf { objects, .. } => out.push(objects.clone()),
        BoundingBoxTree::Node { left, right, .. } => {
            leaves(left, out);
            leaves(right, out);
        }
    }
}

fn check_enclosure(t: &BoundingBoxTree, boxes: &Vec<AabbBoundingBox>) {
    match t {
        BoundingBoxTree::Leaf { bounds, objects } => {
            for &o in objects {
                assert!(boxes[o].is_within(bounds));
            }
        }
        BoundingBoxTree::Node { bounds, left, right, .. } => {
            assert!(left.get_bounding_box().is_within(bounds));
            assert!(right.get_bounding_box().is_within(bounds));
            check_enclosure(left, boxes);
            check_enclosure(right, boxes);
        }
    }
}

#[test]
fn union_takes_component_extremes() {
    let a = bx((1, 5, 3), (4, 9, 6));
    let b = bx((2, 0, 7), (3, 10, 8));
    let u = a.union(&b);
    assert_eq!(u, bx((1, 0, 3), (4, 10, 8)));
    assert!(a.is_within(&u));
    assert!(b.is_within(&u));
    assert!(!u.is_within(&a));
}

#[test]
fn hull_of_listed_boxes() {
    let boxes = vec![bx((0, 0, 0), (1, 1, 1)), bx((5, 5, 5), (6, 6, 6)), bx((2, 9, 2), (3, 10, 3))];
    assert_eq!(build_bounding_box(&boxes, &vec![0, 2]), bx((0, 0, 0), (3, 10, 3)));
    assert_eq!(build_bounding_box(&boxes, &vec![1]), boxes[1]);
}

#[test]
fn tree_holds_every_primitive_once_in_small_leaves() {
    let boxes: Vec<AabbBoundingBox> = (0..23u64).map(|i| bx((i, 30 - i, i % 7), (i + 2, 31 - i, i % 7 + 1))).collect();
    let tree = BoundingBoxTree::new(&boxes, 5);
    let mut ls = vec![];
    leaves(&tree, &mut ls);
    let mut all: Vec<usize> = ls.iter().flatten().copied().collect();
    all.sort();
    assert_eq!(all, (0..23).collect::<Vec<usize>>());
    for l in &ls {
        assert!(!l.is_empty() && l.len() <= 5);
    }
    assert_eq!(tree.objects().len(), 23);
    check_enclosure(&tree, &boxes);
    assert_eq!(tree.get_bounding_box(), build_bounding_box(&boxes, &(0..23).collect()));
}

#[test]
fn single_primitive_is_one_leaf() {
    let boxes = vec![bx((1, 2, 3), (4, 5, 6))];
    let tree = BoundingBoxTree::new(&boxes, 1);
    match &tree {
        BoundingBoxTree::Leaf { bounds, objects } => {
            assert_eq!(*bounds, boxes[0]);
            assert_eq!(*objects, vec![0]);
        }
        _ => panic!("expected a leaf"),
    }
}

#[test]
fn leaf_keeps_first_of_equal_hits() {
    let boxes: Vec<AabbBoundingBox> = (0..4u64).map(|i| bx((i, 0, 0), (i + 1, 1, 1))).collect();
    let tree = BoundingBoxTree::new(&boxes, 5);
    let found = tree.hit(&|_b: AabbBoundingBox| true, &|i: usize| if i == 0 { None } else { Some(7) });
    let objs = tree.objects().clone();
    let first_hit = *objs.iter().find(|&&o| o != 0).unwrap();
    assert_eq!(found, Some((first_hit, 7)));
}

#[test]
fn missed_root_box_gives_no_hit() {
    let boxes: Vec<AabbBoundingBox> = (0..12u64).map(|i| bx((i, i, i), (i + 1, i + 1, i + 1))).collect();
    let tree = BoundingBoxTree::new(&boxes, 2);
    assert_eq!(tree.hit(&|_b: AabbBoundingBox| false, &|i: usize| Some(i as u64)), None);
}

#[test]
fn nearest_hit_picks_first_smallest() {
    assert_eq!(nearest_hit(&vec![]), None);
    assert_eq!(nearest_hit(&vec![None, None]), None);
    assert_eq!(nearest_hit(&vec![Some(9), None, Some(3), Some(3), Some(4)]), Some((2, 3)));
    assert_eq!(nearer(Some((0, 5)), Some((1, 5))), Some((1, 5)));
    assert_eq!(nearer(Some((0, 4)), Some((1, 5))), Some((0, 4)));
    assert_eq!(nearer(None, Some((1, 5))), Some((1, 5)));
    assert_eq!(nearer(Some((0, 4)), None), Some((0, 4)));
}

#[test]
fn empty_world_hits_nothing() {
    let world = World::new(&vec![]);
    assert!(world.tree.is_none());
    assert_eq!(world.hit(&|_b: AabbBoundingBox| true, &|_i: usize| Some(1)), None);
}

#[test]
fn world_combines_planes_and_tree() {
    let bounds = vec![Some(bx((0, 0, 0), (1, 1, 1))), None, Some(bx((2, 2, 2), (3, 3, 3)))];
    let world = World::new(&bounds);
    assert_eq!(world.unbounded, vec![1]);
    let hits = [Some(10u64), Some(4u64), Some(6u64)];
    assert_eq!(world.hit(&|_b: AabbBoundingBox| true, &|i: usize| hits[i]), Some((1, 4)));
    let hits2 = [Some(3u64), Some(4u64), None];
    assert_eq!(world.hit(&|_b: AabbBoundingBox| true, &|i: usize| hits2[i]), Some((0, 3)));
    let hits3 = [None, Some(4u64), Some(4u64)];
    assert_eq!(world.hit(&|_b: AabbBoundingBox| true, &|i: usize| hits3[i]), Some((2, 4)));
}

struct Ball {
    c: [f64; 3],
    r: f64,
}

fn ball_hit(b: &Ball, o: [f64; 3], d: [f64; 3]) -> Option<f64> {
    let oc = [o[0] - b.c[0], o[1] - b.c[1], o[2] - b.c[2]];
    let a = d[0] * d[0] + d[1] * d[1] + d[2] * d[2];
    let hb = oc[0] * d[0] + oc[1] * d[1] + oc[2] * d[2];
    let c = oc[0] * oc[0] + oc[1] * oc[1] + oc[2] * oc[2] - b.r * b.r;
    let disc = hb * hb - a * c;
    if disc <= 0.0 {
        return None;
    }
    let s = disc.sqrt();
    for t in [(-hb - s) / a, (-hb + s) / a] {
        if t > 1e-4 && t < f64::MAX {
            return Some(t);
        }
    }
    None
}

fn slab_hit(b: &AabbBoundingBox, o: [f64; 3], d: [f64; 3]) -> bool {
    let lo = [unkey(b.min_point.x), unkey(b.min_point.y), unkey(b.min_point.z)];
    let hi = [unkey(b.max_point.x), unkey(b.max_point.y), unkey(b.max_point.z)];
    let (mut t0, mut t1) = (1e-4f64, f64::MAX);
    for a in 0..3 {
        let inv = 1.0 / d[a];
        let p0 = (lo[a] - o[a]) * inv;
        let p1 = (hi[a] - o[a]) * inv;
        t0 = t0.max(p0.min(p1));
        t1 = t1.min(p0.max(p1));
        if t1 < t0 {
            return false;
        }
    }
    true
}

#[test]
fn tree_and_linear_scan_agree_on_random_spheres() {
    let mut rng = rand::thread_rng();
    let balls: Vec<Ball> = (0..100)
        .map(|_| Ball {
            c: [rng.gen_range(-10.0..10.0), rng.gen_range(-10.0..10.0), rng.gen_range(-20.0..-5.0)],
            r: rng.gen_range(0.2..1.5),
        })
        .collect();
    let boxes: Vec<AabbBoundingBox> = balls
        .iter()
        .map(|b| AabbBoundingBox {
            min_point: OrderedPoint { x: key(b.c[0] - b.r), y: key(b.c[1] - b.r), z: key(b.c[2] - b.r) },
            max_point: OrderedPoint { x: key(b.c[0] + b.r), y: key(b.c[1] + b.r), z: key(b.c[2] + b.r) },
        })
        .collect();
    let tree = BoundingBoxTree::new(&boxes, 5);
    let origin = [0.0, 0.0, 0.0];
    for dir in [[0.0, 0.0, -1.0], [0.1, 0.05, -1.0], [-0.3, 0.2, -1.0], [0.01, -0.4, -1.0]] {
        let prim = |i: usize| ball_hit(&balls[i], origin, dir).map(key);
        let found = tree.hit(&|b: AabbBoundingBox| slab_hit(&b, origin, dir), &prim);
        let scan: Vec<Option<u64>> = (0..balls.len()).map(|i| prim(i)).collect();
        let expected = nearest_hit(&scan);
        assert_eq!(found.is_some(), expected.is_some());
        if let (Some(f), Some(e)) = (found, expected) {
            assert!((unkey(f.1) - unkey(e.1)).abs() <= 1e-9);
            assert_eq!(f.0, e.0);
        }
    }
}
