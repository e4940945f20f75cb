use path_tracer::bounds::{AabbBoundingBox, OrderedPoint};
use path_tracer::path::{Outcome, PathAction, PathState};
use path_tracer::raster::image_pixel;
use path_tracer::world::World;

fn key(v: f64) -> u64 {
    let b = v.to_bits();
    if b >> 63 == 1 {
        !b
    } else {
        b | (1u64 << 63)
    }
}

fn to_byte(c: f64) -> i64 {
    (c.sqrt() * 256.0) as i64
}

/// Runs the estimator's decisions for one ray; `query` answers with the
/// outcome and the emission of what was hit.
fn trace(depth: u32, background: f64, mut query: impl FnMut() -> (Outcome, f64)) -> f64 {
    let mut path = PathState::new(depth);
    let mut action = path.start();
    let mut light = 0.0;
    loop {
        match action {
            PathAction::EndWithBackground => return light + background,
            PathAction::EndAtHit => return light,
            PathAction::Query => {
                let (outcome, emitted) = query();
                light += emitted;
                action = path.record(outcome);
            }
        }
    }
}

#[test]
fn empty_scene_shows_white_background() {
    let world = World::new(&vec![]);
    for k in 0..16 {
        let dx = (k as f64 - 8.0) / 20.0;
        let found = world.hit(&|_b: AabbBoundingBox| true, &|_i: usize| Some(key(dx)));
        assert_eq!(found, None);
        let radiance = trace(5, 1.0, || (Outcome::Missed, 0.0));
        let v = to_byte(radiance);
        assert_eq!(image_pixel(v, v, v), (255, 255, 255));
    }
}

fn sphere_t(o: [f64; 3], d: [f64; 3]) -> Option<f64> {
    let a = d[0] * d[0] + d[1] * d[1] + d[2] * d[2];
    let b = 2.0 * (o[0] * d[0] + o[1] * d[1] + o[2] * d[2]);
    let c = o[0] * o[0] + o[1] * o[1] + o[2] * o[2] - 1.0;
    let disc = b * b - 4.0 * a * c;
    if disc <= 0.0 {
        return None;
    }
    let t = (-b - disc.sqrt()) / (2.0 * a);
    if t > 1e-4 {
        Some(t)
    } else {
        None
    }
}

fn floor_t(o: [f64; 3], d: [f64; 3]) -> Option<f64> {
    if d[1].abs() < 1e-6 {
        return None;
    }
    let t = (-1.0 - o[1]) / d[1];
    if t > 1e-4 {
        Some(t)
    } else {
        None
    }
}

#[test]
fn emissive_sphere_center_pixel_is_white() {
    let unit = AabbBoundingBox {
        min_point: OrderedPoint { x: key(-1.0), y: key(-1.0), z: key(-1.0) },
        max_point: OrderedPoint { x: key(1.0), y: key(1.0), z: key(1.0) },
    };
    let world = World::new(&vec![Some(unit), None]);
    let origin = [0.0, 0.0, 3.0];
    for samples in [1usize, 4, 16] {
        let mut total = 0.0;
        for s in 0..samples {
            let jitter = (s as f64) * 1e-4;
            let dir = [jitter, -jitter, -1.0];
            let found = world.hit(&|_b: AabbBoundingBox| true, &|i: usize| {
                if i == 0 { sphere_t(origin, dir) } else { floor_t(origin, dir) }.map(key)
            });
            assert_eq!(found.map(|h| h.0), Some(0));
            total += trace(5, 0.0, || (Outcome::Absorbed, 1.0));
        }
        let v = to_byte(total / samples as f64);
        assert_eq!(image_pixel(v, v, v), (255, 255, 255));
    }
}
