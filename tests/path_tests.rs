use path_tracer::path::{Outcome, PathAction, PathState};

#[test]
fn zero_depth_ends_with_background() {
    assert_eq!(PathState::new(0).start(), PathAction::EndWithBackground);
}

#[test]
fn miss_and_absorption_end_the_path() {
    let mut p = PathState::new(3);
    assert_eq!(p.start(), PathAction::Query);
    assert_eq!(p.record(Outcome::Missed), PathAction::EndWithBackground);
    assert_eq!(p.remaining, 3);
    let mut q = PathState::new(3);
    assert_eq!(q.record(Outcome::Absorbed), PathAction::EndAtHit);
    assert_eq!(q.remaining, 3);
}

#[test]
fn scattering_uses_up_depth() {
    let mut p = PathState::new(2);
    assert_eq!(p.record(Outcome::Scattered), PathAction::Query);
    assert_eq!(p.remaining, 1);
    assert_eq!(p.record(Outcome::Scattered), PathAction::EndWithBackground);
    assert_eq!(p.remaining, 0);
}
