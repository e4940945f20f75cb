use vstd::prelude::*;

verus! {

/// What a ray met when the scene was queried.
#[derive(Clone, Copy, Debug, PartialEq, Eq, Structural)]
pub enum Outcome {
    /// No primitive was hit.
    Missed,
    /// A primitive was hit and its material ended the path there.
    Absorbed,
    /// A primitive was hit and its material sent the path on.
    Scattered,
}

/// What the estimator does next.
#[derive(Clone, Copy, Debug, PartialEq, Eq, Structural)]
pub enum PathAction {
    /// Query the scene with the current ray.
    Query,
    /// End the path with the background color as the light it brings.
    EndWithBackground,
    /// End the path at the last hit, which brings only its own emission.
    EndAtHit,
}

/// The state of one path of the radiance estimator: how many more times the
/// scene may be queried.
pub struct PathState {
    pub remaining: u32,
}

impl PathState {
    /// A path that may query the scene at most `depth` times.
    pub fn new(depth: u32) -> (r: PathState)
        ensures
            r.remaining == depth,
    {
        PathState { remaining: depth }
    }

    /// The first step: with no depth left the path ends with the background;
    /// otherwise the scene is queried.
    pub fn start(&self) -> (r: PathAction)
        ensures
            r == (if self.remaining == 0 { PathAction::EndWithBackground } else { PathAction::Query }),
    {
        if self.remaining == 0 {
            PathAction::EndWithBackground
        } else {
            PathAction::Query
        }
    }

    /// The step after a query: a miss ends with the background, an absorbed
    /// path ends at its hit, and a scattered one uses up one query and goes on
    /// unless none is left, in which case it ends with the background.
    pub fn record(&mut self, outcome: Outcome) -> (r: PathAction)
        requires
            old(self).remaining > 0,
        ensures
            outcome == Outcome::Missed ==> r == PathAction::EndWithBackground
                && final(self).remaining == old(self).remaining,
            outcome == Outcome::Absorbed ==> r == PathAction::EndAtHit
                && final(self).remaining == old(self).remaining,
            outcome == Outcome::Scattered ==> final(self).remaining == old(self).remaining - 1,
            outcome == Outcome::Scattered && old(self).remaining == 1 ==> r == PathAction::EndWithBackground,
            outcome == Outcome::Scattered && old(self).remaining > 1 ==> r == PathAction::Query,
    {
        match outcome {
            Outcome::Missed => PathAction::EndWithBackground,
            Outcome::Absorbed => PathAction::EndAtHit,
            Outcome::Scattered => {
                self.remaining = self.remaining - 1;
                self.start()
            },
        }
    }
}

} // verus!
