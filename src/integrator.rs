//! The recursion rule of the path integrator: what a cast at a given depth
//! does next.
use vstd::prelude::*;

verus! {

/// Depth at which a path stops and reports the sentinel colour.
pub const MAX_DEPTH: i32 = 100;

/// What the integrator does with a cast ray.
#[derive(Clone, Copy, Debug, PartialEq, Eq, Structural)]
pub enum Shade {
    /// Nothing was hit: shade with the sky gradient.
    Background,
    /// A surface was hit below the depth cap: ask its material for a bounce.
    Scatter,
    /// A surface was hit at the depth cap: report the sentinel colour.
    Sentinel,
}

/// What the material decided, and with it the colour of the path.
#[derive(Clone, Copy, Debug, PartialEq, Eq, Structural)]
pub enum Outcome {
    /// Follow the bounced ray at the next depth and weight what it brings.
    Recurse(i32),
    /// The ray was absorbed: black.
    Absorbed,
}

pub open spec fn shade_spec(hit: bool, depth: int) -> Shade {
    if !hit {
        Shade::Background
    } else if depth < MAX_DEPTH {
        Shade::Scatter
    } else {
        Shade::Sentinel
    }
}

/// The step for a ray cast at `depth` that did or did not hit the scene.
pub fn shade(hit: bool, depth: i32) -> (r: Shade)
    ensures
        r == shade_spec(hit, depth as int),
{
    if !hit {
        Shade::Background
    } else if depth < MAX_DEPTH {
        Shade::Scatter
    } else {
        Shade::Sentinel
    }
}

/// After a scatter at `depth`: recurse one level deeper when the material
/// bounced the ray, else the ray is absorbed.
pub fn after_bounce(bounced: bool, depth: i32) -> (r: Outcome)
    requires
        depth < MAX_DEPTH,
    ensures
        bounced ==> r == Outcome::Recurse((depth + 1) as i32),
        !bounced ==> r == Outcome::Absorbed,
{
    if bounced {
        Outcome::Recurse(depth + 1)
    } else {
        Outcome::Absorbed
    }
}

/// A path cast at the depth cap or deeper never recurses: a hit there gives
/// the sentinel colour.
pub proof fn lemma_depth_cap(depth: int, hit: bool)
    requires
        depth >= MAX_DEPTH,
    ensures
        shade_spec(hit, depth) != Shade::Scatter,
        hit ==> shade_spec(hit, depth) == Shade::Sentinel,
{
}

} // verus!
