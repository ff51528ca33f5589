use vstd::prelude::*;

verus! {

/// Number of scattering events after which a path is cut off.
pub const MAX_DEPTH: u32 = 50;

/// What becomes of a path once the scene has been queried with its ray.
#[derive(Clone, Copy, Debug, PartialEq, Eq, Structural)]
pub enum Bounce {
    /// Nothing was hit: the path takes the colour of the sky.
    Sky,
    /// A surface was hit below the depth bound: its material scatters the ray.
    Scatter,
    /// A surface was hit at the depth bound: the path is cut off, black.
    Cutoff,
}

/// The decision after the query at `depth` scattering events.
pub fn bounce(depth: u32, hit: bool) -> (r: Bounce)
    ensures
        !hit ==> r == Bounce::Sky,
        hit && depth < MAX_DEPTH ==> r == Bounce::Scatter,
        hit && depth >= MAX_DEPTH ==> r == Bounce::Cutoff,
{
    if !hit {
        Bounce::Sky
    } else if depth < MAX_DEPTH {
        Bounce::Scatter
    } else {
        Bounce::Cutoff
    }
}

} // verus!
