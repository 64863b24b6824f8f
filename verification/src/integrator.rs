use vstd::prelude::*;

verus! {

/// Path tracing with explicit light sampling: paths are cut at `max_depth`
/// bounces and Russian roulette starts after `min_depth` bounces.
#[derive(Clone, Copy, Debug)]
pub struct Path {
    min_depth: usize,
    max_depth: usize,
}

/// Whitted recursive ray tracing, cut at `max_depth` reflections.
#[derive(Clone, Copy, Debug)]
pub struct Whitted {
    max_depth: u32,
}

/// An integrator that shows the shading normals of the hit surfaces.
#[derive(Clone, Copy, Debug)]
pub struct NormalsDebug;

/// The integrators a scene can be rendered with.
#[derive(Clone, Copy, Debug)]
pub enum Integrators {
    Path(Path),
    Whitted(Whitted),
    NormalsDebug(NormalsDebug),
}

impl Path {
    /// The bounce after which Russian roulette may end a path.
    pub closed spec fn min_depth(self) -> usize {
        self.min_depth
    }

    /// The largest number of bounces of a path.
    pub closed spec fn max_depth(self) -> usize {
        self.max_depth
    }

    /// A path tracer with the given minimum and maximum path lengths.
    pub fn new(min_depth: u32, max_depth: u32) -> (r: Integrators)
        ensures
            r matches Integrators::Path(p) && p.min_depth() == min_depth && p.max_depth()
                == max_depth,
    {
        Integrators::Path(Path { min_depth: min_depth as usize, max_depth: max_depth as usize })
    }
}

impl Whitted {
    /// The largest recursion depth of reflected and transmitted rays.
    pub closed spec fn max_depth(self) -> u32 {
        self.max_depth
    }

    /// A Whitted integrator with the given maximum recursion depth.
    pub fn new_integrator(max_depth: u32) -> (r: Integrators)
        ensures
            r matches Integrators::Whitted(w) && w.max_depth() == max_depth,
    {
        Integrators::Whitted(Whitted { max_depth })
    }
}

} // verus!
