use vstd::prelude::*;

verus! {

/// One host light unit in the fixed-point scale the library uses for light
/// values: a host value `v` is carried as `v * UNIT`, rounded to the nearest
/// integer at the boundary.
pub const UNIT: i32 = 1024;

/// Snapshot of one corner light cache: its greatest intensity and its three
/// colour channels, in fixed-point units.
#[derive(Clone, Copy, Debug)]
pub struct Corner {
    pub max_intensity: i32,
    pub r: i32,
    pub g: i32,
    pub b: i32,
}

/// The four optional corner snapshots of one tile, taken at enqueue time,
/// plus the completion flag the compute pass sets. A missing corner is not
/// an error: it contributes all-zero values to the blend.
#[derive(Clone, Copy, Debug)]
pub struct LightingSample {
    pub ne: Option<Corner>,
    pub nw: Option<Corner>,
    pub se: Option<Corner>,
    pub sw: Option<Corner>,
    pub completed: bool,
}

/// Two samples hold the same corner snapshots (their completion flags may
/// differ).
pub open spec fn same_corners(a: LightingSample, b: LightingSample) -> bool {
    a.ne == b.ne && a.nw == b.nw && a.se == b.se && a.sw == b.sw
}

impl LightingSample {
    /// A fresh, uncomputed sample with every corner absent.
    pub fn new() -> (s: LightingSample)
        ensures
            s.ne is None,
            s.nw is None,
            s.se is None,
            s.sw is None,
            !s.completed,
    {
        LightingSample { ne: None, nw: None, se: None, sw: None, completed: false }
    }

    /// A fresh, uncomputed sample with the given corner snapshots.
    pub fn with_corners(
        ne: Option<Corner>,
        nw: Option<Corner>,
        se: Option<Corner>,
        sw: Option<Corner>,
    ) -> (s: LightingSample)
        ensures
            s.ne == ne,
            s.nw == nw,
            s.se == se,
            s.sw == sw,
            !s.completed,
    {
        LightingSample { ne, nw, se, sw, completed: false }
    }
}

} // verus!
