use vstd::prelude::*;
use crate::sample::{Corner, LightingSample, UNIT};

verus! {

/// Classification of a tile after blending its corners.
#[derive(Clone, Copy, Debug, PartialEq, Eq, Structural)]
pub enum IconState {
    /// The tile is lit: the icon-state field is cleared and a colour matrix
    /// is produced.
    Lit,
    /// No corner is luminous and the sentinel was not hit: the tile shows
    /// the dark overlay and no colour matrix.
    Dark,
    /// The channel sum hit the host's saturation sentinel of exactly twelve
    /// host units: the tile shows the transparent overlay and no colour
    /// matrix, whatever its luminosity.
    Transparent,
}

/// What blending one sample produced: the luminosity flag carried verbatim
/// to the writeback stage, the icon-state classification, and the colour
/// matrix that exists exactly for lit tiles.
#[derive(Debug)]
pub struct LightingResult {
    pub luminous: bool,
    pub icon_state: IconState,
    pub color_matrix: Option<Vec<i32>>,
}

impl IconState {
    /// The host icon-state field value: a label for the dark and the
    /// transparent overlays, nothing (the field is cleared) for a lit tile.
    pub fn label(&self) -> (r: Option<&'static str>)
        ensures
            match *self {
                IconState::Dark => r matches Some(s) && s@ == "dark"@,
                IconState::Transparent => r matches Some(s) && s@ == "transparent"@,
                IconState::Lit => r is None,
            },
    {
        match self {
            IconState::Dark => Some("dark"),
            IconState::Transparent => Some("transparent"),
            IconState::Lit => None,
        }
    }
}

/// An absent corner contributes zero intensity.
pub open spec fn corner_max(c: Option<Corner>) -> i32 {
    match c {
        Some(k) => k.max_intensity,
        None => 0,
    }
}

/// An absent corner contributes a zero red channel.
pub open spec fn corner_r(c: Option<Corner>) -> i32 {
    match c {
        Some(k) => k.r,
        None => 0,
    }
}

/// An absent corner contributes a zero green channel.
pub open spec fn corner_g(c: Option<Corner>) -> i32 {
    match c {
        Some(k) => k.g,
        None => 0,
    }
}

/// An absent corner contributes a zero blue channel.
pub open spec fn corner_b(c: Option<Corner>) -> i32 {
    match c {
        Some(k) => k.b,
        None => 0,
    }
}

pub open spec fn max2(a: i32, b: i32) -> i32 {
    if a >= b {
        a
    } else {
        b
    }
}

/// Greatest max-intensity over the four corners, an absent corner counting
/// as zero.
pub open spec fn spec_max_intensity(s: LightingSample) -> i32 {
    max2(max2(corner_max(s.ne), corner_max(s.nw)), max2(corner_max(s.se), corner_max(s.sw)))
}

/// A sample is luminous when some corner has positive max-intensity.
pub open spec fn spec_luminous(s: LightingSample) -> bool {
    spec_max_intensity(s) > 0
}

/// Sum of the twelve colour channels over the four corners.
pub open spec fn spec_channel_sum(s: LightingSample) -> int {
    corner_r(s.ne) + corner_g(s.ne) + corner_b(s.ne) + corner_r(s.nw) + corner_g(s.nw) + corner_b(
        s.nw,
    ) + corner_r(s.se) + corner_g(s.se) + corner_b(s.se) + corner_r(s.sw) + corner_g(s.sw)
        + corner_b(s.sw)
}

/// The saturation sentinel inherited from the host's caching convention: a
/// channel sum of exactly twelve host units.
pub open spec fn sentinel_sum() -> int {
    12 * (UNIT as int)
}

pub open spec fn spec_transparent(s: LightingSample) -> bool {
    spec_channel_sum(s) == sentinel_sum()
}

/// Classification, in priority order: the sentinel wins over everything,
/// then darkness, then lit.
pub open spec fn spec_icon_state(s: LightingSample) -> IconState {
    if spec_transparent(s) {
        IconState::Transparent
    } else if !spec_luminous(s) {
        IconState::Dark
    } else {
        IconState::Lit
    }
}

/// The 4-row by 5-column colour matrix, flattened row-major: one row
/// `[r, g, b, 0]` per corner in order NE, NW, SE, SW, then the alpha
/// identity row `[0, 0, 0, 1]` (one host unit).
pub open spec fn spec_matrix(s: LightingSample) -> Seq<i32> {
    seq![
        corner_r(s.ne),
        corner_g(s.ne),
        corner_b(s.ne),
        0i32,
        corner_r(s.nw),
        corner_g(s.nw),
        corner_b(s.nw),
        0i32,
        corner_r(s.se),
        corner_g(s.se),
        corner_b(s.se),
        0i32,
        corner_r(s.sw),
        corner_g(s.sw),
        corner_b(s.sw),
        0i32,
        0i32,
        0i32,
        0i32,
        UNIT,
    ]
}

/// Everything the blend engine promises of its result for a given sample.
pub open spec fn result_matches(s: LightingSample, r: LightingResult) -> bool {
    &&& r.luminous == spec_luminous(s)
    &&& r.icon_state == spec_icon_state(s)
    &&& (r.color_matrix is Some <==> r.icon_state == IconState::Lit)
    &&& (match r.color_matrix {
        Some(m) => m@ == spec_matrix(s),
        None => true,
    })
}

/// The given corner's channels, an absent corner contributing zeroes.
fn corner_or_zero(c: &Option<Corner>) -> (k: Corner)
    ensures
        k.max_intensity == corner_max(*c),
        k.r == corner_r(*c),
        k.g == corner_g(*c),
        k.b == corner_b(*c),
{
    match c {
        Some(k) => *k,
        None => Corner { max_intensity: 0, r: 0, g: 0, b: 0 },
    }
}

fn max_i32(a: i32, b: i32) -> (m: i32)
    ensures
        m == max2(a, b),
{
    if a >= b {
        a
    } else {
        b
    }
}

/// The blend engine: pure classification of one sample. Every input,
/// including one with all corners absent, has a defined result.
pub fn blend(sample: &LightingSample) -> (r: LightingResult)
    ensures
        result_matches(*sample, r),
{
    let ne = corner_or_zero(&sample.ne);
    let nw = corner_or_zero(&sample.nw);
    let se = corner_or_zero(&sample.se);
    let sw = corner_or_zero(&sample.sw);

    let mx = max_i32(max_i32(ne.max_intensity, nw.max_intensity), max_i32(se.max_intensity, sw.max_intensity));
    let luminous = mx > 0;

    let sum: i64 = ne.r as i64 + ne.g as i64 + ne.b as i64 + nw.r as i64 + nw.g as i64
        + nw.b as i64 + se.r as i64 + se.g as i64 + se.b as i64 + sw.r as i64 + sw.g as i64
        + sw.b as i64;
    proof {
        assert(sum as int == spec_channel_sum(*sample));
    }

    if sum == 12 * (UNIT as i64) {
        LightingResult { luminous, icon_state: IconState::Transparent, color_matrix: None }
    } else if !luminous {
        LightingResult { luminous, icon_state: IconState::Dark, color_matrix: None }
    } else {
        let mut m: Vec<i32> = Vec::new();
        m.push(ne.r);
        m.push(ne.g);
        m.push(ne.b);
        m.push(0);
        m.push(nw.r);
        m.push(nw.g);
        m.push(nw.b);
        m.push(0);
        m.push(se.r);
        m.push(se.g);
        m.push(se.b);
        m.push(0);
        m.push(sw.r);
        m.push(sw.g);
        m.push(sw.b);
        m.push(0);
        m.push(0);
        m.push(0);
        m.push(0);
        m.push(UNIT);
        proof {
            assert(m@ =~= spec_matrix(*sample));
        }
        LightingResult { luminous, icon_state: IconState::Lit, color_matrix: Some(m) }
    }
}

/// Law: a sample is classified Transparent exactly when its twelve colour
/// channels sum to the sentinel of twelve host units, whatever its
/// luminosity.
pub proof fn lemma_transparent_iff_sentinel(s: LightingSample)
    ensures
        spec_icon_state(s) == IconState::Transparent <==> spec_channel_sum(s) == 12 * (
        UNIT as int),
{
}

/// Law: away from the transparent sentinel, the luminosity a result carries
/// is exactly "some corner has positive max-intensity".
pub proof fn lemma_luminous_flag(s: LightingSample, r: LightingResult)
    requires
        result_matches(s, r),
        r.icon_state != IconState::Transparent,
    ensures
        r.luminous == (spec_max_intensity(s) > 0),
{
}

/// Law: a sample is classified Dark exactly when it neither hits the
/// sentinel nor is luminous, and a dark result carries no colour matrix.
pub proof fn lemma_dark_iff(s: LightingSample, r: LightingResult)
    requires
        result_matches(s, r),
    ensures
        (r.icon_state == IconState::Dark) <==> (!spec_transparent(s) && !spec_luminous(s)),
        r.icon_state == IconState::Dark ==> r.color_matrix is None,
{
}

/// Law: a sample is classified Lit exactly when it is luminous and does not
/// hit the sentinel, and a lit result carries a 20-entry matrix: one row
/// `[r, g, b, 0]` per corner in order NE, NW, SE, SW, then `[0, 0, 0, 1]`
/// in host units.
pub proof fn lemma_lit_iff(s: LightingSample, r: LightingResult)
    requires
        result_matches(s, r),
    ensures
        (r.icon_state == IconState::Lit) <==> (!spec_transparent(s) && spec_luminous(s)),
        r.icon_state == IconState::Lit ==> (match r.color_matrix {
            Some(m) => m@ == spec_matrix(s) && m@.len() == 20,
            None => false,
        }),
{
}

} // verus!
