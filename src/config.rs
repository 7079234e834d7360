//! The configuration bundle of a simulation run, in fixed-point units, and
//! the colour tag that each agent carries.

use vstd::prelude::*;

verus! {

/// Fixed-point unit of a cosine: `COS_UNIT` stands for 1.
pub const COS_UNIT: i64 = 0x1_0000;

/// Largest padded extent of the domain, and largest perception radius.
pub const MAX_EXTENT: i64 = 0x40_0000;

/// Largest separation constant.
pub const MAX_SEPARATION: i64 = 0x400_0000;

/// Largest denominator of the damping factor.
pub const MAX_DAMPING_DEN: i64 = 0x1_0000;

/// Largest number of agents in a flock.
pub const MAX_FLOCK: usize = 0x1_0000;

/// Immutable parameters of a simulation run. Lengths are in fixed-point units
/// (the caller picks how many of them make a pixel), speeds in those units per
/// tick.
#[derive(Clone, Copy, Debug, PartialEq, Eq, Structural)]
pub struct Params {
    /// Width of the domain.
    pub width: i64,
    /// Height of the domain.
    pub height: i64,
    /// Margin around the domain that an agent may enter before it wraps.
    pub padding: i64,
    /// Largest distance at which an agent perceives another.
    pub perception_radius: i64,
    /// Cosine, in units of `COS_UNIT`, of the half-angle of the rear blind
    /// spot: `COS_UNIT` for no blind spot (0 degrees), `-COS_UNIT` for a blind
    /// spot that covers everything (180 degrees).
    pub blind_spot_cos: i64,
    /// Speed towards which faster agents are relaxed.
    pub velocity_limit: i64,
    /// Shortest cohesion steering vector, and least initial speed.
    pub min_velocity: i64,
    /// Numerator of the damping factor of the speed relaxation.
    pub damping_num: i64,
    /// Denominator of the damping factor of the speed relaxation.
    pub damping_den: i64,
    /// Separation constant: a neighbour at distance `d` pushes with strength
    /// `separation / d`.
    pub separation: i64,
}

impl Params {
    /// The parameters describe a run that the simulation can carry out.
    pub open spec fn wf(&self) -> bool {
        &&& 0 < self.width && 0 < self.height && 0 <= self.padding
        &&& self.width + self.padding <= MAX_EXTENT
        &&& self.height + self.padding <= MAX_EXTENT
        &&& 0 <= self.perception_radius <= MAX_EXTENT
        &&& -COS_UNIT <= self.blind_spot_cos <= COS_UNIT
        &&& 0 <= self.min_velocity <= self.velocity_limit
        &&& 0 < self.velocity_limit
        &&& self.velocity_limit <= self.width + self.padding
        &&& self.velocity_limit <= self.height + self.padding
        &&& 0 < self.damping_num <= self.damping_den <= MAX_DAMPING_DEN
        &&& 0 <= self.separation <= MAX_SEPARATION
    }

    /// Whether the parameters are acceptable; a run is refused at start-up
    /// when they are not.
    pub fn is_valid(&self) -> (r: bool)
        ensures
            r == self.wf(),
    {
        0 < self.width && 0 < self.height && 0 <= self.padding && self.width <= MAX_EXTENT
            && self.padding <= MAX_EXTENT && self.height <= MAX_EXTENT
            && self.width + self.padding <= MAX_EXTENT && self.height + self.padding <= MAX_EXTENT
            && 0 <= self.perception_radius && self.perception_radius <= MAX_EXTENT && -COS_UNIT
            <= self.blind_spot_cos && self.blind_spot_cos <= COS_UNIT && 0 <= self.min_velocity
            && self.min_velocity <= self.velocity_limit && 0 < self.velocity_limit
            && self.velocity_limit <= self.width + self.padding && self.velocity_limit
            <= self.height + self.padding && 0 < self.damping_num && self.damping_num
            <= self.damping_den && self.damping_den <= MAX_DAMPING_DEN && 0 <= self.separation
            && self.separation <= MAX_SEPARATION
    }
}

/// A colour with 8-bit red, green, blue and alpha channels.
#[derive(Clone, Copy, Debug, PartialEq, Eq, Structural)]
pub struct Rgba {
    pub r: u8,
    pub g: u8,
    pub b: u8,
    pub a: u8,
}

/// Squared distance of two colours in red-green-blue space.
pub open spec fn color_dist_sq(c: Rgba, d: Rgba) -> int {
    (c.r - d.r) * (c.r - d.r) + (c.g - d.g) * (c.g - d.g) + (c.b - d.b) * (c.b - d.b)
}

/// Least distance in red-green-blue space between an agent's colour and the background.
pub const MIN_COLOR_DISTANCE: i64 = 100;

/// Whether `c` stands far enough from the background colour `bg` (at least
/// `MIN_COLOR_DISTANCE` in red-green-blue space) to be used for an agent.
pub fn is_distinct_from_background(c: Rgba, bg: Rgba) -> (r: bool)
    ensures
        r == (color_dist_sq(c, bg) >= MIN_COLOR_DISTANCE * MIN_COLOR_DISTANCE),
{
    let dr: i64 = c.r as i64 - bg.r as i64;
    let dg: i64 = c.g as i64 - bg.g as i64;
    let db: i64 = c.b as i64 - bg.b as i64;
    assert(dr * dr <= 0x1_0000 && dg * dg <= 0x1_0000 && db * db <= 0x1_0000) by (nonlinear_arith)
        requires
            -255 <= dr <= 255,
            -255 <= dg <= 255,
            -255 <= db <= 255,
    ;
    assert(dr * dr >= 0 && dg * dg >= 0 && db * db >= 0) by (nonlinear_arith);
    dr * dr + dg * dg + db * db >= MIN_COLOR_DISTANCE * MIN_COLOR_DISTANCE
}

} // verus!
