use vstd::prelude::*;
use crate::fxp::SCALE;

verus! {

/// Largest particle population the fixed-point arithmetic supports without
/// overflow in the per-frame influence sums.
pub const MAX_PARTICLES: usize = 1000000;

/// Largest quadtree depth a configuration may ask for.
pub const MAX_TREE_DEPTH: usize = 48;

/// Policy applied to a position that leaves the domain after integration.
#[derive(Clone, Copy, PartialEq, Eq, Structural, Debug)]
pub enum Boundary {
    /// Toroidal wrap: an overshoot re-enters from the opposite edge.
    Wrap,
    /// Clamp: the coordinate is pinned to the nearest domain edge.
    Clamp,
}

/// Rejection causes for a malformed configuration, detected before any
/// frame runs.
#[derive(Clone, Copy, PartialEq, Eq, Structural, Debug)]
pub enum ConfigError {
    InvalidParticleCount,
    InvalidPositionRange,
    InvalidVelocityRange,
    InvalidPerceptionRadius,
    InvalidSeparationDistance,
    InvalidWeight,
    InvalidMaxSpeed,
    InvalidLeafCapacity,
    InvalidMaxDepth,
}

/// Immutable simulation parameters, all lengths and weights in fixed-point
/// steps (`SCALE` steps are one simulation unit, weights of `SCALE` mean a
/// factor of one).
#[derive(Clone, Copy, PartialEq, Eq, Structural, Debug)]
pub struct Config {
    pub particle_count: usize,
    pub position_range: i64,
    pub velocity_range: i64,
    pub perception_radius: i64,
    pub separation_distance: i64,
    pub separation_weight: i64,
    pub alignment_weight: i64,
    pub cohesion_weight: i64,
    pub max_speed: i64,
    pub leaf_capacity: usize,
    pub max_depth: usize,
    pub boundary: Boundary,
}

impl Config {
    pub open spec fn count_ok(self) -> bool {
        1 <= self.particle_count <= MAX_PARTICLES
    }

    pub open spec fn position_range_ok(self) -> bool {
        0 < self.position_range <= SCALE
    }

    pub open spec fn velocity_range_ok(self) -> bool {
        0 <= self.velocity_range <= SCALE
    }

    pub open spec fn perception_radius_ok(self) -> bool {
        0 < self.perception_radius <= 2 * SCALE
    }

    pub open spec fn separation_distance_ok(self) -> bool {
        0 <= self.separation_distance <= 2 * SCALE
    }

    pub open spec fn weights_ok(self) -> bool {
        0 <= self.separation_weight <= SCALE && 0 <= self.alignment_weight <= SCALE && 0
            <= self.cohesion_weight <= SCALE
    }

    pub open spec fn max_speed_ok(self) -> bool {
        0 <= self.max_speed <= SCALE
    }

    pub open spec fn leaf_capacity_ok(self) -> bool {
        1 <= self.leaf_capacity
    }

    pub open spec fn max_depth_ok(self) -> bool {
        1 <= self.max_depth <= MAX_TREE_DEPTH
    }

    /// A well-formed configuration: every parameter was accepted.
    pub open spec fn wf(self) -> bool {
        self.count_ok() && self.position_range_ok() && self.velocity_range_ok()
            && self.perception_radius_ok() && self.separation_distance_ok() && self.weights_ok()
            && self.max_speed_ok() && self.leaf_capacity_ok() && self.max_depth_ok()
    }

    /// The result `new` returns: the first parameter out of range, in
    /// declaration order, decides the error.
    pub open spec fn new_spec(c: Config) -> Result<Config, ConfigError> {
        if !c.count_ok() {
            Err(ConfigError::InvalidParticleCount)
        } else if !c.position_range_ok() {
            Err(ConfigError::InvalidPositionRange)
        } else if !c.velocity_range_ok() {
            Err(ConfigError::InvalidVelocityRange)
        } else if !c.perception_radius_ok() {
            Err(ConfigError::InvalidPerceptionRadius)
        } else if !c.separation_distance_ok() {
            Err(ConfigError::InvalidSeparationDistance)
        } else if !c.weights_ok() {
            Err(ConfigError::InvalidWeight)
        } else if !c.max_speed_ok() {
            Err(ConfigError::InvalidMaxSpeed)
        } else if !c.leaf_capacity_ok() {
            Err(ConfigError::InvalidLeafCapacity)
        } else if !c.max_depth_ok() {
            Err(ConfigError::InvalidMaxDepth)
        } else {
            Ok(c)
        }
    }

    /// Validate a configuration. Returns the parameters unchanged when all
    /// are in range, and the first offending parameter's error otherwise.
    pub fn new(
        particle_count: usize,
        position_range: i64,
        velocity_range: i64,
        perception_radius: i64,
        separation_distance: i64,
        separation_weight: i64,
        alignment_weight: i64,
        cohesion_weight: i64,
        max_speed: i64,
        leaf_capacity: usize,
        max_depth: usize,
        boundary: Boundary,
    ) -> (r: Result<Config, ConfigError>)
        ensures
            r == Self::new_spec(
                Config {
                    particle_count,
                    position_range,
                    velocity_range,
                    perception_radius,
                    separation_distance,
                    separation_weight,
                    alignment_weight,
                    cohesion_weight,
                    max_speed,
                    leaf_capacity,
                    max_depth,
                    boundary,
                },
            ),
            r is Ok ==> r->Ok_0.wf(),
    {
        let c = Config {
            particle_count,
            position_range,
            velocity_range,
            perception_radius,
            separation_distance,
            separation_weight,
            alignment_weight,
            cohesion_weight,
            max_speed,
            leaf_capacity,
            max_depth,
            boundary,
        };
        if !(1 <= c.particle_count && c.particle_count <= MAX_PARTICLES) {
            Err(ConfigError::InvalidParticleCount)
        } else if !(0 < c.position_range && c.position_range <= SCALE) {
            Err(ConfigError::InvalidPositionRange)
        } else if !(0 <= c.velocity_range && c.velocity_range <= SCALE) {
            Err(ConfigError::InvalidVelocityRange)
        } else if !(0 < c.perception_radius && c.perception_radius <= 2 * SCALE) {
            Err(ConfigError::InvalidPerceptionRadius)
        } else if !(0 <= c.separation_distance && c.separation_distance <= 2 * SCALE) {
            Err(ConfigError::InvalidSeparationDistance)
        } else if !(0 <= c.separation_weight && c.separation_weight <= SCALE && 0
            <= c.alignment_weight && c.alignment_weight <= SCALE && 0 <= c.cohesion_weight
            && c.cohesion_weight <= SCALE) {
            Err(ConfigError::InvalidWeight)
        } else if !(0 <= c.max_speed && c.max_speed <= SCALE) {
            Err(ConfigError::InvalidMaxSpeed)
        } else if !(1 <= c.leaf_capacity) {
            Err(ConfigError::InvalidLeafCapacity)
        } else if !(1 <= c.max_depth && c.max_depth <= MAX_TREE_DEPTH) {
            Err(ConfigError::InvalidMaxDepth)
        } else {
            Ok(c)
        }
    }
}

} // verus!
