use vstd::prelude::*;
use crate::config::Config;
use crate::fxp::{Vec2, in_domain, norm_sq, clamp_speed, clamp_speed_spec};
use crate::rng::{SimRng, lcg_iter, sample_in_range};

verus! {

/// One simulated agent: a position in the domain and a velocity.
#[derive(Clone, Copy, PartialEq, Eq, Structural, Debug)]
pub struct Particle {
    pub position: Vec2,
    pub velocity: Vec2,
}

/// Rejection causes for particle data handed to the store from outside.
#[derive(Clone, Copy, PartialEq, Eq, Structural, Debug)]
pub enum StoreError {
    WrongCount,
    PositionOutOfDomain,
    VelocityTooFast,
}

/// A particle obeys the store's per-particle invariant: position inside the
/// domain, velocity componentwise and Euclidean-norm bounded by `max_speed`.
pub open spec fn particle_ok(p: Particle, cfg: Config) -> bool {
    in_domain(p.position) && -cfg.max_speed <= p.velocity.x <= cfg.max_speed && -cfg.max_speed
        <= p.velocity.y <= cfg.max_speed && norm_sq(p.velocity) <= cfg.max_speed * cfg.max_speed
}

/// The store invariant: exactly `particle_count` particles, each obeying the
/// per-particle invariant.
pub open spec fn store_wf(ps: Seq<Particle>, cfg: Config) -> bool {
    ps.len() == cfg.particle_count && forall|i: int|
        0 <= i < ps.len() ==> particle_ok(#[trigger] ps[i], cfg)
}

/// The fixed-capacity particle array. It is created once, never resized,
/// and updated in place every frame.
pub struct Store {
    particles: Vec<Particle>,
}

impl View for Store {
    type V = Seq<Particle>;

    closed spec fn view(&self) -> Seq<Particle> {
        self.particles@
    }
}

impl Store {
    /// Number of particles; fixed for the store's lifetime.
    pub fn len(&self) -> (n: usize)
        ensures
            n == self@.len(),
    {
        self.particles.len()
    }

    /// Whole-store read-only view, for the render stage.
    pub fn read(&self) -> (r: &Vec<Particle>)
        ensures
            r@ == self@,
    {
        &self.particles
    }

    /// Whole-store read-write view, for the simulation stage.
    pub fn read_write(&mut self) -> (r: &mut Vec<Particle>)
        ensures
            r@ == old(self)@,
            final(self)@ == final(r)@,
    {
        &mut self.particles
    }

    /// Adopt externally supplied particle data, validating the store
    /// invariant: the count must match the configuration, every position
    /// must lie in the domain, every velocity within `max_speed`.
    pub fn from_particles(particles: Vec<Particle>, cfg: &Config) -> (r: Result<Store, StoreError>)
        requires
            cfg.wf(),
        ensures
            match r {
                Ok(s) => s@ == particles@ && store_wf(s@, *cfg),
                Err(StoreError::WrongCount) => particles@.len() != cfg.particle_count,
                Err(StoreError::PositionOutOfDomain) => particles@.len() == cfg.particle_count
                    && exists|i: int|
                    0 <= i < particles@.len() && !in_domain(#[trigger] particles@[i].position),
                Err(StoreError::VelocityTooFast) => particles@.len() == cfg.particle_count
                    && exists|i: int|
                    0 <= i < particles@.len() && !particle_ok(#[trigger] particles@[i], *cfg),
            },
            r is Ok <==> store_wf(particles@, *cfg),
    {
        if particles.len() != cfg.particle_count {
            return Err(StoreError::WrongCount);
        }
        let mut i: usize = 0;
        while i < particles.len()
            invariant
                0 <= i <= particles.len(),
                cfg.wf(),
                particles@.len() == cfg.particle_count,
                forall|k: int| 0 <= k < i ==> particle_ok(#[trigger] particles@[k], *cfg),
            decreases particles.len() - i,
        {
            let p = particles[i];
            if !in_domain_exec(p.position) {
                proof {
                    assert(!in_domain(particles@[i as int].position));
                }
                return Err(StoreError::PositionOutOfDomain);
            }
            let vx = p.velocity.x;
            let vy = p.velocity.y;
            if !(-cfg.max_speed <= vx && vx <= cfg.max_speed && -cfg.max_speed <= vy && vy
                <= cfg.max_speed) {
                proof {
                    assert(!particle_ok(particles@[i as int], *cfg));
                }
                return Err(StoreError::VelocityTooFast);
            }
            proof {
                assert(0 <= vx * vx <= 68719476736 && 0 <= vy * vy <= 68719476736)
                    by (nonlinear_arith)
                    requires -65536 <= vx <= 65536, -65536 <= vy <= 65536;
                assert(0 <= cfg.max_speed * cfg.max_speed <= 4294967296) by (nonlinear_arith)
                    requires 0 <= cfg.max_speed <= 65536;
            }
            if vx * vx + vy * vy > cfg.max_speed * cfg.max_speed {
                proof {
                    assert(!particle_ok(particles@[i as int], *cfg));
                }
                return Err(StoreError::VelocityTooFast);
            }
            proof {
                assert(particle_ok(particles@[i as int], *cfg));
            }
            i = i + 1;
        }
        Ok(Store { particles })
    }

    /// Create `particle_count` particles with positions sampled in
    /// `[-position_range, position_range]^2` and velocities sampled in
    /// `[-velocity_range, velocity_range]^2` then speed-clamped, all drawn
    /// deterministically from `seed`.
    #[verifier::rlimit(80)]
    pub fn initialize(cfg: &Config, seed: u64) -> (s: Store)
        requires
            cfg.wf(),
        ensures
            s@.len() == cfg.particle_count,
            store_wf(s@, *cfg),
            forall|i: int| #![trigger s@[i]]
                0 <= i < s@.len() ==> {
                    &&& s@[i].position.x == sample_in_range(
                        lcg_iter(seed, (4 * i + 1) as nat),
                        cfg.position_range as int,
                    )
                    &&& s@[i].position.y == sample_in_range(
                        lcg_iter(seed, (4 * i + 2) as nat),
                        cfg.position_range as int,
                    )
                    &&& (s@[i].velocity.x as int, s@[i].velocity.y as int) == clamp_speed_spec(
                        sample_in_range(lcg_iter(seed, (4 * i + 3) as nat), cfg.velocity_range as int),
                        sample_in_range(lcg_iter(seed, (4 * i + 4) as nat), cfg.velocity_range as int),
                        cfg.max_speed as int,
                    )
                },
    {
        let mut rng = SimRng::from_seed(seed);
        let mut particles: Vec<Particle> = Vec::new();
        let n = cfg.particle_count;
        let mut i: usize = 0;
        while i < n
            invariant
                0 <= i <= n,
                cfg.wf(),
                n == cfg.particle_count,
                particles@.len() == i,
                rng.state == lcg_iter(seed, (4 * i) as nat),
                forall|k: int| 0 <= k < i ==> particle_ok(#[trigger] particles@[k], *cfg),
                forall|k: int| #![trigger particles@[k]]
                    0 <= k < i ==> {
                        &&& particles@[k].position.x == sample_in_range(
                            lcg_iter(seed, (4 * k + 1) as nat),
                            cfg.position_range as int,
                        )
                        &&& particles@[k].position.y == sample_in_range(
                            lcg_iter(seed, (4 * k + 2) as nat),
                            cfg.position_range as int,
                        )
                        &&& (particles@[k].velocity.x as int, particles@[k].velocity.y as int)
                            == clamp_speed_spec(
                            sample_in_range(
                                lcg_iter(seed, (4 * k + 3) as nat),
                                cfg.velocity_range as int,
                            ),
                            sample_in_range(
                                lcg_iter(seed, (4 * k + 4) as nat),
                                cfg.velocity_range as int,
                            ),
                            cfg.max_speed as int,
                        )
                    },
            decreases n - i,
        {
            let px = rng.next_in_range(cfg.position_range);
            proof {
                assert(rng.state == lcg_iter(seed, (4 * i + 1) as nat));
            }
            let py = rng.next_in_range(cfg.position_range);
            proof {
                assert(rng.state == lcg_iter(seed, (4 * i + 2) as nat));
            }
            let vx = rng.next_in_range(cfg.velocity_range);
            proof {
                assert(rng.state == lcg_iter(seed, (4 * i + 3) as nat));
            }
            let vy = rng.next_in_range(cfg.velocity_range);
            proof {
                assert(rng.state == lcg_iter(seed, (4 * i + 4) as nat));
            }
            let velocity = clamp_speed(Vec2 { x: vx, y: vy }, cfg.max_speed);
            let p = Particle { position: Vec2 { x: px, y: py }, velocity };
            particles.push(p);
            i = i + 1;
            proof {
                assert(particle_ok(particles@[i - 1], *cfg));
                assert((4 * (i - 1) + 4) as nat == (4 * i) as nat);
            }
        }
        Store { particles }
    }
}

/// Executable test for membership in the simulation domain.
pub fn in_domain_exec(v: Vec2) -> (r: bool)
    ensures
        r == in_domain(v),
{
    -crate::fxp::SCALE <= v.x && v.x <= crate::fxp::SCALE && -crate::fxp::SCALE <= v.y && v.y
        <= crate::fxp::SCALE
}

} // verus!
