use boids::config::{Boundary, Config, ConfigError};
use boids::fxp::{SCALE, Vec2, clamp_box, isqrt, wrap_coord};
use boids::store::{Particle, Store, StoreError};

fn base_config() -> Config {
    Config::new(100, SCALE, 64, 6553, 1000, 32768, 16384, 8192, 2000, 8, 12, Boundary::Wrap)
        .unwrap()
}

#[test]
fn config_accepts_valid_parameters() {
    let c = base_config();
    assert_eq!(c.particle_count, 100);
    assert_eq!(c.position_range, SCALE);
    assert_eq!(c.velocity_range, 64);
    assert_eq!(c.perception_radius, 6553);
    assert_eq!(c.separation_distance, 1000);
    assert_eq!(c.separation_weight, 32768);
    assert_eq!(c.alignment_weight, 16384);
    assert_eq!(c.cohesion_weight, 8192);
    assert_eq!(c.max_speed, 2000);
    assert_eq!(c.leaf_capacity, 8);
    assert_eq!(c.max_depth, 12);
    assert_eq!(c.boundary, Boundary::Wrap);
}

#[test]
fn config_rejects_bad_particle_count() {
    let r = Config::new(0, SCALE, 64, 6553, 1000, 1, 1, 1, 2000, 8, 12, Boundary::Wrap);
    assert_eq!(r, Err(ConfigError::InvalidParticleCount));
    let r = Config::new(1000001, SCALE, 64, 6553, 1000, 1, 1, 1, 2000, 8, 12, Boundary::Wrap);
    assert_eq!(r, Err(ConfigError::InvalidParticleCount));
}

#[test]
fn config_rejects_bad_position_range() {
    let r = Config::new(10, 0, 64, 6553, 1000, 1, 1, 1, 2000, 8, 12, Boundary::Wrap);
    assert_eq!(r, Err(ConfigError::InvalidPositionRange));
    let r = Config::new(10, SCALE + 1, 64, 6553, 1000, 1, 1, 1, 2000, 8, 12, Boundary::Wrap);
    assert_eq!(r, Err(ConfigError::InvalidPositionRange));
}

#[test]
fn config_rejects_bad_velocity_range() {
    let r = Config::new(10, SCALE, -1, 6553, 1000, 1, 1, 1, 2000, 8, 12, Boundary::Wrap);
    assert_eq!(r, Err(ConfigError::InvalidVelocityRange));
}

#[test]
fn config_rejects_bad_perception_radius() {
    let r = Config::new(10, SCALE, 64, 0, 1000, 1, 1, 1, 2000, 8, 12, Boundary::Wrap);
    assert_eq!(r, Err(ConfigError::InvalidPerceptionRadius));
}

#[test]
fn config_rejects_bad_separation_distance() {
    let r = Config::new(10, SCALE, 64, 6553, -5, 1, 1, 1, 2000, 8, 12, Boundary::Wrap);
    assert_eq!(r, Err(ConfigError::InvalidSeparationDistance));
}

#[test]
fn config_rejects_bad_weight() {
    let r = Config::new(10, SCALE, 64, 6553, 1000, SCALE + 1, 1, 1, 2000, 8, 12, Boundary::Wrap);
    assert_eq!(r, Err(ConfigError::InvalidWeight));
    let r = Config::new(10, SCALE, 64, 6553, 1000, 1, -1, 1, 2000, 8, 12, Boundary::Wrap);
    assert_eq!(r, Err(ConfigError::InvalidWeight));
}

#[test]
fn config_rejects_bad_max_speed() {
    let r = Config::new(10, SCALE, 64, 6553, 1000, 1, 1, 1, -1, 8, 12, Boundary::Wrap);
    assert_eq!(r, Err(ConfigError::InvalidMaxSpeed));
}

#[test]
fn config_rejects_bad_leaf_capacity() {
    let r = Config::new(10, SCALE, 64, 6553, 1000, 1, 1, 1, 2000, 0, 12, Boundary::Wrap);
    assert_eq!(r, Err(ConfigError::InvalidLeafCapacity));
}

#[test]
fn config_rejects_bad_max_depth() {
    let r = Config::new(10, SCALE, 64, 6553, 1000, 1, 1, 1, 2000, 8, 0, Boundary::Wrap);
    assert_eq!(r, Err(ConfigError::InvalidMaxDepth));
    let r = Config::new(10, SCALE, 64, 6553, 1000, 1, 1, 1, 2000, 8, 49, Boundary::Wrap);
    assert_eq!(r, Err(ConfigError::InvalidMaxDepth));
}

#[test]
fn config_reports_first_bad_parameter() {
    // Both the count and the position range are bad: the count decides.
    let r = Config::new(0, 0, 64, 6553, 1000, 1, 1, 1, 2000, 8, 12, Boundary::Wrap);
    assert_eq!(r, Err(ConfigError::InvalidParticleCount));
}

#[test]
fn isqrt_exact_values() {
    assert_eq!(isqrt(0), 0);
    assert_eq!(isqrt(1), 1);
    assert_eq!(isqrt(3), 1);
    assert_eq!(isqrt(4), 2);
    assert_eq!(isqrt(24), 4);
    assert_eq!(isqrt(25), 5);
    assert_eq!(isqrt(21316), 146);
    assert_eq!(isqrt(21315), 145);
}

#[test]
fn wrap_and_clamp_coords() {
    assert_eq!(wrap_coord(66000), 66000 - 2 * SCALE);
    assert_eq!(wrap_coord(-66000), -66000 + 2 * SCALE);
    assert_eq!(wrap_coord(SCALE), SCALE);
    assert_eq!(wrap_coord(-SCALE), -SCALE);
    assert_eq!(clamp_box(66000, SCALE), SCALE);
    assert_eq!(clamp_box(-66000, SCALE), -SCALE);
    assert_eq!(clamp_box(123, SCALE), 123);
}

#[test]
fn initialize_is_deterministic_and_in_range() {
    let cfg = base_config();
    let s1 = Store::initialize(&cfg, 42);
    let s2 = Store::initialize(&cfg, 42);
    assert_eq!(s1.len(), 100);
    assert_eq!(s2.len(), 100);
    let v1 = s1.read();
    let v2 = s2.read();
    for i in 0..100usize {
        assert_eq!(v1[i], v2[i]);
        let p = v1[i];
        assert!(p.position.x >= -cfg.position_range && p.position.x <= cfg.position_range);
        assert!(p.position.y >= -cfg.position_range && p.position.y <= cfg.position_range);
        let n: i64 = p.velocity.x * p.velocity.x + p.velocity.y * p.velocity.y;
        assert!(n <= cfg.max_speed * cfg.max_speed);
    }
}

#[test]
fn from_particles_validates() {
    let cfg = Config::new(2, SCALE, 64, 6553, 1000, 1, 1, 1, 100, 8, 12, Boundary::Wrap).unwrap();
    let good = vec![
        Particle { position: Vec2 { x: 0, y: 0 }, velocity: Vec2 { x: 0, y: 0 } },
        Particle { position: Vec2 { x: 300, y: 0 }, velocity: Vec2 { x: 100, y: 0 } },
    ];
    let s = Store::from_particles(good.clone(), &cfg).unwrap();
    assert_eq!(s.read()[1].position.x, 300);

    let r = Store::from_particles(vec![good[0]], &cfg);
    assert_eq!(r.err(), Some(StoreError::WrongCount));

    let mut bad_pos = good.clone();
    bad_pos[0].position.x = SCALE + 1;
    let r = Store::from_particles(bad_pos, &cfg);
    assert_eq!(r.err(), Some(StoreError::PositionOutOfDomain));

    let mut bad_vel = good.clone();
    bad_vel[1].velocity = Vec2 { x: 71, y: 71 };
    // componentwise within max_speed, but the norm exceeds it
    let r = Store::from_particles(bad_vel, &cfg);
    assert_eq!(r.err(), Some(StoreError::VelocityTooFast));

    let mut too_fast = good;
    too_fast[1].velocity = Vec2 { x: 101, y: 0 };
    let r = Store::from_particles(too_fast, &cfg);
    assert_eq!(r.err(), Some(StoreError::VelocityTooFast));
}

#[test]
fn read_write_exposes_whole_store() {
    let cfg = Config::new(1, SCALE, 64, 6553, 1000, 1, 1, 1, 100, 8, 12, Boundary::Wrap).unwrap();
    let p = Particle { position: Vec2 { x: 5, y: 6 }, velocity: Vec2 { x: 1, y: 2 } };
    let mut s = Store::from_particles(vec![p], &cfg).unwrap();
    let view = s.read_write();
    view[0].position.x = 7;
    assert_eq!(s.read()[0].position.x, 7);
    assert_eq!(s.read()[0].position.y, 6);
}
