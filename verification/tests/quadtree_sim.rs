use boids::config::{Boundary, Config};
use boids::fxp::{SCALE, Vec2};
use boids::quadtree::QuadTree;
use boids::sim;
use boids::store::{Particle, Store};

fn brute_force_neighbors(ps: &Vec<Particle>, q: Vec2, radius: i64) -> Vec<usize> {
    let r2: i64 = radius * radius;
    let mut out: Vec<usize> = Vec::new();
    for j in 0..ps.len() {
        let dx: i64 = ps[j].position.x - q.x;
        let dy: i64 = ps[j].position.y - q.y;
        if dx * dx + dy * dy <= r2 {
            out.push(j);
        }
    }
    out
}

fn assert_same_index_set(mut a: Vec<usize>, mut b: Vec<usize>) {
    a.sort();
    b.sort();
    assert_eq!(a, b);
}

#[test]
fn query_matches_brute_force() {
    let cfg = Config::new(
        300, SCALE, 200, 9000, 2000, 32768, 16384, 8192, 1500, 4, 12, Boundary::Wrap,
    )
    .unwrap();
    let store = Store::initialize(&cfg, 7);
    let ps = store.read();
    let tree = QuadTree::build(ps, &cfg);
    for probe in 0..10usize {
        let q = ps[probe * 17].position;
        let got = tree.neighbors_within(ps, q, cfg.perception_radius);
        let want = brute_force_neighbors(ps, q, cfg.perception_radius);
        assert_same_index_set(got, want);
    }
    let corner = Vec2 { x: SCALE - 1, y: -SCALE + 1 };
    let got = tree.neighbors_within(ps, corner, 2 * SCALE);
    let want = brute_force_neighbors(ps, corner, 2 * SCALE);
    assert_same_index_set(got, want);
}

#[test]
fn quadtree_partitions_all_particles() {
    let cfg = Config::new(
        500, SCALE, 200, 9000, 2000, 32768, 16384, 8192, 1500, 4, 16, Boundary::Wrap,
    )
    .unwrap();
    let store = Store::initialize(&cfg, 11);
    let ps = store.read();
    let tree = QuadTree::build(ps, &cfg);

    // The index array is a permutation of 0..count.
    assert_eq!(tree.idx.len(), 500);
    let mut seen = vec![0usize; 500];
    for &i in tree.idx.iter() {
        assert!(i < 500);
        seen[i] += 1;
    }
    for i in 0..500usize {
        assert_eq!(seen[i], 1);
    }

    // Every index-array position lies in exactly one leaf's run, and leaf
    // runs stay within their parents' runs.
    let mut covered = vec![0usize; 500];
    for nd in tree.nodes.iter() {
        assert!(nd.particle_start + nd.particle_count <= tree.idx.len());
        if nd.children.is_none() {
            for j in nd.particle_start..nd.particle_start + nd.particle_count {
                covered[j] += 1;
            }
        }
        // every particle of the node's run lies inside its rectangle
        for j in nd.particle_start..nd.particle_start + nd.particle_count {
            let p = ps[tree.idx[j]].position;
            assert!(nd.min_bound.x <= p.x && p.x <= nd.max_bound.x);
            assert!(nd.min_bound.y <= p.y && p.y <= nd.max_bound.y);
        }
    }
    for j in 0..500usize {
        assert_eq!(covered[j], 1);
    }
}

#[test]
fn stress_build_and_query() {
    let cfg = Config::new(
        100000, SCALE, 200, 3000, 500, 32768, 16384, 8192, 1500, 16, 32, Boundary::Wrap,
    )
    .unwrap();
    let store = Store::initialize(&cfg, 123);
    let ps = store.read();
    let tree = QuadTree::build(ps, &cfg);
    assert_eq!(tree.idx.len(), 100000);
    for probe in [0usize, 49999, 99999] {
        let q = ps[probe].position;
        let got = tree.neighbors_within(ps, q, cfg.perception_radius);
        let want = brute_force_neighbors(ps, q, cfg.perception_radius);
        assert_same_index_set(got, want);
    }
}

#[test]
fn single_particle_moves_in_a_straight_line() {
    let cfg =
        Config::new(1, SCALE, 64, 6553, 1000, 32768, 16384, 8192, 50, 8, 12, Boundary::Wrap)
            .unwrap();
    let p = Particle { position: Vec2 { x: 1000, y: 2000 }, velocity: Vec2 { x: 30, y: -40 } };
    let mut store = Store::from_particles(vec![p], &cfg).unwrap();
    let expected = [(1030i64, 1960i64), (1060, 1920), (1090, 1880)];
    for step in 0..3usize {
        sim::step(&mut store, &cfg);
        let got = store.read()[0];
        assert_eq!(got.velocity.x, 30);
        assert_eq!(got.velocity.y, -40);
        assert_eq!(got.position.x, expected[step].0);
        assert_eq!(got.position.y, expected[step].1);
    }
}

#[test]
fn golden_two_particles_one_step() {
    let cfg = Config::new(
        2, SCALE, 200, SCALE, 400, 32768, 16384, 8192, 100, 8, 8, Boundary::Wrap,
    )
    .unwrap();
    let particles = vec![
        Particle { position: Vec2 { x: 0, y: 0 }, velocity: Vec2 { x: 0, y: 0 } },
        Particle { position: Vec2 { x: 300, y: 0 }, velocity: Vec2 { x: 100, y: 0 } },
    ];
    let mut store = Store::from_particles(particles, &cfg).unwrap();
    sim::step(&mut store, &cfg);
    let ps = store.read();
    // particle 0: separation -218, alignment +100, cohesion +300;
    // acceleration = (32768*-218 + 16384*100 + 8192*300) / 65536 = -46
    assert_eq!(ps[0].velocity, Vec2 { x: -46, y: 0 });
    assert_eq!(ps[0].position, Vec2 { x: -46, y: 0 });
    // particle 1: mirrored acceleration +46 takes its speed to 146, which is
    // clamped to at most 100: 146*100/147 = 99
    assert_eq!(ps[1].velocity, Vec2 { x: 99, y: 0 });
    assert_eq!(ps[1].position, Vec2 { x: 399, y: 0 });
}

#[test]
fn golden_four_symmetric_particles() {
    let cfg = Config::new(
        4, SCALE, 200, SCALE, 0, SCALE, SCALE, SCALE, 2000, 8, 8, Boundary::Wrap,
    )
    .unwrap();
    let particles = vec![
        Particle { position: Vec2 { x: 1000, y: 0 }, velocity: Vec2 { x: 0, y: 0 } },
        Particle { position: Vec2 { x: -1000, y: 0 }, velocity: Vec2 { x: 0, y: 0 } },
        Particle { position: Vec2 { x: 0, y: 1000 }, velocity: Vec2 { x: 0, y: 0 } },
        Particle { position: Vec2 { x: 0, y: -1000 }, velocity: Vec2 { x: 0, y: 0 } },
    ];
    let mut store = Store::from_particles(particles, &cfg).unwrap();
    sim::step(&mut store, &cfg);
    let ps = store.read();
    // cohesion alone acts: each particle steers toward the other three's
    // centroid; for the particle at (1000, 0) that is (-1000/3 - 1000) = -1333
    assert_eq!(ps[0].velocity, Vec2 { x: -1333, y: 0 });
    assert_eq!(ps[0].position, Vec2 { x: -333, y: 0 });
    assert_eq!(ps[1].velocity, Vec2 { x: 1333, y: 0 });
    assert_eq!(ps[1].position, Vec2 { x: 333, y: 0 });
    assert_eq!(ps[2].velocity, Vec2 { x: 0, y: -1333 });
    assert_eq!(ps[2].position, Vec2 { x: 0, y: -333 });
    assert_eq!(ps[3].velocity, Vec2 { x: 0, y: 1333 });
    assert_eq!(ps[3].position, Vec2 { x: 0, y: 333 });
}

#[test]
fn boundary_wrap_reenters_opposite_edge() {
    let cfg =
        Config::new(1, SCALE, 64, 6553, 1000, 1, 1, 1, 2000, 8, 12, Boundary::Wrap).unwrap();
    let p = Particle {
        position: Vec2 { x: 65000, y: -65000 },
        velocity: Vec2 { x: 1000, y: -1000 },
    };
    let mut store = Store::from_particles(vec![p], &cfg).unwrap();
    sim::step(&mut store, &cfg);
    let got = store.read()[0];
    assert_eq!(got.position.x, 66000 - 2 * SCALE);
    assert_eq!(got.position.y, -66000 + 2 * SCALE);
    assert_eq!(got.velocity, Vec2 { x: 1000, y: -1000 });
}

#[test]
fn boundary_clamp_pins_to_edge() {
    let cfg =
        Config::new(1, SCALE, 64, 6553, 1000, 1, 1, 1, 2000, 8, 12, Boundary::Clamp).unwrap();
    let p = Particle {
        position: Vec2 { x: 65000, y: -65000 },
        velocity: Vec2 { x: 1000, y: -1000 },
    };
    let mut store = Store::from_particles(vec![p], &cfg).unwrap();
    sim::step(&mut store, &cfg);
    let got = store.read()[0];
    assert_eq!(got.position.x, SCALE);
    assert_eq!(got.position.y, -SCALE);
    assert_eq!(got.velocity, Vec2 { x: 1000, y: -1000 });
}

#[test]
fn population_conserved_speed_bounded_domain_contained() {
    let cfg = Config::new(
        50, SCALE, 200, 20000, 4000, 50000, 40000, 30000, 800, 4, 12, Boundary::Wrap,
    )
    .unwrap();
    let mut store = Store::initialize(&cfg, 99);
    for _ in 0..5usize {
        sim::step(&mut store, &cfg);
        assert_eq!(store.len(), 50);
        let ps = store.read();
        for p in ps.iter() {
            let n: i64 = p.velocity.x * p.velocity.x + p.velocity.y * p.velocity.y;
            assert!(n <= cfg.max_speed * cfg.max_speed);
            assert!(-SCALE <= p.position.x && p.position.x <= SCALE);
            assert!(-SCALE <= p.position.y && p.position.y <= SCALE);
        }
    }
}

#[test]
fn step_is_deterministic() {
    let cfg = Config::new(
        20, SCALE, 200, 20000, 4000, 50000, 40000, 30000, 800, 4, 12, Boundary::Wrap,
    )
    .unwrap();
    let mut a = Store::initialize(&cfg, 5);
    let mut b = Store::initialize(&cfg, 5);
    for _ in 0..3usize {
        sim::step(&mut a, &cfg);
        sim::step(&mut b, &cfg);
    }
    for i in 0..20usize {
        assert_eq!(a.read()[i], b.read()[i]);
    }
}
