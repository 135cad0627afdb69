use vstd::prelude::*;
use crate::config::{Boundary, Config};
use crate::fxp::{
    Vec2, SCALE, clamp_box, clamp_box_spec, clamp_speed, clamp_speed_spec, dist_sq, dist_sq_spec,
    lemma_sdiv_le, lemma_sdiv_quot, sdiv, sdiv64, wrap_coord, wrap_spec,
};
use crate::quadtree::{QuadTree, hit, tree_wf};
use crate::seqsum::{
    lemma_seq_sum_complete, lemma_seq_sum_push, range_sum, seq_sum,
};
use crate::store::{Particle, Store, particle_ok, store_wf};

verus! {

/// Particle `j` is a flocking neighbor of particle `i`: a different particle
/// within the perception radius `r` of `i`'s position.
pub open spec fn is_neighbor(ps: Seq<Particle>, i: int, r: int, j: usize) -> bool {
    (j as int) < ps.len() && (j as int) != i && dist_sq_spec(
        ps[j as int].position,
        ps[i].position,
    ) <= r * r
}

/// Indicator term: 1 for each neighbor of `i`.
pub open spec fn nbr_count_f(ps: Seq<Particle>, i: int, r: int) -> spec_fn(usize) -> int {
    |j: usize| if is_neighbor(ps, i, r, j) { 1int } else { 0int }
}

/// Position-x term of the cohesion sum.
pub open spec fn sum_px_f(ps: Seq<Particle>, i: int, r: int) -> spec_fn(usize) -> int {
    |j: usize| if is_neighbor(ps, i, r, j) { ps[j as int].position.x as int } else { 0int }
}

/// Position-y term of the cohesion sum.
pub open spec fn sum_py_f(ps: Seq<Particle>, i: int, r: int) -> spec_fn(usize) -> int {
    |j: usize| if is_neighbor(ps, i, r, j) { ps[j as int].position.y as int } else { 0int }
}

/// Velocity-x term of the alignment sum.
pub open spec fn sum_vx_f(ps: Seq<Particle>, i: int, r: int) -> spec_fn(usize) -> int {
    |j: usize| if is_neighbor(ps, i, r, j) { ps[j as int].velocity.x as int } else { 0int }
}

/// Velocity-y term of the alignment sum.
pub open spec fn sum_vy_f(ps: Seq<Particle>, i: int, r: int) -> spec_fn(usize) -> int {
    |j: usize| if is_neighbor(ps, i, r, j) { ps[j as int].velocity.y as int } else { 0int }
}

/// Separation-x term: a neighbor strictly closer than `sd` (but not
/// coincident) pushes `i` away along x, inversely weighted by the squared
/// distance and scaled to fixed point.
pub open spec fn sep_x_f(ps: Seq<Particle>, i: int, r: int, sd: int) -> spec_fn(usize) -> int {
    |j: usize|
        {
            let d2 = dist_sq_spec(ps[j as int].position, ps[i].position);
            if is_neighbor(ps, i, r, j) && 0 < d2 < sd * sd {
                sdiv((ps[i].position.x - ps[j as int].position.x) * SCALE, d2)
            } else {
                0int
            }
        }
}

/// Separation-y term.
pub open spec fn sep_y_f(ps: Seq<Particle>, i: int, r: int, sd: int) -> spec_fn(usize) -> int {
    |j: usize|
        {
            let d2 = dist_sq_spec(ps[j as int].position, ps[i].position);
            if is_neighbor(ps, i, r, j) && 0 < d2 < sd * sd {
                sdiv((ps[i].position.y - ps[j as int].position.y) * SCALE, d2)
            } else {
                0int
            }
        }
}

/// How many flocking neighbors particle `i` has.
pub open spec fn neighbor_count(ps: Seq<Particle>, i: int, r: int) -> int {
    range_sum(ps.len(), nbr_count_f(ps, i, r))
}

/// The acceleration applied to particle `i` this frame: the three influence
/// vectors — separation, alignment toward the neighbors' mean velocity,
/// cohesion toward their centroid — each clamped into `[-SCALE, SCALE]` per
/// component, then combined with their fixed-point weights. A particle with
/// no neighbors gets no acceleration.
pub open spec fn influence(ps: Seq<Particle>, i: int, cfg: Config) -> (int, int) {
    let r = cfg.perception_radius as int;
    let sd = cfg.separation_distance as int;
    let n = ps.len();
    let cnt = neighbor_count(ps, i, r);
    if cnt == 0 {
        (0int, 0int)
    } else {
        let cohx = clamp_box_spec(
            sdiv(range_sum(n, sum_px_f(ps, i, r)), cnt) - ps[i].position.x,
            SCALE as int,
        );
        let cohy = clamp_box_spec(
            sdiv(range_sum(n, sum_py_f(ps, i, r)), cnt) - ps[i].position.y,
            SCALE as int,
        );
        let alix = clamp_box_spec(
            sdiv(range_sum(n, sum_vx_f(ps, i, r)), cnt) - ps[i].velocity.x,
            SCALE as int,
        );
        let aliy = clamp_box_spec(
            sdiv(range_sum(n, sum_vy_f(ps, i, r)), cnt) - ps[i].velocity.y,
            SCALE as int,
        );
        let sepx = clamp_box_spec(range_sum(n, sep_x_f(ps, i, r, sd)), SCALE as int);
        let sepy = clamp_box_spec(range_sum(n, sep_y_f(ps, i, r, sd)), SCALE as int);
        (
            sdiv(
                cfg.separation_weight * sepx + cfg.alignment_weight * alix + cfg.cohesion_weight
                    * cohx,
                SCALE as int,
            ),
            sdiv(
                cfg.separation_weight * sepy + cfg.alignment_weight * aliy + cfg.cohesion_weight
                    * cohy,
                SCALE as int,
            ),
        )
    }
}

/// The velocity of particle `i` after one update: acceleration applied,
/// then the Euclidean norm clamped to `max_speed`.
pub open spec fn new_velocity(ps: Seq<Particle>, i: int, cfg: Config) -> (int, int) {
    let a = influence(ps, i, cfg);
    clamp_speed_spec(
        ps[i].velocity.x + a.0,
        ps[i].velocity.y + a.1,
        cfg.max_speed as int,
    )
}

/// One coordinate put back into the domain under the configured policy.
pub open spec fn apply_boundary(p: int, b: Boundary) -> int {
    match b {
        Boundary::Wrap => wrap_spec(p),
        Boundary::Clamp => clamp_box_spec(p, SCALE as int),
    }
}

/// The position of particle `i` after one update: one unit time step of the
/// new velocity, then the boundary policy.
pub open spec fn new_position(ps: Seq<Particle>, i: int, cfg: Config) -> (int, int) {
    let v = new_velocity(ps, i, cfg);
    (
        apply_boundary(ps[i].position.x + v.0, cfg.boundary),
        apply_boundary(ps[i].position.y + v.1, cfg.boundary),
    )
}

/// Update one particle from the previous frame's state: neighbors are found
/// through the spatial index, and the result is a pure function of the old
/// population — which is what licenses updating all particles in parallel.
#[verifier::loop_isolation(false)]
#[verifier::rlimit(100)]
pub fn update_particle(ps: &Vec<Particle>, tree: &QuadTree, i: usize, cfg: &Config) -> (p: Particle)
    requires
        cfg.wf(),
        store_wf(ps@, *cfg),
        tree_wf(*tree, ps@),
        (i as int) < ps@.len(),
    ensures
        (p.velocity.x as int, p.velocity.y as int) == new_velocity(ps@, i as int, *cfg),
        (p.position.x as int, p.position.y as int) == new_position(ps@, i as int, *cfg),
        particle_ok(p, *cfg),
{
    let pos_i = ps[i].position;
    let vel_i = ps[i].velocity;
    let ghost gi = i as int;
    let ghost r = cfg.perception_radius as int;
    let ghost sd = cfg.separation_distance as int;
    let ghost n = ps@.len();
    let ghost f_cnt = nbr_count_f(ps@, gi, r);
    let ghost f_px = sum_px_f(ps@, gi, r);
    let ghost f_py = sum_py_f(ps@, gi, r);
    let ghost f_vx = sum_vx_f(ps@, gi, r);
    let ghost f_vy = sum_vy_f(ps@, gi, r);
    let ghost f_sx = sep_x_f(ps@, gi, r, sd);
    let ghost f_sy = sep_y_f(ps@, gi, r, sd);
    let ns = tree.neighbors_within(ps, pos_i, cfg.perception_radius);
    proof {
        assert(0 <= cfg.separation_distance * cfg.separation_distance <= 17179869184)
            by (nonlinear_arith)
            requires 0 <= cfg.separation_distance <= 131072;
    }
    let sd2: i64 = cfg.separation_distance * cfg.separation_distance;
    let mut cnt: i64 = 0;
    let mut spx: i64 = 0;
    let mut spy: i64 = 0;
    let mut svx: i64 = 0;
    let mut svy: i64 = 0;
    let mut sepx: i64 = 0;
    let mut sepy: i64 = 0;
    let mut k: usize = 0;
    proof {
        assert(ns@.subrange(0, 0) =~= Seq::<usize>::empty());
    }
    while k < ns.len()
        invariant
            k <= ns@.len(),
            cnt == seq_sum(ns@.subrange(0, k as int), f_cnt),
            spx == seq_sum(ns@.subrange(0, k as int), f_px),
            spy == seq_sum(ns@.subrange(0, k as int), f_py),
            svx == seq_sum(ns@.subrange(0, k as int), f_vx),
            svy == seq_sum(ns@.subrange(0, k as int), f_vy),
            sepx == seq_sum(ns@.subrange(0, k as int), f_sx),
            sepy == seq_sum(ns@.subrange(0, k as int), f_sy),
            0 <= cnt <= k,
            -(k as int) * 65536 <= spx <= (k as int) * 65536,
            -(k as int) * 65536 <= spy <= (k as int) * 65536,
            -(k as int) * 65536 <= svx <= (k as int) * 65536,
            -(k as int) * 65536 <= svy <= (k as int) * 65536,
            -(k as int) * 8589934592 <= sepx <= (k as int) * 8589934592,
            -(k as int) * 8589934592 <= sepy <= (k as int) * 8589934592,
        decreases ns@.len() - k,
    {
        let j = ns[k];
        let ghost prefix = ns@.subrange(0, k as int);
        proof {
            assert(ns@.subrange(0, k + 1) =~= prefix.push(j));
            lemma_seq_sum_push(prefix, f_cnt, j);
            lemma_seq_sum_push(prefix, f_px, j);
            lemma_seq_sum_push(prefix, f_py, j);
            lemma_seq_sum_push(prefix, f_vx, j);
            lemma_seq_sum_push(prefix, f_vy, j);
            lemma_seq_sum_push(prefix, f_sx, j);
            lemma_seq_sum_push(prefix, f_sy, j);
            assert(hit(ps@, pos_i, (cfg.perception_radius * cfg.perception_radius) as int, ns@[k as int]));
            assert(particle_ok(ps@[j as int], *cfg));
        }
        if j != i {
            proof {
                assert(is_neighbor(ps@, gi, r, j));
            }
            cnt = cnt + 1;
            spx = spx + ps[j].position.x;
            spy = spy + ps[j].position.y;
            svx = svx + ps[j].velocity.x;
            svy = svy + ps[j].velocity.y;
            let d2 = dist_sq(ps[j].position, pos_i);
            if 0 < d2 && d2 < sd2 {
                let dx = pos_i.x - ps[j].position.x;
                let dy = pos_i.y - ps[j].position.y;
                proof {
                    assert(-8589934592 <= dx * 65536 <= 8589934592 && -8589934592 <= dy * 65536
                        <= 8589934592) by (nonlinear_arith)
                        requires -131072 <= dx <= 131072, -131072 <= dy <= 131072;
                    lemma_sdiv_le(dx * 65536, d2 as int, 8589934592);
                    lemma_sdiv_le(dy * 65536, d2 as int, 8589934592);
                }
                sepx = sepx + sdiv64(dx * SCALE, d2);
                sepy = sepy + sdiv64(dy * SCALE, d2);
            } else {
                proof {
                    assert(f_sx(j) == 0 && f_sy(j) == 0);
                }
            }
        } else {
            proof {
                assert(!is_neighbor(ps@, gi, r, j));
                assert(f_cnt(j) == 0 && f_px(j) == 0 && f_py(j) == 0 && f_vx(j) == 0 && f_vy(j)
                    == 0 && f_sx(j) == 0 && f_sy(j) == 0);
            }
        }
        k = k + 1;
    }
    proof {
        assert(ns@.subrange(0, ns@.len() as int) =~= ns@);
        assert forall|j: usize| (j as int) < n && #[trigger] f_cnt(j) != 0 implies ns@.contains(j) by {
            assert(hit(ps@, pos_i, (cfg.perception_radius * cfg.perception_radius) as int, j));
        }
        assert forall|j: usize| (j as int) < n && #[trigger] f_px(j) != 0 implies ns@.contains(j) by {
            assert(hit(ps@, pos_i, (cfg.perception_radius * cfg.perception_radius) as int, j));
        }
        assert forall|j: usize| (j as int) < n && #[trigger] f_py(j) != 0 implies ns@.contains(j) by {
            assert(hit(ps@, pos_i, (cfg.perception_radius * cfg.perception_radius) as int, j));
        }
        assert forall|j: usize| (j as int) < n && #[trigger] f_vx(j) != 0 implies ns@.contains(j) by {
            assert(hit(ps@, pos_i, (cfg.perception_radius * cfg.perception_radius) as int, j));
        }
        assert forall|j: usize| (j as int) < n && #[trigger] f_vy(j) != 0 implies ns@.contains(j) by {
            assert(hit(ps@, pos_i, (cfg.perception_radius * cfg.perception_radius) as int, j));
        }
        assert forall|j: usize| (j as int) < n && #[trigger] f_sx(j) != 0 implies ns@.contains(j) by {
            assert(hit(ps@, pos_i, (cfg.perception_radius * cfg.perception_radius) as int, j));
        }
        assert forall|j: usize| (j as int) < n && #[trigger] f_sy(j) != 0 implies ns@.contains(j) by {
            assert(hit(ps@, pos_i, (cfg.perception_radius * cfg.perception_radius) as int, j));
        }
        lemma_seq_sum_complete(ns@, f_cnt, n);
        lemma_seq_sum_complete(ns@, f_px, n);
        lemma_seq_sum_complete(ns@, f_py, n);
        lemma_seq_sum_complete(ns@, f_vx, n);
        lemma_seq_sum_complete(ns@, f_vy, n);
        lemma_seq_sum_complete(ns@, f_sx, n);
        lemma_seq_sum_complete(ns@, f_sy, n);
        assert(cnt == neighbor_count(ps@, gi, r));
    }
    let accx: i64;
    let accy: i64;
    if cnt == 0 {
        accx = 0;
        accy = 0;
        proof {
            assert(influence(ps@, gi, *cfg) == (0int, 0int));
        }
    } else {
        proof {
            lemma_sdiv_le(spx as int, cnt as int, 68719476736);
            lemma_sdiv_le(spy as int, cnt as int, 68719476736);
            lemma_sdiv_le(svx as int, cnt as int, 68719476736);
            lemma_sdiv_le(svy as int, cnt as int, 68719476736);
        }
        let cohx = clamp_box(sdiv64(spx, cnt) - pos_i.x, SCALE);
        let cohy = clamp_box(sdiv64(spy, cnt) - pos_i.y, SCALE);
        let alix = clamp_box(sdiv64(svx, cnt) - vel_i.x, SCALE);
        let aliy = clamp_box(sdiv64(svy, cnt) - vel_i.y, SCALE);
        let sepxc = clamp_box(sepx, SCALE);
        let sepyc = clamp_box(sepy, SCALE);
        proof {
            assert(-4294967296 <= cfg.separation_weight * sepxc <= 4294967296 && -4294967296
                <= cfg.separation_weight * sepyc <= 4294967296 && -4294967296
                <= cfg.alignment_weight * alix <= 4294967296 && -4294967296 <= cfg.alignment_weight
                * aliy <= 4294967296 && -4294967296 <= cfg.cohesion_weight * cohx <= 4294967296
                && -4294967296 <= cfg.cohesion_weight * cohy <= 4294967296) by (nonlinear_arith)
                requires
                    0 <= cfg.separation_weight <= 65536,
                    0 <= cfg.alignment_weight <= 65536,
                    0 <= cfg.cohesion_weight <= 65536,
                    -65536 <= sepxc <= 65536,
                    -65536 <= sepyc <= 65536,
                    -65536 <= alix <= 65536,
                    -65536 <= aliy <= 65536,
                    -65536 <= cohx <= 65536,
                    -65536 <= cohy <= 65536,
            ;
            lemma_sdiv_quot(
                (cfg.separation_weight * sepxc + cfg.alignment_weight * alix + cfg.cohesion_weight
                    * cohx) as int,
                65536,
                196608,
            );
            lemma_sdiv_quot(
                (cfg.separation_weight * sepyc + cfg.alignment_weight * aliy + cfg.cohesion_weight
                    * cohy) as int,
                65536,
                196608,
            );
        }
        accx = sdiv64(
            cfg.separation_weight * sepxc + cfg.alignment_weight * alix + cfg.cohesion_weight
                * cohx,
            SCALE,
        );
        accy = sdiv64(
            cfg.separation_weight * sepyc + cfg.alignment_weight * aliy + cfg.cohesion_weight
                * cohy,
            SCALE,
        );
        proof {
            assert(influence(ps@, gi, *cfg) == (accx as int, accy as int));
        }
    }
    proof {
        assert(particle_ok(ps@[gi], *cfg));
    }
    let velocity = clamp_speed(Vec2 { x: vel_i.x + accx, y: vel_i.y + accy }, cfg.max_speed);
    let px = pos_i.x + velocity.x;
    let py = pos_i.y + velocity.y;
    let position = match cfg.boundary {
        Boundary::Wrap => Vec2 { x: wrap_coord(px), y: wrap_coord(py) },
        Boundary::Clamp => Vec2 { x: clamp_box(px, SCALE), y: clamp_box(py, SCALE) },
    };
    Particle { position, velocity }
}

/// A lone particle has no flocking neighbors, so no influence ever applies:
/// it keeps its velocity and its position advances by that velocity each
/// frame, indefinitely.
pub proof fn lemma_single_particle_straight_line(ps: Seq<Particle>, cfg: Config)
    requires
        cfg.wf(),
        store_wf(ps, cfg),
        ps.len() == 1,
    ensures
        neighbor_count(ps, 0, cfg.perception_radius as int) == 0,
        new_velocity(ps, 0, cfg) == (ps[0].velocity.x as int, ps[0].velocity.y as int),
        new_position(ps, 0, cfg) == (
            apply_boundary(ps[0].position.x + ps[0].velocity.x, cfg.boundary),
            apply_boundary(ps[0].position.y + ps[0].velocity.y, cfg.boundary),
        ),
{
    let r = cfg.perception_radius as int;
    let f = nbr_count_f(ps, 0, r);
    assert(!is_neighbor(ps, 0, r, 0usize));
    assert(f(0usize) == 0);
    assert(range_sum(1nat, f) == range_sum(0nat, f) + f(0usize));
    assert(neighbor_count(ps, 0, r) == 0);
    assert(influence(ps, 0, cfg) == (0int, 0int));
    assert(particle_ok(ps[0], cfg));
    assert(ps[0].velocity.x * ps[0].velocity.x + ps[0].velocity.y * ps[0].velocity.y
        <= cfg.max_speed * cfg.max_speed);
}

/// One frame of the simulation stage: build the spatial index over current
/// positions, then update every particle from the previous frame's state —
/// the index is built before any write, and no update reads another
/// particle's new value, so the store is never observed partially updated.
#[verifier::loop_isolation(false)]
pub fn step(store: &mut Store, cfg: &Config)
    requires
        cfg.wf(),
        store_wf(old(store)@, *cfg),
    ensures
        final(store)@.len() == old(store)@.len(),
        store_wf(final(store)@, *cfg),
        forall|i: int| #![trigger final(store)@[i]]
            0 <= i < final(store)@.len() ==> {
                &&& (final(store)@[i].velocity.x as int, final(store)@[i].velocity.y as int)
                    == new_velocity(old(store)@, i, *cfg)
                &&& (final(store)@[i].position.x as int, final(store)@[i].position.y as int)
                    == new_position(old(store)@, i, *cfg)
            },
{
    let ps = store.read_write();
    let tree = QuadTree::build(ps, cfg);
    let m = ps.len();
    let mut out: Vec<Particle> = Vec::new();
    let mut i: usize = 0;
    while i < m
        invariant
            i <= m,
            out@.len() == i,
            forall|k: int| #![trigger out@[k]]
                0 <= k < i ==> {
                    &&& (out@[k].velocity.x as int, out@[k].velocity.y as int) == new_velocity(
                        ps@,
                        k,
                        *cfg,
                    )
                    &&& (out@[k].position.x as int, out@[k].position.y as int) == new_position(
                        ps@,
                        k,
                        *cfg,
                    )
                    &&& particle_ok(out@[k], *cfg)
                },
        decreases m - i,
    {
        let p = update_particle(ps, &tree, i, cfg);
        out.push(p);
        i = i + 1;
    }
    *ps = out;
}

} // verus!
