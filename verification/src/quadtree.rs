use vstd::prelude::*;
use vstd::pervasive::VecAdditionalExecFns;
use crate::fxp::{Vec2, SCALE, dist_sq_spec, dist_sq};
use crate::store::Particle;
use crate::config::{Config, MAX_PARTICLES};

verus! {

/// One region of the spatial index: an axis-aligned rectangle, a contiguous
/// run of the particle-index array, and either no children (a leaf) or the
/// arena indices of its four quadrant children.
#[derive(Clone, Copy, Debug)]
pub struct QuadNode {
    pub min_bound: Vec2,
    pub max_bound: Vec2,
    pub children: Option<(usize, usize, usize, usize)>,
    pub particle_start: usize,
    pub particle_count: usize,
}

/// The spatial index: an arena of nodes (the root is entry 0) and the
/// particle-index array in which every node's particles are one contiguous
/// run. It is rebuilt from current positions once per frame.
pub struct QuadTree {
    pub nodes: Vec<QuadNode>,
    pub idx: Vec<usize>,
}

/// A closed axis-aligned rectangle contains a point.
pub open spec fn in_rect(min: Vec2, max: Vec2, p: Vec2) -> bool {
    min.x <= p.x <= max.x && min.y <= p.y <= max.y
}

/// A rectangle is ordered and lies inside the simulation domain.
pub open spec fn rect_ok(min: Vec2, max: Vec2) -> bool {
    -SCALE <= min.x && min.x <= max.x && max.x <= SCALE && -SCALE <= min.y && min.y <= max.y
        && max.y <= SCALE
}

/// Particle `i` lies within squared distance `r2` of the query point.
pub open spec fn hit(ps: Seq<Particle>, q: Vec2, r2: int, i: usize) -> bool {
    (i as int) < ps.len() && dist_sq_spec(ps[i as int].position, q) <= r2
}

/// Per-node well-formedness: a valid rectangle containing all particles of
/// the node's index run; children, if present, sit later in the arena, carry
/// rectangles inside the parent's, and split the parent's run into four
/// consecutive pieces.
pub open spec fn node_ok(nodes: Seq<QuadNode>, idx: Seq<usize>, ps: Seq<Particle>, n: int) -> bool {
    let nd = nodes[n];
    &&& rect_ok(nd.min_bound, nd.max_bound)
    &&& nd.particle_start + nd.particle_count <= idx.len()
    &&& forall|j: int|
        nd.particle_start <= j < nd.particle_start + nd.particle_count ==> (#[trigger] idx[j]
            as int) < ps.len() && in_rect(nd.min_bound, nd.max_bound, ps[idx[j] as int].position)
    &&& match nd.children {
        Option::None => true,
        Option::Some((c0, c1, c2, c3)) => {
            &&& n < c0 < nodes.len()
            &&& n < c1 < nodes.len()
            &&& n < c2 < nodes.len()
            &&& n < c3 < nodes.len()
            &&& nodes[c0 as int].particle_start == nd.particle_start
            &&& nodes[c1 as int].particle_start == nodes[c0 as int].particle_start + nodes[c0 as int].particle_count
            &&& nodes[c2 as int].particle_start == nodes[c1 as int].particle_start + nodes[c1 as int].particle_count
            &&& nodes[c3 as int].particle_start == nodes[c2 as int].particle_start + nodes[c2 as int].particle_count
            &&& nodes[c3 as int].particle_start + nodes[c3 as int].particle_count == nd.particle_start + nd.particle_count
            &&& rect_inside(nodes[c0 as int], nd)
            &&& rect_inside(nodes[c1 as int], nd)
            &&& rect_inside(nodes[c2 as int], nd)
            &&& rect_inside(nodes[c3 as int], nd)
        },
    }
}

/// A child node's rectangle lies inside its parent's.
pub open spec fn rect_inside(child: QuadNode, parent: QuadNode) -> bool {
    parent.min_bound.x <= child.min_bound.x && child.max_bound.x <= parent.max_bound.x
        && parent.min_bound.y <= child.min_bound.y && child.max_bound.y <= parent.max_bound.y
}

/// Whole-tree well-formedness with respect to a particle population: the
/// root's run is the whole index array, which is a permutation of
/// `0 .. ps.len()`, and every node is well-formed.
pub open spec fn tree_wf(t: QuadTree, ps: Seq<Particle>) -> bool {
    &&& 1 <= t.nodes@.len()
    &&& t.idx@.len() == ps.len()
    &&& t.nodes@[0].particle_start == 0
    &&& t.nodes@[0].particle_count == ps.len()
    &&& forall|n: int| 0 <= n < t.nodes@.len() ==> node_ok(t.nodes@, t.idx@, ps, n)
    &&& t.idx@.no_duplicates()
    &&& forall|i: usize| (i as int) < ps.len() ==> t.idx@.contains(i)
}

/// The particles of node `n`'s run that lie within squared distance `r2` of
/// `q`, in index-array order: what a query visiting `n` appends.
pub open spec fn node_hits(t: QuadTree, ps: Seq<Particle>, n: int, q: Vec2, r2: int) -> Seq<usize> {
    t.idx@.subrange(
        t.nodes@[n].particle_start as int,
        t.nodes@[n].particle_start + t.nodes@[n].particle_count,
    ).filter(|i: usize| hit(ps, q, r2, i))
}

/// Number of leaves in the subtree rooted at `n` whose run covers position
/// `j` of the particle-index array.
pub open spec fn leaf_count(nodes: Seq<QuadNode>, n: int, j: int) -> nat
    decreases nodes.len() - n,
{
    if 0 <= n < nodes.len() {
        match nodes[n].children {
            Option::None => {
                if nodes[n].particle_start <= j < nodes[n].particle_start
                    + nodes[n].particle_count {
                    1nat
                } else {
                    0nat
                }
            },
            Option::Some((c0, c1, c2, c3)) => {
                if n < c0 < nodes.len() && n < c1 < nodes.len() && n < c2 < nodes.len() && n < c3
                    < nodes.len() {
                    leaf_count(nodes, c0 as int, j) + leaf_count(nodes, c1 as int, j) + leaf_count(
                        nodes,
                        c2 as int,
                        j,
                    ) + leaf_count(nodes, c3 as int, j)
                } else {
                    0nat
                }
            },
        }
    } else {
        0nat
    }
}

/// In a well-formed arena, a subtree's leaves cover exactly its root's run:
/// each position of the run lies in exactly one leaf's run, and positions
/// outside it in none.
pub proof fn lemma_leaf_count_range(
    nodes: Seq<QuadNode>,
    idx: Seq<usize>,
    ps: Seq<Particle>,
    n: int,
    j: int,
)
    requires
        0 <= n < nodes.len(),
        forall|m: int| 0 <= m < nodes.len() ==> node_ok(nodes, idx, ps, m),
    ensures
        leaf_count(nodes, n, j) == if nodes[n].particle_start <= j < nodes[n].particle_start
            + nodes[n].particle_count {
            1nat
        } else {
            0nat
        },
    decreases nodes.len() - n,
{
    assert(node_ok(nodes, idx, ps, n));
    match nodes[n].children {
        Option::None => {
        },
        Option::Some((c0, c1, c2, c3)) => {
            lemma_leaf_count_range(nodes, idx, ps, c0 as int, j);
            lemma_leaf_count_range(nodes, idx, ps, c1 as int, j);
            lemma_leaf_count_range(nodes, idx, ps, c2 as int, j);
            lemma_leaf_count_range(nodes, idx, ps, c3 as int, j);
        },
    }
}

/// Quadtree completeness: the index array of a well-formed tree is a
/// permutation of `0 .. ps.len()` — no duplicates, no omissions — and every
/// position of it lies in the run of exactly one leaf, so every particle
/// index appears in exactly one leaf's run.
pub proof fn lemma_quadtree_partition(t: QuadTree, ps: Seq<Particle>)
    requires
        tree_wf(t, ps),
    ensures
        t.idx@.len() == ps.len(),
        t.idx@.no_duplicates(),
        forall|i: usize| (i as int) < ps.len() ==> t.idx@.contains(i),
        forall|j: int| 0 <= j < ps.len() ==> leaf_count(t.nodes@, 0, j) == 1,
        forall|j: int| !(0 <= j < ps.len()) ==> leaf_count(t.nodes@, 0, j) == 0,
{
    assert forall|j: int| 0 <= j < ps.len() implies leaf_count(t.nodes@, 0, j) == 1 by {
        lemma_leaf_count_range(t.nodes@, t.idx@, ps, 0, j);
    }
    assert forall|j: int| !(0 <= j < ps.len()) implies leaf_count(t.nodes@, 0, j) == 0 by {
        lemma_leaf_count_range(t.nodes@, t.idx@, ps, 0, j);
    }
}

/// Everything a filter keeps was in the sequence and satisfies the
/// predicate.
pub proof fn lemma_filter_sub<A>(s: Seq<A>, pred: spec_fn(A) -> bool)
    ensures
        forall|x: A| #[trigger] s.filter(pred).contains(x) ==> s.contains(x) && pred(x),
    decreases s.len(),
{
    reveal(Seq::filter);
    if s.len() != 0 {
        lemma_filter_sub(s.drop_last(), pred);
        assert forall|x: A| #[trigger] s.filter(pred).contains(x) implies s.contains(x) && pred(x) by {
            if s.drop_last().filter(pred).contains(x) {
                assert(s.drop_last().contains(x));
                let k = choose|k: int| 0 <= k < s.drop_last().len() && s.drop_last()[k] == x;
                assert(s[k] == x);
            } else {
                assert(x == s.last());
                assert(s[s.len() - 1] == x);
            }
        }
    }
}

/// A filter that no element satisfies keeps nothing.
pub proof fn lemma_filter_none<A>(s: Seq<A>, pred: spec_fn(A) -> bool)
    requires
        forall|k: int| 0 <= k < s.len() ==> !pred(#[trigger] s[k]),
    ensures
        s.filter(pred) == Seq::<A>::empty(),
    decreases s.len(),
{
    reveal(Seq::filter);
    if s.len() != 0 {
        assert forall|k: int| 0 <= k < s.drop_last().len() implies !pred(#[trigger] s.drop_last()[k]) by {
            assert(s[k] == s.drop_last()[k]);
        }
        lemma_filter_none(s.drop_last(), pred);
        assert(!pred(s.last()));
        assert(s.filter(pred) =~= Seq::<A>::empty());
    }
}

/// Filtering keeps a duplicate-free sequence duplicate-free.
pub proof fn lemma_filter_nodup<A>(s: Seq<A>, pred: spec_fn(A) -> bool)
    requires
        s.no_duplicates(),
    ensures
        s.filter(pred).no_duplicates(),
    decreases s.len(),
{
    reveal(Seq::filter);
    if s.len() != 0 {
        assert(s.drop_last().no_duplicates());
        lemma_filter_nodup(s.drop_last(), pred);
        if pred(s.last()) {
            lemma_filter_sub(s.drop_last(), pred);
            assert(!s.drop_last().contains(s.last())) by {
                if s.drop_last().contains(s.last()) {
                    let k = choose|k: int|
                        0 <= k < s.drop_last().len() && s.drop_last()[k] == s.last();
                    assert(s[k] == s[s.len() - 1]);
                }
            }
            assert(!s.drop_last().filter(pred).contains(s.last()));
            let f = s.drop_last().filter(pred);
            assert(s.filter(pred) == f.push(s.last()));
            assert forall|p: int, q: int|
                0 <= p < q < f.push(s.last()).len() implies f.push(s.last())[p] != f.push(
                s.last(),
            )[q] by {
                if q < f.len() {
                } else {
                    assert(f.push(s.last())[q] == s.last());
                    assert(f.push(s.last())[p] == f[p]);
                    assert(f.contains(f[p]));
                }
            }
        }
    }
}

/// Clamping the query point to a rectangle gives the rectangle's nearest
/// point: no point of the rectangle is closer to the query point.
pub proof fn lemma_rect_nearest(min: Vec2, max: Vec2, p: Vec2, q: Vec2, c: Vec2)
    requires
        in_rect(min, max, p),
        c.x == if q.x < min.x { min.x } else if q.x > max.x { max.x } else { q.x },
        c.y == if q.y < min.y { min.y } else if q.y > max.y { max.y } else { q.y },
    ensures
        dist_sq_spec(p, q) >= dist_sq_spec(c, q),
{
    assert((p.x - q.x) * (p.x - q.x) >= (c.x - q.x) * (c.x - q.x)) by (nonlinear_arith)
        requires
            min.x <= p.x <= max.x,
            c.x == if q.x < min.x { min.x } else if q.x > max.x { max.x } else { q.x },
    ;
    assert((p.y - q.y) * (p.y - q.y) >= (c.y - q.y) * (c.y - q.y)) by (nonlinear_arith)
        requires
            min.y <= p.y <= max.y,
            c.y == if q.y < min.y { min.y } else if q.y > max.y { max.y } else { q.y },
    ;
}

/// The elements of a sequence's prefix copy are the prefix's elements.
pub proof fn lemma_prefix_eq<A>(s1: Seq<A>, s2: Seq<A>)
    requires
        s1.len() <= s2.len(),
        s2.subrange(0, s1.len() as int) == s1,
    ensures
        forall|k: int| 0 <= k < s1.len() ==> s2[k] == #[trigger] s1[k],
{
    assert forall|k: int| 0 <= k < s1.len() implies s2[k] == #[trigger] s1[k] by {
        assert(s2.subrange(0, s1.len() as int)[k] == s1[k]);
    }
}

/// Node well-formedness is stable when the arena grows without touching the
/// entries from the node on, and the index array grows without touching its
/// existing entries.
pub proof fn lemma_node_ok_grow(
    nodes1: Seq<QuadNode>,
    nodes2: Seq<QuadNode>,
    idx1: Seq<usize>,
    idx2: Seq<usize>,
    ps: Seq<Particle>,
    n: int,
)
    requires
        0 <= n < nodes1.len(),
        node_ok(nodes1, idx1, ps, n),
        nodes1.len() <= nodes2.len(),
        forall|k: int| n <= k < nodes1.len() ==> nodes2[k] == #[trigger] nodes1[k],
        idx1.len() <= idx2.len(),
        forall|j: int| 0 <= j < idx1.len() ==> idx2[j] == #[trigger] idx1[j],
    ensures
        node_ok(nodes2, idx2, ps, n),
{
    let nd = nodes1[n];
    assert(nodes2[n] == nd);
    assert forall|j: int|
        nd.particle_start <= j < nd.particle_start + nd.particle_count implies (#[trigger] idx2[j]
            as int) < ps.len() && in_rect(nd.min_bound, nd.max_bound, ps[idx2[j] as int].position) by {
        assert(idx2[j] == idx1[j]);
    }
    match nd.children {
        Option::None => {
        },
        Option::Some((c0, c1, c2, c3)) => {
            assert(nodes2[c0 as int] == nodes1[c0 as int]);
            assert(nodes2[c1 as int] == nodes1[c1 as int]);
            assert(nodes2[c2 as int] == nodes1[c2 as int]);
            assert(nodes2[c3 as int] == nodes1[c3 as int]);
        },
    }
}

/// Midpoint of an interval, rounded toward the lower end.
fn midpoint(a: i64, b: i64) -> (r: i64)
    requires
        -SCALE <= a <= b <= SCALE,
    ensures
        a <= r <= b,
        r == a + (b - a) / 2,
{
    let w: u64 = (b - a) as u64;
    let h: i64 = (w / 2) as i64;
    proof {
        assert(h <= b - a) by (nonlinear_arith)
            requires h == (b - a) / 2, b - a >= 0;
    }
    a + h
}

impl QuadTree {
    /// Recursive descent: prune a node whose rectangle cannot meet the query
    /// circle, scan a surviving leaf's run, and visit children in run order.
    fn query_rec(&self, ps: &Vec<Particle>, n: usize, q: Vec2, r2: i64, out: &mut Vec<usize>)
        requires
            tree_wf(*self, ps@),
            (n as int) < self.nodes@.len(),
            -2 * SCALE <= q.x <= 2 * SCALE,
            -2 * SCALE <= q.y <= 2 * SCALE,
            0 <= r2,
        ensures
            final(out)@ == old(out)@ + node_hits(*self, ps@, n as int, q, r2 as int),
        decreases self.nodes@.len() - n,
    {
        let nd = self.nodes[n];
        let ghost pred = |i: usize| hit(ps@, q, r2 as int, i);
        let ghost run = self.idx@.subrange(
            nd.particle_start as int,
            nd.particle_start + nd.particle_count,
        );
        proof {
            assert(node_ok(self.nodes@, self.idx@, ps@, n as int));
        }
        let cx: i64 = if q.x < nd.min_bound.x {
            nd.min_bound.x
        } else if q.x > nd.max_bound.x {
            nd.max_bound.x
        } else {
            q.x
        };
        let cy: i64 = if q.y < nd.min_bound.y {
            nd.min_bound.y
        } else if q.y > nd.max_bound.y {
            nd.max_bound.y
        } else {
            q.y
        };
        let d = dist_sq(Vec2 { x: cx, y: cy }, q);
        if d > r2 {
            proof {
                assert forall|k: int| 0 <= k < run.len() implies !pred(#[trigger] run[k]) by {
                    let j = nd.particle_start + k;
                    assert(run[k] == self.idx@[j]);
                    assert((self.idx@[j] as int) < ps@.len());
                    assert(in_rect(nd.min_bound, nd.max_bound, ps@[self.idx@[j] as int].position));
                    lemma_rect_nearest(
                        nd.min_bound,
                        nd.max_bound,
                        ps@[self.idx@[j] as int].position,
                        q,
                        Vec2 { x: cx, y: cy },
                    );
                }
                lemma_filter_none(run, pred);
                assert(out@ =~= old(out)@ + run.filter(pred));
            }
            return ;
        }
        match nd.children {
            Option::None => {
                let stop = nd.particle_start + nd.particle_count;
                let mut j = nd.particle_start;
                proof {
                    lemma_filter_none(run.subrange(0, 0), pred);
                    assert(out@ =~= old(out)@ + run.subrange(0, 0).filter(pred));
                }
                while j < stop
                    invariant
                        tree_wf(*self, ps@),
                        node_ok(self.nodes@, self.idx@, ps@, n as int),
                        nd == self.nodes@[n as int],
                        nd.particle_start <= j <= stop,
                        stop == nd.particle_start + nd.particle_count,
                        run == self.idx@.subrange(
                            nd.particle_start as int,
                            nd.particle_start + nd.particle_count,
                        ),
                        pred == (|i: usize| hit(ps@, q, r2 as int, i)),
                        -2 * SCALE <= q.x <= 2 * SCALE,
                        -2 * SCALE <= q.y <= 2 * SCALE,
                        0 <= r2,
                        out@ == old(out)@ + run.subrange(0, j - nd.particle_start).filter(pred),
                    decreases stop - j,
                {
                    let i = self.idx[j];
                    proof {
                        assert(self.idx@[j as int] == run[j - nd.particle_start]);
                        assert((i as int) < ps@.len());
                        assert(in_rect(nd.min_bound, nd.max_bound, ps@[i as int].position));
                    }
                    let pos = ps[i].position;
                    let dp = dist_sq(pos, q);
                    let ghost prefix = run.subrange(0, j - nd.particle_start);
                    let ghost prefix2 = run.subrange(0, j + 1 - nd.particle_start);
                    proof {
                        assert(prefix2 =~= prefix.push(run[j - nd.particle_start]));
                        reveal(Seq::filter);
                        assert(prefix2.drop_last() =~= prefix);
                        assert(prefix2.filter(pred) == if pred(run[j - nd.particle_start]) {
                            prefix.filter(pred).push(run[j - nd.particle_start])
                        } else {
                            prefix.filter(pred)
                        });
                    }
                    if dp <= r2 {
                        out.push(i);
                        proof {
                            assert(pred(run[j - nd.particle_start]));
                            assert(out@ =~= old(out)@ + prefix2.filter(pred));
                        }
                    } else {
                        proof {
                            assert(!pred(run[j - nd.particle_start]));
                            assert(out@ =~= old(out)@ + prefix2.filter(pred));
                        }
                    }
                    j = j + 1;
                }
                proof {
                    assert(run.subrange(0, stop - nd.particle_start) =~= run);
                }
            },
            Option::Some((c0, c1, c2, c3)) => {
                let ghost out0 = out@;
                self.query_rec(ps, c0, q, r2, out);
                self.query_rec(ps, c1, q, r2, out);
                self.query_rec(ps, c2, q, r2, out);
                self.query_rec(ps, c3, q, r2, out);
                proof {
                    let s0 = node_hits(*self, ps@, c0 as int, q, r2 as int);
                    let s1 = node_hits(*self, ps@, c1 as int, q, r2 as int);
                    let s2 = node_hits(*self, ps@, c2 as int, q, r2 as int);
                    let s3 = node_hits(*self, ps@, c3 as int, q, r2 as int);
                    let r0 = self.idx@.subrange(
                        self.nodes@[c0 as int].particle_start as int,
                        self.nodes@[c0 as int].particle_start
                            + self.nodes@[c0 as int].particle_count,
                    );
                    let r1 = self.idx@.subrange(
                        self.nodes@[c1 as int].particle_start as int,
                        self.nodes@[c1 as int].particle_start
                            + self.nodes@[c1 as int].particle_count,
                    );
                    let r2s = self.idx@.subrange(
                        self.nodes@[c2 as int].particle_start as int,
                        self.nodes@[c2 as int].particle_start
                            + self.nodes@[c2 as int].particle_count,
                    );
                    let r3 = self.idx@.subrange(
                        self.nodes@[c3 as int].particle_start as int,
                        self.nodes@[c3 as int].particle_start
                            + self.nodes@[c3 as int].particle_count,
                    );
                    assert(run =~= r0 + r1 + r2s + r3);
                    Seq::filter_distributes_over_add(r0 + r1 + r2s, r3, pred);
                    Seq::filter_distributes_over_add(r0 + r1, r2s, pred);
                    Seq::filter_distributes_over_add(r0, r1, pred);
                    assert(run.filter(pred) == r0.filter(pred) + r1.filter(pred) + r2s.filter(pred)
                        + r3.filter(pred));
                    assert(out@ =~= out0 + run.filter(pred));
                }
            },
        }
    }

    /// Build one node for `items` (all of them inside the given rectangle):
    /// a leaf when the run is small enough or the depth budget is spent,
    /// otherwise four children, one per quadrant of the rectangle's center,
    /// particles exactly on a split line going to the higher quadrant. The
    /// node's run is appended to the index array.
    #[verifier::loop_isolation(false)]
    #[verifier::rlimit(100)]
    fn build_rec(
        ps: &Vec<Particle>,
        nodes: &mut Vec<QuadNode>,
        idx: &mut Vec<usize>,
        items: Vec<usize>,
        min: Vec2,
        max: Vec2,
        depth: usize,
        cap: usize,
        maxd: usize,
    ) -> (me: usize)
        requires
            rect_ok(min, max),
            1 <= cap,
            depth <= maxd,
            maxd <= crate::config::MAX_TREE_DEPTH,
            forall|k: int|
                0 <= k < items@.len() ==> (#[trigger] items@[k] as int) < ps@.len() && in_rect(
                    min,
                    max,
                    ps@[items@[k] as int].position,
                ),
            old(idx)@.len() + items@.len() <= ps@.len(),
            ps@.len() <= MAX_PARTICLES,
        ensures
            me == old(nodes)@.len(),
            (me as int) < final(nodes)@.len(),
            final(nodes)@.subrange(0, me as int) == old(nodes)@,
            final(idx)@.len() == old(idx)@.len() + items@.len(),
            final(idx)@.subrange(0, old(idx)@.len() as int) == old(idx)@,
            final(idx)@.subrange(old(idx)@.len() as int, final(idx)@.len() as int).to_multiset()
                == items@.to_multiset(),
            final(nodes)@[me as int].min_bound == min,
            final(nodes)@[me as int].max_bound == max,
            final(nodes)@[me as int].particle_start == old(idx)@.len(),
            final(nodes)@[me as int].particle_count == items@.len(),
            forall|n: int|
                me <= n < final(nodes)@.len() ==> node_ok(final(nodes)@, final(idx)@, ps@, n)
                    && old(idx)@.len() <= #[trigger] final(nodes)@[n].particle_start
                    && final(nodes)@[n].particle_start + final(nodes)@[n].particle_count
                    <= final(idx)@.len(),
        decreases maxd - depth,
    {
        let me = nodes.len();
        let start = idx.len();
        let count = items.len();
        nodes.push(
            QuadNode {
                min_bound: min,
                max_bound: max,
                children: Option::None,
                particle_start: start,
                particle_count: count,
            },
        );
        let ghost nodesp = nodes@;
        if count <= cap || depth == maxd {
            let mut k: usize = 0;
            proof {
                assert(idx@ =~= old(idx)@ + items@.subrange(0, 0));
            }
            while k < count
                invariant
                    k <= count,
                    idx@ == old(idx)@ + items@.subrange(0, k as int),
                decreases count - k,
            {
                let it = items[k];
                idx.push(it);
                proof {
                    assert(items@.subrange(0, k as int).push(items@[k as int]) =~= items@.subrange(
                        0,
                        k + 1,
                    ));
                    assert(idx@ =~= old(idx)@ + items@.subrange(0, k + 1));
                }
                k = k + 1;
            }
            proof {
                assert(items@.subrange(0, count as int) =~= items@);
                assert(idx@ == old(idx)@ + items@);
                assert(idx@.subrange(0, old(idx)@.len() as int) =~= old(idx)@);
                assert(idx@.subrange(old(idx)@.len() as int, idx@.len() as int) =~= items@);
                assert(nodes@.subrange(0, me as int) =~= old(nodes)@);
                assert forall|j: int|
                    start <= j < start + count implies (#[trigger] idx@[j] as int) < ps@.len()
                        && in_rect(min, max, ps@[idx@[j] as int].position) by {
                    assert(idx@[j] == items@[j - start]);
                }
                assert(node_ok(nodes@, idx@, ps@, me as int));
            }
            return me;
        }
        let cx = midpoint(min.x, max.x);
        let cy = midpoint(min.y, max.y);
        let mut part0: Vec<usize> = Vec::new();
        let mut part1: Vec<usize> = Vec::new();
        let mut part2: Vec<usize> = Vec::new();
        let mut part3: Vec<usize> = Vec::new();
        let mut k: usize = 0;
        proof {
            broadcast use vstd::seq_lib::group_to_multiset_ensures;
            broadcast use vstd::multiset::group_multiset_axioms;

            assert(part0@.to_multiset().add(part1@.to_multiset()).add(part2@.to_multiset()).add(
                part3@.to_multiset(),
            ) =~= items@.subrange(0, 0).to_multiset());
        }
        while k < count
            invariant
                k <= count,
                part0@.len() + part1@.len() + part2@.len() + part3@.len() == k,
                forall|t: int|
                    0 <= t < part0@.len() ==> (#[trigger] part0@[t] as int) < ps@.len() && in_rect(
                        Vec2 { x: min.x, y: min.y },
                        Vec2 { x: cx, y: cy },
                        ps@[part0@[t] as int].position,
                    ),
                forall|t: int|
                    0 <= t < part1@.len() ==> (#[trigger] part1@[t] as int) < ps@.len() && in_rect(
                        Vec2 { x: cx, y: min.y },
                        Vec2 { x: max.x, y: cy },
                        ps@[part1@[t] as int].position,
                    ),
                forall|t: int|
                    0 <= t < part2@.len() ==> (#[trigger] part2@[t] as int) < ps@.len() && in_rect(
                        Vec2 { x: min.x, y: cy },
                        Vec2 { x: cx, y: max.y },
                        ps@[part2@[t] as int].position,
                    ),
                forall|t: int|
                    0 <= t < part3@.len() ==> (#[trigger] part3@[t] as int) < ps@.len() && in_rect(
                        Vec2 { x: cx, y: cy },
                        Vec2 { x: max.x, y: max.y },
                        ps@[part3@[t] as int].position,
                    ),
                part0@.to_multiset().add(part1@.to_multiset()).add(part2@.to_multiset()).add(
                    part3@.to_multiset(),
                ) == items@.subrange(0, k as int).to_multiset(),
            decreases count - k,
        {
            let i = items[k];
            let p = ps[i].position;
            let ghost oldtotal = part0@.to_multiset().add(part1@.to_multiset()).add(
                part2@.to_multiset(),
            ).add(part3@.to_multiset());
            if p.x < cx {
                if p.y < cy {
                    part0.push(i);
                } else {
                    part2.push(i);
                }
            } else {
                if p.y < cy {
                    part1.push(i);
                } else {
                    part3.push(i);
                }
            }
            proof {
                broadcast use vstd::seq_lib::group_to_multiset_ensures;
                broadcast use vstd::multiset::group_multiset_axioms;

                assert(items@.subrange(0, k + 1) =~= items@.subrange(0, k as int).push(
                    items@[k as int],
                ));
                let newtotal = part0@.to_multiset().add(part1@.to_multiset()).add(
                    part2@.to_multiset(),
                ).add(part3@.to_multiset());
                assert(newtotal =~= oldtotal.insert(i));
                assert(items@.subrange(0, k + 1).to_multiset() =~= items@.subrange(
                    0,
                    k as int,
                ).to_multiset().insert(items@[k as int]));
                assert(newtotal == items@.subrange(0, k + 1).to_multiset());
            }
            k = k + 1;
        }
        proof {
            assert(items@.subrange(0, count as int) =~= items@);
        }
        let ghost idx0 = idx@;
        let c0 = Self::build_rec(
            ps,
            nodes,
            idx,
            part0,
            Vec2 { x: min.x, y: min.y },
            Vec2 { x: cx, y: cy },
            depth + 1,
            cap,
            maxd,
        );
        let ghost nodes1 = nodes@;
        let ghost idx1 = idx@;
        let c1 = Self::build_rec(
            ps,
            nodes,
            idx,
            part1,
            Vec2 { x: cx, y: min.y },
            Vec2 { x: max.x, y: cy },
            depth + 1,
            cap,
            maxd,
        );
        let ghost nodes2 = nodes@;
        let ghost idx2 = idx@;
        let c2 = Self::build_rec(
            ps,
            nodes,
            idx,
            part2,
            Vec2 { x: min.x, y: cy },
            Vec2 { x: cx, y: max.y },
            depth + 1,
            cap,
            maxd,
        );
        let ghost nodes3 = nodes@;
        let ghost idx3 = idx@;
        let c3 = Self::build_rec(
            ps,
            nodes,
            idx,
            part3,
            Vec2 { x: cx, y: cy },
            Vec2 { x: max.x, y: max.y },
            depth + 1,
            cap,
            maxd,
        );
        let ghost nodes4 = nodes@;
        let ghost idx4 = idx@;
        nodes.set(
            me,
            QuadNode {
                min_bound: min,
                max_bound: max,
                children: Option::Some((c0, c1, c2, c3)),
                particle_start: start,
                particle_count: count,
            },
        );
        proof {
            broadcast use vstd::seq_lib::group_to_multiset_ensures;
            broadcast use vstd::multiset::group_multiset_axioms;

            let fin_nodes = nodes@;
            let fin_idx = idx@;
            lemma_prefix_eq(nodesp, nodes1);
            lemma_prefix_eq(nodes1, nodes2);
            lemma_prefix_eq(nodes2, nodes3);
            lemma_prefix_eq(nodes3, nodes4);
            lemma_prefix_eq(idx0, idx1);
            lemma_prefix_eq(idx1, idx2);
            lemma_prefix_eq(idx2, idx3);
            lemma_prefix_eq(idx3, idx4);
            // The entries before this node are untouched.
            assert forall|k2: int| 0 <= k2 < me implies fin_nodes[k2] == old(nodes)@[k2] by {
                assert(nodes4[k2] == nodesp[k2]);
                assert(nodesp[k2] == old(nodes)@[k2]);
            }
            assert(fin_nodes.subrange(0, me as int) =~= old(nodes)@);
            assert forall|j: int| 0 <= j < idx0.len() implies fin_idx[j] == idx0[j] by {
                assert(idx1[j] == idx0[j]);
                assert(idx2[j] == idx1[j]);
                assert(idx3[j] == idx2[j]);
                assert(idx4[j] == idx3[j]);
            }
            assert(fin_idx.subrange(0, idx0.len() as int) =~= idx0);
            // The runs the children appended survive the later appends.
            assert forall|j: int| 0 <= j < idx1.len() implies idx4[j] == #[trigger] idx1[j] by {
                assert(idx2[j] == idx1[j]);
                assert(idx3[j] == idx2[j]);
                assert(idx4[j] == idx3[j]);
            }
            assert forall|j: int| 0 <= j < idx2.len() implies idx4[j] == #[trigger] idx2[j] by {
                assert(idx3[j] == idx2[j]);
                assert(idx4[j] == idx3[j]);
            }
            // The four children keep the node entries their builds produced.
            assert forall|k2: int| me < k2 < nodes1.len() implies fin_nodes[k2] == #[trigger] nodes1[k2] by {
                assert(nodes2[k2] == nodes1[k2]);
                assert(nodes3[k2] == nodes2[k2]);
                assert(nodes4[k2] == nodes3[k2]);
            }
            assert forall|k2: int| me < k2 < nodes2.len() implies fin_nodes[k2] == #[trigger] nodes2[k2] by {
                assert(nodes3[k2] == nodes2[k2]);
                assert(nodes4[k2] == nodes3[k2]);
            }
            assert forall|k2: int| me < k2 < nodes3.len() implies fin_nodes[k2] == #[trigger] nodes3[k2] by {
                assert(nodes4[k2] == nodes3[k2]);
            }
            assert(fin_nodes[c0 as int] == nodes1[c0 as int]);
            assert(fin_nodes[c1 as int] == nodes2[c1 as int]);
            assert(fin_nodes[c2 as int] == nodes3[c2 as int]);
            assert(fin_nodes[c3 as int] == nodes4[c3 as int]);
            // Lengths: the appended runs tile the parent's run.
            assert(idx1.len() == idx0.len() + part0@.len());
            assert(idx2.len() == idx1.len() + part1@.len());
            assert(idx3.len() == idx2.len() + part2@.len());
            assert(idx4.len() == idx3.len() + part3@.len());
            assert(fin_idx.len() == idx0.len() + count);
            // The appended run is the concatenation of the children's runs,
            // so its multiset is the items' multiset.
            let a0 = idx1.subrange(idx0.len() as int, idx1.len() as int);
            let a1 = idx2.subrange(idx1.len() as int, idx2.len() as int);
            let a2 = idx3.subrange(idx2.len() as int, idx3.len() as int);
            let a3 = idx4.subrange(idx3.len() as int, idx4.len() as int);
            let appended = fin_idx.subrange(idx0.len() as int, fin_idx.len() as int);
            assert(appended =~= a0 + a1 + a2 + a3) by {
                assert forall|j: int| 0 <= j < appended.len() implies appended[j] == (a0 + a1 + a2
                    + a3)[j] by {
                    let g = j + idx0.len();
                    if g < idx1.len() {
                        assert(idx4[g] == idx1[g]);
                    } else if g < idx2.len() {
                        assert(idx4[g] == idx2[g]);
                    } else if g < idx3.len() {
                        assert(idx4[g] == idx3[g]);
                    }
                }
            }
            vstd::seq_lib::lemma_multiset_commutative(a0 + a1 + a2, a3);
            vstd::seq_lib::lemma_multiset_commutative(a0 + a1, a2);
            vstd::seq_lib::lemma_multiset_commutative(a0, a1);
            assert(appended.to_multiset() == items@.to_multiset());
            // This node is well-formed: children sit later in the arena,
            // tile the run consecutively, and their rectangles nest.
            assert(node_ok(fin_nodes, fin_idx, ps@, me as int)) by {
                assert(fin_nodes[me as int].particle_start == start);
                assert forall|j: int|
                    start <= j < start + count implies (#[trigger] fin_idx[j] as int) < ps@.len()
                        && in_rect(min, max, ps@[fin_idx[j] as int].position) by {
                    if j < idx1.len() {
                        assert(idx4[j] == idx1[j]);
                        assert(node_ok(nodes1, idx1, ps@, c0 as int));
                    } else if j < idx2.len() {
                        assert(idx4[j] == idx2[j]);
                        assert(node_ok(nodes2, idx2, ps@, c1 as int));
                    } else if j < idx3.len() {
                        assert(idx4[j] == idx3[j]);
                        assert(node_ok(nodes3, idx3, ps@, c2 as int));
                    } else {
                        assert(node_ok(nodes4, idx4, ps@, c3 as int));
                    }
                }
            }
            // Every node of the four subtrees stays well-formed in the final
            // arena and index array.
            assert forall|n: int|
                me <= n < fin_nodes.len() implies node_ok(fin_nodes, fin_idx, ps@, n) && idx0.len()
                    <= #[trigger] fin_nodes[n].particle_start && fin_nodes[n].particle_start
                    + fin_nodes[n].particle_count <= fin_idx.len() by {
                if n == me {
                } else if n < nodes1.len() {
                    assert(node_ok(nodes1, idx1, ps@, n));
                    lemma_node_ok_grow(nodes1, fin_nodes, idx1, fin_idx, ps@, n);
                    assert(fin_nodes[n] == nodes1[n]);
                } else if n < nodes2.len() {
                    assert(node_ok(nodes2, idx2, ps@, n));
                    lemma_node_ok_grow(nodes2, fin_nodes, idx2, fin_idx, ps@, n);
                    assert(fin_nodes[n] == nodes2[n]);
                } else if n < nodes3.len() {
                    assert(node_ok(nodes3, idx3, ps@, n));
                    lemma_node_ok_grow(nodes3, fin_nodes, idx3, fin_idx, ps@, n);
                    assert(fin_nodes[n] == nodes3[n]);
                } else {
                    assert(node_ok(nodes4, idx4, ps@, n));
                    lemma_node_ok_grow(nodes4, fin_nodes, idx4, fin_idx, ps@, n);
                    assert(fin_nodes[n] == nodes4[n]);
                }
            }
        }
        me
    }

    /// Build the spatial index for the current particle positions: the root
    /// covers the whole domain and holds every particle index.
    pub fn build(ps: &Vec<Particle>, cfg: &Config) -> (t: QuadTree)
        requires
            cfg.wf(),
            ps@.len() == cfg.particle_count,
            forall|i: int| 0 <= i < ps@.len() ==> crate::fxp::in_domain(#[trigger] ps@[i].position),
        ensures
            tree_wf(t, ps@),
            t.nodes@[0].min_bound.x == -SCALE,
            t.nodes@[0].min_bound.y == -SCALE,
            t.nodes@[0].max_bound.x == SCALE,
            t.nodes@[0].max_bound.y == SCALE,
    {
        let n = ps.len();
        let mut items: Vec<usize> = Vec::new();
        let mut i: usize = 0;
        while i < n
            invariant
                i <= n,
                n == ps@.len(),
                items@.len() == i,
                forall|k: int| 0 <= k < i ==> #[trigger] items@[k] == k,
            decreases n - i,
        {
            items.push(i);
            i = i + 1;
        }
        let ghost items0 = items@;
        let mut nodes: Vec<QuadNode> = Vec::new();
        let mut idx: Vec<usize> = Vec::new();
        let root = Self::build_rec(
            ps,
            &mut nodes,
            &mut idx,
            items,
            Vec2 { x: -SCALE, y: -SCALE },
            Vec2 { x: SCALE, y: SCALE },
            0,
            cfg.leaf_capacity,
            cfg.max_depth,
        );
        proof {
            broadcast use vstd::seq_lib::group_to_multiset_ensures;
            broadcast use vstd::multiset::group_multiset_axioms;

            assert(root == 0);
            assert(idx@.subrange(0, idx@.len() as int) =~= idx@);
            assert(idx@.to_multiset() == items0.to_multiset());
            // The identity sequence has no duplicates and holds every index;
            // its multiset carries both facts over to the built index array.
            assert(items0.no_duplicates());
            assert forall|v: usize| (v as int) < ps@.len() implies idx@.contains(v) by {
                assert(items0[v as int] == v);
                assert(items0.contains(v));
                assert(items0.to_multiset().count(v) > 0);
                assert(idx@.to_multiset().count(v) > 0);
            }
            items0.lemma_multiset_has_no_duplicates();
            idx@.lemma_multiset_has_no_duplicates_conv();
            assert(idx@.no_duplicates());
            assert forall|n2: int| 0 <= n2 < nodes@.len() implies node_ok(nodes@, idx@, ps@, n2) by {
                assert(nodes@[n2].particle_start + nodes@[n2].particle_count <= idx@.len());
            }
        }
        QuadTree { nodes, idx }
    }

    /// Which particles lie within `radius` of `q`? Returns exactly the
    /// brute-force answer — every in-range particle index, each once, no
    /// others — in index-array traversal order.
    pub fn neighbors_within(&self, ps: &Vec<Particle>, q: Vec2, radius: i64) -> (out: Vec<usize>)
        requires
            tree_wf(*self, ps@),
            -2 * SCALE <= q.x <= 2 * SCALE,
            -2 * SCALE <= q.y <= 2 * SCALE,
            0 <= radius <= 2 * SCALE,
        ensures
            out@.no_duplicates(),
            forall|k: int|
                0 <= k < out@.len() ==> hit(ps@, q, radius * radius, #[trigger] out@[k]),
            forall|i: usize| hit(ps@, q, radius * radius, i) ==> out@.contains(i),
            out@.len() <= ps@.len(),
    {
        proof {
            assert(0 <= radius * radius <= 17179869184) by (nonlinear_arith)
                requires 0 <= radius <= 131072;
        }
        let r2 = radius * radius;
        let mut out: Vec<usize> = Vec::new();
        self.query_rec(ps, 0, q, r2, &mut out);
        proof {
            let ghost pred = |i: usize| hit(ps@, q, r2 as int, i);
            assert(self.idx@.subrange(0, ps@.len() as int) =~= self.idx@);
            assert(out@ =~= self.idx@.filter(pred));
            lemma_filter_nodup(self.idx@, pred);
            lemma_filter_sub(self.idx@, pred);
            assert forall|k: int| 0 <= k < out@.len() implies hit(ps@, q, radius * radius, #[trigger] out@[k]) by {
                assert(out@.contains(out@[k]));
            }
            assert forall|i: usize| hit(ps@, q, radius * radius, i) implies out@.contains(i) by {
                assert(self.idx@.contains(i));
                let k = choose|k: int| 0 <= k < self.idx@.len() && self.idx@[k] == i;
                self.idx@.lemma_filter_contains(pred, k);
            }
            crate::seqsum::lemma_nodup_bounded_len(out@, ps@.len());
        }
        out
    }
}

} // verus!
