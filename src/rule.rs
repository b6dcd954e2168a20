//! Steering rules: what each rule makes of one agent against the rest of the
//! population.

use vstd::prelude::*;

use crate::boid::{Boid, Population};
use crate::geometry::{dist_sq, distance, Position};

verus! {

/// Agent `a` is a nearer neighbour of agent `t` than agent `b`: at a smaller
/// distance (as `distance_to` reports it, rounded down), or at the same
/// distance with a smaller identifier, or with equal identifiers a lower
/// index.
#[verifier::opaque]
pub open spec fn closer(pop: Seq<Boid>, t: int, a: int, b: int) -> bool {
    let da = distance(pop[t].position, pop[a].position);
    let db = distance(pop[t].position, pop[b].position);
    da < db || (da == db && (pop[a].id.bits() < pop[b].id.bits() || (pop[a].id.bits()
        == pop[b].id.bits() && a < b)))
}

/// How many neighbours a rule that wants `k` of them finds among `n` agents.
pub open spec fn n_selected(k: nat, n: nat) -> nat {
    if n == 0 {
        0
    } else if k < n - 1 {
        k
    } else {
        (n - 1) as nat
    }
}

/// `sel` lists the `k` nearest other agents of agent `t`, nearest first
/// (all other agents where there are fewer).
pub open spec fn is_nearest(pop: Seq<Boid>, t: int, k: nat, sel: Seq<usize>) -> bool {
    &&& sel.len() == n_selected(k, pop.len())
    &&& forall|x: int| 0 <= x < sel.len() ==> #[trigger] sel[x] < pop.len() && sel[x] != t
    &&& forall|x: int, y: int|
        0 <= x < y < sel.len() ==> closer(pop, t, #[trigger] sel[x] as int, #[trigger] sel[y] as int)
    &&& forall|x: int, j: int|
        0 <= x < sel.len() && 0 <= j < pop.len() && j != t && !sel.contains(j as usize)
            ==> #[trigger] closer(pop, t, sel[x] as int, j)
}

proof fn lemma_closer_trans(pop: Seq<Boid>, t: int, a: int, b: int, c: int)
    requires
        closer(pop, t, a, b),
        closer(pop, t, b, c),
    ensures
        closer(pop, t, a, c),
{
    reveal(closer);
}

proof fn lemma_closer_total(pop: Seq<Boid>, t: int, a: int, b: int)
    requires
        a != b,
    ensures
        closer(pop, t, a, b) || closer(pop, t, b, a),
        !(closer(pop, t, a, b) && closer(pop, t, b, a)),
{
    reveal(closer);
}

/// Exact `closer` on the population's agents.
fn is_closer(boids: &Population, t: usize, a: usize, b: usize) -> (r: bool)
    requires
        t < boids@.len(),
        a < boids@.len(),
        b < boids@.len(),
    ensures
        r == closer(boids@, t as int, a as int, b as int),
{
    let target = boids.get(t);
    let da = target.position.distance_to(&boids.get(a).position);
    let db = target.position.distance_to(&boids.get(b).position);
    let ia = boids.get(a).id.as_u128();
    let ib = boids.get(b).id.as_u128();
    proof {
        reveal(closer);
    }
    da < db || (da == db && (ia < ib || (ia == ib && a < b)))
}

/// Separation: steer away from the nearest neighbours.
pub struct Avoid {
    n_nearest: u64,
}

impl Avoid {
    const N_NEAREST: u64 = 3;

    /// How many nearest neighbours the rule considers.
    pub closed spec fn neighbours(&self) -> nat {
        self.n_nearest as nat
    }

    /// The rule with its default of three neighbours.
    pub fn new() -> (r: Avoid)
        ensures
            r.neighbours() == 3,
    {
        Avoid { n_nearest: Avoid::N_NEAREST }
    }

    /// The rule considering `n_nearest` neighbours.
    pub fn with_n_nearest(n_nearest: u64) -> (r: Avoid)
        ensures
            r.neighbours() == n_nearest,
    {
        Avoid { n_nearest }
    }

    /// The indices of the nearest other agents of agent `boid_ix`, as many
    /// as the rule considers (or all others where there are fewer), nearest
    /// first; ties go to the smaller identifier.
    pub fn nearest(&self, boid_ix: usize, boids: &Population) -> (r: Vec<usize>)
        requires
            boid_ix < boids@.len(),
        ensures
            is_nearest(boids@, boid_ix as int, self.neighbours(), r@),
    {
        let n = boids.size();
        let mut sel: Vec<usize> = Vec::new();
        let mut j: usize = 0;
        while j < n
            invariant
                n == boids@.len(),
                boid_ix < n,
                j <= n,
                ranked(boids@, boid_ix as int, self.neighbours(), j as int, sel@),
            decreases n - j,
        {
            if j != boid_ix {
                admit_candidate(boids, boid_ix, self.n_nearest, &mut sel, j);
            }
            j = j + 1;
        }
        sel
    }
}

/// `sel` ranks the agents before `j`, other than `t`: the `k` nearest to
/// `t` of them (all where there are fewer), nearest first.
pub open spec fn ranked(pop: Seq<Boid>, t: int, k: nat, j: int, sel: Seq<usize>) -> bool {
    &&& sel.len() == n_selected(k, (if t < j { j } else { j + 1 }) as nat)
    &&& forall|x: int| 0 <= x < sel.len() ==> #[trigger] sel[x] < j && sel[x] != t
    &&& forall|x: int, y: int|
        0 <= x < y < sel.len() ==> closer(pop, t, #[trigger] sel[x] as int, #[trigger] sel[y] as int)
    &&& forall|x: int, i: int|
        0 <= x < sel.len() && 0 <= i < j && i != t && !sel.contains(i as usize)
            ==> #[trigger] closer(pop, t, sel[x] as int, i)
    &&& sel.len() < k ==> forall|i: int| 0 <= i < j && i != t ==> #[trigger] sel.contains(i as usize)
}

/// Adds agent `j` to the ranking of the agents before it, keeping the `k`
/// nearest.
fn admit_candidate(boids: &Population, t: usize, k: u64, sel: &mut Vec<usize>, j: usize)
    requires
        t < boids@.len(),
        j < boids@.len(),
        boids@.len() <= usize::MAX,
        j != t,
        ranked(boids@, t as int, k as nat, j as int, old(sel)@),
    ensures
        ranked(boids@, t as int, k as nat, j + 1, final(sel)@),
{
    let ghost pop = boids@;
    let ghost s0 = sel@;
    let mut p: usize = 0;
    while p < sel.len() && !is_closer(boids, t, j, sel[p])
        invariant
            sel@ == s0,
            p <= s0.len(),
            t < pop.len(),
            j < pop.len(),
            pop == boids@,
            ranked(pop, t as int, k as nat, j as int, s0),
            forall|x: int| 0 <= x < p ==> !closer(pop, t as int, j as int, #[trigger] s0[x] as int),
        decreases s0.len() - p,
    {
        p = p + 1;
    }
    proof {
        assert forall|x: int| 0 <= x < p implies closer(pop, t as int, #[trigger] s0[x] as int, j as int) by {
            lemma_closer_total(pop, t as int, s0[x] as int, j as int);
        }
    }
    if (p as u64) < k {
        sel.insert(p, j);
        let ghost s1 = sel@;
        proof {
            lemma_insert_ranked(pop, t as int, k as nat, j as int, s0, p as int);
        }
        if (sel.len() as u64) > k {
            sel.pop();
            proof {
                lemma_drop_ranked(pop, t as int, k as nat, j as int + 1, s1);
                assert(sel@ =~= s1.drop_last());
            }
        }
    } else {
        proof {
            assert forall|x: int, i: int|
                0 <= x < s0.len() && 0 <= i < j + 1 && i != t && !s0.contains(i as usize)
                implies #[trigger] closer(pop, t as int, s0[x] as int, i) by {
                if i == j {
                    assert(x < p);
                }
            }
        }
    }
}

proof fn lemma_insert_ranked(pop: Seq<Boid>, t: int, k: nat, j: int, s0: Seq<usize>, p: int)
    requires
        0 <= t < pop.len(),
        0 <= j < pop.len(),
        j < usize::MAX,
        j != t,
        ranked(pop, t, k, j, s0),
        0 <= p <= s0.len(),
        p < k,
        forall|x: int| 0 <= x < p ==> closer(pop, t, #[trigger] s0[x] as int, j),
        p < s0.len() ==> closer(pop, t, j, s0[p] as int),
    ensures
        ({
            let s1 = s0.insert(p, j as usize);
            &&& s1.len() == s0.len() + 1
            &&& forall|x: int| 0 <= x < s1.len() ==> #[trigger] s1[x] < j + 1 && s1[x] != t
            &&& forall|x: int, y: int|
                0 <= x < y < s1.len() ==> closer(pop, t, #[trigger] s1[x] as int, #[trigger] s1[y] as int)
            &&& forall|x: int, i: int|
                0 <= x < s1.len() && 0 <= i < j + 1 && i != t && !s1.contains(i as usize)
                    ==> #[trigger] closer(pop, t, s1[x] as int, i)
            &&& s1.len() < k ==> forall|i: int| 0 <= i < j + 1 && i != t ==> #[trigger] s1.contains(i as usize)
        }),
{
    let s1 = s0.insert(p, j as usize);
    assert(s1[p] == j as usize);
    assert forall|x: int, y: int| 0 <= x < y < s1.len() implies closer(pop, t, #[trigger] s1[x] as int, #[trigger] s1[y] as int) by {
        if y < p {
            assert(s1[x] == s0[x] && s1[y] == s0[y]);
        } else if y == p {
            assert(s1[x] == s0[x]);
        } else {
            assert(s1[y] == s0[y - 1]);
            if y - 1 > p {
                lemma_closer_trans(pop, t, j, s0[p] as int, s0[y - 1] as int);
            }
            if x < p {
                assert(s1[x] == s0[x]);
                lemma_closer_trans(pop, t, s0[x] as int, j, s0[y - 1] as int);
            } else if x > p {
                assert(s1[x] == s0[x - 1]);
            }
        }
    }
    assert forall|i: int| 0 <= i < j + 1 && i != t && !#[trigger] s1.contains(i as usize)
        implies !s0.contains(i as usize) && i != j by {
        if s0.contains(i as usize) {
            let y = choose|y: int| 0 <= y < s0.len() && s0[y] == i as usize;
            if y < p {
                assert(s1[y] == i as usize);
            } else {
                assert(s1[y + 1] == i as usize);
            }
        }
    }
    assert forall|x: int, i: int|
        0 <= x < s1.len() && 0 <= i < j + 1 && i != t && !s1.contains(i as usize)
        implies #[trigger] closer(pop, t, s1[x] as int, i) by {
        if s0.len() < k {
            assert(s0.contains(i as usize));
        }
        if x < p {
            assert(s1[x] == s0[x]);
        } else if x > p {
            assert(s1[x] == s0[x - 1]);
        } else {
            assert(p < s0.len());
            lemma_closer_trans(pop, t, j, s0[p] as int, i);
        }
    }
    if s1.len() < k {
        assert forall|i: int| 0 <= i < j + 1 && i != t implies #[trigger] s1.contains(i as usize) by {
            if i == j {
                assert(s1[p] == i as usize);
            } else {
                assert(s0.contains(i as usize));
                let y = choose|y: int| 0 <= y < s0.len() && s0[y] == i as usize;
                if y < p {
                    assert(s1[y] == i as usize);
                } else {
                    assert(s1[y + 1] == i as usize);
                }
            }
        }
    }
}

proof fn lemma_drop_ranked(pop: Seq<Boid>, t: int, k: nat, j: int, s1: Seq<usize>)
    requires
        0 <= j <= usize::MAX,
        s1.len() == k + 1,
        forall|x: int| 0 <= x < s1.len() ==> #[trigger] s1[x] < j && s1[x] != t,
        forall|x: int, y: int|
            0 <= x < y < s1.len() ==> closer(pop, t, #[trigger] s1[x] as int, #[trigger] s1[y] as int),
        forall|x: int, i: int|
            0 <= x < s1.len() && 0 <= i < j && i != t && !s1.contains(i as usize)
                ==> #[trigger] closer(pop, t, s1[x] as int, i),
    ensures
        ({
            let s2 = s1.drop_last();
            forall|x: int, i: int|
                0 <= x < s2.len() && 0 <= i < j && i != t && !s2.contains(i as usize)
                    ==> #[trigger] closer(pop, t, s2[x] as int, i)
        }),
{
    let s2 = s1.drop_last();
    assert forall|x: int, i: int|
        0 <= x < s2.len() && 0 <= i < j && i != t && !s2.contains(i as usize)
        implies #[trigger] closer(pop, t, s2[x] as int, i) by {
        assert(s2[x] == s1[x]);
        if i as usize == s1[k as int] {
            assert(closer(pop, t, s1[x] as int, s1[k as int] as int));
        } else {
            if s1.contains(i as usize) {
                let y = choose|y: int| 0 <= y < s1.len() && s1[y] == i as usize;
                assert(s2[y] == i as usize);
            }
            assert(closer(pop, t, s1[x] as int, i));
        }
    }
}

proof fn lemma_closer_irreflexive(pop: Seq<Boid>, t: int, a: int)
    ensures
        !closer(pop, t, a, a),
{
    reveal(closer);
}

proof fn lemma_nearest_agree_at(pop: Seq<Boid>, t: int, k: nat, s1: Seq<usize>, s2: Seq<usize>, x: int)
    requires
        is_nearest(pop, t, k, s1),
        is_nearest(pop, t, k, s2),
        0 <= x < s1.len(),
        forall|y: int| 0 <= y < x ==> s1[y] == s2[y],
    ensures
        s1[x] == s2[x],
{
    let a = s1[x];
    let b = s2[x];
    if a != b {
        lemma_closer_total(pop, t, a as int, b as int);
        if closer(pop, t, a as int, b as int) {
            if s2.contains(a) {
                let y = choose|y: int| 0 <= y < s2.len() && s2[y] == a;
                if y < x {
                    assert(s1[y] == a);
                    lemma_closer_irreflexive(pop, t, a as int);
                    assert(closer(pop, t, s1[y] as int, s1[x] as int));
                } else {
                    assert(closer(pop, t, s2[x] as int, s2[y] as int));
                }
            } else {
                assert(closer(pop, t, s2[x] as int, a as int));
            }
        } else {
            if s1.contains(b) {
                let y = choose|y: int| 0 <= y < s1.len() && s1[y] == b;
                if y < x {
                    assert(s2[y] == b);
                    lemma_closer_irreflexive(pop, t, b as int);
                    assert(closer(pop, t, s2[y] as int, s2[x] as int));
                } else {
                    assert(closer(pop, t, s1[x] as int, s1[y] as int));
                }
            } else {
                assert(closer(pop, t, s1[x] as int, b as int));
            }
        }
    }
}

proof fn lemma_nearest_agree_upto(pop: Seq<Boid>, t: int, k: nat, s1: Seq<usize>, s2: Seq<usize>, m: int)
    requires
        is_nearest(pop, t, k, s1),
        is_nearest(pop, t, k, s2),
        0 <= m <= s1.len(),
    ensures
        forall|y: int| 0 <= y < m ==> s1[y] == s2[y],
    decreases m,
{
    if m > 0 {
        lemma_nearest_agree_upto(pop, t, k, s1, s2, m - 1);
        lemma_nearest_agree_at(pop, t, k, s1, s2, m - 1);
    }
}

/// The nearest neighbours are determined: two lists that both meet
/// `is_nearest` for the same agent and count are the same list.
pub proof fn lemma_nearest_unique(pop: Seq<Boid>, t: int, k: nat, s1: Seq<usize>, s2: Seq<usize>)
    requires
        is_nearest(pop, t, k, s1),
        is_nearest(pop, t, k, s2),
    ensures
        s1 == s2,
{
    lemma_nearest_agree_upto(pop, t, k, s1, s2, s1.len() as int);
    assert(s1 =~= s2);
}

/// The `k` nearest other agents of agent `t`, nearest first.
pub open spec fn nearest_of(pop: Seq<Boid>, t: int, k: nat) -> Seq<usize> {
    choose|s: Seq<usize>| is_nearest(pop, t, k, s)
}

/// A steering signal: a vector on the grid.
#[derive(Debug, Clone, Copy, PartialEq, Eq, Structural)]
pub struct Effect {
    pub dx: i128,
    pub dy: i128,
}

/// The strength, in grid units, of the push from a neighbour at distance
/// one; a neighbour at distance `d` pushes with about `REPULSION_SCALE / d`.
pub const REPULSION_SCALE: u128 = 0x10_0000;

/// Offsets between two grid coordinates stay within 2^32.
const SPAN: i128 = 0x1_0000_0000;

/// One coordinate of a neighbour's push: the offset `off` along that
/// coordinate over the squared distance `d2` (the direction, weighted by the
/// inverse of the distance), times `REPULSION_SCALE`, with its magnitude
/// rounded up, so that any offset that is not zero pushes. A neighbour at the
/// same spot gives no direction and does not push.
pub open spec fn weighted(off: int, d2: int) -> int {
    if d2 <= 0 {
        0
    } else if off >= 0 {
        (off * REPULSION_SCALE + d2 - 1) / d2
    } else {
        -(((-off) * REPULSION_SCALE + d2 - 1) / d2)
    }
}

/// Rounded-up quotient `(a * REPULSION_SCALE) / d2` of a magnitude `a` no
/// larger than `d2`: at most the scale, and zero exactly when `a` is.
proof fn lemma_scaled_quotient(a: int, d2: int)
    requires
        0 <= a <= d2,
        0 < d2,
    ensures
        0 <= (a * REPULSION_SCALE + d2 - 1) / d2 <= REPULSION_SCALE,
        (a * REPULSION_SCALE + d2 - 1) / d2 == 0 <==> a == 0,
{
    let x = a * REPULSION_SCALE + d2 - 1;
    let q = x / d2;
    vstd::arithmetic::div_mod::lemma_fundamental_div_mod(x, d2);
    vstd::arithmetic::div_mod::lemma_mod_pos_bound(x, d2);
    let m = x % d2;
    assert(a * REPULSION_SCALE <= d2 * REPULSION_SCALE) by (nonlinear_arith)
        requires
            0 <= a <= d2,
    ;
    assert(0 <= q <= REPULSION_SCALE) by (nonlinear_arith)
        requires
            x == d2 * q + m,
            0 <= m < d2,
            0 <= x <= d2 * REPULSION_SCALE + d2 - 1,
    ;
    if a == 0 {
        assert(q == 0) by (nonlinear_arith)
            requires
                x == d2 - 1,
                x == d2 * q + m,
                0 <= m < d2,
                0 <= q,
        ;
    } else {
        assert(a * REPULSION_SCALE >= 1) by (nonlinear_arith)
            requires
                a >= 1,
        ;
        assert(q >= 1) by (nonlinear_arith)
            requires
                x >= d2,
                x == d2 * q + m,
                0 <= m < d2,
        ;
    }
}

/// A neighbour at another position than agent `p`'s pushes it: the push is
/// not zero, and each coordinate of it has the sign of the offset from the
/// neighbour `q` to `p` along that coordinate.
pub proof fn lemma_push_points_away(p: Position, q: Position)
    requires
        p != q,
    ensures
        ({
            let d2 = dist_sq(p, q);
            let wx = weighted(p.x - q.x, d2);
            let wy = weighted(p.y - q.y, d2);
            &&& wx != 0 || wy != 0
            &&& (wx > 0 <==> p.x - q.x > 0) && (wx < 0 <==> p.x - q.x < 0)
            &&& (wy > 0 <==> p.y - q.y > 0) && (wy < 0 <==> p.y - q.y < 0)
        }),
{
    let ox = p.x - q.x;
    let oy = p.y - q.y;
    let d2 = dist_sq(p, q);
    assert(d2 == ox * ox + oy * oy);
    assert(d2 > 0 && ox * ox <= d2 && oy * oy <= d2) by (nonlinear_arith)
        requires
            d2 == ox * ox + oy * oy,
            ox != 0 || oy != 0,
    ;
    lemma_weighted_sign(ox, d2);
    lemma_weighted_sign(oy, d2);
}

proof fn lemma_weighted_sign(off: int, d2: int)
    requires
        0 < d2,
        off * off <= d2,
    ensures
        weighted(off, d2) > 0 <==> off > 0,
        weighted(off, d2) < 0 <==> off < 0,
        -REPULSION_SCALE <= weighted(off, d2) <= REPULSION_SCALE,
{
    let a = if off < 0 { -off } else { off };
    assert(a * a == off * off) by (nonlinear_arith)
        requires
            a == off || a == -off,
    ;
    assert(a <= d2) by (nonlinear_arith)
        requires
            a * a <= d2,
            0 <= a,
    ;
    lemma_scaled_quotient(a, d2);
}

/// Sum, over the listed agents, of the push from each of them on agent `t`,
/// along x.
pub open spec fn push_x(pop: Seq<Boid>, t: int, sel: Seq<usize>) -> int
    decreases sel.len(),
{
    if sel.len() == 0 {
        0
    } else {
        push_x(pop, t, sel.drop_last()) + weighted(
            pop[t].position.x - pop[sel.last() as int].position.x,
            dist_sq(pop[t].position, pop[sel.last() as int].position),
        )
    }
}

/// Sum, over the listed agents, of the push from each of them on agent `t`,
/// along y.
pub open spec fn push_y(pop: Seq<Boid>, t: int, sel: Seq<usize>) -> int
    decreases sel.len(),
{
    if sel.len() == 0 {
        0
    } else {
        push_y(pop, t, sel.drop_last()) + weighted(
            pop[t].position.y - pop[sel.last() as int].position.y,
            dist_sq(pop[t].position, pop[sel.last() as int].position),
        )
    }
}

/// Sum, over the agents before `m` other than `t`, of the offset from agent
/// `t` to each of them, along x.
pub open spec fn pull_x(pop: Seq<Boid>, t: int, m: int) -> int
    decreases m,
{
    if m <= 0 {
        0
    } else if m - 1 == t {
        pull_x(pop, t, m - 1)
    } else {
        pull_x(pop, t, m - 1) + (pop[m - 1].position.x - pop[t].position.x)
    }
}

/// Sum, over the agents before `m` other than `t`, of the offset from agent
/// `t` to each of them, along y.
pub open spec fn pull_y(pop: Seq<Boid>, t: int, m: int) -> int
    decreases m,
{
    if m <= 0 {
        0
    } else if m - 1 == t {
        pull_y(pop, t, m - 1)
    } else {
        pull_y(pop, t, m - 1) + (pop[m - 1].position.y - pop[t].position.y)
    }
}

/// What separation makes of agent `t`: the sum of the pushes of its `k`
/// nearest neighbours, each away from the neighbour and weighted by the
/// inverse of its distance.
pub open spec fn repulsion(pop: Seq<Boid>, t: int, k: nat) -> Effect {
    let sel = nearest_of(pop, t, k);
    Effect { dx: push_x(pop, t, sel) as i128, dy: push_y(pop, t, sel) as i128 }
}

/// What cohesion makes of agent `t`: the offset from it to the centroid of
/// the other agents, times their number (zero when it has no neighbours).
pub open spec fn attraction(pop: Seq<Boid>, t: int) -> Effect {
    Effect { dx: pull_x(pop, t, pop.len() as int) as i128, dy: pull_y(pop, t, pop.len() as int) as i128 }
}

/// A steering rule: what it makes of one agent, read off a snapshot of the
/// whole population.
pub trait BoidRule {
    /// The rule's effect on agent `boid_ix` of `boids`.
    spec fn effect_on(&self, boid_ix: int, boids: Seq<Boid>) -> Effect;

    /// Evaluates the rule for agent `boid_ix`; reads the population only.
    fn use_on(&self, boid_ix: usize, boids: &Population) -> (r: Effect)
        requires
            boid_ix < boids@.len(),
        ensures
            r == self.effect_on(boid_ix as int, boids@),
    ;
}

/// The push along one coordinate of a neighbour at offset `off` and squared
/// distance `d2`.
fn weighted_offset(off: i64, d2: u128) -> (r: i128)
    requires
        off * off <= d2,
        d2 <= 0x2_0000_0000_0000_0000u128,
        -SPAN <= off <= SPAN,
    ensures
        r == weighted(off as int, d2 as int),
        -(REPULSION_SCALE as int) <= r <= REPULSION_SCALE,
{
    if d2 == 0 {
        return 0;
    }
    let a: u128 = if off < 0 { (-off) as u128 } else { off as u128 };
    proof {
        lemma_weighted_sign(off as int, d2 as int);
        assert(a * REPULSION_SCALE <= SPAN * REPULSION_SCALE) by (nonlinear_arith)
            requires
                a <= SPAN,
        ;
    }
    let q: u128 = (a * REPULSION_SCALE + (d2 - 1)) / d2;
    if off < 0 {
        -(q as i128)
    } else {
        q as i128
    }
}

impl BoidRule for Avoid {
    open spec fn effect_on(&self, boid_ix: int, boids: Seq<Boid>) -> Effect {
        repulsion(boids, boid_ix, self.neighbours())
    }

    fn use_on(&self, boid_ix: usize, boids: &Population) -> (r: Effect) {
        let sel = self.nearest(boid_ix, boids);
        proof {
            lemma_nearest_unique(boids@, boid_ix as int, self.neighbours(), sel@,
                nearest_of(boids@, boid_ix as int, self.neighbours()));
        }
        let target = boids.get(boid_ix).position;
        let mut dx: i128 = 0;
        let mut dy: i128 = 0;
        let mut m: usize = 0;
        while m < sel.len()
            invariant
                m <= sel@.len(),
                is_nearest(boids@, boid_ix as int, self.neighbours(), sel@),
                boid_ix < boids@.len(),
                target == boids@[boid_ix as int].position,
                dx == push_x(boids@, boid_ix as int, sel@.subrange(0, m as int)),
                dy == push_y(boids@, boid_ix as int, sel@.subrange(0, m as int)),
                -(m * REPULSION_SCALE) <= dx <= m * REPULSION_SCALE,
                -(m * REPULSION_SCALE) <= dy <= m * REPULSION_SCALE,
            decreases sel@.len() - m,
        {
            let other = boids.get(sel[m]).position;
            proof {
                assert(sel@.subrange(0, m + 1).drop_last() =~= sel@.subrange(0, m as int));
            }
            let d2 = target.squared_distance_to(&other);
            let off_x: i64 = target.x as i64 - other.x as i64;
            let off_y: i64 = target.y as i64 - other.y as i64;
            proof {
                assert(off_x * off_x <= d2 && off_y * off_y <= d2) by (nonlinear_arith)
                    requires
                        d2 == off_x * off_x + off_y * off_y,
                ;
            }
            dx = dx + weighted_offset(off_x, d2);
            dy = dy + weighted_offset(off_y, d2);
            m = m + 1;
        }
        proof {
            assert(sel@.subrange(0, m as int) =~= sel@);
        }
        Effect { dx, dy }
    }
}

/// Cohesion: steer toward the centroid of the other agents.
pub struct Attract {}

impl Attract {
    /// The cohesion rule.
    pub fn new() -> (r: Attract) {
        Attract {}
    }
}

impl BoidRule for Attract {
    open spec fn effect_on(&self, boid_ix: int, boids: Seq<Boid>) -> Effect {
        attraction(boids, boid_ix)
    }

    fn use_on(&self, boid_ix: usize, boids: &Population) -> (r: Effect) {
        let n = boids.size();
        let target = boids.get(boid_ix).position;
        let mut dx: i128 = 0;
        let mut dy: i128 = 0;
        let mut m: usize = 0;
        while m < n
            invariant
                n == boids@.len(),
                m <= n,
                boid_ix < n,
                target == boids@[boid_ix as int].position,
                dx == pull_x(boids@, boid_ix as int, m as int),
                dy == pull_y(boids@, boid_ix as int, m as int),
                -(m * SPAN) <= dx <= m * SPAN,
                -(m * SPAN) <= dy <= m * SPAN,
            decreases n - m,
        {
            if m != boid_ix {
                let other = boids.get(m).position;
                dx = dx + (other.x as i128 - target.x as i128);
                dy = dy + (other.y as i128 - target.y as i128);
            }
            m = m + 1;
        }
        Effect { dx, dy }
    }
}

/// With `k` wanted and more than `k` agents, the nearest neighbours are
/// exactly `k` distinct other agents, none farther away than any agent left
/// out.
pub proof fn lemma_nearest_k(pop: Seq<Boid>, t: int, k: nat, sel: Seq<usize>)
    requires
        0 <= t < pop.len(),
        pop.len() >= k + 1,
        is_nearest(pop, t, k, sel),
    ensures
        sel.len() == k,
        sel.no_duplicates(),
        forall|x: int| 0 <= x < sel.len() ==> #[trigger] sel[x] < pop.len() && sel[x] != t,
        forall|x: int, j: int|
            0 <= x < sel.len() && 0 <= j < pop.len() && j != t && !sel.contains(j as usize)
                ==> distance(pop[t].position, pop[#[trigger] sel[x] as int].position)
                <= #[trigger] distance(pop[t].position, pop[j].position),
{
    reveal(closer);
    assert forall|x: int, y: int| 0 <= x < sel.len() && 0 <= y < sel.len() && x != y
        implies sel[x] != sel[y] by {
        if x < y {
            assert(closer(pop, t, sel[x] as int, sel[y] as int));
        } else {
            assert(closer(pop, t, sel[y] as int, sel[x] as int));
        }
    }
    assert forall|x: int, j: int|
        0 <= x < sel.len() && 0 <= j < pop.len() && j != t && !sel.contains(j as usize)
        implies distance(pop[t].position, pop[#[trigger] sel[x] as int].position)
            <= #[trigger] distance(pop[t].position, pop[j].position) by {
        assert(closer(pop, t, sel[x] as int, j));
    }
}

/// With one other agent, at another position, separation is that agent's
/// push alone: not zero, and along each coordinate with the sign of the
/// offset from the neighbour to the agent.
pub proof fn lemma_lone_neighbour_repels(pop: Seq<Boid>, t: int, k: nat)
    requires
        pop.len() == 2,
        0 <= t < 2,
        k >= 1,
        pop[0].position != pop[1].position,
    ensures
        ({
            let p = pop[t].position;
            let q = pop[1 - t].position;
            let e = repulsion(pop, t, k);
            &&& e.dx == weighted(p.x - q.x, dist_sq(p, q))
            &&& e.dy == weighted(p.y - q.y, dist_sq(p, q))
            &&& e.dx != 0 || e.dy != 0
            &&& (e.dx > 0 <==> p.x > q.x) && (e.dx < 0 <==> p.x < q.x)
            &&& (e.dy > 0 <==> p.y > q.y) && (e.dy < 0 <==> p.y < q.y)
        }),
{
    let o = 1 - t;
    let sel = seq![o as usize];
    assert(sel.contains(o as usize)) by {
        assert(sel[0] == o as usize);
    }
    assert(is_nearest(pop, t, k, sel));
    lemma_nearest_unique(pop, t, k, sel, nearest_of(pop, t, k));
    assert(sel.drop_last() =~= Seq::<usize>::empty());
    let p = pop[t].position;
    let q = pop[o].position;
    lemma_push_points_away(p, q);
    let d2 = dist_sq(p, q);
    assert(d2 > 0 && (p.x - q.x) * (p.x - q.x) <= d2 && (p.y - q.y) * (p.y - q.y) <= d2) by (nonlinear_arith)
        requires
            d2 == (p.x - q.x) * (p.x - q.x) + (p.y - q.y) * (p.y - q.y),
            p != q,
    ;
    lemma_weighted_sign(p.x - q.x, d2);
    lemma_weighted_sign(p.y - q.y, d2);
    assert(sel.last() == o as usize);
    assert(push_x(pop, t, sel.drop_last()) == 0);
    assert(push_y(pop, t, sel.drop_last()) == 0);
    assert(push_x(pop, t, sel) == weighted(p.x - q.x, d2));
    assert(push_y(pop, t, sel) == weighted(p.y - q.y, d2));
}

proof fn lemma_pull_zero(pop: Seq<Boid>, t: int, m: int)
    requires
        0 <= t < pop.len(),
        m <= pop.len(),
        forall|j: int| 0 <= j < pop.len() ==> #[trigger] pop[j].position == pop[t].position,
    ensures
        pull_x(pop, t, m) == 0,
        pull_y(pop, t, m) == 0,
    decreases m,
{
    if m > 0 {
        lemma_pull_zero(pop, t, m - 1);
        assert(pop[m - 1].position == pop[t].position);
    }
}

/// Where all agents stand at one position, cohesion pulls no agent anywhere.
pub proof fn lemma_attraction_zero_when_gathered(pop: Seq<Boid>)
    requires
        forall|i: int, j: int|
            0 <= i < pop.len() && 0 <= j < pop.len() ==> #[trigger] pop[i].position
                == #[trigger] pop[j].position,
    ensures
        forall|t: int| 0 <= t < pop.len() ==> #[trigger] attraction(pop, t) == (Effect { dx: 0, dy: 0 }),
{
    assert forall|t: int| 0 <= t < pop.len() implies #[trigger] attraction(pop, t) == (Effect { dx: 0, dy: 0 }) by {
        assert forall|j: int| 0 <= j < pop.len() implies #[trigger] pop[j].position == pop[t].position by {
            assert(pop[j].position == pop[t].position);
        }
        lemma_pull_zero(pop, t, pop.len() as int);
    }
}

/// A rule that a world can run.
pub trait RuleTrait: BoidRule {
}

impl RuleTrait for Avoid {
}

impl RuleTrait for Attract {
}

} // verus!
