//! The tick driver: one rule applied to every agent of a population snapshot.

use vstd::prelude::*;

use crate::boid::{Boid, BoidKind, Population};
use crate::geometry::Position;
use crate::rule::{Attract, Avoid, BoidRule, Effect};

verus! {

/// The rules a world can be built with.
#[derive(Debug, Clone, Copy, PartialEq, Eq, Structural)]
pub enum Rules {
    Attract,
    Avoid,
}

/// A rule together with its parameters.
pub enum ActiveRule {
    Avoid(Avoid),
    Attract(Attract),
}

impl BoidRule for ActiveRule {
    open spec fn effect_on(&self, boid_ix: int, boids: Seq<Boid>) -> Effect {
        match self {
            ActiveRule::Avoid(a) => a.effect_on(boid_ix, boids),
            ActiveRule::Attract(a) => a.effect_on(boid_ix, boids),
        }
    }

    fn use_on(&self, boid_ix: usize, boids: &Population) -> (r: Effect) {
        match self {
            ActiveRule::Avoid(a) => a.use_on(boid_ix, boids),
            ActiveRule::Attract(a) => a.use_on(boid_ix, boids),
        }
    }
}

/// What `rule` makes of each agent of `boids`, by index.
pub open spec fn tick_effects(rule: ActiveRule, boids: Seq<Boid>) -> Seq<Effect> {
    Seq::new(boids.len(), |i: int| rule.effect_on(i, boids))
}

/// The results of consecutive chunks of a tick, put end to end: the chunk
/// from `cuts[c]` to `cuts[c + 1]` for each `c`.
pub open spec fn joined_chunks(effects: Seq<Effect>, cuts: Seq<int>) -> Seq<Effect>
    decreases cuts.len(),
{
    if cuts.len() < 2 {
        Seq::empty()
    } else {
        joined_chunks(effects, cuts.drop_last()) + effects.subrange(
            cuts[cuts.len() - 2],
            cuts[cuts.len() - 1],
        )
    }
}

/// Cutting a tick into consecutive chunks that cover every agent, evaluating
/// the chunks apart and putting their results end to end gives the results of
/// evaluating the agents one after another.
pub proof fn lemma_chunked_tick_is_sequential(rule: ActiveRule, boids: Seq<Boid>, cuts: Seq<int>)
    requires
        cuts.len() >= 1,
        cuts[0] == 0,
        cuts.last() == boids.len(),
        forall|c: int| 0 <= c < cuts.len() - 1 ==> #[trigger] cuts[c] <= cuts[c + 1],
    ensures
        joined_chunks(tick_effects(rule, boids), cuts) == tick_effects(rule, boids),
{
    lemma_joined_prefix(tick_effects(rule, boids), cuts);
    assert(tick_effects(rule, boids).subrange(0, boids.len() as int) =~= tick_effects(rule, boids));
}

proof fn lemma_joined_prefix(effects: Seq<Effect>, cuts: Seq<int>)
    requires
        cuts.len() >= 1,
        cuts[0] == 0,
        cuts.last() <= effects.len(),
        forall|c: int| 0 <= c < cuts.len() - 1 ==> #[trigger] cuts[c] <= cuts[c + 1],
    ensures
        joined_chunks(effects, cuts) == effects.subrange(0, cuts.last()),
    decreases cuts.len(),
{
    if cuts.len() < 2 {
        assert(effects.subrange(0, 0) =~= Seq::<Effect>::empty());
    } else {
        let front = cuts.drop_last();
        assert forall|c: int| 0 <= c < front.len() - 1 implies #[trigger] front[c] <= front[c + 1] by {
            assert(cuts[c] <= cuts[c + 1]);
        }
        assert(cuts[cuts.len() - 2] <= cuts[cuts.len() - 1]);
        lemma_monotone_cuts(cuts, cuts.len() - 2);
        lemma_joined_prefix(effects, front);
        assert(effects.subrange(0, front.last()) + effects.subrange(front.last(), cuts.last())
            =~= effects.subrange(0, cuts.last()));
    }
}

proof fn lemma_monotone_cuts(cuts: Seq<int>, c: int)
    requires
        0 <= c < cuts.len(),
        cuts[0] == 0,
        forall|d: int| 0 <= d < cuts.len() - 1 ==> #[trigger] cuts[d] <= cuts[d + 1],
    ensures
        0 <= cuts[c] <= cuts.last(),
    decreases cuts.len() - c,
{
    if c < cuts.len() - 1 {
        lemma_monotone_cuts(cuts, c + 1);
        assert(cuts[c] <= cuts[c + 1]);
    }
    lemma_monotone_from_start(cuts, c);
}

proof fn lemma_monotone_from_start(cuts: Seq<int>, c: int)
    requires
        0 <= c < cuts.len(),
        cuts[0] == 0,
        forall|d: int| 0 <= d < cuts.len() - 1 ==> #[trigger] cuts[d] <= cuts[d + 1],
    ensures
        0 <= cuts[c],
    decreases c,
{
    if c > 0 {
        lemma_monotone_from_start(cuts, c - 1);
        assert(cuts[c - 1] <= cuts[c]);
    }
}

/// Cuts `n` agents into `parts` consecutive chunks of near-equal size for
/// workers: chunk `c` runs from `r[c]` up to `r[c + 1]`, and together the
/// chunks cover every agent once, as `lemma_chunked_tick_is_sequential` asks.
pub fn chunk_cuts(n: usize, parts: usize) -> (r: Vec<usize>)
    requires
        parts > 0,
    ensures
        r@.len() == parts + 1,
        r@[0] == 0,
        r@[parts as int] == n,
        forall|c: int| 0 <= c < parts ==> #[trigger] r@[c] == (n * c) / (parts as int),
        forall|c: int| 0 <= c < parts ==> #[trigger] r@[c] <= r@[c + 1],
{
    let mut r: Vec<usize> = Vec::new();
    let mut c: usize = 0;
    while c < parts
        invariant
            c <= parts,
            r@.len() == c,
            forall|d: int| 0 <= d < c ==> #[trigger] r@[d] == (n * d) / (parts as int),
            forall|d: int| 0 <= d < c ==> #[trigger] r@[d] <= n,
        decreases parts - c,
    {
        proof {
            assert((n as int) * (c as int) <= (n as int) * (parts as int)) by (nonlinear_arith)
                requires
                    c < parts,
                    0 <= n,
            ;
            assert((n as int) * (c as int) <= 0xffff_ffff_ffff_fffe_0000_0000_0000_0001) by (nonlinear_arith)
                requires
                    n <= 0xffff_ffff_ffff_ffff,
                    c <= 0xffff_ffff_ffff_ffff,
            ;
            vstd::arithmetic::div_mod::lemma_div_is_ordered(n * c, n * parts, parts as int);
            vstd::arithmetic::div_mod::lemma_div_multiples_vanish(n as int, parts as int);
            assert(parts * n == n * parts) by (nonlinear_arith);
        }
        let cut: u128 = (n as u128) * (c as u128) / (parts as u128);
        r.push(cut as usize);
        c = c + 1;
    }
    r.push(n);
    proof {
        assert forall|c: int| 0 <= c < parts implies #[trigger] r@[c] <= r@[c + 1] by {
            if c + 1 < parts {
                assert((n as int) * c <= (n as int) * (c + 1)) by (nonlinear_arith)
                    requires
                        0 <= c,
                        0 <= n,
                ;
                vstd::arithmetic::div_mod::lemma_div_is_ordered(n * c, n * (c + 1), parts as int);
                assert(r@[c + 1] == (n * (c + 1)) / (parts as int));
            }
        }
        if parts > 0 {
            vstd::arithmetic::div_mod::lemma_div_multiples_vanish(0, parts as int);
            assert(r@[0] == (n * 0) / (parts as int));
        }
    }
    r
}

/// One rule and the population it runs on.
pub struct World {
    rule: ActiveRule,
    boids: Population,
}

impl World {
    /// The rule the world runs.
    pub closed spec fn rule(&self) -> ActiveRule {
        self.rule
    }

    /// The population snapshot the world's next tick reads.
    pub closed spec fn snapshot(&self) -> Seq<Boid> {
        self.boids@
    }

    /// A world of `n_boids` fresh agents with the selected rule, at its
    /// defaults.
    pub fn a_whole_new_world(rule_selection: Rules, n_boids: u32) -> (r: World)
        ensures
            r.snapshot().len() == n_boids,
            forall|i: int|
                0 <= i < n_boids ==> (#[trigger] r.snapshot()[i]).kind == BoidKind::Dumb
                    && r.snapshot()[i].position == (Position { x: 0, y: 0 }) && r.snapshot()[i].speed
                    == 0,
            rule_selection == Rules::Avoid ==> (r.rule() matches ActiveRule::Avoid(a) && a.neighbours() == 3),
            rule_selection == Rules::Attract ==> r.rule() is Attract,
    {
        let rule = match rule_selection {
            Rules::Attract => ActiveRule::Attract(Attract::new()),
            Rules::Avoid => ActiveRule::Avoid(Avoid::new()),
        };
        World { rule, boids: Population::create(n_boids) }
    }

    /// A world running `rule` on `boids`.
    pub fn with_population(rule: ActiveRule, boids: Population) -> (r: World)
        ensures
            r.rule() == rule,
            r.snapshot() == boids@,
    {
        World { rule, boids }
    }

    /// The number of agents.
    pub fn size(&self) -> (r: usize)
        ensures
            r == self.snapshot().len(),
    {
        self.boids.size()
    }

    /// Evaluates the rule on the agents from `start` up to `end`, in
    /// order; the snapshot is only read, so chunks can run side by side.
    pub fn evaluate_chunk(&self, start: usize, end: usize) -> (r: Vec<Effect>)
        requires
            start <= end <= self.snapshot().len(),
        ensures
            r@ == tick_effects(self.rule(), self.snapshot()).subrange(start as int, end as int),
    {
        let mut out: Vec<Effect> = Vec::new();
        let mut i: usize = start;
        while i < end
            invariant
                start <= i <= end,
                end <= self.snapshot().len(),
                out@ == tick_effects(self.rule(), self.snapshot()).subrange(start as int, i as int),
            decreases end - i,
        {
            let e = self.rule.use_on(i, &self.boids);
            out.push(e);
            proof {
                assert(out@ =~= tick_effects(self.rule(), self.snapshot()).subrange(start as int, i + 1));
            }
            i = i + 1;
        }
        out
    }

    /// Runs one tick: the rule's effect on every agent, by index, all read
    /// off the same snapshot.
    pub fn turn(self) -> (r: Vec<Effect>)
        ensures
            r@ == tick_effects(self.rule(), self.snapshot()),
    {
        let n = self.boids.size();
        let r = self.evaluate_chunk(0, n);
        proof {
            assert(tick_effects(self.rule(), self.snapshot()).subrange(0, n as int)
                =~= tick_effects(self.rule(), self.snapshot()));
        }
        r
    }
}

} // verus!
