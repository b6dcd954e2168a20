//! Agents and the population that owns them.

use vstd::prelude::*;

use crate::geometry::{distance, Position};

verus! {

/// The lower-case hexadecimal digits, by value.
pub open spec fn hex_digits() -> Seq<char> {
    seq!['0', '1', '2', '3', '4', '5', '6', '7', '8', '9', 'a', 'b', 'c', 'd', 'e', 'f']
}

/// Which of the 32 digits stands at position `i` of the hyphenated text.
pub open spec fn digit_at(i: int) -> int {
    if i < 8 {
        i
    } else if i < 13 {
        i - 1
    } else if i < 18 {
        i - 2
    } else if i < 23 {
        i - 3
    } else {
        i - 4
    }
}

/// The hyphenated text of a 128-bit identifier: its 32 lower-case
/// hexadecimal digits, most significant first, in groups of 8, 4, 4, 4 and
/// 12 separated by '-'.
pub open spec fn hyphenated_text(v: u128) -> Seq<char> {
    Seq::new(
        36,
        |i: int|
            if i == 8 || i == 13 || i == 18 || i == 23 {
                '-'
            } else {
                hex_digits()[((v >> ((124 - 4 * digit_at(i)) as u128)) & 0xfu128) as int]
            },
    )
}

/// Relies on uuid::Uuid::new_v4, read back with as_u128: random bits with
/// the version nibble set to 4 and the variant bits set to 0b10.
#[verifier::external_body]
fn random_v4_bits() -> (r: u128)
    ensures
        (r >> 76u128) & 0xfu128 == 4u128,
        (r >> 62u128) & 0x3u128 == 2u128,
{
    uuid::Uuid::new_v4().as_u128()
}

/// Relies on uuid's hyphenated formatter (Uuid::from_u128 then
/// Display of Hyphenated): the big-endian digits of the value, lower case,
/// grouped 8-4-4-4-12.
#[verifier::external_body]
fn hyphenated(v: u128) -> (r: String)
    ensures
        r@ == hyphenated_text(v),
{
    uuid::Uuid::from_u128(v).hyphenated().to_string()
}

/// An opaque identifier of an agent, compared for equality and ordered by
/// its 128-bit value.
#[derive(Debug, Clone, Copy, PartialEq, Eq, Structural)]
pub struct UUID {
    value: u128,
}

impl UUID {
    /// The 128-bit value of the identifier.
    pub closed spec fn bits(&self) -> u128 {
        self.value
    }

    /// A fresh random (version 4) identifier.
    fn new() -> (r: UUID)
        ensures
            (r.bits() >> 76u128) & 0xfu128 == 4u128,
            (r.bits() >> 62u128) & 0x3u128 == 2u128,
    {
        UUID { value: random_v4_bits() }
    }

    /// The identifier whose value is `value`.
    pub fn from_u128(value: u128) -> (r: UUID)
        ensures
            r.bits() == value,
    {
        UUID { value }
    }

    /// The 128-bit value of the identifier.
    pub fn as_u128(&self) -> (r: u128)
        ensures
            r == self.bits(),
    {
        self.value
    }

    /// The identifier as hyphenated text, such as
    /// `67e55044-10b1-426f-9247-bb680e5fe0c8`.
    pub fn to_string(&self) -> (r: String)
        ensures
            r@ == hyphenated_text(self.bits()),
            r@.len() == 36,
    {
        hyphenated(self.value)
    }
}

/// The kinds of agent.
#[derive(Debug, Clone, Copy, PartialEq, Eq, Structural)]
pub enum BoidKind {
    Dumb,
}

/// One simulated agent.
#[derive(Debug, Clone, Copy, PartialEq, Eq, Structural)]
pub struct Boid {
    pub id: UUID,
    pub kind: BoidKind,
    pub position: Position,
    pub speed: u64,
}

impl Boid {
    /// A fresh agent of the default kind, at the origin, at rest.
    pub fn new() -> (r: Boid)
        ensures
            (r.id.bits() >> 76u128) & 0xfu128 == 4u128,
            (r.id.bits() >> 62u128) & 0x3u128 == 2u128,
            r.kind == BoidKind::Dumb,
            r.position == (Position { x: 0, y: 0 }),
            r.speed == 0,
    {
        Boid { id: UUID::new(), kind: BoidKind::Dumb, position: Position::default(), speed: 0 }
    }

    /// Takes in what the population did this tick; agents have no state
    /// that reacts yet, so this leaves the agent as it is.
    pub fn react_to(&mut self, _boids: &Population)
        ensures
            *final(self) == *old(self),
    {
    }

    /// The distance between the two agents' positions, rounded down.
    pub fn distance_to(&self, other: &Boid) -> (r: u64)
        ensures
            r == distance(self.position, other.position),
    {
        self.position.distance_to(&other.position)
    }
}

/// One step of a traversal over `s` with the cursor at `cursor`: what it
/// hands out, and where the cursor goes.
pub open spec fn traversal_step(s: Seq<Boid>, cursor: nat) -> (Option<Boid>, nat) {
    if cursor < s.len() {
        (Some(s[cursor as int]), cursor + 1)
    } else {
        (None, cursor)
    }
}

/// Where the cursor stands after `m` steps of a traversal from the start.
pub open spec fn cursor_after(s: Seq<Boid>, m: nat) -> nat
    decreases m,
{
    if m == 0 {
        0
    } else {
        traversal_step(s, cursor_after(s, (m - 1) as nat)).1
    }
}

/// What step `m` (counted from zero) of a traversal from the start hands out.
pub open spec fn handed_out(s: Seq<Boid>, m: nat) -> Option<Boid> {
    traversal_step(s, cursor_after(s, m)).0
}

/// A traversal from the start over `n` agents hands out agent `m` at step
/// `m` for each `m < n`, and nothing at every later step: exactly `n` items,
/// in creation order, once.
pub proof fn lemma_traversal_order(s: Seq<Boid>, m: nat)
    ensures
        cursor_after(s, m) == (if m < s.len() { m } else { s.len() }),
        handed_out(s, m) == (if m < s.len() { Some(s[m as int]) } else { None::<Boid> }),
    decreases m,
{
    if m > 0 {
        lemma_traversal_order(s, (m - 1) as nat);
    }
}

/// An ordered collection of agents, indexed densely from zero, with a
/// one-shot traversal cursor.
#[derive(Debug, Clone)]
pub struct Population {
    next_ix: usize,
    boids: Vec<Boid>,
}

impl View for Population {
    type V = Seq<Boid>;

    closed spec fn view(&self) -> Seq<Boid> {
        self.boids@
    }
}

impl Population {
    /// How many agents the traversal has handed out so far.
    pub closed spec fn cursor(&self) -> nat {
        self.next_ix as nat
    }

    /// What a traversal from the current cursor still hands out.
    pub open spec fn rest(&self) -> Seq<Boid> {
        if self.cursor() < self@.len() {
            self@.subrange(self.cursor() as int, self@.len() as int)
        } else {
            Seq::empty()
        }
    }

    /// `n_boids` fresh agents, in order of creation, with the traversal at
    /// the start.
    pub fn create(n_boids: u32) -> (r: Population)
        ensures
            r@.len() == n_boids,
            r.cursor() == 0,
            forall|i: int|
                0 <= i < n_boids ==> (#[trigger] r@[i]).kind == BoidKind::Dumb
                    && r@[i].position == (Position { x: 0, y: 0 }) && r@[i].speed == 0
                    && (r@[i].id.bits() >> 76u128) & 0xfu128 == 4u128
                    && (r@[i].id.bits() >> 62u128) & 0x3u128 == 2u128,
    {
        let mut boids: Vec<Boid> = Vec::new();
        let mut k: u32 = 0;
        while k < n_boids
            invariant
                k <= n_boids,
                boids@.len() == k,
                forall|i: int|
                    0 <= i < k ==> (#[trigger] boids@[i]).kind == BoidKind::Dumb
                        && boids@[i].position == (Position { x: 0, y: 0 }) && boids@[i].speed
                        == 0 && (boids@[i].id.bits() >> 76u128) & 0xfu128 == 4u128
                        && (boids@[i].id.bits() >> 62u128) & 0x3u128 == 2u128,
            decreases n_boids - k,
        {
            boids.push(Boid::new());
            k = k + 1;
        }
        Population { next_ix: 0, boids }
    }

    /// The agents of `boids`, in that order, with the traversal at the
    /// start.
    pub fn from_boids(boids: Vec<Boid>) -> (r: Population)
        ensures
            r@ == boids@,
            r.cursor() == 0,
    {
        Population { next_ix: 0, boids }
    }

    /// The agent at `boid_ix`.
    pub fn get(&self, boid_ix: usize) -> (r: &Boid)
        requires
            boid_ix < self@.len(),
        ensures
            *r == self@[boid_ix as int],
    {
        &self.boids[boid_ix]
    }

    /// The number of agents.
    pub fn size(&self) -> (r: usize)
        ensures
            r == self@.len(),
    {
        self.boids.len()
    }

    /// The next agent of the traversal, or `None` once all were handed out;
    /// the traversal does not start over.
    pub fn next(&mut self) -> (r: Option<Boid>)
        ensures
            final(self)@ == old(self)@,
            (r, final(self).cursor()) == traversal_step(old(self)@, old(self).cursor()),
            old(self).cursor() < old(self)@.len() ==> r == Some(old(self)@[old(self).cursor() as int])
                && final(self).cursor() == old(self).cursor() + 1,
            old(self).cursor() >= old(self)@.len() ==> r is None && final(self).cursor()
                == old(self).cursor(),
    {
        if self.next_ix < self.boids.len() {
            let next_boid = self.boids[self.next_ix];
            self.next_ix = self.next_ix + 1;
            return Some(next_boid);
        }
        None
    }

    /// Runs the traversal to its end and returns what it handed out, in
    /// order; afterwards nothing is left for another traversal.
    pub fn traverse(&mut self) -> (r: Vec<Boid>)
        ensures
            r@ == old(self).rest(),
            final(self)@ == old(self)@,
            final(self).rest() == Seq::<Boid>::empty(),
    {
        let mut out: Vec<Boid> = Vec::new();
        let ghost start = self.rest();
        loop
            invariant
                self@ == old(self)@,
                out@ + self.rest() == start,
            ensures
                self@ == old(self)@,
                out@ == start,
                self.rest() == Seq::<Boid>::empty(),
            decreases self@.len() - self.cursor(),
        {
            match self.next() {
                Some(b) => {
                    out.push(b);
                    assert(out@ + self.rest() =~= start);
                },
                None => {
                    assert(self.rest() =~= Seq::<Boid>::empty());
                    assert(out@ =~= start);
                    break;
                },
            }
        }
        out
    }
}

} // verus!
