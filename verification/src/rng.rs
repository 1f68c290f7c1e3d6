//! The pseudo-random generator that every roll of the game draws from.
//!
//! The generator itself is `rand`'s `StdRng`; each of its methods that the game
//! calls is reached through a small trusted wrapper whose contract states only
//! what `rand` promises of every outcome (the range of the result). The game
//! draws through `Dice`, which keeps a ghost record of every draw: what was
//! asked of the generator and what came back. The contracts of the rolls state
//! that record, so they fix the arguments of each draw and what the roll makes
//! of its value.

use rand::rngs::StdRng;
use rand::{RngExt, SeedableRng};
use vstd::prelude::*;

verus! {

/// `rand::rngs::StdRng`, carried through the game's rolls as an opaque value.
#[verifier::external_type_specification]
#[verifier::external_body]
pub struct ExStdRng(StdRng);

/// Calls `<StdRng as SeedableRng>::seed_from_u64`. Nothing is claimed of the
/// generator that comes back: it is only ever passed on to the other wrappers.
#[verifier::external_body]
fn seeded_rng(seed: u64) -> StdRng {
    StdRng::seed_from_u64(seed)
}

/// Calls `RngExt::random_range` on the half-open `u32` range `low..high`.
/// `rand` panics on an empty range (hence the `requires`) and otherwise
/// returns a value inside the range, which is all that is claimed.
#[verifier::external_body]
fn random_range_u32(rng: &mut StdRng, low: u32, high: u32) -> (r: u32)
    requires
        low < high,
    ensures
        low <= r < high,
{
    rng.random_range(low..high)
}

/// Calls `RngExt::random_range` on the half-open `usize` range `low..high`.
/// Same claim as for `u32`: the value lies in the range.
#[verifier::external_body]
fn random_range_usize(rng: &mut StdRng, low: usize, high: usize) -> (r: usize)
    requires
        low < high,
    ensures
        low <= r < high,
{
    rng.random_range(low..high)
}

/// Calls `RngExt::random_range` on the inclusive `i32` range `low..=high`.
/// The value lies in the closed range; `rand` panics when `low > high`.
#[verifier::external_body]
fn random_range_i32_inclusive(rng: &mut StdRng, low: i32, high: i32) -> (r: i32)
    requires
        low <= high,
    ensures
        low <= r <= high,
{
    rng.random_range(low..=high)
}

/// Calls `RngExt::random_ratio(numerator, denominator)`: `true` with chance
/// `numerator / denominator`. `rand` panics when `denominator == 0` or
/// `numerator > denominator`; it documents that a zero numerator always gives
/// `false` and `numerator == denominator` always gives `true`.
#[verifier::external_body]
fn random_ratio(rng: &mut StdRng, numerator: u32, denominator: u32) -> (r: bool)
    requires
        0 < denominator,
        numerator <= denominator,
    ensures
        numerator == 0 ==> !r,
        numerator == denominator ==> r,
{
    rng.random_ratio(numerator, denominator)
}

/// One draw from the generator: what was asked and what came back.
pub enum Draw {
    /// A `u32` in `low..high`: (`low`, `high`, value).
    U32(u32, u32, u32),
    /// A `usize` in `low..high`: (`low`, `high`, value).
    Usize(usize, usize, usize),
    /// An `i32` in `low..=high`: (`low`, `high`, value).
    I32(i32, i32, i32),
    /// `true` with chance `numerator / denominator`: (`numerator`,
    /// `denominator`, value).
    Ratio(u32, u32, bool),
}

/// `d` is a draw of a `u32` in `low..high`.
pub open spec fn u32_draw(d: Draw, low: u32, high: u32) -> bool {
    d matches Draw::U32(a, b, _) && a == low && b == high
}

/// `d` is a draw of a `usize` in `low..high`.
pub open spec fn usize_draw(d: Draw, low: usize, high: usize) -> bool {
    d matches Draw::Usize(a, b, _) && a == low && b == high
}

/// `d` is a draw of an `i32` in `low..=high`.
pub open spec fn i32_draw(d: Draw, low: i32, high: i32) -> bool {
    d matches Draw::I32(a, b, _) && a == low && b == high
}

/// `d` is a draw of `true` with chance `numerator / denominator`.
pub open spec fn ratio_draw(d: Draw, numerator: u32, denominator: u32) -> bool {
    d matches Draw::Ratio(a, b, _) && a == numerator && b == denominator
}

/// The value of an integer draw.
pub open spec fn draw_value(d: Draw) -> int {
    match d {
        Draw::U32(_, _, v) => v as int,
        Draw::Usize(_, _, v) => v as int,
        Draw::I32(_, _, v) => v as int,
        Draw::Ratio(_, _, v) => if v { 1 } else { 0 },
    }
}

/// The value of a chance draw.
pub open spec fn draw_hit(d: Draw) -> bool {
    d matches Draw::Ratio(_, _, v) && v
}

/// `new` is `old` followed by more draws.
pub open spec fn extends(old: Seq<Draw>, new: Seq<Draw>) -> bool {
    old.len() <= new.len() && new.take(old.len() as int) == old
}

/// The draws of `new` made after those of `old`.
pub open spec fn draws_since(old: Seq<Draw>, new: Seq<Draw>) -> Seq<Draw> {
    new.skip(old.len() as int)
}

/// No draw made: the record extends itself by nothing.
pub proof fn lemma_extends_refl(old: Seq<Draw>)
    ensures
        extends(old, old),
        draws_since(old, old) == Seq::<Draw>::empty(),
{
    assert(old.take(old.len() as int) =~= old);
    assert(old.skip(old.len() as int) =~= Seq::<Draw>::empty());
}

/// One more draw extends the record by that draw.
pub proof fn lemma_extends_push(old: Seq<Draw>, mid: Seq<Draw>, x: Draw)
    requires
        extends(old, mid),
    ensures
        extends(old, mid.push(x)),
        draws_since(old, mid.push(x)) == draws_since(old, mid).push(x),
{
    assert(mid.push(x).take(old.len() as int) =~= mid.take(old.len() as int));
    assert(mid.push(x).skip(old.len() as int) =~= mid.skip(old.len() as int).push(x));
}

/// A record that is `old` followed by `tail` extends `old` by `tail`.
pub proof fn lemma_since_append(old: Seq<Draw>, tail: Seq<Draw>)
    ensures
        extends(old, old + tail),
        draws_since(old, old + tail) == tail,
{
    assert((old + tail).take(old.len() as int) =~= old);
    assert((old + tail).skip(old.len() as int) =~= tail);
}

/// Draws made in two steps are those of the first step, then those of the
/// second.
pub proof fn lemma_extends_trans(a: Seq<Draw>, b: Seq<Draw>, c: Seq<Draw>)
    requires
        extends(a, b),
        extends(b, c),
    ensures
        extends(a, c),
        draws_since(a, c) == draws_since(a, b) + draws_since(b, c),
{
    assert(c.take(a.len() as int) =~= b.take(a.len() as int)) by {
        assert forall|i: int| 0 <= i < a.len() implies c.take(a.len() as int)[i] == b.take(a.len() as int)[i] by {
            assert(c.take(b.len() as int)[i] == c[i]);
        }
    }
    assert(c.skip(a.len() as int) =~= b.skip(a.len() as int) + c.skip(b.len() as int)) by {
        assert forall|i: int| 0 <= i < c.len() - a.len() implies #[trigger] c.skip(a.len() as int)[i] == (b.skip(
            a.len() as int,
        ) + c.skip(b.len() as int))[i] by {
            if i < b.len() - a.len() {
                assert(c.take(b.len() as int)[a.len() + i] == c[a.len() + i]);
            }
        }
    }
}

/// The generator, with the record of the draws made from it.
pub struct Dice {
    pub rng: StdRng,
    pub log: Ghost<Seq<Draw>>,
}

impl Dice {
    /// The draws made so far, oldest first.
    pub open spec fn draws(&self) -> Seq<Draw> {
        self.log@
    }

    /// A generator seeded with `seed` (`StdRng::seed_from_u64`).
    pub fn from_seed(seed: u64) -> (d: Dice)
        ensures
            d.draws() == Seq::<Draw>::empty(),
    {
        Dice { rng: seeded_rng(seed), log: Ghost(Seq::empty()) }
    }

    /// A `u32` in `low..high`.
    pub fn range_u32(&mut self, low: u32, high: u32) -> (r: u32)
        requires
            low < high,
        ensures
            low <= r < high,
            final(self).draws() == old(self).draws().push(Draw::U32(low, high, r)),
    {
        let r = random_range_u32(&mut self.rng, low, high);
        self.log = Ghost(self.log@.push(Draw::U32(low, high, r)));
        r
    }

    /// A `usize` in `low..high`.
    pub fn range_usize(&mut self, low: usize, high: usize) -> (r: usize)
        requires
            low < high,
        ensures
            low <= r < high,
            final(self).draws() == old(self).draws().push(Draw::Usize(low, high, r)),
    {
        let r = random_range_usize(&mut self.rng, low, high);
        self.log = Ghost(self.log@.push(Draw::Usize(low, high, r)));
        r
    }

    /// An `i32` in `low..=high`.
    pub fn range_i32_inclusive(&mut self, low: i32, high: i32) -> (r: i32)
        requires
            low <= high,
        ensures
            low <= r <= high,
            final(self).draws() == old(self).draws().push(Draw::I32(low, high, r)),
    {
        let r = random_range_i32_inclusive(&mut self.rng, low, high);
        self.log = Ghost(self.log@.push(Draw::I32(low, high, r)));
        r
    }

    /// `true` with chance `numerator / denominator`.
    pub fn ratio(&mut self, numerator: u32, denominator: u32) -> (r: bool)
        requires
            0 < denominator,
            numerator <= denominator,
        ensures
            numerator == 0 ==> !r,
            numerator == denominator ==> r,
            final(self).draws() == old(self).draws().push(Draw::Ratio(numerator, denominator, r)),
    {
        let r = random_ratio(&mut self.rng, numerator, denominator);
        self.log = Ghost(self.log@.push(Draw::Ratio(numerator, denominator, r)));
        r
    }
}

} // verus!
