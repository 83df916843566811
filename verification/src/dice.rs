//! The source of chance.
//!
//! Every random number of the library is drawn through a `Dice`, which keeps
//! a ghost record of what it has given, so that a contract can say what a
//! function did with the numbers it drew.
use macroquad::rand::ChooseRandom;
use vstd::prelude::*;

verus! {

/// The largest bound that a draw can take: two to the power of 53, up to
/// which the generator's floating-point arithmetic is exact.
pub const MAX_SIDES: u64 = 0x20_0000_0000_0000;

/// `macroquad::rand::gen_range` from zero to `sides`: a number below `sides`.
/// The generator scales a fraction below one by `sides` and drops what
/// follows the point, so the bound itself is never reached.
#[verifier::external_body]
fn draw_below(sides: u64) -> (drawn: u64)
    requires
        0 < sides <= MAX_SIDES,
    ensures
        drawn < sides,
{
    macroquad::rand::gen_range(0u64, sides)
}

/// Whether the record `after` continues the record `before`.
pub open spec fn extends(before: Seq<int>, after: Seq<int>) -> bool {
    before.len() <= after.len() && after.take(before.len() as int) == before
}

/// What was drawn between the record `before` and the record `after`.
pub open spec fn since(before: Seq<int>, after: Seq<int>) -> Seq<int> {
    after.skip(before.len() as int)
}

/// A record of draws that continues one that continues another continues
/// that one too.
pub proof fn extends_is_transitive(before: Seq<int>, mid: Seq<int>, now: Seq<int>)
    requires
        extends(before, mid),
        extends(mid, now),
    ensures
        extends(before, now),
{
    assert forall|k: int| 0 <= k < before.len() implies now[k] == before[k] by {
        assert(now.take(mid.len() as int)[k] == now[k]);
        assert(mid.take(before.len() as int)[k] == mid[k]);
    }
    assert(now.take(before.len() as int) =~= before);
}

/// A script without its first number; an empty script stays empty.
pub open spec fn rest(script: Seq<u64>) -> Seq<u64> {
    if script.len() > 0 {
        script.skip(1)
    } else {
        script
    }
}

/// A source of random numbers: first those of a script, if it was given one,
/// then those of the shared generator.
pub struct Dice {
    script: Vec<u64>,
    next: usize,
    drawn: Ghost<Seq<int>>,
}

impl Dice {
    /// Every number drawn so far, in the order of the draws.
    pub closed spec fn drawn(&self) -> Seq<int> {
        self.drawn@
    }

    /// The part of the script that is still to come.
    pub closed spec fn script(&self) -> Seq<u64> {
        if self.next <= self.script@.len() {
            self.script@.skip(self.next as int)
        } else {
            Seq::empty()
        }
    }

    /// Dice that draw from the shared generator.
    pub fn new() -> (dice: Dice)
        ensures
            dice.drawn() == Seq::<int>::empty(),
            dice.script() == Seq::<u64>::empty(),
    {
        let dice = Dice { script: Vec::new(), next: 0, drawn: Ghost(Seq::empty()) };
        assert(dice.script() =~= Seq::<u64>::empty());
        dice
    }

    /// Dice that give the numbers of `script` in turn, and draw from the
    /// shared generator once the script has run out.
    pub fn scripted(script: Vec<u64>) -> (dice: Dice)
        ensures
            dice.drawn() == Seq::<int>::empty(),
            dice.script() == script@,
    {
        let dice = Dice { script, next: 0, drawn: Ghost(Seq::empty()) };
        assert(dice.script() =~= script@);
        dice
    }

    /// A number from zero up to, and not including, `sides`. The next number
    /// of the script is used up, and is the result if it is below `sides`;
    /// else the shared generator is asked.
    pub fn roll(&mut self, sides: u64) -> (r: u64)
        requires
            0 < sides <= MAX_SIDES,
        ensures
            r < sides,
            final(self).drawn() == old(self).drawn().push(r as int),
            extends(old(self).drawn(), final(self).drawn()),
            final(self).script() == rest(old(self).script()),
            old(self).script().len() > 0 && old(self).script()[0] < sides ==> r == old(
                self,
            ).script()[0],
    {
        let mut scripted: Option<u64> = None;
        if self.next < self.script.len() {
            let value = self.script[self.next];
            self.next = self.next + 1;
            if value < sides {
                scripted = Some(value);
            }
        }
        let r = match scripted {
            Some(value) => value,
            None => draw_below(sides),
        };
        proof {
            self.drawn = Ghost(self.drawn@.push(r as int));
            assert(self.drawn@.take(old(self).drawn().len() as int) =~= old(self).drawn());
            assert(self.script() =~= rest(old(self).script()));
        }
        r
    }
}

/// `macroquad::rand::ChooseRandom::shuffle`: the same items in an order
/// that the shared generator picks.
#[verifier::external_body]
pub(crate) fn shuffle<T>(list: &mut Vec<T>)
    ensures
        final(list)@.len() == old(list)@.len(),
        final(list)@.to_multiset() == old(list)@.to_multiset(),
{
    list.shuffle();
}

/// `macroquad::rand::ChooseRandom::choose_multiple`: as many items of the
/// list as asked for, picked by the shared generator. It picks by place, and
/// falls back on the first place where more are asked for than there are, so
/// that an empty list can give nothing.
#[verifier::external_body]
pub(crate) fn choose_multiple(list: &Vec<usize>, amount: usize) -> (picked: Vec<usize>)
    requires
        list@.len() > 0 || amount == 0,
    ensures
        picked@.len() == amount,
        forall|i: int| 0 <= i < amount ==> list@.contains(#[trigger] picked@[i]),
{
    list.choose_multiple(amount).map(|item| *item).collect()
}

} // verus!
