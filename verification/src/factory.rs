//! The kinds of things that a level is made of.
use vstd::prelude::*;

verus! {

/// What can be put into the world.
#[derive(Copy, Clone, PartialEq, Eq, Debug, Structural)]
pub enum EntityKind {
    Player,
    Floor,
    Door,
    Wall,
    Stairs,
    Rat,
    Bat,
    Zombie,
    Wizard,
    Centipede,
    Sword,
    Axe,
    Armor,
    HealthPotion,
}

} // verus!
