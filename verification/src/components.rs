//! What an entity of the world can be made of.
use crate::combat::AttackData;
use hecs::Entity;
use vstd::prelude::*;

verus! {

/// Protection that a piece of armor gives.
pub struct Armor {
    pub defense: i32,
}

/// A colour as four bytes: red, green, blue and opacity.
#[derive(Clone, Copy, Debug, PartialEq, Eq)]
pub struct Rgba {
    pub r: u8,
    pub g: u8,
    pub b: u8,
    pub a: u8,
}

/// How an entity is shown, and whether the player sees it at the moment.
#[derive(Clone, Copy, Debug, PartialEq, Eq)]
pub struct Appearance {
    pub sprite: u32,
    pub color: Rgba,
    pub layer: u32,
    pub ignore_overlap: bool,
    pub in_fov: bool,
}

impl Default for Appearance {
    /// An unseen white sprite on the first layer.
    fn default() -> (a: Appearance)
        ensures
            a == (Appearance {
                sprite: 0,
                color: Rgba { r: 255, g: 255, b: 255, a: 255 },
                layer: 1,
                ignore_overlap: false,
                in_fov: false,
            }),
    {
        Appearance {
            sprite: 0,
            color: Rgba { r: 255, g: 255, b: 255, a: 255 },
            layer: 1,
            ignore_overlap: false,
            in_fov: false,
        }
    }
}

/// The policy by which a creature chooses what to do on its turn.
#[derive(Clone, Copy, Debug, PartialEq, Eq)]
pub enum Behavior {
    /// Goes for the target whenever it can.
    ApproachAndAttack,
    /// Wanders with the given chance in a hundred, else goes for the target.
    Erratic(u32),
    /// Waits with the given chance in a hundred, else goes for the target.
    Slow(u32),
}

/// Marks an entity that cannot be seen through.
#[derive(Clone, Copy, Debug, PartialEq, Eq)]
pub struct BlocksSight;

/// What happens when something walks into an entity.
#[derive(Clone, Copy, Debug, PartialEq, Eq)]
pub enum Bump {
    BlocksMovement,
    /// A closed door, which opens when bumped.
    OpenDoor,
    Attack,
    NextLevel,
}

/// How hard an entity is to hit and to hurt.
#[derive(Clone, Copy, Debug, PartialEq, Eq)]
pub struct Defense {
    pub dodging: i32,
    pub armor: i32,
}

impl Default for Defense {
    /// No defense.
    fn default() -> (d: Defense)
        ensures
            d == (Defense { dodging: 0, armor: 0 }),
    {
        Defense { dodging: 0, armor: 0 }
    }
}

/// The items that an entity has put on.
#[derive(Clone, Copy, Debug, PartialEq, Eq)]
pub struct Equipment {
    pub weapon: Option<Entity>,
    pub armor: Option<Entity>,
}

/// As what an item can be put on.
#[derive(Clone, Copy, Debug, PartialEq, Eq)]
pub enum Equipable {
    Weapon,
    Armor,
}

/// Hit points. `current` may fall below zero; an entity with none left is dead.
#[derive(Clone, Copy, Debug, PartialEq, Eq)]
pub struct Health {
    pub max: i32,
    pub current: i32,
}

impl Health {
    /// Full health.
    pub fn new(max: i32) -> (h: Health)
        ensures
            h == (Health { max, current: max }),
    {
        Health { max, current: max }
    }
}

/// Marks an entity that can be picked up.
#[derive(Clone, Copy, Debug, PartialEq, Eq)]
pub struct Item;

/// Marks an entity that belongs to the current level.
#[derive(Clone, Copy, Debug, PartialEq, Eq)]
pub struct OnLevel;

/// For how many more turns a creature remembers the player, and for how many
/// it does after each sighting.
#[derive(Clone, Copy, Debug, PartialEq, Eq)]
pub struct MonsterMemory {
    pub time_to_remember: i32,
    pub strength: i32,
}

/// What an entity is called.
#[derive(Clone, Debug, PartialEq, Eq)]
pub struct Name {
    pub name: String,
    pub description: String,
}

/// Marks the remembered image of something the player no longer sees.
#[derive(Clone, Copy, Debug, PartialEq, Eq)]
pub struct PlayerMemory;

/// Marks the entity that the player controls.
#[derive(Clone, Copy, Debug, PartialEq, Eq)]
pub struct Player {}

impl Player {
    /// The mark of the player.
    pub fn new() -> Player {
        Player {  }
    }
}

/// A place on the grid.
#[derive(Clone, Copy, Debug, PartialEq, Eq)]
pub struct Pos {
    pub x: i32,
    pub y: i32,
}

impl Pos {
    /// The place at column `x` and row `y`.
    pub fn new(x: i32, y: i32) -> (p: Pos)
        ensures
            p == (Pos { x, y }),
    {
        Pos { x, y }
    }

    /// The place as a tile.
    pub open spec fn tile(self) -> (i32, i32) {
        (self.x, self.y)
    }

    /// The place as a tile.
    #[verifier::when_used_as_spec(tile)]
    pub fn into(self) -> (t: (i32, i32))
        ensures
            t == self.tile(),
    {
        (self.x, self.y)
    }
}

impl From<(i32, i32)> for Pos {
    /// The place of a tile.
    fn from(i: (i32, i32)) -> (p: Pos) {
        Pos { x: i.0, y: i.1 }
    }
}

impl vstd::std_specs::convert::FromSpecImpl<(i32, i32)> for Pos {
    open spec fn obeys_from_spec() -> bool {
        true
    }

    open spec fn from_spec(i: (i32, i32)) -> Pos {
        Pos { x: i.0, y: i.1 }
    }
}

/// What using an item does.
#[derive(Clone, Copy, Debug, PartialEq, Eq)]
pub enum Useable {
    Heal,
}

/// The attack that an entity makes, by nature or as a wielded item.
#[derive(Clone, Copy, Debug, PartialEq, Eq)]
pub struct Weapon {
    pub attack: AttackData,
}

} // verus!
