//! What the game keeps beside the world.
use crate::tiles::TileSet;
use hecs::Entity;
use vstd::prelude::*;

verus! {

/// What the player carries.
pub struct PlayerData {
    pub inventory: Vec<Entity>,
}

impl PlayerData {
    /// Empty hands.
    pub fn new() -> (data: PlayerData)
        ensures
            data.inventory@ == Seq::<Entity>::empty(),
    {
        PlayerData { inventory: Vec::new() }
    }
}

/// The state of a game that is not in the world.
pub struct Resources {
    pub player: PlayerData,
    /// The tiles that the player sees.
    pub fov_set: TileSet,
    pub new_level_request: bool,
    pub level: u32,
}

impl Resources {
    /// The resources of a game that has not begun.
    pub fn new() -> (resources: Resources)
        ensures
            resources.player.inventory@ == Seq::<Entity>::empty(),
            resources.fov_set@ == Set::<(i32, i32)>::empty(),
            !resources.new_level_request,
            resources.level == 0,
    {
        Resources {
            player: PlayerData::new(),
            fov_set: TileSet::new(),
            new_level_request: false,
            level: 0,
        }
    }
}

} // verus!
