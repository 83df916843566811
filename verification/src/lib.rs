//! The tactical engine of a turn-based dungeon game: what a creature decides
//! on its turn, what it sees and reaches, and how a fight goes.
use crate::components::Pos;
use crate::store::{bodies, contents, lists_bodies, Scene};
use hecs::{Entity, World};
use vstd::prelude::*;

pub mod behavior;
pub mod combat;
pub mod components;
pub mod console;
pub mod dice;
pub mod dungeon_gen;
pub mod factory;
pub mod field_of_view;
pub mod line;
pub mod lists;
pub mod monster_memory;
pub mod movement;
pub mod resources;
pub mod states;
pub mod store;
pub mod tiles;

verus! {

/// The number of sprites in a row of the sheet.
pub const SPRITE_SHEET_COLUMNS: u32 = 10;

/// The width of a level in tiles.
pub const ARENA_WIDTH: usize = 22;

/// The height of a level in tiles.
pub const ARENA_HEIGHT: usize = 22;

/// The width of the side panel in pixels.
pub const HUD_WIDTH: usize = 320;

/// How far the player sees.
pub const FOV_DISTANCE: u32 = 20;

/// Whether the player sees through everything.
pub const DEBUG_FOV: bool = false;

/// Whether the scene has a player.
pub open spec fn has_player(s: Scene) -> bool {
    exists|e: Entity| s.dom().contains(e) && (#[trigger] s[e]).body.player
}

/// A player of the world, or an error where it has none.
pub fn player(world: &mut World) -> (r: Result<Entity, String>)
    ensures
        contents(*final(world)) == contents(*old(world)),
        r is Ok <==> has_player(contents(*old(world))),
        r matches Ok(e) ==> contents(*old(world)).dom().contains(e) && contents(
            *old(world),
        )[e].body.player,
        r matches Err(message) ==> message@ == "No player found"@,
{
    let list = bodies(world);
    let ghost s = contents(*old(world));
    let mut i: usize = 0;
    while i < list.len()
        invariant
            i <= list.len(),
            lists_bodies(list@, s),
            s == contents(*old(world)),
            contents(*world) == s,
            forall|k: int| 0 <= k < i ==> !(#[trigger] list@[k]).1.player,
        decreases list.len() - i,
    {
        if list[i].1.player {
            assert(s.dom().contains(list@[i as int].0));
            assert(s[list@[i as int].0].body.player);
            return Ok(list[i].0);
        }
        i = i + 1;
    }
    proof {
        if has_player(s) {
            let e = choose|e: Entity| s.dom().contains(e) && (#[trigger] s[e]).body.player;
            let k = choose|k: int| 0 <= k < list@.len() && (#[trigger] list@[k]).0 == e;
            assert(!list@[k].1.player);
        }
    }
    Err("No player found".to_owned())
}

/// Whether `list` names the entities that stand on `tile`, each once.
pub open spec fn lists_entities_at(list: Seq<Entity>, s: Scene, tile: (i32, i32)) -> bool {
    &&& list.no_duplicates()
    &&& forall|e: Entity|
        list.contains(e) <==> s.dom().contains(e) && (#[trigger] s[e]).body.pos == Some(
            Pos { x: tile.0, y: tile.1 },
        )
}

/// The entities that stand on a tile, in no stated order.
pub fn get_entities_at(world: &mut World, pos: (i32, i32)) -> (found: Vec<Entity>)
    ensures
        contents(*final(world)) == contents(*old(world)),
        lists_entities_at(found@, contents(*old(world)), pos),
{
    let list = bodies(world);
    let ghost s = contents(*old(world));
    let ghost here = Some(Pos { x: pos.0, y: pos.1 });
    let mut found: Vec<Entity> = Vec::new();
    let ghost mut from: Seq<int> = Seq::empty();
    let mut i: usize = 0;
    while i < list.len()
        invariant
            i <= list.len(),
            lists_bodies(list@, s),
            here == Some(Pos { x: pos.0, y: pos.1 }),
            from.len() == found.len(),
            forall|j: int| 0 <= j < from.len() ==> 0 <= #[trigger] from[j] < i,
            forall|j: int, l: int| 0 <= j < l < from.len() ==> from[j] < from[l],
            forall|j: int|
                0 <= j < found.len() ==> #[trigger] found@[j] == list@[from[j]].0
                    && list@[from[j]].1.pos == here,
            forall|k: int|
                0 <= k < i && (#[trigger] list@[k]).1.pos == here ==> exists|j: int|
                    0 <= j < found.len() && #[trigger] from[j] == k,
        decreases list.len() - i,
    {
        let on_tile = match list[i].1.pos {
            Some(p) => p.x == pos.0 && p.y == pos.1,
            None => false,
        };
        if on_tile {
            found.push(list[i].0);
            proof {
                let ghost before = from;
                from = from.push(i as int);
                assert forall|k: int|
                    0 <= k < i + 1 && (#[trigger] list@[k]).1.pos == here implies exists|j: int|
                    0 <= j < found.len() && #[trigger] from[j] == k by {
                    if k < i {
                        let j = choose|j: int| 0 <= j < before.len() && #[trigger] before[j] == k;
                        assert(from[j] == k);
                    } else {
                        assert(from[from.len() - 1] == k);
                    }
                }
            }
        }
        i = i + 1;
    }
    proof {
        assert forall|j: int, l: int| 0 <= j < l < found@.len() implies found@[j] != found@[l] by {
            assert(from[j] < from[l]);
            assert(list@[from[j]].0 != list@[from[l]].0);
        }
        assert forall|e: Entity|
            found@.contains(e) <==> s.dom().contains(e) && (#[trigger] s[e]).body.pos == here by {
            if found@.contains(e) {
                let j = choose|j: int| 0 <= j < found@.len() && found@[j] == e;
                assert(s.dom().contains(list@[from[j]].0));
            }
            if s.dom().contains(e) && s[e].body.pos == here {
                let k = choose|k: int| 0 <= k < list@.len() && (#[trigger] list@[k]).0 == e;
                assert(list@[k].1 == s[e].body);
                let j = choose|j: int| 0 <= j < found.len() && #[trigger] from[j] == k;
                assert(found@[j] == e);
            }
        }
    }
    found
}

} // verus!
