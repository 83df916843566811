//! The world of entities, and the few operations through which the rest of
//! the library reads and changes it.
//!
//! The world is an `hecs::World`. Each operation here takes it by unique
//! reference, so that `hecs` needs none of its run-time borrow checks, which
//! panic where they fail. Each begins by flushing the world, through
//! `World::flush` where the `hecs` operation does not do so itself, so that
//! an entity reserved through a shared reference counts as part of the world
//! from the start.
use crate::components::{
    Appearance, Behavior, BlocksSight, Bump, Defense, Equipable, Equipment, Health, Item,
    MonsterMemory, OnLevel, Player, PlayerMemory, Pos, Useable, Weapon,
};
use hecs::{Entity, World};
use vstd::prelude::*;

verus! {

/// `hecs::World`, of which nothing is known but what `contents` says.
#[verifier::external_type_specification]
#[verifier::external_body]
pub struct ExWorld(hecs::World);

/// `hecs::Entity`, the handle of an entity, of which nothing is known but
/// whether two are the same.
#[verifier::external_type_specification]
#[verifier::external_body]
pub struct ExEntity(hecs::Entity);

/// Where an entity stands and how it meets the others.
pub struct Body {
    pub pos: Option<Pos>,
    pub appearance: Option<Appearance>,
    pub bump: Option<Bump>,
    pub blocks_sight: bool,
    pub player: bool,
    pub player_memory: bool,
    pub on_level: bool,
}

/// What an entity brings to a fight.
pub struct Stats {
    pub health: Option<Health>,
    pub weapon: Option<Weapon>,
    pub defense: Option<Defense>,
    pub equipment: Option<Equipment>,
}

/// What drives a creature.
pub struct Mind {
    pub behavior: Option<Behavior>,
    pub memory: Option<MonsterMemory>,
}

/// What an entity is good for in the hands of the player.
pub struct Goods {
    pub item: bool,
    pub equipable: Option<Equipable>,
    pub useable: Option<Useable>,
}

/// Everything that the library knows of one entity.
pub struct Record {
    pub body: Body,
    pub stats: Stats,
    pub mind: Mind,
    pub goods: Goods,
}

/// A world as a map from its entities to what they are made of.
pub type Scene = Map<Entity, Record>;

/// What a world holds: its entities, each with those of its components that
/// a `Record` has a field for.
pub uninterp spec fn contents(world: World) -> Map<Entity, Record>;

/// The record of a remembered image: a place, a look, and the two marks.
pub open spec fn memory_record(pos: Pos, appearance: Appearance) -> Record {
    Record {
        body: Body {
            pos: Some(pos),
            appearance: Some(appearance),
            bump: None,
            blocks_sight: false,
            player: false,
            player_memory: true,
            on_level: true,
        },
        stats: Stats { health: None, weapon: None, defense: None, equipment: None },
        mind: Mind { behavior: None, memory: None },
        goods: Goods { item: false, equipable: None, useable: None },
    }
}

/// The scene in which `entity`, if the world holds it, is as `record` says.
pub open spec fn edited(s: Scene, entity: Entity, record: Record) -> Scene {
    if s.dom().contains(entity) {
        s.insert(entity, record)
    } else {
        s
    }
}

/// The scene in which `entity`, if it has a place, stands at `pos`.
pub open spec fn with_pos(s: Scene, entity: Entity, pos: Pos) -> Scene {
    if s.dom().contains(entity) && s[entity].body.pos is Some {
        s.insert(entity, Record { body: Body { pos: Some(pos), ..s[entity].body }, ..s[entity] })
    } else {
        s
    }
}

/// The scene in which `entity`, if it has a look, looks as `appearance` says.
pub open spec fn with_appearance(s: Scene, entity: Entity, appearance: Appearance) -> Scene {
    if s.dom().contains(entity) && s[entity].body.appearance is Some {
        s.insert(
            entity,
            Record { body: Body { appearance: Some(appearance), ..s[entity].body }, ..s[entity] },
        )
    } else {
        s
    }
}

/// The scene in which `entity`, if it has health, has the health `health`.
pub open spec fn with_health(s: Scene, entity: Entity, health: Health) -> Scene {
    if s.dom().contains(entity) && s[entity].stats.health is Some {
        s.insert(
            entity,
            Record { stats: Stats { health: Some(health), ..s[entity].stats }, ..s[entity] },
        )
    } else {
        s
    }
}

/// The scene in which `entity`, if it has a memory, has the memory `memory`.
pub open spec fn with_memory(s: Scene, entity: Entity, memory: MonsterMemory) -> Scene {
    if s.dom().contains(entity) && s[entity].mind.memory is Some {
        s.insert(
            entity,
            Record { mind: Mind { memory: Some(memory), ..s[entity].mind }, ..s[entity] },
        )
    } else {
        s
    }
}

/// `==` on `hecs::Entity`: two handles are equal when they name the same
/// entity.
#[verifier::external_body]
pub(crate) fn same_entity(a: Entity, b: Entity) -> (same: bool)
    ensures
        same == (a == b),
{
    a == b
}

/// `hecs::World::iter`: every entity of the world, each once, in no stated
/// order. The world is left as it was.
#[verifier::external_body]
pub(crate) fn entities(world: &mut World) -> (all: Vec<Entity>)
    ensures
        contents(*final(world)) == contents(*old(world)),
        all@.no_duplicates(),
        forall|e: Entity| all@.contains(e) <==> contents(*old(world)).dom().contains(e),
{
    world.flush();
    world.iter().map(|found| found.entity()).collect()
}

/// `hecs::World::query_one_mut`, asked for each component of a `Body`: `None`
/// for an entity that the world does not hold, else what the entity has of
/// them. The world is left as it was.
#[verifier::external_body]
pub(crate) fn body_of(world: &mut World, entity: Entity) -> (found: Option<Body>)
    ensures
        contents(*final(world)) == contents(*old(world)),
        found == (if contents(*old(world)).dom().contains(entity) {
            Some(contents(*old(world))[entity].body)
        } else {
            None
        }),
{
    world.flush();
    match world.query_one_mut::<(Option<&Pos>, Option<&Appearance>, Option<&Bump>,
        Option<&BlocksSight>, Option<&Player>, Option<&PlayerMemory>, Option<&OnLevel>)>(entity) {
        Ok((pos, appearance, bump, wall, player, memory, level)) => Some(Body {
            pos: pos.copied(),
            appearance: appearance.copied(),
            bump: bump.copied(),
            blocks_sight: wall.is_some(),
            player: player.is_some(),
            player_memory: memory.is_some(),
            on_level: level.is_some(),
        }),
        Err(_) => None,
    }
}

/// `hecs::World::query_one_mut`, asked for each component of a `Stats`: `None`
/// for an entity that the world does not hold, else what the entity has of
/// them. The world is left as it was.
#[verifier::external_body]
pub(crate) fn stats_of(world: &mut World, entity: Entity) -> (found: Option<Stats>)
    ensures
        contents(*final(world)) == contents(*old(world)),
        found == (if contents(*old(world)).dom().contains(entity) {
            Some(contents(*old(world))[entity].stats)
        } else {
            None
        }),
{
    world.flush();
    match world.query_one_mut::<(Option<&Health>, Option<&Weapon>, Option<&Defense>,
        Option<&Equipment>)>(entity) {
        Ok((health, weapon, defense, equipment)) => Some(Stats {
            health: health.copied(),
            weapon: weapon.copied(),
            defense: defense.copied(),
            equipment: equipment.copied(),
        }),
        Err(_) => None,
    }
}

/// `hecs::World::query_one_mut`, asked for each component of a `Mind`: `None`
/// for an entity that the world does not hold, else what the entity has of
/// them. The world is left as it was.
#[verifier::external_body]
pub(crate) fn mind_of(world: &mut World, entity: Entity) -> (found: Option<Mind>)
    ensures
        contents(*final(world)) == contents(*old(world)),
        found == (if contents(*old(world)).dom().contains(entity) {
            Some(contents(*old(world))[entity].mind)
        } else {
            None
        }),
{
    world.flush();
    match world.query_one_mut::<(Option<&Behavior>, Option<&MonsterMemory>)>(entity) {
        Ok((behavior, memory)) => Some(Mind { behavior: behavior.copied(), memory: memory.copied() }),
        Err(_) => None,
    }
}

/// `hecs::World::query_one_mut` for `&mut Pos`, then an assignment: the place
/// of an entity that has one is replaced, and nothing else changes.
#[verifier::external_body]
pub(crate) fn put_pos(world: &mut World, entity: Entity, pos: Pos)
    ensures
        contents(*final(world)) == with_pos(contents(*old(world)), entity, pos),
{
    world.flush();
    if let Ok(place) = world.query_one_mut::<&mut Pos>(entity) {
        *place = pos;
    }
}

/// `hecs::World::query_one_mut` for `&mut Appearance`, then an assignment:
/// the look of an entity that has one is replaced, and nothing else changes.
#[verifier::external_body]
pub(crate) fn put_appearance(world: &mut World, entity: Entity, appearance: Appearance)
    ensures
        contents(*final(world)) == with_appearance(contents(*old(world)), entity, appearance),
{
    world.flush();
    if let Ok(look) = world.query_one_mut::<&mut Appearance>(entity) {
        *look = appearance;
    }
}

/// `hecs::World::query_one_mut` for `&mut Health`, then an assignment: the
/// health of an entity that has one is replaced, and nothing else changes.
#[verifier::external_body]
pub(crate) fn put_health(world: &mut World, entity: Entity, health: Health)
    ensures
        contents(*final(world)) == with_health(contents(*old(world)), entity, health),
{
    world.flush();
    if let Ok(points) = world.query_one_mut::<&mut Health>(entity) {
        *points = health;
    }
}

/// `hecs::World::query_one_mut` for `&mut MonsterMemory`, then an assignment:
/// the memory of an entity that has one is replaced, and nothing else changes.
#[verifier::external_body]
pub(crate) fn put_memory(world: &mut World, entity: Entity, memory: MonsterMemory)
    ensures
        contents(*final(world)) == with_memory(contents(*old(world)), entity, memory),
{
    world.flush();
    if let Ok(kept) = world.query_one_mut::<&mut MonsterMemory>(entity) {
        *kept = memory;
    }
}

/// `hecs::World::query_one_mut`, asked for each component of a `Goods`:
/// `None` for an entity that the world does not hold, else what the entity
/// has of them. The world is left as it was.
#[verifier::external_body]
pub(crate) fn goods_of(world: &mut World, entity: Entity) -> (found: Option<Goods>)
    ensures
        contents(*final(world)) == contents(*old(world)),
        found == (if contents(*old(world)).dom().contains(entity) {
            Some(contents(*old(world))[entity].goods)
        } else {
            None
        }),
{
    world.flush();
    match world.query_one_mut::<(Option<&Item>, Option<&Equipable>, Option<&Useable>)>(entity) {
        Ok((item, equipable, useable)) => Some(Goods {
            item: item.is_some(),
            equipable: equipable.copied(),
            useable: useable.copied(),
        }),
        Err(_) => None,
    }
}

/// `hecs::World::query_one_mut` for `&mut Equipment`, then an assignment:
/// the equipment of an entity that has one is replaced, and nothing else
/// changes.
#[verifier::external_body]
pub(crate) fn put_equipment(world: &mut World, entity: Entity, equipment: Equipment)
    ensures
        contents(*final(world)) == (if contents(*old(world)).dom().contains(entity) && contents(
            *old(world),
        )[entity].stats.equipment is Some {
            contents(*old(world)).insert(
                entity,
                Record {
                    stats: Stats {
                        equipment: Some(equipment),
                        ..contents(*old(world))[entity].stats
                    },
                    ..contents(*old(world))[entity]
                },
            )
        } else {
            contents(*old(world))
        }),
{
    world.flush();
    if let Ok(worn) = world.query_one_mut::<&mut Equipment>(entity) {
        *worn = equipment;
    }
}

/// `hecs::World::remove_one` for `Bump`: an entity of the world is left
/// without a bump, and nothing else changes.
#[verifier::external_body]
pub(crate) fn take_bump(world: &mut World, entity: Entity)
    ensures
        contents(*final(world)) == edited(
            contents(*old(world)),
            entity,
            Record {
                body: Body { bump: None, ..contents(*old(world))[entity].body },
                ..contents(*old(world))[entity]
            },
        ),
{
    world.remove_one::<Bump>(entity).ok();
}

/// `hecs::World::remove_one` for `BlocksSight`: an entity of the world is
/// left without the mark, and nothing else changes.
#[verifier::external_body]
pub(crate) fn take_blocks_sight(world: &mut World, entity: Entity)
    ensures
        contents(*final(world)) == edited(
            contents(*old(world)),
            entity,
            Record {
                body: Body { blocks_sight: false, ..contents(*old(world))[entity].body },
                ..contents(*old(world))[entity]
            },
        ),
{
    world.remove_one::<BlocksSight>(entity).ok();
}

/// `hecs::World::remove_one` for `Pos`: an entity of the world is left
/// without a place, and nothing else changes.
#[verifier::external_body]
pub(crate) fn take_pos(world: &mut World, entity: Entity)
    ensures
        contents(*final(world)) == edited(
            contents(*old(world)),
            entity,
            Record {
                body: Body { pos: None, ..contents(*old(world))[entity].body },
                ..contents(*old(world))[entity]
            },
        ),
{
    world.remove_one::<Pos>(entity).ok();
}

/// `hecs::World::remove_one` for `OnLevel`: an entity of the world is left
/// without the mark, and nothing else changes.
#[verifier::external_body]
pub(crate) fn take_on_level(world: &mut World, entity: Entity)
    ensures
        contents(*final(world)) == edited(
            contents(*old(world)),
            entity,
            Record {
                body: Body { on_level: false, ..contents(*old(world))[entity].body },
                ..contents(*old(world))[entity]
            },
        ),
{
    world.remove_one::<OnLevel>(entity).ok();
}

/// `hecs::World::insert_one` with a `Pos`: an entity of the world gets the
/// place, in place of the one it had if it had one, and nothing else
/// changes.
#[verifier::external_body]
pub(crate) fn give_pos(world: &mut World, entity: Entity, pos: Pos)
    ensures
        contents(*final(world)) == edited(
            contents(*old(world)),
            entity,
            Record {
                body: Body { pos: Some(pos), ..contents(*old(world))[entity].body },
                ..contents(*old(world))[entity]
            },
        ),
{
    world.insert_one(entity, pos).ok();
}

/// `hecs::World::insert_one` with `OnLevel`: an entity of the world gets
/// the mark, and nothing else changes.
#[verifier::external_body]
pub(crate) fn give_on_level(world: &mut World, entity: Entity)
    ensures
        contents(*final(world)) == edited(
            contents(*old(world)),
            entity,
            Record {
                body: Body { on_level: true, ..contents(*old(world))[entity].body },
                ..contents(*old(world))[entity]
            },
        ),
{
    world.insert_one(entity, OnLevel).ok();
}

/// `hecs::World::despawn`: the entity leaves the world with all it has; the
/// others stay as they are. An entity that the world does not hold changes
/// nothing.
#[verifier::external_body]
pub(crate) fn despawn(world: &mut World, entity: Entity)
    ensures
        contents(*final(world)) == contents(*old(world)).remove(entity),
{
    world.despawn(entity).ok();
}

/// `hecs::World::spawn` with the four components of a remembered image: a new
/// entity, which the world did not hold, joins it; the others stay as they
/// are. `hecs` numbers its entities in 32 bits, which is more than a machine
/// holds of them.
#[verifier::external_body]
pub(crate) fn spawn_memory(world: &mut World, pos: Pos, appearance: Appearance) -> (made: Entity)
    ensures
        !contents(*old(world)).dom().contains(made),
        contents(*final(world)) == contents(*old(world)).insert(
            made,
            memory_record(pos, appearance),
        ),
{
    world.spawn((PlayerMemory, pos, appearance, OnLevel))
}

/// The place of an entity, if the world holds it and it has one.
pub open spec fn place_of(s: Scene, entity: Entity) -> Option<Pos> {
    if s.dom().contains(entity) {
        s[entity].body.pos
    } else {
        None
    }
}

/// The place of an entity, if the world holds it and it has one.
pub fn position(world: &mut World, entity: Entity) -> (found: Option<Pos>)
    ensures
        contents(*final(world)) == contents(*old(world)),
        found == place_of(contents(*old(world)), entity),
{
    match body_of(world, entity) {
        Some(body) => body.pos,
        None => None,
    }
}

/// Whether `list` names every entity of `s` once, each with its body.
pub open spec fn lists_bodies(list: Seq<(Entity, Body)>, s: Scene) -> bool {
    &&& forall|i: int|
        0 <= i < list.len() ==> s.dom().contains(#[trigger] list[i].0) && list[i].1
            == s[list[i].0].body
    &&& forall|i: int, j: int|
        0 <= i < j < list.len() ==> (#[trigger] list[i]).0 != (#[trigger] list[j]).0
    &&& forall|e: Entity|
        s.dom().contains(e) ==> exists|i: int| 0 <= i < list.len() && (#[trigger] list[i]).0 == e
}

/// Every entity of the world with its body, each once, in no stated order.
pub fn bodies(world: &mut World) -> (list: Vec<(Entity, Body)>)
    ensures
        contents(*final(world)) == contents(*old(world)),
        lists_bodies(list@, contents(*old(world))),
{
    let all = entities(world);
    let mut list: Vec<(Entity, Body)> = Vec::new();
    let mut i: usize = 0;
    while i < all.len()
        invariant
            i <= all.len(),
            list.len() == i,
            contents(*world) == contents(*old(world)),
            all@.no_duplicates(),
            forall|e: Entity| all@.contains(e) <==> contents(*old(world)).dom().contains(e),
            forall|k: int|
                0 <= k < i ==> (#[trigger] list@[k]).0 == all@[k] && list@[k].1 == contents(
                    *old(world),
                )[all@[k]].body,
        decreases all.len() - i,
    {
        let entity = all[i];
        assert(all@.contains(entity));
        match body_of(world, entity) {
            Some(body) => {
                list.push((entity, body));
            },
            None => {
                assert(false);
            },
        }
        i = i + 1;
    }
    proof {
        let s = contents(*old(world));
        assert forall|k: int| 0 <= k < list@.len() implies s.dom().contains(
            #[trigger] list@[k].0,
        ) && list@[k].1 == s[list@[k].0].body by {
            assert(all@.contains(all@[k]));
        }
        assert forall|e: Entity| s.dom().contains(e) implies exists|k: int|
            0 <= k < list@.len() && (#[trigger] list@[k]).0 == e by {
            assert(all@.contains(e));
            let k = choose|k: int| 0 <= k < all@.len() && all@[k] == e;
            assert(list@[k].0 == e);
        }
    }
    list
}

/// Whether `e` is one of the first `n` entities of `list`.
pub open spec fn listed_before(list: Seq<(Entity, Body)>, n: int, e: Entity) -> bool {
    exists|k: int| 0 <= k < n && k < list.len() && (#[trigger] list[k]).0 == e
}

/// An entity is among the first `n + 1` of a list if it is among the first
/// `n` or is the next one.
pub proof fn lemma_listed_next(list: Seq<(Entity, Body)>, n: int, e: Entity)
    requires
        0 <= n < list.len(),
    ensures
        listed_before(list, n + 1, e) <==> listed_before(list, n, e) || e == list[n].0,
{
    if listed_before(list, n + 1, e) {
        let k = choose|k: int| 0 <= k < n + 1 && k < list.len() && (#[trigger] list[k]).0 == e;
        if k < n {
            assert(listed_before(list, n, e));
        }
    }
    if listed_before(list, n, e) {
        let k = choose|k: int| 0 <= k < n && k < list.len() && (#[trigger] list[k]).0 == e;
        assert(listed_before(list, n + 1, e));
    }
    if e == list[n].0 {
        assert(listed_before(list, n + 1, e));
    }
}

} // verus!
