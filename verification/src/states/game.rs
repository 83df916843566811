//! What the player can do on a turn, and what each of it does to the world.
use crate::combat::{
    get_attack, resolve_attack, resolved_attack, struck, volley, AttackReport,
};
use crate::components::{Appearance, Bump, Equipable, Equipment, Health, Pos, Useable};
use crate::dice::{extends, extends_is_transitive, since, Dice};
use crate::movement::{lists_bumps, movement_map, Dir};
use crate::resources::Resources;
use crate::store::{
    body_of, contents, edited, give_on_level, give_pos, goods_of, place_of, position,
    put_appearance, put_equipment, put_health, put_pos, same_entity, stats_of, take_blocks_sight,
    take_bump, take_on_level, take_pos, with_health, with_pos, Body, Record, Scene, Stats,
};
use hecs::{Entity, World};
use vstd::prelude::*;

verus! {

/// What the player asks for.
#[derive(Copy, Clone, Debug, PartialEq, Eq)]
pub enum PlayerAction {
    /// Step in a direction, or bump into what stands there.
    TryWalk(Dir),
    PickUpItem(Entity),
    DropItem(Entity),
    EquipItem(Entity),
    UseItem(Entity),
    /// Let the turn pass.
    Wait,
}

/// The list without every occurrence of `e`.
pub open spec fn without(list: Seq<Entity>, e: Entity) -> Seq<Entity>
    decreases list.len(),
{
    if list.len() == 0 {
        list
    } else if list.last() == e {
        without(list.drop_last(), e)
    } else {
        without(list.drop_last(), e).push(list.last())
    }
}

/// Takes every occurrence of `e` out of the list.
pub fn remove_all(list: &mut Vec<Entity>, e: Entity)
    ensures
        final(list)@ == without(old(list)@, e),
{
    let mut kept: Vec<Entity> = Vec::new();
    let mut i: usize = 0;
    assert(list@.take(0) =~= Seq::<Entity>::empty());
    while i < list.len()
        invariant
            i <= list.len(),
            *list == *old(list),
            kept@ == without(list@.take(i as int), e),
        decreases list.len() - i,
    {
        let held = list[i];
        proof {
            let next = list@.take(i + 1);
            assert(next.drop_last() =~= list@.take(i as int));
            assert(next.last() == held);
        }
        if !same_entity(held, e) {
            kept.push(held);
        }
        i = i + 1;
    }
    assert(list@.take(list@.len() as int) =~= list@);
    *list = kept;
}

/// The scene after `item` has been picked up: it has no place and is not
/// on the level.
pub open spec fn lifted(s: Scene, item: Entity) -> Scene {
    edited(
        s,
        item,
        Record { body: Body { pos: None, on_level: false, ..s[item].body }, ..s[item] },
    )
}

/// The scene after `item` has been put down at `at`.
pub open spec fn laid(s: Scene, item: Entity, at: Pos) -> Scene {
    edited(
        s,
        item,
        Record { body: Body { pos: Some(at), on_level: true, ..s[item].body }, ..s[item] },
    )
}

/// Picks `item` up: it leaves the level and joins what the player carries.
pub fn pick_up(world: &mut World, resources: &mut Resources, item: Entity)
    ensures
        contents(*final(world)) == lifted(contents(*old(world)), item),
        final(resources).player.inventory@ == old(resources).player.inventory@.push(item),
        final(resources).fov_set == old(resources).fov_set,
        final(resources).new_level_request == old(resources).new_level_request,
        final(resources).level == old(resources).level,
{
    let ghost s = contents(*world);
    take_pos(world, item);
    take_on_level(world, item);
    resources.player.inventory.push(item);
    assert(contents(*world) =~= lifted(s, item));
}

/// Puts `item` down at `at`: it joins the level and leaves what the
/// player carries.
pub fn drop_item(world: &mut World, resources: &mut Resources, item: Entity, at: Pos)
    ensures
        contents(*final(world)) == laid(contents(*old(world)), item, at),
        final(resources).player.inventory@ == without(old(resources).player.inventory@, item),
        final(resources).fov_set == old(resources).fov_set,
        final(resources).new_level_request == old(resources).new_level_request,
        final(resources).level == old(resources).level,
{
    let ghost s = contents(*world);
    give_pos(world, item, at);
    give_on_level(world, item);
    remove_all(&mut resources.player.inventory, item);
    assert(contents(*world) =~= laid(s, item, at));
}

/// As what `item` can be put on by `hero`: nothing, unless the world holds
/// both, the item can be put on, and the hero has equipment.
pub open spec fn fits(s: Scene, hero: Entity, item: Entity) -> Option<Equipable> {
    if s.dom().contains(item) && s.dom().contains(hero) && s[hero].stats.equipment is Some {
        s[item].goods.equipable
    } else {
        None
    }
}

/// The equipment after `item` has been put on as `kind`.
pub open spec fn wearing(worn: Equipment, kind: Equipable, item: Entity) -> Equipment {
    match kind {
        Equipable::Armor => Equipment { armor: Some(item), ..worn },
        Equipable::Weapon => Equipment { weapon: Some(item), ..worn },
    }
}

/// What `item` takes the place of when it is put on as `kind`.
pub open spec fn displaced(worn: Equipment, kind: Equipable) -> Option<Entity> {
    match kind {
        Equipable::Armor => worn.armor,
        Equipable::Weapon => worn.weapon,
    }
}

/// The scene after `hero` has put `item` on, if it fits.
pub open spec fn equipped(s: Scene, hero: Entity, item: Entity) -> Scene {
    match fits(s, hero, item) {
        Some(kind) => s.insert(
            hero,
            Record {
                stats: Stats {
                    equipment: Some(wearing(s[hero].stats.equipment->0, kind, item)),
                    ..s[hero].stats
                },
                ..s[hero]
            },
        ),
        None => s,
    }
}

/// What the player carries after `hero` has put `item` on, if it fits:
/// what it took the place of is carried, and the item no longer is.
pub open spec fn carried_after_equipping(
    s: Scene,
    carried: Seq<Entity>,
    hero: Entity,
    item: Entity,
) -> Seq<Entity> {
    match fits(s, hero, item) {
        Some(kind) => match displaced(s[hero].stats.equipment->0, kind) {
            Some(previous) => without(carried.push(previous), item),
            None => without(carried, item),
        },
        None => carried,
    }
}

/// Puts `item` on `hero` if it fits.
pub fn equip_item(world: &mut World, resources: &mut Resources, hero: Entity, item: Entity)
    ensures
        contents(*final(world)) == equipped(contents(*old(world)), hero, item),
        final(resources).player.inventory@ == carried_after_equipping(
            contents(*old(world)),
            old(resources).player.inventory@,
            hero,
            item,
        ),
        final(resources).fov_set == old(resources).fov_set,
        final(resources).new_level_request == old(resources).new_level_request,
        final(resources).level == old(resources).level,
{
    let kind = match goods_of(world, item) {
        Some(goods) => goods.equipable,
        None => None,
    };
    if let Some(kind) = kind {
        if let Some(stats) = stats_of(world, hero) {
            if let Some(worn) = stats.equipment {
                let (previous, now) = match kind {
                    Equipable::Armor => (
                        worn.armor,
                        Equipment { weapon: worn.weapon, armor: Some(item) },
                    ),
                    Equipable::Weapon => (
                        worn.weapon,
                        Equipment { weapon: Some(item), armor: worn.armor },
                    ),
                };
                if let Some(previous) = previous {
                    resources.player.inventory.push(previous);
                }
                put_equipment(world, hero, now);
                remove_all(&mut resources.player.inventory, item);
            }
        }
    }
}

/// Whether `hero` can be healed by `item`: the world holds the item, it
/// heals, and the hero has health.
pub open spec fn heals(s: Scene, hero: Entity, item: Entity) -> bool {
    s.dom().contains(item) && s[item].goods.useable == Some(Useable::Heal) && s.dom().contains(hero)
        && s[hero].stats.health is Some
}

/// The scene after `item` has been used on `hero`: full health, if it
/// heals.
pub open spec fn used(s: Scene, hero: Entity, item: Entity) -> Scene {
    if heals(s, hero, item) {
        let health = s[hero].stats.health->0;
        with_health(s, hero, Health { max: health.max, current: health.max })
    } else {
        s
    }
}

/// What the player carries after `item` has been used: no longer the item,
/// if it is of use.
pub open spec fn carried_after_using(s: Scene, carried: Seq<Entity>, item: Entity) -> Seq<Entity> {
    if s.dom().contains(item) && s[item].goods.useable is Some {
        without(carried, item)
    } else {
        carried
    }
}

/// Uses `item` on `hero`; says whether it did anything to the hero.
pub fn use_item(world: &mut World, resources: &mut Resources, hero: Entity, item: Entity) -> (done:
    bool)
    ensures
        done == heals(contents(*old(world)), hero, item),
        contents(*final(world)) == used(contents(*old(world)), hero, item),
        final(resources).player.inventory@ == carried_after_using(
            contents(*old(world)),
            old(resources).player.inventory@,
            item,
        ),
        final(resources).fov_set == old(resources).fov_set,
        final(resources).new_level_request == old(resources).new_level_request,
        final(resources).level == old(resources).level,
{
    let useable = match goods_of(world, item) {
        Some(goods) => goods.useable,
        None => None,
    };
    let mut done = false;
    if let Some(useable) = useable {
        match useable {
            Useable::Heal => {
                if let Some(stats) = stats_of(world, hero) {
                    if let Some(health) = stats.health {
                        put_health(world, hero, Health { max: health.max, current: health.max });
                        done = true;
                    }
                }
            },
        }
        remove_all(&mut resources.player.inventory, item);
    }
    done
}

/// The tile one step from `place` in a direction, if the grid has one.
pub open spec fn step_from(place: Pos, dir: Dir) -> Option<(i32, i32)> {
    let to: (int, int) = match dir {
        Dir::N => (place.x as int, place.y - 1),
        Dir::W => (place.x - 1, place.y as int),
        Dir::S => (place.x as int, place.y + 1),
        Dir::E => (place.x + 1, place.y as int),
    };
    if i32::MIN <= to.0 <= i32::MAX && i32::MIN <= to.1 <= i32::MAX {
        Some((to.0 as i32, to.1 as i32))
    } else {
        None
    }
}

/// Whether `e` stands on `tile` and can be bumped into.
pub open spec fn bumps_at(s: Scene, tile: (i32, i32), e: Entity) -> bool {
    s.dom().contains(e) && s[e].body.pos == Some(Pos { x: tile.0, y: tile.1 }) && s[e].body.bump
        is Some
}

/// The scene after the door `e` has been opened: it no longer stops
/// anything or blocks sight, and shows as open.
pub open spec fn opened(s: Scene, e: Entity) -> Scene {
    edited(
        s,
        e,
        Record {
            body: Body {
                bump: None,
                blocks_sight: false,
                appearance: match s[e].body.appearance {
                    Some(look) => Some(Appearance { sprite: 7, ..look }),
                    None => None,
                },
                ..s[e].body
            },
            ..s[e]
        },
    )
}

/// What a step of the player came to.
pub struct WalkReport {
    /// Whether the step used up the turn.
    pub taken: bool,
    /// What the player bumped into, if anything.
    pub bumped: Option<Entity>,
    /// The attacks that the step made.
    pub reports: Vec<AttackReport>,
}

/// Whether nothing happened.
pub open spec fn nothing_done(
    s: Scene,
    request: bool,
    draws: Seq<int>,
    after: Scene,
    request_after: bool,
    taken: bool,
    reports: Seq<AttackReport>,
) -> bool {
    after == s && request_after == request && !taken && reports.len() == 0 && draws.len() == 0
}

/// Whether bumping into `e` comes to what follows: a closed door opens, and
/// the turn is used; something that can be attacked is attacked with the
/// attack of `hero`, if it has one, and the turn is used; stairs ask for a
/// new level; anything else stays as it is.
pub open spec fn bumped_into(
    s: Scene,
    request: bool,
    hero: Entity,
    e: Entity,
    draws: Seq<int>,
    after: Scene,
    request_after: bool,
    taken: bool,
    reports: Seq<AttackReport>,
) -> bool {
    match s[e].body.bump {
        Some(Bump::OpenDoor) => after == opened(s, e) && request_after == request && taken
            && reports.len() == 0 && draws.len() == 0,
        Some(Bump::Attack) => match resolved_attack(s, hero) {
            Some(profile) => request_after == request && taken && exists|targets: Seq<Entity>|
                struck(s, hero, e, profile, targets) && #[trigger] volley(
                    s,
                    hero,
                    targets,
                    0,
                    profile,
                    draws,
                ) == (after, reports, draws.len()),
            None => nothing_done(s, request, draws, after, request_after, taken, reports),
        },
        Some(Bump::NextLevel) => after == s && request_after && !taken && reports.len() == 0
            && draws.len() == 0,
        _ => nothing_done(s, request, draws, after, request_after, taken, reports),
    }
}

/// Whether a step of `hero` in a direction comes to what follows: onto the
/// next tile, if nothing there can be bumped into, which uses the turn;
/// else into `bumped`, which stands there. A hero without a place, or at
/// the edge of the grid, stays where it is.
pub open spec fn walked(
    s: Scene,
    request: bool,
    hero: Entity,
    dir: Dir,
    draws: Seq<int>,
    bumped: Option<Entity>,
    after: Scene,
    request_after: bool,
    taken: bool,
    reports: Seq<AttackReport>,
) -> bool {
    match place_of(s, hero) {
        Some(place) => match step_from(place, dir) {
            Some(to) => match bumped {
                Some(e) => bumps_at(s, to, e) && bumped_into(
                    s,
                    request,
                    hero,
                    e,
                    draws,
                    after,
                    request_after,
                    taken,
                    reports,
                ),
                None => (forall|e: Entity| !bumps_at(s, to, e)) && after == with_pos(
                    s,
                    hero,
                    Pos { x: to.0, y: to.1 },
                ) && request_after == request && taken && reports.len() == 0 && draws.len() == 0,
            },
            None => bumped is None && nothing_done(
                s,
                request,
                draws,
                after,
                request_after,
                taken,
                reports,
            ),
        },
        None => bumped is None && nothing_done(
            s,
            request,
            draws,
            after,
            request_after,
            taken,
            reports,
        ),
    }
}

/// The tile one step from `place` in a direction, if the grid has one.
fn step(place: Pos, dir: Dir) -> (to: Option<(i32, i32)>)
    ensures
        to == step_from(place, dir),
{
    let (dx, dy) = dir.components();
    let x: i64 = place.x as i64 + dx as i64;
    let y: i64 = place.y as i64 + dy as i64;
    if x >= i32::MIN as i64 && x <= i32::MAX as i64 && y >= i32::MIN as i64 && y <= i32::MAX as i64 {
        Some((x as i32, y as i32))
    } else {
        None
    }
}

/// Something that stands on `tile` and can be bumped into, if anything
/// does.
fn bumper_at(world: &mut World, tile: (i32, i32)) -> (found: Option<(Entity, Bump)>)
    ensures
        contents(*final(world)) == contents(*old(world)),
        found is None ==> forall|e: Entity| !bumps_at(contents(*old(world)), tile, e),
        found matches Some(hit) ==> bumps_at(contents(*old(world)), tile, hit.0) && contents(
            *old(world),
        )[hit.0].body.bump == Some(hit.1),
{
    let list = movement_map(world);
    let ghost s = contents(*world);
    let mut i: usize = 0;
    while i < list.len()
        invariant
            i <= list.len(),
            lists_bumps(list@, s),
            s == contents(*old(world)),
            contents(*world) == s,
            forall|k: int| 0 <= k < i ==> (#[trigger] list@[k]).0 != tile,
        decreases list.len() - i,
    {
        let entry = list[i];
        if entry.0.0 == tile.0 && entry.0.1 == tile.1 {
            assert(s.dom().contains(list@[i as int].1.0));
            return Some(entry.1);
        }
        i = i + 1;
    }
    proof {
        assert forall|e: Entity| !bumps_at(s, tile, e) by {
            if bumps_at(s, tile, e) {
                let k = choose|k: int| 0 <= k < list@.len() && (#[trigger] list@[k]).1.0 == e;
                assert(s[list@[k].1.0].body.pos == Some(Pos { x: list@[k].0.0, y: list@[k].0.1 }));
            }
        }
    }
    None
}

/// One step of `hero` in a direction.
pub fn walk(world: &mut World, resources: &mut Resources, hero: Entity, dir: Dir, dice: &mut Dice) -> (r:
    WalkReport)
    ensures
        extends(old(dice).drawn(), final(dice).drawn()),
        walked(
            contents(*old(world)),
            old(resources).new_level_request,
            hero,
            dir,
            since(old(dice).drawn(), final(dice).drawn()),
            r.bumped,
            contents(*final(world)),
            final(resources).new_level_request,
            r.taken,
            r.reports@,
        ),
        final(resources).player == old(resources).player,
        final(resources).fov_set == old(resources).fov_set,
        final(resources).level == old(resources).level,
{
    let ghost s = contents(*world);
    let ghost before = dice.drawn();
    proof {
        assert(since(before, before) =~= Seq::<int>::empty());
        assert(before.take(before.len() as int) =~= before);
    }
    let place = match position(world, hero) {
        Some(place) => place,
        None => {
            return WalkReport { taken: false, bumped: None, reports: Vec::new() };
        },
    };
    let to = match step(place, dir) {
        Some(to) => to,
        None => {
            return WalkReport { taken: false, bumped: None, reports: Vec::new() };
        },
    };
    match bumper_at(world, to) {
        None => {
            put_pos(world, hero, Pos { x: to.0, y: to.1 });
            WalkReport { taken: true, bumped: None, reports: Vec::new() }
        },
        Some((e, bump)) => {
            match bump {
                Bump::OpenDoor => {
                    let look = match body_of(world, e) {
                        Some(body) => body.appearance,
                        None => None,
                    };
                    take_bump(world, e);
                    take_blocks_sight(world, e);
                    if let Some(look) = look {
                        put_appearance(
                            world,
                            e,
                            Appearance {
                                sprite: 7,
                                color: look.color,
                                layer: look.layer,
                                ignore_overlap: look.ignore_overlap,
                                in_fov: look.in_fov,
                            },
                        );
                    }
                    assert(contents(*world) =~= opened(s, e));
                    WalkReport { taken: true, bumped: Some(e), reports: Vec::new() }
                },
                Bump::Attack => {
                    match get_attack(world, hero) {
                        Some(profile) => {
                            let reports = resolve_attack(world, hero, e, profile, dice);
                            WalkReport { taken: true, bumped: Some(e), reports }
                        },
                        None => WalkReport { taken: false, bumped: Some(e), reports: Vec::new() },
                    }
                },
                Bump::NextLevel => {
                    resources.new_level_request = true;
                    WalkReport { taken: false, bumped: Some(e), reports: Vec::new() }
                },
                Bump::BlocksMovement => WalkReport {
                    taken: false,
                    bumped: Some(e),
                    reports: Vec::new(),
                },
            }
        },
    }
}

/// The state of a turn of the player as it goes on: the scene, what the
/// player carries, whether a new level is asked for, what the dice have
/// given so far, whether the turn is used up, and the attacks made.
pub struct Table {
    pub scene: Scene,
    pub carried: Seq<Entity>,
    pub request: bool,
    pub drawn: Seq<int>,
    pub taken: bool,
    pub reports: Seq<AttackReport>,
}

/// Whether doing `action` takes the turn from `t1` to `t2`. `start` is where
/// the player stood when the turn began, which is where things are put
/// down. Waiting, picking up, putting down and putting on use the turn;
/// using an item does if it does anything; a step does as `walked` says.
pub open spec fn acted(t1: Table, hero: Entity, start: Pos, action: PlayerAction, t2: Table) -> bool {
    &&& extends(t1.drawn, t2.drawn)
    &&& match action {
        PlayerAction::Wait => t2 == (Table { taken: true, ..t1 }),
        PlayerAction::TryWalk(dir) => t2.carried == t1.carried && exists|
            bumped: Option<Entity>,
            taken: bool,
            reports: Seq<AttackReport>,
        |
            #[trigger] walked(
                t1.scene,
                t1.request,
                hero,
                dir,
                since(t1.drawn, t2.drawn),
                bumped,
                t2.scene,
                t2.request,
                taken,
                reports,
            ) && t2.taken == (t1.taken || taken) && t2.reports == t1.reports + reports,
        PlayerAction::PickUpItem(item) => t2 == (Table {
            scene: lifted(t1.scene, item),
            carried: t1.carried.push(item),
            taken: true,
            ..t1
        }),
        PlayerAction::DropItem(item) => t2 == (Table {
            scene: laid(t1.scene, item, start),
            carried: without(t1.carried, item),
            taken: true,
            ..t1
        }),
        PlayerAction::EquipItem(item) => t2 == (Table {
            scene: equipped(t1.scene, hero, item),
            carried: carried_after_equipping(t1.scene, t1.carried, hero, item),
            taken: true,
            ..t1
        }),
        PlayerAction::UseItem(item) => t2 == (Table {
            scene: used(t1.scene, hero, item),
            carried: carried_after_using(t1.scene, t1.carried, item),
            taken: t1.taken || heals(t1.scene, hero, item),
            ..t1
        }),
    }
}

/// Whether `trace` is the course of a turn in which `actions` are done one
/// after the other.
pub open spec fn follows(
    trace: Seq<Table>,
    hero: Entity,
    start: Pos,
    actions: Seq<PlayerAction>,
) -> bool {
    &&& trace.len() == actions.len() + 1
    &&& forall|i: int|
        0 <= i < actions.len() ==> acted(trace[i], hero, start, #[trigger] actions[i], trace[i + 1])
}

/// What a turn of the player came to.
pub struct PlayReport {
    /// Whether the turn is used up, so that the creatures may move.
    pub taken: bool,
    /// The attacks that were made.
    pub reports: Vec<AttackReport>,
}

/// Does what the player asks for, one action after the other, with `hero`
/// for the player and `start` for the place where things are put down.
pub fn player_actions_of(
    world: &mut World,
    resources: &mut Resources,
    hero: Entity,
    start: Pos,
    actions: Vec<PlayerAction>,
    dice: &mut Dice,
) -> (r: PlayReport)
    ensures
        final(resources).fov_set == old(resources).fov_set,
        final(resources).level == old(resources).level,
        extends(old(dice).drawn(), final(dice).drawn()),
        exists|trace: Seq<Table>|
            #[trigger] follows(trace, hero, start, actions@) && trace[0] == (Table {
                scene: contents(*old(world)),
                carried: old(resources).player.inventory@,
                request: old(resources).new_level_request,
                drawn: old(dice).drawn(),
                taken: false,
                reports: Seq::<AttackReport>::empty(),
            }) && trace[actions@.len() as int] == (Table {
                scene: contents(*final(world)),
                carried: final(resources).player.inventory@,
                request: final(resources).new_level_request,
                drawn: final(dice).drawn(),
                taken: r.taken,
                reports: r.reports@,
            }),
{
    let mut taken = false;
    let mut reports: Vec<AttackReport> = Vec::new();
    let ghost first = Table {
        scene: contents(*world),
        carried: resources.player.inventory@,
        request: resources.new_level_request,
        drawn: dice.drawn(),
        taken: false,
        reports: Seq::<AttackReport>::empty(),
    };
    let ghost mut trace: Seq<Table> = seq![first];
    let mut i: usize = 0;
    proof {
        assert(dice.drawn().take(dice.drawn().len() as int) =~= dice.drawn());
    }
    while i < actions.len()
        invariant
            i <= actions.len(),
            resources.fov_set == old(resources).fov_set,
            resources.level == old(resources).level,
            extends(old(dice).drawn(), dice.drawn()),
            trace.len() == i + 1,
            trace[0] == first,
            trace[i as int] == (Table {
                scene: contents(*world),
                carried: resources.player.inventory@,
                request: resources.new_level_request,
                drawn: dice.drawn(),
                taken,
                reports: reports@,
            }),
            forall|k: int|
                0 <= k < i ==> acted(trace[k], hero, start, #[trigger] actions@[k], trace[k + 1]),
        decreases actions.len() - i,
    {
        let ghost now = trace[i as int];
        let ghost before = dice.drawn();
        proof {
            assert(before.take(before.len() as int) =~= before);
        }
        match actions[i] {
            PlayerAction::Wait => {
                taken = true;
                proof {
                    assert(acted(now, hero, start, PlayerAction::Wait, Table { taken: true, ..now }));
                }
            },
            PlayerAction::TryWalk(dir) => {
                let ghost old_taken = taken;
                let mut step = walk(world, resources, hero, dir, dice);
                let ghost step_reports = step.reports@;
                let ghost step_taken = step.taken;
                let ghost bumped = step.bumped;
                if step.taken {
                    taken = true;
                }
                reports.append(&mut step.reports);
                proof {
                    assert(reports@ =~= now.reports + step_reports);
                    let next = Table {
                        scene: contents(*world),
                        carried: resources.player.inventory@,
                        request: resources.new_level_request,
                        drawn: dice.drawn(),
                        taken,
                        reports: reports@,
                    };
                    assert(walked(
                        now.scene,
                        now.request,
                        hero,
                        dir,
                        since(now.drawn, next.drawn),
                        bumped,
                        next.scene,
                        next.request,
                        step_taken,
                        step_reports,
                    ));
                    assert(next.taken == (now.taken || step_taken));
                    assert(acted(now, hero, start, PlayerAction::TryWalk(dir), next));
                }
            },
            PlayerAction::PickUpItem(item) => {
                pick_up(world, resources, item);
                taken = true;
            },
            PlayerAction::DropItem(item) => {
                drop_item(world, resources, item, start);
                taken = true;
            },
            PlayerAction::EquipItem(item) => {
                equip_item(world, resources, hero, item);
                taken = true;
            },
            PlayerAction::UseItem(item) => {
                if use_item(world, resources, hero, item) {
                    taken = true;
                }
            },
        }
        proof {
            let next = Table {
                scene: contents(*world),
                carried: resources.player.inventory@,
                request: resources.new_level_request,
                drawn: dice.drawn(),
                taken,
                reports: reports@,
            };
            let ghost earlier = trace;
            trace = trace.push(next);
            assert(acted(now, hero, start, actions@[i as int], next));
            assert forall|k: int| 0 <= k < i + 1 implies acted(
                trace[k],
                hero,
                start,
                #[trigger] actions@[k],
                trace[k + 1],
            ) by {
                if k < i {
                    assert(trace[k] == earlier[k]);
                    assert(trace[k + 1] == earlier[k + 1]);
                }
            }
            extends_is_transitive(old(dice).drawn(), before, dice.drawn());
        }
        i = i + 1;
    }
    proof {
        assert(follows(trace, hero, start, actions@));
    }
    PlayReport { taken, reports }
}

/// Whether every player of the scene has a place.
pub open spec fn players_are_placed(s: Scene) -> bool {
    forall|e: Entity| s.dom().contains(e) && (#[trigger] s[e]).body.player ==> s[e].body.pos is Some
}

/// Does what the player asks for, one action after the other: see
/// `player_actions_of`. Things are put down where the player stands when
/// the turn begins.
pub fn player_actions(
    world: &mut World,
    resources: &mut Resources,
    actions: Vec<PlayerAction>,
    dice: &mut Dice,
) -> (r: PlayReport)
    requires
        crate::has_player(contents(*old(world))),
        players_are_placed(contents(*old(world))),
    ensures
        final(resources).fov_set == old(resources).fov_set,
        final(resources).level == old(resources).level,
        extends(old(dice).drawn(), final(dice).drawn()),
        exists|hero: Entity, trace: Seq<Table>|
            contents(*old(world)).dom().contains(hero) && contents(*old(world))[hero].body.player
                && #[trigger] follows(
                trace,
                hero,
                contents(*old(world))[hero].body.pos->0,
                actions@,
            ) && trace[0] == (Table {
                scene: contents(*old(world)),
                carried: old(resources).player.inventory@,
                request: old(resources).new_level_request,
                drawn: old(dice).drawn(),
                taken: false,
                reports: Seq::<AttackReport>::empty(),
            }) && trace[actions@.len() as int] == (Table {
                scene: contents(*final(world)),
                carried: final(resources).player.inventory@,
                request: final(resources).new_level_request,
                drawn: final(dice).drawn(),
                taken: r.taken,
                reports: r.reports@,
            }),
{
    let hero = match crate::player(world) {
        Ok(hero) => hero,
        Err(_) => {
            assert(false);
            return PlayReport { taken: false, reports: Vec::new() };
        },
    };
    let start = match position(world, hero) {
        Some(start) => start,
        None => {
            assert(false);
            return PlayReport { taken: false, reports: Vec::new() };
        },
    };
    player_actions_of(world, resources, hero, start, actions, dice)
}

} // verus!
