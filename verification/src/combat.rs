//! Attacks: who is in range, who is hit, how much it hurts, and who dies.
use crate::components::{Bump, Health, Pos};
use crate::dice::Dice;
use crate::line::{line, line_tiles, reach};
use crate::movement::{lists_bumps, movement_map};
use crate::store::{
    bodies, body_of, contents, despawn, entities, lists_bodies, place_of, position, put_health,
    stats_of, with_health, Scene,
};
use crate::tiles::{abs_diff, manhattan, manhattan_distance, TileSet};
use hecs::{Entity, World};
use vstd::prelude::*;

verus! {

/// From how far an attack reaches.
#[derive(Clone, Copy, Debug, PartialEq, Eq)]
pub enum Range {
    /// Only the four tiles next to the attacker.
    Meele,
    /// Along a free line with at most this many tiles between the two.
    Ranged(i32),
}

/// An attack profile.
#[derive(Clone, Copy, Debug, PartialEq, Eq)]
pub struct AttackData {
    pub range: Range,
    pub damage_low: i32,
    pub damage_high: i32,
    pub to_hit: i32,
    /// Whether the attack strikes everything around the attacker at once.
    pub axe: bool,
}

impl Default for AttackData {
    /// A melee attack that does one point of damage.
    fn default() -> (a: AttackData)
        ensures
            a == (AttackData {
                range: Range::Meele,
                damage_low: 1,
                damage_high: 1,
                to_hit: 0,
                axe: false,
            }),
    {
        AttackData { range: Range::Meele, damage_low: 1, damage_high: 1, to_hit: 0, axe: false }
    }
}

/// The tiles of the raster line from `a` to `b` that lie between the two.
pub open spec fn between(a: (i32, i32), b: (i32, i32)) -> Seq<(i32, i32)> {
    if line_tiles(a, b).len() > 0 {
        line_tiles(a, b).skip(1)
    } else {
        line_tiles(a, b)
    }
}

/// The tiles between `a` and `b` along the raster line, and their number.
pub fn attack_line(a: (i32, i32), b: (i32, i32)) -> (r: (Vec<(i32, i32)>, u32))
    ensures
        r.0@ == between(a, b),
        r.1 == r.0@.len(),
{
    let mut tiles = line(a, b);
    if tiles.len() > 0 {
        let ghost whole = tiles@;
        tiles.remove(0);
        assert(tiles@ =~= whole.skip(1));
    }
    let dist = tiles.len() as u32;
    (tiles, dist)
}

/// The tiles through which nothing can be thrown or shot: those on which
/// something stands that blocks movement or is a closed door.
pub open spec fn fire_blockers(s: Scene) -> Set<(i32, i32)> {
    Set::new(
        |t: (i32, i32)|
            exists|e: Entity|
                s.dom().contains(e) && ((#[trigger] s[e]).body.bump == Some(Bump::BlocksMovement)
                    || s[e].body.bump == Some(Bump::OpenDoor)) && s[e].body.pos == Some(
                    Pos { x: t.0, y: t.1 },
                ),
    )
}

/// Whether something stands between `a` and `b` that stops an attack.
pub open spec fn fire_is_blocked(s: Scene, a: (i32, i32), b: (i32, i32)) -> bool {
    exists|i: int|
        0 <= i < between(a, b).len() && fire_blockers(s).contains(#[trigger] between(a, b)[i])
}

/// The tiles through which nothing can be thrown or shot.
fn fire_block_map(world: &mut World) -> (set: TileSet)
    ensures
        contents(*final(world)) == contents(*old(world)),
        set@ == fire_blockers(contents(*old(world))),
{
    let list = bodies(world);
    let ghost s = contents(*old(world));
    let mut set = TileSet::new();
    let mut i: usize = 0;
    while i < list.len()
        invariant
            i <= list.len(),
            lists_bodies(list@, s),
            forall|t: (i32, i32)|
                set@.contains(t) <==> exists|k: int|
                    0 <= k < i && ((#[trigger] list@[k]).1.bump == Some(Bump::BlocksMovement)
                        || list@[k].1.bump == Some(Bump::OpenDoor)) && list@[k].1.pos == Some(
                        Pos { x: t.0, y: t.1 },
                    ),
        decreases list.len() - i,
    {
        let body = &list[i].1;
        let stops = match body.bump {
            Some(Bump::BlocksMovement) => true,
            Some(Bump::OpenDoor) => true,
            _ => false,
        };
        if stops {
            if let Some(pos) = body.pos {
                set.insert((pos.x, pos.y));
            }
        }
        i = i + 1;
    }
    proof {
        assert forall|t: (i32, i32)| set@.contains(t) == fire_blockers(s).contains(t) by {
            if set@.contains(t) {
                let k = choose|k: int|
                    0 <= k < list@.len() && ((#[trigger] list@[k]).1.bump == Some(
                        Bump::BlocksMovement,
                    ) || list@[k].1.bump == Some(Bump::OpenDoor)) && list@[k].1.pos == Some(
                        Pos { x: t.0, y: t.1 },
                    );
                assert(s.dom().contains(list@[k].0));
                assert(s[list@[k].0].body == list@[k].1);
            }
            if fire_blockers(s).contains(t) {
                let e = choose|e: Entity|
                    s.dom().contains(e) && ((#[trigger] s[e]).body.bump == Some(
                        Bump::BlocksMovement,
                    ) || s[e].body.bump == Some(Bump::OpenDoor)) && s[e].body.pos == Some(
                        Pos { x: t.0, y: t.1 },
                    );
                let k = choose|k: int| 0 <= k < list@.len() && (#[trigger] list@[k]).0 == e;
                assert(list@[k].1 == s[e].body);
            }
        }
        assert(set@ =~= fire_blockers(s));
    }
    set
}

/// The tiles between `a` and `b` and their number, or `None` where something
/// on one of them stops an attack.
pub fn unblocked_attack_line(world: &mut World, a: (i32, i32), b: (i32, i32)) -> (r: Option<
    (Vec<(i32, i32)>, u32),
>)
    ensures
        contents(*final(world)) == contents(*old(world)),
        r is None <==> fire_is_blocked(contents(*old(world)), a, b),
        r matches Some(line) ==> line.0@ == between(a, b) && line.1 == line.0@.len(),
{
    let (path, dist) = attack_line(a, b);
    let blockers = fire_block_map(world);
    let mut i: usize = 0;
    while i < path.len()
        invariant
            i <= path.len(),
            path@ == between(a, b),
            contents(*world) == contents(*old(world)),
            blockers@ == fire_blockers(contents(*old(world))),
            forall|k: int| 0 <= k < i ==> !blockers@.contains(#[trigger] path@[k]),
        decreases path.len() - i,
    {
        if blockers.contains(path[i]) {
            return None;
        }
        i = i + 1;
    }
    Some((path, dist))
}

/// Whether `target` is in range of `actor`: next to it for a melee attack;
/// for a ranged one, with at most `radius` tiles on the line between them.
/// `None` where one of the two has no place, or the line of a ranged attack
/// is blocked.
pub open spec fn within_range(range: Range, s: Scene, actor: Entity, target: Entity) -> Option<
    bool,
> {
    match (place_of(s, actor), place_of(s, target)) {
        (Some(a), Some(b)) => match range {
            Range::Meele => Some(manhattan(a.tile(), b.tile()) == 1),
            Range::Ranged(radius) => if fire_is_blocked(s, a.tile(), b.tile()) {
                None
            } else {
                Some(between(a.tile(), b.tile()).len() <= radius)
            },
        },
        _ => None,
    }
}

impl Range {
    /// Whether `target` is in range of `actor`.
    pub fn in_range(&self, world: &mut World, actor: Entity, target: Entity) -> (r: Option<bool>)
        ensures
            contents(*final(world)) == contents(*old(world)),
            r == within_range(*self, contents(*old(world)), actor, target),
    {
        let actor_pos = position(world, actor);
        let target_pos = position(world, target);
        match (actor_pos, target_pos) {
            (Some(a), Some(b)) => match self {
                Range::Meele => Some(manhattan_distance((a.x, a.y), (b.x, b.y)) == 1),
                Range::Ranged(radius) => {
                    match unblocked_attack_line(world, (a.x, a.y), (b.x, b.y)) {
                        Some(line) => Some(line.1 as i64 <= *radius as i64),
                        None => None,
                    }
                },
            },
            _ => None,
        }
    }
}

/// The defense of an entity as it stands: its own, or none, plus that of the
/// armor it has put on; dodging first, armor second.
pub open spec fn effective_defense(s: Scene, entity: Entity) -> (int, int) {
    let own: (int, int) = if s.dom().contains(entity) && s[entity].stats.defense is Some {
        (
            s[entity].stats.defense->0.dodging as int,
            s[entity].stats.defense->0.armor as int,
        )
    } else {
        (0, 0)
    };
    if s.dom().contains(entity) && s[entity].stats.equipment is Some
        && s[entity].stats.equipment->0.armor is Some && s.dom().contains(
        s[entity].stats.equipment->0.armor->0,
    ) && s[s[entity].stats.equipment->0.armor->0].stats.defense is Some {
        let worn = s[s[entity].stats.equipment->0.armor->0].stats.defense->0;
        (own.0 + worn.dodging, own.1 + worn.armor)
    } else {
        own
    }
}

/// The defense of an entity as it stands; dodging first, armor second.
pub fn get_defense(world: &mut World, entity: Entity) -> (d: (i64, i64))
    ensures
        contents(*final(world)) == contents(*old(world)),
        d.0 == effective_defense(contents(*old(world)), entity).0,
        d.1 == effective_defense(contents(*old(world)), entity).1,
{
    let mut dodging: i64 = 0;
    let mut armor: i64 = 0;
    if let Some(stats) = stats_of(world, entity) {
        if let Some(own) = stats.defense {
            dodging = own.dodging as i64;
            armor = own.armor as i64;
        }
        if let Some(equipment) = stats.equipment {
            if let Some(item) = equipment.armor {
                if let Some(item_stats) = stats_of(world, item) {
                    if let Some(worn) = item_stats.defense {
                        dodging = dodging + worn.dodging as i64;
                        armor = armor + worn.armor as i64;
                    }
                }
            }
        }
    }
    (dodging, armor)
}

/// The attack of an entity as it stands: that of the weapon it wields, else
/// its own, else none.
pub open spec fn resolved_attack(s: Scene, entity: Entity) -> Option<AttackData> {
    if s.dom().contains(entity) && s[entity].stats.equipment is Some
        && s[entity].stats.equipment->0.weapon is Some && s.dom().contains(
        s[entity].stats.equipment->0.weapon->0,
    ) && s[s[entity].stats.equipment->0.weapon->0].stats.weapon is Some {
        Some(s[s[entity].stats.equipment->0.weapon->0].stats.weapon->0.attack)
    } else if s.dom().contains(entity) && s[entity].stats.weapon is Some {
        Some(s[entity].stats.weapon->0.attack)
    } else {
        None
    }
}

/// The attack of an entity as it stands.
pub fn get_attack(world: &mut World, entity: Entity) -> (a: Option<AttackData>)
    ensures
        contents(*final(world)) == contents(*old(world)),
        a == resolved_attack(contents(*old(world)), entity),
{
    if let Some(stats) = stats_of(world, entity) {
        if let Some(equipment) = stats.equipment {
            if let Some(item) = equipment.weapon {
                if let Some(item_stats) = stats_of(world, item) {
                    if let Some(weapon) = item_stats.weapon {
                        return Some(weapon.attack);
                    }
                }
            }
        }
        if let Some(weapon) = stats.weapon {
            return Some(weapon.attack);
        }
    }
    None
}

/// Whether an attack with the modifier `to_hit` hits a target that dodges
/// with `dodging`, on the roll `roll` of a twenty-sided die counted from zero.
pub open spec fn hits(to_hit: int, dodging: int, roll: int) -> bool {
    roll + to_hit > dodging + 10
}

/// Whether an attack hits.
pub fn is_hit(to_hit: i32, dodging: i64, roll: u64) -> (hit: bool)
    ensures
        hit == hits(to_hit as int, dodging as int, roll as int),
{
    roll as i128 + to_hit as i128 > dodging as i128 + 10
}

/// The number of whole values from `low` to `high`, both counted; an
/// interval whose upper end lies below its lower end holds the lower end only.
pub open spec fn sides(low: int, high: int) -> int {
    if high >= low {
        high - low + 1
    } else {
        1
    }
}

/// The number of whole values from `low` to `high`.
fn count_sides(low: i64, high: i64) -> (n: u64)
    requires
        -0x2_0000_0000 <= low <= 0x2_0000_0000,
        -0x2_0000_0000 <= high <= 0x2_0000_0000,
    ensures
        n == sides(low as int, high as int),
        0 < n <= crate::dice::MAX_SIDES,
{
    if high >= low {
        (high - low + 1) as u64
    } else {
        1
    }
}

/// The damage that is left of the raw damage `raw` once armor has taken
/// `reduction` off: never less than nothing.
pub open spec fn damage_dealt(raw: int, reduction: int) -> int {
    if raw - reduction > 0 {
        raw - reduction
    } else {
        0
    }
}

/// The damage that is left of a raw damage once armor has reduced it.
pub fn applied_damage(raw: i32, reduction: u32) -> (damage: i32)
    ensures
        damage == damage_dealt(raw as int, reduction as int),
{
    let left: i64 = raw as i64 - reduction as i64;
    if left > 0 {
        left as i32
    } else {
        0
    }
}

/// The health that is left of `current` after `damage`; it stops at the
/// lowest value that the counter holds.
pub open spec fn lowered(current: int, damage: int) -> i32 {
    if current - damage < i32::MIN {
        i32::MIN
    } else if current - damage > i32::MAX {
        i32::MAX
    } else {
        (current - damage) as i32
    }
}

/// The damage of an attack on a target with the defense `guard` (dodging
/// first, armor second), given the numbers drawn for it: the roll to hit, then
/// the reduction by armor, then what is added to the lowest damage. `None` for
/// a miss, for which only the first number is drawn.
pub open spec fn blow(attack: AttackData, guard: (int, int), draws: Seq<int>) -> Option<int> {
    if hits(attack.to_hit as int, guard.0, draws[0]) {
        Some(damage_dealt(attack.damage_low + draws[2], draws[1]))
    } else {
        None
    }
}

/// Whether `draws` are numbers that the dice can give for one attack: a roll
/// below twenty and, on a hit, a reduction not above the armor and an
/// addition that stays within the damage interval.
pub open spec fn draws_fit(attack: AttackData, guard: (int, int), draws: Seq<int>) -> bool {
    &&& draws.len() >= 1
    &&& 0 <= draws[0] < 20
    &&& if hits(attack.to_hit as int, guard.0, draws[0]) {
        &&& draws.len() == 3
        &&& 0 <= draws[1] < sides(0, guard.1)
        &&& 0 <= draws[2] < sides(attack.damage_low as int, attack.damage_high as int)
    } else {
        draws.len() == 1
    }
}

/// The scene after `target`, if it has health, has taken `damage`.
pub open spec fn hurt(s: Scene, target: Entity, damage: int) -> Scene {
    if s.dom().contains(target) && s[target].stats.health is Some {
        let health = s[target].stats.health->0;
        with_health(
            s,
            target,
            Health { max: health.max, current: lowered(health.current as int, damage) },
        )
    } else {
        s
    }
}

/// Whether the sweep removes `entity`: it has health, none of it is left, and
/// it is no player.
pub open spec fn doomed(s: Scene, entity: Entity) -> bool {
    s.dom().contains(entity) && s[entity].stats.health is Some && s[entity].stats.health->0.current
        <= 0 && !s[entity].body.player
}

/// The scene without its dead.
pub open spec fn swept(s: Scene) -> Scene {
    Map::new(|e: Entity| s.dom().contains(e) && !doomed(s, e), |e: Entity| s[e])
}

/// Whether `e` is one of the first `n` of `all`.
spec fn among(all: Seq<Entity>, n: int, e: Entity) -> bool {
    exists|k: int| 0 <= k < n && k < all.len() && #[trigger] all[k] == e
}

/// Removes every entity that has no health left, but never a player.
pub fn remove_dead_entities(world: &mut World)
    ensures
        contents(*final(world)) == swept(contents(*old(world))),
{
    let all = entities(world);
    let ghost s = contents(*old(world));
    let mut i: usize = 0;
    while i < all.len()
        invariant
            i <= all.len(),
            all@.no_duplicates(),
            forall|e: Entity| all@.contains(e) <==> s.dom().contains(e),
            forall|e: Entity|
                #[trigger] contents(*world).dom().contains(e) <==> s.dom().contains(e) && !(doomed(
                    s,
                    e,
                ) && among(all@, i as int, e)),
            forall|e: Entity|
                contents(*world).dom().contains(e) ==> #[trigger] contents(*world)[e] == s[e],
        decreases all.len() - i,
    {
        let entity = all[i];
        let ghost now = contents(*world);
        assert(all@.contains(entity));
        assert(!among(all@, i as int, entity)) by {
            if among(all@, i as int, entity) {
                let k = choose|k: int| 0 <= k < i && k < all@.len() && #[trigger] all@[k] == entity;
                assert(all@[k] == all@[i as int]);
            }
        }
        assert(now.dom().contains(entity));
        let stats = stats_of(world, entity);
        let body = body_of(world, entity);
        let dead = match (stats, body) {
            (Some(stats), Some(body)) => match stats.health {
                Some(health) => health.current <= 0 && !body.player,
                None => false,
            },
            _ => false,
        };
        assert(now[entity] == s[entity]);
        assert(dead == doomed(s, entity));
        if dead {
            despawn(world, entity);
        }
        proof {
            assert forall|e: Entity|
                #[trigger] contents(*world).dom().contains(e) <==> s.dom().contains(e) && !(doomed(
                    s,
                    e,
                ) && among(all@, i + 1, e)) by {
                assert(now.dom().contains(e) <==> s.dom().contains(e) && !(doomed(s, e) && among(
                    all@,
                    i as int,
                    e,
                )));
                if e == entity {
                    assert(all@[i as int] == e);
                    assert(among(all@, i + 1, e));
                } else {
                    if among(all@, i + 1, e) {
                        let k = choose|k: int|
                            0 <= k < i + 1 && k < all@.len() && #[trigger] all@[k] == e;
                        assert(k < i);
                        assert(among(all@, i as int, e));
                    }
                    if among(all@, i as int, e) {
                        let k = choose|k: int|
                            0 <= k < i && k < all@.len() && #[trigger] all@[k] == e;
                        assert(among(all@, i + 1, e));
                    }
                }
            }
            assert forall|e: Entity| contents(*world).dom().contains(e) implies #[trigger] contents(
                *world,
            )[e] == s[e] by {
                assert(now.dom().contains(e));
            }
        }
        i = i + 1;
    }
    proof {
        assert forall|e: Entity| contents(*world).dom().contains(e) <==> swept(s).dom().contains(
            e,
        ) by {
            if s.dom().contains(e) && doomed(s, e) {
                assert(all@.contains(e));
                let k = choose|k: int| 0 <= k < all@.len() && all@[k] == e;
                assert(among(all@, i as int, e));
            }
            if among(all@, i as int, e) {
            }
        }
        assert(contents(*world) =~= swept(s));
    }
}

/// What an attack did, for whoever shows it: a notice on the target's tile
/// and a line from the attacker's tile to it.
#[derive(Clone, Copy, Debug, PartialEq, Eq)]
pub struct AttackReport {
    /// Whether the attack hit.
    pub hit: bool,
    /// The damage done; zero on a miss.
    pub damage: i32,
    /// The tile of the attacker.
    pub origin: (i32, i32),
    /// The tile of the target.
    pub tile: (i32, i32),
    /// Whether the target is a player.
    pub on_player: bool,
}

/// The report of an attack for which `draws` were drawn.
pub open spec fn report_of(
    s: Scene,
    attacker: Entity,
    target: Entity,
    attack: AttackData,
    draws: Seq<int>,
) -> AttackReport {
    let outcome = blow(attack, effective_defense(s, target), draws);
    AttackReport {
        hit: outcome is Some,
        damage: match outcome {
            Some(damage) => damage as i32,
            None => 0,
        },
        origin: place_of(s, attacker)->0.tile(),
        tile: place_of(s, target)->0.tile(),
        on_player: s.dom().contains(target) && s[target].body.player,
    }
}

/// The scene after an attack on `target` for which `draws` were drawn: the
/// target has taken the damage of a hit, and the dead are gone.
pub open spec fn aftermath(s: Scene, target: Entity, attack: AttackData, draws: Seq<int>) -> Scene {
    match blow(attack, effective_defense(s, target), draws) {
        Some(damage) => swept(hurt(s, target, damage)),
        None => swept(s),
    }
}

/// One attack of `attacker` on `target`. A twenty-sided die decides whether
/// it hits: it does if the roll and the attack's modifier together exceed
/// the target's dodging by more than ten. On a hit, a reduction up to the
/// target's armor and a raw damage from the attack's interval are drawn; what
/// is left of the damage, if anything, is taken from the target's health.
/// Then the dead are removed, but for players.
pub fn attack(
    world: &mut World,
    attacker: Entity,
    target: Entity,
    profile: AttackData,
    dice: &mut Dice,
) -> (report: AttackReport)
    requires
        place_of(contents(*old(world)), attacker) is Some,
        place_of(contents(*old(world)), target) is Some,
    ensures
        crate::dice::extends(old(dice).drawn(), final(dice).drawn()),
        draws_fit(
            profile,
            effective_defense(contents(*old(world)), target),
            crate::dice::since(old(dice).drawn(), final(dice).drawn()),
        ),
        report == report_of(
            contents(*old(world)),
            attacker,
            target,
            profile,
            crate::dice::since(old(dice).drawn(), final(dice).drawn()),
        ),
        contents(*final(world)) == aftermath(
            contents(*old(world)),
            target,
            profile,
            crate::dice::since(old(dice).drawn(), final(dice).drawn()),
        ),
{
    let ghost s = contents(*old(world));
    let ghost before = dice.drawn();
    let guard = get_defense(world, target);
    let roll = dice.roll(20);
    let hit = is_hit(profile.to_hit, guard.0, roll);
    let target_pos = position(world, target);
    let attacker_pos = position(world, attacker);
    let on_player = match body_of(world, target) {
        Some(body) => body.player,
        None => false,
    };
    let mut damage: i32 = 0;
    if hit {
        let armor_roll = dice.roll(count_sides(0, guard.1));
        let raw_roll = dice.roll(count_sides(profile.damage_low as i64, profile.damage_high as i64));
        let raw: i32 = (profile.damage_low as i64 + raw_roll as i64) as i32;
        damage = applied_damage(raw, armor_roll as u32);
        if let Some(stats) = stats_of(world, target) {
            if let Some(health) = stats.health {
                let left: i64 = health.current as i64 - damage as i64;
                let current: i32 = if left < i32::MIN as i64 {
                    i32::MIN
                } else {
                    left as i32
                };
                put_health(world, target, Health { max: health.max, current });
            }
        }
        proof {
            let draws = crate::dice::since(before, dice.drawn());
            assert(draws =~= seq![roll as int, armor_roll as int, raw_roll as int]);
            assert(dice.drawn().take(before.len() as int) =~= before);
        }
    } else {
        proof {
            let draws = crate::dice::since(before, dice.drawn());
            assert(draws =~= seq![roll as int]);
            assert(dice.drawn().take(before.len() as int) =~= before);
        }
    }
    remove_dead_entities(world);
    AttackReport {
        hit,
        damage,
        origin: match attacker_pos {
            Some(p) => (p.x, p.y),
            None => (0, 0),
        },
        tile: match target_pos {
            Some(p) => (p.x, p.y),
            None => (0, 0),
        },
        on_player,
    }
}

/// A melee attack reaches its target exactly when both have a place and
/// the two places are one cardinal step apart: not on the same tile, and not
/// two steps away.
pub proof fn melee_reaches_neighbours_only(s: Scene, actor: Entity, target: Entity)
    ensures
        within_range(Range::Meele, s, actor, target) == Some(true) <==> place_of(s, actor) is Some
            && place_of(s, target) is Some && manhattan(
            place_of(s, actor)->0.tile(),
            place_of(s, target)->0.tile(),
        ) == 1,
{
}

/// A ranged attack never reaches past something that stops it, however
/// near the target is.
pub proof fn blocked_line_is_out_of_range(s: Scene, actor: Entity, target: Entity, radius: i32)
    requires
        place_of(s, actor) is Some,
        place_of(s, target) is Some,
        fire_is_blocked(s, place_of(s, actor)->0.tile(), place_of(s, target)->0.tile()),
    ensures
        within_range(Range::Ranged(radius), s, actor, target) != Some(true),
{
}

/// An attack whose modifier exceeds the target's dodging by more than ten
/// hits on every roll; one with a modifier of a hundred against a dodging of
/// minus a hundred does.
pub proof fn sure_hit(attack: AttackData, guard: (int, int), draws: Seq<int>)
    requires
        0 <= draws[0],
        attack.to_hit > guard.0 + 10,
    ensures
        blow(attack, guard, draws) is Some,
{
}

/// The damage of a hit is never negative, and against no armor it is the
/// raw damage that was rolled, or nothing if that is negative.
pub proof fn damage_of_a_hit(attack: AttackData, guard: (int, int), draws: Seq<int>)
    requires
        draws_fit(attack, guard, draws),
        blow(attack, guard, draws) is Some,
    ensures
        blow(attack, guard, draws)->0 >= 0,
        guard.1 == 0 ==> blow(attack, guard, draws)->0 == damage_dealt(
            attack.damage_low + draws[2],
            0,
        ),
        attack.damage_low <= attack.damage_high ==> attack.damage_low <= attack.damage_low
            + draws[2] <= attack.damage_high,
{
}

/// After the sweep nothing is left in the world that has no health, but for
/// the players, who all stay as they are.
pub proof fn sweep_spares_players_only(s: Scene)
    ensures
        forall|e: Entity|
            #[trigger] swept(s).dom().contains(e) && swept(s)[e].stats.health is Some && swept(
                s,
            )[e].stats.health->0.current <= 0 ==> swept(s)[e].body.player,
        forall|e: Entity|
            s.dom().contains(e) && s[e].body.player ==> #[trigger] swept(s).dom().contains(e)
                && swept(s)[e] == s[e],
{
}

/// After an attack nothing is left in the world that has no health, but for
/// the players, who all stay in it.
pub proof fn attack_spares_players_only(
    s: Scene,
    target: Entity,
    attack: AttackData,
    draws: Seq<int>,
)
    ensures
        forall|e: Entity|
            #[trigger] aftermath(s, target, attack, draws).dom().contains(e) && aftermath(
                s,
                target,
                attack,
                draws,
            )[e].stats.health is Some && aftermath(s, target, attack, draws)[e].stats.health->0.current
                <= 0 ==> aftermath(s, target, attack, draws)[e].body.player,
        forall|e: Entity|
            s.dom().contains(e) && s[e].body.player ==> #[trigger] aftermath(
                s,
                target,
                attack,
                draws,
            ).dom().contains(e),
{
    match blow(attack, effective_defense(s, target), draws) {
        Some(damage) => {
            let h = hurt(s, target, damage);
            sweep_spares_players_only(h);
            assert forall|e: Entity| s.dom().contains(e) && s[e].body.player implies #[trigger] swept(
                h,
            ).dom().contains(e) by {
                assert(h.dom().contains(e) && h[e].body.player);
            }
        },
        None => {
            sweep_spares_players_only(s);
        },
    }
}

/// Whether a sweeping attack made from the tile `from` strikes `e`: it can
/// be attacked and stands on one of the eight tiles around.
pub open spec fn cleaves(s: Scene, from: (i32, i32), e: Entity) -> bool {
    s.dom().contains(e) && s[e].body.bump == Some(Bump::Attack) && s[e].body.pos is Some && reach(
        from,
        s[e].body.pos->0.tile(),
    ) == 1
}

/// Whether `targets` are those that an attack of `attacker` with `profile`
/// on `target` strikes: `target` alone, or for a sweeping attack every
/// entity around the attacker that can be attacked, each once.
pub open spec fn struck(
    s: Scene,
    attacker: Entity,
    target: Entity,
    profile: AttackData,
    targets: Seq<Entity>,
) -> bool {
    if profile.axe {
        &&& targets.no_duplicates()
        &&& forall|e: Entity|
            targets.contains(e) <==> place_of(s, attacker) is Some && cleaves(
                s,
                place_of(s, attacker)->0.tile(),
                e,
            )
    } else {
        targets == seq![target]
    }
}

/// How many numbers one attack draws: three on a hit, one on a miss.
pub open spec fn draws_of(profile: AttackData, guard: (int, int), draws: Seq<int>) -> nat {
    if blow(profile, guard, draws) is Some {
        3
    } else {
        1
    }
}

/// What the attacks of `attacker` on `targets`, from the one at `from` on
/// and each made as `attack` makes it, come to: the scene after them, their
/// reports, and how many of `draws` they use. A target is passed over if it
/// or the attacker has no place when its turn comes.
pub open spec fn volley(
    s: Scene,
    attacker: Entity,
    targets: Seq<Entity>,
    from: nat,
    profile: AttackData,
    draws: Seq<int>,
) -> (Scene, Seq<AttackReport>, nat)
    decreases targets.len() - from,
{
    if from >= targets.len() {
        (s, Seq::empty(), 0)
    } else {
        let target = targets[from as int];
        if place_of(s, attacker) is Some && place_of(s, target) is Some {
            let used = draws_of(profile, effective_defense(s, target), draws);
            let rest = volley(
                aftermath(s, target, profile, draws),
                attacker,
                targets,
                from + 1,
                profile,
                draws.skip(used as int),
            );
            (rest.0, seq![report_of(s, attacker, target, profile, draws)] + rest.1, used + rest.2)
        } else {
            volley(s, attacker, targets, from + 1, profile, draws)
        }
    }
}

/// What came before, followed by what a volley comes to.
spec fn joined(
    reports: Seq<AttackReport>,
    used: nat,
    rest: (Scene, Seq<AttackReport>, nat),
) -> (Scene, Seq<AttackReport>, nat) {
    (rest.0, reports + rest.1, used + rest.2)
}

/// One attack of a volley: after the target at `i` has been attacked on the
/// draws between `mid` and `now`, the volley from the start on everything
/// drawn since `before` is what was reported so far followed by the volley
/// from `i + 1` on.
proof fn lemma_volley_step(
    s: Scene,
    cur: Scene,
    attacker: Entity,
    targets: Seq<Entity>,
    i: nat,
    profile: AttackData,
    before: Seq<int>,
    mid: Seq<int>,
    now: Seq<int>,
    reports: Seq<AttackReport>,
)
    requires
        i < targets.len(),
        place_of(cur, attacker) is Some,
        place_of(cur, targets[i as int]) is Some,
        crate::dice::extends(before, mid),
        crate::dice::extends(mid, now),
        draws_fit(
            profile,
            effective_defense(cur, targets[i as int]),
            crate::dice::since(mid, now),
        ),
        forall|later: Seq<int>| #[trigger]
            volley(s, attacker, targets, 0, profile, crate::dice::since(before, mid) + later)
                == joined(
                reports,
                crate::dice::since(before, mid).len(),
                volley(cur, attacker, targets, i, profile, later),
            ),
    ensures
        crate::dice::extends(before, now),
        forall|later: Seq<int>| #[trigger]
            volley(s, attacker, targets, 0, profile, crate::dice::since(before, now) + later)
                == joined(
                reports.push(
                    report_of(
                        cur,
                        attacker,
                        targets[i as int],
                        profile,
                        crate::dice::since(mid, now),
                    ),
                ),
                crate::dice::since(before, now).len(),
                volley(
                    aftermath(cur, targets[i as int], profile, crate::dice::since(mid, now)),
                    attacker,
                    targets,
                    i + 1,
                    profile,
                    later,
                ),
            ),
{
    let first = crate::dice::since(before, mid);
    let second = crate::dice::since(mid, now);
    let target = targets[i as int];
    let guard = effective_defense(cur, target);
    assert forall|k: int| 0 <= k < before.len() implies now[k] == before[k] by {
        assert(now.take(mid.len() as int)[k] == now[k]);
        assert(mid.take(before.len() as int)[k] == mid[k]);
    }
    assert(now.take(before.len() as int) =~= before);
    assert forall|k: int| 0 <= k < mid.len() implies now[k] == mid[k] by {
        assert(now.take(mid.len() as int)[k] == now[k]);
    }
    assert(crate::dice::since(before, now) =~= first + second);
    assert forall|later: Seq<int>| #[trigger]
        volley(s, attacker, targets, 0, profile, crate::dice::since(before, now) + later)
            == joined(
            reports.push(report_of(cur, attacker, target, profile, second)),
            crate::dice::since(before, now).len(),
            volley(aftermath(cur, target, profile, second), attacker, targets, i + 1, profile, later),
        ) by {
        let tail = second + later;
        assert(crate::dice::since(before, now) + later =~= first + tail);
        assert(tail[0] == second[0]);
        assert(blow(profile, guard, tail) == blow(profile, guard, second)) by {
            if hits(profile.to_hit as int, guard.0, second[0]) {
                assert(tail[1] == second[1]);
                assert(tail[2] == second[2]);
            }
        }
        assert(tail.skip(second.len() as int) =~= later);
        let rest = volley(
            aftermath(cur, target, profile, second),
            attacker,
            targets,
            i + 1,
            profile,
            later,
        );
        assert(volley(cur, attacker, targets, i, profile, tail) == (
            rest.0,
            seq![report_of(cur, attacker, target, profile, second)] + rest.1,
            second.len() + rest.2,
        ));
        assert(reports + (seq![report_of(cur, attacker, target, profile, second)] + rest.1)
            =~= reports.push(report_of(cur, attacker, target, profile, second)) + rest.1);
    }
}

/// Attacks each of `targets` in turn, as `attack` does.
fn strike_all(
    world: &mut World,
    attacker: Entity,
    targets: &Vec<Entity>,
    profile: AttackData,
    dice: &mut Dice,
) -> (reports: Vec<AttackReport>)
    ensures
        crate::dice::extends(old(dice).drawn(), final(dice).drawn()),
        volley(
            contents(*old(world)),
            attacker,
            targets@,
            0,
            profile,
            crate::dice::since(old(dice).drawn(), final(dice).drawn()),
        ) == (
            contents(*final(world)),
            reports@,
            crate::dice::since(old(dice).drawn(), final(dice).drawn()).len(),
        ),
{
    let ghost s = contents(*world);
    let ghost before = dice.drawn();
    let mut reports: Vec<AttackReport> = Vec::new();
    let mut i: usize = 0;
    proof {
        assert(crate::dice::since(before, before) =~= Seq::<int>::empty());
        assert(before.take(before.len() as int) =~= before);
        assert forall|later: Seq<int>| #[trigger]
            volley(s, attacker, targets@, 0, profile, crate::dice::since(before, before) + later)
                == joined(reports@, 0, volley(s, attacker, targets@, 0, profile, later)) by {
            assert(crate::dice::since(before, before) + later =~= later);
            let v = volley(s, attacker, targets@, 0, profile, later);
            assert(reports@ + v.1 =~= v.1);
        }
    }
    while i < targets.len()
        invariant
            i <= targets.len(),
            before == old(dice).drawn(),
            crate::dice::extends(before, dice.drawn()),
            forall|later: Seq<int>| #[trigger]
                volley(
                    s,
                    attacker,
                    targets@,
                    0,
                    profile,
                    crate::dice::since(before, dice.drawn()) + later,
                ) == joined(
                    reports@,
                    crate::dice::since(before, dice.drawn()).len(),
                    volley(contents(*world), attacker, targets@, i as nat, profile, later),
                ),
        decreases targets.len() - i,
    {
        let target = targets[i];
        let ghost cur = contents(*world);
        let ghost mid = dice.drawn();
        let here = position(world, attacker);
        let there = position(world, target);
        if here.is_some() && there.is_some() {
            let report = attack(world, attacker, target, profile, dice);
            proof {
                lemma_volley_step(
                    s,
                    cur,
                    attacker,
                    targets@,
                    i as nat,
                    profile,
                    before,
                    mid,
                    dice.drawn(),
                    reports@,
                );
            }
            reports.push(report);
        } else {
            proof {
                assert forall|later: Seq<int>|
                    volley(cur, attacker, targets@, i as nat, profile, later) == #[trigger] volley(
                        cur,
                        attacker,
                        targets@,
                        (i + 1) as nat,
                        profile,
                        later,
                    ) by {}
            }
        }
        i = i + 1;
    }
    proof {
        let drawn = crate::dice::since(before, dice.drawn());
        assert(drawn + Seq::<int>::empty() =~= drawn);
        let v = volley(contents(*world), attacker, targets@, i as nat, profile, Seq::<int>::empty());
        assert(reports@ + v.1 =~= reports@);
    }
    reports
}

/// The entities that a sweeping attack of `attacker` strikes.
fn cleave_targets(world: &mut World, attacker: Entity) -> (targets: Vec<Entity>)
    ensures
        contents(*final(world)) == contents(*old(world)),
        targets@.no_duplicates(),
        forall|e: Entity|
            targets@.contains(e) <==> place_of(contents(*old(world)), attacker) is Some && cleaves(
                contents(*old(world)),
                place_of(contents(*old(world)), attacker)->0.tile(),
                e,
            ),
{
    let ghost s = contents(*world);
    let mut targets: Vec<Entity> = Vec::new();
    let origin = match position(world, attacker) {
        Some(place) => (place.x, place.y),
        None => {
            assert forall|e: Entity| !targets@.contains(e) by {}
            return targets;
        },
    };
    let list = movement_map(world);
    let ghost mut from: Seq<int> = Seq::empty();
    let mut i: usize = 0;
    while i < list.len()
        invariant
            i <= list.len(),
            lists_bumps(list@, s),
            from.len() == targets.len(),
            forall|j: int| 0 <= j < from.len() ==> 0 <= #[trigger] from[j] < i,
            forall|j: int, l: int| 0 <= j < l < from.len() ==> from[j] < from[l],
            forall|j: int|
                0 <= j < targets.len() ==> #[trigger] targets@[j] == list@[from[j]].1.0 && cleaves(
                    s,
                    origin,
                    targets@[j],
                ),
            forall|k: int|
                0 <= k < i && cleaves(s, origin, (#[trigger] list@[k]).1.0) ==> exists|j: int|
                    0 <= j < targets.len() && #[trigger] from[j] == k,
        decreases list.len() - i,
    {
        let tile = list[i].0;
        let entity = list[i].1.0;
        let around = {
            let dx = abs_diff(origin.0, tile.0);
            let dy = abs_diff(origin.1, tile.1);
            (dx == 1 && dy <= 1) || (dy == 1 && dx <= 1)
        };
        let attackable = match list[i].1.1 {
            Bump::Attack => true,
            _ => false,
        };
        proof {
            assert(s.dom().contains(list@[i as int].1.0));
            assert(around == (reach(origin, tile) == 1));
        }
        if around && attackable {
            targets.push(entity);
            proof {
                let ghost earlier = from;
                from = from.push(i as int);
                assert forall|k: int|
                    0 <= k < i + 1 && cleaves(s, origin, (#[trigger] list@[k]).1.0) implies exists|
                    j: int,
                | 0 <= j < targets.len() && #[trigger] from[j] == k by {
                    if k < i {
                        let j = choose|j: int| 0 <= j < earlier.len() && #[trigger] earlier[j] == k;
                        assert(from[j] == k);
                    } else {
                        assert(from[from.len() - 1] == k);
                    }
                }
            }
        }
        i = i + 1;
    }
    proof {
        assert forall|j: int, l: int| 0 <= j < l < targets@.len() implies targets@[j]
            != targets@[l] by {
            assert(from[j] < from[l]);
            assert(list@[from[j]].1.0 != list@[from[l]].1.0);
        }
        assert forall|e: Entity| targets@.contains(e) <==> cleaves(s, origin, e) by {
            if targets@.contains(e) {
                let j = choose|j: int| 0 <= j < targets@.len() && targets@[j] == e;
                assert(cleaves(s, origin, targets@[j]));
            }
            if cleaves(s, origin, e) {
                let k = choose|k: int| 0 <= k < list@.len() && (#[trigger] list@[k]).1.0 == e;
                let j = choose|j: int| 0 <= j < targets.len() && #[trigger] from[j] == k;
                assert(targets@[j] == e);
            }
        }
    }
    targets
}

/// The attack of `attacker` with `profile`: on `target`, or for a sweeping
/// attack on every entity around the attacker that can be attacked, one
/// after the other in no stated order. Each attack is made as `attack`
/// makes it, and is left out if the attacker or the one attacked has no
/// place.
pub fn resolve_attack(
    world: &mut World,
    attacker: Entity,
    target: Entity,
    profile: AttackData,
    dice: &mut Dice,
) -> (reports: Vec<AttackReport>)
    ensures
        crate::dice::extends(old(dice).drawn(), final(dice).drawn()),
        exists|targets: Seq<Entity>|
            struck(contents(*old(world)), attacker, target, profile, targets) && #[trigger] volley(
                contents(*old(world)),
                attacker,
                targets,
                0,
                profile,
                crate::dice::since(old(dice).drawn(), final(dice).drawn()),
            ) == (
                contents(*final(world)),
                reports@,
                crate::dice::since(old(dice).drawn(), final(dice).drawn()).len(),
            ),
{
    let targets = if profile.axe {
        cleave_targets(world, attacker)
    } else {
        let mut one: Vec<Entity> = Vec::new();
        one.push(target);
        assert(one@ =~= seq![target]);
        one
    };
    strike_all(world, attacker, &targets, profile, dice)
}

} // verus!
