//! What can be seen from a tile.
use crate::components::{Appearance, Pos};
use crate::line::{line, line_tiles, reach};
use crate::resources::Resources;
use crate::store::{
    bodies, contents, despawn, lemma_listed_next, listed_before, lists_bodies, memory_record, place_of, position, put_appearance,
    spawn_memory, with_appearance, Body, Record, Scene,
};
use crate::tiles::{gap, TileSet};
use crate::{has_player, player, DEBUG_FOV, FOV_DISTANCE};
use hecs::{Entity, World};
use vstd::prelude::*;

verus! {

/// The tiles on which something stands that cannot be seen through.
pub open spec fn sight_blockers(s: Scene) -> Set<(i32, i32)> {
    Set::new(
        |t: (i32, i32)|
            exists|e: Entity|
                s.dom().contains(e) && (#[trigger] s[e]).body.blocks_sight && s[e].body.pos == Some(
                    Pos { x: t.0, y: t.1 },
                ),
    )
}

/// Whether one of `blockers` lies on the raster line from `a` to `b`, the two
/// ends not counted.
pub open spec fn line_is_blocked(blockers: Set<(i32, i32)>, a: (i32, i32), b: (i32, i32)) -> bool {
    exists|i: int|
        0 <= i < line_tiles(a, b).len() && (#[trigger] line_tiles(a, b)[i]) != a && line_tiles(
            a,
            b,
        )[i] != b && blockers.contains(line_tiles(a, b)[i])
}

/// Whether `t` lies in the square of the given radius around `origin`.
pub open spec fn in_square(origin: (i32, i32), radius: int, t: (i32, i32)) -> bool {
    gap(t.0 as int, origin.0 as int) <= radius && gap(t.1 as int, origin.1 as int) <= radius
}

/// Whether `t` is seen from `origin`: it lies in the square around it, and
/// either everything is revealed or nothing on the line to it blocks sight.
pub open spec fn visible(
    blockers: Set<(i32, i32)>,
    origin: (i32, i32),
    radius: int,
    reveal: bool,
    t: (i32, i32),
) -> bool {
    in_square(origin, radius, t) && (reveal || !line_is_blocked(blockers, origin, t))
}

/// The tiles on which something stands that cannot be seen through.
pub fn block_map(world: &mut World) -> (set: TileSet)
    ensures
        contents(*final(world)) == contents(*old(world)),
        set@ == sight_blockers(contents(*old(world))),
{
    let list = bodies(world);
    let ghost s = contents(*old(world));
    let mut set = TileSet::new();
    let mut i: usize = 0;
    while i < list.len()
        invariant
            i <= list.len(),
            lists_bodies(list@, s),
            forall|t: (i32, i32)|
                set@.contains(t) <==> exists|k: int|
                    0 <= k < i && (#[trigger] list@[k]).1.blocks_sight && list@[k].1.pos == Some(
                        Pos { x: t.0, y: t.1 },
                    ),
        decreases list.len() - i,
    {
        let body = &list[i].1;
        if body.blocks_sight {
            if let Some(pos) = body.pos {
                set.insert((pos.x, pos.y));
            }
        }
        i = i + 1;
    }
    proof {
        assert forall|t: (i32, i32)| set@.contains(t) == sight_blockers(s).contains(t) by {
            if set@.contains(t) {
                let k = choose|k: int|
                    0 <= k < list@.len() && (#[trigger] list@[k]).1.blocks_sight && list@[k].1.pos
                        == Some(Pos { x: t.0, y: t.1 });
                assert(s.dom().contains(list@[k].0));
                assert(s[list@[k].0].body == list@[k].1);
            }
            if sight_blockers(s).contains(t) {
                let e = choose|e: Entity|
                    s.dom().contains(e) && (#[trigger] s[e]).body.blocks_sight && s[e].body.pos
                        == Some(Pos { x: t.0, y: t.1 });
                let k = choose|k: int| 0 <= k < list@.len() && (#[trigger] list@[k]).0 == e;
                assert(list@[k].1 == s[e].body);
            }
        }
        assert(set@ =~= sight_blockers(s));
    }
    set
}

/// Whether one of `blockers` lies on the raster line from `a` to `b`, the two
/// ends not counted.
pub fn line_blocked(blockers: &TileSet, a: (i32, i32), b: (i32, i32)) -> (blocked: bool)
    ensures
        blocked == line_is_blocked(blockers@, a, b),
        reach(a, b) <= 1 ==> !blocked,
{
    let tiles = line(a, b);
    let mut i: usize = 0;
    while i < tiles.len()
        invariant
            i <= tiles.len(),
            tiles@ == line_tiles(a, b),
            tiles@.len() <= reach(a, b),
            tiles@.len() > 0 ==> tiles@[0] == a,
            forall|k: int|
                0 <= k < i ==> !((#[trigger] tiles@[k]) != a && tiles@[k] != b && blockers@.contains(
                    tiles@[k],
                )),
        decreases tiles.len() - i,
    {
        let t = tiles[i];
        let is_a = t.0 == a.0 && t.1 == a.1;
        let is_b = t.0 == b.0 && t.1 == b.1;
        if !is_a && !is_b && blockers.contains(t) {
            return true;
        }
        i = i + 1;
    }
    false
}

/// The tiles seen from `origin` among those of the square of the given radius
/// around it, with `blockers` in the way; with `reveal`, the whole square.
pub fn visible_tiles(blockers: &TileSet, origin: (i32, i32), radius: u32, reveal: bool) -> (set:
    TileSet)
    ensures
        forall|t: (i32, i32)|
            set@.contains(t) <==> visible(blockers@, origin, radius as int, reveal, t),
        radius >= 1 ==> forall|t: (i32, i32)| reach(origin, t) <= 1 ==> set@.contains(t),
{
    let low_x: i64 = clip(origin.0 as i64 - radius as i64);
    let high_x: i64 = clip(origin.0 as i64 + radius as i64);
    let low_y: i64 = clip(origin.1 as i64 - radius as i64);
    let high_y: i64 = clip(origin.1 as i64 + radius as i64);
    let mut set = TileSet::new();
    let mut x: i64 = low_x;
    while x <= high_x
        invariant
            low_x <= x <= high_x + 1,
            i32::MIN <= low_x <= high_x <= i32::MAX,
            i32::MIN <= low_y <= high_y <= i32::MAX,
            low_x == clipped(origin.0 - radius),
            high_x == clipped(origin.0 + radius),
            low_y == clipped(origin.1 - radius),
            high_y == clipped(origin.1 + radius),
            forall|t: (i32, i32)|
                set@.contains(t) <==> t.0 < x && visible(
                    blockers@,
                    origin,
                    radius as int,
                    reveal,
                    t,
                ),
            forall|t: (i32, i32)|
                t.0 < x && radius >= 1 && reach(origin, t) <= 1 ==> set@.contains(t),
        decreases high_x + 1 - x,
    {
        let mut y: i64 = low_y;
        while y <= high_y
            invariant
                low_x <= x <= high_x,
                low_y <= y <= high_y + 1,
                i32::MIN <= low_x <= high_x <= i32::MAX,
                i32::MIN <= low_y <= high_y <= i32::MAX,
                low_x == clipped(origin.0 - radius),
                high_x == clipped(origin.0 + radius),
                low_y == clipped(origin.1 - radius),
                high_y == clipped(origin.1 + radius),
                forall|t: (i32, i32)|
                    set@.contains(t) <==> (t.0 < x || (t.0 == x && t.1 < y)) && visible(
                        blockers@,
                        origin,
                        radius as int,
                        reveal,
                        t,
                    ),
                forall|t: (i32, i32)|
                    (t.0 < x || (t.0 == x && t.1 < y)) && radius >= 1 && reach(origin, t) <= 1
                        ==> set@.contains(t),
            decreases high_y + 1 - y,
        {
            let t: (i32, i32) = (x as i32, y as i32);
            if reveal || !line_blocked(blockers, origin, t) {
                set.insert(t);
            }
            y = y + 1;
        }
        x = x + 1;
    }
    set
}

/// `v` brought into the range of a coordinate.
pub open spec fn clipped(v: int) -> int {
    if v < i32::MIN {
        i32::MIN as int
    } else if v > i32::MAX {
        i32::MAX as int
    } else {
        v
    }
}

/// `v` brought into the range of a coordinate.
fn clip(v: i64) -> (c: i64)
    ensures
        c == clipped(v as int),
{
    if v < i32::MIN as i64 {
        i32::MIN as i64
    } else if v > i32::MAX as i64 {
        i32::MAX as i64
    } else {
        v
    }
}

/// The tiles that are seen from `origin` within `distance`, past what blocks
/// sight in the world; with `magic_mapping`, every tile within `distance`.
pub fn fov(world: &mut World, origin: (i32, i32), distance: u32, magic_mapping: bool) -> (set:
    TileSet)
    ensures
        contents(*final(world)) == contents(*old(world)),
        forall|t: (i32, i32)|
            set@.contains(t) <==> visible(
                sight_blockers(contents(*old(world))),
                origin,
                distance as int,
                magic_mapping,
                t,
            ),
        distance >= 1 ==> forall|t: (i32, i32)| reach(origin, t) <= 1 ==> set@.contains(t),
{
    let blockers = block_map(world);
    visible_tiles(&blockers, origin, distance, magic_mapping)
}

/// What is seen from where `observer` stands; nothing, if it has no place.
pub open spec fn view_from(s: Scene, observer: Entity, reveal: bool) -> Set<(i32, i32)> {
    match place_of(s, observer) {
        Some(place) => Set::new(
            |t: (i32, i32)|
                visible(
                    sight_blockers(s),
                    place.tile(),
                    FOV_DISTANCE as int,
                    reveal || DEBUG_FOV,
                    t,
                ),
        ),
        None => Set::empty(),
    }
}

/// Whether an entity has a place and a look, so that it can be seen.
pub open spec fn shown(r: Record) -> bool {
    r.body.pos is Some && r.body.appearance is Some
}

/// Whether an entity stands on a tile of `view`.
pub open spec fn sees(view: Set<(i32, i32)>, r: Record) -> bool {
    shown(r) && view.contains(r.body.pos->0.tile())
}

/// Whether an entity is a remembered image that has come into view, and so
/// is no longer needed.
pub open spec fn forgotten(view: Set<(i32, i32)>, r: Record) -> bool {
    sees(view, r) && r.body.player_memory
}

/// Whether an entity was in view and no longer is, so that an image of it is
/// to be remembered.
pub open spec fn leaving(view: Set<(i32, i32)>, r: Record) -> bool {
    shown(r) && !sees(view, r) && r.body.appearance->0.in_fov
}

/// The look `a`, marked as out of view.
pub open spec fn dimmed(a: Appearance) -> Appearance {
    Appearance { in_fov: false, ..a }
}

/// The record `r` with its look marked as in view or out of it, as `view`
/// says of its place; a record without a place or a look stays as it is.
pub open spec fn flagged(view: Set<(i32, i32)>, r: Record) -> Record {
    if shown(r) {
        Record {
            body: Body {
                appearance: Some(Appearance { in_fov: sees(view, r), ..r.body.appearance->0 }),
                ..r.body
            },
            ..r
        }
    } else {
        r
    }
}

/// Whether `after` is the scene `s` brought up to date with `view`: each
/// entity is marked as in view or not; the remembered images that have come
/// into view are gone; and for each entity that has left the view, and for
/// nothing else, there is one new remembered image with its place and its
/// look, which `made` names.
pub open spec fn refreshed(
    s: Scene,
    view: Set<(i32, i32)>,
    after: Scene,
    made: Map<Entity, Entity>,
) -> bool {
    &&& forall|e: Entity|
        s.dom().contains(e) ==> (#[trigger] after.dom().contains(e) <==> !forgotten(view, s[e]))
    &&& forall|e: Entity|
        s.dom().contains(e) && !forgotten(view, s[e]) ==> #[trigger] after[e] == flagged(
            view,
            s[e],
        )
    &&& forall|e: Entity|
        #[trigger] made.dom().contains(e) <==> s.dom().contains(e) && leaving(view, s[e])
    &&& forall|e: Entity, f: Entity|
        made.dom().contains(e) && made.dom().contains(f) && e != f ==> #[trigger] made[e]
            != #[trigger] made[f]
    &&& forall|e: Entity|
        made.dom().contains(e) ==> !s.dom().contains(#[trigger] made[e]) && after.dom().contains(
            made[e],
        ) && after[made[e]] == memory_record(s[e].body.pos->0, dimmed(s[e].body.appearance->0))
    &&& forall|m: Entity|
        #[trigger] after.dom().contains(m) && !s.dom().contains(m) ==> exists|e: Entity|
            made.dom().contains(e) && #[trigger] made[e] == m
}


/// Whether `e` is one of the first `n` of `list`.
spec fn named_before(list: Seq<Entity>, n: int, e: Entity) -> bool {
    exists|k: int| 0 <= k < n && k < list.len() && #[trigger] list[k] == e
}

/// Whether `made` names a new remembered image for each entity of `s` that
/// has left the view and is among the first `n` of `list`, and `now` is `s`
/// with those images added.
spec fn remembered(
    list: Seq<(Entity, Body)>,
    n: int,
    s: Scene,
    view: Set<(i32, i32)>,
    now: Scene,
    made: Map<Entity, Entity>,
) -> bool {
    &&& forall|e: Entity| s.dom().contains(e) ==> #[trigger] now.dom().contains(e) && now[e] == s[e]
    &&& forall|e: Entity|
        #[trigger] made.dom().contains(e) <==> s.dom().contains(e) && leaving(view, s[e])
            && listed_before(list, n, e)
    &&& forall|e: Entity, f: Entity|
        made.dom().contains(e) && made.dom().contains(f) && e != f ==> #[trigger] made[e]
            != #[trigger] made[f]
    &&& forall|e: Entity|
        made.dom().contains(e) ==> !s.dom().contains(#[trigger] made[e]) && now.dom().contains(
            made[e],
        ) && now[made[e]] == memory_record(s[e].body.pos->0, dimmed(s[e].body.appearance->0))
    &&& forall|m: Entity|
        #[trigger] now.dom().contains(m) && !s.dom().contains(m) ==> exists|e: Entity|
            made.dom().contains(e) && #[trigger] made[e] == m
}

/// One more image: what was remembered of the first `n` entities, with an
/// image `image` added for the next one if it has left the view, is what is
/// remembered of the first `n + 1`.
proof fn lemma_remember_next(
    list: Seq<(Entity, Body)>,
    n: int,
    s: Scene,
    view: Set<(i32, i32)>,
    cur: Scene,
    made: Map<Entity, Entity>,
    image: Entity,
)
    requires
        0 <= n < list.len(),
        lists_bodies(list, s),
        remembered(list, n, s, view, cur, made),
        !cur.dom().contains(image),
    ensures
        leaving(view, s[list[n].0]) ==> remembered(
            list,
            n + 1,
            s,
            view,
            cur.insert(
                image,
                memory_record(
                    s[list[n].0].body.pos->0,
                    dimmed(s[list[n].0].body.appearance->0),
                ),
            ),
            made.insert(list[n].0, image),
        ),
        !leaving(view, s[list[n].0]) ==> remembered(list, n + 1, s, view, cur, made),
{
    let entity = list[n].0;
    assert(s.dom().contains(entity));
    assert(!listed_before(list, n, entity)) by {
        if listed_before(list, n, entity) {
            let k = choose|k: int| 0 <= k < n && k < list.len() && (#[trigger] list[k]).0 == entity;
            assert(list[k].0 != list[n].0);
        }
    }
    assert forall|e: Entity|
        listed_before(list, n + 1, e) <==> listed_before(list, n, e) || e == entity by {
        lemma_listed_next(list, n, e);
    }
    if leaving(view, s[entity]) {
        let now = cur.insert(
            image,
            memory_record(s[entity].body.pos->0, dimmed(s[entity].body.appearance->0)),
        );
        let grown = made.insert(entity, image);
        assert forall|e: Entity| s.dom().contains(e) implies #[trigger] now.dom().contains(e)
            && now[e] == s[e] by {
            assert(cur.dom().contains(e));
        }
        assert forall|e: Entity, f: Entity|
            grown.dom().contains(e) && grown.dom().contains(f) && e != f implies #[trigger] grown[e]
            != #[trigger] grown[f] by {
            if made.dom().contains(e) {
                assert(cur.dom().contains(made[e]));
            }
            if made.dom().contains(f) {
                assert(cur.dom().contains(made[f]));
            }
        }
        assert forall|e: Entity| grown.dom().contains(e) implies !s.dom().contains(
            #[trigger] grown[e],
        ) && now.dom().contains(grown[e]) && now[grown[e]] == memory_record(
            s[e].body.pos->0,
            dimmed(s[e].body.appearance->0),
        ) by {
            if made.dom().contains(e) {
                assert(cur.dom().contains(made[e]));
            }
            if s.dom().contains(image) {
                assert(cur.dom().contains(image));
            }
        }
        assert forall|m: Entity|
            #[trigger] now.dom().contains(m) && !s.dom().contains(m) implies exists|e: Entity|
            grown.dom().contains(e) && #[trigger] grown[e] == m by {
            if cur.dom().contains(m) {
                let e = choose|e: Entity| made.dom().contains(e) && #[trigger] made[e] == m;
                assert(grown.dom().contains(e) && grown[e] == m);
            } else {
                assert(grown.dom().contains(entity) && grown[entity] == m);
            }
        }
    }
}

/// Adds a remembered image for every entity of `list` that has left the
/// view.
fn remember_all(world: &mut World, list: &Vec<(Entity, Body)>, seen: &TileSet) -> (made: Ghost<
    Map<Entity, Entity>,
>)
    requires
        lists_bodies(list@, contents(*old(world))),
    ensures
        remembered(
            list@,
            list@.len() as int,
            contents(*old(world)),
            seen@,
            contents(*final(world)),
            made@,
        ),
{
    let ghost s = contents(*world);
    let ghost mut made: Map<Entity, Entity> = Map::empty();
    let mut i: usize = 0;
    while i < list.len()
        invariant
            i <= list.len(),
            lists_bodies(list@, s),
            remembered(list@, i as int, s, seen@, contents(*world), made),
        decreases list.len() - i,
    {
        let entity = list[i].0;
        let body = &list[i].1;
        let ghost cur = contents(*world);
        let ghost before = made;
        proof {
            assert(s.dom().contains(entity));
            assert(s[entity].body == *body);
        }
        let mut added = false;
        if let Some(pos) = body.pos {
            if let Some(appearance) = body.appearance {
                if appearance.in_fov && !seen.contains((pos.x, pos.y)) {
                    let image = spawn_memory(
                        world,
                        pos,
                        Appearance {
                            sprite: appearance.sprite,
                            color: appearance.color,
                            layer: appearance.layer,
                            ignore_overlap: appearance.ignore_overlap,
                            in_fov: false,
                        },
                    );
                    proof {
                        lemma_remember_next(list@, i as int, s, seen@, cur, before, image);
                        made = made.insert(entity, image);
                    }
                    added = true;
                }
            }
        }
        proof {
            if !added {
                assert(!leaving(seen@, s[entity]));
                lemma_remember_none(list@, i as int, s, seen@, cur, before);
            }
        }
        i = i + 1;
    }
    Ghost(made)
}

/// No image: what was remembered of the first `n` entities is what is
/// remembered of the first `n + 1`, if the next one has not left the view.
proof fn lemma_remember_none(
    list: Seq<(Entity, Body)>,
    n: int,
    s: Scene,
    view: Set<(i32, i32)>,
    cur: Scene,
    made: Map<Entity, Entity>,
)
    requires
        0 <= n < list.len(),
        lists_bodies(list, s),
        remembered(list, n, s, view, cur, made),
        !leaving(view, s[list[n].0]),
    ensures
        remembered(list, n + 1, s, view, cur, made),
{
    assert forall|e: Entity|
        listed_before(list, n + 1, e) <==> listed_before(list, n, e) || e == list[n].0 by {
        lemma_listed_next(list, n, e);
    }
}

/// The remembered images of `list` that have come into view.
fn stale_memories(list: &Vec<(Entity, Body)>, seen: &TileSet, Ghost(s): Ghost<Scene>) -> (forget:
    Vec<Entity>)
    requires
        lists_bodies(list@, s),
    ensures
        forall|e: Entity| forget@.contains(e) <==> s.dom().contains(e) && forgotten(seen@, s[e]),
{
    let mut forget: Vec<Entity> = Vec::new();
    let mut i: usize = 0;
    while i < list.len()
        invariant
            i <= list.len(),
            lists_bodies(list@, s),
            forall|e: Entity|
                forget@.contains(e) <==> listed_before(list@, i as int, e) && forgotten(
                    seen@,
                    s[e],
                ),
        decreases list.len() - i,
    {
        let entity = list[i].0;
        let body = &list[i].1;
        let ghost before = forget@;
        proof {
            assert(s.dom().contains(entity));
            assert(s[entity].body == *body);
        }
        let mut stale = false;
        if let Some(pos) = body.pos {
            if body.appearance.is_some() && body.player_memory && seen.contains((pos.x, pos.y)) {
                stale = true;
            }
        }
        if stale {
            forget.push(entity);
        }
        proof {
            assert forall|e: Entity|
                forget@.contains(e) <==> listed_before(list@, i + 1, e) && forgotten(
                    seen@,
                    s[e],
                ) by {
                lemma_listed_next(list@, i as int, e);
                if stale {
                    assert(forget@ == before.push(entity));
                    if before.contains(e) {
                        let k = choose|k: int| 0 <= k < before.len() && before[k] == e;
                        assert(forget@[k] == e);
                    }
                    if e == entity {
                        assert(forget@[forget@.len() - 1] == e);
                    }
                    if forget@.contains(e) {
                        let k = choose|k: int| 0 <= k < forget@.len() && forget@[k] == e;
                        if k < before.len() {
                            assert(before[k] == e);
                        }
                    }
                }
            }
        }
        i = i + 1;
    }
    proof {
        assert forall|e: Entity|
            forget@.contains(e) <==> s.dom().contains(e) && forgotten(seen@, s[e]) by {
            if s.dom().contains(e) {
                let k = choose|k: int| 0 <= k < list@.len() && (#[trigger] list@[k]).0 == e;
                assert(listed_before(list@, i as int, e));
            }
            if listed_before(list@, i as int, e) {
                let k = choose|k: int|
                    0 <= k < i && k < list@.len() && (#[trigger] list@[k]).0 == e;
                assert(s.dom().contains(list@[k].0));
            }
        }
    }
    forget
}

/// Removes the entities of `forget` from the world.
fn despawn_all(world: &mut World, forget: &Vec<Entity>)
    ensures
        forall|e: Entity|
            #[trigger] contents(*final(world)).dom().contains(e) <==> contents(
                *old(world),
            ).dom().contains(e) && !forget@.contains(e),
        forall|e: Entity|
            contents(*final(world)).dom().contains(e) ==> #[trigger] contents(*final(world))[e]
                == contents(*old(world))[e],
{
    let ghost staged = contents(*world);
    let mut j: usize = 0;
    while j < forget.len()
        invariant
            j <= forget.len(),
            forall|e: Entity|
                #[trigger] contents(*world).dom().contains(e) <==> staged.dom().contains(e)
                    && !named_before(forget@, j as int, e),
            forall|e: Entity|
                contents(*world).dom().contains(e) ==> #[trigger] contents(*world)[e] == staged[e],
        decreases forget.len() - j,
    {
        let ghost cur = contents(*world);
        despawn(world, forget[j]);
        proof {
            assert forall|e: Entity|
                #[trigger] contents(*world).dom().contains(e) <==> staged.dom().contains(e)
                    && !named_before(forget@, j + 1, e) by {
                assert(cur.dom().contains(e) <==> staged.dom().contains(e) && !named_before(
                    forget@,
                    j as int,
                    e,
                ));
                if named_before(forget@, j + 1, e) {
                    let k = choose|k: int|
                        0 <= k < j + 1 && k < forget@.len() && #[trigger] forget@[k] == e;
                    if k < j {
                        assert(named_before(forget@, j as int, e));
                    }
                }
                if named_before(forget@, j as int, e) {
                    let k = choose|k: int|
                        0 <= k < j && k < forget@.len() && #[trigger] forget@[k] == e;
                    assert(named_before(forget@, j + 1, e));
                }
                if e == forget@[j as int] {
                    assert(named_before(forget@, j + 1, e));
                }
            }
            assert forall|e: Entity| contents(*world).dom().contains(e) implies #[trigger] contents(
                *world,
            )[e] == staged[e] by {
                assert(cur.dom().contains(e));
            }
        }
        j = j + 1;
    }
    proof {
        assert forall|e: Entity|
            #[trigger] contents(*world).dom().contains(e) <==> staged.dom().contains(e)
                && !forget@.contains(e) by {
            if forget@.contains(e) {
                let k = choose|k: int| 0 <= k < forget@.len() && forget@[k] == e;
                assert(named_before(forget@, j as int, e));
            }
            if named_before(forget@, j as int, e) {
                let k = choose|k: int|
                    0 <= k < j && k < forget@.len() && #[trigger] forget@[k] == e;
                assert(forget@.contains(e));
            }
        }
    }
}

/// Brings the world up to date with what is seen from where `observer`
/// stands, and keeps what is seen in `resources`.
pub fn update_fov_from(
    world: &mut World,
    resources: &mut Resources,
    observer: Entity,
    magic_mapping: bool,
)
    ensures
        final(resources).fov_set@ == view_from(contents(*old(world)), observer, magic_mapping),
        final(resources).player == old(resources).player,
        final(resources).new_level_request == old(resources).new_level_request,
        final(resources).level == old(resources).level,
        exists|made: Map<Entity, Entity>|
            refreshed(
                contents(*old(world)),
                view_from(contents(*old(world)), observer, magic_mapping),
                contents(*final(world)),
                made,
            ),
{
    let ghost s = contents(*world);
    let ghost view = view_from(s, observer, magic_mapping);
    match position(world, observer) {
        Some(place) => {
            resources.fov_set = fov(world, (place.x, place.y), FOV_DISTANCE, magic_mapping);
        },
        None => {
            resources.fov_set = TileSet::new();
        },
    }
    assert(resources.fov_set@ =~= view);
    let list = bodies(world);
    let forget = stale_memories(&list, &resources.fov_set, Ghost(s));
    let made = remember_all(world, &list, &resources.fov_set);
    let ghost grown = contents(*world);
    proof {
        assert forall|k: int| 0 <= k < list@.len() implies grown.dom().contains(
            #[trigger] list@[k].0,
        ) && list@[k].1 == grown[list@[k].0].body by {
            assert(s.dom().contains(list@[k].0));
        }
    }
    mark_remembered(world, &list, &resources.fov_set, Ghost(s));
    let ghost marked = contents(*world);
    despawn_all(world, &forget);
    proof {
        let after = contents(*world);
        let made = made@;
        assert forall|e: Entity| s.dom().contains(e) implies (#[trigger] after.dom().contains(e)
            <==> !forgotten(view, s[e])) by {
            assert(grown.dom().contains(e));
            assert(marked.dom().contains(e));
        }
        assert forall|e: Entity|
            s.dom().contains(e) && !forgotten(view, s[e]) implies #[trigger] after[e] == flagged(
            view,
            s[e],
        ) by {
            assert(grown.dom().contains(e));
            assert(marked.dom().contains(e));
            assert(after.dom().contains(e));
        }
        assert forall|e: Entity|
            #[trigger] made.dom().contains(e) <==> s.dom().contains(e) && leaving(view, s[e]) by {
            if s.dom().contains(e) {
                let k = choose|k: int| 0 <= k < list@.len() && (#[trigger] list@[k]).0 == e;
                assert(listed_before(list@, list@.len() as int, e));
            }
        }
        assert forall|e: Entity|
            made.dom().contains(e) implies !s.dom().contains(#[trigger] made[e])
            && after.dom().contains(made[e]) && after[made[e]] == memory_record(
            s[e].body.pos->0,
            dimmed(s[e].body.appearance->0),
        ) by {
            let m = made[e];
            assert(grown.dom().contains(m));
            assert(marked.dom().contains(m));
            assert(!forget@.contains(m));
            assert(after.dom().contains(m));
        }
        assert forall|m: Entity|
            #[trigger] after.dom().contains(m) && !s.dom().contains(m) implies exists|e: Entity|
            made.dom().contains(e) && #[trigger] made[e] == m by {
            assert(marked.dom().contains(m));
            assert(grown.dom().contains(m));
        }
        assert(refreshed(s, view, after, made));
    }
}

/// Marks every entity of `list`, all of which the world holds as `s` has
/// them, as in view or out of it; what else the world holds stays as it is.
fn mark_remembered(
    world: &mut World,
    list: &Vec<(Entity, Body)>,
    seen: &TileSet,
    Ghost(s): Ghost<Scene>,
)
    requires
        lists_bodies(list@, s),
        forall|e: Entity|
            s.dom().contains(e) ==> #[trigger] contents(*old(world)).dom().contains(e) && contents(
                *old(world),
            )[e] == s[e],
    ensures
        forall|e: Entity|
            #[trigger] contents(*final(world)).dom().contains(e) <==> contents(
                *old(world),
            ).dom().contains(e),
        forall|e: Entity|
            s.dom().contains(e) ==> #[trigger] contents(*final(world))[e] == flagged(seen@, s[e]),
        forall|e: Entity|
            contents(*old(world)).dom().contains(e) && !s.dom().contains(e) ==> #[trigger] contents(
                *final(world),
            )[e] == contents(*old(world))[e],
{
    let ghost start = contents(*world);
    let ghost view = seen@;
    let mut i: usize = 0;
    proof {
        assert forall|e: Entity| s.dom().contains(e) implies #[trigger] start[e] == s[e] by {
            assert(start.dom().contains(e));
        }
    }
    while i < list.len()
        invariant
            i <= list.len(),
            lists_bodies(list@, s),
            view == seen@,
            forall|e: Entity|
                #[trigger] contents(*world).dom().contains(e) <==> start.dom().contains(e),
            forall|e: Entity| s.dom().contains(e) ==> #[trigger] start.dom().contains(e),
            forall|e: Entity|
                s.dom().contains(e) ==> #[trigger] contents(*world)[e] == (if listed_before(
                    list@,
                    i as int,
                    e,
                ) {
                    flagged(view, s[e])
                } else {
                    s[e]
                }),
            forall|e: Entity|
                start.dom().contains(e) && !s.dom().contains(e) ==> #[trigger] contents(*world)[e]
                    == start[e],
        decreases list.len() - i,
    {
        let entity = list[i].0;
        let body = &list[i].1;
        let ghost cur = contents(*world);
        proof {
            assert(s.dom().contains(entity));
            assert(s[entity].body == *body);
            assert(!listed_before(list@, i as int, entity)) by {
                if listed_before(list@, i as int, entity) {
                    let k = choose|k: int|
                        0 <= k < i && k < list@.len() && (#[trigger] list@[k]).0 == entity;
                    assert(list@[k].0 != list@[i as int].0);
                }
            }
            assert(start.dom().contains(entity));
            assert(cur.dom().contains(entity));
            assert(cur[entity] == s[entity]);
        }
        if let Some(pos) = body.pos {
            if let Some(appearance) = body.appearance {
                let in_view = seen.contains((pos.x, pos.y));
                put_appearance(
                    world,
                    entity,
                    Appearance {
                        sprite: appearance.sprite,
                        color: appearance.color,
                        layer: appearance.layer,
                        ignore_overlap: appearance.ignore_overlap,
                        in_fov: in_view,
                    },
                );
            }
        }
        proof {
            let now = contents(*world);
            assert(now[entity] == flagged(view, s[entity]));
            assert forall|e: Entity| s.dom().contains(e) implies #[trigger] now[e] == (
            if listed_before(list@, i + 1, e) {
                flagged(view, s[e])
            } else {
                s[e]
            }) by {
                lemma_listed_next(list@, i as int, e);
                if e != entity {
                    assert(now[e] == cur[e]);
                }
            }
            assert forall|e: Entity|
                start.dom().contains(e) && !s.dom().contains(e) implies #[trigger] now[e]
                == start[e] by {
                assert(now[e] == cur[e]);
            }
        }
        i = i + 1;
    }
    proof {
        assert forall|e: Entity| s.dom().contains(e) implies #[trigger] contents(*world)[e]
            == flagged(view, s[e]) by {
            let k = choose|k: int| 0 <= k < list@.len() && (#[trigger] list@[k]).0 == e;
            assert(listed_before(list@, i as int, e));
        }
    }
}

/// Brings the world up to date with what a player sees: see
/// `update_fov_from`.
pub fn update_fov(world: &mut World, resources: &mut Resources, magic_mapping: bool)
    requires
        has_player(contents(*old(world))),
    ensures
        final(resources).player == old(resources).player,
        final(resources).new_level_request == old(resources).new_level_request,
        final(resources).level == old(resources).level,
        exists|observer: Entity, made: Map<Entity, Entity>|
            contents(*old(world)).dom().contains(observer) && contents(
                *old(world),
            )[observer].body.player && final(resources).fov_set@ == view_from(
                contents(*old(world)),
                observer,
                magic_mapping,
            ) && #[trigger] refreshed(
                contents(*old(world)),
                view_from(contents(*old(world)), observer, magic_mapping),
                contents(*final(world)),
                made,
            ),
{
    match player(world) {
        Ok(observer) => {
            update_fov_from(world, resources, observer, magic_mapping);
        },
        Err(_) => {
            assert(false);
        },
    }
}

} // verus!
