//! The shortest way over the grid, by four-directional steps.
use crate::movement::stepping_tiles;
use crate::movement::occupied;
use crate::store::{contents, place_of, position, Scene};
use crate::tiles::{abs_diff, gap, manhattan, manhattan_distance, TileSet};
use hecs::{Entity, World};
use pathfinding::prelude::astar;
use vstd::prelude::*;

verus! {

/// Whether the way from `start` to `goal` is taller than it is wide, in which
/// case the search tries the vertical steps first.
pub open spec fn is_tall(start: (i32, i32), goal: (i32, i32)) -> bool {
    gap(start.1 as int, goal.1 as int) > gap(start.0 as int, goal.0 as int)
}

/// The step to the tile `(x, y)`, if that is a tile of the grid and free.
pub open spec fn step_to(blocked: Set<(i32, i32)>, x: int, y: int) -> Seq<((i32, i32), u64)> {
    if i32::MIN <= x <= i32::MAX && i32::MIN <= y <= i32::MAX && !blocked.contains(
        (x as i32, y as i32),
    ) {
        seq![((x as i32, y as i32), 1u64)]
    } else {
        Seq::empty()
    }
}

/// The steps from `p`, each at cost one: up, down, left, right on a tall
/// way, else left, right, up, down; those that leave the grid or lead to one
/// of `blocked` are left out.
pub open spec fn open_steps(blocked: Set<(i32, i32)>, p: (i32, i32), tall: bool) -> Seq<
    ((i32, i32), u64),
> {
    let up = step_to(blocked, p.0 as int, p.1 - 1);
    let down = step_to(blocked, p.0 as int, p.1 + 1);
    let left = step_to(blocked, p.0 - 1, p.1 as int);
    let right = step_to(blocked, p.0 + 1, p.1 as int);
    if tall {
        up + down + left + right
    } else {
        left + right + up + down
    }
}

/// Adds the step to the tile `(x, y)`, if that is a tile of the grid and
/// free.
fn push_step(steps: &mut Vec<((i32, i32), u64)>, blocked: &TileSet, x: i64, y: i64)
    ensures
        final(steps)@ == old(steps)@ + step_to(blocked@, x as int, y as int),
{
    if x >= i32::MIN as i64 && x <= i32::MAX as i64 && y >= i32::MIN as i64 && y <= i32::MAX as i64 {
        let t: (i32, i32) = (x as i32, y as i32);
        if !blocked.contains(t) {
            steps.push((t, 1));
            assert(steps@ =~= old(steps)@ + step_to(blocked@, x as int, y as int));
            return ;
        }
    }
    assert(steps@ =~= old(steps)@ + step_to(blocked@, x as int, y as int));
}

/// The steps that can be taken from `p`, in the order in which the search
/// tries them.
pub fn successors(blocked: &TileSet, p: (i32, i32), tall: bool) -> (steps: Vec<((i32, i32), u64)>)
    ensures
        steps@ == open_steps(blocked@, p, tall),
{
    let x: i64 = p.0 as i64;
    let y: i64 = p.1 as i64;
    let mut steps: Vec<((i32, i32), u64)> = Vec::new();
    if tall {
        push_step(&mut steps, blocked, x, y - 1);
        push_step(&mut steps, blocked, x, y + 1);
        push_step(&mut steps, blocked, x - 1, y);
        push_step(&mut steps, blocked, x + 1, y);
    } else {
        push_step(&mut steps, blocked, x - 1, y);
        push_step(&mut steps, blocked, x + 1, y);
        push_step(&mut steps, blocked, x, y - 1);
        push_step(&mut steps, blocked, x, y + 1);
    }
    assert(steps@ =~= open_steps(blocked@, p, tall));
    steps
}

/// Whether the search has arrived.
fn is_goal(p: (i32, i32), goal: (i32, i32)) -> (reached: bool)
    ensures
        reached == (p == goal),
{
    p.0 == goal.0 && p.1 == goal.1
}

/// Whether `route` leads from `start` to `goal` by steps to neighbouring
/// tiles, none of them onto one of `blocked`.
pub open spec fn is_route(
    blocked: Set<(i32, i32)>,
    start: (i32, i32),
    goal: (i32, i32),
    route: Seq<(i32, i32)>,
) -> bool {
    &&& route.len() >= 1
    &&& route[0] == start
    &&& route[route.len() - 1] == goal
    &&& forall|i: int|
        0 <= i < route.len() - 1 ==> manhattan(route[i], #[trigger] route[i + 1]) == 1
            && !blocked.contains(route[i + 1])
}

/// What `pathfinding::prelude::astar` finds from `start` to `goal`, over the
/// steps that `open_steps` gives and with the Manhattan distance to `goal` as
/// its estimate: the tiles of the way, both ends among them.
pub uninterp spec fn astar_route(
    blocked: Set<(i32, i32)>,
    start: (i32, i32),
    goal: (i32, i32),
    tall: bool,
) -> Option<Seq<(i32, i32)>>;

/// `pathfinding::prelude::astar` on the grid. Its documentation promises a
/// shortest path with both ends and its cost, or `None` where there is no
/// path; each step costs one, so the cost is the number of steps. Costs are
/// counted in 64 bits, which no path that fits in memory can exceed. The
/// search gives up only when it has seen every tile that can be reached.
#[verifier::external_body]
fn search(blocked: &TileSet, start: (i32, i32), goal: (i32, i32), tall: bool) -> (found: Option<
    (Vec<(i32, i32)>, u64),
>)
    ensures
        match found {
            Some(way) => {
                &&& astar_route(blocked@, start, goal, tall) == Some(way.0@)
                &&& is_route(blocked@, start, goal, way.0@)
                &&& way.1 == way.0@.len() - 1
                &&& forall|other: Seq<(i32, i32)>| #[trigger]
                    is_route(blocked@, start, goal, other) ==> way.0@.len() <= other.len()
            },
            None => {
                &&& astar_route(blocked@, start, goal, tall) is None
                &&& forall|other: Seq<(i32, i32)>| !#[trigger] is_route(blocked@, start, goal, other)
            },
        },
{
    astar(
        &start,
        |p| successors(blocked, *p, tall),
        |p| manhattan_distance(*p, goal),
        |p| is_goal(*p, goal),
    )
}

/// The way without its first tile, and the number of tiles that are left.
pub open spec fn onward(way: Option<Seq<(i32, i32)>>) -> Option<(Seq<(i32, i32)>, nat)> {
    match way {
        Some(tiles) => if tiles.len() > 0 {
            Some((tiles.skip(1), (tiles.len() - 1) as nat))
        } else {
            None
        },
        None => None,
    }
}

/// The view of a result of `path`.
pub open spec fn seen(r: Option<(Vec<(i32, i32)>, usize)>) -> Option<(Seq<(i32, i32)>, nat)> {
    match r {
        Some(way) => Some((way.0@, way.1 as nat)),
        None => None,
    }
}

/// The tiles of a way that the search found.
pub open spec fn tiles_of(found: Option<(Vec<(i32, i32)>, u64)>) -> Option<Seq<(i32, i32)>> {
    match found {
        Some(way) => Some(way.0@),
        None => None,
    }
}

/// What is left of a way that was found once the tile it starts on is taken
/// off: the tiles to walk, and how many they are.
pub fn steps_of(found: Option<(Vec<(i32, i32)>, u64)>) -> (r: Option<(Vec<(i32, i32)>, usize)>)
    ensures
        seen(r) == onward(tiles_of(found)),
{
    match found {
        Some(way) => {
            let mut tiles = way.0;
            if tiles.len() > 0 {
                let ghost whole = tiles@;
                tiles.remove(0);
                assert(tiles@ =~= whole.skip(1));
                let n = tiles.len();
                Some((tiles, n))
            } else {
                None
            }
        },
        None => None,
    }
}

/// Whether every neighbour of `goal` is blocked.
pub open spec fn enclosed(blocked: Set<(i32, i32)>, goal: (i32, i32)) -> bool {
    forall|t: (i32, i32)| manhattan(t, goal) == 1 ==> #[trigger] blocked.contains(t)
}

/// The tiles that stay blocked on the way from `start` to `goal`: the two
/// ends are always free.
pub open spec fn walls(move_map: Set<(i32, i32)>, start: (i32, i32), goal: (i32, i32)) -> Set<
    (i32, i32),
> {
    move_map.remove(start).remove(goal)
}

/// The shortest way from `start` to `goal` by steps to neighbouring tiles
/// that avoids `move_map`, as the tiles to walk and their number; `None`
/// where there is no way. The two ends are free whatever `move_map` says.
/// Among several shortest ways, a tall way prefers vertical steps and a wide
/// one horizontal steps.
pub fn path(move_map: TileSet, start: (i32, i32), goal: (i32, i32)) -> (r: Option<
    (Vec<(i32, i32)>, usize),
>)
    ensures
        seen(r) == onward(
            astar_route(walls(move_map@, start, goal), start, goal, is_tall(start, goal)),
        ),
        r is Some <==> exists|route: Seq<(i32, i32)>|
            is_route(walls(move_map@, start, goal), start, goal, route),
        r matches Some(way) ==> {
            &&& way.1 == way.0@.len()
            &&& is_route(walls(move_map@, start, goal), start, goal, seq![start] + way.0@)
            &&& forall|other: Seq<(i32, i32)>| #[trigger]
                is_route(walls(move_map@, start, goal), start, goal, other) ==> way.1 + 1
                    <= other.len()
        },
        manhattan(start, goal) == 1 ==> seen(r) == Some((seq![goal], 1nat)),
        start != goal && enclosed(walls(move_map@, start, goal), goal) ==> r is None,
{
    let mut blocked = move_map;
    blocked.remove(start);
    blocked.remove(goal);
    let tall = abs_diff(start.1, goal.1) > abs_diff(start.0, goal.0);
    let found = search(&blocked, start, goal, tall);
    let ghost way = tiles_of(found);
    let r = steps_of(found);
    proof {
        let w = walls(move_map@, start, goal);
        match way {
            Some(tiles) => {
                assert(seq![start] + tiles.skip(1) =~= tiles);
                if manhattan(start, goal) == 1 {
                    let direct = seq![start, goal];
                    assert(direct[0int + 1] == goal);
                    assert(is_route(w, start, goal, direct));
                    assert(tiles.len() <= 2);
                    assert(tiles.len() == 2);
                    assert(tiles.skip(1) =~= seq![goal]);
                }
                if start != goal && enclosed(w, goal) {
                    let last = tiles.len() - 2;
                    assert(tiles.len() >= 2);
                    assert(manhattan(tiles[last], tiles[last + 1]) == 1);
                    assert(w.contains(tiles[last]));
                    if last > 0 {
                        assert(!w.contains(tiles[(last - 1) + 1]));
                    }
                    assert(false);
                }
            },
            None => {
                if manhattan(start, goal) == 1 {
                    let direct = seq![start, goal];
                    assert(direct[0int + 1] == goal);
                    assert(is_route(w, start, goal, direct));
                }
            },
        }
    }
    r
}

/// The way from `actor` to `target` past the tiles that are taken, as `path`
/// finds it; `None` where one of the two has no place.
pub open spec fn way_between(s: Scene, actor: Entity, target: Entity) -> Option<
    (Seq<(i32, i32)>, nat),
> {
    match (place_of(s, actor), place_of(s, target)) {
        (Some(a), Some(b)) => onward(
            astar_route(
                walls(occupied(s), a.tile(), b.tile()),
                a.tile(),
                b.tile(),
                is_tall(a.tile(), b.tile()),
            ),
        ),
        _ => None,
    }
}

/// Whether `actor` and `target` stand one cardinal step apart.
pub open spec fn next_to(s: Scene, actor: Entity, target: Entity) -> bool {
    place_of(s, actor) is Some && place_of(s, target) is Some && manhattan(
        place_of(s, actor)->0.tile(),
        place_of(s, target)->0.tile(),
    ) == 1
}

/// The shortest way from `actor` to `target` past the tiles that are taken;
/// between neighbours it is the one step to the target.
pub fn basic_path(world: &mut World, actor: Entity, target: Entity) -> (r: Option<
    (Vec<(i32, i32)>, usize),
>)
    ensures
        contents(*final(world)) == contents(*old(world)),
        seen(r) == way_between(contents(*old(world)), actor, target),
        next_to(contents(*old(world)), actor, target) ==> way_between(
            contents(*old(world)),
            actor,
            target,
        ) == Some((seq![place_of(contents(*old(world)), target)->0.tile()], 1nat)),
{
    let actor_pos = position(world, actor);
    let target_pos = position(world, target);
    let m_map = stepping_tiles(world);
    match (actor_pos, target_pos) {
        (Some(a), Some(b)) => path(m_map, (a.x, a.y), (b.x, b.y)),
        _ => None,
    }
}

} // verus!
