//! Where creatures can step, and the shortest way from one tile to another.
use crate::components::{Bump, Pos};
use crate::store::{bodies, contents, lists_bodies, place_of, position, Scene};
use crate::tiles::{manhattan, manhattan_distance, TileSet};
use hecs::{Entity, World};
use vstd::prelude::*;

pub mod my_pathfinding;

verus! {

/// The four directions of the grid.
#[derive(Clone, Copy, Debug, PartialEq, Eq)]
pub enum Dir {
    N,
    W,
    S,
    E,
}

impl Dir {
    /// The step that the direction stands for; north is up, where `y` falls.
    pub fn components(&self) -> (step: (i32, i32))
        ensures
            step == match *self {
                Dir::N => (0i32, -1i32),
                Dir::W => (-1i32, 0i32),
                Dir::S => (0i32, 1i32),
                Dir::E => (1i32, 0i32),
            },
    {
        match self {
            Dir::N => (0, -1),
            Dir::W => (-1, 0),
            Dir::S => (0, 1),
            Dir::E => (1, 0),
        }
    }
}

/// The Manhattan distance between two entities, if both have a place.
pub open spec fn distance_between(s: Scene, start: Entity, finish: Entity) -> Option<int> {
    match (place_of(s, start), place_of(s, finish)) {
        (Some(a), Some(b)) => Some(manhattan(a.tile(), b.tile())),
        _ => None,
    }
}

/// The Manhattan distance between two entities, if both have a place.
pub fn distance_between_ents(world: &mut World, start: Entity, finish: Entity) -> (d: Option<u64>)
    ensures
        contents(*final(world)) == contents(*old(world)),
        match distance_between(contents(*old(world)), start, finish) {
            Some(n) => d == Some(n as u64),
            None => d is None,
        },
{
    let start_pos = position(world, start);
    let finish_pos = position(world, finish);
    match (start_pos, finish_pos) {
        (Some(a), Some(b)) => Some(manhattan_distance((a.x, a.y), (b.x, b.y))),
        _ => None,
    }
}

/// Whether `list` names every entity of `s` that has a place and a bump,
/// each once, with both.
pub open spec fn lists_bumps(list: Seq<((i32, i32), (Entity, Bump))>, s: Scene) -> bool {
    &&& forall|i: int|
        0 <= i < list.len() ==> {
            let e = (#[trigger] list[i]).1.0;
            s.dom().contains(e) && s[e].body.pos == Some(Pos { x: list[i].0.0, y: list[i].0.1 })
                && s[e].body.bump == Some(list[i].1.1)
        }
    &&& forall|i: int, j: int|
        0 <= i < j < list.len() ==> (#[trigger] list[i]).1.0 != (#[trigger] list[j]).1.0
    &&& forall|e: Entity|
        s.dom().contains(e) && s[e].body.pos is Some && s[e].body.bump is Some ==> exists|i: int|
            0 <= i < list.len() && (#[trigger] list[i]).1.0 == e
}

/// Every entity that has a place and a bump, with its tile and its bump, in
/// no stated order.
pub fn movement_map(world: &mut World) -> (list: Vec<((i32, i32), (Entity, Bump))>)
    ensures
        contents(*final(world)) == contents(*old(world)),
        lists_bumps(list@, contents(*old(world))),
{
    let all = bodies(world);
    let ghost s = contents(*old(world));
    let mut list: Vec<((i32, i32), (Entity, Bump))> = Vec::new();
    let ghost mut from: Seq<int> = Seq::empty();
    let mut i: usize = 0;
    while i < all.len()
        invariant
            i <= all.len(),
            lists_bodies(all@, s),
            from.len() == list.len(),
            forall|k: int| 0 <= k < from.len() ==> 0 <= #[trigger] from[k] < i,
            forall|k: int, l: int| 0 <= k < l < from.len() ==> from[k] < from[l],
            forall|k: int|
                0 <= k < list.len() ==> (#[trigger] list@[k]).1.0 == all@[from[k]].0
                    && all@[from[k]].1.pos == Some(Pos { x: list@[k].0.0, y: list@[k].0.1 })
                    && all@[from[k]].1.bump == Some(list@[k].1.1),
            forall|m: int|
                0 <= m < i && (#[trigger] all@[m]).1.pos is Some && all@[m].1.bump is Some
                    ==> exists|k: int| 0 <= k < list.len() && #[trigger] from[k] == m,
        decreases all.len() - i,
    {
        let entity = all[i].0;
        let body = &all[i].1;
        if let Some(pos) = body.pos {
            if let Some(bump) = body.bump {
                list.push(((pos.x, pos.y), (entity, bump)));
                proof {
                    let ghost before = from;
                    from = from.push(i as int);
                    assert forall|m: int|
                        0 <= m < i + 1 && (#[trigger] all@[m]).1.pos is Some
                            && all@[m].1.bump is Some implies exists|k: int|
                        0 <= k < list.len() && #[trigger] from[k] == m by {
                        if m < i {
                            let k = choose|k: int| 0 <= k < before.len() && #[trigger] before[k] == m;
                            assert(from[k] == m);
                        } else {
                            assert(from[from.len() - 1] == m);
                        }
                    }
                }
            }
        }
        i = i + 1;
    }
    proof {
        assert forall|k: int| 0 <= k < list@.len() implies {
            let e = (#[trigger] list@[k]).1.0;
            s.dom().contains(e) && s[e].body.pos == Some(Pos { x: list@[k].0.0, y: list@[k].0.1 })
                && s[e].body.bump == Some(list@[k].1.1)
        } by {
            assert(s.dom().contains(all@[from[k]].0));
        }
        assert forall|k: int, l: int| 0 <= k < l < list@.len() implies (#[trigger] list@[k]).1.0 != (
        #[trigger] list@[l]).1.0 by {
            assert(from[k] < from[l]);
            assert(all@[from[k]].0 != all@[from[l]].0);
        }
        assert forall|e: Entity|
            s.dom().contains(e) && s[e].body.pos is Some && s[e].body.bump is Some implies exists|
            k: int,
        | 0 <= k < list@.len() && (#[trigger] list@[k]).1.0 == e by {
            let m = choose|m: int| 0 <= m < all@.len() && (#[trigger] all@[m]).0 == e;
            let k = choose|k: int| 0 <= k < list.len() && #[trigger] from[k] == m;
            assert(list@[k].1.0 == e);
        }
    }
    list
}

/// The tiles that are taken: those on which something with a bump stands,
/// and those on which a player stands.
pub open spec fn occupied(s: Scene) -> Set<(i32, i32)> {
    Set::new(
        |t: (i32, i32)|
            exists|e: Entity|
                s.dom().contains(e) && ((#[trigger] s[e]).body.bump is Some || s[e].body.player)
                    && s[e].body.pos == Some(Pos { x: t.0, y: t.1 }),
    )
}

/// The tiles that are taken: those on which something with a bump stands,
/// and those on which a player stands.
pub fn stepping_tiles(world: &mut World) -> (set: TileSet)
    ensures
        contents(*final(world)) == contents(*old(world)),
        set@ == occupied(contents(*old(world))),
{
    let list = bodies(world);
    let ghost s = contents(*old(world));
    let mut set = TileSet::new();
    let mut i: usize = 0;
    while i < list.len()
        invariant
            i <= list.len(),
            lists_bodies(list@, s),
            forall|t: (i32, i32)|
                set@.contains(t) <==> exists|k: int|
                    0 <= k < i && ((#[trigger] list@[k]).1.bump is Some || list@[k].1.player)
                        && list@[k].1.pos == Some(Pos { x: t.0, y: t.1 }),
        decreases list.len() - i,
    {
        let body = &list[i].1;
        if body.bump.is_some() || body.player {
            if let Some(pos) = body.pos {
                set.insert((pos.x, pos.y));
            }
        }
        i = i + 1;
    }
    proof {
        assert forall|t: (i32, i32)| set@.contains(t) == occupied(s).contains(t) by {
            if set@.contains(t) {
                let k = choose|k: int|
                    0 <= k < list@.len() && ((#[trigger] list@[k]).1.bump is Some
                        || list@[k].1.player) && list@[k].1.pos == Some(Pos { x: t.0, y: t.1 });
                assert(s.dom().contains(list@[k].0));
                assert(s[list@[k].0].body == list@[k].1);
            }
            if occupied(s).contains(t) {
                let e = choose|e: Entity|
                    s.dom().contains(e) && ((#[trigger] s[e]).body.bump is Some || s[e].body.player)
                        && s[e].body.pos == Some(Pos { x: t.0, y: t.1 });
                let k = choose|k: int| 0 <= k < list@.len() && (#[trigger] list@[k]).0 == e;
                assert(list@[k].1 == s[e].body);
            }
        }
        assert(set@ =~= occupied(s));
    }
    set
}

} // verus!
