//! Grid tiles, the distance between them, and sets of tiles.
use std::collections::HashSet;
use vstd::prelude::*;

verus! {

broadcast use vstd::std_specs::hash::group_hash_axioms;

/// The absolute difference of two coordinates.
pub open spec fn gap(a: int, b: int) -> int {
    if a < b {
        b - a
    } else {
        a - b
    }
}

/// The Manhattan distance between two tiles: the number of cardinal steps
/// that separate them on an empty grid.
pub open spec fn manhattan(a: (i32, i32), b: (i32, i32)) -> int {
    gap(a.0 as int, b.0 as int) + gap(a.1 as int, b.1 as int)
}

/// The absolute difference of two coordinates, computed without overflow.
pub fn abs_diff(a: i32, b: i32) -> (d: u64)
    ensures
        d == gap(a as int, b as int),
{
    let wide_a: i64 = a as i64;
    let wide_b: i64 = b as i64;
    if wide_a < wide_b {
        (wide_b - wide_a) as u64
    } else {
        (wide_a - wide_b) as u64
    }
}

/// The Manhattan distance between two tiles.
pub fn manhattan_distance(a: (i32, i32), b: (i32, i32)) -> (d: u64)
    ensures
        d == manhattan(a, b),
{
    abs_diff(a.0, b.0) + abs_diff(a.1, b.1)
}

/// The number under which a tile is filed in a `TileSet`: both coordinates
/// shifted to be non-negative, the first in the upper 32 bits.
pub open spec fn key_of(t: (i32, i32)) -> u64 {
    ((t.0 as int + 0x8000_0000) * 0x1_0000_0000 + (t.1 as int + 0x8000_0000)) as u64
}

/// Different tiles have different keys.
pub proof fn key_of_is_injective(a: (i32, i32), b: (i32, i32))
    ensures
        key_of(a) == key_of(b) <==> a == b,
{
    let ax = a.0 as int + 0x8000_0000;
    let ay = a.1 as int + 0x8000_0000;
    let bx = b.0 as int + 0x8000_0000;
    let by = b.1 as int + 0x8000_0000;
    assert(0 <= ax < 0x1_0000_0000 && 0 <= ay < 0x1_0000_0000);
    assert(0 <= bx < 0x1_0000_0000 && 0 <= by < 0x1_0000_0000);
    assert(key_of(a) == ax * 0x1_0000_0000 + ay);
    assert(key_of(b) == bx * 0x1_0000_0000 + by);
    if key_of(a) == key_of(b) {
        assert(ax == bx);
        assert(ay == by);
    }
}

/// The number under which a tile is filed.
fn tile_key(t: (i32, i32)) -> (k: u64)
    ensures
        k == key_of(t),
{
    let x: u64 = (t.0 as i64 + 0x8000_0000) as u64;
    let y: u64 = (t.1 as i64 + 0x8000_0000) as u64;
    x * 0x1_0000_0000 + y
}

/// A finite set of tiles.
pub struct TileSet {
    keys: HashSet<u64>,
}

impl TileSet {
    /// The tiles that the set holds.
    pub closed spec fn view(&self) -> Set<(i32, i32)> {
        Set::new(|t: (i32, i32)| self.keys@.contains(key_of(t)))
    }

    /// The empty set.
    pub fn new() -> (s: TileSet)
        ensures
            s@ == Set::<(i32, i32)>::empty(),
    {
        let s = TileSet { keys: HashSet::new() };
        assert(s@ =~= Set::<(i32, i32)>::empty());
        s
    }

    /// Whether the set holds `t`.
    pub fn contains(&self, t: (i32, i32)) -> (held: bool)
        ensures
            held == self@.contains(t),
    {
        let k = tile_key(t);
        self.keys.contains(&k)
    }

    /// Adds `t`; says whether it was new.
    pub fn insert(&mut self, t: (i32, i32)) -> (fresh: bool)
        ensures
            final(self)@ == old(self)@.insert(t),
            fresh == !old(self)@.contains(t),
    {
        let k = tile_key(t);
        let fresh = self.keys.insert(k);
        proof {
            assert forall|u: (i32, i32)| self@.contains(u) == old(self)@.insert(t).contains(u) by {
                key_of_is_injective(u, t);
            }
            assert(self@ =~= old(self)@.insert(t));
        }
        fresh
    }

    /// Takes `t` out; says whether it was there.
    pub fn remove(&mut self, t: (i32, i32)) -> (present: bool)
        ensures
            final(self)@ == old(self)@.remove(t),
            present == old(self)@.contains(t),
    {
        let k = tile_key(t);
        let present = self.keys.remove(&k);
        proof {
            assert forall|u: (i32, i32)| self@.contains(u) == old(self)@.remove(t).contains(u) by {
                key_of_is_injective(u, t);
            }
            assert(self@ =~= old(self)@.remove(t));
        }
        present
    }
}

} // verus!
