//! The raster line between two tiles.
use crate::tiles::{abs_diff, gap};
use bresenham::Bresenham;
use vstd::prelude::*;

verus! {

/// The tiles that `bresenham::Bresenham` yields for the line from `a` to `b`:
/// it begins with `a` and stops before `b`.
pub uninterp spec fn raster_line(a: (i32, i32), b: (i32, i32)) -> Seq<(i32, i32)>;

/// The number of steps of the line from `a` to `b`: the larger of the two
/// coordinate differences.
pub open spec fn reach(a: (i32, i32), b: (i32, i32)) -> int {
    let dx = gap(a.0 as int, b.0 as int);
    let dy = gap(a.1 as int, b.1 as int);
    if dx < dy {
        dy
    } else {
        dx
    }
}

/// Whether the line from `a` to `b` can be held in memory and computed in
/// machine words: always, where a word has 64 bits.
pub open spec fn addressable(a: (i32, i32), b: (i32, i32)) -> bool {
    &&& reach(a, b) * 8 <= isize::MAX
    &&& a.0 > isize::MIN
    &&& a.1 > isize::MIN
    &&& b.0 > isize::MIN
    &&& b.1 > isize::MIN
}

/// The tiles of the raster line from `a` to `b`, beginning with `a` and
/// stopping before `b`; none where the machine cannot hold the line.
pub open spec fn line_tiles(a: (i32, i32), b: (i32, i32)) -> Seq<(i32, i32)> {
    if addressable(a, b) {
        raster_line(a, b)
    } else {
        Seq::empty()
    }
}

/// `bresenham::Bresenham::new(a, b)`, collected: the line advances by one
/// along its longer axis at each tile, so it has as many tiles as that axis
/// has steps, and the first of them is `a`. The iterator computes with the
/// coordinates, their negatives, and up to twice their differences.
#[verifier::external_body]
fn raster(a: (i32, i32), b: (i32, i32)) -> (line: Vec<(i32, i32)>)
    requires
        addressable(a, b),
    ensures
        line@ == raster_line(a, b),
        line@.len() == reach(a, b),
        line@.len() > 0 ==> line@[0] == a,
{
    Bresenham::new((a.0 as isize, a.1 as isize), (b.0 as isize, b.1 as isize))
        .map(|(x, y)| (x as i32, y as i32))
        .collect()
}

/// The tiles of the raster line from `a` to `b`.
pub fn line(a: (i32, i32), b: (i32, i32)) -> (tiles: Vec<(i32, i32)>)
    ensures
        tiles@ == line_tiles(a, b),
        tiles@.len() <= reach(a, b),
        addressable(a, b) ==> tiles@.len() == reach(a, b),
        tiles@.len() > 0 ==> tiles@[0] == a,
{
    let dx = abs_diff(a.0, b.0);
    let dy = abs_diff(a.1, b.1);
    let far = if dx < dy {
        dy
    } else {
        dx
    };
    let lowest: i64 = isize::MIN as i64;
    if far <= (isize::MAX as u64) / 8 && a.0 as i64 > lowest && a.1 as i64 > lowest && b.0 as i64
        > lowest && b.1 as i64 > lowest {
        raster(a, b)
    } else {
        Vec::new()
    }
}

} // verus!
