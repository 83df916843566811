//! The plan of a level: a grid of terrain with what lies and who stands on
//! it, laid out as rooms in nine quadrants that doors connect.
use crate::dice::{choose_multiple, extends, extends_is_transitive, shuffle, Dice};
use crate::factory::EntityKind;
use crate::lists::{dungeon_templates, enemies, items};
use vstd::prelude::*;

verus! {

/// Which quadrants are the way in and the way out, which hold treasure and
/// danger, and which of the twelve borders between quadrants have a door.
/// The quadrants are numbered row by row from zero to eight.
#[derive(Clone, Debug, PartialEq, Eq)]
pub struct DungeonTemplate {
    pub entrance: usize,
    pub exit: usize,
    pub doors: [u8; 12],
    pub treasure_rooms: Vec<usize>,
    pub danger_rooms: Vec<usize>,
}

/// Where the quadrant `i` comes to lie when the grid of quadrants is turned
/// by a quarter.
pub open spec fn rotated_quadrant(i: int) -> int {
    if i == 0 {
        6
    } else if i == 1 {
        3
    } else if i == 2 {
        0
    } else if i == 3 {
        7
    } else if i == 4 {
        4
    } else if i == 5 {
        1
    } else if i == 6 {
        8
    } else if i == 7 {
        5
    } else {
        2
    }
}

/// Where the quadrant `i` comes to lie when rows and columns are swapped.
pub open spec fn transposed_quadrant(i: int) -> int {
    (i % 3) * 3 + i / 3
}

/// The border whose door moves to the border `i` when the grid is turned.
pub open spec fn rotated_door(i: int) -> int {
    if i == 0 {
        4
    } else if i == 1 {
        9
    } else if i == 2 {
        1
    } else if i == 3 {
        6
    } else if i == 4 {
        11
    } else if i == 5 {
        3
    } else if i == 6 {
        8
    } else if i == 7 {
        0
    } else if i == 8 {
        5
    } else if i == 9 {
        10
    } else if i == 10 {
        2
    } else {
        7
    }
}

/// The border whose door moves to the border `i` when rows and columns are
/// swapped.
pub open spec fn transposed_door(i: int) -> int {
    if i == 0 {
        2
    } else if i == 1 {
        7
    } else if i == 2 {
        0
    } else if i == 3 {
        5
    } else if i == 4 {
        10
    } else if i == 5 {
        3
    } else if i == 6 {
        8
    } else if i == 7 {
        1
    } else if i == 8 {
        6
    } else if i == 9 {
        11
    } else if i == 10 {
        4
    } else {
        9
    }
}

/// Where a quadrant comes to lie when the grid is turned.
fn rotate_index(i: usize) -> (r: usize)
    requires
        i < 9,
    ensures
        r == rotated_quadrant(i as int),
        r < 9,
{
    if i == 0 {
        6
    } else if i == 1 {
        3
    } else if i == 2 {
        0
    } else if i == 3 {
        7
    } else if i == 4 {
        4
    } else if i == 5 {
        1
    } else if i == 6 {
        8
    } else if i == 7 {
        5
    } else {
        2
    }
}

/// Where a quadrant comes to lie when rows and columns are swapped.
fn transpose_index(i: usize) -> (r: usize)
    requires
        i < 9,
    ensures
        r == transposed_quadrant(i as int),
        r < 9,
{
    (i % 3) * 3 + i / 3
}

/// Where each of the quadrants comes to lie when the grid is turned.
fn rotate_all(rooms: &Vec<usize>) -> (r: Vec<usize>)
    requires
        forall|i: int| 0 <= i < rooms@.len() ==> rooms@[i] < 9,
    ensures
        r@.len() == rooms@.len(),
        forall|i: int| 0 <= i < r@.len() ==> r@[i] == rotated_quadrant(rooms@[i] as int),
{
    let mut r: Vec<usize> = Vec::new();
    let mut i: usize = 0;
    while i < rooms.len()
        invariant
            i <= rooms.len(),
            r@.len() == i,
            forall|k: int| 0 <= k < rooms@.len() ==> rooms@[k] < 9,
            forall|k: int| 0 <= k < i ==> r@[k] == rotated_quadrant(rooms@[k] as int),
        decreases rooms.len() - i,
    {
        r.push(rotate_index(rooms[i]));
        i = i + 1;
    }
    r
}

/// Where each of the quadrants comes to lie when rows and columns are
/// swapped.
fn transpose_all(rooms: &Vec<usize>) -> (r: Vec<usize>)
    requires
        forall|i: int| 0 <= i < rooms@.len() ==> rooms@[i] < 9,
    ensures
        r@.len() == rooms@.len(),
        forall|i: int| 0 <= i < r@.len() ==> r@[i] == transposed_quadrant(rooms@[i] as int),
{
    let mut r: Vec<usize> = Vec::new();
    let mut i: usize = 0;
    while i < rooms.len()
        invariant
            i <= rooms.len(),
            r@.len() == i,
            forall|k: int| 0 <= k < rooms@.len() ==> rooms@[k] < 9,
            forall|k: int| 0 <= k < i ==> r@[k] == transposed_quadrant(rooms@[k] as int),
        decreases rooms.len() - i,
    {
        r.push(transpose_index(rooms[i]));
        i = i + 1;
    }
    r
}

impl DungeonTemplate {
    /// Whether every quadrant that the template names is one of the nine.
    pub open spec fn well_formed(&self) -> bool {
        &&& self.entrance < 9
        &&& self.exit < 9
        &&& forall|i: int|
            0 <= i < self.treasure_rooms@.len() ==> #[trigger] self.treasure_rooms@[i] < 9
        &&& forall|i: int| 0 <= i < self.danger_rooms@.len() ==> #[trigger] self.danger_rooms@[i] < 9
    }

    /// Turns the template by a quarter: every quadrant and every door moves
    /// to where the turn takes it.
    pub fn rotate(&mut self)
        requires
            old(self).well_formed(),
        ensures
            final(self).well_formed(),
            final(self).entrance == rotated_quadrant(old(self).entrance as int),
            final(self).exit == rotated_quadrant(old(self).exit as int),
            final(self).treasure_rooms@.len() == old(self).treasure_rooms@.len(),
            forall|i: int|
                0 <= i < old(self).treasure_rooms@.len() ==> #[trigger] final(self).treasure_rooms@[i] == rotated_quadrant(old(self).treasure_rooms@[i] as int),
            final(self).danger_rooms@.len() == old(self).danger_rooms@.len(),
            forall|i: int|
                0 <= i < old(self).danger_rooms@.len() ==> #[trigger] final(self).danger_rooms@[i]
                    == rotated_quadrant(old(self).danger_rooms@[i] as int),
            forall|i: int|
                0 <= i < 12 ==> #[trigger] final(self).doors@[i] == old(self).doors@[rotated_door(
                    i,
                )],
    {
        self.entrance = rotate_index(self.entrance);
        self.exit = rotate_index(self.exit);
        self.treasure_rooms = rotate_all(&self.treasure_rooms);
        self.danger_rooms = rotate_all(&self.danger_rooms);
        self.doors = [
            self.doors[4],
            self.doors[9],
            self.doors[1],
            self.doors[6],
            self.doors[11],
            self.doors[3],
            self.doors[8],
            self.doors[0],
            self.doors[5],
            self.doors[10],
            self.doors[2],
            self.doors[7],
        ];
    }

    /// Swaps the rows and columns of the template: every quadrant and every
    /// door moves to where the swap takes it.
    pub fn transpose(&mut self)
        requires
            old(self).well_formed(),
        ensures
            final(self).well_formed(),
            final(self).entrance == transposed_quadrant(old(self).entrance as int),
            final(self).exit == transposed_quadrant(old(self).exit as int),
            final(self).treasure_rooms@.len() == old(self).treasure_rooms@.len(),
            forall|i: int|
                0 <= i < old(self).treasure_rooms@.len() ==> #[trigger] final(self).treasure_rooms@[i] == transposed_quadrant(old(self).treasure_rooms@[i] as int),
            final(self).danger_rooms@.len() == old(self).danger_rooms@.len(),
            forall|i: int|
                0 <= i < old(self).danger_rooms@.len() ==> #[trigger] final(self).danger_rooms@[i]
                    == transposed_quadrant(old(self).danger_rooms@[i] as int),
            forall|i: int|
                0 <= i < 12 ==> #[trigger] final(self).doors@[i] == old(self).doors@[transposed_door(i)],
    {
        self.entrance = transpose_index(self.entrance);
        self.exit = transpose_index(self.exit);
        self.treasure_rooms = transpose_all(&self.treasure_rooms);
        self.danger_rooms = transpose_all(&self.danger_rooms);
        self.doors = [
            self.doors[2],
            self.doors[7],
            self.doors[0],
            self.doors[5],
            self.doors[10],
            self.doors[3],
            self.doors[8],
            self.doors[1],
            self.doors[6],
            self.doors[11],
            self.doors[4],
            self.doors[9],
        ];
    }
}

/// Four quarter turns bring every quadrant and every door back, and so does
/// swapping rows and columns twice.
pub proof fn turns_and_swaps_come_back(i: int)
    ensures
        0 <= i < 9 ==> rotated_quadrant(rotated_quadrant(rotated_quadrant(rotated_quadrant(i))))
            == i,
        0 <= i < 9 ==> transposed_quadrant(transposed_quadrant(i)) == i,
        0 <= i < 12 ==> rotated_door(rotated_door(rotated_door(rotated_door(i)))) == i,
        0 <= i < 12 ==> transposed_door(transposed_door(i)) == i,
{
}

/// The corner of a quadrant on the grid; the quadrants are seven tiles apart.
pub fn quadrant_xy(quadrant: usize) -> (corner: Option<(usize, usize)>)
    ensures
        quadrant >= 9 ==> corner is None,
        quadrant < 9 ==> corner == Some(
            (((quadrant % 3) * 7) as usize, ((quadrant / 3) * 7) as usize),
        ),
{
    if quadrant < 9 {
        Some(((quadrant % 3) * 7, (quadrant / 3) * 7))
    } else {
        None
    }
}

/// The two quadrants on either side of a border. The borders are numbered
/// row by row: two between the quadrants of a row, then three below it.
pub open spec fn quadrants_at(border: int) -> (int, int) {
    let row = border / 5;
    let place = border % 5;
    if place < 2 {
        (row * 3 + place, row * 3 + place + 1)
    } else {
        (row * 3 + place - 2, row * 3 + place + 1)
    }
}

/// The two quadrants on either side of a border.
pub fn connected_quadrants(border_index: usize) -> (sides: Option<(usize, usize)>)
    ensures
        border_index >= 12 ==> sides is None,
        border_index < 12 ==> sides == Some(
            (
                quadrants_at(border_index as int).0 as usize,
                quadrants_at(border_index as int).1 as usize,
            ),
        ),
        sides matches Some(pair) ==> pair.0 < pair.1 < 9,
{
    if border_index < 12 {
        let row = border_index / 5;
        let place = border_index % 5;
        if place < 2 {
            Some((row * 3 + place, row * 3 + place + 1))
        } else {
            Some((row * 3 + place - 2, row * 3 + place + 1))
        }
    } else {
        None
    }
}

/// The plan of a level.
pub struct DungeonMap {
    pub width: usize,
    pub height: usize,
    /// The terrain of each tile, row by row.
    pub terrain: Vec<EntityKind>,
    /// What lies on each tile.
    pub items: Vec<Vec<EntityKind>>,
    /// Who stands on each tile.
    pub actors: Vec<Option<EntityKind>>,
    pub player_pos: Option<(usize, usize)>,
}

/// `format!` for the message of an index that lies beyond the map.
#[verifier::external_body]
fn index_message(index: usize) -> String {
    format!("index out of range: {:?}", index)
}

/// `format!` for the message of a tile that lies off the map.
#[verifier::external_body]
fn bounds_message(pos: (usize, usize)) -> String {
    format!("OOB index at: {:?}", pos)
}

/// Whether the rectangle at `pos` of the size `size` has no tile, or lies
/// on a map of the given width and height.
pub open spec fn rect_fits(width: int, height: int, pos: (usize, usize), size: (usize, usize)) -> bool {
    size.0 == 0 || size.1 == 0 || (pos.0 + size.0 <= width && pos.1 + size.1 <= height)
}

impl DungeonMap {
    /// Whether the map has an entry for each of its tiles.
    pub open spec fn well_formed(&self) -> bool {
        &&& self.terrain@.len() == self.width * self.height
        &&& self.items@.len() == self.width * self.height
        &&& self.actors@.len() == self.width * self.height
    }

    /// The index of the tile `(x, y)`.
    pub open spec fn index_of(&self, x: int, y: int) -> int {
        x + self.width * y
    }

    /// A map of one terrain, with nothing and nobody on it.
    pub fn new(width: usize, height: usize, default_terrain: EntityKind) -> (map: DungeonMap)
        requires
            width * height <= usize::MAX,
        ensures
            map.well_formed(),
            map.width == width,
            map.height == height,
            map.player_pos is None,
            forall|i: int| 0 <= i < width * height ==> #[trigger] map.terrain@[i] == default_terrain,
            forall|i: int| 0 <= i < width * height ==> (#[trigger] map.items@[i])@.len() == 0,
            forall|i: int| 0 <= i < width * height ==> #[trigger] map.actors@[i] is None,
    {
        let n = width * height;
        let mut terrain: Vec<EntityKind> = Vec::new();
        let mut items: Vec<Vec<EntityKind>> = Vec::new();
        let mut actors: Vec<Option<EntityKind>> = Vec::new();
        let mut i: usize = 0;
        while i < n
            invariant
                i <= n,
                terrain@.len() == i,
                items@.len() == i,
                actors@.len() == i,
                forall|k: int| 0 <= k < i ==> #[trigger] terrain@[k] == default_terrain,
                forall|k: int| 0 <= k < i ==> (#[trigger] items@[k])@.len() == 0,
                forall|k: int| 0 <= k < i ==> #[trigger] actors@[k] is None,
            decreases n - i,
        {
            terrain.push(default_terrain);
            items.push(Vec::new());
            actors.push(None);
            i = i + 1;
        }
        DungeonMap { width, height, terrain, items, actors, player_pos: None }
    }

    /// The tile of an index: its column and its row. An index beyond the
    /// number of tiles is an error; the number itself still passes.
    pub fn index_as_pos(&self, index: usize) -> (r: Result<(usize, usize), String>)
        requires
            self.width > 0,
        ensures
            r is Err <==> index > self.terrain@.len(),
            r matches Ok(pos) ==> pos.0 == index % self.width && pos.1 == index / self.width,
    {
        if index > self.terrain.len() {
            return Err(index_message(index));
        }
        let y = index / self.width;
        let x = index % self.width;
        Ok((x, y))
    }

    /// The index of a tile; a tile off the map is an error.
    pub fn get_index(&self, pos: (usize, usize)) -> (r: Result<usize, String>)
        requires
            self.well_formed(),
        ensures
            r is Err <==> pos.0 >= self.width || pos.1 >= self.height,
            r matches Ok(index) ==> index == self.index_of(pos.0 as int, pos.1 as int) && index
                < self.terrain@.len(),
    {
        if pos.0 >= self.width || pos.1 >= self.height {
            return Err(bounds_message(pos));
        }
        proof {
            lemma_index_in_bounds(
                self.width as int,
                self.height as int,
                pos.0 as int,
                pos.1 as int,
            );
            assert(self.width * self.height == self.terrain@.len());
            assert(0 <= self.width * pos.1) by (nonlinear_arith);
            assert(pos.0 + self.width * pos.1 < self.terrain@.len());
        }
        let tiles = self.terrain.len();
        assert(pos.0 + self.width * pos.1 < tiles);
        Ok(pos.0 + (self.width * pos.1))
    }

    /// Whether a tile of the map is bare floor on which nobody stands.
    pub fn is_blocked(&self, pos: (usize, usize)) -> (r: bool)
        requires
            self.well_formed(),
        ensures
            r == (pos.0 < self.width && pos.1 < self.height && self.terrain@[self.index_of(
                pos.0 as int,
                pos.1 as int,
            )] == EntityKind::Floor && self.actors@[self.index_of(pos.0 as int, pos.1 as int)]
                is None),
    {
        match self.get_index(pos) {
            Ok(index) => {
                if self.terrain[index] != EntityKind::Floor {
                    false
                } else if self.actors[index].is_some() {
                    false
                } else {
                    true
                }
            },
            Err(_) => false,
        }
    }

    /// The indices of the tiles of a rectangle, column by column; an error
    /// if one of its tiles lies off the map.
    pub fn rect(&self, pos: (usize, usize), size: (usize, usize)) -> (r: Result<Vec<usize>, String>)
        requires
            self.well_formed(),
        ensures
            r is Ok <==> rect_fits(self.width as int, self.height as int, pos, size),
            r matches Ok(indexes) ==> {
                &&& indexes@.len() == size.0 * size.1
                &&& forall|k: int|
                    0 <= k < indexes@.len() ==> #[trigger] indexes@[k] == self.index_of(
                        pos.0 + k / (size.1 as int),
                        pos.1 + k % (size.1 as int),
                    ) && indexes@[k] < self.terrain@.len()
            },
    {
        let mut indexes: Vec<usize> = Vec::new();
        if size.0 == 0 || size.1 == 0 {
            assert(size.0 * size.1 == 0) by (nonlinear_arith)
                requires
                    size.0 == 0 || size.1 == 0,
            ;
            return Ok(indexes);
        }
        if pos.0 >= self.width || size.0 > self.width - pos.0 {
            let x = if pos.0 >= self.width {
                pos.0
            } else {
                self.width
            };
            let y = if pos.0 < self.width && pos.1 < self.height && size.1 > self.height - pos.1 {
                self.height
            } else {
                pos.1
            };
            return Err(bounds_message((x, y)));
        }
        if pos.1 >= self.height || size.1 > self.height - pos.1 {
            let y = if pos.1 >= self.height {
                pos.1
            } else {
                self.height
            };
            return Err(bounds_message((pos.0, y)));
        }
        let mut i: usize = 0;
        while i < size.0
            invariant
                self.well_formed(),
                i <= size.0,
                size.1 > 0,
                pos.0 + size.0 <= self.width,
                pos.1 + size.1 <= self.height,
                indexes@.len() == i * size.1,
                forall|k: int|
                    0 <= k < indexes@.len() ==> #[trigger] indexes@[k] == self.index_of(
                        pos.0 + k / (size.1 as int),
                        pos.1 + k % (size.1 as int),
                    ) && indexes@[k] < self.terrain@.len(),
            decreases size.0 - i,
        {
            let mut j: usize = 0;
            while j < size.1
                invariant
                    self.well_formed(),
                    i < size.0,
                    j <= size.1,
                    pos.0 + size.0 <= self.width,
                    pos.1 + size.1 <= self.height,
                    indexes@.len() == i * size.1 + j,
                    forall|k: int|
                        0 <= k < indexes@.len() ==> #[trigger] indexes@[k] == self.index_of(
                            pos.0 + k / (size.1 as int),
                            pos.1 + k % (size.1 as int),
                        ) && indexes@[k] < self.terrain@.len(),
                decreases size.1 - j,
            {
                proof {
                    lemma_cell(i as int, j as int, size.1 as int);
                }
                match self.get_index((pos.0 + i, pos.1 + j)) {
                    Ok(index) => {
                        indexes.push(index);
                    },
                    Err(message) => {
                        assert(false);
                        return Err(message);
                    },
                }
                j = j + 1;
            }
            proof {
                assert((i + 1) * size.1 == i * size.1 + size.1) by (nonlinear_arith);
            }
            i = i + 1;
        }
        Ok(indexes)
    }

    /// Sets the terrain of a rectangle; an error, and no change, if one of
    /// its tiles lies off the map.
    pub fn fill_rect(&mut self, kind: EntityKind, pos: (usize, usize), size: (usize, usize)) -> (r:
        Result<(), String>)
        requires
            old(self).well_formed(),
        ensures
            final(self).well_formed(),
            final(self).width == old(self).width,
            final(self).height == old(self).height,
            final(self).items == old(self).items,
            final(self).actors == old(self).actors,
            final(self).player_pos == old(self).player_pos,
            r is Ok <==> rect_fits(old(self).width as int, old(self).height as int, pos, size),
            r is Err ==> final(self).terrain == old(self).terrain,
            r is Ok ==> forall|x: int, y: int|
                0 <= x < old(self).width && 0 <= y < old(self).height ==> #[trigger] final(self).terrain@[old(self).index_of(x, y)] == (if pos.0 <= x < pos.0 + size.0 && pos.1
                    <= y < pos.1 + size.1 {
                    kind
                } else {
                    old(self).terrain@[old(self).index_of(x, y)]
                }),
    {
        let indexes = match self.rect(pos, size) {
            Ok(indexes) => indexes,
            Err(message) => {
                return Err(message);
            },
        };
        let mut k: usize = 0;
        while k < indexes.len()
            invariant
                k <= indexes.len(),
                self.width == old(self).width,
                self.height == old(self).height,
                self.items == old(self).items,
                self.actors == old(self).actors,
                self.player_pos == old(self).player_pos,
                self.terrain@.len() == old(self).terrain@.len(),
                forall|m: int| 0 <= m < indexes@.len() ==> #[trigger] indexes@[m] < self.terrain@.len(),
                forall|t: int|
                    0 <= t < self.terrain@.len() ==> #[trigger] self.terrain@[t] == (if marked(
                        indexes@,
                        k as int,
                        t,
                    ) {
                        kind
                    } else {
                        old(self).terrain@[t]
                    }),
            decreases indexes.len() - k,
        {
            let ghost before = self.terrain@;
            let index = indexes[k];
            self.terrain.set(index, kind);
            proof {
                assert forall|t: int| 0 <= t < self.terrain@.len() implies #[trigger] self.terrain@[t]
                    == (if marked(indexes@, k + 1, t) {
                    kind
                } else {
                    old(self).terrain@[t]
                }) by {
                    if t == index {
                        assert(indexes@[k as int] == t);
                        assert(marked(indexes@, k + 1, t));
                    } else {
                        assert(self.terrain@[t] == before[t]);
                        if marked(indexes@, k + 1, t) {
                            let m = choose|m: int|
                                0 <= m < k + 1 && m < indexes@.len() && #[trigger] indexes@[m] == t;
                            assert(m < k);
                            assert(marked(indexes@, k as int, t));
                        }
                        if marked(indexes@, k as int, t) {
                            let m = choose|m: int|
                                0 <= m < k && m < indexes@.len() && #[trigger] indexes@[m] == t;
                            assert(marked(indexes@, k + 1, t));
                        }
                    }
                }
            }
            k = k + 1;
        }
        proof {
            let w = old(self).width as int;
            let h = old(self).height as int;
            let rows = size.1 as int;
            assert forall|x: int, y: int| 0 <= x < w && 0 <= y < h implies #[trigger] self.terrain@[old(self).index_of(x, y)] == (if pos.0 <= x < pos.0 + size.0 && pos.1 <= y < pos.1 + size.1 {
                kind
            } else {
                old(self).terrain@[old(self).index_of(x, y)]
            }) by {
                let t = old(self).index_of(x, y);
                lemma_index_in_bounds(w, h, x, y);
                if pos.0 <= x < pos.0 + size.0 && pos.1 <= y < pos.1 + size.1 {
                    let a = x - pos.0;
                    let b = y - pos.1;
                    lemma_cell(a, b, rows);
                    lemma_cell_in_grid(a, b, size.0 as int, rows);
                    let m = a * rows + b;
                    assert(indexes@[m] == t);
                    assert(marked(indexes@, k as int, t));
                } else {
                    if marked(indexes@, k as int, t) {
                        let m = choose|m: int|
                            0 <= m < k && m < indexes@.len() && #[trigger] indexes@[m] == t;
                        lemma_split(m, rows, size.0 as int);
                        let a = m / rows;
                        let b = m % rows;
                        assert(indexes@[m] == old(self).index_of(pos.0 + a, pos.1 + b));
                        lemma_index_unique(w, x, y, pos.0 + a, pos.1 + b);
                    }
                }
            }
        }
        Ok(())
    }
}

/// Whether `t` is one of the first `n` of `indexes`.
spec fn marked(indexes: Seq<usize>, n: int, t: int) -> bool {
    exists|m: int| 0 <= m < n && m < indexes.len() && #[trigger] indexes[m] == t
}

/// The index of a tile of the map is below the number of tiles.
proof fn lemma_index_in_bounds(width: int, height: int, x: int, y: int)
    requires
        0 <= x < width,
        0 <= y < height,
    ensures
        0 <= x + width * y < width * height,
{
    assert(width * y + width <= width * height) by (nonlinear_arith)
        requires
            0 <= y < height,
            0 < width,
    ;
    assert(0 <= width * y) by (nonlinear_arith)
        requires
            0 <= y,
            0 < width,
    ;
}

/// Different tiles of a row-by-row grid have different indices.
proof fn lemma_index_unique(width: int, x1: int, y1: int, x2: int, y2: int)
    requires
        0 <= x1 < width,
        0 <= x2 < width,
        0 <= y1,
        0 <= y2,
        x1 + width * y1 == x2 + width * y2,
    ensures
        x1 == x2,
        y1 == y2,
{
    if y1 < y2 {
        assert(width * y2 >= width * y1 + width) by (nonlinear_arith)
            requires
                y1 < y2,
                0 < width,
        ;
    }
    if y2 < y1 {
        assert(width * y1 >= width * y2 + width) by (nonlinear_arith)
            requires
                y2 < y1,
                0 < width,
        ;
    }
}

/// The place of a cell in a list that holds a grid column by column gives
/// the cell back.
proof fn lemma_cell(a: int, b: int, rows: int)
    requires
        0 <= a,
        0 <= b < rows,
    ensures
        0 <= a * rows + b,
        (a * rows + b) / rows == a,
        (a * rows + b) % rows == b,
{
    assert(0 <= a * rows) by (nonlinear_arith)
        requires
            0 <= a,
            0 <= rows,
    ;
    vstd::arithmetic::div_mod::lemma_fundamental_div_mod_converse(a * rows + b, rows, a, b);
}

/// The place of a cell of a grid lies in the list that holds the grid.
proof fn lemma_cell_in_grid(a: int, b: int, columns: int, rows: int)
    requires
        0 <= a < columns,
        0 <= b < rows,
    ensures
        0 <= a * rows + b < columns * rows,
{
    assert(a * rows + rows <= columns * rows) by (nonlinear_arith)
        requires
            a < columns,
            0 <= rows,
    ;
    assert(0 <= a * rows) by (nonlinear_arith)
        requires
            0 <= a,
            0 <= rows,
    ;
}

/// A place in a list that holds a grid column by column is the place of a
/// cell.
proof fn lemma_split(m: int, rows: int, columns: int)
    requires
        0 < rows,
        0 <= m < columns * rows,
    ensures
        0 <= m / rows < columns,
        0 <= m % rows < rows,
        (m / rows) * rows + m % rows == m,
{
    vstd::arithmetic::div_mod::lemma_fundamental_div_mod(m, rows);
    vstd::arithmetic::div_mod::lemma_div_pos_is_pos(m, rows);
    if m / rows >= columns {
        assert((m / rows) * rows >= columns * rows) by (nonlinear_arith)
            requires
                m / rows >= columns,
                0 < rows,
        ;
    }
    assert((m / rows) * rows == rows * (m / rows)) by (nonlinear_arith);
}

/// A room of a level.
#[derive(Clone, Copy, Debug, PartialEq, Eq)]
pub struct Room {
    pub pos: (usize, usize),
    pub size: (usize, usize),
    pub danger: bool,
    pub loot: bool,
    pub player: bool,
    pub exit: bool,
}

impl Room {
    /// Whether `tile` lies in the room.
    pub open spec fn holds(&self, tile: (usize, usize)) -> bool {
        self.pos.0 <= tile.0 < self.pos.0 + self.size.0 && self.pos.1 <= tile.1 < self.pos.1
            + self.size.1
    }

    /// The tiles of the room, column by column.
    pub fn tiles_within(&self) -> (tiles: Vec<(usize, usize)>)
        requires
            self.pos.0 + self.size.0 <= usize::MAX,
            self.pos.1 + self.size.1 <= usize::MAX,
        ensures
            tiles@.len() == self.size.0 * self.size.1,
            forall|k: int|
                0 <= k < tiles@.len() ==> #[trigger] tiles@[k] == (
                    (self.pos.0 + k / (self.size.1 as int)) as usize,
                    (self.pos.1 + k % (self.size.1 as int)) as usize,
                ) && self.holds(tiles@[k]),
    {
        let (w, h) = self.size;
        let mut tiles: Vec<(usize, usize)> = Vec::new();
        let mut i: usize = 0;
        while i < w
            invariant
                i <= w,
                (w, h) == self.size,
                self.pos.0 + self.size.0 <= usize::MAX,
                self.pos.1 + self.size.1 <= usize::MAX,
                tiles@.len() == i * h,
                forall|k: int|
                    0 <= k < tiles@.len() ==> #[trigger] tiles@[k] == (
                        (self.pos.0 + k / (h as int)) as usize,
                        (self.pos.1 + k % (h as int)) as usize,
                    ) && self.holds(tiles@[k]),
            decreases w - i,
        {
            let mut j: usize = 0;
            while j < h
                invariant
                    i < w,
                    j <= h,
                    (w, h) == self.size,
                    self.pos.0 + self.size.0 <= usize::MAX,
                    self.pos.1 + self.size.1 <= usize::MAX,
                    tiles@.len() == i * h + j,
                    forall|k: int|
                        0 <= k < tiles@.len() ==> #[trigger] tiles@[k] == (
                            (self.pos.0 + k / (h as int)) as usize,
                            (self.pos.1 + k % (h as int)) as usize,
                        ) && self.holds(tiles@[k]),
                decreases h - j,
            {
                proof {
                    lemma_cell(i as int, j as int, h as int);
                }
                tiles.push((self.pos.0 + i, self.pos.1 + j));
                j = j + 1;
            }
            proof {
                assert((i + 1) * h == i * h + h) by (nonlinear_arith);
            }
            i = i + 1;
        }
        tiles
    }

    /// Whether `tile` lies just outside the room, next to one of its four
    /// sides; the four corners outside do not count.
    pub fn is_border(&self, tile: (usize, usize)) -> (r: bool)
        requires
            self.pos.0 + self.size.0 <= usize::MAX,
            self.pos.1 + self.size.1 <= usize::MAX,
        ensures
            r == ((self.pos.0 <= tile.0 < self.pos.0 + self.size.0 && (tile.1 + 1 == self.pos.1
                || tile.1 == self.pos.1 + self.size.1)) || (self.pos.1 <= tile.1 < self.pos.1
                + self.size.1 && (tile.0 + 1 == self.pos.0 || tile.0 == self.pos.0
                + self.size.0))),
    {
        let in_columns = tile.0 < self.pos.0 + self.size.0 && tile.0 >= self.pos.0;
        let in_rows = tile.1 < self.pos.1 + self.size.1 && tile.1 >= self.pos.1;
        if in_columns && self.pos.1 > 0 && tile.1 == self.pos.1 - 1 {
            return true;
        }
        if in_columns && tile.1 == self.pos.1 + self.size.1 {
            return true;
        }
        if in_rows && tile.0 == self.pos.0 + self.size.0 {
            return true;
        }
        if in_rows && self.pos.0 > 0 && tile.0 == self.pos.0 - 1 {
            return true;
        }
        false
    }
}

impl Room {
    /// A tile of the room, picked by two draws: its column, then its row.
    pub fn rand_tile_within(&self, dice: &mut Dice) -> (tile: (usize, usize))
        requires
            0 < self.size.0 <= crate::dice::MAX_SIDES,
            0 < self.size.1 <= crate::dice::MAX_SIDES,
            self.pos.0 + self.size.0 <= usize::MAX,
            self.pos.1 + self.size.1 <= usize::MAX,
        ensures
            self.holds(tile),
            extends(old(dice).drawn(), final(dice).drawn()),
            crate::dice::since(old(dice).drawn(), final(dice).drawn()) == seq![
                tile.0 - self.pos.0,
                tile.1 - self.pos.1,
            ],
    {
        let ghost before = dice.drawn();
        let dx = dice.roll(self.size.0 as u64);
        let dy = dice.roll(self.size.1 as u64);
        proof {
            assert(crate::dice::since(before, dice.drawn()) =~= seq![dx as int, dy as int]);
            assert(dice.drawn().take(before.len() as int) =~= before);
        }
        (self.pos.0 + dx as usize, self.pos.1 + dy as usize)
    }
}

impl DungeonMap {
    /// Puts `kind` on a tile of the map.
    fn add_item(&mut self, index: usize, kind: EntityKind)
        requires
            old(self).well_formed(),
            index < old(self).items@.len(),
        ensures
            final(self).well_formed(),
            final(self).width == old(self).width,
            final(self).height == old(self).height,
            final(self).terrain == old(self).terrain,
            final(self).actors == old(self).actors,
            final(self).player_pos == old(self).player_pos,
            final(self).items@.len() == old(self).items@.len(),
            final(self).items@[index as int]@ == old(self).items@[index as int]@.push(kind),
            forall|i: int|
                0 <= i < old(self).items@.len() && i != index ==> #[trigger] final(self).items@[i]
                    == old(self).items@[i],
    {
        let mut pile: Vec<EntityKind> = Vec::new();
        let mut i: usize = 0;
        while i < self.items[index].len()
            invariant
                index < self.items@.len(),
                *self == *old(self),
                i <= self.items@[index as int]@.len(),
                pile@ == self.items@[index as int]@.take(i as int),
            decreases self.items@[index as int]@.len() - i,
        {
            pile.push(self.items[index][i]);
            assert(pile@ =~= self.items@[index as int]@.take(i + 1));
            i = i + 1;
        }
        assert(pile@ =~= self.items@[index as int]@);
        pile.push(kind);
        self.items.set(index, pile);
    }

    /// Puts the given creatures on tiles of a rectangle that chance picks;
    /// an error, and no change, if the rectangle does not lie on the map.
    pub fn fill_room_with_actors(
        &mut self,
        pos: (usize, usize),
        size: (usize, usize),
        actors: Vec<EntityKind>,
    ) -> (r: Result<(), String>)
        requires
            old(self).well_formed(),
            (size.0 > 0 && size.1 > 0) || actors@.len() == 0,
        ensures
            final(self).well_formed(),
            final(self).width == old(self).width,
            final(self).height == old(self).height,
            final(self).terrain == old(self).terrain,
            final(self).items == old(self).items,
            final(self).player_pos == old(self).player_pos,
            r is Ok <==> rect_fits(old(self).width as int, old(self).height as int, pos, size),
            r is Err ==> final(self).actors == old(self).actors,
            forall|t: int|
                0 <= t < old(self).actors@.len() ==> #[trigger] final(self).actors@[t] == old(self).actors@[t] || exists|k: int|
                    0 <= k < actors@.len() && final(self).actors@[t] == Some(actors@[k]),
    {
        let mut rect_indexes = match self.rect(pos, size) {
            Ok(indexes) => indexes,
            Err(message) => {
                return Err(message);
            },
        };
        proof {
            if size.0 > 0 && size.1 > 0 {
                assert(size.0 * size.1 > 0) by (nonlinear_arith)
                    requires
                        size.0 > 0,
                        size.1 > 0,
                ;
            }
        }
        let ghost listed = rect_indexes@;
        shuffle(&mut rect_indexes);
        proof {
            rect_indexes@.to_multiset_ensures();
            listed.to_multiset_ensures();
            assert forall|k: int| 0 <= k < rect_indexes@.len() implies #[trigger] rect_indexes@[k]
                < self.actors@.len() by {
                let v = rect_indexes@[k];
                assert(rect_indexes@.contains(v));
                assert(rect_indexes@.to_multiset().count(v) > 0);
                assert(listed.to_multiset().count(v) > 0);
                assert(listed.contains(v));
            }
        }
        let places = choose_multiple(&rect_indexes, actors.len());
        let mut k: usize = 0;
        while k < places.len()
            invariant
                k <= places.len(),
                places@.len() == actors@.len(),
                self.well_formed(),
                self.width == old(self).width,
                self.height == old(self).height,
                self.terrain == old(self).terrain,
                self.items == old(self).items,
                self.player_pos == old(self).player_pos,
                self.actors@.len() == old(self).actors@.len(),
                forall|i: int| 0 <= i < places@.len() ==> #[trigger] places@[i] < self.actors@.len(),
                forall|t: int|
                    0 <= t < old(self).actors@.len() ==> #[trigger] self.actors@[t] == old(self).actors@[t] || exists|m: int|
                        0 <= m < actors@.len() && self.actors@[t] == Some(actors@[m]),
            decreases places.len() - k,
        {
            let ghost before = self.actors@;
            let actor = actors[actors.len() - 1 - k];
            self.actors.set(places[k], Some(actor));
            proof {
                assert forall|t: int| 0 <= t < old(self).actors@.len() implies #[trigger] self.actors@[t]
                    == old(self).actors@[t] || exists|m: int|
                    0 <= m < actors@.len() && self.actors@[t] == Some(actors@[m]) by {
                    if t == places@[k as int] {
                        assert(self.actors@[t] == Some(actors@[actors@.len() - 1 - k]));
                    } else {
                        assert(self.actors@[t] == before[t]);
                    }
                }
            }
            k = k + 1;
        }
        Ok(())
    }

    /// Puts the given things on tiles of a rectangle that chance picks; an
    /// error, and no change, if the rectangle does not lie on the map.
    pub fn fill_room_with_items(
        &mut self,
        pos: (usize, usize),
        size: (usize, usize),
        items: Vec<EntityKind>,
    ) -> (r: Result<(), String>)
        requires
            old(self).well_formed(),
            (size.0 > 0 && size.1 > 0) || items@.len() == 0,
        ensures
            final(self).well_formed(),
            final(self).width == old(self).width,
            final(self).height == old(self).height,
            final(self).terrain == old(self).terrain,
            final(self).actors == old(self).actors,
            final(self).player_pos == old(self).player_pos,
            r is Ok <==> rect_fits(old(self).width as int, old(self).height as int, pos, size),
            r is Err ==> final(self).items == old(self).items,
    {
        let mut rect_indexes = match self.rect(pos, size) {
            Ok(indexes) => indexes,
            Err(message) => {
                return Err(message);
            },
        };
        proof {
            if size.0 > 0 && size.1 > 0 {
                assert(size.0 * size.1 > 0) by (nonlinear_arith)
                    requires
                        size.0 > 0,
                        size.1 > 0,
                ;
            }
        }
        let ghost listed = rect_indexes@;
        shuffle(&mut rect_indexes);
        proof {
            rect_indexes@.to_multiset_ensures();
            listed.to_multiset_ensures();
            assert forall|k: int| 0 <= k < rect_indexes@.len() implies #[trigger] rect_indexes@[k]
                < self.items@.len() by {
                let v = rect_indexes@[k];
                assert(rect_indexes@.contains(v));
                assert(rect_indexes@.to_multiset().count(v) > 0);
                assert(listed.to_multiset().count(v) > 0);
                assert(listed.contains(v));
            }
        }
        let places = choose_multiple(&rect_indexes, items.len());
        let mut k: usize = 0;
        while k < places.len()
            invariant
                k <= places.len(),
                places@.len() == items@.len(),
                self.well_formed(),
                self.width == old(self).width,
                self.height == old(self).height,
                self.terrain == old(self).terrain,
                self.actors == old(self).actors,
                self.player_pos == old(self).player_pos,
                forall|i: int| 0 <= i < places@.len() ==> #[trigger] places@[i] < self.items@.len(),
            decreases places.len() - k,
        {
            let item = items[items.len() - 1 - k];
            self.add_item(places[k], item);
            k = k + 1;
        }
        Ok(())
    }

    /// Walls in a rectangle, floors its inside, and puts a player, a rat and
    /// three swords on tiles of the inside that chance picks.
    pub fn dig_room(&mut self, pos: (usize, usize), size: (usize, usize)) -> (r: Result<(), String>)
        requires
            old(self).well_formed(),
            size.0 >= 3,
            size.1 >= 3,
            pos.0 < usize::MAX,
            pos.1 < usize::MAX,
        ensures
            final(self).well_formed(),
            final(self).width == old(self).width,
            final(self).height == old(self).height,
            final(self).player_pos == old(self).player_pos,
            r is Ok <==> rect_fits(old(self).width as int, old(self).height as int, pos, size),
            r is Err ==> final(self).terrain == old(self).terrain && final(self).items == old(self).items && final(self).actors == old(self).actors,
    {
        match self.fill_rect(EntityKind::Wall, pos, size) {
            Ok(_) => {},
            Err(message) => {
                return Err(message);
            },
        }
        let inner_pos = (pos.0 + 1, pos.1 + 1);
        let inner_size = (size.0 - 2, size.1 - 2);
        match self.fill_rect(EntityKind::Floor, inner_pos, inner_size) {
            Ok(_) => {},
            Err(message) => {
                assert(false);
                return Err(message);
            },
        }
        let mut actors: Vec<EntityKind> = Vec::new();
        actors.push(EntityKind::Player);
        actors.push(EntityKind::Rat);
        match self.fill_room_with_actors(inner_pos, inner_size, actors) {
            Ok(_) => {},
            Err(message) => {
                assert(false);
                return Err(message);
            },
        }
        let mut swords: Vec<EntityKind> = Vec::new();
        swords.push(EntityKind::Sword);
        swords.push(EntityKind::Sword);
        swords.push(EntityKind::Sword);
        match self.fill_room_with_items(inner_pos, inner_size, swords) {
            Ok(_) => {},
            Err(message) => {
                assert(false);
                return Err(message);
            },
        }
        Ok(())
    }
}

/// The layout of a level in nine quadrants, before its rooms are placed.
pub struct QuadrantMap {
    pub doors: [bool; 12],
    pub enter: usize,
    pub exit: usize,
    pub difficulty: u32,
    pub loot: u32,
    pub danger_rooms: Vec<usize>,
    pub treasure_rooms: Vec<usize>,
    pub level: u32,
}

/// Whether a room lies inside the walls of a map of twenty-two tiles a side
/// and has from three to five tiles a side.
pub open spec fn is_chamber(room: Room) -> bool {
    &&& 3 <= room.size.0 <= 5
    &&& 3 <= room.size.1 <= 5
    &&& 2 <= room.pos.0
    &&& 2 <= room.pos.1
    &&& room.pos.0 + room.size.0 <= 21
    &&& room.pos.1 + room.size.1 <= 21
}

/// Whether the list holds `wanted`.
fn has(list: &Vec<usize>, wanted: usize) -> (found: bool)
    ensures
        found == list@.contains(wanted),
{
    let mut i: usize = 0;
    while i < list.len()
        invariant
            i <= list.len(),
            forall|k: int| 0 <= k < i ==> list@[k] != wanted,
        decreases list.len() - i,
    {
        if list[i] == wanted {
            return true;
        }
        i = i + 1;
    }
    false
}

impl QuadrantMap {
    /// The layout of a level after a template: its doors, its way in and way
    /// out and its dangerous quadrants are those of the template, and one of
    /// the first eight quadrants, picked by one draw, holds treasure.
    pub fn new(level: u32, template: DungeonTemplate, dice: &mut Dice) -> (map: QuadrantMap)
        ensures
            map.enter == template.entrance,
            map.exit == template.exit,
            map.difficulty == level,
            map.loot == level,
            map.level == level,
            map.danger_rooms == template.danger_rooms,
            forall|i: int| 0 <= i < 12 ==> #[trigger] map.doors@[i] == (template.doors@[i] > 0),
            extends(old(dice).drawn(), final(dice).drawn()),
            crate::dice::since(old(dice).drawn(), final(dice).drawn()).len() == 1,
            map.treasure_rooms@ == seq![
                crate::dice::since(old(dice).drawn(), final(dice).drawn())[0] as usize,
            ],
            map.treasure_rooms@[0] < 8,
    {
        let ghost before = dice.drawn();
        let mut doors = [false;12];
        let mut i: usize = 0;
        while i < 12
            invariant
                i <= 12,
                forall|k: int| 0 <= k < i ==> #[trigger] doors@[k] == (template.doors@[k] > 0),
            decreases 12 - i,
        {
            doors[i] = template.doors[i] > 0;
            i = i + 1;
        }
        let pick = dice.roll(8);
        let mut treasure_rooms: Vec<usize> = Vec::new();
        treasure_rooms.push(pick as usize);
        proof {
            assert(crate::dice::since(before, dice.drawn()) =~= seq![pick as int]);
            assert(dice.drawn().take(before.len() as int) =~= before);
            assert(treasure_rooms@ =~= seq![pick as usize]);
        }
        QuadrantMap {
            doors,
            exit: template.exit,
            enter: template.entrance,
            difficulty: level,
            loot: level,
            danger_rooms: template.danger_rooms,
            treasure_rooms,
            level,
        }
    }

    /// Places a room of chance size at a chance place in each quadrant.
    fn place_rooms(&self, dice: &mut Dice) -> (rooms: Vec<Room>)
        ensures
            rooms@.len() == 9,
            forall|i: int| 0 <= i < 9 ==> is_chamber(#[trigger] rooms@[i]),
            forall|i: int| 0 <= i < 9 ==> (#[trigger] rooms@[i]).player == (self.enter == i),
            extends(old(dice).drawn(), final(dice).drawn()),
    {
        let ghost before = dice.drawn();
        let mut rooms: Vec<Room> = Vec::new();
        let mut quadrant_id: usize = 0;
        proof {
            assert(before.take(before.len() as int) =~= before);
        }
        while quadrant_id < 9
            invariant
                quadrant_id <= 9,
                rooms@.len() == quadrant_id,
                forall|i: int| 0 <= i < quadrant_id ==> is_chamber(#[trigger] rooms@[i]),
                forall|i: int|
                    0 <= i < quadrant_id ==> (#[trigger] rooms@[i]).player == (self.enter == i),
                extends(before, dice.drawn()),
            decreases 9 - quadrant_id,
        {
            let ghost mid = dice.drawn();
            let corner = match quadrant_xy(quadrant_id) {
                Some(corner) => corner,
                None => (0, 0),
            };
            let w: usize = 3 + dice.roll(3) as usize;
            let ghost first = dice.drawn();
            let h: usize = 3 + dice.roll(3) as usize;
            let ghost second = dice.drawn();
            let slack_x: usize = if w < 5 {
                5 - w
            } else {
                1
            };
            let slack_y: usize = if h < 5 {
                5 - h
            } else {
                1
            };
            let x: usize = corner.0 + 2 + dice.roll(slack_x as u64) as usize;
            let ghost third = dice.drawn();
            let y: usize = corner.1 + 2 + dice.roll(slack_y as u64) as usize;
            proof {
                extends_is_transitive(before, mid, first);
                extends_is_transitive(before, first, second);
                extends_is_transitive(before, second, third);
                extends_is_transitive(before, third, dice.drawn());
            }
            rooms.push(
                Room {
                    pos: (x, y),
                    size: (w, h),
                    danger: has(&self.danger_rooms, quadrant_id),
                    loot: has(&self.treasure_rooms, quadrant_id),
                    player: self.enter == quadrant_id,
                    exit: self.exit == quadrant_id,
                },
            );
            quadrant_id = quadrant_id + 1;
        }
        rooms
    }

    /// Builds a level of twenty-two tiles a side: a room in each quadrant,
    /// sized and placed by chance; in it, on tiles that chance picks, the
    /// player if it is the way in, stairs if it is the way out, a thing if
    /// it holds treasure, and up to two creatures, the stronger kinds only
    /// on deeper levels; and for each door of the layout a hallway between
    /// the rooms of its two quadrants, with a door where it leaves a room.
    pub fn build(&self, dice: &mut Dice) -> (map: DungeonMap)
        ensures
            map.well_formed(),
            map.width == 22,
            map.height == 22,
            self.enter < 9 ==> (map.player_pos matches Some(place) && place.0 < 22 && place.1
                < 22),
            extends(old(dice).drawn(), final(dice).drawn()),
    {
        let ghost before = dice.drawn();
        let mut map = DungeonMap::new(22, 22, EntityKind::Wall);
        let rooms = self.place_rooms(dice);
        proof {
            assert(before.take(before.len() as int) =~= before);
        }
        let item_kinds = items();
        let enemy_kinds = enemies();
        let strongest: usize = if (self.difficulty as usize) < enemy_kinds.len() - 1 {
            self.difficulty as usize + 1
        } else {
            enemy_kinds.len()
        };
        let mut r: usize = 0;
        while r < rooms.len()
            invariant
                r <= rooms.len(),
                rooms@.len() == 9,
                forall|i: int| 0 <= i < 9 ==> is_chamber(#[trigger] rooms@[i]),
                forall|i: int| 0 <= i < 9 ==> (#[trigger] rooms@[i]).player == (self.enter == i),
                map.well_formed(),
                map.width == 22,
                map.height == 22,
                item_kinds@.len() == 4,
                enemy_kinds@.len() == 5,
                1 <= strongest <= 5,
                self.enter < r ==> (map.player_pos matches Some(place) && place.0 < 22 && place.1
                    < 22),
                extends(before, dice.drawn()),
            decreases rooms.len() - r,
        {
            let ghost mid = dice.drawn();
            let room = rooms[r];
            assert(is_chamber(room));
            let _ = map.fill_rect(EntityKind::Floor, room.pos, room.size);
            let mut tiles_within = room.tiles_within();
            let ghost listed = tiles_within@;
            shuffle(&mut tiles_within);
            proof {
                tiles_within@.to_multiset_ensures();
                listed.to_multiset_ensures();
                assert forall|k: int| 0 <= k < tiles_within@.len() implies room.holds(
                    #[trigger] tiles_within@[k],
                ) by {
                    let v = tiles_within@[k];
                    assert(tiles_within@.contains(v));
                    assert(tiles_within@.to_multiset().count(v) > 0);
                    assert(listed.to_multiset().count(v) > 0);
                    assert(listed.contains(v));
                }
                assert(room.size.0 * room.size.1 >= 9) by (nonlinear_arith)
                    requires
                        room.size.0 >= 3,
                        room.size.1 >= 3,
                ;
            }
            if room.player {
                if let Some(place) = tiles_within.pop() {
                    map.player_pos = Some(place);
                }
            }
            if room.exit {
                if let Some(place) = tiles_within.pop() {
                    if let Ok(index) = map.get_index(place) {
                        map.terrain.set(index, EntityKind::Stairs);
                    }
                }
            }
            if room.loot {
                if let Some(place) = tiles_within.pop() {
                    if let Ok(index) = map.get_index(place) {
                        let pick = dice.roll(item_kinds.len() as u64);
                        map.add_item(index, item_kinds[pick as usize]);
                    }
                }
            }
            let ghost looted = dice.drawn();
            proof {
                assert(extends(mid, looted)) by {
                    assert(mid.take(mid.len() as int) =~= mid);
                }
            }
            let crowd = dice.roll(3);
            proof {
                extends_is_transitive(mid, looted, dice.drawn());
            }
            let mut n: u64 = 0;
            while n < crowd
                invariant
                    n <= crowd,
                    map.well_formed(),
                    map.width == 22,
                    map.height == 22,
                    enemy_kinds@.len() == 5,
                    1 <= strongest <= 5,
                    self.enter < r + 1 ==> (map.player_pos matches Some(place) && place.0 < 22
                        && place.1 < 22),
                    extends(mid, dice.drawn()),
                decreases crowd - n,
            {
                let ghost inner = dice.drawn();
                let pick = dice.roll(strongest as u64);
                let enemy = enemy_kinds[pick as usize];
                if let Some(place) = tiles_within.pop() {
                    if let Ok(index) = map.get_index(place) {
                        map.actors.set(index, Some(enemy));
                    }
                }
                proof {
                    extends_is_transitive(mid, inner, dice.drawn());
                }
                n = n + 1;
            }
            proof {
                extends_is_transitive(before, mid, dice.drawn());
            }
            r = r + 1;
        }
        let ghost furnished = dice.drawn();
        self.dig_hallways(&mut map, &rooms, dice);
        proof {
            extends_is_transitive(before, furnished, dice.drawn());
        }
        map
    }

    /// Digs a hallway for each door of the layout.
    fn dig_hallways(&self, map: &mut DungeonMap, rooms: &Vec<Room>, dice: &mut Dice)
        requires
            old(map).well_formed(),
            rooms@.len() == 9,
            forall|i: int| 0 <= i < 9 ==> is_chamber(#[trigger] rooms@[i]),
        ensures
            final(map).well_formed(),
            final(map).width == old(map).width,
            final(map).height == old(map).height,
            final(map).player_pos == old(map).player_pos,
            extends(old(dice).drawn(), final(dice).drawn()),
    {
        let ghost before = dice.drawn();
        proof {
            assert(before.take(before.len() as int) =~= before);
        }
        let mut i: usize = 0;
        while i < 12
            invariant
                i <= 12,
                rooms@.len() == 9,
                forall|k: int| 0 <= k < 9 ==> is_chamber(#[trigger] rooms@[k]),
                map.well_formed(),
                map.width == old(map).width,
                map.height == old(map).height,
                map.player_pos == old(map).player_pos,
                extends(before, dice.drawn()),
            decreases 12 - i,
        {
            if self.doors[i] {
                if let Some((q1, q2)) = connected_quadrants(i) {
                    let ghost mid = dice.drawn();
                    let room1 = rooms[q1];
                    let room2 = rooms[q2];
                    assert(is_chamber(room1) && is_chamber(room2));
                    let mut start = room1.rand_tile_within(dice);
                    let ghost then = dice.drawn();
                    let mut finish = room2.rand_tile_within(dice);
                    proof {
                        extends_is_transitive(mid, then, dice.drawn());
                        extends_is_transitive(before, mid, dice.drawn());
                    }
                    if start.0 > finish.0 {
                        let placeholder = start;
                        start = finish;
                        finish = placeholder;
                    }
                    let mut x = start.0;
                    while x <= finish.0
                        invariant
                            start.0 <= x <= finish.0 + 1,
                            finish.0 < 21,
                            map.well_formed(),
                            map.width == old(map).width,
                            map.height == old(map).height,
                            map.player_pos == old(map).player_pos,
                            is_chamber(room1),
                            is_chamber(room2),
                        decreases finish.0 + 1 - x,
                    {
                        dig(map, (x, start.1), &room1, &room2);
                        x = x + 1;
                    }
                    let (low, high) = if start.1 > finish.1 {
                        (finish.1, start.1)
                    } else {
                        (start.1, finish.1)
                    };
                    let mut y = low;
                    while y <= high
                        invariant
                            low <= y <= high + 1,
                            high < 21,
                            map.well_formed(),
                            map.width == old(map).width,
                            map.height == old(map).height,
                            map.player_pos == old(map).player_pos,
                            is_chamber(room1),
                            is_chamber(room2),
                        decreases high + 1 - y,
                    {
                        dig(map, (finish.0, y), &room1, &room2);
                        y = y + 1;
                    }
                }
            }
            i = i + 1;
        }
    }
}

/// Whether `tile` lies just outside `room`, next to one of its four sides;
/// the four corners outside do not count.
pub open spec fn borders(room: Room, tile: (usize, usize)) -> bool {
    (room.pos.0 <= tile.0 < room.pos.0 + room.size.0 && (tile.1 + 1 == room.pos.1 || tile.1
        == room.pos.1 + room.size.1)) || (room.pos.1 <= tile.1 < room.pos.1 + room.size.1 && (
    tile.0 + 1 == room.pos.0 || tile.0 == room.pos.0 + room.size.0))
}

/// The terrain of a map after a hallway between two rooms has been opened on
/// `tile`: a wall there has become a door if the tile borders one of the
/// rooms, and floor if not; a tile that is no wall, or off the map, leaves
/// the terrain as it is.
pub open spec fn dug(map: DungeonMap, tile: (usize, usize), room1: Room, room2: Room) -> Seq<
    EntityKind,
> {
    let index = map.index_of(tile.0 as int, tile.1 as int);
    if tile.0 < map.width && tile.1 < map.height && map.terrain@[index] == EntityKind::Wall {
        map.terrain@.update(
            index,
            if borders(room1, tile) || borders(room2, tile) {
                EntityKind::Door
            } else {
                EntityKind::Floor
            },
        )
    } else {
        map.terrain@
    }
}

/// Opens one tile of a hallway: a wall becomes a door where it borders one
/// of the two rooms, and floor elsewhere; what is no wall stays as it is.
fn dig(map: &mut DungeonMap, tile: (usize, usize), room1: &Room, room2: &Room)
    requires
        old(map).well_formed(),
        is_chamber(*room1),
        is_chamber(*room2),
    ensures
        final(map).well_formed(),
        final(map).width == old(map).width,
        final(map).height == old(map).height,
        final(map).items == old(map).items,
        final(map).actors == old(map).actors,
        final(map).player_pos == old(map).player_pos,
        final(map).terrain@ == dug(*old(map), tile, *room1, *room2),
{
    if let Ok(index) = map.get_index(tile) {
        if map.terrain[index] == EntityKind::Wall {
            if room1.is_border(tile) || room2.is_border(tile) {
                map.terrain.set(index, EntityKind::Door);
            } else {
                map.terrain.set(index, EntityKind::Floor);
            }
        }
    }
}

impl DungeonMap {
    /// The tile of an index of the map.
    pub open spec fn tile_of(&self, index: int) -> (usize, usize) {
        ((index % (self.width as int)) as usize, (index / (self.width as int)) as usize)
    }

    /// The terrain of every tile with the tile, row by row.
    pub fn terrain_placements(&self) -> (list: Vec<(EntityKind, (usize, usize))>)
        requires
            self.well_formed(),
        ensures
            list@.len() == self.terrain@.len(),
            forall|i: int|
                0 <= i < list@.len() ==> #[trigger] list@[i] == (
                    self.terrain@[i],
                    self.tile_of(i),
                ),
    {
        let mut list: Vec<(EntityKind, (usize, usize))> = Vec::new();
        let mut i: usize = 0;
        while i < self.terrain.len()
            invariant
                self.well_formed(),
                i <= self.terrain@.len(),
                list@.len() == i,
                forall|k: int|
                    0 <= k < i ==> #[trigger] list@[k] == (self.terrain@[k], self.tile_of(k)),
            decreases self.terrain@.len() - i,
        {
            proof {
                lemma_zero_width(self.width as int, self.height as int);
            }
            list.push((self.terrain[i], (i % self.width, i / self.width)));
            i = i + 1;
        }
        list
    }

    /// Whether `entry` names something that lies on the map, with its tile.
    pub open spec fn is_item_entry(&self, entry: (EntityKind, (usize, usize))) -> bool {
        exists|i: int, j: int|
            0 <= i < self.items@.len() && 0 <= j < self.items@[i]@.len() && entry == (
                #[trigger] self.items@[i]@[j],
                self.tile_of(i),
            )
    }

    /// Whether `entry` names someone who stands on the map, with the tile,
    /// and not where the player is to stand.
    pub open spec fn is_actor_entry(&self, entry: (EntityKind, (usize, usize))) -> bool {
        exists|i: int|
            0 <= i < self.actors@.len() && self.player_pos != Some(self.tile_of(i)) && (
            #[trigger] self.actors@[i]) == Some(entry.0) && entry.1 == self.tile_of(i)
    }

    /// Everything that lies on the map, with its tile.
    pub fn item_placements(&self) -> (list: Vec<(EntityKind, (usize, usize))>)
        requires
            self.well_formed(),
        ensures
            forall|k: int| 0 <= k < list@.len() ==> self.is_item_entry(#[trigger] list@[k]),
            forall|entry: (EntityKind, (usize, usize))|
                self.is_item_entry(entry) ==> #[trigger] list@.contains(entry),
    {
        let mut list: Vec<(EntityKind, (usize, usize))> = Vec::new();
        let mut i: usize = 0;
        while i < self.items.len()
            invariant
                self.well_formed(),
                i <= self.items@.len(),
                forall|k: int| 0 <= k < list@.len() ==> self.is_item_entry(#[trigger] list@[k]),
                forall|a: int, b: int|
                    0 <= a < i && 0 <= b < self.items@[a]@.len() ==> list@.contains(
                        (#[trigger] self.items@[a]@[b], self.tile_of(a)),
                    ),
            decreases self.items@.len() - i,
        {
            proof {
                lemma_zero_width(self.width as int, self.height as int);
            }
            let tile = (i % self.width, i / self.width);
            let mut j: usize = 0;
            while j < self.items[i].len()
                invariant
                    self.well_formed(),
                    i < self.items@.len(),
                    j <= self.items@[i as int]@.len(),
                    tile == self.tile_of(i as int),
                    forall|k: int| 0 <= k < list@.len() ==> self.is_item_entry(#[trigger] list@[k]),
                    forall|a: int, b: int|
                        0 <= a <= i && 0 <= b < self.items@[a]@.len() && (a == i ==> b < j)
                            ==> list@.contains((#[trigger] self.items@[a]@[b], self.tile_of(a))),
                decreases self.items@[i as int]@.len() - j,
            {
                let ghost before = list@;
                list.push((self.items[i][j], tile));
                proof {
                    assert(self.is_item_entry((self.items@[i as int]@[j as int], tile)));
                    assert forall|k: int| 0 <= k < list@.len() implies self.is_item_entry(
                        #[trigger] list@[k],
                    ) by {
                        if k < before.len() {
                            assert(list@[k] == before[k]);
                        }
                    }
                    assert forall|a: int, b: int|
                        0 <= a <= i && 0 <= b < self.items@[a]@.len() && (a == i ==> b < j + 1)
                        implies list@.contains((#[trigger] self.items@[a]@[b], self.tile_of(a))) by {
                        let wanted = (self.items@[a]@[b], self.tile_of(a));
                        if a == i && b == j {
                            assert(list@[list@.len() - 1] == wanted);
                        } else {
                            assert(before.contains(wanted));
                            let k = choose|k: int| 0 <= k < before.len() && before[k] == wanted;
                            assert(list@[k] == wanted);
                        }
                    }
                }
                j = j + 1;
            }
            i = i + 1;
        }
        list
    }

    /// Everyone who stands on the map, with the tile, but for whoever
    /// stands where the player is to stand.
    pub fn actor_placements(&self) -> (list: Vec<(EntityKind, (usize, usize))>)
        requires
            self.well_formed(),
        ensures
            forall|k: int| 0 <= k < list@.len() ==> self.is_actor_entry(#[trigger] list@[k]),
            forall|entry: (EntityKind, (usize, usize))|
                self.is_actor_entry(entry) ==> #[trigger] list@.contains(entry),
    {
        let mut list: Vec<(EntityKind, (usize, usize))> = Vec::new();
        let mut i: usize = 0;
        while i < self.actors.len()
            invariant
                self.well_formed(),
                i <= self.actors@.len(),
                forall|k: int| 0 <= k < list@.len() ==> self.is_actor_entry(#[trigger] list@[k]),
                forall|a: int|
                    0 <= a < i && self.player_pos != Some(self.tile_of(a)) && (
                    #[trigger] self.actors@[a]) is Some ==> list@.contains(
                        (self.actors@[a]->0, self.tile_of(a)),
                    ),
            decreases self.actors@.len() - i,
        {
            proof {
                lemma_zero_width(self.width as int, self.height as int);
            }
            let tile = (i % self.width, i / self.width);
            let at_player = match self.player_pos {
                Some(place) => place.0 == tile.0 && place.1 == tile.1,
                None => false,
            };
            let ghost before = list@;
            let mut added = false;
            if !at_player {
                if let Some(kind) = self.actors[i] {
                    list.push((kind, tile));
                    added = true;
                    assert(self.is_actor_entry((kind, tile)));
                }
            }
            proof {
                assert forall|k: int| 0 <= k < list@.len() implies self.is_actor_entry(
                    #[trigger] list@[k],
                ) by {
                    if k < before.len() {
                        assert(list@[k] == before[k]);
                    }
                }
                assert forall|a: int|
                    0 <= a < i + 1 && self.player_pos != Some(self.tile_of(a)) && (
                    #[trigger] self.actors@[a]) is Some implies list@.contains(
                    (self.actors@[a]->0, self.tile_of(a)),
                ) by {
                    let wanted = (self.actors@[a]->0, self.tile_of(a));
                    if a == i {
                        assert(added);
                        assert(list@[list@.len() - 1] == wanted);
                    } else {
                        assert(before.contains(wanted));
                        let k = choose|k: int| 0 <= k < before.len() && before[k] == wanted;
                        assert(list@[k] == wanted);
                    }
                }
            }
            i = i + 1;
        }
        list
    }
}

/// A map without width has no tiles.
proof fn lemma_zero_width(width: int, height: int)
    requires
        0 <= width,
        0 <= height,
    ensures
        width == 0 ==> width * height == 0,
{
    if width == 0 {
        assert(width * height == 0) by (nonlinear_arith)
            requires
                width == 0,
        ;
    }
}

/// Plans a level: one of the templates, picked by chance, with rows and
/// columns swapped or not and turned by up to three quarters as chance will
/// have it, is laid out and built.
pub fn plan_level(level: u32, dice: &mut Dice) -> (map: DungeonMap)
    ensures
        map.well_formed(),
        map.width == 22,
        map.height == 22,
        map.player_pos matches Some(place) && place.0 < 22 && place.1 < 22,
        extends(old(dice).drawn(), final(dice).drawn()),
{
    let ghost before = dice.drawn();
    let mut templates = dungeon_templates();
    let pick = dice.roll(templates.len() as u64);
    let ghost picked = dice.drawn();
    let mut template = templates.swap_remove(pick as usize);
    if dice.roll(2) == 0 {
        template.transpose();
    }
    let ghost swapped = dice.drawn();
    let turns = dice.roll(4);
    proof {
        extends_is_transitive(before, picked, swapped);
        extends_is_transitive(before, swapped, dice.drawn());
    }
    let mut n: u64 = 0;
    while n < turns
        invariant
            n <= turns,
            template.well_formed(),
        decreases turns - n,
    {
        template.rotate();
        n = n + 1;
    }
    let ghost turned = dice.drawn();
    let layout = QuadrantMap::new(level, template, dice);
    let ghost laid_out = dice.drawn();
    let map = layout.build(dice);
    proof {
        extends_is_transitive(before, turned, laid_out);
        extends_is_transitive(before, laid_out, dice.drawn());
    }
    map
}

} // verus!
