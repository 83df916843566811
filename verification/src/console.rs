//! A grid of coloured glyphs.
use crate::components::{Appearance, Pos, Rgba};
use vstd::prelude::*;

verus! {

/// One glyph of the grid: its colours, its sprite, and how it overlaps.
#[derive(Debug, Copy, Clone, PartialEq, Eq)]
pub struct Cell {
    pub fg: Option<Rgba>,
    pub bg: Option<Rgba>,
    pub c: Option<u32>,
    pub layer: u32,
    pub ignore_overlap: bool,
}

impl Default for Cell {
    /// A cell without colours or glyph.
    fn default() -> (cell: Cell)
        ensures
            cell == (Cell { fg: None, bg: None, c: None, layer: 0, ignore_overlap: false }),
    {
        Cell { fg: None, bg: None, c: None, layer: 0, ignore_overlap: false }
    }
}

impl Cell {
    /// Sets the colour of the glyph.
    pub fn set_fg(&mut self, color: Rgba) -> (cell: &mut Self)
        ensures
            *cell == (Cell { fg: Some(color), ..*old(self) }),
            *final(self) == *final(cell),
    {
        self.fg = Some(color);
        self
    }

    /// Sets the colour behind the glyph.
    pub fn set_bg(&mut self, color: Rgba) -> (cell: &mut Self)
        ensures
            *cell == (Cell { bg: Some(color), ..*old(self) }),
            *final(self) == *final(cell),
    {
        self.bg = Some(color);
        self
    }

    /// Sets the layer from which the glyph comes.
    pub fn set_layer(&mut self, layer: u32) -> (cell: &mut Self)
        ensures
            *cell == (Cell { layer, ..*old(self) }),
            *final(self) == *final(cell),
    {
        self.layer = layer;
        self
    }

    /// Sets whether the glyph gives way to others without leaving a trace.
    pub fn set_ignore_overlap(&mut self, ignore_overlap: bool) -> (cell: &mut Self)
        ensures
            *cell == (Cell { ignore_overlap, ..*old(self) }),
            *final(self) == *final(cell),
    {
        self.ignore_overlap = ignore_overlap;
        self
    }

    /// Sets the glyph.
    pub fn set_c(&mut self, c: u32) -> (cell: &mut Self)
        ensures
            *cell == (Cell { c: Some(c), ..*old(self) }),
            *final(self) == *final(cell),
    {
        self.c = Some(c);
        self
    }
}

/// The cell of an empty grid: a blank that gives way.
pub open spec fn blank() -> Cell {
    Cell { fg: None, bg: None, c: Some(32), layer: 0, ignore_overlap: true }
}

/// A grid of cells, held row by row.
pub struct AsciiConsole {
    pub cells: Vec<Cell>,
    pub width: usize,
    pub height: usize,
}

impl AsciiConsole {
    /// Whether the grid has a cell for each of its tiles.
    pub open spec fn well_formed(&self) -> bool {
        self.cells@.len() == self.width * self.height
    }

    /// Whether `pos` is a tile of the grid.
    pub open spec fn holds(&self, pos: (i32, i32)) -> bool {
        0 <= pos.0 < self.width && 0 <= pos.1 < self.height
    }

    /// The place of the cell of a tile among the cells.
    pub open spec fn index_of(&self, pos: (i32, i32)) -> int {
        pos.0 + self.width * pos.1
    }

    /// The cell in column `x` and row `y`.
    pub open spec fn tile(&self, x: int, y: int) -> Cell {
        self.cells@[x + self.width * y]
    }

    /// Whether the grid has a column `x` and a row `y`.
    pub open spec fn has(&self, x: int, y: int) -> bool {
        0 <= x < self.width && 0 <= y < self.height
    }

    /// The cell of a tile, if the grid has the tile.
    pub open spec fn cell_at(&self, pos: (i32, i32)) -> Option<Cell> {
        if self.holds(pos) {
            Some(self.cells@[self.index_of(pos)])
        } else {
            None
        }
    }

    /// A grid of the given size, each cell of which is `default_cell`, or a
    /// blank if none is given.
    pub fn new(width: usize, height: usize, default_cell: Option<Cell>) -> (console: AsciiConsole)
        requires
            width * height <= usize::MAX,
        ensures
            console.well_formed(),
            console.width == width,
            console.height == height,
            forall|i: int|
                0 <= i < width * height ==> #[trigger] console.cells@[i] == (match default_cell {
                    Some(cell) => cell,
                    None => blank(),
                }),
    {
        let default_cell = match default_cell {
            Some(cell) => cell,
            None => Cell { fg: None, bg: None, c: Some(32), layer: 0, ignore_overlap: true },
        };
        let n = width * height;
        let mut cells: Vec<Cell> = Vec::new();
        let mut i: usize = 0;
        while i < n
            invariant
                i <= n,
                cells@.len() == i,
                forall|k: int| 0 <= k < i ==> #[trigger] cells@[k] == default_cell,
            decreases n - i,
        {
            cells.push(default_cell);
            i = i + 1;
        }
        AsciiConsole { cells, width, height }
    }

    /// The place of the cell of a tile among the cells, if the grid has the
    /// tile.
    fn place(&self, pos: (i32, i32)) -> (index: Option<usize>)
        requires
            self.well_formed(),
        ensures
            index is Some <==> self.holds(pos),
            index matches Some(i) ==> i == self.index_of(pos) && i < self.cells@.len(),
    {
        if pos.0 < 0 || pos.1 < 0 {
            return None;
        }
        let x = pos.0 as usize;
        let y = pos.1 as usize;
        if x >= self.width || y >= self.height {
            return None;
        }
        proof {
            lemma_cell_in_bounds(self.width as int, self.height as int, x as int, y as int);
        }
        let cells = self.cells.len();
        assert(x + self.width * y < cells);
        Some(x + self.width * y)
    }

    /// The place of the cell in column `x` and row `y` among the cells, if
    /// the grid has it.
    fn place_at(&self, x: i128, y: i128) -> (index: Option<usize>)
        requires
            self.well_formed(),
        ensures
            index is Some <==> self.has(x as int, y as int),
            index matches Some(i) ==> i == x + self.width * y && i < self.cells@.len(),
    {
        if x < 0 || y < 0 || x >= self.width as i128 || y >= self.height as i128 {
            return None;
        }
        let column = x as usize;
        let row = y as usize;
        proof {
            lemma_cell_in_bounds(self.width as int, self.height as int, x as int, y as int);
        }
        let cells = self.cells.len();
        assert(column + self.width * row < cells);
        Some(column + self.width * row)
    }

    /// The cell of a tile, if the grid has the tile.
    pub fn get(&self, pos: &(i32, i32)) -> (cell: Option<&Cell>)
        requires
            self.well_formed(),
        ensures
            cell is Some <==> self.holds(*pos),
            cell matches Some(found) ==> Some(*found) == self.cell_at(*pos),
    {
        match self.place(*pos) {
            Some(index) => Some(&self.cells[index]),
            None => None,
        }
    }

    /// The cell of a tile, to be changed, if the grid has the tile.
    pub fn get_mut(&mut self, pos: &(i32, i32)) -> (cell: Option<&mut Cell>)
        requires
            old(self).well_formed(),
        ensures
            cell is Some <==> old(self).holds(*pos),
            match cell {
                Some(found) => *found == old(self).cells@[old(self).index_of(*pos)] && final(self).same_size(*old(self)) && final(self).cells@ == old(self).with_cell(
                    *pos,
                    *final(found),
                ),
                None => *final(self) == *old(self),
            },
    {
        match self.place(*pos) {
            Some(index) => Some(&mut self.cells[index]),
            None => None,
        }
    }

    /// Replaces the cell of a tile, if the grid has the tile.
    pub fn set(&mut self, pos: &(i32, i32), new_cell: Cell)
        requires
            old(self).well_formed(),
        ensures
            final(self).same_size(*old(self)),
            final(self).cells@ == old(self).with_cell(*pos, new_cell),
    {
        if let Some(index) = self.place(*pos) {
            self.cells.set(index, new_cell);
        }
    }

    /// Whether the two grids are of one size.
    pub open spec fn same_size(&self, other: AsciiConsole) -> bool {
        self.width == other.width && self.height == other.height && self.cells@.len()
            == other.cells@.len()
    }

    /// The cells of the grid with `cell` on the tile `pos`, if it has the
    /// tile.
    pub open spec fn with_cell(&self, pos: (i32, i32), cell: Cell) -> Seq<Cell> {
        if self.holds(pos) {
            self.cells@.update(self.index_of(pos), cell)
        } else {
            self.cells@
        }
    }
}

/// The cell with a glyph in a colour, and with a colour behind it if one
/// is given.
pub open spec fn painted(cell: Cell, c: u32, fg: Rgba, bg: Option<Rgba>) -> Cell {
    Cell {
        c: Some(c),
        fg: Some(fg),
        bg: match bg {
            Some(color) => Some(color),
            None => cell.bg,
        },
        ..cell
    }
}

/// The glyph of a frame on a tile, if the frame passes there. The frame
/// has its corner at `(x, y)` and reaches `w1` tiles across and `h1` tiles
/// down. It is drawn in three stages: the upper and the lower edge, of
/// which the tiles before `across` are done; the left and the right edge, of
/// which the tiles before `down` are done; and the four corners, of which
/// `corners` are done. What is drawn later covers what was drawn before.
pub open spec fn frame_glyph(
    x: int,
    y: int,
    w1: int,
    h1: int,
    across: int,
    down: int,
    corners: int,
    tx: int,
    ty: int,
) -> Option<u32> {
    if corners >= 4 && tx == x + w1 && ty == y + h1 {
        Some(217)
    } else if corners >= 3 && tx == x + w1 && ty == y {
        Some(191)
    } else if corners >= 2 && tx == x && ty == y + h1 {
        Some(192)
    } else if corners >= 1 && tx == x && ty == y {
        Some(218)
    } else if 1 <= ty - y < down && (tx == x || tx == x + w1) {
        Some(179)
    } else if 1 <= tx - x < across && (ty == y || ty == y + h1) {
        Some(196)
    } else {
        None
    }
}

/// The glyph and the colour of a bar on a tile, if the bar passes there.
/// The bar begins at `(x, y)` and is `w` tiles long: a stroke at either end,
/// and between them `fill` tiles that are full and the others empty. It is
/// drawn in two stages: the ends, of which `ends` are done, and the tiles
/// between, of which those before `along` are done.
pub open spec fn bar_glyph(
    color: Rgba,
    x: int,
    y: int,
    w: int,
    fill: int,
    ends: int,
    along: int,
    tx: int,
    ty: int,
) -> Option<(u32, Rgba)> {
    if ty != y {
        None
    } else if 0 <= tx - x - 1 < along && tx - x - 1 < w - 2 {
        if tx - x - 1 < fill {
            Some((35u32, color))
        } else {
            Some((45u32, Rgba { r: 79, g: 79, b: 79, a: 255 }))
        }
    } else if ends >= 2 && tx == x + w - 1 {
        Some((124u32, Rgba { r: 255, g: 255, b: 255, a: 255 }))
    } else if ends >= 1 && tx == x {
        Some((124u32, Rgba { r: 255, g: 255, b: 255, a: 255 }))
    } else {
        None
    }
}

impl AsciiConsole {
    /// Puts a glyph with its colours on a tile, if the grid has the tile.
    fn paint(&mut self, x: i128, y: i128, c: u32, fg: Rgba, bg: Option<Rgba>)
        requires
            old(self).well_formed(),
        ensures
            final(self).well_formed(),
            final(self).same_size(*old(self)),
            forall|tx: int, ty: int|
                old(self).has(tx, ty) ==> #[trigger] final(self).tile(tx, ty) == (if tx == x && ty
                    == y {
                    painted(old(self).tile(tx, ty), c, fg, bg)
                } else {
                    old(self).tile(tx, ty)
                }),
    {
        if let Some(index) = self.place_at(x, y) {
            let cell = self.cells[index];
            let next = Cell {
                fg: Some(fg),
                bg: match bg {
                    Some(color) => Some(color),
                    None => cell.bg,
                },
                c: Some(c),
                layer: cell.layer,
                ignore_overlap: cell.ignore_overlap,
            };
            self.cells.set(index, next);
            proof {
                assert forall|tx: int, ty: int| old(self).has(tx, ty) implies #[trigger] self.tile(
                    tx,
                    ty,
                ) == (if tx == x && ty == y {
                    painted(old(self).tile(tx, ty), c, fg, bg)
                } else {
                    old(self).tile(tx, ty)
                }) by {
                    lemma_cell_in_bounds(self.width as int, self.height as int, tx, ty);
                    if !(tx == x && ty == y) {
                        if tx + self.width * ty == index {
                            lemma_cell_is_unique(self.width as int, tx, ty, x as int, y as int);
                        }
                    }
                }
            }
        }
    }

    /// Sets the colour of the glyph on a tile, if the grid has the tile.
    pub fn set_fg(&mut self, pos: &(i32, i32), color: Rgba) -> (con: &mut Self)
        requires
            old(self).well_formed(),
        ensures
            con.same_size(*old(self)),
            con.well_formed(),
            con.cells@ == old(self).with_cell(
                *pos,
                Cell { fg: Some(color), ..old(self).cells@[old(self).index_of(*pos)] },
            ),
            *final(self) == *final(con),
    {
        if let Some(index) = self.place(*pos) {
            let mut cell = self.cells[index];
            cell.fg = Some(color);
            self.cells.set(index, cell);
        }
        self
    }

    /// Sets the colour behind the glyph on a tile, if the grid has the tile.
    pub fn set_bg(&mut self, pos: &(i32, i32), color: Rgba) -> (con: &mut Self)
        requires
            old(self).well_formed(),
        ensures
            con.same_size(*old(self)),
            con.well_formed(),
            con.cells@ == old(self).with_cell(
                *pos,
                Cell { bg: Some(color), ..old(self).cells@[old(self).index_of(*pos)] },
            ),
            *final(self) == *final(con),
    {
        if let Some(index) = self.place(*pos) {
            let mut cell = self.cells[index];
            cell.bg = Some(color);
            self.cells.set(index, cell);
        }
        self
    }

    /// Sets the layer of the glyph on a tile, if the grid has the tile.
    pub fn set_layer(&mut self, pos: &(i32, i32), layer: u32) -> (con: &mut Self)
        requires
            old(self).well_formed(),
        ensures
            con.same_size(*old(self)),
            con.well_formed(),
            con.cells@ == old(self).with_cell(
                *pos,
                Cell { layer, ..old(self).cells@[old(self).index_of(*pos)] },
            ),
            *final(self) == *final(con),
    {
        if let Some(index) = self.place(*pos) {
            let mut cell = self.cells[index];
            cell.layer = layer;
            self.cells.set(index, cell);
        }
        self
    }

    /// Sets the glyph on a tile, if the grid has the tile.
    pub fn set_c(&mut self, pos: &(i32, i32), c: u32) -> (con: &mut Self)
        requires
            old(self).well_formed(),
        ensures
            con.same_size(*old(self)),
            con.well_formed(),
            con.cells@ == old(self).with_cell(
                *pos,
                Cell { c: Some(c), ..old(self).cells@[old(self).index_of(*pos)] },
            ),
            *final(self) == *final(con),
    {
        if let Some(index) = self.place(*pos) {
            let mut cell = self.cells[index];
            cell.c = Some(c);
            self.cells.set(index, cell);
        }
        self
    }

    /// Copies the grid onto `dest` with its corner at `pos`; what falls
    /// outside `dest` is left out.
    pub fn blit(&self, pos: &(i32, i32), dest: &mut AsciiConsole)
        requires
            self.well_formed(),
            old(dest).well_formed(),
        ensures
            final(dest).well_formed(),
            final(dest).same_size(*old(dest)),
            forall|tx: int, ty: int|
                old(dest).has(tx, ty) ==> #[trigger] final(dest).tile(tx, ty) == (if self.has(
                    tx - pos.0,
                    ty - pos.1,
                ) {
                    self.tile(tx - pos.0, ty - pos.1)
                } else {
                    old(dest).tile(tx, ty)
                }),
    {
        let mut x: usize = 0;
        while x < self.width
            invariant
                x <= self.width,
                self.well_formed(),
                dest.well_formed(),
                dest.same_size(*old(dest)),
                forall|tx: int, ty: int|
                    old(dest).has(tx, ty) ==> #[trigger] dest.tile(tx, ty) == (if self.has(
                        tx - pos.0,
                        ty - pos.1,
                    ) && tx - pos.0 < x {
                        self.tile(tx - pos.0, ty - pos.1)
                    } else {
                        old(dest).tile(tx, ty)
                    }),
            decreases self.width - x,
        {
            let mut y: usize = 0;
            while y < self.height
                invariant
                    x < self.width,
                    y <= self.height,
                    self.well_formed(),
                    dest.well_formed(),
                    dest.same_size(*old(dest)),
                    forall|tx: int, ty: int|
                        old(dest).has(tx, ty) ==> #[trigger] dest.tile(tx, ty) == (if self.has(
                            tx - pos.0,
                            ty - pos.1,
                        ) && (tx - pos.0 < x || (tx - pos.0 == x && ty - pos.1 < y)) {
                            self.tile(tx - pos.0, ty - pos.1)
                        } else {
                            old(dest).tile(tx, ty)
                        }),
                decreases self.height - y,
            {
                proof {
                    lemma_cell_in_bounds(
                        self.width as int,
                        self.height as int,
                        x as int,
                        y as int,
                    );
                }
                let cells = self.cells.len();
                let source = self.cells[x + self.width * y];
                let to_x: i128 = x as i128 + pos.0 as i128;
                let to_y: i128 = y as i128 + pos.1 as i128;
                assert(source == self.tile(x as int, y as int));
                {
                    let ghost before = *dest;
                    if let Some(index) = dest.place_at(to_x, to_y) {
                        dest.cells.set(index, source);
                        proof {
                            assert forall|tx: int, ty: int| before.has(tx, ty) implies #[trigger] dest.tile(
                                tx,
                                ty,
                            ) == (if tx == to_x && ty == to_y {
                                source
                            } else {
                                before.tile(tx, ty)
                            }) by {
                                lemma_cell_in_bounds(
                                    dest.width as int,
                                    dest.height as int,
                                    tx,
                                    ty,
                                );
                                if !(tx == to_x && ty == to_y) {
                                    if tx + dest.width * ty == index {
                                        lemma_cell_is_unique(
                                            dest.width as int,
                                            tx,
                                            ty,
                                            to_x as int,
                                            to_y as int,
                                        );
                                    }
                                }
                            }
                        }
                    }
                }
                y = y + 1;
            }
            x = x + 1;
        }
    }

    /// Draws a frame of `w` by `h` tiles with its corner at `(x, y)`:
    /// lines along the edges and a corner piece at each corner, in the
    /// colour `fg` on `bg`.
    pub fn rectangle(&mut self, fg: Rgba, bg: Rgba, x: i32, y: i32, w: i32, h: i32)
        requires
            old(self).well_formed(),
        ensures
            final(self).well_formed(),
            final(self).same_size(*old(self)),
            forall|tx: int, ty: int|
                old(self).has(tx, ty) ==> #[trigger] final(self).tile(tx, ty) == (match frame_glyph(
                    x as int,
                    y as int,
                    w - 1,
                    h - 1,
                    w - 1,
                    h - 1,
                    4,
                    tx,
                    ty,
                ) {
                    Some(c) => painted(old(self).tile(tx, ty), c, fg, Some(bg)),
                    None => old(self).tile(tx, ty),
                }),
    {
        let x: i128 = x as i128;
        let y: i128 = y as i128;
        let w: i128 = w as i128 - 1;
        let h: i128 = h as i128 - 1;
        let mut i: i128 = 1;
        while i < w
            invariant
                1 <= i,
                i <= w || w < 1,
                w < 1 ==> i == 1,
                -0x8000_0000 <= x <= 0x7fff_ffff,
                -0x8000_0000 <= y <= 0x7fff_ffff,
                -0x8000_0001 <= w <= 0x7fff_ffff,
                -0x8000_0001 <= h <= 0x7fff_ffff,
                self.well_formed(),
                self.same_size(*old(self)),
                forall|tx: int, ty: int|
                    old(self).has(tx, ty) ==> #[trigger] self.tile(tx, ty) == (match frame_glyph(
                        x as int,
                        y as int,
                        w as int,
                        h as int,
                        i as int,
                        1,
                        0,
                        tx,
                        ty,
                    ) {
                        Some(c) => painted(old(self).tile(tx, ty), c, fg, Some(bg)),
                        None => old(self).tile(tx, ty),
                    }),
            decreases w - i,
        {
            self.paint(x + i, y, 196, fg, Some(bg));
            self.paint(x + i, y + h, 196, fg, Some(bg));
            i = i + 1;
        }
        let mut j: i128 = 1;
        while j < h
            invariant
                1 <= j,
                j <= h || h < 1,
                h < 1 ==> j == 1,
                -0x8000_0000 <= x <= 0x7fff_ffff,
                -0x8000_0000 <= y <= 0x7fff_ffff,
                -0x8000_0001 <= w <= 0x7fff_ffff,
                -0x8000_0001 <= h <= 0x7fff_ffff,
                self.well_formed(),
                self.same_size(*old(self)),
                forall|tx: int, ty: int|
                    old(self).has(tx, ty) ==> #[trigger] self.tile(tx, ty) == (match frame_glyph(
                        x as int,
                        y as int,
                        w as int,
                        h as int,
                        w as int,
                        j as int,
                        0,
                        tx,
                        ty,
                    ) {
                        Some(c) => painted(old(self).tile(tx, ty), c, fg, Some(bg)),
                        None => old(self).tile(tx, ty),
                    }),
            decreases h - j,
        {
            self.paint(x, y + j, 179, fg, Some(bg));
            self.paint(x + w, y + j, 179, fg, Some(bg));
            j = j + 1;
        }
        self.paint(x, y, 218, fg, Some(bg));
        self.paint(x, y + h, 192, fg, Some(bg));
        self.paint(x + w, y, 191, fg, Some(bg));
        self.paint(x + w, y + h, 217, fg, Some(bg));
    }

    /// Draws a bar of `w` tiles from `(x, y)` on: a white stroke at either
    /// end, and between them `fill` full tiles in `color` and the others
    /// empty in grey.
    pub fn progress_bar_to(&mut self, color: Rgba, x: i32, y: i32, w: i32, fill: i32)
        requires
            old(self).well_formed(),
        ensures
            final(self).well_formed(),
            final(self).same_size(*old(self)),
            forall|tx: int, ty: int|
                old(self).has(tx, ty) ==> #[trigger] final(self).tile(tx, ty) == (match bar_glyph(
                    color,
                    x as int,
                    y as int,
                    w as int,
                    fill as int,
                    2,
                    w - 2,
                    tx,
                    ty,
                ) {
                    Some(glyph) => painted(old(self).tile(tx, ty), glyph.0, glyph.1, None),
                    None => old(self).tile(tx, ty),
                }),
    {
        let white = Rgba { r: 255, g: 255, b: 255, a: 255 };
        let grey = Rgba { r: 79, g: 79, b: 79, a: 255 };
        let x: i128 = x as i128;
        let y: i128 = y as i128;
        let w: i128 = w as i128;
        self.paint(x, y, 124, white, None);
        self.paint(x + w - 1, y, 124, white, None);
        let mut i: i128 = 0;
        while i < w - 2
            invariant
                0 <= i,
                i <= w - 2 || w - 2 < 0,
                w - 2 < 0 ==> i == 0,
                grey == (Rgba { r: 79, g: 79, b: 79, a: 255 }),
                -0x8000_0000 <= x <= 0x7fff_ffff,
                -0x8000_0000 <= y <= 0x7fff_ffff,
                -0x8000_0000 <= w <= 0x7fff_ffff,
                self.well_formed(),
                self.same_size(*old(self)),
                forall|tx: int, ty: int|
                    old(self).has(tx, ty) ==> #[trigger] self.tile(tx, ty) == (match bar_glyph(
                        color,
                        x as int,
                        y as int,
                        w as int,
                        fill as int,
                        2,
                        i as int,
                        tx,
                        ty,
                    ) {
                        Some(glyph) => painted(old(self).tile(tx, ty), glyph.0, glyph.1, None),
                        None => old(self).tile(tx, ty),
                    }),
            decreases w - 2 - i,
        {
            if i < fill as i128 {
                self.paint(x + 1 + i, y, 35, color, None);
            } else {
                self.paint(x + 1 + i, y, 45, grey, None);
            }
            i = i + 1;
        }
    }
}

/// The number of bytes that a character takes in a string.
pub open spec fn utf8_len(c: char) -> int {
    if (c as u32) < 0x80 {
        1
    } else if (c as u32) < 0x800 {
        2
    } else if (c as u32) < 0x1_0000 {
        3
    } else {
        4
    }
}

/// The number of bytes that the first `k` characters of a text take: the
/// place of the next character in the string.
pub open spec fn offset_of(text: Seq<char>, k: int) -> int
    decreases k,
{
    if k <= 0 {
        0
    } else {
        offset_of(text, k - 1) + utf8_len(text[k - 1])
    }
}

/// The character of a text that is printed in the column `tx` when the text
/// begins in the column `x` and each of its first `upto` characters stands
/// as many columns from there as it stands bytes into the string.
pub open spec fn printed_at(text: Seq<char>, x: int, upto: int, tx: int) -> Option<char>
    decreases upto,
{
    if upto <= 0 {
        None
    } else if tx == x + offset_of(text, upto - 1) {
        Some(text[upto - 1])
    } else {
        printed_at(text, x, upto - 1, tx)
    }
}

/// The number of bytes that a character takes in a string.
fn char_width(c: char) -> (n: u128)
    ensures
        n == utf8_len(c),
{
    let code = c as u32;
    if code < 0x80 {
        1
    } else if code < 0x800 {
        2
    } else if code < 0x1_0000 {
        3
    } else {
        4
    }
}

impl AsciiConsole {
    /// Prints a text in the row `y` from the column `x` on.
    fn print_row(&mut self, fg: Rgba, bg: Rgba, x: i128, y: i128, text: &str)
        requires
            old(self).well_formed(),
            -0x8000_0000 <= x <= 0x7fff_ffff,
        ensures
            final(self).well_formed(),
            final(self).same_size(*old(self)),
            forall|tx: int, ty: int|
                old(self).has(tx, ty) ==> #[trigger] final(self).tile(tx, ty) == (if ty == y {
                    match printed_at(text@, x as int, text@.len() as int, tx) {
                        Some(c) => painted(old(self).tile(tx, ty), c as u32, fg, Some(bg)),
                        None => old(self).tile(tx, ty),
                    }
                } else {
                    old(self).tile(tx, ty)
                }),
    {
        let n = text.unicode_len();
        let mut offset: u128 = 0;
        let mut k: usize = 0;
        while k < n
            invariant
                k <= n,
                n == text@.len(),
                -0x8000_0000 <= x <= 0x7fff_ffff,
                offset == offset_of(text@, k as int),
                offset <= 4 * k,
                self.well_formed(),
                self.same_size(*old(self)),
                forall|tx: int, ty: int|
                    old(self).has(tx, ty) ==> #[trigger] self.tile(tx, ty) == (if ty == y {
                        match printed_at(text@, x as int, k as int, tx) {
                            Some(c) => painted(old(self).tile(tx, ty), c as u32, fg, Some(bg)),
                            None => old(self).tile(tx, ty),
                        }
                    } else {
                        old(self).tile(tx, ty)
                    }),
            decreases n - k,
        {
            let c = text.get_char(k);
            self.paint(x + offset as i128, y, c as u32, fg, Some(bg));
            offset = offset + char_width(c);
            k = k + 1;
        }
    }

    /// Prints a text in the row `y` from the column `x` on, in the colour
    /// `fg` on `bg`. Each character stands as many columns from `x` as it
    /// stands bytes into the text, so that a character of several bytes is
    /// followed by a gap.
    pub fn print_line(&mut self, fg: Rgba, bg: Rgba, x: i32, y: i32, text: String)
        requires
            old(self).well_formed(),
        ensures
            final(self).well_formed(),
            final(self).same_size(*old(self)),
            forall|tx: int, ty: int|
                old(self).has(tx, ty) ==> #[trigger] final(self).tile(tx, ty) == (if ty == y {
                    match printed_at(text@, x as int, text@.len() as int, tx) {
                        Some(c) => painted(old(self).tile(tx, ty), c as u32, fg, Some(bg)),
                        None => old(self).tile(tx, ty),
                    }
                } else {
                    old(self).tile(tx, ty)
                }),
    {
        self.print_row(fg, bg, x as i128, y as i128, text.as_str());
    }

    /// Prints a text from `(x, y)` on, broken into lines of `width`
    /// characters as `wrapped` says, one line to a row; gives the number of
    /// lines.
    pub fn print_multi_line(
        &mut self,
        fg: Rgba,
        bg: Rgba,
        x: i32,
        y: i32,
        width: i32,
        text: String,
    ) -> (count: i32)
        requires
            old(self).well_formed(),
            vstd::string::string_is_ascii(&text),
            width >= 0,
            text@.len() < i32::MAX,
        ensures
            final(self).well_formed(),
            final(self).same_size(*old(self)),
            count == wrapped(text@, width as int).len(),
            forall|tx: int, ty: int|
                old(self).has(tx, ty) ==> #[trigger] final(self).tile(tx, ty) == (match page_at(
                    wrapped(text@, width as int),
                    x as int,
                    y as int,
                    count as int,
                    tx,
                    ty,
                ) {
                    Some(c) => painted(old(self).tile(tx, ty), c as u32, fg, Some(bg)),
                    None => old(self).tile(tx, ty),
                }),
    {
        let lines = wrap(text.as_str(), width as usize);
        proof {
            lemma_wrapped_is_short(text@, width as int);
            assert(texts(lines@).len() == lines@.len());
        }
        let mut i: usize = 0;
        while i < lines.len()
            invariant
                i <= lines.len(),
                lines@.len() <= i32::MAX,
                texts(lines@) == wrapped(text@, width as int),
                self.well_formed(),
                self.same_size(*old(self)),
                forall|tx: int, ty: int|
                    old(self).has(tx, ty) ==> #[trigger] self.tile(tx, ty) == (match page_at(
                        wrapped(text@, width as int),
                        x as int,
                        y as int,
                        i as int,
                        tx,
                        ty,
                    ) {
                        Some(c) => painted(old(self).tile(tx, ty), c as u32, fg, Some(bg)),
                        None => old(self).tile(tx, ty),
                    }),
            decreases lines.len() - i,
        {
            assert(texts(lines@)[i as int] == lines@[i as int]@);
            self.print_row(fg, bg, x as i128, y as i128 + i as i128, lines[i].as_str());
            i = i + 1;
        }
        lines.len() as i32
    }
}

/// The character that is printed on a tile when the first `upto` of `lines`
/// are printed from `(x, y)` on, one to a row.
pub open spec fn page_at(
    lines: Seq<Seq<char>>,
    x: int,
    y: int,
    upto: int,
    tx: int,
    ty: int,
) -> Option<char> {
    if 0 <= ty - y < upto && ty - y < lines.len() {
        printed_at(lines[ty - y], x, lines[ty - y].len() as int, tx)
    } else {
        None
    }
}

/// A text is broken into no more lines than it has characters, and one.
pub proof fn lemma_wrapped_is_short(text: Seq<char>, width: int)
    ensures
        1 <= wrapped(text, width).len() <= text.len() + 1,
    decreases text.len(),
{
    let cut = cut_of(text, width);
    if text.len() <= width || cut < 1 || cut > text.len() {
    } else {
        lemma_wrapped_is_short(text.skip(cut), width);
    }
}

/// The place of the last blank among the first `upto` characters of a
/// text, if there is one.
pub open spec fn last_space(text: Seq<char>, upto: int) -> Option<int>
    decreases upto,
{
    if upto <= 0 {
        None
    } else if text[upto - 1] == ' ' {
        Some(upto - 1)
    } else {
        last_space(text, upto - 1)
    }
}

/// Where a text that is too long for a line of `width` characters is cut:
/// behind the last blank among its first `width + 2` characters, or behind
/// `width + 1` characters if there is none.
pub open spec fn cut_of(text: Seq<char>, width: int) -> int {
    let seen = if width + 2 < text.len() {
        width + 2
    } else {
        text.len() as int
    };
    match last_space(text, seen) {
        Some(i) => i + 1,
        None => width + 1,
    }
}

/// The lines into which a text is broken so that it fits a width: as long
/// as it has more than `width` characters, it is cut as `cut_of` says.
pub open spec fn wrapped(text: Seq<char>, width: int) -> Seq<Seq<char>>
    decreases text.len(),
{
    let cut = cut_of(text, width);
    if text.len() <= width || cut < 1 || cut > text.len() {
        seq![text]
    } else {
        seq![text.take(cut)] + wrapped(text.skip(cut), width)
    }
}

/// The texts of a list of strings.
pub open spec fn texts(lines: Seq<String>) -> Seq<Seq<char>> {
    Seq::new(lines.len(), |i: int| lines[i]@)
}

/// The lines into which a text is broken so that it fits a width.
pub fn wrap(text: &str, width: usize) -> (lines: Vec<String>)
    requires
        text.is_ascii(),
    ensures
        texts(lines@) == wrapped(text@, width as int),
{
    let n = text.unicode_len();
    let mut lines: Vec<String> = Vec::new();
    let mut start: usize = 0;
    proof {
        assert(text@.skip(0) =~= text@);
        assert(texts(lines@) + wrapped(text@.skip(0), width as int) =~= wrapped(
            text@,
            width as int,
        ));
    }
    while n - start > width
        invariant
            start <= n,
            n == text@.len(),
            text.is_ascii(),
            texts(lines@) + wrapped(text@.skip(start as int), width as int) == wrapped(
                text@,
                width as int,
            ),
        decreases n - start,
    {
        let ghost rest = text@.skip(start as int);
        let left = n - start;
        let seen = if width < left - 1 && width + 2 < left {
            width + 2
        } else {
            left
        };
        let mut found: Option<usize> = None;
        let mut j: usize = 0;
        while j < seen
            invariant
                j <= seen,
                seen <= left,
                left == n - start,
                start <= n,
                n == text@.len(),
                text.is_ascii(),
                rest == text@.skip(start as int),
                match found {
                    Some(i) => last_space(rest, j as int) == Some(i as int) && i < j,
                    None => last_space(rest, j as int) is None,
                },
            decreases seen - j,
        {
            let c = text.get_char(start + j);
            assert(rest[j as int] == c);
            if c == ' ' {
                found = Some(j);
            }
            j = j + 1;
        }
        let cut = match found {
            Some(i) => i + 1,
            None => width + 1,
        };
        assert(cut == cut_of(rest, width as int));
        assert(1 <= cut <= left);
        let piece = text.substring_ascii(start, start + cut);
        let ghost before = lines@;
        lines.push(String::from_str(piece));
        proof {
            assert(piece@ =~= rest.take(cut as int));
            assert(rest.skip(cut as int) =~= text@.skip(start + cut));
            assert(texts(lines@) =~= texts(before) + seq![rest.take(cut as int)]);
            assert(wrapped(rest, width as int) == seq![rest.take(cut as int)] + wrapped(
                rest.skip(cut as int),
                width as int,
            ));
            assert(texts(lines@) + wrapped(text@.skip(start + cut), width as int) =~= texts(before)
                + wrapped(rest, width as int));
        }
        start = start + cut;
    }
    let ghost before = lines@;
    let ghost rest = text@.skip(start as int);
    let last = text.substring_ascii(start, n);
    lines.push(String::from_str(last));
    proof {
        assert(last@ =~= rest);
        assert(wrapped(rest, width as int) == seq![rest]);
        assert(texts(lines@) =~= texts(before) + seq![rest]);
    }
    lines
}

/// The cell after something has been drawn on it in a colour: what was
/// drawn there before shines through as the colour behind, unless it gives
/// way.
pub open spec fn shown(cell: Cell, appearance: Appearance, color: Rgba) -> Cell {
    Cell {
        fg: Some(color),
        bg: if cell.fg is Some && !cell.ignore_overlap {
            cell.fg
        } else {
            cell.bg
        },
        c: Some(appearance.sprite),
        layer: appearance.layer,
        ignore_overlap: appearance.ignore_overlap,
    }
}

/// The glyph of the frame around a level on a tile of the border: a piece
/// for each corner and for each side.
pub open spec fn border_glyph(inner_width: int, inner_height: int, tx: int, ty: int) -> u32 {
    if tx == 0 && ty == 0 {
        40
    } else if tx == inner_width + 1 && ty == 0 {
        41
    } else if tx == inner_width + 1 && ty == inner_height + 1 {
        42
    } else if tx == 0 && ty == inner_height + 1 {
        43
    } else if ty == 0 {
        44
    } else if ty == inner_height + 1 {
        46
    } else if tx == 0 {
        47
    } else {
        45
    }
}

/// The grey of the frame.
pub open spec fn frame_grey() -> Rgba {
    Rgba { r: 79, g: 79, b: 79, a: 255 }
}

impl AsciiConsole {
    /// Draws something at its place, if the grid has the tile.
    pub fn show(&mut self, pos: Pos, appearance: Appearance, color: Rgba)
        requires
            old(self).well_formed(),
        ensures
            final(self).well_formed(),
            final(self).same_size(*old(self)),
            final(self).cells@ == old(self).with_cell(
                pos.tile(),
                shown(old(self).cells@[old(self).index_of(pos.tile())], appearance, color),
            ),
    {
        if let Some(index) = self.place((pos.x, pos.y)) {
            let cell = self.cells[index];
            let bg = match cell.fg {
                Some(current) => if !cell.ignore_overlap {
                    Some(current)
                } else {
                    cell.bg
                },
                None => cell.bg,
            };
            self.cells.set(
                index,
                Cell {
                    fg: Some(color),
                    bg,
                    c: Some(appearance.sprite),
                    layer: appearance.layer,
                    ignore_overlap: appearance.ignore_overlap,
                },
            );
        }
    }

    /// Puts a colour behind each cell for which one is given, the cells
    /// taken row by row.
    pub fn highlight(&mut self, highlights: &Vec<Option<Rgba>>)
        requires
            old(self).well_formed(),
        ensures
            final(self).well_formed(),
            final(self).same_size(*old(self)),
            forall|k: int|
                0 <= k < old(self).cells@.len() ==> #[trigger] final(self).cells@[k] == (if k
                    < highlights@.len() && highlights@[k] is Some {
                    Cell { bg: highlights@[k], ..old(self).cells@[k] }
                } else {
                    old(self).cells@[k]
                }),
    {
        let mut k: usize = 0;
        while k < highlights.len() && k < self.cells.len()
            invariant
                self.well_formed(),
                self.same_size(*old(self)),
                k <= highlights@.len(),
                k <= self.cells@.len(),
                forall|m: int|
                    0 <= m < old(self).cells@.len() ==> #[trigger] self.cells@[m] == (if m < k
                        && highlights@[m] is Some {
                        Cell { bg: highlights@[m], ..old(self).cells@[m] }
                    } else {
                        old(self).cells@[m]
                    }),
            decreases highlights.len() - k,
        {
            if let Some(color) = highlights[k] {
                let cell = self.cells[k];
                self.cells.set(
                    k,
                    Cell {
                        fg: cell.fg,
                        bg: Some(color),
                        c: cell.c,
                        layer: cell.layer,
                        ignore_overlap: cell.ignore_overlap,
                    },
                );
            }
            k = k + 1;
        }
    }

    /// The grid with a frame of grey glyphs around it.
    pub fn framed(&self) -> (con: AsciiConsole)
        requires
            self.well_formed(),
            self.width < 0x7fff_0000,
            self.height < 0x7fff_0000,
            (self.width + 2) * (self.height + 2) <= usize::MAX,
        ensures
            con.well_formed(),
            con.width == self.width + 2,
            con.height == self.height + 2,
            forall|tx: int, ty: int|
                con.has(tx, ty) ==> #[trigger] con.tile(tx, ty) == (if self.has(tx - 1, ty - 1) {
                    self.tile(tx - 1, ty - 1)
                } else {
                    Cell {
                        fg: Some(frame_grey()),
                        c: Some(border_glyph(self.width as int, self.height as int, tx, ty)),
                        ..blank()
                    }
                }),
    {
        let grey = Rgba { r: 79, g: 79, b: 79, a: 255 };
        let w = self.width + 2;
        let h = self.height + 2;
        let mut con = AsciiConsole::new(w, h, None);
        proof {
            assert forall|tx: int, ty: int| con.has(tx, ty) implies #[trigger] con.tile(tx, ty)
                == blank() by {
                lemma_cell_in_bounds(w as int, h as int, tx, ty);
            }
        }
        let mut x: usize = 0;
        while x < w
            invariant
                x <= w,
                w == self.width + 2,
                h == self.height + 2,
                self.width < 0x7fff_0000,
                self.height < 0x7fff_0000,
                con.well_formed(),
                con.width == w,
                con.height == h,
                grey == frame_grey(),
                forall|tx: int, ty: int|
                    con.has(tx, ty) ==> #[trigger] con.tile(tx, ty) == (if tx < x && !(1 <= tx
                        <= self.width && 1 <= ty <= self.height) {
                        Cell {
                            fg: Some(frame_grey()),
                            c: Some(border_glyph(self.width as int, self.height as int, tx, ty)),
                            ..blank()
                        }
                    } else {
                        blank()
                    }),
            decreases w - x,
        {
            let mut y: usize = 0;
            while y < h
                invariant
                    x < w,
                    y <= h,
                    w == self.width + 2,
                    h == self.height + 2,
                    self.width < 0x7fff_0000,
                    self.height < 0x7fff_0000,
                    con.well_formed(),
                    con.width == w,
                    con.height == h,
                    grey == frame_grey(),
                    forall|tx: int, ty: int|
                        con.has(tx, ty) ==> #[trigger] con.tile(tx, ty) == (if (tx < x || (tx == x
                            && ty < y)) && !(1 <= tx <= self.width && 1 <= ty <= self.height) {
                            Cell {
                                fg: Some(frame_grey()),
                                c: Some(
                                    border_glyph(self.width as int, self.height as int, tx, ty),
                                ),
                                ..blank()
                            }
                        } else {
                            blank()
                        }),
                decreases h - y,
            {
                let inside = 1 <= x && x <= self.width && 1 <= y && y <= self.height;
                if !inside {
                    let glyph: u32 = if x == 0 && y == 0 {
                        40
                    } else if x == self.width + 1 && y == 0 {
                        41
                    } else if x == self.width + 1 && y == self.height + 1 {
                        42
                    } else if x == 0 && y == self.height + 1 {
                        43
                    } else if y == 0 {
                        44
                    } else if y == self.height + 1 {
                        46
                    } else if x == 0 {
                        47
                    } else {
                        45
                    };
                    con.paint(x as i128, y as i128, glyph, grey, None);
                }
                y = y + 1;
            }
            x = x + 1;
        }
        self.blit(&(1, 1), &mut con);
        con
    }
}

/// The keys that pick an option of a menu, in the order of the options.
pub open spec fn selection_keys() -> Seq<char> {
    seq![
        'a', 'b', 'c', 'd', 'e', 'f', 'g', 'i', 'm', 'n', 'o', 'p', 'q', 'r', 's', 't', 'u', 'v',
        'w', 'x', 'y', 'z',
    ]
}

/// The keys that pick an option of a menu, in the order of the options.
pub fn selection_key_list() -> (keys: Vec<char>)
    ensures
        keys@ == selection_keys(),
{
    let keys = vec![
        'a', 'b', 'c', 'd', 'e', 'f', 'g', 'i', 'm', 'n', 'o', 'p', 'q', 'r', 's', 't', 'u', 'v',
        'w', 'x', 'y', 'z',
    ];
    assert(keys@ =~= selection_keys());
    keys
}

/// What was pressed since a menu was last asked.
#[derive(Clone, Copy, Debug, PartialEq, Eq)]
pub struct MenuKeys {
    /// Whether the marked option was confirmed.
    pub confirm: bool,
    /// Whether the mark was moved down.
    pub down: bool,
    /// Whether the mark was moved up.
    pub up: bool,
    /// The character that was typed, if any.
    pub typed: Option<char>,
}

/// A list of options in a frame, one of which is marked.
pub struct ConsoleMenu {
    pub name: Option<String>,
    pub size: (usize, usize),
    pub selection: usize,
    pub fg: Rgba,
    pub bg: Rgba,
    pub options: Vec<String>,
}

/// The place of a character in a list, if it is there.
pub open spec fn place_of_key(keys: Seq<char>, c: char, upto: int) -> Option<int>
    decreases upto,
{
    if upto <= 0 {
        None
    } else {
        match place_of_key(keys, c, upto - 1) {
            Some(i) => Some(i),
            None => if keys[upto - 1] == c {
                Some(upto - 1)
            } else {
                None
            },
        }
    }
}

/// Where the mark of a menu with `count` options stands after the keys: a
/// step down if it was moved down and can go down, then a step up if it was
/// moved up and can go up.
pub open spec fn moved(selection: int, count: int, keys: MenuKeys) -> int {
    let lower = if keys.down && selection + 1 < count {
        selection + 1
    } else {
        selection
    };
    if keys.up && lower > 0 {
        lower - 1
    } else {
        lower
    }
}

/// The option that the keys pick in a menu with `count` options: the marked
/// one if it was confirmed; else the one whose key was typed, if there is
/// one.
pub open spec fn picked(selection: int, count: int, keys: MenuKeys) -> Option<int> {
    if keys.confirm {
        Some(selection)
    } else {
        match keys.typed {
            Some(c) => match place_of_key(selection_keys(), c, 22) {
                Some(i) => if i < count {
                    Some(i)
                } else {
                    None
                },
                None => None,
            },
            None => None,
        }
    }
}

/// The line of an option of a menu: its key, a colon, a blank, and its
/// text.
pub open spec fn entry_text(key: char, option: Seq<char>) -> Seq<char> {
    seq![key, ':', ' '] + option
}

/// `format!` for the line of an option: the key, a colon, a blank, and the
/// text of the option.
#[verifier::external_body]
fn entry_line(key: char, option: &String) -> (line: String)
    ensures
        line@ == entry_text(key, option@),
{
    format!("{}: {}", key, option)
}

impl ConsoleMenu {
    /// A menu with its first option marked.
    pub fn new(name: Option<String>, size: (usize, usize), fg: Rgba, bg: Rgba, options: Vec<
        String,
    >) -> (menu: ConsoleMenu)
        ensures
            menu.name == name,
            menu.size == size,
            menu.selection == 0,
            menu.fg == fg,
            menu.bg == bg,
            menu.options == options,
    {
        ConsoleMenu { name, size, selection: 0, options, fg, bg }
    }

    /// Takes in what was pressed: moves the mark, unless the marked option
    /// was confirmed, and gives the option that was picked, if one was.
    pub fn check_selection(&mut self, keys: MenuKeys) -> (choice: Option<usize>)
        ensures
            final(self).name == old(self).name,
            final(self).size == old(self).size,
            final(self).fg == old(self).fg,
            final(self).bg == old(self).bg,
            final(self).options == old(self).options,
            final(self).selection == (if keys.confirm {
                old(self).selection as int
            } else {
                moved(old(self).selection as int, old(self).options@.len() as int, keys)
            }),
            match picked(old(self).selection as int, old(self).options@.len() as int, keys) {
                Some(i) => choice == Some(i as usize),
                None => choice is None,
            },
    {
        if keys.confirm {
            return Some(self.selection);
        }
        let count = self.options.len();
        if keys.down {
            if self.selection < usize::MAX && self.selection + 1 < count {
                self.selection = self.selection + 1;
            }
        }
        if keys.up {
            if self.selection > 0 {
                self.selection = self.selection - 1;
            }
        }
        assert(self.selection == moved(old(self).selection as int, count as int, keys));
        if let Some(c) = keys.typed {
            let list = selection_key_list();
            let mut i: usize = 0;
            while i < list.len()
                invariant
                    i <= list.len(),
                    list@ == selection_keys(),
                    place_of_key(selection_keys(), c, i as int) is None,
                    !keys.confirm,
                    keys.typed == Some(c),
                    self.name == old(self).name,
                    self.size == old(self).size,
                    self.fg == old(self).fg,
                    self.bg == old(self).bg,
                    self.options == old(self).options,
                    count == old(self).options@.len(),
                    self.selection == moved(
                        old(self).selection as int,
                        old(self).options@.len() as int,
                        keys,
                    ),
                decreases list.len() - i,
            {
                if list[i] == c {
                    assert(place_of_key(selection_keys(), c, i + 1) == Some(i as int));
                    proof {
                        lemma_place_stays(selection_keys(), c, i + 1, 22);
                    }
                    if i < count {
                        return Some(i);
                    } else {
                        return None;
                    }
                }
                i = i + 1;
            }
        }
        None
    }
}

/// The cell of a menu on a tile: the lines of the first `shown` options,
/// each from the third column on in a row of its own from the third row on,
/// the marked one in swapped colours; else the name in the first row from the
/// second column on; else the frame; else nothing but the colours.
pub open spec fn menu_cell(menu: ConsoleMenu, shown: int, tx: int, ty: int) -> Cell {
    let base = Cell {
        fg: Some(menu.fg),
        bg: Some(menu.bg),
        c: None,
        layer: 0,
        ignore_overlap: false,
    };
    let option = if 2 <= ty && ty - 2 < shown {
        let line = entry_text(selection_keys()[ty - 2], menu.options@[ty - 2]@);
        printed_at(line, 2, line.len() as int, tx)
    } else {
        None
    };
    let title = if ty == 0 && menu.name is Some {
        printed_at(menu.name->0@, 1, menu.name->0@.len() as int, tx)
    } else {
        None
    };
    match option {
        Some(c) => if ty - 2 == menu.selection {
            Cell { fg: Some(menu.bg), bg: Some(menu.fg), c: Some(c as u32), ..base }
        } else {
            Cell { c: Some(c as u32), ..base }
        },
        None => match title {
            Some(c) => Cell { c: Some(c as u32), ..base },
            None => match frame_glyph(
                0,
                0,
                menu.size.0 - 1,
                menu.size.1 - 1,
                menu.size.0 - 1,
                menu.size.1 - 1,
                4,
                tx,
                ty,
            ) {
                Some(c) => Cell { c: Some(c), ..base },
                None => base,
            },
        },
    }
}

impl ConsoleMenu {
    /// The number of options that a menu shows: as many as there are keys
    /// to pick them.
    pub open spec fn shown(&self) -> int {
        if self.options@.len() < 22 {
            self.options@.len() as int
        } else {
            22
        }
    }

    /// Draws the menu.
    pub fn console(&self) -> (con: AsciiConsole)
        requires
            self.size.0 <= i32::MAX,
            self.size.1 <= i32::MAX,
            self.size.0 * self.size.1 <= usize::MAX,
        ensures
            con.well_formed(),
            con.width == self.size.0,
            con.height == self.size.1,
            forall|tx: int, ty: int|
                con.has(tx, ty) ==> #[trigger] con.tile(tx, ty) == menu_cell(
                    *self,
                    self.shown(),
                    tx,
                    ty,
                ),
    {
        let base = Cell {
            fg: Some(self.fg),
            bg: Some(self.bg),
            c: None,
            layer: 0,
            ignore_overlap: false,
        };
        let mut con = AsciiConsole::new(self.size.0, self.size.1, Some(base));
        proof {
            assert forall|tx: int, ty: int| con.has(tx, ty) implies #[trigger] con.tile(tx, ty)
                == base by {
                lemma_cell_in_bounds(self.size.0 as int, self.size.1 as int, tx, ty);
            }
        }
        con.rectangle(self.fg, self.bg, 0, 0, self.size.0 as i32, self.size.1 as i32);
        let ghost framed = con;
        if let Some(name) = &self.name {
            con.print_row(self.fg, self.bg, 1, 0, name.as_str());
        }
        let keys = selection_key_list();
        let mut i: usize = 0;
        while i < self.options.len() && i < keys.len()
            invariant
                i <= self.options@.len(),
                i <= 22,
                keys@ == selection_keys(),
                con.well_formed(),
                con.width == self.size.0,
                con.height == self.size.1,
                forall|tx: int, ty: int|
                    con.has(tx, ty) ==> #[trigger] con.tile(tx, ty) == menu_cell(
                        *self,
                        i as int,
                        tx,
                        ty,
                    ),
            decreases 22 - i,
        {
            let line = entry_line(keys[i], &self.options[i]);
            if i == self.selection {
                con.print_row(self.bg, self.fg, 2, i as i128 + 2, line.as_str());
            } else {
                con.print_row(self.fg, self.bg, 2, i as i128 + 2, line.as_str());
            }
            i = i + 1;
        }
        con
    }
}

/// Once a character has been found in a list, looking further finds it at
/// the same place.
proof fn lemma_place_stays(keys: Seq<char>, c: char, found: int, upto: int)
    requires
        place_of_key(keys, c, found) is Some,
        found <= upto,
    ensures
        place_of_key(keys, c, upto) == place_of_key(keys, c, found),
    decreases upto - found,
{
    if found < upto {
        lemma_place_stays(keys, c, found, upto - 1);
    }
}

/// The place of a tile of a grid lies among its cells.
pub proof fn lemma_cell_in_bounds(width: int, height: int, x: int, y: int)
    requires
        0 <= x < width,
        0 <= y < height,
    ensures
        0 <= x + width * y < width * height,
{
    assert(width * y + width <= width * height) by (nonlinear_arith)
        requires
            0 <= y < height,
            0 < width,
    ;
    assert(0 <= width * y) by (nonlinear_arith)
        requires
            0 <= y,
            0 < width,
    ;
}

/// Different tiles of a grid have different places among its cells.
pub proof fn lemma_cell_is_unique(width: int, x1: int, y1: int, x2: int, y2: int)
    requires
        0 <= x1 < width,
        0 <= x2 < width,
        0 <= y1,
        0 <= y2,
        x1 + width * y1 == x2 + width * y2,
    ensures
        x1 == x2,
        y1 == y2,
{
    if y1 < y2 {
        assert(width * y2 >= width * y1 + width) by (nonlinear_arith)
            requires
                y1 < y2,
                0 < width,
        ;
    }
    if y2 < y1 {
        assert(width * y1 >= width * y2 + width) by (nonlinear_arith)
            requires
                y2 < y1,
                0 < width,
        ;
    }
}

} // verus!
