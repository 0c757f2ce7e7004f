//! The grid model: passage bits, the direction table and the spec view of a grid.

use vstd::prelude::*;

verus! {

/// Passage toward the next row (`y + 1`).
pub const UP: u8 = 0b0001;

/// Passage toward the next column (`x + 1`).
pub const RIGHT: u8 = 0b0010;

/// Passage toward the previous row (`y - 1`).
pub const DOWN: u8 = 0b0100;

/// Passage toward the previous column (`x - 1`).
pub const LEFT: u8 = 0b1000;

/// A grid address, or a unit step between two addresses.
#[derive(Clone, Copy, Debug, PartialEq, Eq, Structural)]
pub struct Point {
    pub x: i64,
    pub y: i64,
}

/// One entry of the direction table.
#[derive(Clone, Copy, Debug, PartialEq, Eq, Structural)]
pub struct Direction {
    /// The bit opened on the cell a passage starts from.
    pub passage: u8,
    /// The bit opened on the cell the passage leads to.
    pub opposite: u8,
    /// The step from the first cell to the second.
    pub delta: Point,
}

/// A cell of the model, as `(x, y)`.
pub type Cell = (int, int);

/// The bit of direction `d`: `UP`, `RIGHT`, `DOWN`, `LEFT` for 0, 1, 2, 3.
pub open spec fn passage_bit(d: int) -> u8 {
    if d == 0 {
        UP
    } else if d == 1 {
        RIGHT
    } else if d == 2 {
        DOWN
    } else {
        LEFT
    }
}

/// The direction that leads back: `UP` and `DOWN` swap, `RIGHT` and `LEFT` swap.
pub open spec fn opposite(d: int) -> int {
    if d < 2 {
        d + 2
    } else {
        d - 2
    }
}

/// The change of `x` along direction `d`.
pub open spec fn delta_x(d: int) -> int {
    if d == 1 {
        1
    } else if d == 3 {
        -1
    } else {
        0
    }
}

/// The change of `y` along direction `d`.
pub open spec fn delta_y(d: int) -> int {
    if d == 0 {
        1
    } else if d == 2 {
        -1
    } else {
        0
    }
}

/// Entry `d` of the direction table.
pub open spec fn direction_entry(d: int) -> Direction {
    Direction {
        passage: passage_bit(d),
        opposite: passage_bit(opposite(d)),
        delta: Point { x: delta_x(d) as i64, y: delta_y(d) as i64 },
    }
}

/// The cell reached from `c` by one step in direction `d`.
pub open spec fn neighbor(c: Cell, d: int) -> Cell {
    (c.0 + delta_x(d), c.1 + delta_y(d))
}

/// `c` lies in the rectangle of `w` columns and `h` rows.
pub open spec fn inside(w: int, h: int, c: Cell) -> bool {
    0 <= c.0 < w && 0 <= c.1 < h
}

/// `g` has `h` rows of `w` cells each.
pub open spec fn is_grid(g: Seq<Seq<u8>>, w: int, h: int) -> bool {
    &&& g.len() == h
    &&& forall|y: int| 0 <= y < h ==> (#[trigger] g[y]).len() == w
}

/// The bits of cell `c`.
pub open spec fn cell_at(g: Seq<Seq<u8>>, c: Cell) -> u8 {
    g[c.1][c.0]
}

/// Cell `c` has its passage bit of direction `d` set.
pub open spec fn open_toward(g: Seq<Seq<u8>>, c: Cell, d: int) -> bool {
    cell_at(g, c) & passage_bit(d) != 0
}

/// `g` with the bits `bit` added to cell `c`.
pub open spec fn with_bit(g: Seq<Seq<u8>>, c: Cell, bit: u8) -> Seq<Seq<u8>> {
    g.update(c.1, g[c.1].update(c.0, cell_at(g, c) | bit))
}

/// The grid of `h` rows and `w` columns in which no cell has a bit set.
pub open spec fn blank(w: int, h: int) -> Seq<Seq<u8>> {
    Seq::new(h as nat, |y: int| Seq::new(w as nat, |x: int| 0u8))
}

/// Entry `index` of the direction table.
pub fn direction(index: u8) -> (dir: Direction)
    requires
        index < 4,
    ensures
        dir == direction_entry(index as int),
{
    if index == 0 {
        Direction { passage: UP, opposite: DOWN, delta: Point { x: 0, y: 1 } }
    } else if index == 1 {
        Direction { passage: RIGHT, opposite: LEFT, delta: Point { x: 1, y: 0 } }
    } else if index == 2 {
        Direction { passage: DOWN, opposite: UP, delta: Point { x: 0, y: -1 } }
    } else {
        Direction { passage: LEFT, opposite: RIGHT, delta: Point { x: -1, y: 0 } }
    }
}

/// A grid of `height` rows and `width` columns with every cell unvisited.
pub fn new_grid(width: usize, height: usize) -> (grid: Vec<Vec<u8>>)
    ensures
        grid.deep_view() == blank(width as int, height as int),
{
    let mut grid: Vec<Vec<u8>> = Vec::new();
    let mut y: usize = 0;
    while y < height
        invariant
            y <= height,
            grid.len() == y,
            forall|j: int| 0 <= j < y ==> (#[trigger] grid[j])@ == Seq::new(width as nat, |x: int| 0u8),
        decreases height - y,
    {
        let mut row: Vec<u8> = Vec::new();
        let mut x: usize = 0;
        while x < width
            invariant
                x <= width,
                row.len() == x,
                forall|i: int| 0 <= i < x ==> row[i] == 0u8,
            decreases width - x,
        {
            row.push(0);
            x += 1;
        }
        assert(row@ =~= Seq::new(width as nat, |x: int| 0u8));
        grid.push(row);
        y += 1;
    }
    assert(grid.deep_view() =~~= blank(width as int, height as int));
    grid
}

} // verus!
