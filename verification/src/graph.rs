//! A carved grid read as a graph: cells are vertices, passages are edges.

use vstd::prelude::*;
use crate::grid::{cell_at, inside, is_grid, neighbor, open_toward, opposite, Cell};

verus! {

/// `b` is the neighbor of `a` in direction `d`, and `a` is open toward it.
pub open spec fn linked_by(g: Seq<Seq<u8>>, a: Cell, b: Cell, d: int) -> bool {
    b == neighbor(a, d) && open_toward(g, a, d)
}

/// Two cells of the grid are joined by a passage that starts at `a`.
pub open spec fn linked(g: Seq<Seq<u8>>, w: int, h: int, a: Cell, b: Cell) -> bool {
    &&& inside(w, h, a)
    &&& inside(w, h, b)
    &&& (linked_by(g, a, b, 0) || linked_by(g, a, b, 1) || linked_by(g, a, b, 2) || linked_by(
        g,
        a,
        b,
        3,
    ))
}

/// Position `i` of `p` and the next one are joined by a passage.
pub open spec fn linked_at(g: Seq<Seq<u8>>, w: int, h: int, p: Seq<Cell>, i: int) -> bool {
    linked(g, w, h, p[i], p[i + 1])
}

/// `p` is a non-empty sequence of cells of the grid, each joined to the next.
pub open spec fn is_walk(g: Seq<Seq<u8>>, w: int, h: int, p: Seq<Cell>) -> bool {
    &&& p.len() > 0
    &&& inside(w, h, p[0])
    &&& forall|i: int| 0 <= i < p.len() - 1 ==> #[trigger] linked_at(g, w, h, p, i)
}

/// `p` is a walk from `a` to `b`.
pub open spec fn walks(g: Seq<Seq<u8>>, w: int, h: int, p: Seq<Cell>, a: Cell, b: Cell) -> bool {
    is_walk(g, w, h, p) && p[0] == a && p[p.len() - 1] == b
}

/// Some walk leads from `a` to `b`.
pub open spec fn reaches(g: Seq<Seq<u8>>, w: int, h: int, a: Cell, b: Cell) -> bool {
    exists|p: Seq<Cell>| #[trigger] walks(g, w, h, p, a, b)
}

/// Every cell of the grid reaches every other.
pub open spec fn connected(g: Seq<Seq<u8>>, w: int, h: int) -> bool {
    forall|a: Cell, b: Cell| inside(w, h, a) && inside(w, h, b) ==> #[trigger] reaches(g, w, h, a, b)
}

/// `c` is a closed walk through at least three cells, none met twice.
pub open spec fn is_cycle(g: Seq<Seq<u8>>, w: int, h: int, c: Seq<Cell>) -> bool {
    &&& c.len() >= 3
    &&& c.no_duplicates()
    &&& is_walk(g, w, h, c)
    &&& linked(g, w, h, c[c.len() - 1], c[0])
}

/// The grid holds no cycle.
pub open spec fn acyclic(g: Seq<Seq<u8>>, w: int, h: int) -> bool {
    forall|c: Seq<Cell>| !#[trigger] is_cycle(g, w, h, c)
}

/// The passage of `a` in direction `d` is matched on the cell it leads to.
pub open spec fn mirrored(g: Seq<Seq<u8>>, a: Cell, d: int) -> bool {
    open_toward(g, a, d) == open_toward(g, neighbor(a, d), opposite(d))
}

/// Bit symmetry: a cell is open toward a neighbor exactly when the neighbor is
/// open toward it.
pub open spec fn symmetric(g: Seq<Seq<u8>>, w: int, h: int) -> bool {
    forall|a: Cell, d: int|
        0 <= d < 4 && inside(w, h, a) && inside(w, h, neighbor(a, d)) ==> #[trigger] mirrored(
            g,
            a,
            d,
        )
}

/// The entry mark: the `DOWN` bit of cell `(0, 0)`, which leads to no cell.
pub open spec fn is_entry_mark(a: Cell, d: int) -> bool {
    a == (0int, 0int) && d == 2
}

/// A passage of `a` in direction `d`, if open, leads to a cell of the grid,
/// unless it is the entry mark.
pub open spec fn kept_inside(g: Seq<Seq<u8>>, w: int, h: int, a: Cell, d: int) -> bool {
    open_toward(g, a, d) && !is_entry_mark(a, d) ==> inside(w, h, neighbor(a, d))
}

/// Boundary consistency: apart from the entry mark no passage leaves the grid.
pub open spec fn bounded(g: Seq<Seq<u8>>, w: int, h: int) -> bool {
    forall|a: Cell, d: int| 0 <= d < 4 && inside(w, h, a) ==> #[trigger] kept_inside(g, w, h, a, d)
}

/// Cell `c` has at least one bit set.
pub open spec fn visited(g: Seq<Seq<u8>>, c: Cell) -> bool {
    cell_at(g, c) != 0
}

/// Full coverage: every cell of the grid has a bit set.
pub open spec fn covered(g: Seq<Seq<u8>>, w: int, h: int) -> bool {
    forall|c: Cell| inside(w, h, c) ==> #[trigger] visited(g, c)
}

/// Only the four passage bits are used.
pub open spec fn four_bit(g: Seq<Seq<u8>>, w: int, h: int) -> bool {
    forall|c: Cell| inside(w, h, c) ==> #[trigger] cell_at(g, c) < 16
}

/// The passages of the grid, each named once: by the cell it starts from going
/// `UP` (direction 0) or `RIGHT` (direction 1).
pub open spec fn passages(g: Seq<Seq<u8>>, w: int, h: int) -> Set<(Cell, int)> {
    Set::new(
        |e: (Cell, int)|
            (e.1 == 0 || e.1 == 1) && inside(w, h, e.0) && inside(w, h, neighbor(e.0, e.1))
                && open_toward(g, e.0, e.1),
    )
}

/// The cells of the grid that have a bit set.
pub open spec fn visited_cells(g: Seq<Seq<u8>>, w: int, h: int) -> Set<Cell> {
    Set::new(|c: Cell| inside(w, h, c) && visited(g, c))
}

/// A perfect maze of `w` columns and `h` rows: a grid whose passages are
/// symmetric, stay inside, reach every cell and form a spanning tree, with the
/// entry mark set on cell `(0, 0)`.
pub open spec fn is_perfect_maze(g: Seq<Seq<u8>>, w: int, h: int) -> bool {
    &&& w > 0
    &&& h > 0
    &&& is_grid(g, w, h)
    &&& four_bit(g, w, h)
    &&& open_toward(g, (0, 0), 2)
    &&& symmetric(g, w, h)
    &&& bounded(g, w, h)
    &&& covered(g, w, h)
    &&& connected(g, w, h)
    &&& acyclic(g, w, h)
    &&& passages(g, w, h).finite()
    &&& passages(g, w, h).len() == w * h - 1
}

} // verus!
