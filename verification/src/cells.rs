//! Counting the cells of a grid.

use vstd::prelude::*;
use vstd::set_lib::{lemma_len_subset, lemma_set_disjoint_lens};
use crate::grid::{inside, Cell};
use crate::graph::{covered, visited, visited_cells};

verus! {

/// The cells of row `y` in the first `w` columns.
pub open spec fn row_cells(w: int, y: int) -> Set<Cell> {
    Set::new(|c: Cell| 0 <= c.0 < w && c.1 == y)
}

/// The cells of the grid of `w` columns and `h` rows.
pub open spec fn all_cells(w: int, h: int) -> Set<Cell> {
    Set::new(|c: Cell| inside(w, h, c))
}

/// A row of `w` columns has `w` cells.
pub proof fn lemma_row_count(w: int, y: int)
    requires
        0 <= w,
    ensures
        row_cells(w, y).finite(),
        row_cells(w, y).len() == w,
    decreases w,
{
    if w == 0 {
        assert(row_cells(w, y) =~= Set::<Cell>::empty());
    } else {
        lemma_row_count(w - 1, y);
        assert(row_cells(w, y) =~= row_cells(w - 1, y).insert((w - 1, y)));
    }
}

/// A grid of `w` columns and `h` rows has `w * h` cells.
pub proof fn lemma_cell_count(w: int, h: int)
    requires
        0 <= w,
        0 <= h,
    ensures
        all_cells(w, h).finite(),
        all_cells(w, h).len() == w * h,
    decreases h,
{
    if h == 0 {
        assert(all_cells(w, h) =~= Set::<Cell>::empty());
        assert(w * h == 0) by (nonlinear_arith)
            requires
                h == 0,
        ;
    } else {
        lemma_cell_count(w, h - 1);
        lemma_row_count(w, h - 1);
        let below = all_cells(w, h - 1);
        let row = row_cells(w, h - 1);
        assert(all_cells(w, h) =~= below + row);
        assert(below.disjoint(row));
        lemma_set_disjoint_lens(below, row);
        assert(w * (h - 1) + w == w * h) by (nonlinear_arith);
    }
}

/// The visited cells of a grid are finitely many, at most `w * h`.
pub proof fn lemma_visited_count(g: Seq<Seq<u8>>, w: int, h: int)
    requires
        0 <= w,
        0 <= h,
    ensures
        visited_cells(g, w, h).finite(),
        visited_cells(g, w, h).len() <= w * h,
        covered(g, w, h) ==> visited_cells(g, w, h).len() == w * h,
{
    lemma_cell_count(w, h);
    assert(visited_cells(g, w, h).subset_of(all_cells(w, h)));
    lemma_len_subset(visited_cells(g, w, h), all_cells(w, h));
    if covered(g, w, h) {
        assert forall|c: Cell| inside(w, h, c) implies visited_cells(g, w, h).contains(c) by {
            assert(visited(g, c));
        }
        assert(visited_cells(g, w, h) =~= all_cells(w, h));
    }
}

} // verus!
