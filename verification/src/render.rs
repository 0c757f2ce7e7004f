//! The renderer: a grid drawn as text, two lines to a row and a closing border.

use vstd::prelude::*;
use vstd::string::StringExecFns;
use crate::grid::{is_grid, DOWN, LEFT, RIGHT};

verus! {

/// A piece of wall: two full blocks.
pub open spec fn wall() -> Seq<char> {
    seq!['\u{2588}', '\u{2588}']
}

/// A piece of floor or an opening: two spaces.
pub open spec fn gap() -> Seq<char> {
    seq![' ', ' ']
}

/// An opening where `open` holds, a piece of wall where it does not.
pub open spec fn glyph(open: bool) -> Seq<char> {
    if open {
        gap()
    } else {
        wall()
    }
}

/// The end of a line.
pub open spec fn line_end() -> Seq<char> {
    seq!['\n']
}

/// The upper line of a row, for its first `n` cells: a corner of wall before
/// each cell, then the wall above it, open where the cell has `DOWN` set.
pub open spec fn upper_cells(row: Seq<u8>, n: int) -> Seq<char>
    decreases n,
{
    if n <= 0 {
        Seq::empty()
    } else {
        upper_cells(row, n - 1) + wall() + glyph(row[n - 1] & DOWN != 0)
    }
}

/// The lower line of a row, for its first `n` cells: the wall left of each
/// cell, open where the cell has `LEFT` set, then the floor of the cell.
pub open spec fn lower_cells(row: Seq<u8>, n: int) -> Seq<char>
    decreases n,
{
    if n <= 0 {
        Seq::empty()
    } else {
        lower_cells(row, n - 1) + glyph(row[n - 1] & LEFT != 0) + gap()
    }
}

/// The two lines of a row. The upper line ends with a piece that is open
/// where the last cell has `RIGHT` set; the lower line ends with wall.
pub open spec fn row_text(row: Seq<u8>) -> Seq<char> {
    upper_cells(row, row.len() as int) + glyph(row[row.len() - 1] & RIGHT != 0) + line_end()
        + lower_cells(row, row.len() as int) + wall() + line_end()
}

/// The lines of the first `n` rows.
pub open spec fn rows_text(g: Seq<Seq<u8>>, n: int) -> Seq<char>
    decreases n,
{
    if n <= 0 {
        Seq::empty()
    } else {
        rows_text(g, n - 1) + row_text(g[n - 1])
    }
}

/// The closing border under `n` cells: two pieces of wall for each.
pub open spec fn border_cells(n: int) -> Seq<char>
    decreases n,
{
    if n <= 0 {
        Seq::empty()
    } else {
        border_cells(n - 1) + wall() + wall()
    }
}

/// The text of a grid: the lines of every row from the first, then a closed
/// border as wide as the first row.
pub open spec fn rendered(g: Seq<Seq<u8>>) -> Seq<char> {
    rows_text(g, g.len() as int) + border_cells(g[0].len() as int) + wall() + line_end()
}

/// Rendering reads the cells alone: grids with the same cells have the same
/// text, so a grid that is rendered again gives the same text again.
pub proof fn lemma_render_repeats(first: Vec<Vec<u8>>, second: Vec<Vec<u8>>)
    requires
        first.deep_view() == second.deep_view(),
    ensures
        rendered(first.deep_view()) == rendered(second.deep_view()),
{
}

/// The two lines of a row of `w` cells hold `4 * w + 3` characters each, the
/// line end counted.
pub proof fn lemma_row_text_len(row: Seq<u8>)
    requires
        row.len() > 0,
    ensures
        row_text(row).len() == 2 * (4 * row.len() + 3),
{
    lemma_cells_len(row, row.len() as int);
}

/// The pieces drawn for the first `n` cells of a row hold `4 * n` characters
/// on each of its lines.
proof fn lemma_cells_len(row: Seq<u8>, n: int)
    requires
        0 <= n <= row.len(),
    ensures
        upper_cells(row, n).len() == 4 * n,
        lower_cells(row, n).len() == 4 * n,
    decreases n,
{
    if n > 0 {
        lemma_cells_len(row, n - 1);
    }
}

/// The lines of the first `n` rows of a grid of `w` columns.
proof fn lemma_rows_text_len(g: Seq<Seq<u8>>, w: int, n: int)
    requires
        w > 0,
        0 <= n <= g.len(),
        forall|y: int| 0 <= y < g.len() ==> (#[trigger] g[y]).len() == w,
    ensures
        rows_text(g, n).len() == 2 * n * (4 * w + 3),
    decreases n,
{
    if n > 0 {
        lemma_rows_text_len(g, w, n - 1);
        lemma_row_text_len(g[n - 1]);
        assert(2 * (n - 1) * (4 * w + 3) + 2 * (4 * w + 3) == 2 * n * (4 * w + 3))
            by (nonlinear_arith);
    } else {
        assert(2 * n * (4 * w + 3) == 0) by (nonlinear_arith)
            requires
                n == 0,
        ;
    }
}

/// The border under `n` cells holds `4 * n` characters.
proof fn lemma_border_len(n: int)
    requires
        0 <= n,
    ensures
        border_cells(n).len() == 4 * n,
    decreases n,
{
    if n > 0 {
        lemma_border_len(n - 1);
    }
}

/// The text of a grid of `w` columns and `h` rows has `2 * h + 1` lines of
/// `4 * w + 3` characters each, the line ends counted.
pub proof fn lemma_rendered_len(g: Seq<Seq<u8>>, w: int, h: int)
    requires
        w > 0,
        h > 0,
        is_grid(g, w, h),
    ensures
        rendered(g).len() == (2 * h + 1) * (4 * w + 3),
{
    lemma_rows_text_len(g, w, h);
    lemma_border_len(w);
    assert(g[0].len() == w);
    assert(2 * h * (4 * w + 3) + (4 * w + 3) == (2 * h + 1) * (4 * w + 3)) by (nonlinear_arith);
}

/// Appends an opening where `open` holds, a piece of wall where it does not.
fn push_glyph(text: &mut String, open: bool)
    ensures
        final(text)@ == old(text)@ + glyph(open),
{
    proof {
        reveal_strlit("  ");
        reveal_strlit("\u{2588}\u{2588}");
    }
    if open {
        text.append("  ");
        assert("  "@ =~= gap());
    } else {
        text.append("\u{2588}\u{2588}");
        assert("\u{2588}\u{2588}"@ =~= wall());
    }
}

/// The text diagram of a grid.
///
/// Every bit is drawn as it stands in the grid, so the entry mark of a carved
/// maze shows as the opening in the top border. The grid is not changed.
pub fn render(grid: &Vec<Vec<u8>>) -> (text: String)
    requires
        grid.len() > 0,
        forall|y: int| 0 <= y < grid.len() ==> (#[trigger] grid[y]).len() > 0,
    ensures
        text@ == rendered(grid.deep_view()),
{
    let ghost g = grid.deep_view();
    let mut text = String::new();
    proof {
        reveal_strlit("\n");
        assert("\n"@ =~= line_end());
    }
    let mut y: usize = 0;
    while y < grid.len()
        invariant
            y <= grid.len(),
            g == grid.deep_view(),
            forall|j: int| 0 <= j < grid.len() ==> (#[trigger] grid[j]).len() > 0,
            "\n"@ == line_end(),
            text@ == rows_text(g, y as int),
        decreases grid.len() - y,
    {
        let row = &grid[y];
        let ghost r = g[y as int];
        let ghost before = text@;
        assert(r =~= row@);
        let mut x: usize = 0;
        while x < row.len()
            invariant
                x <= row.len(),
                r == row@,
                text@ == before + upper_cells(r, x as int),
            decreases row.len() - x,
        {
            push_glyph(&mut text, false);
            push_glyph(&mut text, (row[x] & DOWN) != 0);
            x += 1;
            assert(text@ =~= before + upper_cells(r, x as int));
        }
        push_glyph(&mut text, (row[row.len() - 1] & RIGHT) != 0);
        text.append("\n");
        let ghost upper = text@;
        let mut x: usize = 0;
        while x < row.len()
            invariant
                x <= row.len(),
                r == row@,
                text@ == upper + lower_cells(r, x as int),
            decreases row.len() - x,
        {
            push_glyph(&mut text, (row[x] & LEFT) != 0);
            push_glyph(&mut text, true);
            x += 1;
            assert(text@ =~= upper + lower_cells(r, x as int));
        }
        push_glyph(&mut text, false);
        text.append("\n");
        y += 1;
        assert(text@ =~= rows_text(g, y as int));
    }
    let ghost rows = text@;
    let width = grid[0].len();
    assert(g[0].len() == width);
    let mut x: usize = 0;
    while x < width
        invariant
            x <= width,
            text@ == rows + border_cells(x as int),
        decreases width - x,
    {
        push_glyph(&mut text, false);
        push_glyph(&mut text, false);
        x += 1;
        assert(text@ =~= rows + border_cells(x as int));
    }
    push_glyph(&mut text, false);
    text.append("\n");
    assert(text@ =~= rendered(g));
    text
}

} // verus!
