//! The maze carver: a randomized depth-first growing tree.

use vstd::prelude::*;
use rand::rngs::ThreadRng;
use rand::seq::SliceRandom;
use crate::cells::lemma_visited_count;
use crate::grid::{
    direction, inside, is_grid, neighbor, new_grid, opposite, with_bit, Cell, Point, DOWN,
};
use crate::graph::{is_perfect_maze, visited_cells};
use crate::progress::{carving, grown, lemma_carve, lemma_finish, lemma_retreat, lemma_start, seed};
use crate::steps::{
    blocked_before, carve_next, carves_to, cell_of, first_free, first_free_at,
    is_carving_outcome, is_direction_order, is_run, lemma_all_blocked, lemma_direction_order,
    lemma_first_free_found, lemma_first_free_none, point_of, run, table_order, valid_dimensions,
    Stage,
};
use crate::tree::Growth;

verus! {

/// Why no maze was carved.
#[derive(Clone, Copy, Debug, PartialEq, Eq, Structural)]
pub enum MazeError {
    /// A dimension is not positive, or the number of cells does not fit a
    /// `usize`.
    InvalidDimension,
}

/// The thread-local random generator of `rand`.
#[verifier::external_type_specification]
#[verifier::external_body]
pub struct ExThreadRng(rand::rngs::ThreadRng);

/// `rand::thread_rng`: a handle to the calling thread's generator. Nothing is
/// claimed of it. It panics only if the operating system's random source
/// fails while the generator is first seeded.
#[verifier::external_body]
fn thread_generator() -> ThreadRng {
    rand::thread_rng()
}

/// `SliceRandom::shuffle` on a slice of bytes: a run of swaps between places of
/// the slice, so the slice afterwards holds the same values, each as often as
/// before. Which order comes out is left open.
#[verifier::external_body]
fn shuffle(order: &mut Vec<u8>, rng: &mut ThreadRng)
    ensures
        final(order)@.to_multiset() == old(order)@.to_multiset(),
{
    order.shuffle(rng);
}

/// Each of two valid dimensions fits a `usize` by itself.
proof fn lemma_factors_fit(w: int, h: int)
    requires
        valid_dimensions(w, h),
    ensures
        w <= usize::MAX,
        h <= usize::MAX,
{
    assert(w <= w * h && h <= w * h) by (nonlinear_arith)
        requires
            w > 0,
            h > 0,
    ;
}

/// Setting bits on one cell keeps the shape of the grid.
proof fn lemma_with_bit_shape(g: Seq<Seq<u8>>, w: int, h: int, c: Cell, bit: u8)
    requires
        is_grid(g, w, h),
        inside(w, h, c),
    ensures
        is_grid(with_bit(g, c, bit), w, h),
{
    let g2 = with_bit(g, c, bit);
    assert forall|y: int| 0 <= y < h implies (#[trigger] g2[y]).len() == w by {
        assert(g[y].len() == w);
    }
}

/// The rows of a vector whose model is a grid have the grid's width.
proof fn lemma_rows(grid: Vec<Vec<u8>>, w: int, h: int)
    requires
        is_grid(grid.deep_view(), w, h),
    ensures
        grid.len() == h,
        forall|y: int| 0 <= y < h ==> (#[trigger] grid[y]).len() == w,
{
    assert forall|y: int| 0 <= y < h implies (#[trigger] grid[y]).len() == w by {
        assert(grid.deep_view()[y].len() == grid[y].len());
    }
}

/// Sets the bits `bit` on the cell at column `x` of row `y`.
fn open_passage(grid: &mut Vec<Vec<u8>>, x: usize, y: usize, bit: u8)
    requires
        y < old(grid).len(),
        x < old(grid)[y as int].len(),
    ensures
        final(grid).deep_view() == with_bit(old(grid).deep_view(), (x as int, y as int), bit),
{
    let value: u8 = grid[y][x] | bit;
    grid[y][x] = value;
    assert(grid.deep_view() =~~= with_bit(old(grid).deep_view(), (x as int, y as int), bit));
}

/// One step of the carver on the cell on top of the stack `cells`.
///
/// The directions are tried in the order given. The first that leads to a
/// free cell is carved: its bit is set on the top cell, the opposite bit on
/// the neighbor, and the neighbor is pushed; the direction is returned. If
/// none does, the grid stays as it is, the top cell is popped and `None` is
/// returned.
pub fn carve_step(
    grid: &mut Vec<Vec<u8>>,
    cells: &mut Vec<Point>,
    order: &Vec<u8>,
    width: i64,
    height: i64,
) -> (taken: Option<u8>)
    requires
        is_grid(old(grid).deep_view(), width as int, height as int),
        old(cells).len() > 0,
        inside(width as int, height as int, cell_of(old(cells)@.last())),
        forall|k: int| 0 <= k < order.len() ==> order[k] < 4,
    ensures
        taken == first_free(
            old(grid).deep_view(),
            width as int,
            height as int,
            cell_of(old(cells)@.last()),
            order@,
        ),
        (Stage { grid: final(grid).deep_view(), stack: final(cells)@ }) == carve_next(
            (Stage { grid: old(grid).deep_view(), stack: old(cells)@ }),
            width as int,
            height as int,
            order@,
        ),
{
    let cell = cells[cells.len() - 1];
    let ghost g = grid.deep_view();
    let ghost top = cell_of(cell);
    let mut i: usize = 0;
    while i < order.len()
        invariant
            i <= order.len(),
            grid.deep_view() == g,
            g == old(grid).deep_view(),
            cells@ == old(cells)@,
            is_grid(g, width as int, height as int),
            inside(width as int, height as int, top),
            top == cell_of(cell),
            top == cell_of(old(cells)@.last()),
            forall|k: int| 0 <= k < order.len() ==> order[k] < 4,
            blocked_before(g, width as int, height as int, top, order@, i as int),
        decreases order.len() - i,
    {
        let d = order[i];
        let dir = direction(d);
        proof {
            lemma_rows(*grid, width as int, height as int);
        }
        let nx = cell.x + dir.delta.x;
        let ny = cell.y + dir.delta.y;
        assert((nx as int, ny as int) == neighbor(top, d as int));
        if nx >= 0 && ny >= 0 && nx < width && ny < height && grid[ny as usize][nx as usize] == 0 {
            open_passage(grid, cell.x as usize, cell.y as usize, dir.passage);
            proof {
                lemma_with_bit_shape(g, width as int, height as int, top, dir.passage);
                lemma_rows(*grid, width as int, height as int);
            }
            open_passage(grid, nx as usize, ny as usize, dir.opposite);
            cells.push(Point { x: nx, y: ny });
            proof {
                assert(first_free_at(g, width as int, height as int, top, order@, i as int));
                lemma_first_free_found(g, width as int, height as int, top, order@, i as int);
            }
            return Some(d);
        }
        i += 1;
    }
    proof {
        lemma_first_free_none(g, width as int, height as int, top, order@);
    }
    cells.pop();
    None
}

/// A perfect maze of `width` columns and `height` rows, carved from cell
/// `(0, 0)` by a randomized depth-first growing tree.
///
/// The direction order is shuffled anew before every step. Whatever orders
/// the random source yields, the grid returned is the outcome of a run of
/// steps, and a spanning tree of the rectangle.
pub fn maze(width: i64, height: i64) -> (grid: Vec<Vec<u8>>)
    requires
        valid_dimensions(width as int, height as int),
    ensures
        is_carving_outcome(grid.deep_view(), width as int, height as int),
        is_perfect_maze(grid.deep_view(), width as int, height as int),
{
    let ghost w = width as int;
    let ghost h = height as int;
    proof {
        lemma_factors_fit(w, h);
    }
    let mut grid: Vec<Vec<u8>> = new_grid(width as usize, height as usize);
    let mut cells: Vec<Point> = Vec::new();
    let mut dir_indices: Vec<u8> = Vec::new();
    dir_indices.push(0);
    dir_indices.push(1);
    dir_indices.push(2);
    dir_indices.push(3);
    assert(dir_indices@ =~= table_order());

    cells.push(Point { x: 0, y: 0 });
    proof {
        lemma_rows(grid, w, h);
    }
    open_passage(&mut grid, 0, 0, DOWN);
    let ghost mut t: Growth = seed();
    let ghost mut orders: Seq<Seq<u8>> = Seq::empty();
    proof {
        lemma_start(w, h);
        assert(cells@ =~= seq![Point { x: 0, y: 0 }]);
        lemma_visited_count(grid.deep_view(), w, h);
    }
    while cells.len() > 0
        invariant
            w == width as int,
            h == height as int,
            carving(grid.deep_view(), w, h, cells@, t),
            is_direction_order(dir_indices@),
            visited_cells(grid.deep_view(), w, h).len() <= w * h,
            is_run(w, h, orders),
            run(w, h, orders) == (Stage { grid: grid.deep_view(), stack: cells@ }),
        decreases 2 * (w * h - visited_cells(grid.deep_view(), w, h).len()) + cells.len(),
    {
        let mut rng = thread_generator();
        shuffle(&mut dir_indices, &mut rng);
        let ghost g = grid.deep_view();
        let ghost stack = cells@;
        let ghost top = cell_of(stack.last());
        proof {
            lemma_direction_order(dir_indices@);
        }
        let taken = carve_step(&mut grid, &mut cells, &dir_indices, width, height);
        proof {
            lemma_first_free_none(g, w, h, top, dir_indices@);
            match taken {
                Some(d) => {
                    let n = neighbor(top, d as int);
                    lemma_carve(g, w, h, stack, t, d as int, point_of(n));
                    t = grown(t, n, opposite(d as int));
                    lemma_visited_count(grid.deep_view(), w, h);
                },
                None => {
                    lemma_all_blocked(g, w, h, top, dir_indices@);
                    lemma_retreat(g, w, h, stack, t);
                },
            }
            let longer = orders.push(dir_indices@);
            assert(longer.drop_last() =~= orders);
            assert forall|i: int| 0 <= i < longer.len() implies run(
                w,
                h,
                #[trigger] longer.take(i),
            ).stack.len() > 0 by {
                if i < orders.len() {
                    assert(longer.take(i) =~= orders.take(i));
                } else {
                    assert(longer.take(i) =~= orders);
                }
            }
            orders = longer;
        }
    }
    proof {
        lemma_finish(grid.deep_view(), w, h, cells@, t);
        assert(carves_to(w, h, orders, grid.deep_view()));
    }
    grid
}

/// A perfect maze of `width` columns and `height` rows, or
/// `InvalidDimension` when the dimensions are not valid.
pub fn carve(width: i64, height: i64) -> (result: Result<Vec<Vec<u8>>, MazeError>)
    ensures
        result is Ok <==> valid_dimensions(width as int, height as int),
        result matches Ok(grid) ==> is_carving_outcome(
            grid.deep_view(),
            width as int,
            height as int,
        ) && is_perfect_maze(grid.deep_view(), width as int, height as int),
        result matches Err(e) ==> e == MazeError::InvalidDimension,
{
    if width <= 0 || height <= 0 {
        return Err(MazeError::InvalidDimension);
    }
    let wide: u128 = width as u128;
    let high: u128 = height as u128;
    assert(wide * high <= 0x4000_0000_0000_0000_0000_0000_0000_0000) by (nonlinear_arith)
        requires
            0 < wide <= 0x8000_0000_0000_0000,
            0 < high <= 0x8000_0000_0000_0000,
    ;
    if wide * high > usize::MAX as u128 {
        return Err(MazeError::InvalidDimension);
    }
    Ok(maze(width, height))
}

} // verus!
