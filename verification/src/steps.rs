//! The carver as a step function: what one step does to the grid and the
//! stack, and what a whole run of steps is.

use vstd::prelude::*;
use crate::grid::{
    blank, inside, neighbor, opposite, passage_bit, with_bit, Cell, Point, DOWN,
};
use crate::graph::visited;

verus! {

/// The grid and the stack of a carving under way.
pub struct Stage {
    pub grid: Seq<Seq<u8>>,
    pub stack: Seq<Point>,
}

/// The model cell that a point addresses.
pub open spec fn cell_of(p: Point) -> Cell {
    (p.x as int, p.y as int)
}

/// The point that addresses a model cell.
pub open spec fn point_of(c: Cell) -> Point {
    Point { x: c.0 as i64, y: c.1 as i64 }
}

/// Both dimensions are positive and every cell can be addressed by a point.
pub open spec fn addressable(w: int, h: int) -> bool {
    0 < w <= i64::MAX && 0 < h <= i64::MAX
}

/// The dimensions that a maze can have: both positive, with a number of cells
/// that fits a `usize`.
pub open spec fn valid_dimensions(w: int, h: int) -> bool {
    w > 0 && h > 0 && w * h <= usize::MAX
}

/// The four directions in table order.
pub open spec fn table_order() -> Seq<u8> {
    seq![0u8, 1u8, 2u8, 3u8]
}

/// `order` holds each of the four directions once.
pub open spec fn is_direction_order(order: Seq<u8>) -> bool {
    order.to_multiset() == table_order().to_multiset()
}

/// The neighbor of `c` in direction `d` lies in the grid and is unvisited.
pub open spec fn free(g: Seq<Seq<u8>>, w: int, h: int, c: Cell, d: int) -> bool {
    inside(w, h, neighbor(c, d)) && !visited(g, neighbor(c, d))
}

/// `g` after a passage is carved from `c` in direction `d`: the direction's
/// bit is set on `c`, the opposite bit on the neighbor.
pub open spec fn carved(g: Seq<Seq<u8>>, c: Cell, d: int) -> Seq<Seq<u8>> {
    with_bit(with_bit(g, c, passage_bit(d)), neighbor(c, d), passage_bit(opposite(d)))
}

/// None of the first `j` directions of `order` leads from `c` to a free cell.
pub open spec fn blocked_before(
    g: Seq<Seq<u8>>,
    w: int,
    h: int,
    c: Cell,
    order: Seq<u8>,
    j: int,
) -> bool {
    forall|k: int| 0 <= k < j ==> !free(g, w, h, c, #[trigger] order[k] as int)
}

/// Position `j` is the first of `order` whose direction leads from `c` to a
/// free cell.
pub open spec fn first_free_at(
    g: Seq<Seq<u8>>,
    w: int,
    h: int,
    c: Cell,
    order: Seq<u8>,
    j: int,
) -> bool {
    &&& 0 <= j < order.len()
    &&& free(g, w, h, c, order[j] as int)
    &&& blocked_before(g, w, h, c, order, j)
}

/// The first direction of `order` that leads from `c` to a free cell, if any.
pub open spec fn first_free(g: Seq<Seq<u8>>, w: int, h: int, c: Cell, order: Seq<u8>) -> Option<
    u8,
> {
    if exists|j: int| first_free_at(g, w, h, c, order, j) {
        Some(order[choose|j: int| first_free_at(g, w, h, c, order, j)])
    } else {
        None
    }
}

/// The stage after one step on the top cell of the stack: a passage is carved
/// in the first free direction of `order` and the cell reached is pushed, or,
/// with no free direction, the top cell is popped.
pub open spec fn carve_next(s: Stage, w: int, h: int, order: Seq<u8>) -> Stage {
    let top = cell_of(s.stack.last());
    match first_free(s.grid, w, h, top, order) {
        Some(d) => Stage {
            grid: carved(s.grid, top, d as int),
            stack: s.stack.push(point_of(neighbor(top, d as int))),
        },
        None => Stage { grid: s.grid, stack: s.stack.drop_last() },
    }
}

/// The stage a carving starts from: a blank grid with the entry mark set on
/// cell `(0, 0)`, and that cell alone on the stack.
pub open spec fn initial(w: int, h: int) -> Stage {
    Stage { grid: with_bit(blank(w, h), (0, 0), DOWN), stack: seq![Point { x: 0, y: 0 }] }
}

/// The stage after one step for each of `orders`, from the initial stage.
pub open spec fn run(w: int, h: int, orders: Seq<Seq<u8>>) -> Stage
    decreases orders.len(),
{
    if orders.len() == 0 {
        initial(w, h)
    } else {
        carve_next(run(w, h, orders.drop_last()), w, h, orders.last())
    }
}

/// `orders` drives a run of the carver: each is an order of the four
/// directions, and the stack is not empty before any of the steps.
pub open spec fn is_run(w: int, h: int, orders: Seq<Seq<u8>>) -> bool {
    &&& forall|i: int| 0 <= i < orders.len() ==> is_direction_order(#[trigger] orders[i])
    &&& forall|i: int| 0 <= i < orders.len() ==> run(w, h, #[trigger] orders.take(i)).stack.len() > 0
}

/// `orders` drives a run that ends with an empty stack and the grid `g`.
pub open spec fn carves_to(w: int, h: int, orders: Seq<Seq<u8>>, g: Seq<Seq<u8>>) -> bool {
    &&& is_run(w, h, orders)
    &&& run(w, h, orders).stack.len() == 0
    &&& run(w, h, orders).grid == g
}

/// `g` is what the carver leaves for some choice of direction orders.
pub open spec fn is_carving_outcome(g: Seq<Seq<u8>>, w: int, h: int) -> bool {
    exists|orders: Seq<Seq<u8>>| #[trigger] carves_to(w, h, orders, g)
}

/// The first free direction stands at the one position that is first free.
pub proof fn lemma_first_free_found(
    g: Seq<Seq<u8>>,
    w: int,
    h: int,
    c: Cell,
    order: Seq<u8>,
    j: int,
)
    requires
        first_free_at(g, w, h, c, order, j),
    ensures
        first_free(g, w, h, c, order) == Some(order[j]),
{
    let k = choose|k: int| first_free_at(g, w, h, c, order, k);
    if k < j {
        assert(!free(g, w, h, c, order[k] as int));
    } else if j < k {
        assert(!free(g, w, h, c, order[j] as int));
    }
}

/// There is no first free direction exactly when every direction is blocked.
pub proof fn lemma_first_free_none(g: Seq<Seq<u8>>, w: int, h: int, c: Cell, order: Seq<u8>)
    ensures
        first_free(g, w, h, c, order) is None <==> blocked_before(
            g,
            w,
            h,
            c,
            order,
            order.len() as int,
        ),
        first_free(g, w, h, c, order) matches Some(d) ==> order.contains(d) && free(
            g,
            w,
            h,
            c,
            d as int,
        ),
    decreases order.len(),
{
    if exists|j: int| first_free_at(g, w, h, c, order, j) {
        let j = choose|j: int| first_free_at(g, w, h, c, order, j);
        assert(free(g, w, h, c, order[j] as int));
    } else {
        lemma_blocked_or_found(g, w, h, c, order, order.len() as int);
    }
}

/// The first `n` directions are all blocked, or one of them is first free.
proof fn lemma_blocked_or_found(g: Seq<Seq<u8>>, w: int, h: int, c: Cell, order: Seq<u8>, n: int)
    requires
        0 <= n <= order.len(),
    ensures
        blocked_before(g, w, h, c, order, n) || exists|j: int| first_free_at(g, w, h, c, order, j),
    decreases n,
{
    if n > 0 {
        lemma_blocked_or_found(g, w, h, c, order, n - 1);
        if blocked_before(g, w, h, c, order, n - 1) && free(g, w, h, c, order[n - 1] as int) {
            assert(first_free_at(g, w, h, c, order, n - 1));
        }
    }
}

/// An order of the four directions holds nothing else and misses none.
pub proof fn lemma_direction_order(order: Seq<u8>)
    requires
        is_direction_order(order),
    ensures
        order.len() == 4,
        forall|k: int| 0 <= k < order.len() ==> #[trigger] order[k] < 4,
        forall|d: u8| d < 4 ==> order.contains(d),
{
    let base = table_order();
    order.to_multiset_ensures();
    base.to_multiset_ensures();
    assert(base[0] == 0 && base[1] == 1 && base[2] == 2 && base[3] == 3);
    assert forall|k: int| 0 <= k < order.len() implies #[trigger] order[k] < 4 by {
        assert(order.contains(order[k]));
        assert(order.to_multiset().count(order[k]) > 0);
        assert(base.to_multiset().count(order[k]) > 0);
        assert(base.contains(order[k]));
    }
    assert forall|d: u8| d < 4 implies order.contains(d) by {
        assert(base[d as int] == d);
        assert(base.contains(d));
        assert(base.to_multiset().count(d) > 0);
        assert(order.to_multiset().count(d) > 0);
    }
}

/// With every direction of a full order blocked, no neighbor is free.
pub proof fn lemma_all_blocked(g: Seq<Seq<u8>>, w: int, h: int, c: Cell, order: Seq<u8>)
    requires
        is_direction_order(order),
        blocked_before(g, w, h, c, order, order.len() as int),
    ensures
        forall|d: int| 0 <= d < 4 ==> !#[trigger] free(g, w, h, c, d),
{
    lemma_direction_order(order);
    assert forall|d: int| 0 <= d < 4 implies !#[trigger] free(g, w, h, c, d) by {
        assert(order.contains(d as u8));
        let k = choose|k: int| 0 <= k < order.len() && order[k] == d as u8;
        assert(!free(g, w, h, c, order[k] as int));
    }
}

} // verus!
