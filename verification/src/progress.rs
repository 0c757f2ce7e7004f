//! What holds of the grid and the stack at every step of the carver, and why
//! each step keeps it.

use vstd::prelude::*;
use crate::bits::lemma_set_bit;
use crate::cells::lemma_visited_count;
use crate::steps::{
    addressable, carved, carves_to, cell_of, first_free, free, initial, is_direction_order,
    is_run, lemma_all_blocked, lemma_direction_order, lemma_first_free_none, point_of, run,
};
use crate::grid::{
    blank, cell_at, inside, is_grid, neighbor, open_toward, opposite, passage_bit, with_bit, Cell,
    Point, DOWN,
};
use crate::graph::{
    bounded, four_bit, is_perfect_maze, kept_inside, mirrored, passages, symmetric, visited,
    visited_cells,
};
use crate::tree::{
    climbs, has_parent, is_growth, is_parent_dir, lemma_growth_acyclic, lemma_growth_connected,
    lemma_open_is_visited, lemma_settled_covers, ranked, settled, Growth,
};

verus! {

/// Cell `a` is on the stack.
pub open spec fn on_stack(stack: Seq<Point>, a: Cell) -> bool {
    exists|i: int| 0 <= i < stack.len() && cell_of(#[trigger] stack[i]) == a
}

/// Cell `a` is still on the stack, or its neighbor in direction `d` needs no
/// more work.
pub open spec fn done_at(g: Seq<Seq<u8>>, w: int, h: int, stack: Seq<Point>, a: Cell, d: int) -> bool {
    on_stack(stack, a) || settled(g, w, h, a, d)
}

/// Every point of the stack addresses a visited cell of the grid.
pub open spec fn stack_visited(g: Seq<Seq<u8>>, w: int, h: int, stack: Seq<Point>) -> bool {
    forall|i: int|
        0 <= i < stack.len() ==> inside(w, h, cell_of(#[trigger] stack[i])) && visited(
            g,
            cell_of(stack[i]),
        )
}

/// The state of a carving under way: the grid is a tree over its visited
/// cells, recorded by `t`, and only cells on the stack may still have an
/// unvisited neighbor.
pub open spec fn carving(g: Seq<Seq<u8>>, w: int, h: int, stack: Seq<Point>, t: Growth) -> bool {
    &&& w > 0
    &&& h > 0
    &&& is_grid(g, w, h)
    &&& four_bit(g, w, h)
    &&& open_toward(g, (0, 0), 2)
    &&& symmetric(g, w, h)
    &&& bounded(g, w, h)
    &&& is_growth(g, w, h, t)
    &&& stack_visited(g, w, h, stack)
    &&& forall|a: Cell, d: int|
        0 <= d < 4 && inside(w, h, a) ==> #[trigger] done_at(g, w, h, stack, a, d)
    &&& passages(g, w, h).finite()
    &&& passages(g, w, h).len() + 1 == visited_cells(g, w, h).len()
}

/// The record `t` after cell `n` was reached from the cell in direction `back`.
pub open spec fn grown(t: Growth, n: Cell, back: int) -> Growth {
    Growth { rank: t.rank.insert(n, t.next), up: t.up.insert(n, back), next: t.next + 1 }
}

/// `g2` is `g` with one more passage, from the visited cell `a` in direction
/// `d` to a cell that was unvisited.
pub open spec fn extends_by(g: Seq<Seq<u8>>, g2: Seq<Seq<u8>>, w: int, h: int, a: Cell, d: int) -> bool {
    &&& is_grid(g, w, h)
    &&& is_grid(g2, w, h)
    &&& 0 <= d < 4
    &&& inside(w, h, a)
    &&& visited(g, a)
    &&& free(g, w, h, a, d)
    &&& forall|c: Cell, e: int|
        inside(w, h, c) && 0 <= e < 4 ==> #[trigger] open_toward(g2, c, e) == (open_toward(g, c, e)
            || (c == a && e == d) || (c == neighbor(a, d) && e == opposite(d)))
    &&& forall|c: Cell|
        inside(w, h, c) ==> #[trigger] visited(g2, c) == (visited(g, c) || c == neighbor(a, d))
    &&& forall|e: int| 0 <= e < 4 ==> !#[trigger] open_toward(g, neighbor(a, d), e)
    &&& four_bit(g, w, h) ==> four_bit(g2, w, h)
}

/// Carving toward a free cell extends the grid by one passage.
pub proof fn lemma_carved_extends(g: Seq<Seq<u8>>, w: int, h: int, a: Cell, d: int)
    requires
        is_grid(g, w, h),
        0 <= d < 4,
        inside(w, h, a),
        visited(g, a),
        free(g, w, h, a, d),
    ensures
        extends_by(g, carved(g, a, d), w, h, a, d),
{
    let n = neighbor(a, d);
    let g1 = with_bit(g, a, passage_bit(d));
    let g2 = carved(g, a, d);
    assert(g[a.1].len() == w);
    assert(g[n.1].len() == w);
    assert forall|y: int| 0 <= y < h implies (#[trigger] g1[y]).len() == w by {
        assert(g[y].len() == w);
    }
    assert forall|y: int| 0 <= y < h implies (#[trigger] g2[y]).len() == w by {
        assert(g1[y].len() == w);
    }
    assert forall|c: Cell| inside(w, h, c) implies cell_at(g2, c) == (if c == n {
        cell_at(g, c) | passage_bit(opposite(d))
    } else if c == a {
        cell_at(g, c) | passage_bit(d)
    } else {
        cell_at(g, c)
    }) by {
        assert(g[c.1].len() == w);
        assert(g1[c.1].len() == w);
    }
    assert forall|c: Cell, e: int| inside(w, h, c) && 0 <= e < 4 implies #[trigger] open_toward(
        g2,
        c,
        e,
    ) == (open_toward(g, c, e) || (c == a && e == d) || (c == n && e == opposite(d))) by {
        lemma_set_bit(cell_at(g, c), passage_bit(d), passage_bit(e));
        lemma_set_bit(cell_at(g, c), passage_bit(opposite(d)), passage_bit(e));
    }
    assert forall|c: Cell| inside(w, h, c) implies #[trigger] visited(g2, c) == (visited(g, c) || c
        == n) by {
        lemma_set_bit(cell_at(g, c), passage_bit(d), passage_bit(d));
        lemma_set_bit(cell_at(g, c), passage_bit(opposite(d)), passage_bit(d));
    }
    assert forall|e: int| 0 <= e < 4 implies !#[trigger] open_toward(g, n, e) by {
        lemma_set_bit(cell_at(g, n), passage_bit(e), passage_bit(e));
    }
    if four_bit(g, w, h) {
        assert forall|c: Cell| inside(w, h, c) implies #[trigger] cell_at(g2, c) < 16 by {
            assert(cell_at(g, c) < 16);
            lemma_set_bit(cell_at(g, c), passage_bit(d), passage_bit(d));
            lemma_set_bit(cell_at(g, c), passage_bit(opposite(d)), passage_bit(d));
        }
    }
}

/// One more passage keeps the passages symmetric and inside the grid.
proof fn lemma_extends_shape(g: Seq<Seq<u8>>, g2: Seq<Seq<u8>>, w: int, h: int, a: Cell, d: int)
    requires
        extends_by(g, g2, w, h, a, d),
        symmetric(g, w, h),
        bounded(g, w, h),
    ensures
        symmetric(g2, w, h),
        bounded(g2, w, h),
{
    let n = neighbor(a, d);
    assert forall|c: Cell, e: int|
        0 <= e < 4 && inside(w, h, c) && inside(w, h, neighbor(c, e)) implies #[trigger] mirrored(
        g2,
        c,
        e,
    ) by {
        assert(mirrored(g, c, e));
        let b = neighbor(c, e);
        assert(open_toward(g2, c, e) == (open_toward(g, c, e) || (c == a && e == d) || (c == n && e
            == opposite(d))));
        assert(open_toward(g2, b, opposite(e)) == (open_toward(g, b, opposite(e)) || (b == a
            && opposite(e) == d) || (b == n && opposite(e) == opposite(d))));
    }
    assert forall|c: Cell, e: int| 0 <= e < 4 && inside(w, h, c) implies #[trigger] kept_inside(
        g2,
        w,
        h,
        c,
        e,
    ) by {
        assert(kept_inside(g, w, h, c, e));
        assert(open_toward(g2, c, e) == (open_toward(g, c, e) || (c == a && e == d) || (c == n && e
            == opposite(d))));
    }
}

/// One more passage, recorded, keeps the record a growth of the grid.
proof fn lemma_extends_growth(
    g: Seq<Seq<u8>>,
    g2: Seq<Seq<u8>>,
    w: int,
    h: int,
    a: Cell,
    d: int,
    t: Growth,
)
    requires
        extends_by(g, g2, w, h, a, d),
        symmetric(g, w, h),
        is_growth(g, w, h, t),
        visited(g, (0, 0)),
    ensures
        is_growth(g2, w, h, grown(t, neighbor(a, d), opposite(d))),
{
    let n = neighbor(a, d);
    let t2 = grown(t, n, opposite(d));
    assert(ranked(g, t, a));
    assert(neighbor(n, opposite(d)) == a);
    assert forall|c: Cell|
        inside(w, h, c) && c != (0int, 0int) && visited(g2, c) implies #[trigger] has_parent(
        g2,
        w,
        h,
        t2,
        c,
    ) by {
        if c == n {
            assert(open_toward(g2, n, opposite(d)));
        } else {
            assert(visited(g, c));
            assert(has_parent(g, w, h, t, c));
            let e = t.up[c];
            let p = neighbor(c, e);
            assert(mirrored(g, c, e));
            lemma_open_is_visited(g, p, opposite(e));
            assert(open_toward(g2, c, e));
        }
    }
    assert forall|c: Cell, e: int| 0 <= e < 4 && inside(w, h, c) implies #[trigger] climbs(
        g2,
        w,
        h,
        t2,
        c,
        e,
    ) by {
        let b = neighbor(c, e);
        if open_toward(g2, c, e) && inside(w, h, b) && !is_parent_dir(t2, c, e) {
            if c == n {
                assert(!open_toward(g, n, e));
            } else if c == a && e == d {
            } else {
                assert(open_toward(g, c, e));
                assert(mirrored(g, c, e));
                lemma_open_is_visited(g, b, opposite(e));
                assert(climbs(g, w, h, t, c, e));
            }
        }
    }
    assert forall|c: Cell| inside(w, h, c) implies #[trigger] ranked(g2, t2, c) by {
        if c != n {
            assert(visited(g2, c) == (visited(g, c) || c == n));
            assert(ranked(g, t, c));
        }
    }
}

/// One more passage adds one to the passages and one to the visited cells.
proof fn lemma_extends_counts(g: Seq<Seq<u8>>, g2: Seq<Seq<u8>>, w: int, h: int, a: Cell, d: int)
    requires
        extends_by(g, g2, w, h, a, d),
        symmetric(g, w, h),
        passages(g, w, h).finite(),
        w >= 0,
        h >= 0,
    ensures
        passages(g2, w, h).finite(),
        passages(g2, w, h).len() == passages(g, w, h).len() + 1,
        visited_cells(g2, w, h).len() == visited_cells(g, w, h).len() + 1,
{
    let n = neighbor(a, d);
    let key: (Cell, int) = if d < 2 {
        (a, d)
    } else {
        (n, opposite(d))
    };
    assert(mirrored(g, a, d));
    assert(!open_toward(g, n, opposite(d)));
    assert(!passages(g, w, h).contains(key));
    assert forall|e: (Cell, int)| passages(g2, w, h).contains(e) == passages(g, w, h).insert(
        key,
    ).contains(e) by {
        if (e.1 == 0 || e.1 == 1) && inside(w, h, e.0) {
            assert(open_toward(g2, e.0, e.1) == (open_toward(g, e.0, e.1) || (e.0 == a && e.1 == d)
                || (e.0 == n && e.1 == opposite(d))));
        }
    }
    assert(passages(g2, w, h) =~= passages(g, w, h).insert(key));
    lemma_visited_count(g, w, h);
    assert forall|c: Cell| visited_cells(g2, w, h).contains(c) == visited_cells(g, w, h).insert(
        n,
    ).contains(c) by {
        if inside(w, h, c) {
            assert(visited(g2, c) == (visited(g, c) || c == n));
        }
    }
    assert(visited_cells(g2, w, h) =~= visited_cells(g, w, h).insert(n));
}

/// The record of a grid in which only cell `(0, 0)` is visited.
pub open spec fn seed() -> Growth {
    Growth { rank: Map::empty().insert((0int, 0int), 0nat), up: Map::empty(), next: 1 }
}

/// The initial stage is a carving under way, with one cell visited.
pub proof fn lemma_start(w: int, h: int)
    requires
        w > 0,
        h > 0,
    ensures
        carving(initial(w, h).grid, w, h, initial(w, h).stack, seed()),
        visited_cells(initial(w, h).grid, w, h).len() == 1,
{
    let first: Cell = (0, 0);
    let g0 = blank(w, h);
    let g = with_bit(g0, first, DOWN);
    let stack = seq![Point { x: 0, y: 0 }];
    let t = seed();
    assert forall|y: int| 0 <= y < h implies (#[trigger] g[y]).len() == w by {
        assert(g0[y].len() == w);
    }
    assert forall|c: Cell| inside(w, h, c) implies cell_at(g, c) == (if c == first {
        DOWN
    } else {
        0u8
    }) by {
        assert(g0[c.1].len() == w);
        assert(0u8 | DOWN == DOWN) by (bit_vector);
    }
    assert forall|c: Cell, e: int| inside(w, h, c) && 0 <= e < 4 implies #[trigger] open_toward(
        g,
        c,
        e,
    ) == (c == first && e == 2) by {
        lemma_set_bit(0u8, DOWN, passage_bit(e));
    }
    assert forall|c: Cell| inside(w, h, c) implies #[trigger] cell_at(g, c) < 16 by {}
    assert forall|c: Cell, e: int|
        0 <= e < 4 && inside(w, h, c) && inside(w, h, neighbor(c, e)) implies #[trigger] mirrored(
        g,
        c,
        e,
    ) by {
        assert(open_toward(g, c, e) == (c == first && e == 2));
        assert(open_toward(g, neighbor(c, e), opposite(e)) == (neighbor(c, e) == first && opposite(
            e,
        ) == 2));
    }
    assert forall|c: Cell, e: int| 0 <= e < 4 && inside(w, h, c) implies #[trigger] kept_inside(
        g,
        w,
        h,
        c,
        e,
    ) by {
        assert(open_toward(g, c, e) == (c == first && e == 2));
    }
    assert forall|c: Cell, e: int| 0 <= e < 4 && inside(w, h, c) implies #[trigger] climbs(
        g,
        w,
        h,
        t,
        c,
        e,
    ) by {
        assert(open_toward(g, c, e) == (c == first && e == 2));
    }
    assert(cell_of(stack[0]) == first);
    assert forall|c: Cell, e: int| 0 <= e < 4 && inside(w, h, c) implies #[trigger] done_at(
        g,
        w,
        h,
        stack,
        c,
        e,
    ) by {
        if c == first {
            assert(on_stack(stack, c));
        }
    }
    assert(passages(g, w, h) =~= Set::<(Cell, int)>::empty()) by {
        assert forall|e: (Cell, int)| !passages(g, w, h).contains(e) by {
            if (e.1 == 0 || e.1 == 1) && inside(w, h, e.0) {
                assert(open_toward(g, e.0, e.1) == (e.0 == first && e.1 == 2));
            }
        }
    }
    assert(visited_cells(g, w, h) =~= Set::<Cell>::empty().insert(first));
}

/// Carving from the top of the stack toward a free cell, and pushing that
/// cell, keeps the carving under way and visits one more cell.
pub proof fn lemma_carve(
    g: Seq<Seq<u8>>,
    w: int,
    h: int,
    stack: Seq<Point>,
    t: Growth,
    d: int,
    pushed: Point,
)
    requires
        carving(g, w, h, stack, t),
        stack.len() > 0,
        0 <= d < 4,
        free(g, w, h, cell_of(stack.last()), d),
        cell_of(pushed) == neighbor(cell_of(stack.last()), d),
    ensures
        carving(
            carved(g, cell_of(stack.last()), d),
            w,
            h,
            stack.push(pushed),
            grown(t, cell_of(pushed), opposite(d)),
        ),
        visited_cells(carved(g, cell_of(stack.last()), d), w, h).len() == visited_cells(
            g,
            w,
            h,
        ).len() + 1,
{
    let a = cell_of(stack.last());
    let n = neighbor(a, d);
    let g2 = carved(g, a, d);
    let stack2 = stack.push(pushed);
    lemma_open_is_visited(g, (0, 0), 2);
    lemma_carved_extends(g, w, h, a, d);
    lemma_extends_shape(g, g2, w, h, a, d);
    lemma_extends_growth(g, g2, w, h, a, d, t);
    lemma_extends_counts(g, g2, w, h, a, d);
    assert(open_toward(g2, (0, 0), 2));
    assert forall|i: int| 0 <= i < stack2.len() implies inside(w, h, cell_of(#[trigger] stack2[i]))
        && visited(g2, cell_of(stack2[i])) by {
        if i < stack.len() {
            assert(stack2[i] == stack[i]);
        }
        assert(visited(g2, cell_of(stack2[i])) == (visited(g, cell_of(stack2[i])) || cell_of(
            stack2[i],
        ) == n));
    }
    assert forall|c: Cell, e: int| 0 <= e < 4 && inside(w, h, c) implies #[trigger] done_at(
        g2,
        w,
        h,
        stack2,
        c,
        e,
    ) by {
        assert(done_at(g, w, h, stack, c, e));
        if on_stack(stack, c) {
            let i = choose|i: int| 0 <= i < stack.len() && cell_of(#[trigger] stack[i]) == c;
            assert(stack2[i] == stack[i]);
        } else if c == n {
            assert(stack2[stack.len() as int] == pushed);
        } else {
            let b = neighbor(c, e);
            assert(visited(g2, c) == (visited(g, c) || c == n));
            if inside(w, h, b) {
                assert(visited(g2, b) == (visited(g, b) || b == n));
            }
        }
    }
}

/// Popping the top of the stack once none of its neighbors is free keeps the
/// carving under way.
pub proof fn lemma_retreat(g: Seq<Seq<u8>>, w: int, h: int, stack: Seq<Point>, t: Growth)
    requires
        carving(g, w, h, stack, t),
        stack.len() > 0,
        forall|d: int| 0 <= d < 4 ==> !#[trigger] free(g, w, h, cell_of(stack.last()), d),
    ensures
        carving(g, w, h, stack.drop_last(), t),
{
    let a = cell_of(stack.last());
    let stack2 = stack.drop_last();
    assert forall|i: int| 0 <= i < stack2.len() implies inside(w, h, cell_of(#[trigger] stack2[i]))
        && visited(g, cell_of(stack2[i])) by {
        assert(stack2[i] == stack[i]);
    }
    assert forall|c: Cell, e: int| 0 <= e < 4 && inside(w, h, c) implies #[trigger] done_at(
        g,
        w,
        h,
        stack2,
        c,
        e,
    ) by {
        assert(done_at(g, w, h, stack, c, e));
        if !settled(g, w, h, c, e) {
            let i = choose|i: int| 0 <= i < stack.len() && cell_of(#[trigger] stack[i]) == c;
            if i < stack.len() - 1 {
                assert(stack2[i] == stack[i]);
            } else {
                assert(!free(g, w, h, a, e));
            }
        }
    }
}

/// When the stack is empty the carved grid is a perfect maze.
pub proof fn lemma_finish(g: Seq<Seq<u8>>, w: int, h: int, stack: Seq<Point>, t: Growth)
    requires
        carving(g, w, h, stack, t),
        stack.len() == 0,
    ensures
        is_perfect_maze(g, w, h),
{
    lemma_open_is_visited(g, (0, 0), 2);
    assert forall|a: Cell, d: int| 0 <= d < 4 && inside(w, h, a) implies #[trigger] settled(
        g,
        w,
        h,
        a,
        d,
    ) by {
        assert(done_at(g, w, h, stack, a, d));
    }
    lemma_settled_covers(g, w, h);
    lemma_growth_connected(g, w, h, t);
    lemma_growth_acyclic(g, w, h, t);
    lemma_visited_count(g, w, h);
}

/// A run without its last step is a run, with a stack that is not empty.
pub proof fn lemma_run_prefix(w: int, h: int, orders: Seq<Seq<u8>>)
    requires
        is_run(w, h, orders),
        orders.len() > 0,
    ensures
        is_run(w, h, orders.drop_last()),
        run(w, h, orders.drop_last()).stack.len() > 0,
        is_direction_order(orders.last()),
{
    let before = orders.drop_last();
    assert(orders.take(orders.len() - 1) =~= before);
    assert forall|i: int| 0 <= i < before.len() implies run(
        w,
        h,
        #[trigger] before.take(i),
    ).stack.len() > 0 by {
        assert(before.take(i) =~= orders.take(i));
    }
    assert forall|i: int| 0 <= i < before.len() implies is_direction_order(
        #[trigger] before[i],
    ) by {
        assert(before[i] == orders[i]);
    }
}

/// Every stage of a run is a carving under way, and the steps taken so far
/// are counted by what is left to do: two for each unvisited cell, one for
/// each cell on the stack.
pub proof fn lemma_run_carving(w: int, h: int, orders: Seq<Seq<u8>>) -> (t: Growth)
    requires
        addressable(w, h),
        is_run(w, h, orders),
    ensures
        carving(run(w, h, orders).grid, w, h, run(w, h, orders).stack, t),
        orders.len() + 2 * (w * h - visited_cells(run(w, h, orders).grid, w, h).len()) + run(
            w,
            h,
            orders,
        ).stack.len() == 2 * (w * h) - 1,
    decreases orders.len(),
{
    if orders.len() == 0 {
        lemma_start(w, h);
        seed()
    } else {
        let before = orders.drop_last();
        let order = orders.last();
        lemma_run_prefix(w, h, orders);
        let t = lemma_run_carving(w, h, before);
        let s = run(w, h, before);
        let top = cell_of(s.stack.last());
        lemma_direction_order(order);
        lemma_first_free_none(s.grid, w, h, top, order);
        match first_free(s.grid, w, h, top, order) {
            Some(d) => {
                let n = neighbor(top, d as int);
                let k = choose|k: int| 0 <= k < order.len() && order[k] == d;
                assert(order[k] < 4);
                lemma_carve(s.grid, w, h, s.stack, t, d as int, point_of(n));
                grown(t, n, opposite(d as int))
            },
            None => {
                lemma_all_blocked(s.grid, w, h, top, order);
                lemma_retreat(s.grid, w, h, s.stack, t);
                t
            },
        }
    }
}

/// A step of a run clears no bit: a passage that was open stays open.
pub proof fn lemma_step_keeps_passages(w: int, h: int, orders: Seq<Seq<u8>>, c: Cell, d: int)
    requires
        addressable(w, h),
        is_run(w, h, orders),
        orders.len() > 0,
        inside(w, h, c),
        0 <= d < 4,
        open_toward(run(w, h, orders.drop_last()).grid, c, d),
    ensures
        open_toward(run(w, h, orders).grid, c, d),
{
    lemma_run_prefix(w, h, orders);
    let t = lemma_run_carving(w, h, orders.drop_last());
    let s = run(w, h, orders.drop_last());
    let order = orders.last();
    let top = cell_of(s.stack.last());
    lemma_direction_order(order);
    lemma_first_free_none(s.grid, w, h, top, order);
    match first_free(s.grid, w, h, top, order) {
        Some(e) => {
            let k = choose|k: int| 0 <= k < order.len() && order[k] == e;
            assert(order[k] < 4);
            lemma_carved_extends(s.grid, w, h, top, e as int);
        },
        None => {},
    }
}

/// Whatever the direction orders, a run that empties the stack leaves a
/// perfect maze.
pub proof fn lemma_every_run_is_perfect(w: int, h: int, orders: Seq<Seq<u8>>, g: Seq<Seq<u8>>)
    requires
        addressable(w, h),
        carves_to(w, h, orders, g),
    ensures
        is_perfect_maze(g, w, h),
{
    let t = lemma_run_carving(w, h, orders);
    lemma_finish(g, w, h, run(w, h, orders).stack, t);
}

/// A run that empties the stack takes `2 * w * h - 1` steps: one carving for
/// every cell but the first, and one pop for every cell.
pub proof fn lemma_run_length(w: int, h: int, orders: Seq<Seq<u8>>, g: Seq<Seq<u8>>)
    requires
        addressable(w, h),
        carves_to(w, h, orders, g),
    ensures
        orders.len() == 2 * (w * h) - 1,
{
    let t = lemma_run_carving(w, h, orders);
    lemma_finish(g, w, h, run(w, h, orders).stack, t);
    lemma_visited_count(g, w, h);
}

} // verus!
