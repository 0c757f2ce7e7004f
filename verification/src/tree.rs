//! Why a grown grid is a tree: every visited cell but the first has one parent
//! of lower rank, and every other passage leads to a cell of higher rank.

use vstd::prelude::*;
use crate::bits::lemma_set_bit;
use crate::grid::{cell_at, inside, neighbor, open_toward, opposite, passage_bit, Cell};
use crate::graph::{
    acyclic, connected, covered, is_cycle, is_walk, linked, linked_at, linked_by, mirrored,
    reaches, symmetric, visited, walks,
};

verus! {

/// A record of how a grid was grown: the rank at which each cell was reached,
/// the direction from each cell to its parent, and the next rank to give out.
pub struct Growth {
    pub rank: Map<Cell, nat>,
    pub up: Map<Cell, int>,
    pub next: nat,
}

/// `a` is open toward its parent, which lies in the grid and has a lower rank.
pub open spec fn has_parent(g: Seq<Seq<u8>>, w: int, h: int, t: Growth, a: Cell) -> bool {
    let d = t.up[a];
    &&& 0 <= d < 4
    &&& open_toward(g, a, d)
    &&& inside(w, h, neighbor(a, d))
    &&& t.rank[neighbor(a, d)] < t.rank[a]
}

/// `d` is the direction from `a` to its parent; the first cell has none.
pub open spec fn is_parent_dir(t: Growth, a: Cell, d: int) -> bool {
    a != (0int, 0int) && d == t.up[a]
}

/// A passage of `a` that does not lead to its parent leads to a higher rank.
pub open spec fn climbs(g: Seq<Seq<u8>>, w: int, h: int, t: Growth, a: Cell, d: int) -> bool {
    open_toward(g, a, d) && inside(w, h, neighbor(a, d)) && !is_parent_dir(t, a, d)
        ==> t.rank[neighbor(a, d)] > t.rank[a]
}

/// The rank of a visited cell has been given out already.
pub open spec fn ranked(g: Seq<Seq<u8>>, t: Growth, a: Cell) -> bool {
    visited(g, a) ==> t.rank[a] < t.next
}

/// `t` records a growth of `g` from cell `(0, 0)`.
pub open spec fn is_growth(g: Seq<Seq<u8>>, w: int, h: int, t: Growth) -> bool {
    &&& forall|a: Cell|
        inside(w, h, a) && a != (0int, 0int) && visited(g, a) ==> #[trigger] has_parent(
            g,
            w,
            h,
            t,
            a,
        )
    &&& forall|a: Cell, d: int| 0 <= d < 4 && inside(w, h, a) ==> #[trigger] climbs(g, w, h, t, a, d)
    &&& forall|a: Cell| inside(w, h, a) ==> #[trigger] ranked(g, t, a)
}

/// Around a visited cell `a`, the neighbor in direction `d` is visited too.
pub open spec fn settled(g: Seq<Seq<u8>>, w: int, h: int, a: Cell, d: int) -> bool {
    visited(g, a) && inside(w, h, neighbor(a, d)) ==> visited(g, neighbor(a, d))
}

/// A cell with an open passage is visited.
pub proof fn lemma_open_is_visited(g: Seq<Seq<u8>>, c: Cell, d: int)
    requires
        0 <= d < 4,
        open_toward(g, c, d),
    ensures
        visited(g, c),
{
    lemma_set_bit(cell_at(g, c), passage_bit(d), passage_bit(d));
}

/// In a symmetric grid a passage can be taken both ways.
pub proof fn lemma_linked_back(g: Seq<Seq<u8>>, w: int, h: int, a: Cell, b: Cell)
    requires
        symmetric(g, w, h),
        linked(g, w, h, a, b),
    ensures
        linked(g, w, h, b, a),
{
    let d = if linked_by(g, a, b, 0) {
        0int
    } else if linked_by(g, a, b, 1) {
        1int
    } else if linked_by(g, a, b, 2) {
        2int
    } else {
        3int
    };
    assert(mirrored(g, a, d));
    assert(linked_by(g, b, a, opposite(d)));
}

/// Every cell of a walk lies in the grid.
pub proof fn lemma_walk_inside(g: Seq<Seq<u8>>, w: int, h: int, p: Seq<Cell>)
    requires
        is_walk(g, w, h, p),
    ensures
        forall|i: int| 0 <= i < p.len() ==> inside(w, h, #[trigger] p[i]),
{
    assert forall|i: int| 0 <= i < p.len() implies inside(w, h, #[trigger] p[i]) by {
        if i > 0 {
            assert(linked_at(g, w, h, p, i - 1));
        }
    }
}

/// In a symmetric grid a walk read backwards is a walk.
pub proof fn lemma_walk_back(g: Seq<Seq<u8>>, w: int, h: int, p: Seq<Cell>, a: Cell, b: Cell)
    requires
        symmetric(g, w, h),
        walks(g, w, h, p, a, b),
    ensures
        walks(g, w, h, p.reverse(), b, a),
{
    let r = p.reverse();
    lemma_walk_inside(g, w, h, p);
    assert forall|i: int| 0 <= i < r.len() - 1 implies #[trigger] linked_at(g, w, h, r, i) by {
        let j = p.len() - 2 - i;
        assert(linked_at(g, w, h, p, j));
        lemma_linked_back(g, w, h, p[j], p[j + 1]);
    }
}

/// A walk to `b` and a walk from `b` make one walk.
pub proof fn lemma_walk_join(
    g: Seq<Seq<u8>>,
    w: int,
    h: int,
    p: Seq<Cell>,
    q: Seq<Cell>,
    a: Cell,
    b: Cell,
    c: Cell,
)
    requires
        walks(g, w, h, p, a, b),
        walks(g, w, h, q, b, c),
    ensures
        walks(g, w, h, p + q.subrange(1, q.len() as int), a, c),
{
    let r = p + q.subrange(1, q.len() as int);
    assert forall|i: int| 0 <= i < r.len() - 1 implies #[trigger] linked_at(g, w, h, r, i) by {
        if i < p.len() - 1 {
            assert(linked_at(g, w, h, p, i));
        } else {
            assert(linked_at(g, w, h, q, i - p.len() + 1));
        }
    }
}

/// A position of `c` below `n` whose cell has the highest rank of those below `n`.
proof fn lemma_highest(t: Growth, c: Seq<Cell>, n: int) -> (m: int)
    requires
        0 < n <= c.len(),
    ensures
        0 <= m < n,
        forall|i: int| 0 <= i < n ==> t.rank[#[trigger] c[i]] <= t.rank[c[m]],
    decreases n,
{
    if n == 1 {
        0
    } else {
        let m = lemma_highest(t, c, n - 1);
        if t.rank[c[n - 1]] > t.rank[c[m]] {
            n - 1
        } else {
            m
        }
    }
}

/// A passage from `a` to a cell of no higher rank leads to the parent of `a`.
proof fn lemma_lower_is_parent(g: Seq<Seq<u8>>, w: int, h: int, t: Growth, a: Cell, b: Cell)
    requires
        is_growth(g, w, h, t),
        linked(g, w, h, a, b),
        t.rank[b] <= t.rank[a],
    ensures
        b == neighbor(a, t.up[a]),
{
    let d = if linked_by(g, a, b, 0) {
        0int
    } else if linked_by(g, a, b, 1) {
        1int
    } else if linked_by(g, a, b, 2) {
        2int
    } else {
        3int
    };
    assert(climbs(g, w, h, t, a, d));
}

/// A grown grid holds no cycle.
pub proof fn lemma_growth_acyclic(g: Seq<Seq<u8>>, w: int, h: int, t: Growth)
    requires
        symmetric(g, w, h),
        is_growth(g, w, h, t),
    ensures
        acyclic(g, w, h),
{
    assert forall|c: Seq<Cell>| !#[trigger] is_cycle(g, w, h, c) by {
        if is_cycle(g, w, h, c) {
            let n = c.len() as int;
            let m = lemma_highest(t, c, n);
            let before = if m == 0 {
                n - 1
            } else {
                m - 1
            };
            let after = if m == n - 1 {
                0
            } else {
                m + 1
            };
            if m == 0 {
                assert(linked(g, w, h, c[before], c[m]));
            } else {
                assert(linked_at(g, w, h, c, before));
            }
            if m == n - 1 {
                assert(linked(g, w, h, c[m], c[after]));
            } else {
                assert(linked_at(g, w, h, c, m));
            }
            lemma_linked_back(g, w, h, c[before], c[m]);
            lemma_lower_is_parent(g, w, h, t, c[m], c[before]);
            lemma_lower_is_parent(g, w, h, t, c[m], c[after]);
            assert(c[before] == c[after]);
            assert(before != after);
            assert(false);
        }
    }
}

/// A walk from a visited cell down to cell `(0, 0)`, along the parents.
pub proof fn lemma_walk_to_first(g: Seq<Seq<u8>>, w: int, h: int, t: Growth, a: Cell) -> (p: Seq<
    Cell,
>)
    requires
        symmetric(g, w, h),
        is_growth(g, w, h, t),
        inside(w, h, a),
        visited(g, a),
    ensures
        walks(g, w, h, p, a, (0, 0)),
    decreases t.rank[a],
{
    if a == (0int, 0int) {
        seq![a]
    } else {
        assert(has_parent(g, w, h, t, a));
        let d = t.up[a];
        let b = neighbor(a, d);
        assert(mirrored(g, a, d));
        lemma_open_is_visited(g, b, opposite(d));
        let q = lemma_walk_to_first(g, w, h, t, b);
        let p = seq![a] + q;
        assert(linked_by(g, a, b, d));
        assert forall|i: int| 0 <= i < p.len() - 1 implies #[trigger] linked_at(g, w, h, p, i) by {
            if i > 0 {
                assert(linked_at(g, w, h, q, i - 1));
            }
        }
        p
    }
}

/// A grown grid in which every cell is visited is connected.
pub proof fn lemma_growth_connected(g: Seq<Seq<u8>>, w: int, h: int, t: Growth)
    requires
        symmetric(g, w, h),
        is_growth(g, w, h, t),
        covered(g, w, h),
    ensures
        connected(g, w, h),
{
    assert forall|a: Cell, b: Cell| inside(w, h, a) && inside(w, h, b) implies #[trigger] reaches(
        g,
        w,
        h,
        a,
        b,
    ) by {
        assert(visited(g, a));
        assert(visited(g, b));
        let p = lemma_walk_to_first(g, w, h, t, a);
        let q = lemma_walk_to_first(g, w, h, t, b);
        lemma_walk_back(g, w, h, q, b, (0, 0));
        lemma_walk_join(g, w, h, p, q.reverse(), a, (0, 0), b);
        assert(walks(g, w, h, p + q.reverse().subrange(1, q.len() as int), a, b));
    }
}

/// Cell `(x, y)` is visited when cell `(0, 0)` is and visited cells have only
/// visited neighbors.
proof fn lemma_spread(g: Seq<Seq<u8>>, w: int, h: int, x: int, y: int)
    requires
        visited(g, (0, 0)),
        forall|a: Cell, d: int| 0 <= d < 4 && inside(w, h, a) ==> #[trigger] settled(g, w, h, a, d),
        inside(w, h, (x, y)),
    ensures
        visited(g, (x, y)),
    decreases x + y,
{
    if x > 0 {
        lemma_spread(g, w, h, x - 1, y);
        assert(settled(g, w, h, (x - 1, y), 1));
        assert(neighbor((x - 1, y), 1) == (x, y));
    } else if y > 0 {
        lemma_spread(g, w, h, x, y - 1);
        assert(settled(g, w, h, (x, y - 1), 0));
        assert(neighbor((x, y - 1), 0) == (x, y));
    }
}

/// Once no visited cell has an unvisited neighbor, every cell is visited.
pub proof fn lemma_settled_covers(g: Seq<Seq<u8>>, w: int, h: int)
    requires
        visited(g, (0, 0)),
        forall|a: Cell, d: int| 0 <= d < 4 && inside(w, h, a) ==> #[trigger] settled(g, w, h, a, d),
    ensures
        covered(g, w, h),
{
    assert forall|c: Cell| inside(w, h, c) implies #[trigger] visited(g, c) by {
        lemma_spread(g, w, h, c.0, c.1);
    }
}

} // verus!
