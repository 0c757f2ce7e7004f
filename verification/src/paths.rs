//! Paths in a perfect maze: between any two cells there is exactly one.

use vstd::prelude::*;
use crate::grid::{inside, Cell};
use crate::graph::{
    acyclic, is_cycle, is_perfect_maze, linked, linked_at, reaches, symmetric, walks,
};
use crate::tree::{lemma_linked_back, lemma_walk_inside};

verus! {

/// `p` is a path from `a` to `b`: a walk that meets no cell twice.
pub open spec fn is_path(g: Seq<Seq<u8>>, w: int, h: int, p: Seq<Cell>, a: Cell, b: Cell) -> bool {
    walks(g, w, h, p, a, b) && p.no_duplicates()
}

/// `p` is the one path from `a` to `b`.
pub open spec fn is_only_path(
    g: Seq<Seq<u8>>,
    w: int,
    h: int,
    p: Seq<Cell>,
    a: Cell,
    b: Cell,
) -> bool {
    &&& is_path(g, w, h, p, a, b)
    &&& forall|q: Seq<Cell>| #[trigger] is_path(g, w, h, q, a, b) ==> q == p
}

/// From `a` to `b` there is exactly one path.
pub open spec fn one_path(g: Seq<Seq<u8>>, w: int, h: int, a: Cell, b: Cell) -> bool {
    exists|p: Seq<Cell>| #[trigger] is_only_path(g, w, h, p, a, b)
}

/// Between any two cells of the grid there is exactly one path.
pub open spec fn uniquely_connected(g: Seq<Seq<u8>>, w: int, h: int) -> bool {
    forall|a: Cell, b: Cell| inside(w, h, a) && inside(w, h, b) ==> #[trigger] one_path(g, w, h, a, b)
}

/// `p` with the part after position `i` up to position `j` cut out.
pub open spec fn without_loop(p: Seq<Cell>, i: int, j: int) -> Seq<Cell> {
    p.subrange(0, i + 1) + p.subrange(j + 1, p.len() as int)
}

/// A walk from `a` to `b` can be shortened to a path from `a` to `b`.
pub proof fn lemma_walk_to_path(g: Seq<Seq<u8>>, w: int, h: int, p: Seq<Cell>, a: Cell, b: Cell) -> (q:
    Seq<Cell>)
    requires
        walks(g, w, h, p, a, b),
    ensures
        is_path(g, w, h, q, a, b),
    decreases p.len(),
{
    if p.no_duplicates() {
        p
    } else {
        let (i, j) = choose|i: int, j: int|
            0 <= i < p.len() && 0 <= j < p.len() && i != j && p[i] == p[j];
        let (lo, hi) = if i < j {
            (i, j)
        } else {
            (j, i)
        };
        let r = without_loop(p, lo, hi);
        assert forall|k: int| 0 <= k < r.len() - 1 implies #[trigger] linked_at(g, w, h, r, k) by {
            if k < lo {
                assert(linked_at(g, w, h, p, k));
            } else {
                assert(linked_at(g, w, h, p, k + hi - lo));
            }
        }
        lemma_walk_to_path(g, w, h, r, a, b)
    }
}

/// The first position of `p` after the start, among the first `n`, whose cell
/// lies on `q`.
proof fn lemma_first_meeting(p: Seq<Cell>, q: Seq<Cell>, n: int) -> (j: int)
    requires
        2 <= n <= p.len(),
        q.contains(p[n - 1]),
    ensures
        1 <= j < n,
        q.contains(p[j]),
        forall|i: int| 1 <= i < j ==> !q.contains(#[trigger] p[i]),
    decreases n,
{
    if n > 2 && exists|i: int| 1 <= i < n - 1 && q.contains(#[trigger] p[i]) {
        let i = choose|i: int| 1 <= i < n - 1 && q.contains(#[trigger] p[i]);
        lemma_first_meeting(p, q, i + 1)
    } else {
        n - 1
    }
}

/// Two paths from `a` that part at their first step cannot both lead to `b`
/// in a grid without cycles.
proof fn lemma_no_fork(g: Seq<Seq<u8>>, w: int, h: int, p: Seq<Cell>, q: Seq<Cell>, a: Cell, b: Cell)
    requires
        symmetric(g, w, h),
        acyclic(g, w, h),
        is_path(g, w, h, p, a, b),
        is_path(g, w, h, q, a, b),
        p.len() >= 2,
        q.len() >= 2,
    ensures
        p[1] == q[1],
{
    if p[1] != q[1] {
        assert(q[q.len() - 1] == b);
        assert(q.contains(p[p.len() - 1]));
        let j = lemma_first_meeting(p, q, p.len() as int);
        let k = choose|k: int| 0 <= k < q.len() && q[k] == p[j];
        assert(k >= 1);
        let n = j + k;
        let c = Seq::new(
            n as nat,
            |i: int|
                if i <= j {
                    p[i]
                } else {
                    q[n - i]
                },
        );
        lemma_walk_inside(g, w, h, p);
        lemma_walk_inside(g, w, h, q);
        assert forall|i: int| 0 <= i < c.len() - 1 implies #[trigger] linked_at(g, w, h, c, i) by {
            if i < j {
                assert(linked_at(g, w, h, p, i));
            } else {
                assert(linked_at(g, w, h, q, n - i - 1));
                lemma_linked_back(g, w, h, q[n - i - 1], q[n - i]);
            }
        }
        assert(linked_at(g, w, h, q, 0));
        lemma_linked_back(g, w, h, q[0], q[1]);
        assert(c[c.len() - 1] == q[1]);
        assert(linked(g, w, h, c[c.len() - 1], c[0]));
        assert forall|i1: int, i2: int| 0 <= i1 < c.len() && 0 <= i2 < c.len() && i1 != i2 implies c[i1]
            != c[i2] by {
            if i1 <= j && i2 > j {
                if 1 <= i1 < j {
                    assert(!q.contains(p[i1]));
                }
            } else if i2 <= j && i1 > j {
                if 1 <= i2 < j {
                    assert(!q.contains(p[i2]));
                }
            }
        }
        assert(is_cycle(g, w, h, c));
    }
}

/// In a symmetric grid without cycles two paths between the same cells are
/// the same path.
pub proof fn lemma_path_is_unique(
    g: Seq<Seq<u8>>,
    w: int,
    h: int,
    p: Seq<Cell>,
    q: Seq<Cell>,
    a: Cell,
    b: Cell,
)
    requires
        symmetric(g, w, h),
        acyclic(g, w, h),
        is_path(g, w, h, p, a, b),
        is_path(g, w, h, q, a, b),
    ensures
        p == q,
    decreases p.len(),
{
    if p.len() == 1 || q.len() == 1 {
        assert(p =~= q);
    } else {
        lemma_no_fork(g, w, h, p, q, a, b);
        let p_rest = p.subrange(1, p.len() as int);
        let q_rest = q.subrange(1, q.len() as int);
        lemma_walk_inside(g, w, h, p);
        assert forall|i: int| 0 <= i < p_rest.len() - 1 implies #[trigger] linked_at(g, w, h, p_rest, i) by {
            assert(linked_at(g, w, h, p, i + 1));
        }
        assert forall|i: int| 0 <= i < q_rest.len() - 1 implies #[trigger] linked_at(g, w, h, q_rest, i) by {
            assert(linked_at(g, w, h, q, i + 1));
        }
        lemma_path_is_unique(g, w, h, p_rest, q_rest, p[1], b);
        assert(p =~= seq![a] + p_rest);
        assert(q =~= seq![a] + q_rest);
    }
}

/// In a perfect maze exactly one path leads from any cell to any other.
pub proof fn lemma_perfect_maze_paths(g: Seq<Seq<u8>>, w: int, h: int)
    requires
        is_perfect_maze(g, w, h),
    ensures
        uniquely_connected(g, w, h),
{
    assert forall|a: Cell, b: Cell| inside(w, h, a) && inside(w, h, b) implies #[trigger] one_path(
        g,
        w,
        h,
        a,
        b,
    ) by {
        assert(reaches(g, w, h, a, b));
        let walk = choose|walk: Seq<Cell>| #[trigger] walks(g, w, h, walk, a, b);
        let p = lemma_walk_to_path(g, w, h, walk, a, b);
        assert forall|q: Seq<Cell>| #[trigger] is_path(g, w, h, q, a, b) implies q == p by {
            lemma_path_is_unique(g, w, h, q, p, a, b);
        }
        assert(is_only_path(g, w, h, p, a, b));
    }
}

} // verus!
