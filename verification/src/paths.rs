use vstd::prelude::*;

use crate::content::Content;
use crate::model::GridView;

verus! {

/// A position: a `(column, row)` pair.
pub type Pos = (int, int);

/// In bounds and not a wall: a cell a path may stand on.
pub open spec fn open_cell(v: GridView, p: Pos) -> bool {
    v.in_bounds(p.0, p.1) && v.at(p.0, p.1) != Content::Wall
}

/// One orthogonal unit step.
pub open spec fn adjacent(a: Pos, b: Pos) -> bool {
    ||| (a.0 == b.0 && (a.1 == b.1 + 1 || b.1 == a.1 + 1))
    ||| (a.1 == b.1 && (a.0 == b.0 + 1 || b.0 == a.0 + 1))
}

/// A walk over open cells taking orthogonal unit steps.
pub open spec fn is_path(v: GridView, p: Seq<Pos>) -> bool {
    &&& 1 <= p.len()
    &&& forall|i: int| 0 <= i < p.len() ==> open_cell(v, #[trigger] p[i])
    &&& forall|i: int| 0 <= i < p.len() - 1 ==> adjacent(#[trigger] p[i], p[i + 1])
}

/// A walk from `a` to `b`.
pub open spec fn connects(v: GridView, p: Seq<Pos>, a: Pos, b: Pos) -> bool {
    &&& is_path(v, p)
    &&& p[0] == a
    &&& p[p.len() - 1] == b
}

/// Some walk joins `a` to `b`.
pub open spec fn reaches(v: GridView, a: Pos, b: Pos) -> bool {
    exists|p: Seq<Pos>| connects(v, p, a, b)
}

/// `k` is the exact least number of steps of any walk from `a` to `b`.
pub open spec fn shortest_len(v: GridView, a: Pos, b: Pos, k: int) -> bool {
    &&& exists|p: Seq<Pos>| connects(v, p, a, b) && p.len() == k + 1
    &&& forall|p: Seq<Pos>| connects(v, p, a, b) ==> k + 1 <= p.len()
}

pub open spec fn abs_diff(x: int, y: int) -> int {
    if x < y {
        y - x
    } else {
        x - y
    }
}

/// The Manhattan distance, the exact shortest length on a grid with no
/// walls and a lower bound on any walk in general.
pub open spec fn manhattan(a: Pos, b: Pos) -> int {
    abs_diff(a.0, b.0) + abs_diff(a.1, b.1)
}

/// No cell of the grid is a wall.
pub open spec fn no_walls(v: GridView) -> bool {
    forall|x: int, y: int| v.in_bounds(x, y) ==> #[trigger] v.at(x, y) != Content::Wall
}

/// The two grids agree on bounds and on where the walls are; walks and
/// shortest lengths only depend on that.
pub open spec fn same_walls(v1: GridView, v2: GridView) -> bool {
    &&& v1.rows == v2.rows
    &&& v1.cols == v2.cols
    &&& forall|x: int, y: int| #![trigger v1.at(x, y)] #![trigger v2.at(x, y)]
        v1.in_bounds(x, y) ==> ((v1.at(x, y) == Content::Wall) <==> (v2.at(x, y)
            == Content::Wall))
}

/// A contiguous piece of a walk is a walk between its own endpoints.
pub proof fn lemma_subpath(v: GridView, p: Seq<Pos>, i: int, j: int)
    requires
        is_path(v, p),
        0 <= i <= j < p.len(),
    ensures
        connects(v, p.subrange(i, j + 1), p[i], p[j]),
        p.subrange(i, j + 1).len() == j - i + 1,
{
    let q = p.subrange(i, j + 1);
    assert forall|k: int| 0 <= k < q.len() implies open_cell(v, #[trigger] q[k]) by {
        assert(q[k] == p[i + k]);
    }
    assert forall|k: int| 0 <= k < q.len() - 1 implies adjacent(#[trigger] q[k], q[k + 1]) by {
        assert(q[k] == p[i + k] && q[k + 1] == p[i + k + 1]);
    }
}

/// A walk extended by one open adjacent cell is a walk to that cell.
pub proof fn lemma_path_push(v: GridView, p: Seq<Pos>, a: Pos, u: Pos, w: Pos)
    requires
        connects(v, p, a, u),
        adjacent(u, w),
        open_cell(v, w),
    ensures
        connects(v, p.push(w), a, w),
        p.push(w).len() == p.len() + 1,
{
    let q = p.push(w);
    assert forall|k: int| 0 <= k < q.len() implies open_cell(v, #[trigger] q[k]) by {
        if k < p.len() {
            assert(q[k] == p[k]);
        }
    }
    assert forall|k: int| 0 <= k < q.len() - 1 implies adjacent(#[trigger] q[k], q[k + 1]) by {
        if k < p.len() - 1 {
            assert(q[k] == p[k] && q[k + 1] == p[k + 1]);
        } else {
            assert(q[k] == p[p.len() - 1] && q[k + 1] == w);
        }
    }
}


/// A walk extended backward by one open adjacent cell.
pub proof fn lemma_path_cons(v: GridView, p: Seq<Pos>, a: Pos, b: Pos, w: Pos)
    requires
        connects(v, p, a, b),
        adjacent(w, a),
        open_cell(v, w),
    ensures
        connects(v, seq![w] + p, w, b),
        (seq![w] + p).len() == p.len() + 1,
{
    let q = seq![w] + p;
    assert forall|k: int| 0 <= k < q.len() implies open_cell(v, #[trigger] q[k]) by {
        if k >= 1 {
            assert(q[k] == p[k - 1]);
        }
    }
    assert forall|k: int| 0 <= k < q.len() - 1 implies adjacent(#[trigger] q[k], q[k + 1]) by {
        if k == 0 {
            assert(q[0] == w && q[1] == p[0]);
        } else {
            assert(q[k] == p[k - 1] && q[k + 1] == p[k]);
        }
    }
    assert(q[q.len() - 1] == p[p.len() - 1]);
}

/// Two walks sharing a middle point compose into one walk.
pub proof fn lemma_path_concat(v: GridView, p1: Seq<Pos>, p2: Seq<Pos>, a: Pos, m: Pos, b: Pos)
    requires
        connects(v, p1, a, m),
        connects(v, p2, m, b),
    ensures
        connects(v, p1 + p2.subrange(1, p2.len() as int), a, b),
        (p1 + p2.subrange(1, p2.len() as int)).len() == p1.len() + p2.len() - 1,
{
    let q = p1 + p2.subrange(1, p2.len() as int);
    assert forall|k: int| 0 <= k < q.len() implies open_cell(v, #[trigger] q[k]) by {
        if k < p1.len() {
            assert(q[k] == p1[k]);
        } else {
            assert(q[k] == p2[k - p1.len() + 1]);
        }
    }
    assert forall|k: int| 0 <= k < q.len() - 1 implies adjacent(#[trigger] q[k], q[k + 1]) by {
        if k < p1.len() - 1 {
            assert(q[k] == p1[k] && q[k + 1] == p1[k + 1]);
        } else if k == p1.len() - 1 {
            assert(q[k] == p1[k]);
            if p2.len() > 1 {
                assert(q[k + 1] == p2[1]);
                assert(adjacent(p2[0], p2[1]));
            }
        } else {
            assert(q[k] == p2[k - p1.len() + 1] && q[k + 1] == p2[k - p1.len() + 2]);
        }
    }
    if p2.len() == 1 {
        assert(q =~= p1);
    } else {
        assert(q[q.len() - 1] == p2[p2.len() - 1]);
    }
}

/// Whenever some walk joins `a` to `b`, a least walk length exists.
pub proof fn lemma_shortest_exists(v: GridView, a: Pos, b: Pos, p: Seq<Pos>)
    requires
        connects(v, p, a, b),
    ensures
        exists|k: int| 0 <= k && #[trigger] shortest_len(v, a, b, k),
    decreases p.len(),
{
    if forall|q: Seq<Pos>| #[trigger] connects(v, q, a, b) ==> p.len() <= q.len() {
        assert(shortest_len(v, a, b, p.len() - 1));
    } else {
        let q = choose|q: Seq<Pos>| connects(v, q, a, b) && q.len() < p.len();
        lemma_shortest_exists(v, a, b, q);
    }
}

/// The shortest length is unique.
pub proof fn lemma_shortest_unique(v: GridView, a: Pos, b: Pos, k1: int, k2: int)
    requires
        shortest_len(v, a, b, k1),
        shortest_len(v, a, b, k2),
    ensures
        k1 == k2,
{
    let p1 = choose|p: Seq<Pos>| connects(v, p, a, b) && p.len() == k1 + 1;
    let p2 = choose|p: Seq<Pos>| connects(v, p, a, b) && p.len() == k2 + 1;
    assert(k1 + 1 <= p2.len() && k2 + 1 <= p1.len());
}

/// No walk beats the Manhattan distance.
pub proof fn lemma_manhattan_lower_bound(v: GridView, p: Seq<Pos>, a: Pos, b: Pos)
    requires
        connects(v, p, a, b),
    ensures
        manhattan(a, b) <= p.len() - 1,
    decreases p.len(),
{
    if p.len() == 1 {
    } else {
        lemma_subpath(v, p, 1, p.len() - 1);
        lemma_manhattan_lower_bound(v, p.subrange(1, p.len() as int), p[1], b);
        assert(adjacent(p[0], p[1]));
    }
}

/// On a grid with no walls, a straight staircase walk of exactly the
/// Manhattan distance exists between any two cells.
pub proof fn lemma_open_grid_path(v: GridView, a: Pos, b: Pos)
    requires
        v.dims_ok(),
        no_walls(v),
        v.in_bounds(a.0, a.1),
        v.in_bounds(b.0, b.1),
    ensures
        exists|p: Seq<Pos>| connects(v, p, a, b) && p.len() == manhattan(a, b) + 1,
    decreases manhattan(a, b),
{
    if a == b {
        let p = seq![a];
        assert(connects(v, p, a, b) && p.len() == manhattan(a, b) + 1);
    } else {
        let a2: Pos = if a.0 < b.0 {
            (a.0 + 1, a.1)
        } else if a.0 > b.0 {
            (a.0 - 1, a.1)
        } else if a.1 < b.1 {
            (a.0, a.1 + 1)
        } else {
            (a.0, a.1 - 1)
        };
        lemma_open_grid_path(v, a2, b);
        let p2 = choose|p: Seq<Pos>| connects(v, p, a2, b) && p.len() == manhattan(a2, b) + 1;
        let p = seq![a] + p2;
        assert forall|k: int| 0 <= k < p.len() implies open_cell(v, #[trigger] p[k]) by {
            if k >= 1 {
                assert(p[k] == p2[k - 1]);
            }
        }
        assert forall|k: int| 0 <= k < p.len() - 1 implies adjacent(#[trigger] p[k], p[k + 1]) by {
            if k == 0 {
                assert(p[0] == a && p[1] == p2[0]);
            } else {
                assert(p[k] == p2[k - 1] && p[k + 1] == p2[k]);
            }
        }
        assert(p[p.len() - 1] == p2[p2.len() - 1]);
        assert(connects(v, p, a, b) && p.len() == manhattan(a, b) + 1);
    }
}

/// On a grid with no walls the shortest walk length is exactly the
/// Manhattan distance.
pub proof fn lemma_open_grid_shortest(v: GridView, a: Pos, b: Pos)
    requires
        v.dims_ok(),
        no_walls(v),
        v.in_bounds(a.0, a.1),
        v.in_bounds(b.0, b.1),
    ensures
        shortest_len(v, a, b, manhattan(a, b)),
{
    lemma_open_grid_path(v, a, b);
    assert forall|p: Seq<Pos>| connects(v, p, a, b) implies manhattan(a, b) + 1 <= p.len() by {
        lemma_manhattan_lower_bound(v, p, a, b);
    }
}

/// Walks transfer between grids with the same walls.
pub proof fn lemma_same_walls_path(v1: GridView, v2: GridView, p: Seq<Pos>)
    requires
        same_walls(v1, v2),
        is_path(v1, p),
    ensures
        is_path(v2, p),
{
    assert forall|i: int| 0 <= i < p.len() implies open_cell(v2, #[trigger] p[i]) by {
        assert(open_cell(v1, p[i]));
        assert(v1.at(p[i].0, p[i].1) != Content::Wall);
    }
}

/// The shortest walk length only depends on the bounds and the walls.
pub proof fn lemma_same_walls_shortest(v1: GridView, v2: GridView, a: Pos, b: Pos, k: int)
    requires
        same_walls(v1, v2),
        shortest_len(v1, a, b, k),
    ensures
        shortest_len(v2, a, b, k),
{
    let p = choose|p: Seq<Pos>| connects(v1, p, a, b) && p.len() == k + 1;
    lemma_same_walls_path(v1, v2, p);
    assert(connects(v2, p, a, b) && p.len() == k + 1);
    assert forall|q: Seq<Pos>| connects(v2, q, a, b) implies k + 1 <= q.len() by {
        lemma_same_walls_path(v2, v1, q);
        assert(connects(v1, q, a, b));
    }
}

/// On a minimal walk every prefix is minimal for its own endpoint.
pub proof fn lemma_prefix_minimal(v: GridView, p: Seq<Pos>, a: Pos, z: Pos, i: int)
    requires
        connects(v, p, a, z),
        forall|q: Seq<Pos>| connects(v, q, a, z) ==> p.len() <= q.len(),
        0 <= i < p.len(),
    ensures
        shortest_len(v, a, p[i], i),
{
    lemma_subpath(v, p, 0, i);
    lemma_subpath(v, p, i, p.len() - 1);
    assert forall|q: Seq<Pos>| connects(v, q, a, p[i]) implies i + 1 <= q.len() by {
        lemma_path_concat(v, q, p.subrange(i, p.len() as int), a, p[i], z);
    }
    assert(connects(v, p.subrange(0, i + 1), a, p[i]) && p.subrange(0, i + 1).len() == i + 1);
}

/// Within one grid the Manhattan distance of two cells stays strictly below
/// the cell count, so it always fits a machine word.
pub proof fn lemma_manhattan_fits(v: GridView, a: Pos, b: Pos)
    requires
        v.dims_ok(),
        v.in_bounds(a.0, a.1),
        v.in_bounds(b.0, b.1),
    ensures
        0 <= manhattan(a, b) < v.rows * v.cols,
        manhattan(a, b) <= usize::MAX,
{
    assert((v.rows - 1) + (v.cols - 1) < v.rows * v.cols) by (nonlinear_arith)
        requires 1 <= v.rows && 1 <= v.cols;
}

/// A set of cells that contains `a`, is closed under stepping to open
/// adjacent cells, and misses `b` blocks every walk from `a` to `b`.
pub proof fn lemma_no_escape(v: GridView, d: Set<Pos>, p: Seq<Pos>, a: Pos, b: Pos)
    requires
        connects(v, p, a, b),
        d.contains(a),
        forall|u: Pos, r: Pos| #![trigger d.contains(u), adjacent(u, r)]
            d.contains(u) && open_cell(v, r) && adjacent(u, r) ==> d.contains(r),
    ensures
        d.contains(b),
    decreases p.len(),
{
    if p.len() == 1 {
    } else {
        assert(adjacent(p[0], p[1]) && open_cell(v, p[1]));
        assert(d.contains(p[1]));
        lemma_subpath(v, p, 1, p.len() - 1);
        lemma_no_escape(v, d, p.subrange(1, p.len() as int), p[1], b);
    }
}

} // verus!
