use vstd::prelude::*;

use crate::content::{Content, Direction};
use crate::grid::Grid;
use crate::model::{GridView, lemma_idx_bounds, lemma_put_at, upos,
    lemma_flat_unflat, lemma_unflat_flat, lemma_put_nontracked_wf};
use crate::paths::{Pos, open_cell, adjacent, connects, reaches, shortest_len,
    lemma_subpath, lemma_path_push, lemma_path_cons, lemma_shortest_exists, lemma_no_escape,
    lemma_manhattan_fits, lemma_prefix_minimal};
use crate::heuristic::{Heuristic, lemma_h_basic, lemma_h_telescope};

verus! {

broadcast use lemma_idx_bounds, lemma_put_at;

/// The outcome of a successful search: how many cells the search finalized
/// and how many edges the found path has.
pub struct PathResult {
    pub explored: usize,
    pub length: usize,
}

impl PathResult {
    pub fn get_path_length(&self) -> (r: usize)
        ensures
            r == self.length,
    {
        self.length
    }

    pub fn get_n_explored(&self) -> (r: usize)
        ensures
            r == self.explored,
    {
        self.explored
    }
}

/// A `(column, row)` pair of machine integers as a mathematical position.
pub open spec fn pos_int(p: (usize, usize)) -> Pos {
    (p.0 as int, p.1 as int)
}

/// The grid after `clear_path`: every transient search marker becomes
/// empty; everything else is untouched.
pub open spec fn clear_path_model(v: GridView) -> GridView {
    GridView {
        cells: Seq::new(
            v.cells.len(),
            |i: int|
                if v.cells[i].is_marker() {
                    Content::Empty
                } else {
                    v.cells[i]
                },
        ),
        ..v
    }
}

/// Clearing markers touches neither walls nor the tracked contents, so
/// well-formedness survives.
pub proof fn lemma_clear_path_wf(v: GridView)
    requires
        v.wf(),
    ensures
        clear_path_model(v).wf(),
{
    let w = clear_path_model(v);
    assert forall|x2: int, y2: int|
        w.in_bounds(x2, y2) && #[trigger] w.at(x2, y2) == Content::Car
        implies v.car == Some((x2, y2)) by {
        lemma_idx_bounds(v, x2, y2);
        assert(v.at(x2, y2) == Content::Car);
    }
    assert forall|x2: int, y2: int|
        w.in_bounds(x2, y2) && #[trigger] w.at(x2, y2) == Content::Goal
        implies v.goal == Some((x2, y2)) by {
        lemma_idx_bounds(v, x2, y2);
        assert(v.at(x2, y2) == Content::Goal);
    }
    match v.car {
        Some(p) => {
            lemma_idx_bounds(v, p.0, p.1);
            assert(w.at(p.0, p.1) == Content::Car);
        },
        None => {},
    }
    match v.goal {
        Some(p) => {
            lemma_idx_bounds(v, p.0, p.1);
            assert(w.at(p.0, p.1) == Content::Goal);
        },
        None => {},
    }
}


impl Grid {
    /// Reset every `Explored` or `Trace` cell to `Empty`, leaving walls,
    /// the car and the goal untouched.
    pub fn clear_path(&mut self)
        requires
            old(self)@.wf(),
        ensures
            final(self)@ == clear_path_model(old(self)@),
            final(self)@.wf(),
    {
        proof {
            lemma_clear_path_wf(old(self)@);
        }
        let end = self.cell_count();
        let mut i: usize = 0;
        while i < end
            invariant
                old(self)@.wf(),
                end == old(self)@.cells.len(),
                self@.rows == old(self)@.rows,
                self@.cols == old(self)@.cols,
                self@.car == old(self)@.car,
                self@.goal == old(self)@.goal,
                self@.cells.len() == old(self)@.cells.len(),
                i <= end,
                forall|j: int|
                    0 <= j < i ==> self@.cells[j] == (if old(self)@.cells[j].is_marker() {
                        Content::Empty
                    } else {
                        old(self)@.cells[j]
                    }),
                forall|j: int| i <= j < end ==> self@.cells[j] == old(self)@.cells[j],
            decreases end - i,
        {
            let c = self.cell_at_idx(i);
            match c {
                Content::Trace(_) => {
                    self.set_cell_idx(i, Content::Empty);
                },
                Content::Explored => {
                    self.set_cell_idx(i, Content::Empty);
                },
                _ => {},
            }
            i = i + 1;
        }
        proof {
            assert(self@.cells =~= clear_path_model(old(self)@).cells);
        }
    }

    /// The orthogonally adjacent, in-bounds, non-wall positions of `pos`,
    /// in the fixed order right, left, down, up.
    pub fn get_neighbours(&self, pos: (usize, usize)) -> (neighs: Vec<(usize, usize)>)
        requires
            self@.dims_ok(),
            self@.in_bounds(pos.0 as int, pos.1 as int),
        ensures
            forall|k: int|
                0 <= k < neighs@.len() ==> open_cell(self@, pos_int(#[trigger] neighs@[k]))
                    && adjacent(pos_int(pos), pos_int(neighs@[k])),
            forall|q: Pos|
                open_cell(self@, q) && adjacent(pos_int(pos), q)
                    ==> #[trigger] neighs@.contains(((q.0 as usize), (q.1 as usize))),
            forall|k1: int, k2: int|
                0 <= k1 < k2 < neighs@.len() ==> #[trigger] neighs@[k1] != #[trigger] neighs@[k2],
            neighs@.len() <= 4,
    {
        broadcast use vstd::seq_lib::lemma_seq_contains_after_push;

        let m = self.m();
        let n = self.n();
        let mut neighs: Vec<(usize, usize)> = Vec::new();
        if pos.0 + 1 < n {
            if !self.is_wall(pos.0 + 1, pos.1) {
                neighs.push((pos.0 + 1, pos.1));
            }
        }
        if pos.0 != 0 {
            if !self.is_wall(pos.0 - 1, pos.1) {
                neighs.push((pos.0 - 1, pos.1));
            }
        }
        if pos.1 + 1 < m {
            if !self.is_wall(pos.0, pos.1 + 1) {
                neighs.push((pos.0, pos.1 + 1));
            }
        }
        if pos.1 != 0 {
            if !self.is_wall(pos.0, pos.1 - 1) {
                neighs.push((pos.0, pos.1 - 1));
            }
        }
        proof {
            assert forall|q: Pos|
                open_cell(self@, q) && adjacent(pos_int(pos), q)
                implies #[trigger] neighs@.contains(((q.0 as usize), (q.1 as usize))) by {
                let px = pos.0 as int;
                let py = pos.1 as int;
                if q == ((px + 1) as int, py) {
                    assert(neighs@.contains((((px + 1) as usize), pos.1)));
                } else if q == ((px - 1) as int, py) {
                    assert(neighs@.contains((((px - 1) as usize), pos.1)));
                } else if q == (px, (py + 1) as int) {
                    assert(neighs@.contains((pos.0, ((py + 1) as usize))));
                } else {
                    assert(q == (px, (py - 1) as int));
                    assert(neighs@.contains((pos.0, ((py - 1) as usize))));
                }
            }
        }
        neighs
    }

    /// Whether the cell at `(x, y)` is a wall.
    fn is_wall(&self, x: usize, y: usize) -> (r: bool)
        requires
            self@.dims_ok(),
            self@.in_bounds(x as int, y as int),
        ensures
            r == (self@.at(x as int, y as int) == Content::Wall),
    {
        match self.content(x, y) {
            Content::Wall => true,
            _ => false,
        }
    }
}

/// Per-position bookkeeping during one search, created lazily: an unset
/// `dist` stands for an undiscovered position (conceptually infinite cost).
#[derive(Clone, Copy)]
struct AStarNode {
    predecessor: Option<(usize, usize)>,
    dist: Option<usize>,
    depth: usize,
    expanded: bool,
}

/// One frontier element. The queue may hold stale copies pushed before a
/// later relaxation; the node table stays authoritative.
#[derive(Clone, Copy)]
struct QueueEntry {
    pos: (usize, usize),
    dist: usize,
    guessed: u128,
    depth: usize,
}

pub open spec fn dset(o: Option<usize>) -> bool {
    o is Some
}

pub open spec fn dval(o: Option<usize>) -> int {
    match o {
        Some(d) => d as int,
        None => -1,
    }
}

/// The row-major offsets of the non-wall cells reachable from `c`.
pub open spec fn reachable_idx_set(g: GridView, c: Pos) -> Set<int> {
    Set::new(|i: int| 0 <= i < g.rows * g.cols && reaches(g, c, upos(g, i)))
}

/// How many non-wall cells are reachable from `c`, `c` itself included.
pub open spec fn reachable_count(g: GridView, c: Pos) -> nat {
    reachable_idx_set(g, c).len()
}

pub proof fn lemma_reachable_finite(g: GridView, c: Pos)
    requires
        g.dims_ok(),
    ensures
        reachable_idx_set(g, c).finite(),
        reachable_idx_set(g, c).len() <= g.rows * g.cols,
{
    let rng = vstd::set_lib::set_int_range(0, g.rows * g.cols);
    vstd::set_lib::lemma_int_range(0, g.rows * g.cols);
    assert(reachable_idx_set(g, c).subset_of(rng));
    vstd::set_lib::lemma_len_subset(reachable_idx_set(g, c), rng);
}

/// What the search may do to the grid: walls, the car cell and the goal
/// cell stay; a cell that held nothing but transient content may pick up a
/// marker.
pub open spec fn marks_envelope(g: GridView, v: GridView) -> bool {
    &&& v.rows == g.rows
    &&& v.cols == g.cols
    &&& v.car == g.car
    &&& v.goal == g.goal
    &&& v.cells.len() == g.cells.len()
    &&& forall|x: int, y: int|
        g.in_bounds(x, y) ==> (#[trigger] v.at(x, y) == g.at(x, y) || ((g.at(x, y)
            == Content::Empty || g.at(x, y).is_marker()) && v.at(x, y).is_marker()))
}

/// Like `marks_envelope`, but only `Explored` marks were added; this is all
/// a failed search leaves behind.
pub open spec fn explored_envelope(g: GridView, v: GridView) -> bool {
    &&& v.rows == g.rows
    &&& v.cols == g.cols
    &&& v.car == g.car
    &&& v.goal == g.goal
    &&& v.cells.len() == g.cells.len()
    &&& forall|x: int, y: int|
        g.in_bounds(x, y) ==> (#[trigger] v.at(x, y) == g.at(x, y) || ((g.at(x, y)
            == Content::Empty || g.at(x, y).is_marker()) && v.at(x, y) == Content::Explored))
}

/// Grids related by the envelope have the same walls.
pub proof fn lemma_envelope_same_walls(g: GridView, v: GridView)
    requires
        marks_envelope(g, v),
    ensures
        crate::paths::same_walls(g, v),
{
    assert forall|x: int, y: int| #![trigger g.at(x, y)] #![trigger v.at(x, y)]
        g.in_bounds(x, y) implies ((g.at(x, y) == Content::Wall) <==> (v.at(x, y)
        == Content::Wall)) by {
        assert(v.at(x, y) == g.at(x, y) || ((g.at(x, y) == Content::Empty || g.at(x,
            y).is_marker()) && v.at(x, y).is_marker()));
    }
}

/// The basic integrity of the node table: one node per cell, the start
/// settled at distance zero, every discovered node open, and every
/// discovered node but the start linked to a strictly closer predecessor.
#[verifier::opaque]
spec fn inv_nodes(g: GridView, nodes: Seq<AStarNode>, cp: Pos) -> bool {
    &&& g.wf()
    &&& open_cell(g, cp)
    &&& nodes.len() == g.rows * g.cols
    &&& dset(nodes[g.idx(cp.0, cp.1)].dist)
    &&& dval(nodes[g.idx(cp.0, cp.1)].dist) == 0
    &&& forall|i: int|
        0 <= i < nodes.len() && dset(#[trigger] nodes[i].dist) ==> open_cell(g, upos(g, i))
    &&& forall|i: int|
        0 <= i < nodes.len() && dset(#[trigger] nodes[i].dist) && i != g.idx(cp.0, cp.1)
            ==> match nodes[i].predecessor {
            Some(q) => {
                &&& open_cell(g, pos_int(q))
                &&& adjacent(pos_int(q), upos(g, i))
                &&& dset(nodes[g.idx(q.0 as int, q.1 as int)].dist)
                &&& dval(nodes[g.idx(q.0 as int, q.1 as int)].dist) < dval(nodes[i].dist)
            },
            None => false,
        }
    &&& forall|i: int|
        0 <= i < nodes.len() && dset(#[trigger] nodes[i].dist) ==> nodes[i].depth <= dval(
            nodes[i].dist)
}

/// Every discovered node is backed by an actual walk from the start no
/// longer than its tentative distance.
#[verifier::opaque]
spec fn inv_sound(g: GridView, nodes: Seq<AStarNode>, cp: Pos) -> bool {
    forall|i: int|
        0 <= i < nodes.len() && dset(#[trigger] nodes[i].dist) ==> exists|p: Seq<Pos>|
            connects(g, p, cp, upos(g, i)) && p.len() <= dval(nodes[i].dist) + 1
}

/// Tentative distances never exceed the number of finalized cells.
#[verifier::opaque]
spec fn inv_dist_bound(nodes: Seq<AStarNode>, exp: Set<int>) -> bool {
    forall|i: int|
        0 <= i < nodes.len() && dset(#[trigger] nodes[i].dist) ==> dval(nodes[i].dist)
            <= exp.len()
}

/// The finalized set: flags agree with it, the goal is never in it, every
/// finalized cell carries its exact shortest distance, and every neighbor
/// of a finalized cell has been relaxed.
#[verifier::opaque]
spec fn inv_expanded(g: GridView, nodes: Seq<AStarNode>, exp: Set<int>, cp: Pos, gp: Pos) -> bool {
    &&& exp.finite()
    &&& exp.subset_of(reachable_idx_set(g, cp))
    &&& !exp.contains(g.idx(gp.0, gp.1))
    &&& forall|i: int|
        0 <= i < nodes.len() ==> ((#[trigger] nodes[i].expanded) <==> exp.contains(i))
    &&& forall|i: int|
        #[trigger] exp.contains(i) ==> 0 <= i < nodes.len() && dset(nodes[i].dist)
            && shortest_len(g, cp, upos(g, i), dval(nodes[i].dist))
    &&& forall|i: int, q: Pos| #![trigger exp.contains(i), adjacent(upos(g, i), q)]
        exp.contains(i) && open_cell(g, q) && adjacent(upos(g, i), q) ==> dset(
            nodes[g.idx(q.0, q.1)].dist) && dval(nodes[g.idx(q.0, q.1)].dist) <= dval(
            nodes[i].dist) + 1
}

/// Every queue entry points at a discovered cell, never undercuts the
/// table, and carries the estimate belonging to its stored distance.
#[verifier::opaque]
spec fn inv_queue(
    g: GridView,
    nodes: Seq<AStarNode>,
    queue: Seq<QueueEntry>,
    h: Heuristic,
    gp: Pos,
) -> bool {
    forall|j: int|
        0 <= j < queue.len() ==> {
            let e = #[trigger] queue[j];
            &&& open_cell(g, pos_int(e.pos))
            &&& dset(nodes[g.idx(e.pos.0 as int, e.pos.1 as int)].dist)
            &&& dval(nodes[g.idx(e.pos.0 as int, e.pos.1 as int)].dist) <= e.dist
            &&& e.guessed as int == e.dist + h.h_spec(pos_int(e.pos), gp)
        }
}

/// Every discovered cell not yet finalized still has a queue entry with
/// its current tentative distance.
#[verifier::opaque]
spec fn inv_entry_exists(
    g: GridView,
    nodes: Seq<AStarNode>,
    queue: Seq<QueueEntry>,
    exp: Set<int>,
) -> bool {
    forall|i: int|
        0 <= i < nodes.len() && dset(#[trigger] nodes[i].dist) && !exp.contains(i) ==> exists|
            j: int,
        |
            0 <= j < queue.len() && pos_int((#[trigger] queue[j]).pos) == upos(g, i)
                && queue[j].dist == dval(nodes[i].dist)
}

/// A second, weaker guise of the finalized-set invariant for reuse in
/// `lemma_frontier_from`: identical except that no goal cell is singled
/// out.
#[verifier::opaque]
spec fn inv_expanded_weak(g: GridView, nodes: Seq<AStarNode>, exp: Set<int>, cp: Pos) -> bool {
    &&& exp.finite()
    &&& forall|i: int|
        0 <= i < nodes.len() ==> ((#[trigger] nodes[i].expanded) <==> exp.contains(i))
    &&& forall|i: int|
        #[trigger] exp.contains(i) ==> 0 <= i < nodes.len() && dset(nodes[i].dist)
            && shortest_len(g, cp, upos(g, i), dval(nodes[i].dist))
    &&& forall|i: int, q: Pos| #![trigger exp.contains(i), adjacent(upos(g, i), q)]
        exp.contains(i) && open_cell(g, q) && adjacent(upos(g, i), q) ==> dset(
            nodes[g.idx(q.0, q.1)].dist) && dval(nodes[g.idx(q.0, q.1)].dist) <= dval(
            nodes[i].dist) + 1
}

/// Walking a minimal walk from the start: as long as its cells are
/// finalized they carry the walk's own offsets as distances, so the first
/// unfinalized cell on it is discovered at its exact shortest distance.
proof fn lemma_frontier_from(
    g: GridView,
    nodes: Seq<AStarNode>,
    exp: Set<int>,
    cp: Pos,
    p: Seq<Pos>,
    z: Pos,
    j: int,
)
    requires
        inv_nodes(g, nodes, cp),
        inv_sound(g, nodes, cp),
        inv_expanded_weak(g, nodes, exp, cp),
        connects(g, p, cp, z),
        forall|q: Seq<Pos>| connects(g, q, cp, z) ==> p.len() <= q.len(),
        !exp.contains(g.idx(z.0, z.1)),
        0 <= j < p.len(),
        dset(nodes[g.idx(p[j].0, p[j].1)].dist),
        dval(nodes[g.idx(p[j].0, p[j].1)].dist) == j,
    ensures
        exists|i: int|
            0 <= i < p.len() && !exp.contains(g.idx((#[trigger] p[i]).0, p[i].1)) && dset(
                nodes[g.idx(p[i].0, p[i].1)].dist) && dval(nodes[g.idx(p[i].0, p[i].1)].dist)
                == i,
    decreases p.len() - j,
{
    reveal(inv_nodes);
    reveal(inv_sound);
    reveal(inv_expanded_weak);
    let fj = g.idx(p[j].0, p[j].1);
    assert(open_cell(g, p[j]));
    lemma_flat_unflat(g, p[j].0, p[j].1);
    if !exp.contains(fj) {
        assert(0 <= j < p.len() && !exp.contains(g.idx((p[j]).0, p[j].1)) && dset(
            nodes[g.idx(p[j].0, p[j].1)].dist) && dval(nodes[g.idx(p[j].0, p[j].1)].dist) == j);
    } else {
        if j == p.len() - 1 {
            assert(p[j] == z);
            assert(false);
        }
        assert(upos(g, fj) == p[j]);
        assert(open_cell(g, p[j + 1]));
        assert(adjacent(upos(g, fj), p[j + 1]));
        let fn1 = g.idx(p[j + 1].0, p[j + 1].1);
        lemma_flat_unflat(g, p[j + 1].0, p[j + 1].1);
        assert(dset(nodes[fn1].dist) && dval(nodes[fn1].dist) <= j + 1);
        // the lower bound: the walk backing the node cannot beat the
        // minimal prefix
        lemma_prefix_minimal(g, p, cp, z, j + 1);
        let pw = choose|pw: Seq<Pos>|
            connects(g, pw, cp, upos(g, fn1)) && pw.len() <= dval(nodes[fn1].dist) + 1;
        assert(upos(g, fn1) == p[j + 1]);
        assert(j + 2 <= pw.len());
        lemma_frontier_from(g, nodes, exp, cp, p, z, j + 1);
    }
}

/// When a minimum-estimate entry for an unfinalized cell is popped, that
/// cell's tentative distance is already its exact shortest distance: a
/// strictly better walk would keep a strictly cheaper entry in the queue.
proof fn lemma_settled(
    g: GridView,
    nodes: Seq<AStarNode>,
    exp: Set<int>,
    queue: Seq<QueueEntry>,
    h: Heuristic,
    cp: Pos,
    gp: Pos,
    e: QueueEntry,
)
    requires
        inv_nodes(g, nodes, cp),
        inv_sound(g, nodes, cp),
        inv_expanded_weak(g, nodes, exp, cp),
        inv_queue(g, nodes, queue, h, gp),
        inv_entry_exists(g, nodes, queue, exp),
        open_cell(g, pos_int(e.pos)),
        dset(nodes[g.idx(e.pos.0 as int, e.pos.1 as int)].dist),
        dval(nodes[g.idx(e.pos.0 as int, e.pos.1 as int)].dist) <= e.dist,
        e.guessed as int == e.dist + h.h_spec(pos_int(e.pos), gp),
        !exp.contains(g.idx(e.pos.0 as int, e.pos.1 as int)),
        forall|j: int| 0 <= j < queue.len() ==> e.guessed <= (#[trigger] queue[j]).guessed,
    ensures
        shortest_len(
            g,
            cp,
            pos_int(e.pos),
            dval(nodes[g.idx(e.pos.0 as int, e.pos.1 as int)].dist),
        ),
{
    reveal(inv_nodes);
    reveal(inv_sound);
    reveal(inv_expanded_weak);
    reveal(inv_queue);
    reveal(inv_entry_exists);
    let u = pos_int(e.pos);
    let fu = g.idx(u.0, u.1);
    let du = dval(nodes[fu].dist);
    lemma_flat_unflat(g, u.0, u.1);
    let pu = choose|p: Seq<Pos>| connects(g, p, cp, upos(g, fu)) && p.len() <= du + 1;
    assert(upos(g, fu) == u);
    lemma_shortest_exists(g, cp, u, pu);
    let k = choose|k: int| 0 <= k && #[trigger] shortest_len(g, cp, u, k);
    assert(k <= du);
    if du > k {
        let p = choose|p: Seq<Pos>| connects(g, p, cp, u) && p.len() == k + 1;
        assert forall|q: Seq<Pos>| connects(g, q, cp, u) implies p.len() <= q.len() by {
            assert(k + 1 <= q.len());
        }
        lemma_frontier_from(g, nodes, exp, cp, p, u, 0);
        let i = choose|i: int|
            0 <= i < p.len() && !exp.contains(g.idx((#[trigger] p[i]).0, p[i].1)) && dset(
                nodes[g.idx(p[i].0, p[i].1)].dist) && dval(nodes[g.idx(p[i].0, p[i].1)].dist)
                == i;
        let w = p[i];
        let fw = g.idx(w.0, w.1);
        assert(open_cell(g, w));
        lemma_flat_unflat(g, w.0, w.1);
        assert(upos(g, fw) == w);
        let j = choose|j: int|
            0 <= j < queue.len() && pos_int((#[trigger] queue[j]).pos) == upos(g, fw)
                && queue[j].dist == dval(nodes[fw].dist);
        lemma_subpath(g, p, i, p.len() - 1);
        lemma_h_telescope(h, g, p.subrange(i, p.len() as int), w, u, gp);
        lemma_h_basic(h, w, gp);
        lemma_h_basic(h, u, gp);
        assert(queue[j].guessed as int == i + h.h_spec(w, gp));
        assert(h.h_spec(w, gp) <= (k - i) + h.h_spec(u, gp));
        assert(e.guessed <= queue[j].guessed);
        assert(e.guessed as int >= du + h.h_spec(u, gp));
        assert(false);
    }
}

/// The index of a cheapest queue entry: least estimate, ties going to the
/// deepest node.
fn pick_min(queue: &Vec<QueueEntry>) -> (k: usize)
    requires
        1 <= queue@.len(),
    ensures
        k < queue@.len(),
        forall|j: int|
            0 <= j < queue@.len() ==> queue@[k as int].guessed <= (#[trigger] queue@[j]).guessed,
{
    let mut k: usize = 0;
    let mut j: usize = 1;
    while j < queue.len()
        invariant
            1 <= queue@.len(),
            k < j <= queue@.len(),
            forall|t: int|
                0 <= t < j ==> queue@[k as int].guessed <= (#[trigger] queue@[t]).guessed,
        decreases queue@.len() - j,
    {
        let better = if queue[j].guessed < queue[k].guessed {
            true
        } else if queue[j].guessed == queue[k].guessed && queue[j].depth > queue[k].depth {
            true
        } else {
            false
        };
        if better {
            k = j;
        }
        j = j + 1;
    }
    k
}

/// A finalized set that misses one in-range offset is strictly smaller than
/// the whole grid.
proof fn lemma_exp_small(g: GridView, exp: Set<int>, cp: Pos, i0: int)
    requires
        g.dims_ok(),
        exp.finite(),
        exp.subset_of(reachable_idx_set(g, cp)),
        0 <= i0 < g.rows * g.cols,
        !exp.contains(i0),
    ensures
        exp.len() < g.rows * g.cols,
{
    let rng = vstd::set_lib::set_int_range(0, g.rows * g.cols);
    vstd::set_lib::lemma_int_range(0, g.rows * g.cols);
    let rng2 = rng.remove(i0);
    assert(exp.subset_of(rng2));
    vstd::set_lib::lemma_len_subset(exp, rng2);
    assert(rng2.len() == rng.len() - 1);
}

/// A cell already finalized cannot be relaxed: its distance is final and a
/// neighbor of a just-finalized cell cannot undercut it.
proof fn lemma_no_relax_expanded(
    g: GridView,
    nodes: Seq<AStarNode>,
    exp: Set<int>,
    cp: Pos,
    u: Pos,
    w: Pos,
)
    requires
        g.dims_ok(),
        nodes.len() == g.rows * g.cols,
        open_cell(g, u),
        open_cell(g, w),
        adjacent(u, w),
        exp.contains(g.idx(u.0, u.1)),
        exp.contains(g.idx(w.0, w.1)),
        forall|i: int|
            #[trigger] exp.contains(i) ==> 0 <= i < nodes.len() && dset(nodes[i].dist)
                && shortest_len(g, cp, upos(g, i), dval(nodes[i].dist)),
    ensures
        dval(nodes[g.idx(w.0, w.1)].dist) <= dval(nodes[g.idx(u.0, u.1)].dist) + 1,
{
    let fu = g.idx(u.0, u.1);
    let fw = g.idx(w.0, w.1);
    lemma_flat_unflat(g, u.0, u.1);
    lemma_flat_unflat(g, w.0, w.1);
    let du = dval(nodes[fu].dist);
    let dw = dval(nodes[fw].dist);
    assert(shortest_len(g, cp, u, du));
    assert(shortest_len(g, cp, w, dw));
    let pu = choose|p: Seq<Pos>| connects(g, p, cp, u) && p.len() == du + 1;
    lemma_path_push(g, pu, cp, u, w);
    assert(connects(g, pu.push(w), cp, w) && pu.push(w).len() == du + 2);
    assert(dw + 1 <= du + 2);
}

/// A cell the search may mark: an open cell holding neither the car nor
/// the goal, in the working grid as in the original one.
proof fn lemma_trace_write_ok(g: GridView, v: GridView, cur: Pos, c: Content)
    requires
        g.wf(),
        v.wf(),
        marks_envelope(g, v),
        g.car is Some,
        cur != tracked_pos(g.car),
        g.goal is Some,
        cur != tracked_pos(g.goal),
        open_cell(g, cur),
        c.is_marker(),
    ensures
        v.put(cur.0, cur.1, c).wf(),
        marks_envelope(g, v.put(cur.0, cur.1, c)),
        g.at(cur.0, cur.1) != Content::Wall,
        g.at(cur.0, cur.1) != Content::Car,
        g.at(cur.0, cur.1) != Content::Goal,
{
    if v.at(cur.0, cur.1) == Content::Car {
        assert(v.car == Some(cur));
    }
    if v.at(cur.0, cur.1) == Content::Goal {
        assert(v.goal == Some(cur));
    }
    lemma_put_nontracked_wf(v, cur.0, cur.1, c);
    if g.at(cur.0, cur.1) == Content::Car {
        assert(g.car == Some(cur));
    }
    if g.at(cur.0, cur.1) == Content::Goal {
        assert(g.goal == Some(cur));
    }
    let w = v.put(cur.0, cur.1, c);
    assert forall|x2: int, y2: int| g.in_bounds(x2, y2) implies #[trigger] w.at(x2, y2) == (
    if x2 == cur.0 && y2 == cur.1 {
        c
    } else {
        v.at(x2, y2)
    }) by {
        lemma_put_at(v, cur.0, cur.1, c, x2, y2);
    }
}

/// The direction written into a path cell: the unit step from `from`
/// toward `to`, the cell that follows it on the way to the goal.
pub open spec fn step_dir(from: Pos, to: Pos) -> Direction {
    if to.0 == from.0 - 1 {
        Direction::Left
    } else if to.0 == from.0 + 1 {
        Direction::Right
    } else if to.1 == from.1 - 1 {
        Direction::Up
    } else {
        Direction::Down
    }
}

/// The position a tracked `Option` holds.
pub open spec fn tracked_pos(o: Option<(int, int)>) -> Pos {
    match o {
        Some(p) => p,
        None => (0, 0),
    }
}


/// Prepending a strictly closer head keeps the head-is-closest ordering of
/// the reconstruction walk.
proof fn lemma_cons_head_order(
    g: GridView,
    nodes: Seq<AStarNode>,
    osuf: Seq<Pos>,
    suffix: Seq<Pos>,
    cur: Pos,
)
    requires
        1 <= osuf.len(),
        suffix == seq![cur] + osuf,
        dval(nodes[g.idx(cur.0, cur.1)].dist) < dval(nodes[g.idx(osuf[0].0, osuf[0].1)].dist),
        forall|i: int|
            1 <= i < osuf.len() ==> dval(nodes[g.idx((osuf[0]).0, osuf[0].1)].dist) < dval(
                nodes[g.idx((#[trigger] osuf[i]).0, osuf[i].1)].dist),
    ensures
        forall|i: int|
            0 <= i < osuf.len() ==> dval(nodes[g.idx(cur.0, cur.1)].dist) < dval(
                nodes[g.idx((#[trigger] osuf[i]).0, osuf[i].1)].dist),
        forall|i: int|
            1 <= i < suffix.len() ==> dval(nodes[g.idx((suffix[0]).0, suffix[0].1)].dist) < dval(
                nodes[g.idx((#[trigger] suffix[i]).0, suffix[i].1)].dist),
{
    assert forall|i: int| 1 <= i < suffix.len() implies dval(nodes[g.idx((suffix[0]).0,
        suffix[0].1)].dist) < dval(nodes[g.idx((#[trigger] suffix[i]).0, suffix[i].1)].dist) by {
        assert(suffix[i] == osuf[i - 1]);
    }
}


/// The trace half of the reconstruction walk's footprint: every walk cell
/// from `lo` up to (but excluding) the goal carries the trace toward its
/// successor.
#[verifier::opaque]
spec fn drawn_traces(v: GridView, suffix: Seq<Pos>, lo: int) -> bool {
    forall|i: int|
        lo <= i < suffix.len() - 1 ==> v.at((#[trigger] suffix[i]).0, suffix[i].1)
            == Content::Trace(step_dir(suffix[i], suffix[i + 1]))
}

/// The remainder half: any cell that differs from the original grid is an
/// exploration mark or one of the walk cells from `lo` on.
#[verifier::opaque]
spec fn drawn_rest(g: GridView, v: GridView, suffix: Seq<Pos>, lo: int) -> bool {
    forall|x: int, y: int|
        g.in_bounds(x, y) && (#[trigger] v.at(x, y)) != g.at(x, y) ==> (v.at(x, y)
            == Content::Explored || exists|i: int|
            lo <= i < suffix.len() - 1 && suffix[i] == (x, y))
}

/// Ending the walk at the car, trace half: the car joins as the head and
/// is written nowhere, so the marked cells are exactly the interior.
#[verifier::rlimit(100)]
proof fn lemma_draw_finish_traces(v: GridView, osuf: Seq<Pos>, suffix: Seq<Pos>, cp: Pos)
    requires
        1 <= osuf.len(),
        suffix == seq![cp] + osuf,
        drawn_traces(v, osuf, 0),
    ensures
        drawn_traces(v, suffix, 1),
{
    reveal(drawn_traces);
    assert forall|i: int| 1 <= i < suffix.len() - 1 implies v.at((#[trigger] suffix[i]).0,
        suffix[i].1) == Content::Trace(step_dir(suffix[i], suffix[i + 1])) by {
        assert(suffix[i] == osuf[i - 1] && suffix[i + 1] == osuf[i]);
    }
}

/// Ending the walk at the car, remainder half.
#[verifier::rlimit(100)]
proof fn lemma_draw_finish_rest(
    g: GridView,
    v: GridView,
    osuf: Seq<Pos>,
    suffix: Seq<Pos>,
    cp: Pos,
)
    requires
        1 <= osuf.len(),
        suffix == seq![cp] + osuf,
        drawn_rest(g, v, osuf, 0),
    ensures
        drawn_rest(g, v, suffix, 1),
{
    reveal(drawn_rest);
    assert forall|x: int, y: int|
        g.in_bounds(x, y) && (#[trigger] v.at(x, y)) != g.at(x, y) implies (v.at(x, y)
        == Content::Explored || exists|i: int|
        1 <= i < suffix.len() - 1 && suffix[i] == (x, y)) by {
        if v.at(x, y) != Content::Explored {
            let i0 = choose|i: int| 0 <= i < osuf.len() - 1 && #[trigger] osuf[i] == (x, y);
            assert(suffix[i0 + 1] == (x, y));
            assert(1 <= i0 + 1 < suffix.len() - 1);
        }
    }
}

/// One marking step, first half: after writing the head's trace, every
/// walk cell up to the goal carries its direction.
#[verifier::rlimit(100)]
proof fn lemma_draw_step_traces(
    g: GridView,
    nodes: Seq<AStarNode>,
    before: GridView,
    after: GridView,
    osuf: Seq<Pos>,
    suffix: Seq<Pos>,
    cur: Pos,
    dir: Direction,
)
    requires
        g.dims_ok(),
        before.rows == g.rows,
        before.cols == g.cols,
        before.cells.len() == g.cells.len(),
        nodes.len() == g.rows * g.cols,
        1 <= osuf.len(),
        suffix == seq![cur] + osuf,
        g.in_bounds(cur.0, cur.1),
        g.in_bounds(osuf[0].0, osuf[0].1),
        dir == step_dir(cur, osuf[0]),
        after == before.put(cur.0, cur.1, Content::Trace(dir)),
        forall|i: int| 0 <= i < osuf.len() ==> g.in_bounds((#[trigger] osuf[i]).0, osuf[i].1),
        forall|i: int|
            0 <= i < osuf.len() ==> dval(nodes[g.idx(cur.0, cur.1)].dist) < dval(
                nodes[g.idx((#[trigger] osuf[i]).0, osuf[i].1)].dist),
        drawn_traces(before, osuf, 0),
    ensures
        drawn_traces(after, suffix, 0),
{
    reveal(drawn_traces);
    assert forall|x2: int, y2: int| g.in_bounds(x2, y2) implies #[trigger] after.at(x2, y2) == (
    if x2 == cur.0 && y2 == cur.1 {
        Content::Trace(dir)
    } else {
        before.at(x2, y2)
    }) by {
        lemma_put_at(before, cur.0, cur.1, Content::Trace(dir), x2, y2);
    }
    assert forall|i: int| 0 <= i < suffix.len() - 1 implies after.at((#[trigger] suffix[i]).0,
        suffix[i].1) == Content::Trace(step_dir(suffix[i], suffix[i + 1])) by {
        if i == 0 {
            assert(suffix[0] == cur && suffix[1] == osuf[0]);
        } else {
            assert(suffix[i] == osuf[i - 1] && suffix[i + 1] == osuf[i]);
            assert(dval(nodes[g.idx(cur.0, cur.1)].dist) < dval(
                nodes[g.idx((osuf[i - 1]).0, osuf[i - 1].1)].dist));
            assert(suffix[i] != cur);
        }
    }
}

/// One marking step, second half: the write adds no change beyond the walk
/// and the exploration marks.
#[verifier::rlimit(100)]
proof fn lemma_draw_step_changed(
    g: GridView,
    before: GridView,
    after: GridView,
    osuf: Seq<Pos>,
    suffix: Seq<Pos>,
    cur: Pos,
    dir: Direction,
)
    requires
        g.dims_ok(),
        before.rows == g.rows,
        before.cols == g.cols,
        before.cells.len() == g.cells.len(),
        1 <= osuf.len(),
        suffix == seq![cur] + osuf,
        g.in_bounds(cur.0, cur.1),
        after == before.put(cur.0, cur.1, Content::Trace(dir)),
        drawn_rest(g, before, osuf, 0),
    ensures
        drawn_rest(g, after, suffix, 0),
{
    reveal(drawn_rest);
    assert forall|x2: int, y2: int| g.in_bounds(x2, y2) implies #[trigger] after.at(x2, y2) == (
    if x2 == cur.0 && y2 == cur.1 {
        Content::Trace(dir)
    } else {
        before.at(x2, y2)
    }) by {
        lemma_put_at(before, cur.0, cur.1, Content::Trace(dir), x2, y2);
    }
    assert forall|x: int, y: int|
        g.in_bounds(x, y) && (#[trigger] after.at(x, y)) != g.at(x, y) implies (after.at(x, y)
        == Content::Explored || exists|i: int|
        0 <= i < suffix.len() - 1 && suffix[i] == (x, y)) by {
        if (x, y) == cur {
            assert(suffix[0] == (x, y));
            assert(0 <= 0 < suffix.len() - 1 && suffix[0] == (x, y));
        } else {
            if after.at(x, y) != Content::Explored {
                assert(before.at(x, y) != g.at(x, y));
                let i0 = choose|i: int| 0 <= i < osuf.len() - 1 && #[trigger] osuf[i] == (x, y);
                assert(suffix[i0 + 1] == (x, y));
                assert(0 <= i0 + 1 < suffix.len() - 1);
            }
        }
    }
}

impl Grid {
    /// Walk the predecessor chain from the goal back to the car, marking
    /// every interior chain cell with the direction toward the goal, and
    /// count the edges walked. The walk is handed back as the witness: its
    /// interior carries the trace marks, and no other cell changed beyond
    /// the `Explored` marks the search already wrote.
    #[verifier::rlimit(100)]
    fn draw_path(
        &mut self,
        nodes: &Vec<AStarNode>,
        car_p: (usize, usize),
        goal_p: (usize, usize),
        Ghost(g0): Ghost<GridView>,
    ) -> (length: usize)
        requires
            inv_nodes(g0, nodes@, pos_int(car_p)),
            old(self)@.wf(),
            explored_envelope(g0, old(self)@),
            g0.car == Some((car_p.0 as int, car_p.1 as int)),
            g0.goal == Some((goal_p.0 as int, goal_p.1 as int)),
            dset(nodes@[g0.idx(goal_p.0 as int, goal_p.1 as int)].dist),
        ensures
            final(self)@.wf(),
            marks_envelope(g0, final(self)@),
            length <= dval(nodes@[g0.idx(goal_p.0 as int, goal_p.1 as int)].dist),
            exists|p: Seq<Pos>|
                {
                    &&& connects(g0, p, pos_int(car_p), pos_int(goal_p))
                    &&& p.len() == length + 1
                    &&& forall|i: int|
                        1 <= i < p.len() - 1 ==> final(self)@.at((#[trigger] p[i]).0, p[i].1)
                            == Content::Trace(step_dir(p[i], p[i + 1]))
                    &&& forall|x: int, y: int|
                        g0.in_bounds(x, y) && (#[trigger] final(self)@.at(x, y)) != g0.at(x, y)
                            ==> (final(self)@.at(x, y) == Content::Explored || exists|i: int|
                            1 <= i < p.len() - 1 && p[i] == (x, y))
                },
    {
        let ghost cp = pos_int(car_p);
        let ghost gp = pos_int(goal_p);
        proof {
            reveal(inv_nodes);
        }
        let n = self.n();
        let ghost goal_d = dval(nodes@[g0.idx(gp.0, gp.1)].dist);
        let mut current: (usize, usize) = goal_p;
        let mut length: usize = 0;
        let ghost mut suffix: Seq<Pos> = seq![gp];
        proof {
            // the car and goal cells hold different contents, so the
            // positions differ
            assert(g0.at(cp.0, cp.1) == Content::Car);
            assert(g0.at(gp.0, gp.1) == Content::Goal);
            assert(cp != gp);
            assert(open_cell(g0, gp));
            assert(drawn_traces(self@, suffix, 0)) by {
                reveal(drawn_traces);
            }
            assert(drawn_rest(g0, self@, suffix, 0)) by {
                reveal(drawn_rest);
            }
        }
        loop
            invariant_except_break
                inv_nodes(g0, nodes@, cp),
                nodes@.len() == g0.rows * g0.cols,
                self@.wf(),
                marks_envelope(g0, self@),
                n == g0.cols,
                g0.car == Some(cp),
                g0.goal == Some(gp),
                cp == pos_int(car_p),
                gp == pos_int(goal_p),
                open_cell(g0, pos_int(current)),
                pos_int(current) != cp,
                dset(nodes@[g0.idx(current.0 as int, current.1 as int)].dist),
                connects(g0, suffix, pos_int(current), gp),
                suffix.len() == length + 1,
                dval(nodes@[g0.idx(current.0 as int, current.1 as int)].dist) + length <= goal_d,
                goal_d == dval(nodes@[g0.idx(goal_p.0 as int, goal_p.1 as int)].dist),
                suffix[0] == pos_int(current),
                // the walk's head is strictly closer to the car than every
                // other cell on it
                forall|i: int|
                    1 <= i < suffix.len() ==> dval(
                        nodes@[g0.idx((suffix[0]).0, suffix[0].1)].dist) < dval(
                        nodes@[g0.idx((#[trigger] suffix[i]).0, suffix[i].1)].dist),
                // every walk cell but the goal is already marked toward its
                // successor, and any other change is an exploration mark
                drawn_traces(self@, suffix, 0),
                drawn_rest(g0, self@, suffix, 0),
            ensures
                self@.wf(),
                marks_envelope(g0, self@),
                connects(g0, suffix, cp, gp),
                suffix.len() == length + 1,
                length <= goal_d,
                drawn_traces(self@, suffix, 1),
                drawn_rest(g0, self@, suffix, 1),
            decreases dval(nodes@[g0.idx(current.0 as int, current.1 as int)].dist),
        {
            let prev = current;
            let ghost fprev = g0.idx(prev.0 as int, prev.1 as int);
            proof {
                reveal(inv_nodes);
                lemma_flat_unflat(g0, prev.0 as int, prev.1 as int);
                assert(upos(g0, fprev) == pos_int(prev));
            }
            let node = nodes[prev.1 * n + prev.0];
            let pred = match node.predecessor {
                Some(q) => q,
                None => {
                    proof {
                        reveal(inv_nodes);
                        assert(false);
                    }
                    (0, 0)
                },
            };
            proof {
                reveal(inv_nodes);
                assert(adjacent(pos_int(pred), pos_int(prev)));
                assert(open_cell(g0, pos_int(pred)));
                lemma_path_cons(g0, suffix, pos_int(prev), gp, pos_int(pred));
            }
            let ghost osuf = suffix;
            let ghost new_suffix = seq![pos_int(pred)] + osuf;
            current = pred;
            length = length + 1;
            proof {
                lemma_cons_head_order(g0, nodes@, osuf, new_suffix, pos_int(pred));
            }
            if current.0 == car_p.0 && current.1 == car_p.1 {
                proof {
                    lemma_draw_finish_traces(self@, osuf, new_suffix, cp);
                    lemma_draw_finish_rest(g0, self@, osuf, new_suffix, cp);
                    suffix = new_suffix;
                }
                break ;
            }
            proof {
                assert(g0.rows <= usize::MAX) by (nonlinear_arith)
                    requires 1 <= g0.cols && g0.rows * g0.cols <= usize::MAX && 1 <= g0.rows;
            }
            let dir = if current.0 + 1 == prev.0 {
                Direction::Right
            } else if prev.0 + 1 == current.0 {
                Direction::Left
            } else if current.1 + 1 == prev.1 {
                Direction::Down
            } else {
                Direction::Up
            };
            proof {
                assert(dir == step_dir(pos_int(current), pos_int(prev)));
                lemma_trace_write_ok(g0, self@, pos_int(current), Content::Trace(dir));
            }
            let ghost before = self@;
            self.put_cell(current.0, current.1, Content::Trace(dir));
            proof {
                let cur = pos_int(current);
                lemma_cons_head_order(g0, nodes@, osuf, new_suffix, cur);
                assert forall|i: int| 0 <= i < osuf.len() implies g0.in_bounds(
                    (#[trigger] osuf[i]).0, osuf[i].1) by {
                    assert(open_cell(g0, osuf[i]));
                }
                lemma_draw_step_traces(g0, nodes@, before, self@, osuf, new_suffix, cur, dir);
                lemma_draw_step_changed(g0, before, self@, osuf, new_suffix, cur, dir);
                suffix = new_suffix;
            }
        }
        proof {
            reveal(drawn_traces);
            reveal(drawn_rest);
            assert(connects(g0, suffix, pos_int(car_p), pos_int(goal_p)) && suffix.len()
                == length + 1);
        }
        length
    }
}


impl Grid {
    /// Best-first search from the car to the goal over 4-directional
    /// adjacency, walls excluded. On success the returned length is the
    /// exact shortest walk length, and a shortest walk exists whose
    /// interior cells the grid now marks `Trace`, each pointing toward its
    /// successor on the way to the goal, every other changed cell being
    /// `Explored`; the exploration count never exceeds the number of cells
    /// reachable from the car. On a grid where no walk joins car and goal
    /// the search returns `None`, leaving only `Explored` marks.
    #[verifier::rlimit(100)]
    pub fn find_path(&mut self, heuristic: Heuristic) -> (res: Option<PathResult>)
        requires
            old(self)@.wf(),
            old(self)@.car is Some,
            old(self)@.goal is Some,
        ensures
            final(self)@.wf(),
            marks_envelope(old(self)@, final(self)@),
            match res {
                Some(r) => {
                    &&& shortest_len(
                        old(self)@,
                        tracked_pos(old(self)@.car),
                        tracked_pos(old(self)@.goal),
                        r.length as int,
                    )
                    &&& 1 <= r.explored
                    &&& r.explored <= reachable_count(old(self)@, tracked_pos(old(self)@.car))
                    &&& exists|p: Seq<Pos>|
                        {
                            &&& connects(
                                old(self)@,
                                p,
                                tracked_pos(old(self)@.car),
                                tracked_pos(old(self)@.goal),
                            )
                            &&& p.len() == r.length + 1
                            &&& forall|i: int|
                                1 <= i < p.len() - 1 ==> final(self)@.at(
                                    (#[trigger] p[i]).0,
                                    p[i].1,
                                ) == Content::Trace(step_dir(p[i], p[i + 1]))
                            &&& forall|x: int, y: int|
                                old(self)@.in_bounds(x, y) && (#[trigger] final(self)@.at(x, y))
                                    != old(self)@.at(x, y) ==> (final(self)@.at(x, y)
                                    == Content::Explored || exists|i: int|
                                    1 <= i < p.len() - 1 && p[i] == (x, y))
                        }
                },
                None => {
                    &&& !reaches(
                        old(self)@,
                        tracked_pos(old(self)@.car),
                        tracked_pos(old(self)@.goal),
                    )
                    &&& explored_envelope(old(self)@, final(self)@)
                },
            },
    {
        let ghost g0 = old(self)@;
        let car_p = match self.car_position() {
            Some(p) => p,
            None => (0, 0),
        };
        let goal_p = match self.goal_position() {
            Some(p) => p,
            None => (0, 0),
        };
        let ghost cp = pos_int(car_p);
        let ghost gp = pos_int(goal_p);
        proof {
            assert(g0.car == Some(cp) && g0.goal == Some(gp));
            assert(g0.at(cp.0, cp.1) == Content::Car);
            assert(g0.at(gp.0, gp.1) == Content::Goal);
            assert(open_cell(g0, cp) && open_cell(g0, gp));
            assert(cp != gp);
            lemma_flat_unflat(g0, cp.0, cp.1);
            lemma_flat_unflat(g0, gp.0, gp.1);
        }
        let n = self.n();
        let total = self.cell_count();
        let mut nodes: Vec<AStarNode> = Vec::new();
        while nodes.len() < total
            invariant
                nodes@.len() <= total,
                forall|i: int|
                    0 <= i < nodes@.len() ==> (#[trigger] nodes@[i]) == (AStarNode {
                        predecessor: None,
                        dist: None,
                        depth: 0,
                        expanded: false,
                    }),
            decreases total - nodes.len(),
        {
            nodes.push(AStarNode { predecessor: None, dist: None, depth: 0, expanded: false });
        }
        let ci = car_p.1 * n + car_p.0;
        nodes[ci] = AStarNode { predecessor: None, dist: Some(0), depth: 0, expanded: false };
        proof {
            lemma_manhattan_fits(g0, cp, gp);
            crate::heuristic::lemma_h_le_manhattan(heuristic, cp, gp);
            crate::heuristic::lemma_h_basic(heuristic, cp, gp);
        }
        let h0 = heuristic.estimate(car_p, goal_p);
        let mut queue: Vec<QueueEntry> = Vec::new();
        queue.push(QueueEntry { pos: car_p, dist: 0, guessed: h0 as u128, depth: 0 });
        let mut count: usize = 0;
        let ghost mut exp: Set<int> = Set::empty();
        proof {
            assert(nodes@.len() == g0.rows * g0.cols);
            assert(inv_nodes(g0, nodes@, cp)) by {
                reveal(inv_nodes);
                assert forall|i: int|
                    0 <= i < nodes@.len() && dset(#[trigger] nodes@[i].dist) implies open_cell(
                    g0, upos(g0, i)) && i == g0.idx(cp.0, cp.1) by {
                    if i != g0.idx(cp.0, cp.1) {
                        assert(nodes@[i].dist is None);
                    }
                }
            }
            assert(inv_sound(g0, nodes@, cp)) by {
                reveal(inv_sound);
                let p0 = seq![cp];
                assert(connects(g0, p0, cp, cp) && p0.len() <= 1);
                assert forall|i: int|
                    0 <= i < nodes@.len() && dset(#[trigger] nodes@[i].dist) implies exists|
                    p: Seq<Pos>,
                |
                    connects(g0, p, cp, upos(g0, i)) && p.len() <= dval(nodes@[i].dist) + 1 by {
                    assert(i == g0.idx(cp.0, cp.1));
                    assert(connects(g0, p0, cp, upos(g0, i)) && p0.len() <= dval(nodes@[i].dist)
                        + 1);
                }
            }
            assert(inv_expanded(g0, nodes@, exp, cp, gp)) by {
                reveal(inv_expanded);
            }
            assert(inv_dist_bound(nodes@, exp)) by {
                reveal(inv_dist_bound);
            }
            assert(inv_queue(g0, nodes@, queue@, heuristic, gp)) by {
                reveal(inv_queue);
            }
            assert(inv_entry_exists(g0, nodes@, queue@, exp)) by {
                reveal(inv_entry_exists);
                assert forall|i: int|
                    0 <= i < nodes@.len() && dset(#[trigger] nodes@[i].dist) && !exp.contains(i)
                    implies exists|j: int|
                    0 <= j < queue@.len() && pos_int((#[trigger] queue@[j]).pos) == upos(g0, i)
                        && queue@[j].dist == dval(nodes@[i].dist) by {
                    assert(i == g0.idx(cp.0, cp.1));
                    assert(pos_int(queue@[0].pos) == upos(g0, i) && queue@[0].dist == dval(
                        nodes@[i].dist));
                }
            }
        }
        while queue.len() > 0
            invariant
                g0 == old(self)@,
                self@.wf(),
                explored_envelope(g0, self@),
                g0.wf(),
                g0.car == Some(cp),
                g0.goal == Some(gp),
                cp == pos_int(car_p),
                gp == pos_int(goal_p),
                open_cell(g0, cp),
                open_cell(g0, gp),
                cp != gp,
                n == g0.cols,
                total == g0.rows * g0.cols,
                total <= usize::MAX,
                nodes@.len() == g0.rows * g0.cols,
                inv_nodes(g0, nodes@, cp),
                inv_sound(g0, nodes@, cp),
                inv_dist_bound(nodes@, exp),
                inv_expanded(g0, nodes@, exp, cp, gp),
                inv_queue(g0, nodes@, queue@, heuristic, gp),
                inv_entry_exists(g0, nodes@, queue@, exp),
                count == exp.len(),
                count <= total,
            decreases g0.rows * g0.cols - exp.len(), queue@.len(),
        {
            let best = pick_min(&queue);
            let ghost q_before = queue@;
            let e = queue.swap_remove(best);
            let ghost ep = pos_int(e.pos);
            let ghost ei = g0.idx(ep.0, ep.1);
            proof {
                assert(open_cell(g0, ep) && dset(nodes@[ei].dist) && dval(nodes@[ei].dist)
                    <= e.dist && e.guessed as int == e.dist + heuristic.h_spec(ep, gp)) by {
                    reveal(inv_queue);
                }
                lemma_flat_unflat(g0, ep.0, ep.1);
                lemma_after_remove(
                    g0,
                    nodes@,
                    q_before,
                    queue@,
                    best as int,
                    e,
                    exp,
                    heuristic,
                    cp,
                    gp,
                );
            }
            proof {
                assert(nodes@[ei].expanded <==> exp.contains(ei)) by {
                    reveal(inv_expanded);
                }
            }
            let node_e = nodes[e.pos.1 * n + e.pos.0];
            if node_e.expanded {
                // a stale entry for an already finalized cell: skip it
                proof {
                    assert(exp.contains(ei));
                }
            } else {
                proof {
                    assert(exp.finite() && exp.subset_of(reachable_idx_set(g0, cp))) by {
                        reveal(inv_expanded);
                    }
                    lemma_exp_small(g0, exp, cp, ei);
                }
                count = count + 1;
                proof {
                    assert(inv_expanded_weak(g0, nodes@, exp, cp)) by {
                        reveal(inv_expanded);
                        reveal(inv_expanded_weak);
                    }
                    lemma_settled(g0, nodes@, exp, q_before, heuristic, cp, gp, e);
                    assert(shortest_len(g0, cp, ep, dval(nodes@[ei].dist)));
                }
                if e.pos.0 == goal_p.0 && e.pos.1 == goal_p.1 {
                    proof {
                        assert(ep == gp);
                        assert(marks_envelope(g0, self@));
                    }
                    let length = self.draw_path(&nodes, car_p, goal_p, Ghost(g0));
                    proof {
                        reveal(inv_nodes);
                        assert(exp.finite() && exp.subset_of(reachable_idx_set(g0, cp))
                            && !exp.contains(g0.idx(gp.0, gp.1))) by {
                            reveal(inv_expanded);
                        }
                        lemma_goal_return(g0, nodes@, exp, cp, gp, length, count as int);
                    }
                    return Some(PathResult { explored: count, length });
                }
                // finalize this cell: mark it explored (the car cell keeps
                // its glyph), then relax every neighbor
                if !(e.pos.0 == car_p.0 && e.pos.1 == car_p.1) {
                    proof {
                        lemma_trace_write_ok(g0, self@, ep, Content::Explored);
                    }
                    let ghost before = self@;
                    self.put_cell(e.pos.0, e.pos.1, Content::Explored);
                    proof {
                        assert forall|x2: int, y2: int| g0.in_bounds(x2, y2)
                            implies #[trigger] self@.at(x2, y2) == (if x2 == ep.0 && y2 == ep.1 {
                            Content::Explored
                        } else {
                            before.at(x2, y2)
                        }) by {
                            lemma_put_at(before, ep.0, ep.1, Content::Explored, x2, y2);
                        }
                    }
                }
                let node_u = nodes[e.pos.1 * n + e.pos.0];
                let du = match node_u.dist {
                    Some(d) => d,
                    None => {
                        proof {
                            assert(false);
                        }
                        0
                    },
                };
                let ghost nodes_pre = nodes@;
                nodes[e.pos.1 * n + e.pos.0] = AStarNode {
                    predecessor: node_u.predecessor,
                    dist: node_u.dist,
                    depth: node_u.depth,
                    expanded: true,
                };
                let ghost exp0 = exp;
                proof {
                    exp = exp.insert(ei);
                    lemma_expand_update(
                        g0,
                        nodes_pre,
                        nodes@,
                        q_before,
                        queue@,
                        best as int,
                        e,
                        exp0,
                        exp,
                        cp,
                        gp,
                        heuristic,
                        du,
                    );
                }
                let nd = du + 1;
                let neighs = self.get_neighbours(e.pos);
                proof {
                    lemma_envelope_same_walls(g0, self@);
                }
                let mut k: usize = 0;
                while k < neighs.len()
                    invariant
                        self@.wf(),
                        explored_envelope(g0, self@),
                        g0.wf(),
                        g0.car == Some(cp),
                        g0.goal == Some(gp),
                        cp == pos_int(car_p),
                        gp == pos_int(goal_p),
                        open_cell(g0, cp),
                        open_cell(g0, gp),
                        cp != gp,
                        n == g0.cols,
                        total == g0.rows * g0.cols,
                        total <= usize::MAX,
                        k <= neighs@.len(),
                        crate::paths::same_walls(g0, self@),
                        ep == pos_int(e.pos),
                        ei == g0.idx(ep.0, ep.1),
                        upos(g0, ei) == ep,
                        open_cell(g0, ep),
                        ep != gp,
                        exp.contains(ei),
                        nodes@[ei].dist == Some(du),
                        nodes@[ei].depth == node_u.depth,
                        nd == du + 1,
                        nd <= exp.len(),
                        exp.len() <= total,
                        shortest_len(g0, cp, ep, du as int),
                        nodes@.len() == g0.rows * g0.cols,
                        forall|t: int|
                            0 <= t < neighs@.len() ==> open_cell(self@, pos_int(
                                #[trigger] neighs@[t])) && adjacent(pos_int(e.pos), pos_int(
                                neighs@[t])),
                        forall|q: Pos|
                            open_cell(self@, q) && adjacent(pos_int(e.pos), q)
                                ==> #[trigger] neighs@.contains(((q.0 as usize), (q.1 as usize))),
                        inv_nodes(g0, nodes@, cp),
                        inv_sound(g0, nodes@, cp),
                        inv_dist_bound(nodes@, exp),
                        inv_queue(g0, nodes@, queue@, heuristic, gp),
                        inv_entry_exists(g0, nodes@, queue@, exp),
                        count == exp.len(),
                        count <= total,
                        exp.finite(),
                        exp.subset_of(reachable_idx_set(g0, cp)),
                        !exp.contains(g0.idx(gp.0, gp.1)),
                        forall|i: int|
                            0 <= i < nodes@.len() ==> ((#[trigger] nodes@[i].expanded)
                                <==> exp.contains(i)),
                        forall|i: int|
                            #[trigger] exp.contains(i) ==> 0 <= i < nodes@.len() && dset(
                                nodes@[i].dist) && shortest_len(g0, cp, upos(g0, i), dval(
                                nodes@[i].dist)),
                        forall|i: int, q: Pos|
                            #![trigger exp.contains(i), adjacent(upos(g0, i), q)]
                            exp.contains(i) && i != ei && open_cell(g0, q) && adjacent(
                                upos(g0, i), q) ==> dset(nodes@[g0.idx(q.0, q.1)].dist) && dval(
                                nodes@[g0.idx(q.0, q.1)].dist) <= dval(nodes@[i].dist) + 1,
                        forall|t: int|
                            0 <= t < k ==> dset(nodes@[g0.idx(pos_int(#[trigger] neighs@[t]).0,
                                pos_int(neighs@[t]).1)].dist) && dval(nodes@[g0.idx(pos_int(
                                neighs@[t]).0, pos_int(neighs@[t]).1)].dist) <= du + 1,
                    decreases neighs@.len() - k,
                {
                    let w = neighs[k];
                    let ghost wp = pos_int(w);
                    proof {
                        assert(open_cell(self@, wp) && adjacent(ep, wp));
                        assert(open_cell(g0, wp));
                        lemma_flat_unflat(g0, wp.0, wp.1);
                        assert(wp != ep);
                    }
                    let ghost wi = g0.idx(wp.0, wp.1);
                    let node_w = nodes[w.1 * n + w.0];
                    let relax = match node_w.dist {
                        None => true,
                        Some(dw) => nd < dw,
                    };
                    if relax {
                        proof {
                            assert(node_u.depth <= du && du + 1 <= total) by {
                                reveal(inv_nodes);
                            }
                            if exp.contains(wi) {
                                lemma_no_relax_expanded(g0, nodes@, exp, cp, ep, wp);
                                assert(false);
                            }
                            if wp == cp {
                                reveal(inv_nodes);
                                lemma_flat_unflat(g0, cp.0, cp.1);
                                assert(dval(nodes@[wi].dist) == 0);
                                assert(false);
                            }
                            lemma_manhattan_fits(g0, wp, gp);
                            crate::heuristic::lemma_h_le_manhattan(heuristic, wp, gp);
                            crate::heuristic::lemma_h_basic(heuristic, wp, gp);
                        }
                        let hw = heuristic.estimate(w, goal_p);
                        let ghost nodes0 = nodes@;
                        let ghost queue0 = queue@;
                        nodes[w.1 * n + w.0] = AStarNode {
                            predecessor: Some(e.pos),
                            dist: Some(nd),
                            depth: node_u.depth + 1,
                            expanded: false,
                        };
                        let entry = QueueEntry {
                            pos: w,
                            dist: nd,
                            guessed: nd as u128 + hw as u128,
                            depth: node_u.depth + 1,
                        };
                        queue.push(entry);
                        proof {
                            lemma_relax_step(
                                g0,
                                nodes0,
                                nodes@,
                                queue0,
                                queue@,
                                exp,
                                heuristic,
                                cp,
                                gp,
                                e.pos,
                                w,
                                entry,
                                ei,
                            );
                            // the processed neighbors stay relaxed:
                            // distances only tighten
                            assert forall|t: int|
                                0 <= t < k + 1 implies dset(nodes@[g0.idx(pos_int(
                                #[trigger] neighs@[t]).0, pos_int(neighs@[t]).1)].dist) && dval(
                                nodes@[g0.idx(pos_int(neighs@[t]).0, pos_int(
                                neighs@[t]).1)].dist) <= du + 1 by {
                                let ft = g0.idx(pos_int(neighs@[t]).0, pos_int(neighs@[t]).1);
                                if t < k {
                                    assert(dset(nodes0[ft].dist) && dval(nodes0[ft].dist) <= du
                                        + 1);
                                } else {
                                    assert(ft == wi);
                                }
                            }
                            assert(nodes@[ei].dist == Some(du) && nodes@[ei].depth
                                == node_u.depth) by {
                                assert(ei != wi);
                                assert(nodes@[ei] == nodes0[ei]);
                            }
                        }
                    } else {
                        proof {
                            assert(dset(nodes@[wi].dist) && dval(nodes@[wi].dist) <= du + 1);
                        }
                    }
                    k = k + 1;
                }
                proof {
                    // every open neighbor is relaxed now, completing the
                    // finalized-set invariant for this cell
                    assert forall|i: int, q: Pos|
                        #![trigger exp.contains(i), adjacent(upos(g0, i), q)]
                        exp.contains(i) && open_cell(g0, q) && adjacent(upos(g0, i), q)
                        implies dset(nodes@[g0.idx(q.0, q.1)].dist) && dval(
                        nodes@[g0.idx(q.0, q.1)].dist) <= dval(nodes@[i].dist) + 1 by {
                        if i == ei {
                            assert(open_cell(self@, q));
                            assert(neighs@.contains(((q.0 as usize), (q.1 as usize))));
                            let t = choose|t: int|
                                0 <= t < neighs@.len() && #[trigger] neighs@[t] == ((
                                q.0 as usize), (q.1 as usize));
                            assert(pos_int(neighs@[t]) == q);
                        }
                    }
                    assert(inv_expanded(g0, nodes@, exp, cp, gp)) by {
                        reveal(inv_expanded);
                    }
                }
            }
        }
        // the frontier ran dry: everything discovered was finalized, and
        // the discovered region is closed under adjacency, so the goal is
        // out of reach
        proof {
            assert(!exp.contains(g0.idx(gp.0, gp.1)) && (forall|i: int|
                #[trigger] exp.contains(i) ==> 0 <= i < nodes@.len() && dset(nodes@[i].dist))
                && (forall|i: int, q: Pos|
                #![trigger exp.contains(i), adjacent(upos(g0, i), q)]
                exp.contains(i) && open_cell(g0, q) && adjacent(upos(g0, i), q) ==> dset(
                    nodes@[g0.idx(q.0, q.1)].dist)) && (forall|i: int|
                0 <= i < nodes@.len() ==> ((#[trigger] nodes@[i].expanded) <==> exp.contains(
                    i)))) by {
                reveal(inv_expanded);
            }
            assert(nodes@.len() == g0.rows * g0.cols) by {
                reveal(inv_nodes);
            }
            lemma_frontier_empty(g0, nodes@, queue@, exp, cp, gp);
        }
        None
    }
}

/// Removing one entry by a swap with the last keeps the queue sane, and
/// when the removed entry's cell is already finalized every still-pending
/// cell keeps a matching entry.
#[verifier::rlimit(100)]
proof fn lemma_after_remove(
    g: GridView,
    nodes: Seq<AStarNode>,
    q_before: Seq<QueueEntry>,
    q_after: Seq<QueueEntry>,
    best: int,
    e: QueueEntry,
    exp: Set<int>,
    h: Heuristic,
    cp: Pos,
    gp: Pos,
)
    requires
        g.dims_ok(),
        nodes.len() == g.rows * g.cols,
        inv_queue(g, nodes, q_before, h, gp),
        inv_entry_exists(g, nodes, q_before, exp),
        0 <= best < q_before.len(),
        e == q_before[best],
        q_after == q_before.update(best, q_before.last()).drop_last(),
    ensures
        inv_queue(g, nodes, q_after, h, gp),
        exp.contains(g.idx(pos_int(e.pos).0, pos_int(e.pos).1)) ==> inv_entry_exists(
            g,
            nodes,
            q_after,
            exp,
        ),
{
    reveal(inv_queue);
    reveal(inv_entry_exists);
    assert forall|j: int| 0 <= j < q_after.len() implies {
        let en = #[trigger] q_after[j];
        &&& open_cell(g, pos_int(en.pos))
        &&& dset(nodes[g.idx(en.pos.0 as int, en.pos.1 as int)].dist)
        &&& dval(nodes[g.idx(en.pos.0 as int, en.pos.1 as int)].dist) <= en.dist
        &&& en.guessed as int == en.dist + h.h_spec(pos_int(en.pos), gp)
    } by {
        if j == best && best < q_before.len() - 1 {
            assert(q_after[j] == q_before[q_before.len() - 1]);
        } else {
            assert(q_after[j] == q_before[j]);
        }
    }
    if exp.contains(g.idx(pos_int(e.pos).0, pos_int(e.pos).1)) {
        assert forall|i: int|
            0 <= i < nodes.len() && dset(#[trigger] nodes[i].dist) && !exp.contains(i)
            implies exists|j: int|
            0 <= j < q_after.len() && pos_int((#[trigger] q_after[j]).pos) == upos(g, i)
                && q_after[j].dist == dval(nodes[i].dist) by {
            let j0 = choose|j0: int|
                0 <= j0 < q_before.len() && pos_int((#[trigger] q_before[j0]).pos) == upos(g, i)
                    && q_before[j0].dist == dval(nodes[i].dist);
            lemma_unflat_flat(g, i);
            assert(j0 != best) by {
                if j0 == best {
                    assert(pos_int(e.pos) == upos(g, i));
                    assert(g.idx(upos(g, i).0, upos(g, i).1) == i);
                }
            }
            if j0 == q_before.len() - 1 {
                assert(q_after[best] == q_before[j0]);
            } else {
                assert(q_after[j0] == q_before[j0]);
            }
        }
    }
}

/// The flag flip that finalizes a cell leaves every distance, link and
/// depth in the table alone.
proof fn lemma_flag_flip_pointwise(nodes_pre: Seq<AStarNode>, nodes1: Seq<AStarNode>, ei: int)
    requires
        0 <= ei < nodes_pre.len(),
        nodes1 == nodes_pre.update(
            ei,
            AStarNode {
                predecessor: nodes_pre[ei].predecessor,
                dist: nodes_pre[ei].dist,
                depth: nodes_pre[ei].depth,
                expanded: true,
            },
        ),
    ensures
        nodes1.len() == nodes_pre.len(),
        forall|i: int|
            0 <= i < nodes1.len() ==> (#[trigger] nodes1[i]).dist == nodes_pre[i].dist
                && nodes1[i].predecessor == nodes_pre[i].predecessor && nodes1[i].depth
                == nodes_pre[i].depth,
{
    assert forall|i: int| 0 <= i < nodes1.len() implies (#[trigger] nodes1[i]).dist
        == nodes_pre[i].dist && nodes1[i].predecessor == nodes_pre[i].predecessor
        && nodes1[i].depth == nodes_pre[i].depth by {
        if i != ei {
            assert(nodes1[i] == nodes_pre[i]);
        }
    }
}

/// The table invariants survive the flag flip.
proof fn lemma_expand_table(
    g: GridView,
    nodes_pre: Seq<AStarNode>,
    nodes1: Seq<AStarNode>,
    exp0: Set<int>,
    exp1: Set<int>,
    cp: Pos,
    ei: int,
    du: usize,
)
    requires
        inv_nodes(g, nodes_pre, cp),
        inv_sound(g, nodes_pre, cp),
        inv_dist_bound(nodes_pre, exp0),
        exp0.finite(),
        0 <= ei < nodes_pre.len(),
        !exp0.contains(ei),
        exp1 == exp0.insert(ei),
        nodes_pre[ei].dist == Some(du),
        nodes1 == nodes_pre.update(
            ei,
            AStarNode {
                predecessor: nodes_pre[ei].predecessor,
                dist: nodes_pre[ei].dist,
                depth: nodes_pre[ei].depth,
                expanded: true,
            },
        ),
    ensures
        inv_nodes(g, nodes1, cp),
        inv_sound(g, nodes1, cp),
        inv_dist_bound(nodes1, exp1),
        exp1.len() == exp0.len() + 1,
        du + 1 <= exp1.len(),
        nodes1[ei].dist == Some(du),
{
    reveal(inv_nodes);
    reveal(inv_sound);
    reveal(inv_dist_bound);
    lemma_flag_flip_pointwise(nodes_pre, nodes1, ei);
    assert(exp1.len() == exp0.len() + 1);
    assert(inv_sound(g, nodes1, cp)) by {
        assert forall|i: int|
            0 <= i < nodes1.len() && dset(#[trigger] nodes1[i].dist) implies exists|p: Seq<Pos>|
            connects(g, p, cp, upos(g, i)) && p.len() <= dval(nodes1[i].dist) + 1 by {
            assert(dset(nodes_pre[i].dist));
            let pi = choose|p: Seq<Pos>|
                connects(g, p, cp, upos(g, i)) && p.len() <= dval(nodes_pre[i].dist) + 1;
            assert(connects(g, pi, cp, upos(g, i)) && pi.len() <= dval(nodes1[i].dist) + 1);
        }
    }
    assert(inv_dist_bound(nodes1, exp1)) by {
        assert forall|i: int|
            0 <= i < nodes1.len() && dset(#[trigger] nodes1[i].dist) implies dval(nodes1[i].dist)
            <= exp1.len() by {
            assert(dset(nodes_pre[i].dist) && dval(nodes_pre[i].dist) == dval(nodes1[i].dist));
        }
    }
    assert(du + 1 <= exp1.len()) by {
        assert(dval(nodes_pre[ei].dist) <= exp0.len());
    }
}

/// The queue invariants survive the removal of the finalized cell's entry
/// and the flag flip.
proof fn lemma_expand_queue(
    g: GridView,
    nodes_pre: Seq<AStarNode>,
    nodes1: Seq<AStarNode>,
    q_before: Seq<QueueEntry>,
    q_after: Seq<QueueEntry>,
    best: int,
    e: QueueEntry,
    exp0: Set<int>,
    exp1: Set<int>,
    gp: Pos,
    h: Heuristic,
    ei: int,
)
    requires
        g.dims_ok(),
        nodes_pre.len() == g.rows * g.cols,
        inv_queue(g, nodes_pre, q_before, h, gp),
        inv_entry_exists(g, nodes_pre, q_before, exp0),
        0 <= best < q_before.len(),
        e == q_before[best],
        q_after == q_before.update(best, q_before.last()).drop_last(),
        0 <= ei < nodes_pre.len(),
        ei == g.idx(pos_int(e.pos).0, pos_int(e.pos).1),
        g.in_bounds(pos_int(e.pos).0, pos_int(e.pos).1),
        exp1 == exp0.insert(ei),
        nodes1.len() == nodes_pre.len(),
        forall|i: int|
            0 <= i < nodes1.len() ==> (#[trigger] nodes1[i]).dist == nodes_pre[i].dist,
    ensures
        inv_queue(g, nodes1, q_after, h, gp),
        inv_entry_exists(g, nodes1, q_after, exp1),
{
    reveal(inv_queue);
    reveal(inv_entry_exists);
    assert forall|j: int| 0 <= j < q_after.len() implies {
        let en = #[trigger] q_after[j];
        &&& open_cell(g, pos_int(en.pos))
        &&& dset(nodes1[g.idx(en.pos.0 as int, en.pos.1 as int)].dist)
        &&& dval(nodes1[g.idx(en.pos.0 as int, en.pos.1 as int)].dist) <= en.dist
        &&& en.guessed as int == en.dist + h.h_spec(pos_int(en.pos), gp)
    } by {
        if j == best && best < q_before.len() - 1 {
            assert(q_after[j] == q_before[q_before.len() - 1]);
        } else {
            assert(q_after[j] == q_before[j]);
        }
        let fe = g.idx(q_after[j].pos.0 as int, q_after[j].pos.1 as int);
        assert(nodes1[fe].dist == nodes_pre[fe].dist);
    }
    assert forall|i: int|
        0 <= i < nodes1.len() && dset(#[trigger] nodes1[i].dist) && !exp1.contains(i)
        implies exists|j: int|
        0 <= j < q_after.len() && pos_int((#[trigger] q_after[j]).pos) == upos(g, i)
            && q_after[j].dist == dval(nodes1[i].dist) by {
        assert(i != ei);
        assert(!exp0.contains(i));
        assert(dset(nodes_pre[i].dist));
        let j0 = choose|j0: int|
            0 <= j0 < q_before.len() && pos_int((#[trigger] q_before[j0]).pos) == upos(g, i)
                && q_before[j0].dist == dval(nodes_pre[i].dist);
        lemma_unflat_flat(g, i);
        assert(j0 != best) by {
            if j0 == best {
                assert(pos_int(e.pos) == upos(g, i));
                assert(g.idx(upos(g, i).0, upos(g, i).1) == i);
            }
        }
        if j0 == q_before.len() - 1 {
            assert(q_after[best as int] == q_before[j0]);
        } else {
            assert(q_after[j0] == q_before[j0]);
        }
    }
}

/// The finalized-set bookkeeping after the flag flip: the new member is
/// reachable and settled, and every earlier member keeps its relaxed
/// neighbors.
proof fn lemma_expand_set(
    g: GridView,
    nodes_pre: Seq<AStarNode>,
    nodes1: Seq<AStarNode>,
    exp0: Set<int>,
    exp1: Set<int>,
    cp: Pos,
    gp: Pos,
    ep: Pos,
    ei: int,
    du: usize,
)
    requires
        g.wf(),
        inv_sound(g, nodes_pre, cp),
        inv_expanded(g, nodes_pre, exp0, cp, gp),
        open_cell(g, ep),
        open_cell(g, gp),
        ep != gp,
        0 <= ei < nodes_pre.len(),
        nodes_pre.len() == g.rows * g.cols,
        ei == g.idx(ep.0, ep.1),
        !exp0.contains(ei),
        nodes_pre[ei].dist == Some(du),
        shortest_len(g, cp, ep, du as int),
        exp1 == exp0.insert(ei),
        nodes1.len() == nodes_pre.len(),
        forall|i: int|
            0 <= i < nodes1.len() ==> (#[trigger] nodes1[i]).dist == nodes_pre[i].dist,
        forall|i: int|
            0 <= i < nodes1.len() ==> ((#[trigger] nodes1[i].expanded) <==> exp1.contains(i)),
    ensures
        exp1.finite(),
        exp1.subset_of(reachable_idx_set(g, cp)),
        !exp1.contains(g.idx(gp.0, gp.1)),
        exp1.contains(ei),
        forall|i: int|
            #[trigger] exp1.contains(i) ==> 0 <= i < nodes1.len() && dset(nodes1[i].dist)
                && shortest_len(g, cp, upos(g, i), dval(nodes1[i].dist)),
        forall|i: int, q: Pos|
            #![trigger exp1.contains(i), adjacent(upos(g, i), q)]
            exp1.contains(i) && i != ei && open_cell(g, q) && adjacent(upos(g, i), q) ==> dset(
                nodes1[g.idx(q.0, q.1)].dist) && dval(nodes1[g.idx(q.0, q.1)].dist) <= dval(
                nodes1[i].dist) + 1,
        upos(g, ei) == ep,
{
    reveal(inv_sound);
    reveal(inv_expanded);
    lemma_flat_unflat(g, ep.0, ep.1);
    lemma_flat_unflat(g, gp.0, gp.1);
    assert(upos(g, g.idx(gp.0, gp.1)) == gp);
    assert(ei != g.idx(gp.0, gp.1));
    let pu = choose|p: Seq<Pos>| connects(g, p, cp, upos(g, ei)) && p.len() <= du + 1;
    assert(connects(g, pu, cp, upos(g, ei)));
    assert(reaches(g, cp, upos(g, ei)));
    assert(reachable_idx_set(g, cp).contains(ei));
    assert forall|i: int| #[trigger]
        exp1.contains(i) implies 0 <= i < nodes1.len() && dset(nodes1[i].dist) && shortest_len(
        g,
        cp,
        upos(g, i),
        dval(nodes1[i].dist),
    ) by {
        if i != ei {
            assert(exp0.contains(i));
        }
        assert(nodes1[i].dist == nodes_pre[i].dist);
    }
    assert forall|i: int, q: Pos|
        #![trigger exp1.contains(i), adjacent(upos(g, i), q)]
        exp1.contains(i) && i != ei && open_cell(g, q) && adjacent(upos(g, i), q) implies dset(
        nodes1[g.idx(q.0, q.1)].dist) && dval(nodes1[g.idx(q.0, q.1)].dist) <= dval(
        nodes1[i].dist) + 1 by {
        assert(exp0.contains(i));
        let fq = g.idx(q.0, q.1);
        assert(dset(nodes_pre[fq].dist) && dval(nodes_pre[fq].dist) <= dval(nodes_pre[i].dist)
            + 1);
        assert(nodes1[fq].dist == nodes_pre[fq].dist && nodes1[i].dist == nodes_pre[i].dist);
    }
}

/// Finalizing a cell: the flag flip and the bookkeeping of the finalized
/// set preserve every invariant, with the neighbor-relaxation clause
/// holding for every earlier finalized cell.
proof fn lemma_expand_update(
    g: GridView,
    nodes_pre: Seq<AStarNode>,
    nodes1: Seq<AStarNode>,
    q_before: Seq<QueueEntry>,
    q_after: Seq<QueueEntry>,
    best: int,
    e: QueueEntry,
    exp0: Set<int>,
    exp1: Set<int>,
    cp: Pos,
    gp: Pos,
    h: Heuristic,
    du: usize,
)
    requires
        g.wf(),
        open_cell(g, cp),
        open_cell(g, gp),
        cp != gp,
        inv_nodes(g, nodes_pre, cp),
        inv_sound(g, nodes_pre, cp),
        inv_dist_bound(nodes_pre, exp0),
        inv_expanded(g, nodes_pre, exp0, cp, gp),
        inv_queue(g, nodes_pre, q_before, h, gp),
        inv_entry_exists(g, nodes_pre, q_before, exp0),
        0 <= best < q_before.len(),
        e == q_before[best],
        q_after == q_before.update(best, q_before.last()).drop_last(),
        open_cell(g, pos_int(e.pos)),
        !exp0.contains(g.idx(pos_int(e.pos).0, pos_int(e.pos).1)),
        nodes_pre[g.idx(pos_int(e.pos).0, pos_int(e.pos).1)].dist == Some(du),
        shortest_len(g, cp, pos_int(e.pos), du as int),
        pos_int(e.pos) != gp,
        exp1 == exp0.insert(g.idx(pos_int(e.pos).0, pos_int(e.pos).1)),
        nodes1 == nodes_pre.update(
            g.idx(pos_int(e.pos).0, pos_int(e.pos).1),
            AStarNode {
                predecessor: nodes_pre[g.idx(pos_int(e.pos).0, pos_int(e.pos).1)].predecessor,
                dist: nodes_pre[g.idx(pos_int(e.pos).0, pos_int(e.pos).1)].dist,
                depth: nodes_pre[g.idx(pos_int(e.pos).0, pos_int(e.pos).1)].depth,
                expanded: true,
            },
        ),
    ensures
        inv_nodes(g, nodes1, cp),
        inv_sound(g, nodes1, cp),
        inv_dist_bound(nodes1, exp1),
        inv_queue(g, nodes1, q_after, h, gp),
        inv_entry_exists(g, nodes1, q_after, exp1),
        exp1.finite(),
        exp1.subset_of(reachable_idx_set(g, cp)),
        !exp1.contains(g.idx(gp.0, gp.1)),
        exp1.len() == exp0.len() + 1,
        exp1.contains(g.idx(pos_int(e.pos).0, pos_int(e.pos).1)),
        forall|i: int|
            0 <= i < nodes1.len() ==> ((#[trigger] nodes1[i].expanded) <==> exp1.contains(i)),
        forall|i: int|
            #[trigger] exp1.contains(i) ==> 0 <= i < nodes1.len() && dset(nodes1[i].dist)
                && shortest_len(g, cp, upos(g, i), dval(nodes1[i].dist)),
        forall|i: int, q: Pos|
            #![trigger exp1.contains(i), adjacent(upos(g, i), q)]
            exp1.contains(i) && i != g.idx(pos_int(e.pos).0, pos_int(e.pos).1) && open_cell(g, q)
                && adjacent(upos(g, i), q) ==> dset(nodes1[g.idx(q.0, q.1)].dist) && dval(
                nodes1[g.idx(q.0, q.1)].dist) <= dval(nodes1[i].dist) + 1,
        du + 1 <= exp1.len(),
        nodes1[g.idx(pos_int(e.pos).0, pos_int(e.pos).1)].dist == Some(du),
        upos(g, g.idx(pos_int(e.pos).0, pos_int(e.pos).1)) == pos_int(e.pos),
{
    let ep = pos_int(e.pos);
    let ei = g.idx(ep.0, ep.1);
    lemma_flat_unflat(g, ep.0, ep.1);
    assert(exp1.finite()) by {
        reveal(inv_expanded);
    }
    assert(exp0.finite() && 0 <= ei < nodes_pre.len() && nodes_pre.len() == g.rows
        * g.cols) by {
        reveal(inv_expanded);
        reveal(inv_nodes);
    }
    lemma_flag_flip_pointwise(nodes_pre, nodes1, ei);
    assert(inv_nodes(g, nodes1, cp)) by {
        reveal(inv_nodes);
    }
    lemma_expand_table(g, nodes_pre, nodes1, exp0, exp1, cp, ei, du);
    lemma_expand_queue(
        g,
        nodes_pre,
        nodes1,
        q_before,
        q_after,
        best,
        e,
        exp0,
        exp1,
        gp,
        h,
        ei,
    );
    assert forall|i: int|
        0 <= i < nodes1.len() implies ((#[trigger] nodes1[i].expanded) <==> exp1.contains(i)) by {
        reveal(inv_expanded);
        if i != ei {
            assert(nodes1[i] == nodes_pre[i]);
        }
    }
    lemma_expand_set(g, nodes_pre, nodes1, exp0, exp1, cp, gp, ep, ei, du);
}

/// When the goal itself is popped with its settled distance, the walk the
/// reconstruction finds has exactly the shortest length, and everything
/// finalized so far plus the goal lies in the reachable region.
proof fn lemma_goal_return(
    g: GridView,
    nodes: Seq<AStarNode>,
    exp: Set<int>,
    cp: Pos,
    gp: Pos,
    length: usize,
    count_final: int,
)
    requires
        g.wf(),
        open_cell(g, gp),
        nodes.len() == g.rows * g.cols,
        inv_sound(g, nodes, cp),
        dset(nodes[g.idx(gp.0, gp.1)].dist),
        shortest_len(g, cp, gp, dval(nodes[g.idx(gp.0, gp.1)].dist)),
        length <= dval(nodes[g.idx(gp.0, gp.1)].dist),
        exists|p: Seq<Pos>| connects(g, p, cp, gp) && p.len() == length + 1,
        exp.finite(),
        exp.subset_of(reachable_idx_set(g, cp)),
        !exp.contains(g.idx(gp.0, gp.1)),
        count_final == exp.len() + 1,
    ensures
        shortest_len(g, cp, gp, length as int),
        count_final <= reachable_count(g, cp),
{
    let fgp = g.idx(gp.0, gp.1);
    lemma_flat_unflat(g, gp.0, gp.1);
    let k = dval(nodes[fgp].dist);
    let pw = choose|p: Seq<Pos>| connects(g, p, cp, gp) && p.len() == length + 1;
    assert(k + 1 <= length + 1);
    let r_set = reachable_idx_set(g, cp);
    lemma_reachable_finite(g, cp);
    let pu = choose|p: Seq<Pos>| connects(g, p, cp, upos(g, fgp)) && p.len() <= k + 1;
    assert(connects(g, pu, cp, upos(g, fgp)));
    assert(reaches(g, cp, upos(g, fgp)));
    assert(r_set.contains(fgp));
    let exp2 = exp.insert(fgp);
    assert(exp2.subset_of(r_set));
    vstd::set_lib::lemma_len_subset(exp2, r_set);
    assert(exp2.len() == exp.len() + 1);
}

/// When the frontier runs dry every discovered cell is finalized, the
/// discovered region is closed under adjacency and misses the goal: no
/// walk reaches the goal.
proof fn lemma_frontier_empty(
    g: GridView,
    nodes: Seq<AStarNode>,
    queue: Seq<QueueEntry>,
    exp: Set<int>,
    cp: Pos,
    gp: Pos,
)
    requires
        g.wf(),
        open_cell(g, cp),
        nodes.len() == g.rows * g.cols,
        queue.len() == 0,
        inv_nodes(g, nodes, cp),
        inv_entry_exists(g, nodes, queue, exp),
        !exp.contains(g.idx(gp.0, gp.1)),
        forall|i: int| #[trigger] exp.contains(i) ==> 0 <= i < nodes.len() && dset(nodes[i].dist),
        forall|i: int, q: Pos|
            #![trigger exp.contains(i), adjacent(upos(g, i), q)]
            exp.contains(i) && open_cell(g, q) && adjacent(upos(g, i), q) ==> dset(
                nodes[g.idx(q.0, q.1)].dist),
        forall|i: int|
            0 <= i < nodes.len() ==> ((#[trigger] nodes[i].expanded) <==> exp.contains(i)),
    ensures
        !reaches(g, cp, gp),
{
    reveal(inv_nodes);
    reveal(inv_entry_exists);
    let d = Set::new(|q: Pos| g.in_bounds(q.0, q.1) && dset(nodes[g.idx(q.0, q.1)].dist));
    lemma_flat_unflat(g, cp.0, cp.1);
    assert(d.contains(cp));
    assert forall|i: int|
        0 <= i < nodes.len() && dset(#[trigger] nodes[i].dist) implies exp.contains(i) by {}
    assert forall|u: Pos, r: Pos| #![trigger d.contains(u), adjacent(u, r)]
        d.contains(u) && open_cell(g, r) && adjacent(u, r) implies d.contains(r) by {
        let fu = g.idx(u.0, u.1);
        lemma_flat_unflat(g, u.0, u.1);
        lemma_flat_unflat(g, r.0, r.1);
        assert(exp.contains(fu));
        assert(adjacent(upos(g, fu), r));
    }
    if reaches(g, cp, gp) {
        let p = choose|p: Seq<Pos>| connects(g, p, cp, gp);
        lemma_no_escape(g, d, p, cp, gp);
        assert(d.contains(gp));
        lemma_flat_unflat(g, gp.0, gp.1);
        assert(exp.contains(g.idx(gp.0, gp.1)));
        assert(false);
    }
}

/// One relaxation: the node table is updated at the neighbor and a matching
/// entry is pushed, which preserves every table and queue invariant.
#[verifier::rlimit(100)]
proof fn lemma_relax_step(
    g: GridView,
    nodes0: Seq<AStarNode>,
    nodes1: Seq<AStarNode>,
    queue0: Seq<QueueEntry>,
    queue1: Seq<QueueEntry>,
    exp: Set<int>,
    h: Heuristic,
    cp: Pos,
    gp: Pos,
    upair: (usize, usize),
    wpair: (usize, usize),
    entry: QueueEntry,
    ei: int,
)
    requires
        inv_nodes(g, nodes0, cp),
        inv_sound(g, nodes0, cp),
        inv_dist_bound(nodes0, exp),
        inv_queue(g, nodes0, queue0, h, gp),
        inv_entry_exists(g, nodes0, queue0, exp),
        forall|i: int|
            0 <= i < nodes0.len() ==> ((#[trigger] nodes0[i].expanded) <==> exp.contains(i)),
        forall|i: int|
            #[trigger] exp.contains(i) ==> 0 <= i < nodes0.len() && dset(nodes0[i].dist)
                && shortest_len(g, cp, upos(g, i), dval(nodes0[i].dist)),
        forall|i: int, q: Pos|
            #![trigger exp.contains(i), adjacent(upos(g, i), q)]
            exp.contains(i) && i != ei && open_cell(g, q) && adjacent(upos(g, i), q) ==> dset(
                nodes0[g.idx(q.0, q.1)].dist) && dval(nodes0[g.idx(q.0, q.1)].dist) <= dval(
                nodes0[i].dist) + 1,
        open_cell(g, pos_int(upair)),
        open_cell(g, pos_int(wpair)),
        adjacent(pos_int(upair), pos_int(wpair)),
        pos_int(wpair) != cp,
        exp.contains(g.idx(pos_int(upair).0, pos_int(upair).1)),
        dset(nodes0[g.idx(pos_int(upair).0, pos_int(upair).1)].dist),
        !exp.contains(g.idx(pos_int(wpair).0, pos_int(wpair).1)),
        !dset(nodes0[g.idx(pos_int(wpair).0, pos_int(wpair).1)].dist) || dval(
            nodes0[g.idx(pos_int(upair).0, pos_int(upair).1)].dist) + 1 < dval(
            nodes0[g.idx(pos_int(wpair).0, pos_int(wpair).1)].dist),
        entry.pos == wpair,
        entry.dist == dval(nodes0[g.idx(pos_int(upair).0, pos_int(upair).1)].dist) + 1,
        entry.dist <= exp.len(),
        entry.guessed as int == entry.dist + h.h_spec(pos_int(wpair), gp),
        entry.depth == nodes0[g.idx(pos_int(upair).0, pos_int(upair).1)].depth + 1,
        nodes1 == nodes0.update(
            g.idx(pos_int(wpair).0, pos_int(wpair).1),
            AStarNode {
                predecessor: Some(upair),
                dist: Some(entry.dist),
                depth: entry.depth,
                expanded: false,
            },
        ),
        queue1 == queue0.push(entry),
    ensures
        inv_nodes(g, nodes1, cp),
        inv_sound(g, nodes1, cp),
        inv_dist_bound(nodes1, exp),
        inv_queue(g, nodes1, queue1, h, gp),
        inv_entry_exists(g, nodes1, queue1, exp),
        forall|i: int|
            0 <= i < nodes1.len() ==> ((#[trigger] nodes1[i].expanded) <==> exp.contains(i)),
        forall|i: int|
            #[trigger] exp.contains(i) ==> 0 <= i < nodes1.len() && dset(nodes1[i].dist)
                && shortest_len(g, cp, upos(g, i), dval(nodes1[i].dist)),
        forall|i: int, q: Pos|
            #![trigger exp.contains(i), adjacent(upos(g, i), q)]
            exp.contains(i) && i != ei && open_cell(g, q) && adjacent(upos(g, i), q) ==> dset(
                nodes1[g.idx(q.0, q.1)].dist) && dval(nodes1[g.idx(q.0, q.1)].dist) <= dval(
                nodes1[i].dist) + 1,
        // distances only tighten
        forall|i: int|
            0 <= i < nodes0.len() && dset(#[trigger] nodes0[i].dist) ==> dset(nodes1[i].dist)
                && dval(nodes1[i].dist) <= dval(nodes0[i].dist),
{
    reveal(inv_nodes);
    reveal(inv_sound);
    reveal(inv_dist_bound);
    reveal(inv_queue);
    reveal(inv_entry_exists);
    let up = pos_int(upair);
    let wp = pos_int(wpair);
    let fu = g.idx(up.0, up.1);
    let fw = g.idx(wp.0, wp.1);
    lemma_flat_unflat(g, up.0, up.1);
    lemma_flat_unflat(g, wp.0, wp.1);
    let ci = g.idx(cp.0, cp.1);
    lemma_flat_unflat(g, cp.0, cp.1);
    assert(fw != ci);
    assert(fu != fw);
    assert(inv_nodes(g, nodes1, cp)) by {
        assert forall|i: int|
            0 <= i < nodes1.len() && dset(#[trigger] nodes1[i].dist) implies open_cell(
            g, upos(g, i)) && nodes1[i].depth <= dval(nodes1[i].dist) by {
            if i != fw {
                assert(nodes1[i] == nodes0[i]);
            }
        }
        assert forall|i: int|
            0 <= i < nodes1.len() && dset(#[trigger] nodes1[i].dist) && i != ci
            implies match nodes1[i].predecessor {
            Some(q) => {
                &&& open_cell(g, pos_int(q))
                &&& adjacent(pos_int(q), upos(g, i))
                &&& dset(nodes1[g.idx(q.0 as int, q.1 as int)].dist)
                &&& dval(nodes1[g.idx(q.0 as int, q.1 as int)].dist) < dval(nodes1[i].dist)
            },
            None => false,
        } by {
            if i == fw {
                assert(nodes1[fw].predecessor == Some(upair));
                assert(nodes1[fu] == nodes0[fu]);
                assert(upos(g, fw) == wp);
            } else {
                assert(nodes1[i] == nodes0[i]);
                match nodes0[i].predecessor {
                    Some(q) => {
                        let fq = g.idx(q.0 as int, q.1 as int);
                        if fq == fw {
                            assert(dval(nodes1[fq].dist) <= dval(nodes0[fq].dist));
                        } else {
                            assert(nodes1[fq] == nodes0[fq]);
                        }
                    },
                    None => {},
                }
            }
        }
    }
    assert(inv_sound(g, nodes1, cp)) by {
        assert forall|i: int|
            0 <= i < nodes1.len() && dset(#[trigger] nodes1[i].dist) implies exists|p: Seq<Pos>|
            connects(g, p, cp, upos(g, i)) && p.len() <= dval(nodes1[i].dist) + 1 by {
            if i == fw {
                let pu = choose|p: Seq<Pos>|
                    connects(g, p, cp, upos(g, fu)) && p.len() <= dval(nodes0[fu].dist) + 1;
                lemma_path_push(g, pu, cp, up, wp);
                assert(connects(g, pu.push(wp), cp, upos(g, i)) && pu.push(wp).len() <= dval(
                    nodes1[i].dist) + 1);
            } else {
                assert(nodes1[i] == nodes0[i]);
            }
        }
    }
    assert(inv_dist_bound(nodes1, exp)) by {
        assert forall|i: int|
            0 <= i < nodes1.len() && dset(#[trigger] nodes1[i].dist) implies dval(nodes1[i].dist)
            <= exp.len() by {
            if i != fw {
                assert(nodes1[i] == nodes0[i]);
            }
        }
    }
    assert(inv_queue(g, nodes1, queue1, h, gp)) by {
        assert forall|j: int| 0 <= j < queue1.len() implies {
            let en = #[trigger] queue1[j];
            &&& open_cell(g, pos_int(en.pos))
            &&& dset(nodes1[g.idx(en.pos.0 as int, en.pos.1 as int)].dist)
            &&& dval(nodes1[g.idx(en.pos.0 as int, en.pos.1 as int)].dist) <= en.dist
            &&& en.guessed as int == en.dist + h.h_spec(pos_int(en.pos), gp)
        } by {
            if j < queue0.len() {
                assert(queue1[j] == queue0[j]);
                let en = queue0[j];
                let fe = g.idx(en.pos.0 as int, en.pos.1 as int);
                if fe == fw {
                    assert(dval(nodes1[fe].dist) <= dval(nodes0[fe].dist));
                } else {
                    assert(nodes1[fe] == nodes0[fe]);
                }
            } else {
                assert(queue1[j] == entry);
            }
        }
    }
    assert(inv_entry_exists(g, nodes1, queue1, exp)) by {
        assert forall|i: int|
            0 <= i < nodes1.len() && dset(#[trigger] nodes1[i].dist) && !exp.contains(i)
            implies exists|j: int|
            0 <= j < queue1.len() && pos_int((#[trigger] queue1[j]).pos) == upos(g, i)
                && queue1[j].dist == dval(nodes1[i].dist) by {
            if i == fw {
                assert(pos_int(queue1[queue1.len() - 1].pos) == upos(g, i) && queue1[queue1.len()
                    - 1].dist == dval(nodes1[i].dist));
            } else {
                assert(nodes1[i] == nodes0[i]);
                let j0 = choose|j: int|
                    0 <= j < queue0.len() && pos_int((#[trigger] queue0[j]).pos) == upos(g, i)
                        && queue0[j].dist == dval(nodes0[i].dist);
                assert(queue1[j0] == queue0[j0]);
            }
        }
    }
    assert forall|i: int| #[trigger]
        exp.contains(i) implies 0 <= i < nodes1.len() && dset(nodes1[i].dist) && shortest_len(
        g,
        cp,
        upos(g, i),
        dval(nodes1[i].dist),
    ) by {
        assert(i != fw);
        assert(nodes1[i] == nodes0[i]);
    }
    assert forall|i: int, q: Pos|
        #![trigger exp.contains(i), adjacent(upos(g, i), q)]
        exp.contains(i) && i != ei && open_cell(g, q) && adjacent(upos(g, i), q) implies dset(
        nodes1[g.idx(q.0, q.1)].dist) && dval(nodes1[g.idx(q.0, q.1)].dist) <= dval(
        nodes1[i].dist) + 1 by {
        assert(i != fw);
        assert(nodes1[i] == nodes0[i]);
        let fq = g.idx(q.0, q.1);
        if fq == fw {
            assert(dval(nodes1[fq].dist) <= dval(nodes0[fq].dist));
        } else {
            assert(nodes1[fq] == nodes0[fq]);
        }
    }
    assert forall|i: int|
        0 <= i < nodes0.len() && dset(#[trigger] nodes0[i].dist) implies dset(nodes1[i].dist)
        && dval(nodes1[i].dist) <= dval(nodes0[i].dist) by {
        if i != fw {
            assert(nodes1[i] == nodes0[i]);
        }
    }
}


} // verus!
 