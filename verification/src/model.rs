use vstd::prelude::*;

use crate::content::Content;

verus! {

/// The abstract state of a grid: row-major cell contents plus the tracked
/// car and goal positions. Positions are `(column, row)` pairs.
pub ghost struct GridView {
    pub rows: int,
    pub cols: int,
    pub cells: Seq<Content>,
    pub car: Option<(int, int)>,
    pub goal: Option<(int, int)>,
}

pub open spec fn pos_view(p: Option<(usize, usize)>) -> Option<(int, int)> {
    match p {
        Some(q) => Some((q.0 as int, q.1 as int)),
        None => None,
    }
}

impl GridView {
    pub open spec fn in_bounds(self, x: int, y: int) -> bool {
        0 <= x < self.cols && 0 <= y < self.rows
    }

    /// Row-major offset of position `(x, y)`.
    pub open spec fn idx(self, x: int, y: int) -> int {
        y * self.cols + x
    }

    pub open spec fn at(self, x: int, y: int) -> Content {
        self.cells[self.idx(x, y)]
    }

    /// The cell store has one entry per position and the whole grid is
    /// addressable by `usize` offsets.
    pub open spec fn dims_ok(self) -> bool {
        &&& 1 <= self.rows
        &&& 1 <= self.cols
        &&& self.cells.len() == self.rows * self.cols
        &&& self.rows * self.cols <= usize::MAX
    }

    /// `pos` records exactly where content `c` sits: if a position is
    /// recorded, that cell holds `c`, and no other cell does; if none is
    /// recorded, no cell holds `c`.
    pub open spec fn tracks(self, pos: Option<(int, int)>, c: Content) -> bool {
        &&& match pos {
            Some(p) => self.in_bounds(p.0, p.1) && self.at(p.0, p.1) == c,
            None => true,
        }
        &&& forall|x: int, y: int|
            self.in_bounds(x, y) && #[trigger] self.at(x, y) == c ==> pos == Some((x, y))
    }

    pub open spec fn wf(self) -> bool {
        &&& self.dims_ok()
        &&& self.tracks(self.car, Content::Car)
        &&& self.tracks(self.goal, Content::Goal)
    }

    /// The grid with the cell at `(x, y)` overwritten by `c`; the tracked
    /// positions are left as they are.
    pub open spec fn put(self, x: int, y: int, c: Content) -> GridView {
        GridView { cells: self.cells.update(self.idx(x, y), c), ..self }
    }
}

pub broadcast proof fn lemma_idx_bounds(v: GridView, x: int, y: int)
    requires
        v.cells.len() == v.rows * v.cols,
        v.in_bounds(x, y),
    ensures
        0 <= #[trigger] v.idx(x, y) < v.cells.len(),
{
    assert(y * v.cols + x < v.rows * v.cols) by (nonlinear_arith)
        requires 0 <= x < v.cols && 0 <= y < v.rows;
    assert(0 <= y * v.cols + x) by (nonlinear_arith)
        requires 0 <= x && 0 <= y && 0 <= v.cols;
}

/// Distinct in-bounds positions have distinct row-major offsets.
pub broadcast proof fn lemma_idx_injective(v: GridView, x1: int, y1: int, x2: int, y2: int)
    requires
        v.in_bounds(x1, y1),
        v.in_bounds(x2, y2),
    ensures
        #[trigger] v.idx(x1, y1) == #[trigger] v.idx(x2, y2) ==> (x1 == x2 && y1 == y2),
{
    if v.idx(x1, y1) == v.idx(x2, y2) {
        assert(y1 == y2 && x1 == x2) by (nonlinear_arith)
            requires
                0 <= x1 < v.cols,
                0 <= x2 < v.cols,
                y1 * v.cols + x1 == y2 * v.cols + x2;
    }
}

/// Reading back after `put`: the written position holds `c`, every other
/// position is unchanged.
pub broadcast proof fn lemma_put_at(v: GridView, x: int, y: int, c: Content, x2: int, y2: int)
    requires
        v.cells.len() == v.rows * v.cols,
        v.in_bounds(x, y),
        v.in_bounds(x2, y2),
    ensures
        #[trigger] v.put(x, y, c).at(x2, y2) == if x2 == x && y2 == y {
            c
        } else {
            v.at(x2, y2)
        },
{
    broadcast use lemma_idx_bounds, lemma_idx_injective;

}

/// The grid after `set_wall(x, y)`: the cell becomes a wall; a car or goal
/// that sat there is demoted (its tracked position is cleared).
pub open spec fn set_wall_model(v: GridView, x: int, y: int) -> GridView {
    let v1 = GridView {
        car: if v.at(x, y) == Content::Car {
            None
        } else {
            v.car
        },
        goal: if v.at(x, y) == Content::Goal {
            None
        } else {
            v.goal
        },
        ..v
    };
    v1.put(x, y, Content::Wall)
}

/// The grid after `set_empty(x, y)`: the cell becomes empty; a car or goal
/// that sat there is demoted.
pub open spec fn set_empty_model(v: GridView, x: int, y: int) -> GridView {
    let v1 = GridView {
        car: if v.at(x, y) == Content::Car {
            None
        } else {
            v.car
        },
        goal: if v.at(x, y) == Content::Goal {
            None
        } else {
            v.goal
        },
        ..v
    };
    v1.put(x, y, Content::Empty)
}

/// The grid after `set_goal(x, y)`: a no-op if the cell already holds the
/// goal; otherwise the cell becomes the goal (demoting a car that sat there)
/// and the previous goal cell, if any, becomes empty.
pub open spec fn set_goal_model(v: GridView, x: int, y: int) -> GridView {
    if v.at(x, y) == Content::Goal {
        v
    } else {
        let v1 = GridView {
            car: if v.at(x, y) == Content::Car {
                None
            } else {
                v.car
            },
            ..v
        };
        let v2 = v1.put(x, y, Content::Goal);
        let v3 = match v.goal {
            Some(g) => v2.put(g.0, g.1, Content::Empty),
            None => v2,
        };
        GridView { goal: Some((x, y)), ..v3 }
    }
}

/// The grid after `set_car(x, y)`: symmetric to `set_goal_model`.
pub open spec fn set_car_model(v: GridView, x: int, y: int) -> GridView {
    if v.at(x, y) == Content::Car {
        v
    } else {
        let v1 = GridView {
            goal: if v.at(x, y) == Content::Goal {
                None
            } else {
                v.goal
            },
            ..v
        };
        let v2 = v1.put(x, y, Content::Car);
        let v3 = match v.car {
            Some(c) => v2.put(c.0, c.1, Content::Empty),
            None => v2,
        };
        GridView { car: Some((x, y)), ..v3 }
    }
}


/// After overwriting cell `(x, y)` with `c` and clearing any tracked
/// position that sat at `(x, y)`, the tracking of `tc` is intact in any view
/// `w` holding the updated cells, provided the written content is not `tc`.
proof fn lemma_demote_tracks(
    v: GridView,
    x: int,
    y: int,
    c: Content,
    pos: Option<(int, int)>,
    tc: Content,
    w: GridView,
)
    requires
        v.dims_ok(),
        v.in_bounds(x, y),
        v.tracks(pos, tc),
        c != tc,
        w.rows == v.rows,
        w.cols == v.cols,
        w.cells == v.put(x, y, c).cells,
    ensures
        w.tracks(if v.at(x, y) == tc { None } else { pos }, tc),
{
    broadcast use lemma_idx_bounds, lemma_idx_injective;

    let npos = if v.at(x, y) == tc { Option::<(int, int)>::None } else { pos };
    assert forall|x2: int, y2: int|
        w.in_bounds(x2, y2) && #[trigger] w.at(x2, y2) == tc implies npos == Some((x2, y2)) by {
        lemma_put_at(v, x, y, c, x2, y2);
        assert(w.at(x2, y2) == v.put(x, y, c).at(x2, y2));
        if (x2, y2) != (x, y) {
            assert(v.at(x2, y2) == tc);
        }
    }
    match npos {
        Some(p) => {
            lemma_put_at(v, x, y, c, p.0, p.1);
            assert(w.at(p.0, p.1) == v.put(x, y, c).at(p.0, p.1));
        },
        None => {},
    }
}


/// Writing a non-tracked content over a cell that holds no tracked content
/// keeps the grid well-formed and its tracked positions unchanged.
pub proof fn lemma_put_nontracked_wf(v: GridView, x: int, y: int, c: Content)
    requires
        v.wf(),
        v.in_bounds(x, y),
        v.at(x, y) != Content::Car,
        v.at(x, y) != Content::Goal,
        c != Content::Car,
        c != Content::Goal,
    ensures
        v.put(x, y, c).wf(),
{
    broadcast use lemma_idx_bounds;

    lemma_demote_tracks(v, x, y, c, v.car, Content::Car, v.put(x, y, c));
    lemma_demote_tracks(v, x, y, c, v.goal, Content::Goal, v.put(x, y, c));
}

pub proof fn lemma_set_wall_wf(v: GridView, x: int, y: int)
    requires
        v.wf(),
        v.in_bounds(x, y),
    ensures
        set_wall_model(v, x, y).wf(),
{
    broadcast use lemma_idx_bounds;

    let w = set_wall_model(v, x, y);
    lemma_demote_tracks(v, x, y, Content::Wall, v.car, Content::Car, w);
    lemma_demote_tracks(v, x, y, Content::Wall, v.goal, Content::Goal, w);
}

pub proof fn lemma_set_empty_wf(v: GridView, x: int, y: int)
    requires
        v.wf(),
        v.in_bounds(x, y),
    ensures
        set_empty_model(v, x, y).wf(),
{
    broadcast use lemma_idx_bounds;

    let w = set_empty_model(v, x, y);
    lemma_demote_tracks(v, x, y, Content::Empty, v.car, Content::Car, w);
    lemma_demote_tracks(v, x, y, Content::Empty, v.goal, Content::Goal, w);
}

pub proof fn lemma_set_goal_wf(v: GridView, x: int, y: int)
    requires
        v.wf(),
        v.in_bounds(x, y),
    ensures
        set_goal_model(v, x, y).wf(),
{
    broadcast use lemma_idx_bounds, lemma_idx_injective;

    if v.at(x, y) == Content::Goal {
    } else {
        let v1 = GridView {
            car: if v.at(x, y) == Content::Car { None } else { v.car },
            ..v
        };
        let v2 = v1.put(x, y, Content::Goal);
        let v3 = match v.goal {
            Some(g) => v2.put(g.0, g.1, Content::Empty),
            None => v2,
        };
        let w = GridView { goal: Some((x, y)), ..v3 };

        // goal tracking: (x, y) holds the goal ...
        lemma_put_at(v1, x, y, Content::Goal, x, y);
        match v.goal {
            Some(g) => {
                lemma_put_at(v2, g.0, g.1, Content::Empty, x, y);
            },
            None => {},
        }
        assert(w.at(x, y) == Content::Goal);

        // ... and no other cell does
        assert forall|x2: int, y2: int|
            w.in_bounds(x2, y2) && #[trigger] w.at(x2, y2) == Content::Goal
            implies (x2, y2) == (x, y) by {
            if (x2, y2) != (x, y) {
                match v.goal {
                    Some(g) => {
                        lemma_put_at(v2, g.0, g.1, Content::Empty, x2, y2);
                        if (x2, y2) != g {
                            lemma_put_at(v1, x, y, Content::Goal, x2, y2);
                            assert(v.at(x2, y2) == Content::Goal);
                            assert(false);
                        }
                    },
                    None => {
                        lemma_put_at(v1, x, y, Content::Goal, x2, y2);
                        assert(v.at(x2, y2) == Content::Goal);
                        assert(false);
                    },
                }
            }
        }

        // car tracking survives both cell writes
        let ncar = if v.at(x, y) == Content::Car { Option::<(int, int)>::None } else { v.car };
        assert forall|x2: int, y2: int|
            w.in_bounds(x2, y2) && #[trigger] w.at(x2, y2) == Content::Car
            implies ncar == Some((x2, y2)) by {
            match v.goal {
                Some(g) => {
                    lemma_put_at(v2, g.0, g.1, Content::Empty, x2, y2);
                },
                None => {},
            }
            lemma_put_at(v1, x, y, Content::Goal, x2, y2);
            assert(v.at(x2, y2) == Content::Car);
            if v.at(x, y) == Content::Car {
                assert(v.car == Some((x, y)));
                assert((x2, y2) == (x, y));
                assert(false);
            }
        }
        match ncar {
            Some(p) => {
                lemma_put_at(v1, x, y, Content::Goal, p.0, p.1);
                match v.goal {
                    Some(g) => {
                        lemma_put_at(v2, g.0, g.1, Content::Empty, p.0, p.1);
                    },
                    None => {},
                }
                assert(w.at(p.0, p.1) == Content::Car);
            },
            None => {},
        }
    }
}

pub proof fn lemma_set_car_wf(v: GridView, x: int, y: int)
    requires
        v.wf(),
        v.in_bounds(x, y),
    ensures
        set_car_model(v, x, y).wf(),
{
    broadcast use lemma_idx_bounds, lemma_idx_injective;

    if v.at(x, y) == Content::Car {
    } else {
        let v1 = GridView {
            goal: if v.at(x, y) == Content::Goal { None } else { v.goal },
            ..v
        };
        let v2 = v1.put(x, y, Content::Car);
        let v3 = match v.car {
            Some(c) => v2.put(c.0, c.1, Content::Empty),
            None => v2,
        };
        let w = GridView { car: Some((x, y)), ..v3 };

        // car tracking: (x, y) holds the car ...
        lemma_put_at(v1, x, y, Content::Car, x, y);
        match v.car {
            Some(c) => {
                lemma_put_at(v2, c.0, c.1, Content::Empty, x, y);
            },
            None => {},
        }
        assert(w.at(x, y) == Content::Car);

        // ... and no other cell does
        assert forall|x2: int, y2: int|
            w.in_bounds(x2, y2) && #[trigger] w.at(x2, y2) == Content::Car
            implies (x2, y2) == (x, y) by {
            if (x2, y2) != (x, y) {
                match v.car {
                    Some(c) => {
                        lemma_put_at(v2, c.0, c.1, Content::Empty, x2, y2);
                        if (x2, y2) != c {
                            lemma_put_at(v1, x, y, Content::Car, x2, y2);
                            assert(v.at(x2, y2) == Content::Car);
                            assert(false);
                        }
                    },
                    None => {
                        lemma_put_at(v1, x, y, Content::Car, x2, y2);
                        assert(v.at(x2, y2) == Content::Car);
                        assert(false);
                    },
                }
            }
        }

        // goal tracking survives both cell writes
        let ngoal = if v.at(x, y) == Content::Goal { Option::<(int, int)>::None } else { v.goal };
        assert forall|x2: int, y2: int|
            w.in_bounds(x2, y2) && #[trigger] w.at(x2, y2) == Content::Goal
            implies ngoal == Some((x2, y2)) by {
            match v.car {
                Some(c) => {
                    lemma_put_at(v2, c.0, c.1, Content::Empty, x2, y2);
                },
                None => {},
            }
            lemma_put_at(v1, x, y, Content::Car, x2, y2);
            assert(v.at(x2, y2) == Content::Goal);
            if v.at(x, y) == Content::Goal {
                assert(v.goal == Some((x, y)));
                assert((x2, y2) == (x, y));
                assert(false);
            }
        }
        match ngoal {
            Some(p) => {
                lemma_put_at(v1, x, y, Content::Car, p.0, p.1);
                match v.car {
                    Some(c) => {
                        lemma_put_at(v2, c.0, c.1, Content::Empty, p.0, p.1);
                    },
                    None => {},
                }
                assert(w.at(p.0, p.1) == Content::Goal);
            },
            None => {},
        }
    }
}


/// A tracked position survives a resize only if it still lies within the
/// new bounds.
pub open spec fn drop_if_outside(p: Option<(int, int)>, n2: int, m2: int) -> Option<(int, int)> {
    match p {
        Some(q) => if q.0 < n2 && q.1 < m2 {
            p
        } else {
            None
        },
        None => None,
    }
}

/// The grid after `set_height(m2)`: shrinking truncates whole rows and
/// invalidates a car or goal that falls outside; growing appends empty rows.
pub open spec fn set_height_model(v: GridView, m2: int) -> GridView {
    if m2 == v.rows {
        v
    } else if m2 < v.rows {
        GridView {
            rows: m2,
            cells: v.cells.subrange(0, m2 * v.cols),
            car: drop_if_outside(v.car, v.cols, m2),
            goal: drop_if_outside(v.goal, v.cols, m2),
            ..v
        }
    } else {
        GridView {
            rows: m2,
            cells: v.cells + Seq::new(((m2 - v.rows) * v.cols) as nat, |i: int| Content::Empty),
            ..v
        }
    }
}

/// The grid after `set_width(n2)`: each row is truncated or padded with
/// empty cells; a car or goal cut off is invalidated.
pub open spec fn set_width_model(v: GridView, n2: int) -> GridView {
    if n2 == v.cols {
        v
    } else {
        GridView {
            cols: n2,
            cells: Seq::new(
                (v.rows * n2) as nat,
                |i: int|
                    if i % n2 < v.cols {
                        v.at(i % n2, i / n2)
                    } else {
                        Content::Empty
                    },
            ),
            car: drop_if_outside(v.car, n2, v.rows),
            goal: drop_if_outside(v.goal, n2, v.rows),
            ..v
        }
    }
}

/// Reading back after `set_height`: rows below the new height keep their
/// cells; appended rows are empty.
pub proof fn lemma_height_at(v: GridView, m2: int, x2: int, y2: int)
    requires
        v.dims_ok(),
        1 <= m2,
        0 <= x2 < v.cols,
        0 <= y2 < m2,
    ensures
        set_height_model(v, m2).at(x2, y2) == if y2 < v.rows {
            v.at(x2, y2)
        } else {
            Content::Empty
        },
{
    let w = set_height_model(v, m2);
    if m2 == v.rows {
    } else if m2 < v.rows {
        assert(0 <= y2 * v.cols + x2 < m2 * v.cols) by (nonlinear_arith)
            requires 0 <= x2 < v.cols && 0 <= y2 < m2 && 1 <= v.cols;
        assert(m2 * v.cols <= v.rows * v.cols) by (nonlinear_arith)
            requires m2 <= v.rows && 1 <= v.cols;
    } else {
        if y2 < v.rows {
            lemma_idx_bounds(v, x2, y2);
        } else {
            let j = y2 * v.cols + x2 - v.rows * v.cols;
            assert(0 <= j < (m2 - v.rows) * v.cols) by (nonlinear_arith)
                requires
                    0 <= x2 < v.cols,
                    v.rows <= y2 < m2,
                    1 <= v.cols,
                    j == y2 * v.cols + x2 - v.rows * v.cols;
            assert(w.cells[y2 * v.cols + x2]
                == Seq::new(((m2 - v.rows) * v.cols) as nat, |i: int| Content::Empty)[j]);
        }
    }
}

/// Reading back after `set_width`: columns below the new width keep their
/// cells; appended columns are empty.
pub proof fn lemma_width_at(v: GridView, n2: int, x2: int, y2: int)
    requires
        v.dims_ok(),
        1 <= n2,
        0 <= x2 < n2,
        0 <= y2 < v.rows,
    ensures
        set_width_model(v, n2).at(x2, y2) == if x2 < v.cols {
            v.at(x2, y2)
        } else {
            Content::Empty
        },
{
    if n2 == v.cols {
    } else {
        let i = y2 * n2 + x2;
        assert(0 <= i < v.rows * n2) by (nonlinear_arith)
            requires 0 <= x2 < n2 && 0 <= y2 < v.rows && 1 <= n2 && i == y2 * n2 + x2;
        crate::model::div_mod_of_flat(i, n2, y2, x2);
    }
}

/// Row-major decomposition: the offset `y * n + x` splits back into `y`
/// and `x` under division by the row width.
pub proof fn div_mod_of_flat(i: int, n: int, y: int, x: int)
    requires
        1 <= n,
        0 <= x < n,
        i == y * n + x,
    ensures
        i / n == y,
        i % n == x,
{
    vstd::arithmetic::div_mod::lemma_fundamental_div_mod_converse(i, n, y, x);
}

pub proof fn lemma_set_height_wf(v: GridView, m2: int)
    requires
        v.wf(),
        1 <= m2,
        m2 * v.cols <= usize::MAX,
    ensures
        set_height_model(v, m2).wf(),
{
    let w = set_height_model(v, m2);
    assert(w.cells.len() == w.rows * w.cols) by {
        if m2 > v.rows {
            assert(0 <= (m2 - v.rows) * v.cols && v.rows * v.cols + (m2 - v.rows) * v.cols
                == m2 * v.cols) by (nonlinear_arith)
                requires v.rows < m2 && 1 <= v.cols;
        } else if m2 < v.rows {
            assert(0 <= m2 * v.cols <= v.rows * v.cols) by (nonlinear_arith)
                requires 1 <= m2 <= v.rows && 1 <= v.cols;
        }
    }
    assert(1 <= w.rows * w.cols) by (nonlinear_arith)
        requires 1 <= w.rows && 1 <= w.cols;
    lemma_resize_tracks(v, w, v.car, Content::Car);
    lemma_resize_tracks(v, w, v.goal, Content::Goal);
    assert(w.car == drop_if_outside(v.car, w.cols, w.rows));
    assert(w.goal == drop_if_outside(v.goal, w.cols, w.rows));
}

pub proof fn lemma_set_width_wf(v: GridView, n2: int)
    requires
        v.wf(),
        1 <= n2,
        v.rows * n2 <= usize::MAX,
    ensures
        set_width_model(v, n2).wf(),
{
    let w = set_width_model(v, n2);
    assert(w.cells.len() == w.rows * w.cols);
    assert(1 <= w.rows * w.cols) by (nonlinear_arith)
        requires 1 <= w.rows && 1 <= w.cols;
    lemma_resize_tracks(v, w, v.car, Content::Car);
    lemma_resize_tracks(v, w, v.goal, Content::Goal);
    assert(w.car == drop_if_outside(v.car, w.cols, w.rows));
    assert(w.goal == drop_if_outside(v.goal, w.cols, w.rows));
}

/// Tracking survives a resize in either dimension: the kept region holds the
/// old cells and any new region is empty.
proof fn lemma_resize_tracks(v: GridView, w: GridView, pos: Option<(int, int)>, tc: Content)
    requires
        v.dims_ok(),
        w.dims_ok(),
        v.tracks(pos, tc),
        tc != Content::Empty,
        w == set_height_model(v, w.rows) || w == set_width_model(v, w.cols),
        w == set_height_model(v, w.rows) ==> w.cols == v.cols,
        w == set_width_model(v, w.cols) ==> w.rows == v.rows,
    ensures
        w.tracks(drop_if_outside(pos, w.cols, w.rows), tc),
{
    let npos = drop_if_outside(pos, w.cols, w.rows);
    assert forall|x2: int, y2: int|
        w.in_bounds(x2, y2) && #[trigger] w.at(x2, y2) == tc implies npos == Some((x2, y2)) by {
        if w == set_height_model(v, w.rows) && w.cols == v.cols {
            lemma_height_at(v, w.rows, x2, y2);
        } else {
            lemma_width_at(v, w.cols, x2, y2);
        }
        assert(v.in_bounds(x2, y2) && v.at(x2, y2) == tc);
    }
    match npos {
        Some(p) => {
            if w == set_height_model(v, w.rows) && w.cols == v.cols {
                lemma_height_at(v, w.rows, p.0, p.1);
            } else {
                lemma_width_at(v, w.cols, p.0, p.1);
            }
        },
        None => {},
    }
}


/// The position a row-major offset denotes.
pub open spec fn upos(g: GridView, i: int) -> (int, int) {
    (i % g.cols, i / g.cols)
}

/// Flattening a position and reading it back.
pub broadcast proof fn lemma_flat_unflat(g: GridView, x: int, y: int)
    requires
        g.dims_ok(),
        g.in_bounds(x, y),
    ensures
        0 <= #[trigger] g.idx(x, y) < g.rows * g.cols,
        upos(g, g.idx(x, y)) == (x, y),
{
    lemma_idx_bounds(g, x, y);
    div_mod_of_flat(g.idx(x, y), g.cols, y, x);
}

/// Reading a position off an offset and flattening it back.
pub broadcast proof fn lemma_unflat_flat(g: GridView, i: int)
    requires
        g.dims_ok(),
        0 <= i < g.rows * g.cols,
    ensures
        g.in_bounds(#[trigger] upos(g, i).0, upos(g, i).1),
        g.idx(upos(g, i).0, upos(g, i).1) == i,
{
    vstd::arithmetic::div_mod::lemma_fundamental_div_mod(i, g.cols);
    vstd::arithmetic::div_mod::lemma_mod_pos_bound(i, g.cols);
    let q = i / g.cols;
    let r = i % g.cols;
    assert(q < g.rows && q * g.cols + r == i) by (nonlinear_arith)
        requires
            0 <= i < g.rows * g.cols,
            1 <= g.cols,
            i == g.cols * q + r,
            0 <= r < g.cols;
}

/// The state `Grid::new` produces: all cells empty, nothing tracked.
pub open spec fn new_grid_view(m: int, n: int) -> GridView {
    GridView {
        rows: m,
        cols: n,
        cells: Seq::new((m * n) as nat, |i: int| Content::Empty),
        car: None,
        goal: None,
    }
}


} // verus!
