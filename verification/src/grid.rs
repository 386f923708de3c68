use vstd::prelude::*;

use crate::content::Content;
use crate::model::{GridView, pos_view, new_grid_view, set_wall_model, set_empty_model,
    set_goal_model, set_car_model, lemma_idx_bounds, lemma_idx_injective, lemma_put_at,
    upos, lemma_flat_unflat, lemma_unflat_flat,
    lemma_set_wall_wf, lemma_set_empty_wf, lemma_set_goal_wf, lemma_set_car_wf,
    set_height_model, set_width_model, drop_if_outside, lemma_set_height_wf, lemma_set_width_wf};

verus! {

broadcast use lemma_idx_bounds, lemma_idx_injective, lemma_put_at;

/// The refusals an editing layer may report when it declines to overwrite
/// the car or the goal.
#[derive(Clone, Copy, PartialEq, Eq, Structural, Debug)]
pub enum GridError {
    OverwriteCar,
    OverwriteGoal,
}

impl GridError {
    /// A short description for a status line.
    pub fn message(&self) -> (s: &'static str)
        ensures
            s@ == (match self {
                GridError::OverwriteCar => "Tried to overwrite the Car"@,
                GridError::OverwriteGoal => "Tried to overwrite the Goal"@,
            }),
    {
        match self {
            GridError::OverwriteCar => "Tried to overwrite the Car",
            GridError::OverwriteGoal => "Tried to overwrite the Goal",
        }
    }
}

/// A rectangular grid of cells with at most one tracked car position and at
/// most one tracked goal position. The concrete store is a row-major `Vec`.
pub struct Grid {
    pub(crate) rows: usize,
    pub(crate) cols: usize,
    pub(crate) cells: Vec<Content>,
    pub(crate) car: Option<(usize, usize)>,
    pub(crate) goal: Option<(usize, usize)>,
}

impl View for Grid {
    type V = GridView;

    closed spec fn view(&self) -> GridView {
        GridView {
            rows: self.rows as int,
            cols: self.cols as int,
            cells: self.cells@,
            car: pos_view(self.car),
            goal: pos_view(self.goal),
        }
    }
}

impl Grid {
    /// A fresh `m` by `n` grid of empty cells. Both dimensions must be at
    /// least 1; the cell count must be addressable.
    pub fn new(m: usize, n: usize) -> (g: Grid)
        requires
            1 <= m,
            1 <= n,
            m * n <= usize::MAX,
        ensures
            g@ == new_grid_view(m as int, n as int),
            g@.wf(),
    {
        let count = m * n;
        let mut cells: Vec<Content> = Vec::new();
        while cells.len() < count
            invariant
                cells.len() <= count,
                forall|i: int| 0 <= i < cells.len() ==> cells@[i] == Content::Empty,
            decreases count - cells.len(),
        {
            cells.push(Content::Empty);
        }
        let g = Grid { rows: m, cols: n, cells, car: None, goal: None };
        proof {
            broadcast use lemma_idx_bounds;

            assert(g@.cells =~= new_grid_view(m as int, n as int).cells);
            assert forall|x: int, y: int| g@.in_bounds(x, y) implies #[trigger] g@.at(x, y)
                == Content::Empty by {}
        }
        g
    }

    /// Number of rows.
    pub fn m(&self) -> (r: usize)
        ensures
            r == self@.rows,
    {
        self.rows
    }

    /// Number of columns.
    pub fn n(&self) -> (r: usize)
        ensures
            r == self@.cols,
    {
        self.cols
    }

    pub fn has_car(&self) -> (r: bool)
        ensures
            r == (self@.car is Some),
    {
        match self.car {
            None => false,
            Some(_) => true,
        }
    }

    pub fn has_goal(&self) -> (r: bool)
        ensures
            r == (self@.goal is Some),
    {
        match self.goal {
            None => false,
            Some(_) => true,
        }
    }

    /// The content of the cell at `(x, y)`; the read-only view a renderer
    /// iterates over.
    pub fn content(&self, x: usize, y: usize) -> (c: Content)
        requires
            self@.dims_ok(),
            self@.in_bounds(x as int, y as int),
        ensures
            c == self@.at(x as int, y as int),
    {
        proof {
            lemma_idx_bounds(self@, x as int, y as int);
        }
        self.cells[y * self.cols + x]
    }


    /// The tracked car position.
    pub fn car_position(&self) -> (r: Option<(usize, usize)>)
        ensures
            pos_view(r) == self@.car,
    {
        self.car
    }

    /// The tracked goal position.
    pub fn goal_position(&self) -> (r: Option<(usize, usize)>)
        ensures
            pos_view(r) == self@.goal,
    {
        self.goal
    }

    /// How many cells the store holds.
    pub(crate) fn cell_count(&self) -> (r: usize)
        ensures
            r == self@.cells.len(),
    {
        self.cells.len()
    }

    /// Read a cell by its row-major offset.
    pub(crate) fn cell_at_idx(&self, i: usize) -> (c: Content)
        requires
            i < self@.cells.len(),
        ensures
            c == self@.cells[i as int],
    {
        self.cells[i]
    }

    /// Overwrite a cell by its row-major offset.
    pub(crate) fn set_cell_idx(&mut self, i: usize, c: Content)
        requires
            i < old(self)@.cells.len(),
        ensures
            final(self)@ == (GridView { cells: old(self)@.cells.update(i as int, c), ..old(self)@ }),
    {
        self.cells[i] = c;
    }

    /// Overwrite one cell, leaving the tracked positions alone.
    pub(crate) fn put_cell(&mut self, x: usize, y: usize, c: Content)
        requires
            old(self)@.dims_ok(),
            old(self)@.in_bounds(x as int, y as int),
        ensures
            final(self)@ == old(self)@.put(x as int, y as int, c),
            final(self)@.dims_ok(),
    {
        proof {
            lemma_idx_bounds(self@, x as int, y as int);
        }
        let i = y * self.cols + x;
        self.cells[i] = c;
    }

    pub fn set_wall(&mut self, x: usize, y: usize)
        requires
            old(self)@.wf(),
            old(self)@.in_bounds(x as int, y as int),
        ensures
            final(self)@ == set_wall_model(old(self)@, x as int, y as int),
            final(self)@.wf(),
    {
        proof {
            lemma_set_wall_wf(self@, x as int, y as int);
        }
        match self.content(x, y) {
            Content::Car => {
                self.car = None;
            },
            Content::Goal => {
                self.goal = None;
            },
            _ => {},
        }
        self.put_cell(x, y, Content::Wall);
    }

    pub fn set_empty(&mut self, x: usize, y: usize)
        requires
            old(self)@.wf(),
            old(self)@.in_bounds(x as int, y as int),
        ensures
            final(self)@ == set_empty_model(old(self)@, x as int, y as int),
            final(self)@.wf(),
    {
        proof {
            lemma_set_empty_wf(self@, x as int, y as int);
        }
        match self.content(x, y) {
            Content::Car => {
                self.car = None;
            },
            Content::Goal => {
                self.goal = None;
            },
            _ => {},
        }
        self.put_cell(x, y, Content::Empty);
    }

    pub fn set_goal(&mut self, x: usize, y: usize)
        requires
            old(self)@.wf(),
            old(self)@.in_bounds(x as int, y as int),
        ensures
            final(self)@ == set_goal_model(old(self)@, x as int, y as int),
            final(self)@.wf(),
    {
        proof {
            lemma_set_goal_wf(self@, x as int, y as int);
        }
        match self.content(x, y) {
            Content::Car => {
                self.car = None;
            },
            Content::Goal => {
                return ;
            },
            _ => {},
        }
        self.put_cell(x, y, Content::Goal);
        match self.goal {
            Some(p) => {
                self.put_cell(p.0, p.1, Content::Empty);
            },
            None => {},
        }
        self.goal = Some((x, y));
    }

    pub fn set_car(&mut self, x: usize, y: usize)
        requires
            old(self)@.wf(),
            old(self)@.in_bounds(x as int, y as int),
        ensures
            final(self)@ == set_car_model(old(self)@, x as int, y as int),
            final(self)@.wf(),
    {
        proof {
            lemma_set_car_wf(self@, x as int, y as int);
        }
        match self.content(x, y) {
            Content::Goal => {
                self.goal = None;
            },
            Content::Car => {
                return ;
            },
            _ => {},
        }
        self.put_cell(x, y, Content::Car);
        match self.car {
            Some(p) => {
                self.put_cell(p.0, p.1, Content::Empty);
            },
            None => {},
        }
        self.car = Some((x, y));
    }


    /// Invalidate the tracked car position if it fell outside the bounds.
    fn check_car_validity(&mut self)
        ensures
            final(self)@ == (GridView {
                car: drop_if_outside(old(self)@.car, old(self)@.cols, old(self)@.rows),
                ..old(self)@
            }),
    {
        match self.car {
            Some(p) => {
                if p.0 >= self.cols || p.1 >= self.rows {
                    self.car = None;
                }
            },
            None => {},
        }
    }

    /// Invalidate the tracked goal position if it fell outside the bounds.
    fn check_goal_validity(&mut self)
        ensures
            final(self)@ == (GridView {
                goal: drop_if_outside(old(self)@.goal, old(self)@.cols, old(self)@.rows),
                ..old(self)@
            }),
    {
        match self.goal {
            Some(p) => {
                if p.0 >= self.cols || p.1 >= self.rows {
                    self.goal = None;
                }
            },
            None => {},
        }
    }

    /// Change the number of rows to `m2`, truncating or appending empty
    /// rows; a car or goal in a discarded row is invalidated.
    pub fn set_height(&mut self, m2: usize)
        requires
            old(self)@.wf(),
            1 <= m2,
            m2 * old(self)@.cols <= usize::MAX,
        ensures
            final(self)@ == set_height_model(old(self)@, m2 as int),
            final(self)@.wf(),
    {
        proof {
            lemma_set_height_wf(self@, m2 as int);
        }
        if m2 == self.rows {
            return ;
        }
        let target = m2 * self.cols;
        if m2 < self.rows {
            proof {
                let rows0 = old(self)@.rows;
                let cols0 = old(self)@.cols;
                assert(m2 * cols0 < rows0 * cols0) by (nonlinear_arith)
                    requires m2 < rows0 && 1 <= cols0;
            }
            self.cells.truncate(target);
            self.rows = m2;
            self.check_car_validity();
            self.check_goal_validity();
        } else {
            let ghost old_view = self@;
            while self.cells.len() < target
                invariant
                    old_view.dims_ok(),
                    self.rows == old_view.rows,
                    self.cols == old_view.cols,
                    self.car == old(self).car,
                    self.goal == old(self).goal,
                    old_view.cells.len() <= self.cells@.len() <= target,
                    self.cells@.subrange(0, old_view.cells.len() as int) == old_view.cells,
                    forall|i: int|
                        old_view.cells.len() <= i < self.cells@.len()
                            ==> self.cells@[i] == Content::Empty,
                decreases target - self.cells.len(),
            {
                self.cells.push(Content::Empty);
                proof {
                    assert(self.cells@.subrange(0, old_view.cells.len() as int)
                        =~= old_view.cells);
                }
            }
            self.rows = m2;
            proof {
                let w = set_height_model(old(self)@, m2 as int);
                assert(old_view.rows * old_view.cols + (m2 - old_view.rows) * old_view.cols
                    == m2 * old_view.cols) by (nonlinear_arith);
                assert(self.cells@ =~= w.cells);
            }
        }
    }

    /// Change the number of columns to `n2`, truncating or padding every
    /// row with empty cells; a car or goal in a discarded column is
    /// invalidated.
    pub fn set_width(&mut self, n2: usize)
        requires
            old(self)@.wf(),
            1 <= n2,
            old(self)@.rows * n2 <= usize::MAX,
        ensures
            final(self)@ == set_width_model(old(self)@, n2 as int),
            final(self)@.wf(),
    {
        proof {
            lemma_set_width_wf(self@, n2 as int);
        }
        if n2 == self.cols {
            return ;
        }
        let target = self.rows * n2;
        let ghost old_view = self@;
        let mut new_cells: Vec<Content> = Vec::new();
        let mut i: usize = 0;
        while i < target
            invariant
                old_view == self@,
                old_view.dims_ok(),
                1 <= n2,
                target == old_view.rows * n2,
                target <= usize::MAX,
                i == new_cells@.len(),
                i <= target,
                forall|j: int|
                    0 <= j < i ==> new_cells@[j] == (if j % (n2 as int) < old_view.cols {
                        old_view.at(j % (n2 as int), j / (n2 as int))
                    } else {
                        Content::Empty
                    }),
            decreases target - i,
        {
            let x = i % n2;
            let y = i / n2;
            proof {
                assert(i < old_view.rows * n2);
                assert(y < old_view.rows) by (nonlinear_arith)
                    requires
                        0 <= i < old_view.rows * n2,
                        1 <= n2,
                        y == i as int / n2 as int;
            }
            if x < self.cols {
                new_cells.push(self.content(x, y));
            } else {
                new_cells.push(Content::Empty);
            }
            i = i + 1;
        }
        self.cells = new_cells;
        self.cols = n2;
        self.check_car_validity();
        self.check_goal_validity();
        proof {
            let w = set_width_model(old(self)@, n2 as int);
            assert(self.cells@ =~= w.cells);
        }
    }


    /// Clear the tracked positions, make every cell independently a wall
    /// with probability `wall_percentage` percent (else empty), then place
    /// the car on a random cell and, unless the grid has a single cell, the
    /// goal on a random cell distinct from the car's.
    pub fn fill_random(&mut self, wall_percentage: usize)
        requires
            old(self)@.wf(),
            wall_percentage <= 100,
        ensures
            final(self)@.wf(),
            final(self)@.rows == old(self)@.rows,
            final(self)@.cols == old(self)@.cols,
            final(self)@.car is Some,
            (final(self)@.goal is Some) <==> old(self)@.rows * old(self)@.cols != 1,
            forall|x: int, y: int|
                final(self)@.in_bounds(x, y) ==> !(#[trigger] final(self)@.at(x, y)).is_marker(),
            wall_percentage == 0 ==> forall|x: int, y: int|
                final(self)@.in_bounds(x, y) ==> #[trigger] final(self)@.at(x, y)
                    != Content::Wall,
            wall_percentage == 100 ==> forall|x: int, y: int|
                final(self)@.in_bounds(x, y) ==> (#[trigger] final(self)@.at(x, y)
                    == Content::Wall || final(self)@.at(x, y) == Content::Car || final(self)@.at(
                    x, y) == Content::Goal),
    {
        let ghost g0 = old(self)@;
        self.car = None;
        self.goal = None;
        let end = self.cells.len();
        let mut i: usize = 0;
        while i < end
            invariant
                g0.dims_ok(),
                end == g0.cells.len(),
                self.rows == g0.rows,
                self.cols == g0.cols,
                self.cells@.len() == end,
                self.car is None,
                self.goal is None,
                i <= end,
                forall|j: int|
                    0 <= j < i ==> self.cells@[j] == Content::Wall || self.cells@[j]
                        == Content::Empty,
                wall_percentage == 0 ==> forall|j: int|
                    0 <= j < i ==> self.cells@[j] == Content::Empty,
                wall_percentage == 100 ==> forall|j: int|
                    0 <= j < i ==> self.cells@[j] == Content::Wall,
            decreases end - i,
        {
            let roll = crate::rng::rand_below(100);
            if roll < wall_percentage {
                self.cells[i] = Content::Wall;
            } else {
                self.cells[i] = Content::Empty;
            }
            i = i + 1;
        }
        proof {
            broadcast use lemma_idx_bounds;

            assert(self@.wf()) by {
                assert forall|x: int, y: int|
                    self@.in_bounds(x, y) implies #[trigger] self@.at(x, y) != Content::Car
                    && self@.at(x, y) != Content::Goal by {}
            }
        }
        proof {
            let r0 = self@.rows;
            let c0 = self@.cols;
            assert(1 <= r0 * c0) by (nonlinear_arith)
                requires 1 <= r0 && 1 <= c0;
        }
        let total = self.rows * self.cols;
        let n = self.cols;
        let ci = crate::rng::rand_below(total);
        let cx = ci % n;
        let cy = ci / n;
        proof {
            lemma_unflat_flat(self@, ci as int);
            assert((cx as int, cy as int) == upos(self@, ci as int));
        }
        let ghost v1 = self@;
        self.set_car(cx, cy);
        proof {
            assert(v1.at(cx as int, cy as int) != Content::Car);
            assert(self@.car == Some((cx as int, cy as int)));
        }
        if total != 1 {
            let gi0 = crate::rng::rand_below(total - 1);
            let gi = if gi0 >= ci {
                gi0 + 1
            } else {
                gi0
            };
            let gx = gi % n;
            let gy = gi / n;
            proof {
                lemma_unflat_flat(self@, gi as int);
                assert((gx as int, gy as int) == upos(self@, gi as int));
                lemma_flat_unflat(self@, cx as int, cy as int);
                assert((gx as int, gy as int) != (cx as int, cy as int)) by {
                    if (gx as int, gy as int) == (cx as int, cy as int) {
                        assert(self@.idx(gx as int, gy as int) == self@.idx(
                            cx as int, cy as int));
                    }
                }
                assert(self@.at(gx as int, gy as int) != Content::Goal);
                assert(self@.at(gx as int, gy as int) != Content::Car) by {
                    if self@.at(gx as int, gy as int) == Content::Car {
                        assert(self@.car == Some((gx as int, gy as int)));
                    }
                }
            }
            let ghost v2 = self@;
            self.set_goal(gx, gy);
            proof {
                assert(self@.goal == Some((gx as int, gy as int)));
                assert(self@.car == v2.car);
            }
        }
        proof {
            assert forall|x: int, y: int|
                self@.in_bounds(x, y) implies !(#[trigger] self@.at(x, y)).is_marker() by {}
            if wall_percentage == 0 {
                assert forall|x: int, y: int|
                    self@.in_bounds(x, y) implies #[trigger] self@.at(x, y) != Content::Wall by {}
            }
            if wall_percentage == 100 {
                assert forall|x: int, y: int|
                    self@.in_bounds(x, y) implies (#[trigger] self@.at(x, y) == Content::Wall
                        || self@.at(x, y) == Content::Car || self@.at(x, y)
                        == Content::Goal) by {}
            }
        }
    }

    /// Reset every cell to empty and drop the tracked positions.
    pub fn clear(&mut self)
        requires
            old(self)@.dims_ok(),
        ensures
            final(self)@ == new_grid_view(old(self)@.rows, old(self)@.cols),
            final(self)@.wf(),
            final(self)@.rows == old(self)@.rows,
            final(self)@.cols == old(self)@.cols,
    {
        let fresh = Grid::new(self.rows, self.cols);
        *self = fresh;
    }
}

} // verus!
