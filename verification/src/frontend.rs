use vstd::prelude::*;

use crate::grid::Grid;
use crate::heuristic::Heuristic;
use crate::search::{clear_path_model, tracked_pos, marks_envelope, explored_envelope,
    reachable_count};
use crate::paths::{shortest_len, reaches};

verus! {

/// What a click on the grid places.
#[derive(Clone, Copy, PartialEq, Eq, Structural, Debug)]
pub enum State {
    Car,
    Goal,
    Wall,
    Remove,
}

/// What the last simulation run has to report; a presentation layer turns
/// this into text.
#[derive(Clone, Copy, PartialEq, Eq, Structural, Debug)]
pub enum StatusMsg {
    Blank,
    NeedCarAndGoal,
    NoPath,
    Found { length: usize, explored: usize },
}

/// The editor around one grid: the tool the next click applies, the wall
/// share used for random filling, the chosen estimator and the last
/// outcome. Event dispatch and drawing live outside the core.
pub struct FrontEnd {
    pub grid: Grid,
    pub state: State,
    pub wall_percentage: usize,
    pub heuristic: Heuristic,
    pub status: StatusMsg,
    pub compatibility_mode: bool,
}

impl FrontEnd {
    pub open spec fn wf(self) -> bool {
        &&& self.grid@.wf()
        &&& self.wall_percentage <= 100
    }

    /// A fresh editor in wall-placing mode with nothing to report.
    pub fn new(grid: Grid, wall_percentage: usize, heuristic: Heuristic) -> (fe: FrontEnd)
        requires
            grid@.wf(),
            wall_percentage <= 100,
        ensures
            fe.wf(),
            fe.grid == grid,
            fe.state == State::Wall,
            fe.wall_percentage == wall_percentage,
            fe.heuristic == heuristic,
            fe.status == StatusMsg::Blank,
            !fe.compatibility_mode,
    {
        FrontEnd {
            grid,
            state: State::Wall,
            wall_percentage,
            heuristic,
            status: StatusMsg::Blank,
            compatibility_mode: false,
        }
    }

    /// Ask the presentation layer for plainer glyphs.
    pub fn use_compatibility_mode(&mut self)
        ensures
            *final(self) == (FrontEnd { compatibility_mode: true, ..*old(self) }),
    {
        self.compatibility_mode = true;
    }

    /// A search may run: both a car and a goal stand in the grid.
    pub fn check_valid_state(&self) -> (r: bool)
        ensures
            r == (self.grid@.car is Some && self.grid@.goal is Some),
    {
        self.grid.has_car() && self.grid.has_goal()
    }

    /// Clear the old markers and run the search, recording the outcome: the
    /// exact shortest length and a bounded exploration count on success, and
    /// why nothing ran otherwise. The search is skipped, and its fatal
    /// precondition avoided, exactly when the car or the goal is missing.
    pub fn run_simulation(&mut self)
        requires
            old(self).wf(),
        ensures
            final(self).wf(),
            final(self).heuristic == old(self).heuristic,
            final(self).state == old(self).state,
            final(self).wall_percentage == old(self).wall_percentage,
            ({
                let cleared = clear_path_model(old(self).grid@);
                let both = cleared.car is Some && cleared.goal is Some;
                match final(self).status {
                    StatusMsg::NeedCarAndGoal => !both && final(self).grid@ == cleared,
                    StatusMsg::Found { length, explored } => both && shortest_len(
                        cleared,
                        tracked_pos(cleared.car),
                        tracked_pos(cleared.goal),
                        length as int,
                    ) && 1 <= explored <= reachable_count(cleared, tracked_pos(cleared.car))
                        && marks_envelope(cleared, final(self).grid@),
                    StatusMsg::NoPath => both && !reaches(
                        cleared,
                        tracked_pos(cleared.car),
                        tracked_pos(cleared.goal),
                    ) && explored_envelope(cleared, final(self).grid@),
                    StatusMsg::Blank => false,
                }
            }),
    {
        self.grid.clear_path();
        if !self.check_valid_state() {
            self.status = StatusMsg::NeedCarAndGoal;
            return ;
        }
        let result = self.grid.find_path(self.heuristic);
        match result {
            None => {
                self.status = StatusMsg::NoPath;
            },
            Some(r) => {
                self.status = StatusMsg::Found { length: r.length, explored: r.explored };
            },
        }
    }

    /// Whether a screen position lands on the grid, whose cells are drawn
    /// two columns wide inside a one-cell border.
    pub fn is_inside_grid(&self, pos: (usize, usize)) -> (r: bool)
        requires
            self.wf(),
            self.grid@.cols <= usize::MAX / 2 - 1,
        ensures
            r == (2 <= pos.0 <= 2 * self.grid@.cols + 1 && 1 <= pos.1 <= self.grid@.rows),
    {
        let n = self.grid.n();
        pos.0 <= n * 2 + 1 && pos.0 >= 2 && pos.1 <= self.grid.m() && pos.1 >= 1
    }

    /// Apply the active tool to the grid cell under the screen position.
    pub fn set_cell(&mut self, pos: (usize, usize))
        requires
            old(self).wf(),
            old(self).grid@.cols <= usize::MAX / 2 - 1,
            2 <= pos.0 <= 2 * old(self).grid@.cols + 1,
            1 <= pos.1 <= old(self).grid@.rows,
        ensures
            final(self).wf(),
            final(self).state == old(self).state,
            final(self).heuristic == old(self).heuristic,
            ({
                let x = (pos.0 / 2 - 1) as int;
                let y = (pos.1 - 1) as int;
                final(self).grid@ == match old(self).state {
                    State::Car => crate::model::set_car_model(old(self).grid@, x, y),
                    State::Goal => crate::model::set_goal_model(old(self).grid@, x, y),
                    State::Wall => crate::model::set_wall_model(old(self).grid@, x, y),
                    State::Remove => crate::model::set_empty_model(old(self).grid@, x, y),
                }
            }),
    {
        let x = pos.0 / 2 - 1;
        let y = pos.1 - 1;
        proof {
            assert(x < old(self).grid@.cols && y < old(self).grid@.rows);
        }
        match self.state {
            State::Car => self.grid.set_car(x, y),
            State::Goal => self.grid.set_goal(x, y),
            State::Wall => self.grid.set_wall(x, y),
            State::Remove => self.grid.set_empty(x, y),
        }
    }

    /// Cycle to the next estimator.
    pub fn change_heuristic(&mut self)
        ensures
            final(self).heuristic == (match old(self).heuristic {
                Heuristic::Euclidean => Heuristic::Manhattan,
                Heuristic::Manhattan => Heuristic::Chebyshev,
                Heuristic::Chebyshev => Heuristic::Euclidean,
            }),
            final(self).grid == old(self).grid,
            final(self).state == old(self).state,
            final(self).status == old(self).status,
            final(self).wall_percentage == old(self).wall_percentage,
    {
        self.heuristic = match self.heuristic {
            Heuristic::Euclidean => Heuristic::Manhattan,
            Heuristic::Manhattan => Heuristic::Chebyshev,
            Heuristic::Chebyshev => Heuristic::Euclidean,
        };
    }
}

} // verus!
