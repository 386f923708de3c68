use car_simulation::{Content, Direction, FrontEnd, Grid, Heuristic, StatusMsg};

#[test]
fn open_grid_path_has_manhattan_length() {
    // a 3 by 3 open grid: the shortest path from corner to corner has 4 edges
    let mut g = Grid::new(3, 3);
    g.set_car(0, 0);
    g.set_goal(2, 2);
    let r = g.find_path(Heuristic::Manhattan).expect("a path must exist");
    assert_eq!(r.length, 4);
    assert!(r.explored >= 1 && r.explored <= 9);
}

#[test]
fn wall_blocks_single_row() {
    // 3 columns, 1 row: the middle wall separates car and goal
    let mut g = Grid::new(1, 3);
    g.set_car(0, 0);
    g.set_wall(1, 0);
    g.set_goal(2, 0);
    let r = g.find_path(Heuristic::Manhattan);
    assert!(r.is_none());
    assert_eq!(g.content(1, 0), Content::Wall);
}

#[test]
fn no_goal_without_placing_one() {
    // 1 row by 2 columns, car and a wall: no goal was ever placed
    let mut g = Grid::new(1, 2);
    g.set_car(0, 0);
    g.set_wall(1, 0);
    assert!(g.has_car());
    assert!(!g.has_goal());
}

#[test]
fn shrink_height_unsets_car() {
    let mut g = Grid::new(5, 3);
    g.set_car(1, 4);
    assert!(g.has_car());
    g.set_height(2);
    assert!(!g.has_car());
    assert_eq!(g.m(), 2);
}

#[test]
fn set_car_twice_moves_it() {
    let mut g = Grid::new(2, 2);
    g.set_car(0, 0);
    g.set_car(1, 1);
    assert!(g.has_car());
    assert_eq!(g.content(0, 0), Content::Empty);
    assert_eq!(g.content(1, 1), Content::Car);
}

#[test]
fn clear_path_resets_markers_only() {
    let mut g = Grid::new(3, 3);
    g.set_car(0, 0);
    g.set_goal(2, 0);
    g.set_wall(1, 1);
    let _ = g.find_path(Heuristic::Euclidean).expect("open row");
    g.clear_path();
    assert_eq!(g.content(0, 0), Content::Car);
    assert_eq!(g.content(2, 0), Content::Goal);
    assert_eq!(g.content(1, 1), Content::Wall);
    assert_eq!(g.content(1, 0), Content::Empty);
    // a second call changes nothing further
    g.clear_path();
    assert_eq!(g.content(1, 0), Content::Empty);
}

#[test]
fn heuristics_at_goal_are_zero() {
    assert_eq!(Heuristic::Manhattan.estimate((3, 4), (3, 4)), 0);
    assert_eq!(Heuristic::Euclidean.estimate((3, 4), (3, 4)), 0);
    assert_eq!(Heuristic::Chebyshev.estimate((3, 4), (3, 4)), 0);
}

#[test]
fn heuristic_values() {
    assert_eq!(Heuristic::Manhattan.estimate((0, 0), (3, 4)), 7);
    assert_eq!(Heuristic::Euclidean.estimate((0, 0), (3, 4)), 5);
    assert_eq!(Heuristic::Chebyshev.estimate((0, 0), (3, 4)), 4);
}

#[test]
fn fill_random_places_car_and_goal() {
    let mut g = Grid::new(4, 4);
    g.fill_random(50);
    assert!(g.has_car());
    assert!(g.has_goal());
    assert_eq!(g.m(), 4);
    assert_eq!(g.n(), 4);
}

#[test]
fn detour_around_wall() {
    // 3 by 3, vertical wall through the middle column with a gap at the top
    let mut g = Grid::new(3, 3);
    g.set_car(0, 2);
    g.set_goal(2, 2);
    g.set_wall(1, 1);
    g.set_wall(1, 2);
    let r = g.find_path(Heuristic::Manhattan).expect("gap at the top");
    assert_eq!(r.length, 6);
}

#[test]
fn run_simulation_reports_length() {
    let mut g = Grid::new(3, 3);
    g.set_car(0, 0);
    g.set_goal(2, 2);
    let mut fe = FrontEnd::new(g, 15, Heuristic::Manhattan);
    fe.run_simulation();
    match fe.status {
        StatusMsg::Found { length, explored } => {
            assert_eq!(length, 4);
            assert!(explored >= 1);
        },
        _ => panic!("expected a found path"),
    }
}

#[test]
fn run_simulation_without_goal() {
    let mut g = Grid::new(1, 2);
    g.set_car(0, 0);
    g.set_wall(1, 0);
    let mut fe = FrontEnd::new(g, 15, Heuristic::Manhattan);
    fe.run_simulation();
    assert_eq!(fe.status, StatusMsg::NeedCarAndGoal);
}

#[test]
fn change_heuristic_cycles() {
    let g = Grid::new(2, 2);
    let mut fe = FrontEnd::new(g, 15, Heuristic::Euclidean);
    fe.change_heuristic();
    assert_eq!(fe.heuristic, Heuristic::Manhattan);
    fe.change_heuristic();
    assert_eq!(fe.heuristic, Heuristic::Chebyshev);
    fe.change_heuristic();
    assert_eq!(fe.heuristic, Heuristic::Euclidean);
}

#[test]
fn rerun_after_clear_gives_same_length() {
    let mut g = Grid::new(4, 4);
    g.set_car(0, 0);
    g.set_goal(3, 3);
    g.set_wall(1, 0);
    g.set_wall(1, 1);
    let r1 = g.find_path(Heuristic::Manhattan).expect("path around the wall");
    g.clear_path();
    let r2 = g.find_path(Heuristic::Manhattan).expect("path around the wall");
    assert_eq!(r1.length, r2.length);
    assert_eq!(r1.explored, r2.explored);
}

#[test]
fn set_width_grow_and_shrink() {
    let mut g = Grid::new(2, 2);
    g.set_goal(1, 1);
    g.set_width(4);
    assert_eq!(g.n(), 4);
    assert!(g.has_goal());
    assert_eq!(g.content(3, 0), Content::Empty);
    g.set_width(1);
    assert_eq!(g.n(), 1);
    assert!(!g.has_goal());
}

#[test]
fn wall_demotes_car() {
    let mut g = Grid::new(2, 2);
    g.set_car(0, 1);
    g.set_wall(0, 1);
    assert!(!g.has_car());
    assert_eq!(g.content(0, 1), Content::Wall);
}

#[test]
fn goal_placement_demotes_and_moves() {
    let mut g = Grid::new(3, 1);
    g.set_goal(0, 0);
    g.set_goal(2, 0);
    assert_eq!(g.content(0, 0), Content::Empty);
    assert_eq!(g.content(2, 0), Content::Goal);
    // placing the car over the goal demotes the goal
    g.set_car(2, 0);
    assert!(!g.has_goal());
    assert_eq!(g.content(2, 0), Content::Car);
}

#[test]
fn fill_random_extremes() {
    let mut g = Grid::new(3, 3);
    g.fill_random(0);
    for y in 0..3 {
        for x in 0..3 {
            assert_ne!(g.content(x, y), Content::Wall);
        }
    }
    let mut g2 = Grid::new(3, 3);
    g2.fill_random(100);
    for y in 0..3 {
        for x in 0..3 {
            let c = g2.content(x, y);
            assert!(c == Content::Wall || c == Content::Car || c == Content::Goal);
        }
    }
}

#[test]
fn traces_point_toward_goal() {
    // a single row: the interior trace cells all point right, toward the goal
    let mut g = Grid::new(1, 4);
    g.set_car(0, 0);
    g.set_goal(3, 0);
    let r = g.find_path(Heuristic::Manhattan).expect("open row");
    assert_eq!(r.length, 3);
    assert_eq!(g.content(1, 0), Content::Trace(Direction::Right));
    assert_eq!(g.content(2, 0), Content::Trace(Direction::Right));
    assert_eq!(g.content(0, 0), Content::Car);
    assert_eq!(g.content(3, 0), Content::Goal);
}

#[test]
fn neighbours_are_distinct_and_complete() {
    let mut g = Grid::new(3, 3);
    g.set_wall(1, 0);
    let neighs = g.get_neighbours((1, 1));
    assert_eq!(neighs.len(), 3);
    for i in 0..neighs.len() {
        for j in 0..neighs.len() {
            if i != j {
                assert_ne!(neighs[i], neighs[j]);
            }
        }
    }
    assert!(neighs.contains(&(2, 1)));
    assert!(neighs.contains(&(0, 1)));
    assert!(neighs.contains(&(1, 2)));
    assert!(!neighs.contains(&(1, 0)));
}
