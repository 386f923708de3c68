use vstd::prelude::*;

use crate::content::Content;
use crate::model::{GridView, set_car_model, lemma_put_at, lemma_idx_bounds, lemma_set_car_wf};
use crate::paths::{Pos, no_walls, manhattan, shortest_len, same_walls, lemma_open_grid_shortest,
    lemma_shortest_unique, lemma_same_walls_shortest};
use crate::search::clear_path_model;

verus! {

/// On a grid with no walls, the length the search returns is exactly the
/// Manhattan distance between the car and the goal, whichever of the
/// admissible estimators drove it.
pub proof fn lemma_open_grid_length(v: GridView, a: Pos, b: Pos, k: int)
    requires
        v.dims_ok(),
        no_walls(v),
        v.in_bounds(a.0, a.1),
        v.in_bounds(b.0, b.1),
        shortest_len(v, a, b, k),
    ensures
        k == manhattan(a, b),
{
    lemma_open_grid_shortest(v, a, b);
    lemma_shortest_unique(v, a, b, k, manhattan(a, b));
}

/// Two searches over the same walls find the same length: the result is a
/// function of the walls, the car and the goal alone.
pub proof fn lemma_same_walls_same_length(
    v1: GridView,
    v2: GridView,
    a: Pos,
    b: Pos,
    k1: int,
    k2: int,
)
    requires
        same_walls(v1, v2),
        shortest_len(v1, a, b, k1),
        shortest_len(v2, a, b, k2),
    ensures
        k1 == k2,
{
    lemma_same_walls_shortest(v1, v2, a, b, k1);
    lemma_shortest_unique(v2, a, b, k1, k2);
}

/// A failed search leaves no trace mark where none stood before.
pub proof fn lemma_no_new_trace(g: GridView, v: GridView)
    requires
        crate::search::explored_envelope(g, v),
        forall|x: int, y: int| g.in_bounds(x, y) ==> !((#[trigger] g.at(x, y)) is Trace),
    ensures
        forall|x: int, y: int| g.in_bounds(x, y) ==> !((#[trigger] v.at(x, y)) is Trace),
{
    assert forall|x: int, y: int| g.in_bounds(x, y) implies !((#[trigger] v.at(x, y)) is Trace) by {
        assert(v.at(x, y) == g.at(x, y) || v.at(x, y) == Content::Explored);
    }
}

/// Clearing the transient markers never changes a wall, car or goal cell,
/// and doing it twice is the same as doing it once.
pub proof fn lemma_clear_path_law(v: GridView)
    requires
        v.dims_ok(),
    ensures
        forall|x: int, y: int|
            v.in_bounds(x, y) && !(#[trigger] v.at(x, y)).is_marker() ==> clear_path_model(v).at(
                x, y) == v.at(x, y),
        clear_path_model(clear_path_model(v)) == clear_path_model(v),
{
    broadcast use lemma_idx_bounds;

    let w = clear_path_model(v);
    let w2 = clear_path_model(w);
    assert forall|x: int, y: int|
        v.in_bounds(x, y) && !(#[trigger] v.at(x, y)).is_marker() implies w.at(x, y) == v.at(
        x, y) by {}
    assert(w2.cells =~= w.cells);
    assert(w2 == w);
}

/// Placing the car somewhere and then somewhere else leaves the first cell
/// empty, the second holding the car, and the car tracked at the second.
pub proof fn lemma_set_car_twice(v: GridView, x1: int, y1: int, x2: int, y2: int)
    requires
        v.wf(),
        v.in_bounds(x1, y1),
        v.in_bounds(x2, y2),
        (x1, y1) != (x2, y2),
    ensures
        set_car_model(set_car_model(v, x1, y1), x2, y2).car == Some((x2, y2)),
        set_car_model(set_car_model(v, x1, y1), x2, y2).at(x2, y2) == Content::Car,
        set_car_model(set_car_model(v, x1, y1), x2, y2).at(x1, y1) == Content::Empty,
{
    broadcast use lemma_idx_bounds, lemma_put_at;

    lemma_set_car_wf(v, x1, y1);
    let v1 = set_car_model(v, x1, y1);
    lemma_set_car_wf(v1, x2, y2);
    let v2 = set_car_model(v1, x2, y2);
    assert(v1.at(x1, y1) == Content::Car && v1.car == Some((x1, y1))) by {
        if v.at(x1, y1) == Content::Car {
            assert(v.car == Some((x1, y1)));
        }
    }
    assert(v1.at(x2, y2) != Content::Car) by {
        if v1.at(x2, y2) == Content::Car {
            assert(v1.car == Some((x2, y2)));
        }
    }
    // the second placement is no no-op: it writes the car at (x2, y2) and
    // empties the old car cell (x1, y1)
    let v1a = GridView {
        goal: if v1.at(x2, y2) == Content::Goal {
            None
        } else {
            v1.goal
        },
        ..v1
    };
    let v1b = v1a.put(x2, y2, Content::Car);
    let v1c = v1b.put(x1, y1, Content::Empty);
    assert(v2 == (GridView { car: Some((x2, y2)), ..v1c }));
    assert(v2.at(x2, y2) == Content::Car);
    assert(v2.at(x1, y1) == Content::Empty);
}

} // verus!
