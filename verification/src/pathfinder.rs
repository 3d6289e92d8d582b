//! How a robot picks its next cell: a frontier search toward the nearest
//! resource, a single-step fallback that prefers unexplored cells, and a
//! greedy step toward a target.
//!
//! All three work on what the robot knows, never on what the grid really
//! holds: they are functions of the position, the robot's known map, the
//! occupancy set and the target. The grid handed in gives the shape alone.
//! Obstacles that the robot has not seen reach it through the occupancy set.

use crate::known::{CoordSet, KnownMap};
use crate::map::{GridView, Tile, WorldMap};
use vstd::prelude::*;

verus! {

/// A coordinate moved by one along an axis, wrapping at the ends of the
/// integer range. A wrapped coordinate lies outside every grid but for the
/// step from the largest integer to zero.
pub open spec fn shift(x: usize, delta: int) -> usize {
    if delta > 0 {
        if x == usize::MAX {
            0
        } else {
            (x + 1) as usize
        }
    } else if delta < 0 {
        if x == 0 {
            usize::MAX
        } else {
            (x - 1) as usize
        }
    } else {
        x
    }
}

/// The row change of a direction. Directions are numbered in the fixed order
/// in which neighbors are tried: 0 to the next column, 1 to the next row,
/// 2 to the previous column, 3 to the previous row.
pub open spec fn row_delta(dir: int) -> int {
    if dir == 1 {
        1
    } else if dir == 3 {
        -1
    } else {
        0
    }
}

/// The column change of a direction.
pub open spec fn col_delta(dir: int) -> int {
    if dir == 0 {
        1
    } else if dir == 2 {
        -1
    } else {
        0
    }
}

/// The neighbor of a cell in a direction.
pub open spec fn step_in(cell: (usize, usize), dir: int) -> (usize, usize) {
    (shift(cell.0, row_delta(dir)), shift(cell.1, col_delta(dir)))
}

/// Where a sequence of directions leads from `start`.
pub open spec fn walk(start: (usize, usize), path: Seq<int>) -> (usize, usize)
    decreases path.len(),
{
    if path.len() == 0 {
        start
    } else {
        step_in(walk(start, path.drop_last()), path.last())
    }
}

/// A cell that a robot may enter this tick, as far as the robot can tell:
/// inside the grid, not occupied, and not known to hold an obstacle. Of the
/// grid only the shape counts; what its cells hold plays no part.
pub open spec fn open_cell(
    grid: GridView,
    known: Map<(usize, usize), Tile>,
    occupied: Set<(usize, usize)>,
    cell: (usize, usize),
) -> bool {
    &&& grid.in_bounds(cell)
    &&& !occupied.contains(cell)
    &&& !(known.contains_key(cell) && known[cell] == Tile::Obstacle)
}

/// A sequence of directions that leads from `start` over open cells only.
/// The start itself need not be open.
pub open spec fn is_route(
    grid: GridView,
    known: Map<(usize, usize), Tile>,
    occupied: Set<(usize, usize)>,
    start: (usize, usize),
    path: Seq<int>,
) -> bool
    decreases path.len(),
{
    if path.len() == 0 {
        true
    } else {
        &&& is_route(grid, known, occupied, start, path.drop_last())
        &&& 0 <= path.last() < 4
        &&& open_cell(grid, known, occupied, walk(start, path))
    }
}

/// A cell worth walking to: one that the robot knows to hold a resource,
/// and that is not under the robot.
pub open spec fn is_goal(
    known: Map<(usize, usize), Tile>,
    start: (usize, usize),
    cell: (usize, usize),
) -> bool {
    &&& cell != start
    &&& known.contains_key(cell)
    &&& known[cell].is_resource()
}

/// A route that ends on a goal.
pub open spec fn is_goal_route(
    grid: GridView,
    known: Map<(usize, usize), Tile>,
    occupied: Set<(usize, usize)>,
    start: (usize, usize),
    path: Seq<int>,
) -> bool {
    is_route(grid, known, occupied, start, path) && is_goal(known, start, walk(start, path))
}

/// The rank of a route: shorter routes rank lower, and among routes of one
/// length the one that takes the lower direction at the first difference.
/// It is the route read as a number in base four behind a leading one.
pub open spec fn rank(path: Seq<int>) -> int
    decreases path.len(),
{
    if path.len() == 0 {
        1
    } else {
        4 * rank(path.drop_last()) + path.last()
    }
}

/// The route that the frontier search follows: the goal route of lowest rank.
pub open spec fn is_best_route(
    grid: GridView,
    known: Map<(usize, usize), Tile>,
    occupied: Set<(usize, usize)>,
    start: (usize, usize),
    path: Seq<int>,
) -> bool {
    &&& is_goal_route(grid, known, occupied, start, path)
    &&& forall|other: Seq<int>| #[trigger]
        is_goal_route(grid, known, occupied, start, other) ==> rank(path) <= rank(other)
}

/// What the frontier search answers: the first cell of the best route, or
/// nothing where no route leads to a goal.
pub open spec fn is_frontier_step(
    grid: GridView,
    known: Map<(usize, usize), Tile>,
    occupied: Set<(usize, usize)>,
    start: (usize, usize),
    next: Option<(usize, usize)>,
) -> bool {
    match next {
        Some(cell) => exists|path: Seq<int>| #[trigger]
            is_best_route(grid, known, occupied, start, path) && cell == step_in(start, path[0]),
        None => forall|path: Seq<int>| !#[trigger] is_goal_route(grid, known, occupied, start, path),
    }
}

/// The answer of the frontier search as a function of its inputs.
pub open spec fn frontier_target(
    grid: GridView,
    known: Map<(usize, usize), Tile>,
    occupied: Set<(usize, usize)>,
    start: (usize, usize),
) -> Option<(usize, usize)> {
    if exists|path: Seq<int>| #[trigger] is_best_route(grid, known, occupied, start, path) {
        let best = choose|path: Seq<int>| #[trigger] is_best_route(grid, known, occupied, start, path);
        Some(step_in(start, best[0]))
    } else {
        None
    }
}

/// The first neighbor of `position`, from direction `dir` on in the fixed
/// order, that is open and, where `unexplored` is set, not yet known.
pub open spec fn first_candidate(
    grid: GridView,
    known: Map<(usize, usize), Tile>,
    occupied: Set<(usize, usize)>,
    position: (usize, usize),
    unexplored: bool,
    dir: int,
) -> Option<(usize, usize)>
    decreases 4 - dir,
{
    if dir < 0 || dir >= 4 {
        None
    } else {
        let cell = step_in(position, dir);
        if open_cell(grid, known, occupied, cell) && (!unexplored || !known.contains_key(cell)) {
            Some(cell)
        } else {
            first_candidate(grid, known, occupied, position, unexplored, dir + 1)
        }
    }
}

/// The single-step fallback: the first open neighbor that is not yet known;
/// failing that, the first open neighbor; failing that, nothing.
pub open spec fn fallback_target(
    grid: GridView,
    known: Map<(usize, usize), Tile>,
    occupied: Set<(usize, usize)>,
    position: (usize, usize),
) -> Option<(usize, usize)> {
    match first_candidate(grid, known, occupied, position, true, 0) {
        Some(cell) => Some(cell),
        None => first_candidate(grid, known, occupied, position, false, 0),
    }
}

/// Where an exploring robot goes next: along the best route to a resource;
/// with no resource in reach, by the single-step fallback.
pub open spec fn explore_target(
    grid: GridView,
    known: Map<(usize, usize), Tile>,
    occupied: Set<(usize, usize)>,
    position: (usize, usize),
) -> Option<(usize, usize)> {
    match frontier_target(grid, known, occupied, position) {
        Some(cell) => Some(cell),
        None => fallback_target(grid, known, occupied, position),
    }
}

/// Where a greedy step toward `target` leads: one row closer if that cell is
/// open; else one column closer if that cell is open; else nowhere.
pub open spec fn greedy_target(
    grid: GridView,
    known: Map<(usize, usize), Tile>,
    occupied: Set<(usize, usize)>,
    position: (usize, usize),
    target: (usize, usize),
) -> (usize, usize) {
    let by_row = if position.0 > target.0 {
        step_in(position, 3)
    } else {
        step_in(position, 1)
    };
    let by_col = if position.1 > target.1 {
        step_in(position, 2)
    } else {
        step_in(position, 0)
    };
    if position.0 != target.0 && open_cell(grid, known, occupied, by_row) {
        by_row
    } else if position.1 != target.1 && open_cell(grid, known, occupied, by_col) {
        by_col
    } else {
        position
    }
}

/// Every direction of a path is one of the four.
pub open spec fn is_direction_seq(path: Seq<int>) -> bool {
    forall|k: int| 0 <= k < path.len() ==> 0 <= #[trigger] path[k] < 4
}

/// A route takes one of the four directions at every step, and its rank is
/// at least one.
pub proof fn lemma_route_directions(
    grid: GridView,
    known: Map<(usize, usize), Tile>,
    occupied: Set<(usize, usize)>,
    start: (usize, usize),
    path: Seq<int>,
)
    requires
        is_route(grid, known, occupied, start, path),
    ensures
        is_direction_seq(path),
        rank(path) >= 1,
    decreases path.len(),
{
    if path.len() > 0 {
        lemma_route_directions(grid, known, occupied, start, path.drop_last());
        assert forall|k: int| 0 <= k < path.len() implies 0 <= #[trigger] path[k] < 4 by {
            if k < path.len() - 1 {
                assert(path[k] == path.drop_last()[k]);
            }
        }
    }
}

/// No two paths of directions have the same rank.
pub proof fn lemma_rank_injective(a: Seq<int>, b: Seq<int>)
    requires
        is_direction_seq(a),
        is_direction_seq(b),
        rank(a) == rank(b),
    ensures
        a == b,
    decreases a.len(),
{
    lemma_rank_positive(a);
    lemma_rank_positive(b);
    if a.len() == 0 {
        if b.len() > 0 {
            assert forall|k: int| 0 <= k < b.drop_last().len() implies 0 <= #[trigger] b.drop_last()[k]
                < 4 by {
                assert(b.drop_last()[k] == b[k]);
            }
            lemma_rank_positive(b.drop_last());
            assert(0 <= b[b.len() - 1]);
        }
        assert(a =~= b);
    } else {
        assert(0 <= a[a.len() - 1] < 4);
        assert forall|k: int| 0 <= k < a.drop_last().len() implies 0 <= #[trigger] a.drop_last()[k]
            < 4 by {
            assert(a.drop_last()[k] == a[k]);
        }
        lemma_rank_positive(a.drop_last());
        if b.len() == 0 {
        } else {
            assert(0 <= b[b.len() - 1] < 4);
            assert forall|k: int| 0 <= k < b.drop_last().len() implies 0 <= #[trigger] b.drop_last()[k]
                < 4 by {
                assert(b.drop_last()[k] == b[k]);
            }
            lemma_rank_injective(a.drop_last(), b.drop_last());
            assert(a =~= a.drop_last().push(a.last()));
            assert(b =~= b.drop_last().push(b.last()));
        }
    }
}

/// The rank of a path of directions is at least one.
pub proof fn lemma_rank_positive(path: Seq<int>)
    requires
        is_direction_seq(path),
    ensures
        rank(path) >= 1,
    decreases path.len(),
{
    if path.len() > 0 {
        assert forall|k: int| 0 <= k < path.drop_last().len() implies 0 <= #[trigger] path.drop_last()[k]
            < 4 by {
            assert(path.drop_last()[k] == path[k]);
        }
        lemma_rank_positive(path.drop_last());
        assert(0 <= path[path.len() - 1]);
    }
}

/// The best route is unique.
pub proof fn lemma_best_route_unique(
    grid: GridView,
    known: Map<(usize, usize), Tile>,
    occupied: Set<(usize, usize)>,
    start: (usize, usize),
    a: Seq<int>,
    b: Seq<int>,
)
    requires
        is_best_route(grid, known, occupied, start, a),
        is_best_route(grid, known, occupied, start, b),
    ensures
        a == b,
{
    lemma_route_directions(grid, known, occupied, start, a);
    lemma_route_directions(grid, known, occupied, start, b);
    lemma_rank_injective(a, b);
}

/// The frontier search has one answer: two answers that both meet its
/// contract on the same inputs are the same.
pub proof fn lemma_frontier_step_unique(
    grid: GridView,
    known: Map<(usize, usize), Tile>,
    occupied: Set<(usize, usize)>,
    start: (usize, usize),
    a: Option<(usize, usize)>,
    b: Option<(usize, usize)>,
)
    requires
        is_frontier_step(grid, known, occupied, start, a),
        is_frontier_step(grid, known, occupied, start, b),
    ensures
        a == b,
{
    if a is Some {
        let pa = choose|path: Seq<int>| #[trigger]
            is_best_route(grid, known, occupied, start, path) && a->0 == step_in(start, path[0]);
        if b is Some {
            let pb = choose|path: Seq<int>| #[trigger]
                is_best_route(grid, known, occupied, start, path) && b->0 == step_in(start, path[0]);
            lemma_best_route_unique(grid, known, occupied, start, pa, pb);
        } else {
            assert(is_goal_route(grid, known, occupied, start, pa));
        }
    } else if b is Some {
        let pb = choose|path: Seq<int>| #[trigger]
            is_best_route(grid, known, occupied, start, path) && b->0 == step_in(start, path[0]);
        assert(is_goal_route(grid, known, occupied, start, pb));
    }
}

/// `cell` has been discovered, by a path that ranks no higher than `bound`.
spec fn reached(
    cells: Seq<(usize, usize)>,
    paths: Seq<Seq<int>>,
    cell: (usize, usize),
    bound: int,
) -> bool {
    exists|j: int| 0 <= j < cells.len() && #[trigger] cells[j] == cell && rank(paths[j]) <= bound
}

/// The neighbor of the `i`-th discovered cell in direction `dir`, where it is
/// open, has been discovered by a path that ranks no higher than the path
/// through the `i`-th cell.
spec fn served(
    grid: GridView,
    known: Map<(usize, usize), Tile>,
    occupied: Set<(usize, usize)>,
    cells: Seq<(usize, usize)>,
    paths: Seq<Seq<int>>,
    i: int,
    dir: int,
) -> bool {
    open_cell(grid, known, occupied, step_in(cells[i], dir)) ==> reached(
        cells,
        paths,
        step_in(cells[i], dir),
        4 * rank(paths[i]) + dir,
    )
}

/// The state of a frontier search. `cells` are the cells discovered so far,
/// in the order of discovery, and `paths` the routes by which they were
/// discovered. The first `head` cells have been expanded in full, the next
/// one in its first `done` directions; `checked` says whether that cell has
/// been found to be no goal.
spec fn searching(
    grid: GridView,
    known: Map<(usize, usize), Tile>,
    occupied: Set<(usize, usize)>,
    start: (usize, usize),
    cells: Seq<(usize, usize)>,
    paths: Seq<Seq<int>>,
    head: int,
    done: int,
    checked: bool,
) -> bool {
    &&& cells.len() == paths.len()
    &&& cells.len() >= 1
    &&& 0 <= head <= cells.len()
    &&& 0 <= done <= 4
    &&& (head == cells.len() ==> done == 0 && !checked)
    &&& cells[0] == start
    &&& paths[0].len() == 0
    &&& forall|j: int|
        0 <= j < cells.len() ==> is_route(grid, known, occupied, start, #[trigger] paths[j]) && walk(
            start,
            paths[j],
        ) == cells[j]
    &&& forall|i: int, j: int|
        0 <= i < j < cells.len() ==> rank(#[trigger] paths[i]) < rank(#[trigger] paths[j])
    &&& forall|i: int, dir: int|
        0 <= i < cells.len() && 0 <= dir < 4 && (i < head || (i == head && dir < done))
            ==> #[trigger] served(grid, known, occupied, cells, paths, i, dir)
    &&& forall|i: int|
        0 <= i < cells.len() && (i < head || (i == head && checked)) ==> !is_goal(
            known,
            start,
            #[trigger] cells[i],
        )
    &&& head < cells.len() ==> forall|j: int|
        0 <= j < cells.len() ==> rank(#[trigger] paths[j]) < 4 * rank(paths[head]) + done
}

/// A search starts with the start cell alone.
proof fn lemma_search_starts(
    grid: GridView,
    known: Map<(usize, usize), Tile>,
    occupied: Set<(usize, usize)>,
    start: (usize, usize),
)
    ensures
        searching(
            grid,
            known,
            occupied,
            start,
            seq![start],
            seq![Seq::<int>::empty()],
            0,
            0,
            false,
        ),
{
    let paths = seq![Seq::<int>::empty()];
    assert(rank(paths[0]) == 1);
}

/// The cell under expansion has been found to be no goal.
proof fn lemma_search_checks(
    grid: GridView,
    known: Map<(usize, usize), Tile>,
    occupied: Set<(usize, usize)>,
    start: (usize, usize),
    cells: Seq<(usize, usize)>,
    paths: Seq<Seq<int>>,
    head: int,
)
    requires
        searching(grid, known, occupied, start, cells, paths, head, 0, false),
        head < cells.len(),
        !is_goal(known, start, cells[head]),
    ensures
        searching(grid, known, occupied, start, cells, paths, head, 0, true),
{
}

/// A neighbor that is closed, or discovered before, needs no discovery.
proof fn lemma_search_skips(
    grid: GridView,
    known: Map<(usize, usize), Tile>,
    occupied: Set<(usize, usize)>,
    start: (usize, usize),
    cells: Seq<(usize, usize)>,
    paths: Seq<Seq<int>>,
    head: int,
    done: int,
)
    requires
        searching(grid, known, occupied, start, cells, paths, head, done, true),
        head < cells.len(),
        done < 4,
        open_cell(grid, known, occupied, step_in(cells[head], done)) ==> exists|j: int|
            0 <= j < cells.len() && #[trigger] cells[j] == step_in(cells[head], done),
    ensures
        searching(grid, known, occupied, start, cells, paths, head, done + 1, true),
{
    let next = step_in(cells[head], done);
    if open_cell(grid, known, occupied, next) {
        let j = choose|j: int| 0 <= j < cells.len() && #[trigger] cells[j] == next;
        assert(rank(paths[j]) < 4 * rank(paths[head]) + done);
        assert(reached(cells, paths, next, 4 * rank(paths[head]) + done));
    }
    assert(served(grid, known, occupied, cells, paths, head, done));
}

/// An open neighbor that was not discovered before is discovered now, by the
/// route through the cell under expansion.
proof fn lemma_search_discovers(
    grid: GridView,
    known: Map<(usize, usize), Tile>,
    occupied: Set<(usize, usize)>,
    start: (usize, usize),
    cells: Seq<(usize, usize)>,
    paths: Seq<Seq<int>>,
    head: int,
    done: int,
)
    requires
        searching(grid, known, occupied, start, cells, paths, head, done, true),
        head < cells.len(),
        done < 4,
        open_cell(grid, known, occupied, step_in(cells[head], done)),
    ensures
        searching(
            grid,
            known,
            occupied,
            start,
            cells.push(step_in(cells[head], done)),
            paths.push(paths[head].push(done)),
            head,
            done + 1,
            true,
        ),
{
    let next = step_in(cells[head], done);
    let route = paths[head].push(done);
    let cells2 = cells.push(next);
    let paths2 = paths.push(route);
    assert(route.drop_last() =~= paths[head]);
    assert(rank(route) == 4 * rank(paths[head]) + done);
    assert(is_route(grid, known, occupied, start, route));
    assert forall|j: int| 0 <= j < cells2.len() implies is_route(
        grid,
        known,
        occupied,
        start,
        #[trigger] paths2[j],
    ) && walk(start, paths2[j]) == cells2[j] by {
        if j < cells.len() {
            assert(paths2[j] == paths[j]);
        }
    }
    assert forall|i: int, j: int| 0 <= i < j < cells2.len() implies rank(#[trigger] paths2[i])
        < rank(#[trigger] paths2[j]) by {
        assert(paths2[i] == paths[i]);
        if j < cells.len() {
            assert(paths2[j] == paths[j]);
        }
    }
    assert forall|i: int, dir: int|
        0 <= i < cells2.len() && 0 <= dir < 4 && (i < head || (i == head && dir < done + 1))
        implies #[trigger] served(grid, known, occupied, cells2, paths2, i, dir) by {
        assert(cells2[i] == cells[i] && paths2[i] == paths[i]);
        let to = step_in(cells[i], dir);
        if open_cell(grid, known, occupied, to) {
            if i == head && dir == done {
                assert(cells2[cells.len() as int] == to);
                assert(paths2[cells.len() as int] == route);
            } else {
                assert(served(grid, known, occupied, cells, paths, i, dir));
                let j = choose|j: int|
                    0 <= j < cells.len() && #[trigger] cells[j] == to && rank(paths[j]) <= 4
                        * rank(paths[i]) + dir;
                assert(cells2[j] == to && paths2[j] == paths[j]);
            }
        }
    }
    assert forall|i: int| 0 <= i < cells2.len() && (i < head || (i == head && true))
        implies !is_goal(known, start, #[trigger] cells2[i]) by {
        assert(cells2[i] == cells[i]);
    }
    assert forall|j: int| 0 <= j < cells2.len() implies rank(#[trigger] paths2[j]) < 4 * rank(
        paths2[head],
    ) + (done + 1) by {
        assert(paths2[head] == paths[head]);
        if j < cells.len() {
            assert(paths2[j] == paths[j]);
        }
    }
}

/// A cell expanded in all four directions is done with.
proof fn lemma_search_advances(
    grid: GridView,
    known: Map<(usize, usize), Tile>,
    occupied: Set<(usize, usize)>,
    start: (usize, usize),
    cells: Seq<(usize, usize)>,
    paths: Seq<Seq<int>>,
    head: int,
)
    requires
        searching(grid, known, occupied, start, cells, paths, head, 4, true),
        head < cells.len(),
    ensures
        searching(grid, known, occupied, start, cells, paths, head + 1, 0, false),
{
    if head + 1 < cells.len() {
        assert forall|j: int| 0 <= j < cells.len() implies rank(#[trigger] paths[j]) < 4 * rank(
            paths[head + 1],
        ) + 0 by {
            assert(rank(paths[j]) < 4 * rank(paths[head]) + 4);
            assert(rank(paths[head]) < rank(paths[head + 1]));
        }
    }
}

/// Every route that ranks below the route to the cell under expansion ends
/// on a cell that has been expanded, and that was discovered by a route
/// that ranks no higher. With no cell left to expand, this holds of every
/// route.
proof fn lemma_routes_expanded(
    grid: GridView,
    known: Map<(usize, usize), Tile>,
    occupied: Set<(usize, usize)>,
    start: (usize, usize),
    cells: Seq<(usize, usize)>,
    paths: Seq<Seq<int>>,
    head: int,
    route: Seq<int>,
)
    requires
        searching(grid, known, occupied, start, cells, paths, head, 0, false),
        is_route(grid, known, occupied, start, route),
        head < cells.len() ==> rank(route) < rank(paths[head]),
    ensures
        exists|j: int|
            0 <= j < head && #[trigger] cells[j] == walk(start, route) && rank(paths[j]) <= rank(
                route,
            ),
    decreases route.len(),
{
    if route.len() == 0 {
        assert(rank(paths[0]) == 1);
        assert(cells[0] == walk(start, route));
    } else {
        let shorter = route.drop_last();
        let dir = route.last();
        lemma_route_directions(grid, known, occupied, start, shorter);
        lemma_routes_expanded(grid, known, occupied, start, cells, paths, head, shorter);
        let i = choose|i: int|
            0 <= i < head && #[trigger] cells[i] == walk(start, shorter) && rank(paths[i]) <= rank(
                shorter,
            );
        assert(served(grid, known, occupied, cells, paths, i, dir));
        let to = step_in(cells[i], dir);
        assert(to == walk(start, route));
        let j = choose|j: int|
            0 <= j < cells.len() && #[trigger] cells[j] == to && rank(paths[j]) <= 4 * rank(
                paths[i],
            ) + dir;
        if head < cells.len() && j >= head {
            if j > head {
                assert(rank(paths[head]) < rank(paths[j]));
            }
        }
        assert(0 <= j < head);
    }
}

/// A goal at the head of the search is the end of the best route.
proof fn lemma_search_found(
    grid: GridView,
    known: Map<(usize, usize), Tile>,
    occupied: Set<(usize, usize)>,
    start: (usize, usize),
    cells: Seq<(usize, usize)>,
    paths: Seq<Seq<int>>,
    head: int,
)
    requires
        searching(grid, known, occupied, start, cells, paths, head, 0, false),
        head < cells.len(),
        is_goal(known, start, cells[head]),
    ensures
        is_best_route(grid, known, occupied, start, paths[head]),
{
    assert forall|other: Seq<int>| #[trigger]
        is_goal_route(grid, known, occupied, start, other) implies rank(paths[head]) <= rank(other) by {
        if rank(other) < rank(paths[head]) {
            lemma_routes_expanded(grid, known, occupied, start, cells, paths, head, other);
        }
    }
}

/// A search with nothing left to expand has seen every cell that a route
/// leads to, and none of them is a goal.
proof fn lemma_search_exhausted(
    grid: GridView,
    known: Map<(usize, usize), Tile>,
    occupied: Set<(usize, usize)>,
    start: (usize, usize),
    cells: Seq<(usize, usize)>,
    paths: Seq<Seq<int>>,
)
    requires
        searching(grid, known, occupied, start, cells, paths, cells.len() as int, 0, false),
    ensures
        forall|path: Seq<int>| !#[trigger] is_goal_route(grid, known, occupied, start, path),
{
    assert forall|path: Seq<int>| !#[trigger] is_goal_route(grid, known, occupied, start, path) by {
        if is_goal_route(grid, known, occupied, start, path) {
            lemma_routes_expanded(grid, known, occupied, start, cells, paths, cells.len() as int, path);
        }
    }
}

/// The marks of a search as rows of booleans.
spec fn marks_of(marks: Vec<Vec<bool>>) -> Seq<Seq<bool>> {
    Seq::new(marks@.len(), |r: int| marks@[r]@)
}

/// How many cells of a row are not marked.
spec fn unmarked_in(row: Seq<bool>) -> nat
    decreases row.len(),
{
    if row.len() == 0 {
        0
    } else {
        unmarked_in(row.drop_last()) + if row.last() {
            0nat
        } else {
            1nat
        }
    }
}

/// How many cells are not marked.
spec fn unmarked(rows: Seq<Seq<bool>>) -> nat
    decreases rows.len(),
{
    if rows.len() == 0 {
        0
    } else {
        unmarked(rows.drop_last()) + unmarked_in(rows.last())
    }
}

/// Marking an unmarked cell of a row leaves one unmarked cell less in it.
proof fn lemma_mark_in_row(row: Seq<bool>, col: int)
    requires
        0 <= col < row.len(),
        !row[col],
    ensures
        unmarked_in(row.update(col, true)) + 1 == unmarked_in(row),
    decreases row.len(),
{
    if col == row.len() - 1 {
        assert(row.update(col, true).drop_last() =~= row.drop_last());
    } else {
        assert(row.update(col, true).drop_last() =~= row.drop_last().update(col, true));
        lemma_mark_in_row(row.drop_last(), col);
    }
}

/// Marking an unmarked cell leaves one unmarked cell less.
proof fn lemma_mark(rows: Seq<Seq<bool>>, row: int, col: int)
    requires
        0 <= row < rows.len(),
        0 <= col < rows[row].len(),
        !rows[row][col],
    ensures
        unmarked(rows.update(row, rows[row].update(col, true))) + 1 == unmarked(rows),
    decreases rows.len(),
{
    let after = rows.update(row, rows[row].update(col, true));
    if row == rows.len() - 1 {
        assert(after.drop_last() =~= rows.drop_last());
        lemma_mark_in_row(rows[row], col);
    } else {
        assert(after.drop_last() =~= rows.drop_last().update(
            row,
            rows.drop_last()[row].update(col, true),
        ));
        lemma_mark(rows.drop_last(), row, col);
    }
}

/// One unset mark for every cell of every row of the grid.
fn blank_marks(map: &WorldMap) -> (marks: Vec<Vec<bool>>)
    ensures
        marks@.len() == map.grid@.len(),
        forall|r: int| 0 <= r < marks@.len() ==> (#[trigger] marks@[r])@.len() == map.grid@[r]@.len(),
        forall|r: int, c: int|
            0 <= r < marks@.len() && 0 <= c < marks@[r]@.len() ==> !(#[trigger] marks@[r]@[c]),
{
    let mut marks: Vec<Vec<bool>> = Vec::new();
    let mut r: usize = 0;
    while r < map.grid.len()
        invariant
            r <= map.grid.len(),
            marks@.len() == r,
            forall|i: int| 0 <= i < r ==> (#[trigger] marks@[i])@.len() == map.grid@[i]@.len(),
            forall|i: int, c: int|
                0 <= i < r && 0 <= c < marks@[i]@.len() ==> !(#[trigger] marks@[i]@[c]),
        decreases map.grid.len() - r,
    {
        let width = map.grid[r].len();
        let mut row: Vec<bool> = Vec::new();
        let mut c: usize = 0;
        while c < width
            invariant
                c <= width,
                row@.len() == c,
                forall|k: int| 0 <= k < c ==> !(#[trigger] row@[k]),
            decreases width - c,
        {
            row.push(false);
            c += 1;
        }
        marks.push(row);
        r += 1;
    }
    marks
}

/// A coordinate moved on by one.
fn forward(x: usize) -> (y: usize)
    ensures
        y == shift(x, 1),
{
    if x == usize::MAX {
        0
    } else {
        x + 1
    }
}

/// A coordinate moved back by one.
fn backward(x: usize) -> (y: usize)
    ensures
        y == shift(x, -1),
{
    if x == 0 {
        usize::MAX
    } else {
        x - 1
    }
}

/// A coordinate moved back by one, left alone or moved on by one, as `step`
/// is 0, 1 or 2.
pub(crate) fn offset(x: usize, step: usize) -> (y: usize)
    requires
        step < 3,
    ensures
        y == shift(x, step as int - 1),
{
    if step == 0 {
        backward(x)
    } else if step == 1 {
        x
    } else {
        forward(x)
    }
}

/// The neighbor of a cell in one of the four directions.
fn neighbor(cell: (usize, usize), dir: usize) -> (next: (usize, usize))
    requires
        dir < 4,
    ensures
        next == step_in(cell, dir as int),
{
    if dir == 0 {
        (cell.0, forward(cell.1))
    } else if dir == 1 {
        (forward(cell.0), cell.1)
    } else if dir == 2 {
        (cell.0, backward(cell.1))
    } else {
        (backward(cell.0), cell.1)
    }
}

/// Whether a robot may enter a cell this tick, as far as it can tell.
fn is_open(map: &WorldMap, known: &KnownMap, occupied: &CoordSet, cell: (usize, usize)) -> (open:
    bool)
    ensures
        open == open_cell(map@, known@, occupied@, cell),
{
    if !map.in_bounds(cell) || occupied.contains(&cell) {
        return false;
    }
    match known.get(&cell) {
        Some(Tile::Obstacle) => false,
        _ => true,
    }
}

/// Whether a robot at `position` knows of a resource at `cell` that is not
/// under it.
fn is_wanted(known: &KnownMap, position: (usize, usize), cell: (usize, usize)) -> (wanted: bool)
    ensures
        wanted == is_goal(known@, position, cell),
{
    match known.get(&cell) {
        Some(tile) => tile.is_resource() && (cell.0 != position.0 || cell.1 != position.1),
        None => false,
    }
}

/// The cells of a search queue, without the first steps that lead to them.
spec fn cells_of(queue: Seq<((usize, usize), (usize, usize))>) -> Seq<(usize, usize)> {
    queue.map_values(|entry: ((usize, usize), (usize, usize))| entry.0)
}

/// Frontier search: a breadth-first search from `position` over the four
/// neighbors of each cell, in the fixed order of directions, entering open
/// cells only. It stops at the first cell it comes to that the robot knows
/// to hold a resource and that is not under the robot, and answers with the
/// first cell of the route to it; it answers with nothing where no route
/// leads to such a cell. Of `map` it reads the shape alone.
pub fn frontier_step(
    position: (usize, usize),
    map: &WorldMap,
    known: &KnownMap,
    occupied: &CoordSet,
) -> (next: Option<(usize, usize)>)
    ensures
        is_frontier_step(map@, known@, occupied@, position, next),
        next == frontier_target(map@, known@, occupied@, position),
{
    let ghost grid = map@;
    let ghost kn = known@;
    let ghost occ = occupied@;
    let mut visited = blank_marks(map);
    let mut queue: Vec<((usize, usize), (usize, usize))> = Vec::new();
    queue.push((position, position));
    if map.in_bounds(position) {
        visited[position.0][position.1] = true;
    }
    let ghost mut paths: Seq<Seq<int>> = seq![Seq::<int>::empty()];
    let mut head: usize = 0;
    proof {
        lemma_search_starts(grid, kn, occ, position);
        assert(cells_of(queue@) =~= seq![position]);
    }
    while head < queue.len()
        invariant
            grid == map@,
            kn == known@,
            occ == occupied@,
            visited@.len() == map.grid@.len(),
            forall|r: int|
                0 <= r < visited@.len() ==> (#[trigger] visited@[r])@.len() == map.grid@[r]@.len(),
            head <= queue.len(),
            searching(grid, kn, occ, position, cells_of(queue@), paths, head as int, 0, false),
            forall|j: int|
                0 <= j < queue@.len() && grid.in_bounds((#[trigger] queue@[j]).0)
                    ==> visited@[queue@[j].0.0 as int]@[queue@[j].0.1 as int],
            forall|r: int, c: int|
                0 <= r < visited@.len() && 0 <= c < visited@[r]@.len() && #[trigger] visited@[r]@[c]
                    ==> exists|j: int|
                    0 <= j < queue@.len() && (#[trigger] queue@[j]).0 == (r as usize, c as usize),
            forall|j: int|
                1 <= j < queue@.len() ==> (#[trigger] paths[j]).len() >= 1 && queue@[j].1
                    == step_in(position, paths[j][0]),
        decreases unmarked(marks_of(visited)), queue.len() - head,
    {
        let (cell, first) = queue[head];
        assert(cells_of(queue@)[head as int] == cell);
        if is_wanted(known, position, cell) {
            proof {
                lemma_search_found(grid, kn, occ, position, cells_of(queue@), paths, head as int);
                assert(is_best_route(grid, kn, occ, position, paths[head as int]));
                assert(head >= 1);
                lemma_frontier_step_unique(
                    grid,
                    kn,
                    occ,
                    position,
                    Some(first),
                    frontier_target(grid, kn, occ, position),
                );
            }
            return Some(first);
        }
        proof {
            lemma_search_checks(grid, kn, occ, position, cells_of(queue@), paths, head as int);
        }
        let ghost budget = unmarked(marks_of(visited)) + queue.len();
        let ghost known_before = queue@.len();
        let mut dir: usize = 0;
        while dir < 4
            invariant
                grid == map@,
                kn == known@,
                occ == occupied@,
                visited@.len() == map.grid@.len(),
                forall|r: int|
                    0 <= r < visited@.len() ==> (#[trigger] visited@[r])@.len()
                        == map.grid@[r]@.len(),
                head < queue.len(),
                dir <= 4,
                queue@[head as int] == (cell, first),
                searching(
                    grid,
                    kn,
                    occ,
                    position,
                    cells_of(queue@),
                    paths,
                    head as int,
                    dir as int,
                    true,
                ),
                forall|j: int|
                    0 <= j < queue@.len() && grid.in_bounds((#[trigger] queue@[j]).0)
                        ==> visited@[queue@[j].0.0 as int]@[queue@[j].0.1 as int],
                forall|r: int, c: int|
                    0 <= r < visited@.len() && 0 <= c < visited@[r]@.len()
                        && #[trigger] visited@[r]@[c] ==> exists|j: int|
                        0 <= j < queue@.len() && (#[trigger] queue@[j]).0 == (
                            r as usize,
                            c as usize,
                        ),
                forall|j: int|
                    1 <= j < queue@.len() ==> (#[trigger] paths[j]).len() >= 1 && queue@[j].1
                        == step_in(position, paths[j][0]),
                unmarked(marks_of(visited)) + queue.len() == budget,
                queue@.len() >= known_before,
            decreases 4 - dir,
        {
            let to = neighbor(cell, dir);
            let ghost cells = cells_of(queue@);
            let fresh = is_open(map, known, occupied, to) && !visited[to.0][to.1];
            if fresh {
                let ghost marks_before = marks_of(visited);
                let ghost queue_before = queue@;
                proof {
                    lemma_search_discovers(grid, kn, occ, position, cells, paths, head as int, dir as int);
                    lemma_mark(marks_before, to.0 as int, to.1 as int);
                }
                visited[to.0][to.1] = true;
                let lead = if head == 0 {
                    to
                } else {
                    first
                };
                queue.push((to, lead));
                proof {
                    let route = paths[head as int].push(dir as int);
                    assert(route[0] == if head == 0 {
                        dir as int
                    } else {
                        paths[head as int][0]
                    });
                    paths = paths.push(route);
                    assert(cells_of(queue@) =~= cells.push(to));
                    assert(marks_of(visited) =~= marks_before.update(
                        to.0 as int,
                        marks_before[to.0 as int].update(to.1 as int, true),
                    ));
                    assert forall|j: int|
                        0 <= j < queue@.len() && grid.in_bounds(
                            (#[trigger] queue@[j]).0,
                        ) implies visited@[queue@[j].0.0 as int]@[queue@[j].0.1 as int] by {
                        if j < queue_before.len() {
                            assert(queue@[j] == queue_before[j]);
                        }
                    }
                    assert forall|r: int, c: int|
                        0 <= r < visited@.len() && 0 <= c < visited@[r]@.len()
                            && #[trigger] visited@[r]@[c] implies exists|j: int|
                        0 <= j < queue@.len() && (#[trigger] queue@[j]).0 == (
                            r as usize,
                            c as usize,
                        ) by {
                        if r == to.0 && c == to.1 {
                            assert(queue@[queue_before.len() as int].0 == to);
                        } else {
                            assert(marks_before[r][c]);
                            let j = choose|j: int|
                                0 <= j < queue_before.len() && (#[trigger] queue_before[j]).0 == (
                                    r as usize,
                                    c as usize,
                                );
                            assert(queue@[j] == queue_before[j]);
                        }
                    }
                }
            } else {
                proof {
                    if open_cell(grid, kn, occ, to) {
                        assert(visited@[to.0 as int]@[to.1 as int]);
                        let j = choose|j: int|
                            0 <= j < queue@.len() && (#[trigger] queue@[j]).0 == to;
                        assert(cells[j] == to);
                    }
                    lemma_search_skips(grid, kn, occ, position, cells, paths, head as int, dir as int);
                }
            }
            dir += 1;
        }
        proof {
            lemma_search_advances(grid, kn, occ, position, cells_of(queue@), paths, head as int);
        }
        head += 1;
    }
    proof {
        lemma_search_exhausted(grid, kn, occ, position, cells_of(queue@), paths);
        assert forall|path: Seq<int>| !#[trigger] is_best_route(grid, kn, occ, position, path) by {
            if is_best_route(grid, kn, occ, position, path) {
                assert(is_goal_route(grid, kn, occ, position, path));
            }
        }
    }
    None
}

/// The first neighbor of `position`, in the fixed order of directions, that
/// is open and, where `unexplored` is set, not yet known.
fn first_candidate_of(
    position: (usize, usize),
    map: &WorldMap,
    known: &KnownMap,
    occupied: &CoordSet,
    unexplored: bool,
) -> (next: Option<(usize, usize)>)
    ensures
        next == first_candidate(map@, known@, occupied@, position, unexplored, 0),
{
    let mut dir: usize = 0;
    while dir < 4
        invariant
            dir <= 4,
            first_candidate(map@, known@, occupied@, position, unexplored, 0) == first_candidate(
                map@,
                known@,
                occupied@,
                position,
                unexplored,
                dir as int,
            ),
        decreases 4 - dir,
    {
        let cell = neighbor(position, dir);
        if is_open(map, known, occupied, cell) && (!unexplored || !known.contains_key(&cell)) {
            return Some(cell);
        }
        dir += 1;
    }
    None
}

/// The single-step fallback of an exploring robot with no resource in reach:
/// it prefers a neighbor that it has not seen yet over one that it has, and
/// takes the first in the fixed order of directions.
pub fn fallback_step(
    position: (usize, usize),
    map: &WorldMap,
    known: &KnownMap,
    occupied: &CoordSet,
) -> (next: Option<(usize, usize)>)
    ensures
        next == fallback_target(map@, known@, occupied@, position),
{
    match first_candidate_of(position, map, known, occupied, true) {
        Some(cell) => Some(cell),
        None => first_candidate_of(position, map, known, occupied, false),
    }
}

/// Greedy step toward `target`: one axis-aligned step that brings the robot
/// closer, the row first and then the column; a cell that is not open is
/// passed over, and with both passed over the robot stays.
pub fn greedy_step(
    position: (usize, usize),
    target: (usize, usize),
    map: &WorldMap,
    known: &KnownMap,
    occupied: &CoordSet,
) -> (next: (usize, usize))
    ensures
        next == greedy_target(map@, known@, occupied@, position, target),
{
    if position.0 != target.0 {
        let by_row = if position.0 > target.0 {
            neighbor(position, 3)
        } else {
            neighbor(position, 1)
        };
        if is_open(map, known, occupied, by_row) {
            return by_row;
        }
    }
    if position.1 != target.1 {
        let by_col = if position.1 > target.1 {
            neighbor(position, 2)
        } else {
            neighbor(position, 0)
        };
        if is_open(map, known, occupied, by_col) {
            return by_col;
        }
    }
    position
}

/// Of two paths of one length, neither ranks twice as high as the other.
pub proof fn lemma_rank_same_length(a: Seq<int>, b: Seq<int>)
    requires
        is_direction_seq(a),
        is_direction_seq(b),
        a.len() == b.len(),
    ensures
        rank(a) < 2 * rank(b),
    decreases a.len(),
{
    if a.len() > 0 {
        assert forall|k: int| 0 <= k < a.drop_last().len() implies 0 <= #[trigger] a.drop_last()[k]
            < 4 by {
            assert(a.drop_last()[k] == a[k]);
        }
        assert forall|k: int| 0 <= k < b.drop_last().len() implies 0 <= #[trigger] b.drop_last()[k]
            < 4 by {
            assert(b.drop_last()[k] == b[k]);
        }
        lemma_rank_same_length(a.drop_last(), b.drop_last());
        assert(0 <= a[a.len() - 1] < 4);
        assert(0 <= b[b.len() - 1] < 4);
    }
}

/// A shorter path ranks lower than a longer one.
pub proof fn lemma_shorter_ranks_lower(a: Seq<int>, b: Seq<int>)
    requires
        is_direction_seq(a),
        is_direction_seq(b),
        a.len() < b.len(),
    ensures
        rank(a) < rank(b),
    decreases b.len(),
{
    let shorter = b.drop_last();
    assert forall|k: int| 0 <= k < shorter.len() implies 0 <= #[trigger] shorter[k] < 4 by {
        assert(shorter[k] == b[k]);
    }
    assert(0 <= b[b.len() - 1] < 4);
    lemma_rank_positive(shorter);
    if a.len() == shorter.len() {
        lemma_rank_same_length(a, shorter);
    } else {
        lemma_shorter_ranks_lower(a, shorter);
    }
}

/// Of two paths of one length, the one that takes the lower direction where
/// they first differ ranks lower.
pub proof fn lemma_first_difference_decides(a: Seq<int>, b: Seq<int>, at: int)
    requires
        is_direction_seq(a),
        is_direction_seq(b),
        a.len() == b.len(),
        0 <= at < a.len(),
        forall|k: int| 0 <= k < at ==> a[k] == b[k],
        a[at] < b[at],
    ensures
        rank(a) < rank(b),
    decreases a.len(),
{
    if at == a.len() - 1 {
        assert(a.drop_last() =~= b.drop_last());
    } else {
        assert forall|k: int| 0 <= k < a.drop_last().len() implies 0 <= #[trigger] a.drop_last()[k]
            < 4 by {
            assert(a.drop_last()[k] == a[k]);
        }
        assert forall|k: int| 0 <= k < b.drop_last().len() implies 0 <= #[trigger] b.drop_last()[k]
            < 4 by {
            assert(b.drop_last()[k] == b[k]);
        }
        lemma_first_difference_decides(a.drop_last(), b.drop_last(), at);
        assert(0 <= a[a.len() - 1] < 4);
        assert(0 <= b[b.len() - 1] < 4);
    }
}

/// Every cell along a route is open.
pub proof fn lemma_route_cells_open(
    grid: GridView,
    known: Map<(usize, usize), Tile>,
    occupied: Set<(usize, usize)>,
    start: (usize, usize),
    path: Seq<int>,
    steps: int,
)
    requires
        is_route(grid, known, occupied, start, path),
        0 < steps <= path.len(),
    ensures
        is_route(grid, known, occupied, start, path.take(steps)),
        open_cell(grid, known, occupied, walk(start, path.take(steps))),
    decreases path.len(),
{
    if steps == path.len() {
        assert(path.take(steps) =~= path);
    } else {
        assert(path.take(steps) =~= path.drop_last().take(steps));
        lemma_route_cells_open(grid, known, occupied, start, path.drop_last(), steps);
    }
}

/// A robot only ever moves onto an open neighbor: whatever the frontier
/// search, the fallback or the greedy step name is next to the robot in one
/// of the four directions, inside the grid, not occupied and not known to
/// hold an obstacle; and where the greedy step names nothing of the kind,
/// the robot stays.
pub proof fn lemma_moves_are_safe(
    grid: GridView,
    known: Map<(usize, usize), Tile>,
    occupied: Set<(usize, usize)>,
    position: (usize, usize),
    target: (usize, usize),
)
    ensures
        explore_target(grid, known, occupied, position) matches Some(cell) ==> open_cell(
            grid,
            known,
            occupied,
            cell,
        ) && exists|dir: int| 0 <= dir < 4 && cell == #[trigger] step_in(position, dir),
        greedy_target(grid, known, occupied, position, target) == position || (open_cell(
            grid,
            known,
            occupied,
            greedy_target(grid, known, occupied, position, target),
        ) && exists|dir: int|
            0 <= dir < 4 && greedy_target(grid, known, occupied, position, target) == #[trigger] step_in(
                position,
                dir,
            )),
{
    if frontier_target(grid, known, occupied, position) is Some {
        let best = choose|path: Seq<int>| #[trigger] is_best_route(grid, known, occupied, position, path);
        assert(is_goal_route(grid, known, occupied, position, best));
        assert(best.len() > 0);
        lemma_route_cells_open(grid, known, occupied, position, best, 1);
        lemma_route_directions(grid, known, occupied, position, best);
        let first = best.take(1);
        assert(first.drop_last() =~= Seq::<int>::empty());
        assert(walk(position, first.drop_last()) == position);
        assert(first.last() == best[0]);
        assert(walk(position, first) == step_in(position, best[0]));
    } else {
        reveal_with_fuel(first_candidate, 5);
        let by_sight = first_candidate(grid, known, occupied, position, true, 0);
        let by_order = first_candidate(grid, known, occupied, position, false, 0);
        if by_sight is Some {
            let cell = by_sight->0;
            assert(cell == step_in(position, 0) || cell == step_in(position, 1) || cell == step_in(
                position,
                2,
            ) || cell == step_in(position, 3));
        } else if by_order is Some {
            let cell = by_order->0;
            assert(cell == step_in(position, 0) || cell == step_in(position, 1) || cell == step_in(
                position,
                2,
            ) || cell == step_in(position, 3));
        }
    }
    let greedy = greedy_target(grid, known, occupied, position, target);
    if greedy != position {
        assert(greedy == step_in(position, 0) || greedy == step_in(position, 1) || greedy
            == step_in(position, 2) || greedy == step_in(position, 3));
    }
}

/// Whether a path is a route depends on the shape of the grid alone, not on
/// what its cells hold.
pub proof fn lemma_route_needs_shape_only(
    a: GridView,
    b: GridView,
    known: Map<(usize, usize), Tile>,
    occupied: Set<(usize, usize)>,
    start: (usize, usize),
    path: Seq<int>,
)
    requires
        a.same_shape(b),
    ensures
        is_route(a, known, occupied, start, path) == is_route(b, known, occupied, start, path),
        is_goal_route(a, known, occupied, start, path) == is_goal_route(
            b,
            known,
            occupied,
            start,
            path,
        ),
    decreases path.len(),
{
    if path.len() > 0 {
        lemma_route_needs_shape_only(a, b, known, occupied, start, path.drop_last());
        let cell = walk(start, path);
        assert(a.in_bounds(cell) == b.in_bounds(cell));
    }
}

/// A move is a function of the position, what the robot knows, the occupancy
/// set and the target. Of the grid only the shape plays a part: on two grids
/// of one shape, whatever their cells hold, the pathfinder names the same
/// cell.
pub proof fn lemma_moves_ignore_ground_truth(
    a: GridView,
    b: GridView,
    known: Map<(usize, usize), Tile>,
    occupied: Set<(usize, usize)>,
    position: (usize, usize),
    target: (usize, usize),
)
    requires
        a.same_shape(b),
    ensures
        frontier_target(a, known, occupied, position) == frontier_target(
            b,
            known,
            occupied,
            position,
        ),
        fallback_target(a, known, occupied, position) == fallback_target(
            b,
            known,
            occupied,
            position,
        ),
        explore_target(a, known, occupied, position) == explore_target(
            b,
            known,
            occupied,
            position,
        ),
        greedy_target(a, known, occupied, position, target) == greedy_target(
            b,
            known,
            occupied,
            position,
            target,
        ),
{
    assert forall|cell: (usize, usize)|
        open_cell(a, known, occupied, cell) == open_cell(b, known, occupied, cell) by {
        assert(a.in_bounds(cell) == b.in_bounds(cell));
    }
    assert forall|path: Seq<int>|
        is_goal_route(a, known, occupied, position, path) == #[trigger] is_goal_route(
            b,
            known,
            occupied,
            position,
            path,
        ) by {
        lemma_route_needs_shape_only(a, b, known, occupied, position, path);
    }
    assert forall|path: Seq<int>|
        is_best_route(a, known, occupied, position, path) == #[trigger] is_best_route(
            b,
            known,
            occupied,
            position,
            path,
        ) by {
        if is_best_route(a, known, occupied, position, path) {
            assert forall|other: Seq<int>| #[trigger]
                is_goal_route(b, known, occupied, position, other) implies rank(path) <= rank(
                other,
            ) by {
                assert(is_goal_route(a, known, occupied, position, other));
            }
        }
        if is_best_route(b, known, occupied, position, path) {
            assert forall|other: Seq<int>| #[trigger]
                is_goal_route(a, known, occupied, position, other) implies rank(path) <= rank(
                other,
            ) by {
                assert(is_goal_route(b, known, occupied, position, other));
            }
        }
    }
    if exists|path: Seq<int>| #[trigger] is_best_route(a, known, occupied, position, path) {
        let on_a = choose|path: Seq<int>| #[trigger]
            is_best_route(a, known, occupied, position, path);
        assert(is_best_route(b, known, occupied, position, on_a));
        let on_b = choose|path: Seq<int>| #[trigger]
            is_best_route(b, known, occupied, position, path);
        assert(is_best_route(a, known, occupied, position, on_b));
        lemma_best_route_unique(a, known, occupied, position, on_a, on_b);
    } else {
        assert forall|path: Seq<int>| !#[trigger] is_best_route(
            b,
            known,
            occupied,
            position,
            path,
        ) by {
            assert(!is_best_route(a, known, occupied, position, path));
        }
    }
    reveal_with_fuel(first_candidate, 5);
}

} // verus!
