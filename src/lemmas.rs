use vstd::prelude::*;
use crate::grid::{abs_diff, adjacent, lemma_coords, lemma_in_grid, manhattan, Grid, MAX_SIDE};
use crate::marking::path_marker;
use crate::search::{cell_index, lemma_walk_manhattan, query_error, search_outcome};
use crate::grid::Direction;

verus! {

/// Cells from column `x0`, row `y0` to column `x1`, row `y1`: first along
/// the row, then along the column.
pub open spec fn staircase(w: int, x0: int, y0: int, x1: int, y1: int) -> Seq<usize>
    decreases abs_diff(x0, x1) + abs_diff(y0, y1),
{
    let here = seq![(y0 * w + x0) as usize];
    if x0 < x1 {
        here + staircase(w, x0 + 1, y0, x1, y1)
    } else if x1 < x0 {
        here + staircase(w, x0 - 1, y0, x1, y1)
    } else if y0 < y1 {
        here + staircase(w, x0, y0 + 1, x1, y1)
    } else if y1 < y0 {
        here + staircase(w, x0, y0 - 1, x1, y1)
    } else {
        here
    }
}

/// A passable cell next to the first cell of a walk extends it.
proof fn lemma_walk_prepend(grid: &Grid, a: usize, rest: Seq<usize>)
    requires
        grid.is_walk(rest),
        grid.in_grid(a as int),
        grid.passable(a as int),
        adjacent(grid.width as int, a as int, rest[0] as int),
    ensures
        grid.is_walk(seq![a] + rest),
        (seq![a] + rest)[0] == a,
        (seq![a] + rest).last() == rest.last(),
        (seq![a] + rest).len() == rest.len() + 1,
{
    let p = seq![a] + rest;
    assert forall|k: int| 1 <= k < p.len() implies #[trigger] p[k] == rest[k - 1] by {}
    assert forall|k: int| 0 <= k < p.len() - 1 implies adjacent(
        grid.width as int,
        #[trigger] p[k] as int,
        p[k + 1] as int,
    ) by {
        if k > 0 {
            assert(p[k] == rest[k - 1]);
            assert(p[k + 1] == rest[k]);
        }
    }
    assert forall|k: int| 0 <= k < p.len() implies grid.in_grid(#[trigger] p[k] as int)
        && grid.passable(p[k] as int) by {
        if k > 0 {
            assert(p[k] == rest[k - 1]);
        }
    }
}

/// On a grid without walls the staircase between two cells is a walk of
/// `manhattan + 1` cells.
proof fn lemma_staircase(grid: &Grid, x0: int, y0: int, x1: int, y1: int)
    requires
        grid.wf(),
        forall|i: int| 0 <= i < grid.num_cells() ==> #[trigger] grid.passable(i),
        0 <= x0 < grid.width,
        0 <= x1 < grid.width,
        0 <= y0 < grid.height,
        0 <= y1 < grid.height,
    ensures
        grid.walk_between(
            staircase(grid.width as int, x0, y0, x1, y1),
            y0 * grid.width + x0,
            y1 * grid.width + x1,
        ),
        staircase(grid.width as int, x0, y0, x1, y1).len() == abs_diff(x0, x1) + abs_diff(y0, y1)
            + 1,
    decreases abs_diff(x0, x1) + abs_diff(y0, y1),
{
    let w = grid.width as int;
    let h = grid.height as int;
    let a = y0 * w + x0;
    lemma_coords(w, x0, y0);
    assert(0 <= a) by (nonlinear_arith)
        requires 0 <= x0, 0 <= y0, 0 <= w, a == y0 * w + x0;
    lemma_in_grid(w, h, a);
    assert(w * h <= MAX_SIDE * MAX_SIDE) by (nonlinear_arith)
        requires w <= MAX_SIDE, h <= MAX_SIDE, 0 <= w, 0 <= h;
    let here = seq![a as usize];
    assert(grid.is_walk(here));
    let (nx, ny) = if x0 < x1 {
        (x0 + 1, y0)
    } else if x1 < x0 {
        (x0 - 1, y0)
    } else if y0 < y1 {
        (x0, y0 + 1)
    } else {
        (x0, y0 - 1)
    };
    if x0 != x1 || y0 != y1 {
        lemma_staircase(grid, nx, ny, x1, y1);
        let rest = staircase(w, nx, ny, x1, y1);
        lemma_coords(w, nx, ny);
        lemma_walk_prepend(grid, a as usize, rest);
        assert(staircase(w, x0, y0, x1, y1) == here + rest);
    }
}

/// On a grid without walls, a search between two cells finds a walk whose
/// number of steps is the Manhattan distance between them.
pub proof fn lemma_open_grid_manhattan(
    before: &Grid,
    after: &Grid,
    start: (usize, usize),
    target: (usize, usize),
    r: Result<Option<Vec<usize>>, crate::grid::SearchError>,
)
    requires
        before.wf(),
        forall|i: int| 0 <= i < before.num_cells() ==> #[trigger] before.passable(i),
        query_error(before, start, target) is None,
        search_outcome(before, after, start, target, r),
    ensures
        r matches Ok(Some(p)) && p@.len() - 1 == manhattan(
            before.width as int,
            cell_index(before.width as int, start),
            cell_index(before.width as int, target),
        ),
{
    let w = before.width as int;
    let s = cell_index(w, start);
    let t = cell_index(w, target);
    lemma_staircase(before, start.0 as int, start.1 as int, target.0 as int, target.1 as int);
    let q = staircase(w, start.0 as int, start.1 as int, target.0 as int, target.1 as int);
    assert(before.walk_between(q, s, t));
    lemma_coords(w, start.0 as int, start.1 as int);
    lemma_coords(w, target.0 as int, target.1 as int);
    match r {
        Ok(Some(p)) => {
            assert(p@.len() <= q.len());
            lemma_walk_manhattan(before, p@, t);
        },
        _ => {
            assert(before.connected(s, t));
        },
    }
}

/// A search from a cell to itself finds the walk of that one cell, and
/// marks it, alone, as the target.
pub proof fn lemma_start_is_target(
    before: &Grid,
    after: &Grid,
    start: (usize, usize),
    r: Result<Option<Vec<usize>>, crate::grid::SearchError>,
)
    requires
        before.wf(),
        query_error(before, start, start) is None,
        search_outcome(before, after, start, start, r),
    ensures
        r matches Ok(Some(p)) && p@ == seq![cell_index(before.width as int, start) as usize],
        after.cells@[cell_index(before.width as int, start)].cost == 0,
        after.cells@[cell_index(before.width as int, start)].direction == Direction::Target,
        forall|i: int|
            0 <= i < before.num_cells() && i != cell_index(before.width as int, start)
                ==> #[trigger] after.cells@[i] == before.cells@[i],
{
    let w = before.width as int;
    let s = cell_index(w, start);
    let one = seq![s as usize];
    assert(before.walk_between(one, s, s));
    match r {
        Ok(Some(p)) => {
            assert(p@.len() <= 1);
            assert(p@ =~= one);
            assert(path_marker(w, p@, 0) == Direction::Target) by {
                reveal(path_marker);
            }
            assert(after.cells@[p@[0] as int].direction == Direction::Target);
            assert(before.num_cells() <= MAX_SIDE * MAX_SIDE) by (nonlinear_arith)
                requires before.num_cells() == before.width * before.height, before.width <= MAX_SIDE,
                    before.height <= MAX_SIDE;
            assert forall|i: int|
                0 <= i < before.num_cells() && i != s implies #[trigger] after.cells@[i]
                == before.cells@[i] by {
                if p@.contains(i as usize) {
                    assert(p@[0] == i as usize);
                }
            }
        },
        _ => {
            assert(before.connected(s, s));
        },
    }
}

/// Two searches with the same query on the same grid agree: on the error,
/// on whether a walk is found, and on its length.
pub proof fn lemma_repeat_search_agrees(
    before: &Grid,
    after1: &Grid,
    after2: &Grid,
    start: (usize, usize),
    target: (usize, usize),
    r1: Result<Option<Vec<usize>>, crate::grid::SearchError>,
    r2: Result<Option<Vec<usize>>, crate::grid::SearchError>,
)
    requires
        search_outcome(before, after1, start, target, r1),
        search_outcome(before, after2, start, target, r2),
    ensures
        r1 is Err ==> r1 == r2,
        r1 is Ok <==> r2 is Ok,
        r1 matches Ok(o1) ==> (r2 matches Ok(o2) && (o1 is Some <==> o2 is Some)),
        r1 matches Ok(Some(pa)) ==> (r2 matches Ok(Some(pb)) && pa@.len() == pb@.len()),
{
    let w = before.width as int;
    let s = cell_index(w, start);
    let t = cell_index(w, target);
    if query_error(before, start, target) is None {
        match (r1, r2) {
            (Ok(Some(pa)), Ok(Some(pb))) => {
                assert(before.walk_between(pa@, s, t));
                assert(before.walk_between(pb@, s, t));
            },
            (Ok(Some(pa)), Ok(None)) => {
                assert(before.walk_between(pa@, s, t));
            },
            (Ok(None), Ok(Some(pb))) => {
                assert(before.walk_between(pb@, s, t));
            },
            _ => {},
        }
    }
}

/// Where no walk joins start and target, the search reports that and
/// leaves every cell as it was.
pub proof fn lemma_unreachable_untouched(
    before: &Grid,
    after: &Grid,
    start: (usize, usize),
    target: (usize, usize),
    r: Result<Option<Vec<usize>>, crate::grid::SearchError>,
)
    requires
        query_error(before, start, target) is None,
        !before.connected(cell_index(before.width as int, start), cell_index(before.width as int, target)),
        search_outcome(before, after, start, target, r),
    ensures
        r matches Ok(None),
        after.cells@ == before.cells@,
{
    let w = before.width as int;
    if let Ok(Some(p)) = r {
        assert(before.walk_between(p@, cell_index(w, start), cell_index(w, target)));
    }
}

} // verus!
