use vstd::prelude::*;
use crate::grid::{Direction, Grid, Node, MAX_SIDE};

verus! {

/// Marker for a step from cell `from` to cell `to` in a grid of width `w`.
pub open spec fn step_direction(w: int, from: int, to: int) -> Direction {
    if to == from + w {
        Direction::Down
    } else if to + w == from {
        Direction::Up
    } else if to == from + 1 {
        Direction::Right
    } else if to + 1 == from {
        Direction::Left
    } else {
        Direction::Unknown
    }
}

/// Marker left on the `k`-th cell of path `p`.
#[verifier::opaque]
pub open spec fn path_marker(w: int, p: Seq<usize>, k: int) -> Direction {
    if k == p.len() - 1 {
        Direction::Target
    } else {
        step_direction(w, p[k] as int, p[k + 1] as int)
    }
}

/// Cell `c` marked as lying on a path, with marker `d`.
pub open spec fn marked(c: Node, d: Direction) -> Node {
    Node { idx: c.idx, cost: 0, h_cost: c.h_cost, direction: d }
}

/// `after` is `before` with exactly the cells of path `p` marked.
pub open spec fn path_marked(before: &Grid, after: &Grid, p: Seq<usize>) -> bool {
    &&& after.cells@.len() == before.cells@.len()
    &&& forall|k: int|
        0 <= k < p.len() ==> after.cells@[#[trigger] p[k] as int] == marked(
            before.cells@[p[k] as int],
            path_marker(before.width as int, p, k),
        )
    &&& forall|i: int|
        0 <= i < before.cells@.len() && !p.contains(i as usize) ==> #[trigger] after.cells@[i]
            == before.cells@[i]
}

/// Marker for the step from cell `from` to cell `to`.
pub fn direction_of(from: usize, to: usize, width: usize) -> (d: Direction)
    requires
        from <= MAX_SIDE * MAX_SIDE,
        to <= MAX_SIDE * MAX_SIDE,
        width <= MAX_SIDE,
    ensures
        d == step_direction(width as int, from as int, to as int),
{
    if to == from + width {
        Direction::Down
    } else if to + width == from {
        Direction::Up
    } else if to == from + 1 {
        Direction::Right
    } else if to + 1 == from {
        Direction::Left
    } else {
        Direction::Unknown
    }
}

/// The first `k` cells of `p` are marked in `cells`, and every cell not
/// among them is as in `before`.
pub open spec fn marked_upto(before: Seq<Node>, cells: Seq<Node>, w: int, p: Seq<usize>, k: int) -> bool {
    &&& cells.len() == before.len()
    &&& forall|j: int|
        0 <= j < k ==> cells[#[trigger] p[j] as int] == marked(
            before[p[j] as int],
            path_marker(w, p, j),
        )
    &&& forall|i: int|
        0 <= i < before.len() && !p.subrange(0, k).contains(i as usize) ==> #[trigger] cells[i]
            == before[i]
}

/// Marking the `k`-th cell of a path without repeated cells extends
/// `marked_upto` by one.
proof fn lemma_mark_step(before: Seq<Node>, cells: Seq<Node>, w: int, p: Seq<usize>, k: int)
    requires
        marked_upto(before, cells, w, p, k),
        p.no_duplicates(),
        0 <= k < p.len(),
        forall|j: int| 0 <= j < p.len() ==> #[trigger] p[j] < before.len(),
    ensures
        cells[p[k] as int] == before[p[k] as int],
        marked_upto(
            before,
            cells.update(p[k] as int, marked(cells[p[k] as int], path_marker(w, p, k))),
            w,
            p,
            k + 1,
        ),
{
    let i = p[k] as int;
    let cells1 = cells.update(i, marked(cells[i], path_marker(w, p, k)));
    if p.subrange(0, k).contains(p[k]) {
        let j = choose|j: int| 0 <= j < k && p.subrange(0, k)[j] == p[k];
        assert(p[j] == p[k]);
    }
    assert(!p.subrange(0, k).contains(p[k]));
    assert(cells[i] == before[i]);
    assert forall|j: int| 0 <= j < k + 1 implies cells1[#[trigger] p[j] as int] == marked(
        before[p[j] as int],
        path_marker(w, p, j),
    ) by {
        if j < k {
            assert(p[j] != p[k]);
        }
    }
    assert forall|x: int|
        0 <= x < before.len() && !p.subrange(0, k + 1).contains(x as usize) implies #[trigger] cells1[x]
        == before[x] by {
        assert(p.subrange(0, k + 1)[k] == p[k]);
        if p.subrange(0, k).contains(x as usize) {
            let j = choose|j: int| 0 <= j < k && p.subrange(0, k)[j] == x as usize;
            assert(p.subrange(0, k + 1)[j] == x as usize);
        }
    }
}

/// Marks every cell of `path` as on the path: cost 0, and a marker pointing
/// to the next cell, or the target marker on the last one.
pub fn mark_path(grid: &mut Grid, path: &Vec<usize>)
    requires
        old(grid).wf(),
        path@.no_duplicates(),
        forall|k: int| 0 <= k < path@.len() ==> #[trigger] path@[k] < old(grid).num_cells(),
    ensures
        final(grid).width == old(grid).width,
        final(grid).height == old(grid).height,
        final(grid).target == old(grid).target,
        path_marked(old(grid), final(grid), path@),
        forall|i: int|
            0 <= i < final(grid).cells@.len() ==> (#[trigger] final(grid).cells@[i]).idx == old(
                grid,
            ).cells@[i].idx && final(grid).cells@[i].h_cost == old(grid).cells@[i].h_cost,
{
    let ghost before = *grid;
    let ghost w = grid.width as int;
    proof {
        assert(grid.num_cells() <= MAX_SIDE * MAX_SIDE) by (nonlinear_arith)
            requires grid.num_cells() == grid.width * grid.height, grid.width <= MAX_SIDE, grid.height <= MAX_SIDE;
        assert(path@.subrange(0, 0) =~= Seq::<usize>::empty());
    }
    let mut k: usize = 0;
    while k < path.len()
        invariant
            before.num_cells() <= MAX_SIDE * MAX_SIDE,
            before.width <= MAX_SIDE,
            before.cells@.len() == before.num_cells(),
            w == before.width,
            grid.width == before.width,
            grid.height == before.height,
            grid.target == before.target,
            path@.no_duplicates(),
            forall|j: int| 0 <= j < path@.len() ==> #[trigger] path@[j] < before.num_cells(),
            k <= path@.len(),
            marked_upto(before.cells@, grid.cells@, w, path@, k as int),
        decreases path@.len() - k,
    {
        let i = path[k];
        let d = if k + 1 == path.len() {
            Direction::Target
        } else {
            direction_of(path[k], path[k + 1], grid.width)
        };
        proof {
            reveal(path_marker);
            assert(d == path_marker(w, path@, k as int));
            lemma_mark_step(before.cells@, grid.cells@, w, path@, k as int);
        }
        let c = grid.cells[i];
        grid.cells.set(i, Node { idx: c.idx, cost: 0, h_cost: c.h_cost, direction: d });
        k += 1;
    }
    proof {
        assert(path@.subrange(0, path@.len() as int) == path@);
        assert forall|i: int| 0 <= i < grid.cells@.len() implies (#[trigger] grid.cells@[i]).idx
            == before.cells@[i].idx && grid.cells@[i].h_cost == before.cells@[i].h_cost by {
            if path@.contains(i as usize) {
                let k = choose|k: int| 0 <= k < path@.len() && path@[k] == i as usize;
                assert(grid.cells@[path@[k] as int] == marked(
                    before.cells@[path@[k] as int],
                    path_marker(w, path@, k),
                ));
            }
        }
    }
}

} // verus!
