use vstd::prelude::*;
use crate::grid::{
    adjacent, get_adjacent, get_idx, lemma_in_grid, lemma_index, manhattan, Grid, Node,
    SearchError, IMPASSABLE_COST, MAX_SIDE,
};
use crate::marking::{mark_path, path_marked};

verus! {

/// Search status of a cell that has not been reached yet.
pub const NEW: u8 = 0;

/// Search status of a cell in the frontier.
pub const OPEN: u8 = 1;

/// Search status of a cell whose shortest distance is settled.
pub const CLOSED: u8 = 2;

/// Estimated total cost of a route through cell `i`.
pub open spec fn f_cost(g: Seq<usize>, cells: Seq<Node>, i: int) -> int {
    g[i] + cells[i].h_cost
}

/// Every frontier entry indexes both arrays, with costs small enough to add.
pub open spec fn frontier_bounded(g: Seq<usize>, cells: Seq<Node>, open: Seq<usize>) -> bool {
    forall|k: int|
        0 <= k < open.len() ==> #[trigger] open[k] < g.len() && open[k] < cells.len()
            && g[open[k] as int] <= MAX_SIDE * MAX_SIDE
            && cells[open[k] as int].h_cost <= 2 * MAX_SIDE
}

/// Position in `open` of the first entry of least f-cost.
pub fn min_by_fcost(g: &Vec<usize>, cells: &Vec<Node>, open: &Vec<usize>) -> (pos: usize)
    requires
        open@.len() > 0,
        frontier_bounded(g@, cells@, open@),
    ensures
        pos < open@.len(),
        forall|k: int|
            0 <= k < open@.len() ==> f_cost(g@, cells@, open@[pos as int] as int) <= f_cost(
                g@,
                cells@,
                #[trigger] open@[k] as int,
            ),
        forall|k: int|
            0 <= k < pos ==> f_cost(g@, cells@, open@[pos as int] as int) < f_cost(
                g@,
                cells@,
                #[trigger] open@[k] as int,
            ),
{
    let mut best: usize = 0;
    let mut best_f: usize = g[open[0]] + cells[open[0]].h_cost;
    let mut i: usize = 1;
    while i < open.len()
        invariant
            1 <= i <= open@.len(),
            frontier_bounded(g@, cells@, open@),
            best < i,
            best_f == f_cost(g@, cells@, open@[best as int] as int),
            forall|k: int|
                0 <= k < i ==> best_f <= f_cost(g@, cells@, #[trigger] open@[k] as int),
            forall|k: int| 0 <= k < best ==> best_f < f_cost(g@, cells@, #[trigger] open@[k] as int),
        decreases open@.len() - i,
    {
        let f = g[open[i]] + cells[open[i]].h_cost;
        if f < best_f {
            best = i;
            best_f = f;
        }
        i += 1;
    }
    best
}

/// Along a walk the heuristic drops by at most one per step.
pub proof fn lemma_walk_manhattan(grid: &Grid, q: Seq<usize>, t: int)
    requires
        grid.width > 0,
        grid.is_walk(q),
    ensures
        manhattan(grid.width as int, q[0] as int, t) <= q.len() - 1 + manhattan(
            grid.width as int,
            q.last() as int,
            t,
        ),
    decreases q.len(),
{
    if q.len() > 1 {
        let rest = q.subrange(1, q.len() as int);
        assert forall|k: int| 0 <= k < rest.len() - 1 implies adjacent(
            grid.width as int,
            #[trigger] rest[k] as int,
            rest[k + 1] as int,
        ) by {
            assert(rest[k] == q[k + 1]);
            assert(rest[k + 1] == q[k + 2]);
        }
        assert(forall|k: int| 0 <= k < rest.len() ==> #[trigger] rest[k] == q[k + 1]);
        lemma_walk_manhattan(grid, rest, t);
        assert(adjacent(grid.width as int, q[0] as int, q[1] as int));
    }
}

/// Where a walk starts in a closed cell and ends in one that is not,
/// some step leaves the closed cells.
proof fn lemma_first_unclosed(q: Seq<usize>, status: Seq<u8>, i: int) -> (j: int)
    requires
        0 <= i < q.len(),
        forall|k: int| 0 <= k < q.len() ==> #[trigger] q[k] < status.len(),
        status[q[i] as int] == CLOSED,
        status[q.last() as int] != CLOSED,
        forall|k: int| 0 <= k <= i ==> status[#[trigger] q[k] as int] == CLOSED,
    ensures
        0 < j < q.len(),
        status[q[j - 1] as int] == CLOSED,
        status[q[j] as int] != CLOSED,
        forall|k: int| 0 <= k < j ==> status[#[trigger] q[k] as int] == CLOSED,
    decreases q.len() - i,
{
    if status[q[i + 1] as int] != CLOSED {
        i + 1
    } else {
        lemma_first_unclosed(q, status, i + 1)
    }
}

/// Cell `i` was reached from a settled neighbour, one step further from the start.
pub open spec fn parent_ok(grid: &Grid, g: Seq<usize>, prev: Seq<Option<usize>>, status: Seq<u8>, i: int) -> bool {
    match prev[i] {
        Some(p) => {
            &&& p < grid.num_cells()
            &&& status[p as int] == CLOSED
            &&& adjacent(grid.width as int, i, p as int)
            &&& g[i] == g[p as int] + 1
        },
        None => false,
    }
}

/// Frontier entries are distinct open cells, and every open cell is an entry;
/// reached cells are passable and cost at most `count`.
#[verifier::opaque]
pub open spec fn frontier_ok(grid: &Grid, g: Seq<usize>, status: Seq<u8>, open: Seq<usize>, count: int) -> bool {
    let n = grid.num_cells();
    &&& open.no_duplicates()
    &&& forall|k: int| 0 <= k < open.len() ==> #[trigger] open[k] < n && status[open[k] as int] == OPEN
    &&& forall|i: int|
        0 <= i < n ==> #[trigger] status[i] <= CLOSED && (status[i] == OPEN ==> open.contains(
            i as usize,
        )) && (status[i] != NEW ==> grid.passable(i) && g[i] <= count)
}

/// Every reached cell but the start has a settled parent one step closer.
#[verifier::opaque]
pub open spec fn tree_ok(grid: &Grid, g: Seq<usize>, prev: Seq<Option<usize>>, status: Seq<u8>, s: int) -> bool {
    forall|i: int|
        0 <= i < grid.num_cells() && i != s && #[trigger] status[i] != NEW ==> parent_ok(
            grid,
            g,
            prev,
            status,
            i,
        )
}

/// Passable neighbours of settled cells have been reached, but for the
/// neighbours `pending` of `u`.
#[verifier::opaque]
pub open spec fn closure_ok(grid: &Grid, status: Seq<u8>, u: int, pending: Seq<usize>) -> bool {
    let n = grid.num_cells();
    forall|c: int, b: int|
        0 <= c < n && 0 <= b < n && status[c] == CLOSED && #[trigger] adjacent(
            grid.width as int,
            c,
            b,
        ) && grid.passable(b) && !(c == u && pending.contains(b as usize)) ==> status[b] != NEW
}

/// An open cell costs at most one more than any settled neighbour, but for
/// the neighbours `pending` of `u`.
#[verifier::opaque]
pub open spec fn relaxed_ok(grid: &Grid, g: Seq<usize>, status: Seq<u8>, u: int, pending: Seq<usize>) -> bool {
    let n = grid.num_cells();
    forall|o: int, c: int|
        0 <= o < n && 0 <= c < n && status[o] == OPEN && status[c] == CLOSED && #[trigger] adjacent(
            grid.width as int,
            o,
            c,
        ) && !(c == u && pending.contains(o as usize)) ==> g[o] <= g[c] + 1
}

/// The cost of a settled cell is no more than the steps of any walk to it.
#[verifier::opaque]
pub open spec fn settled_ok(grid: &Grid, g: Seq<usize>, status: Seq<u8>, s: int) -> bool {
    forall|c: int, q: Seq<usize>|
        0 <= c < grid.num_cells() && status[c] == CLOSED && #[trigger] grid.walk_between(q, s, c)
            ==> g[c] <= q.len() - 1
}

/// The bookkeeping of a search from `s` towards `t` after `count` cells were
/// settled.  The last settled cell `u` may still have the neighbours in
/// `pending` to look at.
pub open spec fn search_inv(
    grid: &Grid,
    s: int,
    t: int,
    g: Seq<usize>,
    prev: Seq<Option<usize>>,
    status: Seq<u8>,
    open: Seq<usize>,
    count: int,
    u: int,
    pending: Seq<usize>,
) -> bool {
    let n = grid.num_cells();
    &&& grid.wf()
    &&& 0 <= s < n
    &&& t == grid.target
    &&& grid.passable(s)
    &&& grid.passable(t)
    &&& g.len() == n
    &&& prev.len() == n
    &&& status.len() == n
    &&& 0 <= count <= n
    &&& status[s] != NEW
    &&& g[s] == 0
    &&& prev[s] is None
    &&& count == 0 ==> open == seq![s as usize]
    &&& count > 0 ==> status[s] == CLOSED
    &&& status[t] != CLOSED
    &&& frontier_ok(grid, g, status, open, count)
    &&& tree_ok(grid, g, prev, status, s)
    &&& closure_ok(grid, status, u, pending)
    &&& relaxed_ok(grid, g, status, u, pending)
    &&& settled_ok(grid, g, status, s)
}

/// Every heuristic value of a well-formed grid is at most `2 * MAX_SIDE`.
proof fn lemma_h_bounded(grid: &Grid)
    requires
        grid.wf(),
    ensures
        forall|i: int| 0 <= i < grid.num_cells() ==> #[trigger] grid.cells@[i].h_cost <= 2 * MAX_SIDE,
{
    let w = grid.width as int;
    let h = grid.height as int;
    lemma_index(w, grid.target as int);
    lemma_in_grid(w, h, grid.target as int);
    assert forall|i: int| 0 <= i < grid.num_cells() implies #[trigger] grid.cells@[i].h_cost <= 2
        * MAX_SIDE by {
        lemma_index(w, i);
        lemma_in_grid(w, h, i);
    }
}

/// A walk from the start to the cell popped from the frontier is no shorter
/// than the cost recorded for that cell.
proof fn lemma_pop_optimal(
    grid: &Grid,
    s: int,
    t: int,
    g: Seq<usize>,
    prev: Seq<Option<usize>>,
    status: Seq<u8>,
    open: Seq<usize>,
    count: int,
    pos: int,
    q: Seq<usize>,
)
    requires
        search_inv(grid, s, t, g, prev, status, open, count, -1, Seq::empty()),
        0 <= pos < open.len(),
        forall|k: int|
            0 <= k < open.len() ==> f_cost(g, grid.cells@, open[pos] as int) <= f_cost(
                g,
                grid.cells@,
                #[trigger] open[k] as int,
            ),
        grid.walk_between(q, s, open[pos] as int),
    ensures
        g[open[pos] as int] <= q.len() - 1,
{
    reveal(frontier_ok);
    reveal(closure_ok);
    reveal(relaxed_ok);
    reveal(settled_ok);
    let w = grid.width as int;
    let u = open[pos] as int;
    if u != s {
        if count == 0 {
            assert(open[pos] == s);
        }
        assert(status[u] == OPEN);
        let j = lemma_first_unclosed(q, status, 0);
        let a = q[j - 1] as int;
        let b = q[j] as int;
        let before = q.subrange(0, j);
        assert(grid.walk_between(before, s, a)) by {
            assert forall|k: int| 0 <= k < before.len() - 1 implies adjacent(
                w,
                #[trigger] before[k] as int,
                before[k + 1] as int,
            ) by {
                assert(before[k] == q[k]);
                assert(before[k + 1] == q[k + 1]);
            }
            assert(forall|k: int| 0 <= k < before.len() ==> #[trigger] before[k] == q[k]);
        }
        assert(g[a] <= j - 1);
        assert(adjacent(w, a, b));
        assert(grid.in_grid(b) && grid.passable(b));
        assert(status[b] != NEW);
        assert(status[b] == OPEN);
        assert(adjacent(w, b, a));
        assert(g[b] <= j);
        assert(open.contains(b as usize));
        let kb = choose|kb: int| 0 <= kb < open.len() && open[kb] == b as usize;
        assert(f_cost(g, grid.cells@, u) <= f_cost(g, grid.cells@, open[kb] as int));
        let after = q.subrange(j, q.len() as int);
        assert(grid.is_walk(after)) by {
            assert forall|k: int| 0 <= k < after.len() - 1 implies adjacent(
                w,
                #[trigger] after[k] as int,
                after[k + 1] as int,
            ) by {
                assert(after[k] == q[k + j]);
                assert(after[k + 1] == q[k + 1 + j]);
            }
            assert(forall|k: int| 0 <= k < after.len() ==> #[trigger] after[k] == q[k + j]);
        }
        lemma_walk_manhattan(grid, after, t);
        assert(after.last() == u);
    }
}

/// A walk from a settled cell to one that was never reached leaves the
/// settled cells through a frontier cell.
proof fn lemma_frontier_separates(
    grid: &Grid,
    s: int,
    t: int,
    g: Seq<usize>,
    prev: Seq<Option<usize>>,
    status: Seq<u8>,
    open: Seq<usize>,
    count: int,
)
    requires
        search_inv(grid, s, t, g, prev, status, open, count, -1, Seq::empty()),
        open.len() == 0,
    ensures
        !grid.connected(s, t),
{
    reveal(frontier_ok);
    reveal(closure_ok);
    let w = grid.width as int;
    assert forall|q: Seq<usize>| !grid.walk_between(q, s, t) by {
        if grid.walk_between(q, s, t) {
            if count == 0 {
                assert(open.len() == 1);
            }
            let j = lemma_first_unclosed(q, status, 0);
            let a = q[j - 1] as int;
            let b = q[j] as int;
            assert(adjacent(w, a, b));
            assert(status[b] != NEW);
            assert(open.contains(b as usize));
        }
    }
}

/// A vector of `n` copies of `v`.
fn repeat<T: Copy>(v: T, n: usize) -> (r: Vec<T>)
    ensures
        r@.len() == n,
        forall|i: int| 0 <= i < n ==> r@[i] == v,
{
    let mut r: Vec<T> = Vec::new();
    let mut i: usize = 0;
    while i < n
        invariant
            i <= n,
            r@.len() == i,
            forall|k: int| 0 <= k < i ==> r@[k] == v,
        decreases n - i,
    {
        r.push(v);
        i += 1;
    }
    r
}

/// Follows the parent links from `t` back to `s` and returns the cells from
/// `s` to `t`.
fn backtrace(
    grid: &Grid,
    g: &Vec<usize>,
    prev: &Vec<Option<usize>>,
    status: &Vec<u8>,
    s: usize,
    t: usize,
) -> (p: Vec<usize>)
    requires
        grid.wf(),
        s < grid.num_cells(),
        t < grid.num_cells(),
        g@.len() == grid.num_cells(),
        prev@.len() == grid.num_cells(),
        status@.len() == grid.num_cells(),
        status@[s as int] != NEW,
        status@[t as int] != NEW,
        g@[s as int] == 0,
        forall|i: int|
            0 <= i < grid.num_cells() && #[trigger] status@[i] != NEW ==> grid.passable(i),
        tree_ok(grid, g@, prev@, status@, s as int),
    ensures
        grid.walk_between(p@, s as int, t as int),
        p@.len() == g@[t as int] + 1,
        p@.no_duplicates(),
{
    let ghost n = grid.num_cells();
    let ghost w = grid.width as int;
    let mut rev: Vec<usize> = Vec::new();
    rev.push(t);
    let mut cur: usize = t;
    while cur != s
        invariant
            grid.wf(),
            n == grid.num_cells(),
            w == grid.width,
            s < n,
            t < n,
            g@.len() == n,
            prev@.len() == n,
            status@.len() == n,
            g@[s as int] == 0,
            forall|i: int| 0 <= i < n && #[trigger] status@[i] != NEW ==> grid.passable(i),
            tree_ok(grid, g@, prev@, status@, s as int),
            cur < n,
            status@[cur as int] != NEW,
            rev@.len() >= 1,
            rev@[0] == t,
            rev@.last() == cur,
            forall|k: int|
                0 <= k < rev@.len() ==> #[trigger] rev@[k] < n && status@[rev@[k] as int] != NEW
                    && g@[rev@[k] as int] + k == g@[t as int],
            forall|k: int|
                0 <= k < rev@.len() - 1 ==> adjacent(w, #[trigger] rev@[k] as int, rev@[k + 1] as int),
        decreases g@[cur as int],
    {
        proof {
            reveal(tree_ok);
            assert(parent_ok(grid, g@, prev@, status@, cur as int));
        }
        let p = prev[cur].unwrap();
        rev.push(p);
        cur = p;
    }
    let len = rev.len();
    let mut path: Vec<usize> = Vec::new();
    let mut k: usize = len;
    while k > 0
        invariant
            len == rev@.len(),
            k <= len,
            path@.len() == len - k,
            forall|j: int| 0 <= j < path@.len() ==> #[trigger] path@[j] == rev@[len - 1 - j],
        decreases k,
    {
        k -= 1;
        path.push(rev[k]);
    }
    proof {
        assert forall|j: int| 0 <= j < path@.len() implies grid.in_grid(#[trigger] path@[j] as int)
            && grid.passable(path@[j] as int) by {
            assert(rev@[len - 1 - j] < n);
            assert(status@[rev@[len - 1 - j] as int] != NEW);
        }
        assert forall|j: int| 0 <= j < path@.len() - 1 implies adjacent(
            w,
            #[trigger] path@[j] as int,
            path@[j + 1] as int,
        ) by {
            assert(path@[j] == rev@[len - 1 - j]);
            assert(path@[j + 1] == rev@[len - 1 - j - 1]);
            assert(adjacent(w, rev@[len - 2 - j] as int, rev@[len - 1 - j] as int));
        }
        assert forall|i: int, j: int|
            0 <= i < path@.len() && 0 <= j < path@.len() && i != j implies path@[i] != path@[j] by {
            assert(path@[i] == rev@[len - 1 - i]);
            assert(path@[j] == rev@[len - 1 - j]);
            assert(g@[rev@[len - 1 - i] as int] + (len - 1 - i) == g@[t as int]);
            assert(g@[rev@[len - 1 - j] as int] + (len - 1 - j) == g@[t as int]);
        }
        assert(path@[0] == rev@[len - 1]);
        assert(path@.last() == rev@[0]);
    }
    path
}

/// Pending neighbours after the one at position `k` has been looked at.
proof fn lemma_pending_step(adj: Seq<usize>, k: int)
    requires
        adj.no_duplicates(),
        0 <= k < adj.len(),
    ensures
        forall|x: usize|
            adj.subrange(k + 1, adj.len() as int).contains(x) <==> (adj.subrange(
                k,
                adj.len() as int,
            ).contains(x) && x != adj[k]),
{
    let a = adj.subrange(k, adj.len() as int);
    let b = adj.subrange(k + 1, adj.len() as int);
    assert forall|x: usize| b.contains(x) <==> (a.contains(x) && x != adj[k]) by {
        if b.contains(x) {
            let j = choose|j: int| 0 <= j < b.len() && b[j] == x;
            assert(a[j + 1] == x);
            assert(adj[k + 1 + j] == x);
        }
        if a.contains(x) && x != adj[k] {
            let j = choose|j: int| 0 <= j < a.len() && a[j] == x;
            assert(j != 0);
            assert(b[j - 1] == x);
        }
    }
}

/// Settling the popped cell `u` keeps the bookkeeping, with all of `u`'s
/// neighbours `adj` still to look at.
proof fn lemma_settle(
    grid: &Grid,
    s: int,
    t: int,
    g: Seq<usize>,
    prev: Seq<Option<usize>>,
    status: Seq<u8>,
    open: Seq<usize>,
    count: int,
    pos: int,
    adj: Seq<usize>,
)
    requires
        search_inv(grid, s, t, g, prev, status, open, count, -1, Seq::empty()),
        count < grid.num_cells(),
        0 <= pos < open.len(),
        open[pos] != t,
        forall|q: Seq<usize>| #[trigger]
            grid.walk_between(q, s, open[pos] as int) ==> g[open[pos] as int] <= q.len() - 1,
        forall|b: int|
            0 <= b < grid.num_cells() && adjacent(grid.width as int, open[pos] as int, b)
                ==> adj.contains(b as usize),
    ensures
        search_inv(
            grid,
            s,
            t,
            g,
            prev,
            status.update(open[pos] as int, CLOSED),
            open.remove(pos),
            count + 1,
            open[pos] as int,
            adj,
        ),
        g[open[pos] as int] <= count,
{
    let n = grid.num_cells();
    let w = grid.width as int;
    let u = open[pos] as int;
    let status1 = status.update(u, CLOSED);
    let open1 = open.remove(pos);
    assert(u < n && status[u] == OPEN && g[u] <= count) by {
        reveal(frontier_ok);
    }
    if count == 0 {
        assert(u == s);
    }
    assert(frontier_ok(grid, g, status1, open1, count + 1)) by {
        reveal(frontier_ok);
        assert forall|k: int| 0 <= k < open1.len() implies #[trigger] open1[k] < n
            && status1[open1[k] as int] == OPEN by {
            if k < pos {
                assert(open1[k] == open[k]);
            } else {
                assert(open1[k] == open[k + 1]);
            }
        }
        assert forall|i: int| 0 <= i < n && #[trigger] status1[i] == OPEN implies open1.contains(
            i as usize,
        ) by {
            assert(open.contains(i as usize));
            let j = choose|j: int| 0 <= j < open.len() && open[j] == i as usize;
            if j < pos {
                assert(open1[j] == i);
            } else {
                assert(open1[j - 1] == i);
            }
        }
        assert forall|i: int, j: int|
            0 <= i < open1.len() && 0 <= j < open1.len() && i != j implies open1[i]
            != open1[j] by {
            let i0 = if i < pos { i } else { i + 1 };
            let j0 = if j < pos { j } else { j + 1 };
            assert(open1[i] == open[i0]);
            assert(open1[j] == open[j0]);
        }
    }
    assert(tree_ok(grid, g, prev, status1, s)) by {
        reveal(tree_ok);
        assert forall|i: int|
            0 <= i < n && i != s && #[trigger] status1[i] != NEW implies parent_ok(
            grid,
            g,
            prev,
            status1,
            i,
        ) by {
            assert(status[i] != NEW);
            assert(parent_ok(grid, g, prev, status, i));
        }
    }
    assert(closure_ok(grid, status1, u, adj)) by {
        reveal(closure_ok);
        reveal(frontier_ok);
    }
    assert(relaxed_ok(grid, g, status1, u, adj)) by {
        reveal(relaxed_ok);
        assert forall|o: int, c: int|
            0 <= o < n && 0 <= c < n && status1[o] == OPEN && status1[c] == CLOSED
                && #[trigger] adjacent(w, o, c) && !(c == u && adj.contains(o as usize)) implies g[o]
            <= g[c] + 1 by {
            if c == u {
                assert(adjacent(w, u, o));
            }
        }
    }
    assert(settled_ok(grid, g, status1, s)) by {
        reveal(settled_ok);
    }
}

/// Looking at neighbour `b` of `u` without changing anything keeps the
/// bookkeeping, with `b` no longer pending.
proof fn lemma_skip(
    grid: &Grid,
    s: int,
    t: int,
    g: Seq<usize>,
    prev: Seq<Option<usize>>,
    status: Seq<u8>,
    open: Seq<usize>,
    count: int,
    u: int,
    adj: Seq<usize>,
    k: int,
)
    requires
        search_inv(grid, s, t, g, prev, status, open, count, u, adj.subrange(k, adj.len() as int)),
        adj.no_duplicates(),
        0 <= k < adj.len(),
        adj[k] < grid.num_cells(),
        status[adj[k] as int] == CLOSED || !grid.passable(adj[k] as int) || (status[adj[k] as int]
            != NEW && g[adj[k] as int] <= g[u] + 1),
    ensures
        search_inv(grid, s, t, g, prev, status, open, count, u, adj.subrange(k + 1, adj.len() as int)),
{
    lemma_pending_step(adj, k);
    assert(status[adj[k] as int] != NEW ==> grid.passable(adj[k] as int)) by {
        reveal(frontier_ok);
    }
    assert(closure_ok(grid, status, u, adj.subrange(k + 1, adj.len() as int))) by {
        reveal(closure_ok);
    }
    let b = adj[k] as int;
    let pend0 = adj.subrange(k, adj.len() as int);
    let pend1 = adj.subrange(k + 1, adj.len() as int);
    let n = grid.num_cells();
    let w = grid.width as int;
    assert(n <= MAX_SIDE * MAX_SIDE) by (nonlinear_arith)
        requires n == grid.width * grid.height, grid.width <= MAX_SIDE, grid.height <= MAX_SIDE;
    assert(relaxed_ok(grid, g, status, u, pend1)) by {
        reveal(relaxed_ok);
        assert forall|o: int, c: int|
            0 <= o < n && 0 <= c < n && status[o] == OPEN && status[c] == CLOSED
                && #[trigger] adjacent(w, o, c) && !(c == u && pend1.contains(o as usize)) implies g[o]
            <= g[c] + 1 by {
            if c == u && o != b {
                assert(pend1.contains(o as usize) <==> (pend0.contains(o as usize) && o as usize != adj[k]));
                assert(!pend0.contains(o as usize));
            }
        }
    }
}

/// Giving neighbour `b` of the settled cell `u` the cost `g[u] + 1` through
/// `u` keeps the bookkeeping, with `b` no longer pending.  A cell not reached
/// before joins the frontier.
proof fn lemma_reach(
    grid: &Grid,
    s: int,
    t: int,
    g: Seq<usize>,
    prev: Seq<Option<usize>>,
    status: Seq<u8>,
    open: Seq<usize>,
    count: int,
    u: int,
    adj: Seq<usize>,
    k: int,
)
    requires
        search_inv(grid, s, t, g, prev, status, open, count, u, adj.subrange(k, adj.len() as int)),
        adj.no_duplicates(),
        0 <= k < adj.len(),
        0 <= u < grid.num_cells(),
        status[u] == CLOSED,
        g[u] < count,
        adj[k] < grid.num_cells(),
        adjacent(grid.width as int, u, adj[k] as int),
        grid.passable(adj[k] as int),
        status[adj[k] as int] != CLOSED,
        status[adj[k] as int] == NEW || g[u] + 1 < g[adj[k] as int],
    ensures
        search_inv(
            grid,
            s,
            t,
            g.update(adj[k] as int, (g[u] + 1) as usize),
            prev.update(adj[k] as int, Some(u as usize)),
            status.update(adj[k] as int, OPEN),
            if status[adj[k] as int] == NEW { open.push(adj[k]) } else { open },
            count,
            u,
            adj.subrange(k + 1, adj.len() as int),
        ),
{
    let n = grid.num_cells();
    let w = grid.width as int;
    let b = adj[k] as int;
    let g1 = g.update(b, (g[u] + 1) as usize);
    let prev1 = prev.update(b, Some(u as usize));
    let status1 = status.update(b, OPEN);
    let open1 = if status[b] == NEW { open.push(adj[k]) } else { open };
    let pend1 = adj.subrange(k + 1, adj.len() as int);
    let pend0 = adj.subrange(k, adj.len() as int);
    lemma_pending_step(adj, k);
    assert(status[b] <= CLOSED && status[s] == CLOSED && status[b] == NEW || status[b] == OPEN) by {
        reveal(frontier_ok);
    }
    assert(n <= MAX_SIDE * MAX_SIDE) by (nonlinear_arith)
        requires n == grid.width * grid.height, grid.width <= MAX_SIDE, grid.height <= MAX_SIDE;
    assert(b != s && b != u);
    assert(g1[b] == g[u] + 1);
    assert(frontier_ok(grid, g1, status1, open1, count)) by {
        reveal(frontier_ok);
        if status[b] == NEW {
            assert(!open.contains(b as usize));
            assert forall|i: int| 0 <= i < n && #[trigger] status1[i] == OPEN implies open1.contains(
                i as usize,
            ) by {
                if i == b {
                    assert(open1[open1.len() - 1] == b);
                } else {
                    assert(open.contains(i as usize));
                    let j = choose|j: int| 0 <= j < open.len() && open[j] == i as usize;
                    assert(open1[j] == i);
                }
            }
            assert forall|j: int| 0 <= j < open1.len() implies #[trigger] open1[j] < n
                && status1[open1[j] as int] == OPEN by {
                if j < open.len() {
                    assert(open1[j] == open[j]);
                }
            }
        }
    }
    assert(tree_ok(grid, g1, prev1, status1, s)) by {
        reveal(tree_ok);
        assert forall|i: int|
            0 <= i < n && i != s && #[trigger] status1[i] != NEW implies parent_ok(
            grid,
            g1,
            prev1,
            status1,
            i,
        ) by {
            if i == b {
                assert(adjacent(w, b, u));
                assert(status1[u] == CLOSED);
            } else {
                assert(status[i] != NEW);
                assert(parent_ok(grid, g, prev, status, i));
                let p = prev[i]->0 as int;
                assert(p != b);
            }
        }
    }
    assert(closure_ok(grid, status1, u, pend1)) by {
        reveal(closure_ok);
    }
    assert(relaxed_ok(grid, g1, status1, u, pend1)) by {
        reveal(relaxed_ok);
        reveal(closure_ok);
        assert forall|o: int, c: int|
            0 <= o < n && 0 <= c < n && status1[o] == OPEN && status1[c] == CLOSED
                && #[trigger] adjacent(w, o, c) && !(c == u && pend1.contains(o as usize)) implies g1[o]
            <= g1[c] + 1 by {
            if o == b && c != u && status[b] == NEW {
                assert(adjacent(w, c, o));
            } else if o != b && c == u {
                assert(pend1.contains(o as usize) <==> (pend0.contains(o as usize) && o as usize != adj[k]));
                assert(!pend0.contains(o as usize));
            }
        }
    }
    assert(settled_ok(grid, g1, status1, s)) by {
        reveal(settled_ok);
        assert forall|c: int, q: Seq<usize>|
            0 <= c < n && status1[c] == CLOSED && #[trigger] grid.walk_between(q, s, c) implies g1[c]
            <= q.len() - 1 by {
            assert(c != b);
            assert(status[c] == CLOSED);
        }
    }
}

/// A shortest walk from `s` to the grid's target `t`, or `None` where no
/// walk connects them.
pub fn find_path(grid: &Grid, s: usize, t: usize) -> (r: Option<Vec<usize>>)
    requires
        grid.wf(),
        s < grid.num_cells(),
        t == grid.target,
        grid.passable(s as int),
        grid.passable(t as int),
    ensures
        match r {
            Some(p) => grid.is_shortest_walk(p@, s as int, t as int) && p@.no_duplicates(),
            None => !grid.connected(s as int, t as int),
        },
{
    proof {
        assert(grid.width * grid.height <= MAX_SIDE * MAX_SIDE) by (nonlinear_arith)
            requires grid.width <= MAX_SIDE, grid.height <= MAX_SIDE;
    }
    let n = grid.width * grid.height;
    let mut g: Vec<usize> = repeat(0usize, n);
    let mut prev: Vec<Option<usize>> = repeat(None, n);
    let mut status: Vec<u8> = repeat(NEW, n);
    let mut open: Vec<usize> = Vec::new();
    open.push(s);
    status.set(s, OPEN);
    let mut count: usize = 0;
    let ghost mut closed: Set<int> = Set::empty();
    proof {
        reveal(frontier_ok);
        reveal(tree_ok);
        reveal(closure_ok);
        reveal(relaxed_ok);
        reveal(settled_ok);
        assert(open@ == seq![s]);
        assert(open@.contains(s)) by {
            assert(open@[0] == s);
        }
    }
    while open.len() > 0
        invariant
            n == grid.num_cells(),
            n <= MAX_SIDE * MAX_SIDE,
            search_inv(grid, s as int, t as int, g@, prev@, status@, open@, count as int, -1, Seq::empty()),
            closed.finite(),
            closed.len() == count,
            forall|i: int| #[trigger] closed.contains(i) <==> 0 <= i < n && status@[i] == CLOSED,
        decreases n - count,
    {
        proof {
            lemma_h_bounded(grid);
            reveal(frontier_ok);
        }
        let pos = min_by_fcost(&g, &grid.cells, &open);
        let u = open[pos];
        proof {
            assert forall|q: Seq<usize>| #[trigger] grid.walk_between(q, s as int, u as int) implies g@[u as int] <= q.len() - 1 by {
                lemma_pop_optimal(grid, s as int, t as int, g@, prev@, status@, open@, count as int, pos as int, q);
            }
        }
        if u == t {
            proof {
                reveal(frontier_ok);
            }
            let path = backtrace(grid, &g, &prev, &status, s, t);
            return Some(path);
        }
        let ghost open0 = open@;
        let ghost status0 = status@;
        proof {
            assert(!closed.contains(u as int)) by {
                reveal(frontier_ok);
            }
            closed = closed.insert(u as int);
            vstd::set_lib::lemma_int_range(0, n as int);
            assert(closed.subset_of(vstd::set_lib::set_int_range(0, n as int)));
            vstd::set_lib::lemma_len_subset(closed, vstd::set_lib::set_int_range(0, n as int));
        }
        let adj = get_adjacent(u, grid.width, grid.height);
        proof {
            lemma_settle(grid, s as int, t as int, g@, prev@, status@, open@, count as int, pos as int, adj@);
            assert(adj@.subrange(0, adj@.len() as int) == adj@);
        }
        open.remove(pos);
        status.set(u, CLOSED);
        count += 1;
        let mut k: usize = 0;
        while k < adj.len()
            invariant
                n == grid.num_cells(),
                n <= MAX_SIDE * MAX_SIDE,
                u < n,
                u != t,
                status@[u as int] == CLOSED,
                g@[u as int] < count,
                adj@.no_duplicates(),
                forall|j: int|
                    0 <= j < adj@.len() ==> #[trigger] adj@[j] < n && adjacent(
                        grid.width as int,
                        u as int,
                        adj@[j] as int,
                    ),
                k <= adj@.len(),
                search_inv(
                    grid,
                    s as int,
                    t as int,
                    g@,
                    prev@,
                    status@,
                    open@,
                    count as int,
                    u as int,
                    adj@.subrange(k as int, adj@.len() as int),
                ),
                closed.finite(),
                closed.len() == count,
                forall|i: int| #[trigger] closed.contains(i) <==> 0 <= i < n && status@[i] == CLOSED,
            decreases adj@.len() - k,
        {
            let b = adj[k];
            let cand = g[u] + 1;
            if status[b] != CLOSED && grid.cells[b].cost != IMPASSABLE_COST && (status[b] == NEW || cand < g[b]) {
                proof {
                    lemma_reach(grid, s as int, t as int, g@, prev@, status@, open@, count as int, u as int, adj@, k as int);
                }
                if status[b] == NEW {
                    open.push(b);
                }
                g.set(b, cand);
                prev.set(b, Some(u));
                status.set(b, OPEN);
            } else {
                proof {
                    lemma_skip(grid, s as int, t as int, g@, prev@, status@, open@, count as int, u as int, adj@, k as int);
                }
            }
            k += 1;
        }
        proof {
            assert(adj@.subrange(adj@.len() as int, adj@.len() as int) =~= Seq::<usize>::empty());
            assert(closure_ok(grid, status@, -1, Seq::empty())) by {
                reveal(closure_ok);
            }
            assert(relaxed_ok(grid, g@, status@, -1, Seq::empty())) by {
                reveal(relaxed_ok);
            }
        }
    }
    proof {
        lemma_frontier_separates(grid, s as int, t as int, g@, prev@, status@, open@, count as int);
    }
    None
}

/// Row-major index of the cell at column `c.0` and row `c.1`.
pub open spec fn cell_index(w: int, c: (usize, usize)) -> int {
    c.1 * w + c.0
}

/// The error a search from `start` to `target` on `grid` is rejected with,
/// if any.
pub open spec fn query_error(grid: &Grid, start: (usize, usize), target: (usize, usize)) -> Option<
    SearchError,
> {
    let w = grid.width as int;
    if !(start.0 < grid.width && start.1 < grid.height && target.0 < grid.width && target.1
        < grid.height) {
        Some(SearchError::OutOfBounds)
    } else if cell_index(w, target) != grid.target {
        Some(SearchError::HeuristicMismatch)
    } else if !grid.passable(cell_index(w, start)) || !grid.passable(cell_index(w, target)) {
        Some(SearchError::BlockedEndpoint)
    } else {
        None
    }
}

/// What a search from `start` to `target` owes: the rejection `query_error`
/// names, with the grid untouched; otherwise a shortest walk with exactly its
/// cells marked, or `None` with the grid untouched where no walk exists.
pub open spec fn search_outcome(
    before: &Grid,
    after: &Grid,
    start: (usize, usize),
    target: (usize, usize),
    r: Result<Option<Vec<usize>>, SearchError>,
) -> bool {
    let w = before.width as int;
    let s = cell_index(w, start);
    let t = cell_index(w, target);
    &&& after.width == before.width
    &&& after.height == before.height
    &&& after.target == before.target
    &&& match query_error(before, start, target) {
        Some(e) => r == Err::<Option<Vec<usize>>, SearchError>(e) && after.cells@ == before.cells@,
        None => match r {
            Ok(Some(p)) => before.is_shortest_walk(p@, s, t) && path_marked(before, after, p@),
            Ok(None) => !before.connected(s, t) && after.cells@ == before.cells@,
            Err(_) => false,
        },
    }
}

/// Searches `grid` for a shortest walk from `start` to `target`, both given
/// as (column, row), and marks its cells.  Returns the walk as cell indices
/// from start to target, `Ok(None)` where no walk exists, or the error for a
/// rejected query.
pub fn astar(grid: &mut Grid, start: (usize, usize), target: (usize, usize)) -> (r: Result<
    Option<Vec<usize>>,
    SearchError,
>)
    requires
        old(grid).wf(),
    ensures
        search_outcome(old(grid), final(grid), start, target, r),
        final(grid).wf(),
{
    if start.0 >= grid.width || start.1 >= grid.height || target.0 >= grid.width || target.1
        >= grid.height {
        return Err(SearchError::OutOfBounds);
    }
    let s = get_idx(start.0, start.1, grid.width, grid.height);
    let t = get_idx(target.0, target.1, grid.width, grid.height);
    if t != grid.target {
        return Err(SearchError::HeuristicMismatch);
    }
    if grid.cells[s].cost == IMPASSABLE_COST || grid.cells[t].cost == IMPASSABLE_COST {
        return Err(SearchError::BlockedEndpoint);
    }
    match find_path(grid, s, t) {
        Some(path) => {
            let ghost before = *grid;
            mark_path(grid, &path);
            proof {
                assert forall|i: int| 0 <= i < grid.num_cells() implies (#[trigger] grid.cells@[i]).idx
                    == i && grid.cells@[i].h_cost == manhattan(grid.width as int, i, grid.target as int) by {
                    assert(before.cells@[i].idx == i);
                }
            }
            Ok(Some(path))
        },
        None => Ok(None),
    }
}

} // verus!
