use vstd::prelude::*;
use vstd::arithmetic::div_mod::{lemma_fundamental_div_mod, lemma_fundamental_div_mod_converse};

verus! {

/// Traversal cost of a wall cell.
pub const IMPASSABLE_COST: usize = 100;

/// Traversal cost of an ordinary cell.
pub const UNIT_COST: usize = 1;

/// Largest accepted width or height of a grid.
pub const MAX_SIDE: usize = 10000;

/// Marker left on a cell of a found path, pointing to the next cell.
#[derive(Clone, Copy, Debug, PartialEq, Eq, Structural)]
pub enum Direction {
    Up,
    Down,
    Left,
    Right,
    Target,
    Unknown,
}

/// One cell of the grid.
#[derive(Clone, Copy, Debug, PartialEq, Eq, Structural)]
pub struct Node {
    /// Row-major position of the cell.
    pub idx: usize,
    /// `UNIT_COST` for open ground, `IMPASSABLE_COST` for a wall,
    /// 0 once the cell lies on a found path.
    pub cost: usize,
    /// Manhattan distance from the cell to the grid's target.
    pub h_cost: usize,
    pub direction: Direction,
}

/// Rejected configurations.
#[derive(Clone, Copy, Debug, PartialEq, Eq, Structural)]
pub enum SearchError {
    /// Width or height is zero or larger than `MAX_SIDE`.
    InvalidDimensions,
    /// The start or the target lies outside the grid.
    OutOfBounds,
    /// The start or the target is a wall.
    BlockedEndpoint,
    /// The target differs from the one the heuristic was computed for.
    HeuristicMismatch,
}

/// A `width` x `height` grid of cells whose heuristic points at `target`.
#[derive(Clone, Debug)]
pub struct Grid {
    pub width: usize,
    pub height: usize,
    /// Row-major index of the cell the heuristic was computed for.
    pub target: usize,
    pub cells: Vec<Node>,
}

pub open spec fn abs_diff(a: int, b: int) -> int {
    if a < b { b - a } else { a - b }
}

/// Column of the cell at index `i` in a grid of width `w`.
pub open spec fn col(w: int, i: int) -> int {
    i % w
}

/// Row of the cell at index `i` in a grid of width `w`.
pub open spec fn row(w: int, i: int) -> int {
    i / w
}

pub open spec fn manhattan(w: int, a: int, b: int) -> int {
    abs_diff(col(w, a), col(w, b)) + abs_diff(row(w, a), row(w, b))
}

/// `a` and `b` are horizontal or vertical neighbours.
pub open spec fn adjacent(w: int, a: int, b: int) -> bool {
    (row(w, a) == row(w, b) && abs_diff(col(w, a), col(w, b)) == 1)
    || (col(w, a) == col(w, b) && abs_diff(row(w, a), row(w, b)) == 1)
}

pub open spec fn dims_ok(width: int, height: int) -> bool {
    1 <= width <= MAX_SIDE && 1 <= height <= MAX_SIDE
}

impl Grid {
    pub open spec fn num_cells(&self) -> int {
        self.width * self.height
    }

    pub open spec fn in_grid(&self, i: int) -> bool {
        0 <= i < self.num_cells()
    }

    pub open spec fn passable(&self, i: int) -> bool {
        self.cells@[i].cost != IMPASSABLE_COST
    }

    /// `p` is a sequence of passable cells, each a neighbour of the one before.
    pub open spec fn is_walk(&self, p: Seq<usize>) -> bool {
        &&& p.len() >= 1
        &&& forall|k: int|
            0 <= k < p.len() ==> self.in_grid(#[trigger] p[k] as int) && self.passable(p[k] as int)
        &&& forall|k: int|
            0 <= k < p.len() - 1 ==> adjacent(self.width as int, #[trigger] p[k] as int, p[k + 1] as int)
    }

    /// `p` is a walk from `a` to `b`; it takes `p.len() - 1` steps.
    pub open spec fn walk_between(&self, p: Seq<usize>, a: int, b: int) -> bool {
        self.is_walk(p) && p[0] == a && p.last() == b
    }

    /// `p` is a walk from `a` to `b` and no walk between them is shorter.
    pub open spec fn is_shortest_walk(&self, p: Seq<usize>, a: int, b: int) -> bool {
        &&& self.walk_between(p, a, b)
        &&& forall|q: Seq<usize>| #[trigger] self.walk_between(q, a, b) ==> p.len() <= q.len()
    }

    pub open spec fn connected(&self, a: int, b: int) -> bool {
        exists|p: Seq<usize>| self.walk_between(p, a, b)
    }

    pub open spec fn wf(&self) -> bool {
        &&& dims_ok(self.width as int, self.height as int)
        &&& self.in_grid(self.target as int)
        &&& self.cells@.len() == self.num_cells()
        &&& forall|i: int|
            0 <= i < self.num_cells() ==> (#[trigger] self.cells@[i]).idx == i
                && self.cells@[i].h_cost == manhattan(self.width as int, i, self.target as int)
    }
}

/// The cell at column `x` and row `y` has index `y * w + x`, and back.
pub proof fn lemma_coords(w: int, x: int, y: int)
    requires
        w > 0,
        0 <= x < w,
    ensures
        col(w, y * w + x) == x,
        row(w, y * w + x) == y,
{
    lemma_fundamental_div_mod_converse(y * w + x, w, y, x);
}

/// Every index is `row * w + col`, with the column below `w`.
pub proof fn lemma_index(w: int, i: int)
    requires
        w > 0,
        0 <= i,
    ensures
        i == row(w, i) * w + col(w, i),
        0 <= col(w, i) < w,
        0 <= row(w, i),
{
    lemma_fundamental_div_mod(i, w);
    assert(w * (i / w) == (i / w) * w) by (nonlinear_arith);
    assert(0 <= i % w < w);
    assert(0 <= i / w) by (nonlinear_arith)
        requires 0 <= i, w > 0;
}

/// Indices below `w * h` are exactly those with row below `h`.
pub proof fn lemma_in_grid(w: int, h: int, i: int)
    requires
        w > 0,
        h > 0,
        0 <= i,
    ensures
        i < w * h <==> row(w, i) < h,
{
    lemma_index(w, i);
    let r = row(w, i);
    let c = col(w, i);
    if r < h {
        assert(r * w + c < w * h) by (nonlinear_arith)
            requires r < h, 0 <= c < w, 0 <= r;
    } else {
        assert(r * w + c >= w * h) by (nonlinear_arith)
            requires r >= h, 0 <= c < w;
    }
}

pub fn get_idx(x: usize, y: usize, width: usize, height: usize) -> (r: usize)
    requires
        dims_ok(width as int, height as int),
        x < width,
        y < height,
    ensures
        r == y * width + x,
        r < width * height,
        col(width as int, r as int) == x,
        row(width as int, r as int) == y,
{
    proof {
        assert(y * width + x < width * height) by (nonlinear_arith)
            requires y < height, x < width;
        assert(width * height <= MAX_SIDE * MAX_SIDE) by (nonlinear_arith)
            requires width <= MAX_SIDE, height <= MAX_SIDE;
        lemma_coords(width as int, x as int, y as int);
    }
    y * width + x
}

pub fn calc_h_cost(a: (usize, usize), b: (usize, usize)) -> (r: usize)
    requires
        a.0 <= MAX_SIDE,
        a.1 <= MAX_SIDE,
        b.0 <= MAX_SIDE,
        b.1 <= MAX_SIDE,
    ensures
        r == abs_diff(a.0 as int, b.0 as int) + abs_diff(a.1 as int, b.1 as int),
{
    let dx = if a.0 < b.0 { b.0 - a.0 } else { a.0 - b.0 };
    let dy = if a.1 < b.1 { b.1 - a.1 } else { a.1 - b.1 };
    dx + dy
}


/// The horizontal and vertical neighbours of `idx` that lie inside the grid:
/// above, below, left, right, in that order where present.
pub fn get_adjacent(idx: usize, width: usize, height: usize) -> (r: Vec<usize>)
    requires
        dims_ok(width as int, height as int),
        idx < width * height,
    ensures
        r@.no_duplicates(),
        forall|k: int|
            0 <= k < r@.len() ==> #[trigger] r@[k] < width * height
                && adjacent(width as int, idx as int, r@[k] as int),
        forall|b: int|
            0 <= b < width * height && adjacent(width as int, idx as int, b)
                ==> r@.contains(b as usize),
{
    let ghost w = width as int;
    let ghost h = height as int;
    let x = idx % width;
    let y = idx / width;
    proof {
        lemma_index(w, idx as int);
        lemma_in_grid(w, h, idx as int);
        assert(width * height <= MAX_SIDE * MAX_SIDE) by (nonlinear_arith)
            requires width <= MAX_SIDE, height <= MAX_SIDE;
        assert(y * w + w == (y + 1) * w) by (nonlinear_arith);
        assert(y * w - w == (y - 1) * w) by (nonlinear_arith);
        lemma_coords(w, x as int, y - 1);
        lemma_coords(w, x as int, y + 1);
        if x > 0 {
            lemma_coords(w, x - 1, y as int);
        }
        if x + 1 < w {
            lemma_coords(w, x + 1, y as int);
        }
        lemma_in_grid(w, h, ((y + 1) * w + x) as int);
        lemma_in_grid(w, h, (y * w + x + 1) as int);
    }
    let mut adj: Vec<usize> = Vec::new();
    if y > 0 {
        adj.push(idx - width);
    }
    let ghost n_up = adj@.len();
    if y + 1 < height {
        adj.push(idx + width);
    }
    let ghost n_down = adj@.len();
    if x > 0 {
        adj.push(idx - 1);
    }
    let ghost n_left = adj@.len();
    if x + 1 < width {
        adj.push(idx + 1);
    }
    proof {
        assert forall|b: int|
            0 <= b < width * height && adjacent(w, idx as int, b) implies adj@.contains(b as usize) by {
            lemma_index(w, b);
            lemma_in_grid(w, h, b);
            if row(w, b) == y && col(w, b) == x + 1 {
                assert(b == idx + 1);
                assert(adj@[n_left as int] == b);
            } else if row(w, b) == y && col(w, b) + 1 == x {
                assert(b == idx - 1);
                assert(adj@[n_down as int] == b);
            } else if row(w, b) == y + 1 {
                assert(b == idx + width);
                assert(adj@[n_up as int] == b);
            } else {
                assert(b == idx - width);
                assert(adj@[0] == b);
            }
        }
    }
    adj
}

/// `v` holds `x`.
fn contains_index(v: &Vec<usize>, x: usize) -> (r: bool)
    ensures
        r == v@.contains(x),
{
    let mut i: usize = 0;
    while i < v.len()
        invariant
            i <= v@.len(),
            forall|k: int| 0 <= k < i ==> v@[k] != x,
        decreases v@.len() - i,
    {
        if v[i] == x {
            return true;
        }
        i += 1;
    }
    false
}

/// Builds a `width` x `height` grid whose cells listed in `walls` are walls,
/// with every cell's heuristic set to its Manhattan distance from `target`,
/// given as (column, row).
pub fn build(width: usize, height: usize, walls: &Vec<usize>, target: (usize, usize)) -> (r: Result<
    Grid,
    SearchError,
>)
    ensures
        !dims_ok(width as int, height as int) ==> r == Err::<Grid, SearchError>(
            SearchError::InvalidDimensions,
        ),
        dims_ok(width as int, height as int) && !(target.0 < width && target.1 < height) ==> r
            == Err::<Grid, SearchError>(SearchError::OutOfBounds),
        dims_ok(width as int, height as int) && target.0 < width && target.1 < height ==> r is Ok,
        r matches Ok(g) ==> {
            &&& g.wf()
            &&& g.width == width
            &&& g.height == height
            &&& g.target == target.1 * width + target.0
            &&& forall|i: int|
                0 <= i < g.num_cells() ==> (#[trigger] g.cells@[i]).cost == (if walls@.contains(
                    i as usize,
                ) {
                    IMPASSABLE_COST
                } else {
                    UNIT_COST
                }) && g.cells@[i].direction == Direction::Unknown
        },
{
    if width == 0 || height == 0 || width > MAX_SIDE || height > MAX_SIDE {
        return Err(SearchError::InvalidDimensions);
    }
    if target.0 >= width || target.1 >= height {
        return Err(SearchError::OutOfBounds);
    }
    let t = get_idx(target.0, target.1, width, height);
    proof {
        assert(width * height <= MAX_SIDE * MAX_SIDE) by (nonlinear_arith)
            requires width <= MAX_SIDE, height <= MAX_SIDE;
    }
    let n = width * height;
    let mut cells: Vec<Node> = Vec::new();
    let mut i: usize = 0;
    while i < n
        invariant
            dims_ok(width as int, height as int),
            n == width * height,
            target.0 < width,
            target.1 < height,
            t == target.1 * width + target.0,
            col(width as int, t as int) == target.0,
            row(width as int, t as int) == target.1,
            i <= n,
            cells@.len() == i,
            forall|k: int|
                0 <= k < i ==> (#[trigger] cells@[k]).idx == k && cells@[k].h_cost == manhattan(
                    width as int,
                    k,
                    t as int,
                ) && cells@[k].cost == (if walls@.contains(k as usize) {
                    IMPASSABLE_COST
                } else {
                    UNIT_COST
                }) && cells@[k].direction == Direction::Unknown,
        decreases n - i,
    {
        let x = i % width;
        let y = i / width;
        proof {
            lemma_index(width as int, i as int);
            lemma_in_grid(width as int, height as int, i as int);
        }
        let cost = if contains_index(walls, i) { IMPASSABLE_COST } else { UNIT_COST };
        let h_cost = calc_h_cost((x, y), target);
        cells.push(Node { idx: i, cost, h_cost, direction: Direction::Unknown });
        i += 1;
    }
    Ok(Grid { width, height, target: t, cells })
}

/// How a cell is drawn: open ground, a cell of the found path with its
/// marker, or a wall.
#[derive(Clone, Copy, Debug, PartialEq, Eq, Structural)]
pub enum CellStyle {
    Plain,
    Path(Direction),
    Wall,
}

pub open spec fn style_of(c: Node) -> CellStyle {
    if c.cost == 0 {
        CellStyle::Path(c.direction)
    } else if c.cost == UNIT_COST {
        CellStyle::Plain
    } else {
        CellStyle::Wall
    }
}

pub fn cell_style(c: &Node) -> (r: CellStyle)
    ensures
        r == style_of(*c),
{
    if c.cost == 0 {
        CellStyle::Path(c.direction)
    } else if c.cost == UNIT_COST {
        CellStyle::Plain
    } else {
        CellStyle::Wall
    }
}

} // verus!
