use astar_grid::grid::{
    build, calc_h_cost, cell_style, get_adjacent, get_idx, CellStyle, Direction, Grid, Node,
    SearchError, IMPASSABLE_COST, UNIT_COST,
};
use astar_grid::marking::{direction_of, mark_path};
use astar_grid::search::{astar, find_path, min_by_fcost};
use std::collections::VecDeque;

fn reference_walls() -> Vec<usize> {
    vec![5, 15, 25, 35, 45, 46, 47, 57, 64, 65, 66, 67, 77, 48]
}

fn marked_count(g: &Grid) -> usize {
    g.cells.iter().filter(|c| c.cost == 0).count()
}

/// Breadth-first count of steps between two cells, walls excluded.
fn bfs_steps(g: &Grid, s: usize, t: usize) -> Option<usize> {
    let n = g.width * g.height;
    let mut dist: Vec<Option<usize>> = vec![None; n];
    let mut queue = VecDeque::new();
    dist[s] = Some(0);
    queue.push_back(s);
    while let Some(u) = queue.pop_front() {
        for b in get_adjacent(u, g.width, g.height) {
            if g.cells[b].cost != IMPASSABLE_COST && dist[b].is_none() {
                dist[b] = Some(dist[u].unwrap() + 1);
                queue.push_back(b);
            }
        }
    }
    dist[t]
}

fn assert_walk(g: &Grid, p: &[usize], s: usize, t: usize) {
    assert_eq!(p[0], s);
    assert_eq!(*p.last().unwrap(), t);
    for w in p.windows(2) {
        assert!(get_adjacent(w[0], g.width, g.height).contains(&w[1]));
    }
    for &c in p {
        assert_ne!(g.cells[c].cost, IMPASSABLE_COST);
    }
}

#[test]
fn reference_scenario_finds_shortest_route() {
    // index 5 is a wall in row 0, so the route leaves the row and goes round
    let mut g = build(10, 10, &reference_walls(), (8, 0)).unwrap();
    let g0 = g.clone();
    let p = astar(&mut g, (0, 0), (8, 0)).unwrap().unwrap();
    assert_eq!(p.len() - 1, 26);
    assert_eq!(Some(p.len() - 1), bfs_steps(&g0, 0, 8));
    assert_walk(&g0, &p, 0, 8);
    assert_eq!(g.cells[8].cost, 0);
    assert_eq!(g.cells[8].direction, Direction::Target);
    assert_eq!(g.cells[0].direction, Direction::Right);
    assert_eq!(g.cells[9].direction, Direction::Left);
    assert_eq!(marked_count(&g), 27);
}

#[test]
fn open_row_zero_runs_right() {
    let walls: Vec<usize> = reference_walls().into_iter().filter(|&w| w != 5).collect();
    let mut g = build(10, 10, &walls, (8, 0)).unwrap();
    let p = astar(&mut g, (0, 0), (8, 0)).unwrap().unwrap();
    assert_eq!(p, (0..=8).collect::<Vec<usize>>());
    assert_eq!(p.len() - 1, 8);
    for i in 0..8 {
        assert_eq!(g.cells[i].cost, 0);
        assert_eq!(g.cells[i].direction, Direction::Right);
    }
    assert_eq!(g.cells[8].cost, 0);
    assert_eq!(g.cells[8].direction, Direction::Target);
    assert_eq!(marked_count(&g), 9);
}

#[test]
fn sealed_target_reports_no_path() {
    let mut walls = reference_walls();
    walls.push(55);
    let mut g = build(10, 10, &walls, (6, 5)).unwrap();
    let before = g.cells.clone();
    assert_eq!(astar(&mut g, (0, 0), (6, 5)), Ok(None));
    assert_eq!(marked_count(&g), 0);
    assert_eq!(g.cells, before);
}

#[test]
fn sealed_region_leaves_outside_unmarked() {
    // the top-left 2 x 2 block is cut off by walls at 2, 7, 10, 11
    let walls = vec![2, 7, 10, 11];
    let mut g = build(5, 5, &walls, (4, 4)).unwrap();
    let before = g.cells.clone();
    assert_eq!(astar(&mut g, (0, 0), (4, 4)), Ok(None));
    assert_eq!(g.cells, before);
}

#[test]
fn start_equal_to_target_marks_only_target() {
    let mut g = build(10, 10, &reference_walls(), (3, 3)).unwrap();
    let p = astar(&mut g, (3, 3), (3, 3)).unwrap().unwrap();
    assert_eq!(p, vec![33]);
    assert_eq!(g.cells[33].cost, 0);
    assert_eq!(g.cells[33].direction, Direction::Target);
    assert_eq!(marked_count(&g), 1);
}

#[test]
fn open_grid_path_has_manhattan_length() {
    let (w, h) = (7, 5);
    for tx in 0..w {
        for ty in 0..h {
            for (sx, sy) in [(0, 0), (6, 4), (3, 2), (0, 4)] {
                let mut g = build(w, h, &vec![], (tx, ty)).unwrap();
                let p = astar(&mut g, (sx, sy), (tx, ty)).unwrap().unwrap();
                assert_eq!(p.len() - 1, calc_h_cost((sx, sy), (tx, ty)));
                assert_walk(&g, &p, sy * w + sx, ty * w + tx);
            }
        }
    }
}

#[test]
fn walled_grids_match_breadth_first_search() {
    let layouts: Vec<Vec<usize>> = vec![
        vec![1, 6, 11, 16, 13, 8, 3],
        vec![5, 6, 7, 8, 16, 17, 18, 19],
        vec![2, 7, 12, 17, 21, 22, 23],
        vec![],
    ];
    for walls in layouts {
        for t in 0..25 {
            let g0 = build(5, 5, &walls, (t % 5, t / 5)).unwrap();
            if g0.cells[0].cost == IMPASSABLE_COST || g0.cells[t].cost == IMPASSABLE_COST {
                continue;
            }
            let expected = bfs_steps(&g0, 0, t);
            let mut g = g0.clone();
            let r = astar(&mut g, (0, 0), (t % 5, t / 5)).unwrap();
            match (r, expected) {
                (Some(p), Some(d)) => {
                    assert_eq!(p.len() - 1, d);
                    assert_walk(&g0, &p, 0, t);
                }
                (None, None) => assert_eq!(g.cells, g0.cells),
                (r, e) => panic!("search gave {:?}, breadth-first gave {:?}", r, e),
            }
        }
    }
}

#[test]
fn detour_around_wall_column() {
    // column 2 is a wall except its bottom cell
    let walls = vec![2, 7, 12, 17];
    let mut g = build(5, 5, &walls, (4, 0)).unwrap();
    let p = astar(&mut g, (0, 0), (4, 0)).unwrap().unwrap();
    assert_eq!(p.len() - 1, 12);
    assert!(p.contains(&22));
    assert_eq!(g.cells[0].cost, 0);
    assert!(g.cells[0].direction == Direction::Down || g.cells[0].direction == Direction::Right);
    assert_eq!(g.cells[22].direction, Direction::Right);
    assert_eq!(g.cells[4].direction, Direction::Target);
}

#[test]
fn repeated_search_gives_identical_path() {
    let g0 = build(10, 10, &reference_walls(), (9, 9)).unwrap();
    let mut a = g0.clone();
    let mut b = g0.clone();
    let ra = astar(&mut a, (0, 0), (9, 9));
    let rb = astar(&mut b, (0, 0), (9, 9));
    assert_eq!(ra, rb);
    assert_eq!(a.cells, b.cells);
    assert_eq!(ra.unwrap().unwrap().len() - 1, bfs_steps(&g0, 0, 99).unwrap());
}

#[test]
fn build_rejects_bad_dimensions() {
    assert_eq!(build(0, 5, &vec![], (0, 0)).unwrap_err(), SearchError::InvalidDimensions);
    assert_eq!(build(5, 0, &vec![], (0, 0)).unwrap_err(), SearchError::InvalidDimensions);
    assert_eq!(build(10001, 1, &vec![], (0, 0)).unwrap_err(), SearchError::InvalidDimensions);
    assert_eq!(build(5, 5, &vec![], (5, 0)).unwrap_err(), SearchError::OutOfBounds);
    assert_eq!(build(5, 5, &vec![], (0, 5)).unwrap_err(), SearchError::OutOfBounds);
}

#[test]
fn build_sets_costs_and_heuristic() {
    let g = build(10, 10, &reference_walls(), (8, 0)).unwrap();
    assert_eq!(g.cells.len(), 100);
    assert_eq!(g.target, 8);
    assert_eq!(g.cells[5].cost, IMPASSABLE_COST);
    assert_eq!(g.cells[48].cost, IMPASSABLE_COST);
    assert_eq!(g.cells[0].cost, UNIT_COST);
    assert_eq!(g.cells[0].h_cost, 8);
    assert_eq!(g.cells[99].h_cost, 10);
    assert_eq!(g.cells[8].h_cost, 0);
    assert_eq!(g.cells[57].idx, 57);
    assert_eq!(g.cells[57].direction, Direction::Unknown);
}

#[test]
fn astar_rejects_bad_queries() {
    let mut g = build(10, 10, &reference_walls(), (8, 0)).unwrap();
    let before = g.cells.clone();
    assert_eq!(astar(&mut g, (10, 0), (8, 0)), Err(SearchError::OutOfBounds));
    assert_eq!(astar(&mut g, (0, 0), (8, 10)), Err(SearchError::OutOfBounds));
    assert_eq!(astar(&mut g, (0, 0), (7, 0)), Err(SearchError::HeuristicMismatch));
    assert_eq!(astar(&mut g, (5, 0), (8, 0)), Err(SearchError::BlockedEndpoint));
    let mut walled = build(10, 10, &reference_walls(), (5, 1)).unwrap();
    assert_eq!(astar(&mut walled, (0, 0), (5, 1)), Err(SearchError::BlockedEndpoint));
    assert_eq!(g.cells, before);
}

#[test]
fn find_path_returns_shortest_walk() {
    let g = build(10, 10, &reference_walls(), (6, 9)).unwrap();
    let p = find_path(&g, 9, 96).unwrap();
    assert_walk(&g, &p, 9, 96);
    assert_eq!(Some(p.len() - 1), bfs_steps(&g, 9, 96));
}

#[test]
fn adjacent_cells_in_order() {
    assert_eq!(get_adjacent(0, 10, 10), vec![10, 1]);
    assert_eq!(get_adjacent(55, 10, 10), vec![45, 65, 54, 56]);
    assert_eq!(get_adjacent(99, 10, 10), vec![89, 98]);
    assert_eq!(get_adjacent(9, 10, 10), vec![19, 8]);
    assert_eq!(get_adjacent(2, 1, 5), vec![1, 3]);
    assert_eq!(get_adjacent(0, 1, 1), Vec::<usize>::new());
}

#[test]
fn index_and_heuristic_values() {
    assert_eq!(get_idx(3, 4, 10, 10), 43);
    assert_eq!(get_idx(0, 0, 1, 1), 0);
    assert_eq!(calc_h_cost((0, 0), (8, 0)), 8);
    assert_eq!(calc_h_cost((9, 9), (8, 0)), 10);
    assert_eq!(calc_h_cost((2, 7), (2, 7)), 0);
}

#[test]
fn min_by_fcost_takes_first_of_ties() {
    let cells: Vec<Node> = (0..4)
        .map(|i| Node { idx: i, cost: UNIT_COST, h_cost: [5, 3, 2, 3][i], direction: Direction::Unknown })
        .collect();
    let g = vec![0, 2, 3, 1];
    // f-costs: 5, 5, 5, 4
    assert_eq!(min_by_fcost(&g, &cells, &vec![0, 1, 2]), 0);
    assert_eq!(min_by_fcost(&g, &cells, &vec![2, 1, 0]), 0);
    assert_eq!(min_by_fcost(&g, &cells, &vec![0, 1, 2, 3]), 3);
    assert_eq!(min_by_fcost(&g, &cells, &vec![1]), 0);
}

#[test]
fn direction_of_each_step() {
    assert_eq!(direction_of(12, 22, 10), Direction::Down);
    assert_eq!(direction_of(22, 12, 10), Direction::Up);
    assert_eq!(direction_of(12, 13, 10), Direction::Right);
    assert_eq!(direction_of(13, 12, 10), Direction::Left);
    assert_eq!(direction_of(13, 40, 10), Direction::Unknown);
}

#[test]
fn mark_path_marks_exactly_the_path() {
    let mut g = build(4, 4, &vec![], (3, 3)).unwrap();
    mark_path(&mut g, &vec![0, 4, 5, 9]);
    assert_eq!(g.cells[0].direction, Direction::Down);
    assert_eq!(g.cells[4].direction, Direction::Right);
    assert_eq!(g.cells[5].direction, Direction::Down);
    assert_eq!(g.cells[9].direction, Direction::Target);
    assert_eq!(marked_count(&g), 4);
    assert_eq!(g.cells[1].cost, UNIT_COST);
}

#[test]
fn cell_styles() {
    let mut g = build(10, 10, &reference_walls(), (8, 0)).unwrap();
    astar(&mut g, (0, 0), (8, 0)).unwrap();
    assert_eq!(cell_style(&g.cells[2]), CellStyle::Path(Direction::Right));
    assert_eq!(cell_style(&g.cells[3]), CellStyle::Path(Direction::Down));
    assert_eq!(cell_style(&g.cells[8]), CellStyle::Path(Direction::Target));
    assert_eq!(cell_style(&g.cells[15]), CellStyle::Wall);
    assert_eq!(cell_style(&g.cells[99]), CellStyle::Plain);
}
