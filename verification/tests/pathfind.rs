use gridbot::card_dir::CardDir2::{DD, RD, RR};
use gridbot::grid::Grid2D;
use gridbot::pathfind::{
    is_goal, manhattan_heuristic, path_from_nodes, perform_astar, successors, PathFindInfo,
    PathFinder, StartEnd, DELAY,
};
use gridbot::short_path::ShortPath2;
use gridbot::vec2::vec2;
use std::cmp::Ordering;

const WALL: &str = "\u{2588}";

// A grid with the given rows inside a wall border; the rows' cells sit one
// cell in from the border.
fn bordered(rows: &[&str]) -> Grid2D {
    let w = rows[0].chars().count() + 2;
    let h = rows.len() + 2;
    let mut text = WALL.repeat(w) + "\n";
    for row in rows {
        text += &format!("{}{}{}\n", WALL, row, WALL);
    }
    text += &WALL.repeat(w);
    text += "\n";
    Grid2D::from_str(vec2(w as isize, h as isize), &text)
}

// An open 10 by 10 area inside a wall border, at cells (1, 1) to (10, 10).
fn open_grid() -> Grid2D {
    bordered(&["          "; 10])
}

#[test]
fn astar_takes_the_diagonal() {
    let grid = open_grid();
    let req = PathFindInfo { start: vec2(1, 1), end: vec2(10, 10), bot_index: 0 };
    let path = perform_astar(&grid, req).unwrap();
    assert_eq!(path, ShortPath2::new(&vec![RD; 9]));
    assert_eq!(path.len(), 9);
}

#[test]
fn astar_goes_around_walls() {
    let grid = bordered(&["     ", "\u{2588}\u{2588}\u{2588}\u{2588} ", "     "]);
    let req = PathFindInfo { start: vec2(1, 1), end: vec2(1, 3), bot_index: 3 };
    let path = perform_astar(&grid, req).unwrap();
    // along the top row, down the open column, back along the bottom row
    assert_eq!(path.len(), 10);
    let mut it = path.iter();
    let mut x: isize = 1;
    let mut y: isize = 1;
    while let Some(d) = it.next() {
        let (off, _) = d.into_offset();
        x += off.x;
        y += off.y;
        assert_eq!(grid.get_option(vec2(x, y)), Some(false));
    }
    assert_eq!((x, y), (1, 3));
}

#[test]
fn astar_without_path() {
    // a row of walls cuts the grid in two
    let grid = bordered(&["   ", "\u{2588}\u{2588}\u{2588}", "   "]);
    let req = PathFindInfo { start: vec2(1, 1), end: vec2(3, 3), bot_index: 0 };
    assert_eq!(perform_astar(&grid, req), None);
}

#[test]
fn astar_truncates_long_paths() {
    let row = " ".repeat(60);
    let grid = bordered(&[row.as_str()]);
    let req = PathFindInfo { start: vec2(1, 1), end: vec2(60, 1), bot_index: 0 };
    let path = perform_astar(&grid, req).unwrap();
    assert_eq!(path, ShortPath2::new(&vec![RR; 42]));
}

#[test]
fn successors_follow_storage_indices() {
    let grid = Grid2D::new(vec2(3, 3));
    let s = successors(&vec2(0, 0), &grid);
    assert_eq!(
        s,
        vec![(vec2(1, -1), 3), (vec2(1, 0), 2), (vec2(1, 1), 3), (vec2(0, 1), 2)]
    );
}

#[test]
fn successors_skip_blocked_corners() {
    let mut grid = Grid2D::new(vec2(3, 3));
    grid.set(vec2(2, 1), true);
    let s = successors(&vec2(1, 1), &grid);
    assert_eq!(
        s,
        vec![
            (vec2(1, 0), 2),
            (vec2(1, 2), 2),
            (vec2(0, 2), 3),
            (vec2(0, 1), 2),
            (vec2(0, 0), 3)
        ]
    );
}

#[test]
fn heuristic_and_goal() {
    assert_eq!(manhattan_heuristic(&vec2(1, 2), &vec2(4, -2)), 7);
    assert!(is_goal(&vec2(3, 3), &vec2(3, 3)));
    assert!(!is_goal(&vec2(3, 2), &vec2(3, 3)));
}

#[test]
fn nodes_to_directions() {
    let p = path_from_nodes(vec2(0, 0), &vec![vec2(0, 0), vec2(1, 1), vec2(1, 2)]);
    assert_eq!(p, ShortPath2::new(&vec![RD, DD]));
    let empty = path_from_nodes(vec2(4, 4), &vec![vec2(4, 4)]);
    assert_eq!(empty.len(), 0);
}

// One request, answered by the call made DELAY calls after the one that
// brought it (DELAY is 180 calls), with the nine diagonal steps that the
// eight-direction search takes across the open area.
#[test]
fn test() {
    let grid = open_grid();
    let mut k = PathFinder::new();
    let start = vec2(1, 1);
    let end = vec2(10, 10);
    let first = k.handle_par(&grid, vec![PathFindInfo { start, end, bot_index: 0 }]);
    assert!(first.is_empty());
    for _ in 0..(DELAY - 1) {
        assert!(k.handle_par(&grid, vec![]).is_empty());
    }
    assert_eq!(k.get_time(), DELAY);
    let k2 = k.handle_par(&grid, vec![]);
    assert_eq!(k2.len(), 1);
    assert_eq!(k2[0].info.bot_index, 0);
    assert_eq!(k2[0].path.unwrap(), ShortPath2::new(&vec![RD; 9]));
    assert!(k.handle_par(&grid, vec![]).is_empty());
}

#[test]
fn many_requests_share_the_delay() {
    let grid = bordered(&["  "]);
    let mut k = PathFinder::new();
    let reqs: Vec<PathFindInfo> = (0..150)
        .map(|i| PathFindInfo { start: vec2(1, 1), end: vec2(2, 1), bot_index: i })
        .collect();
    assert!(k.handle_par(&grid, reqs).is_empty());
    for _ in 0..(DELAY - 1) {
        assert!(k.handle_par(&grid, vec![]).is_empty());
    }
    let out = k.handle_par(&grid, vec![]);
    assert_eq!(out.len(), 150);
    for (i, r) in out.iter().enumerate() {
        assert_eq!(r.info.bot_index, i);
        assert_eq!(r.path.unwrap(), ShortPath2::new(&vec![RR]));
    }
}

#[test]
fn each_call_returns_the_requests_of_one_earlier_call() {
    let grid = bordered(&["  ", "  "]);
    let mut k = PathFinder::new();
    let mut returned = Vec::new();
    for call in 0..(DELAY + 10) {
        let reqs = vec![PathFindInfo { start: vec2(1, 1), end: vec2(2, 2), bot_index: call }];
        let out = k.handle_par(&grid, reqs);
        for r in out.iter() {
            returned.push((call, r.info.bot_index));
        }
    }
    assert_eq!(returned.len(), 10);
    for (call, bot) in returned {
        assert_eq!(call, bot + DELAY);
    }
}

#[test]
fn start_end_keys() {
    let a = StartEnd { start: vec2(1, 2), end: vec2(3, 4) };
    assert_eq!(a.into_num(), (1u64 << 48) | (2u64 << 32) | (3u64 << 16) | 4);
    let b = StartEnd { start: vec2(1, 2), end: vec2(3, 5) };
    let c = StartEnd { start: vec2(0, 9), end: vec2(9, 9) };
    assert_eq!(a.partial_cmp(&b), Some(Ordering::Less));
    assert_eq!(b.partial_cmp(&a), Some(Ordering::Greater));
    assert_eq!(a.partial_cmp(&a), Some(Ordering::Equal));
    assert!(c < a);
    // negative coordinates sign-extend over the other fields
    let d = StartEnd { start: vec2(-1, -1), end: vec2(0, -1) };
    let e = StartEnd { start: vec2(-1, -1), end: vec2(7, -1) };
    assert_eq!(d.into_num(), u64::MAX);
    assert_eq!(d.partial_cmp(&e), Some(Ordering::Equal));
}

#[test]
fn start_end_difference() {
    let a = StartEnd { start: vec2(0, 0), end: vec2(5, 5) };
    let b = StartEnd { start: vec2(3, 4), end: vec2(6, 5) };
    assert_eq!(a.compare_difference(&b), 25);
    assert_eq!(b.compare_difference(&a), 25);
    let c = StartEnd { start: vec2(0, 1), end: vec2(0, 5) };
    assert_eq!(a.compare_difference(&c), 25);
}

#[test]
fn astar_from_a_cell_to_itself() {
    let grid = open_grid();
    let req = PathFindInfo { start: vec2(4, 5), end: vec2(4, 5), bot_index: 2 };
    let path = perform_astar(&grid, req).unwrap();
    assert_eq!(path.len(), 0);
    assert_eq!(path, ShortPath2::new(&vec![]));
}

#[test]
fn every_answer_comes_back_on_time_under_load() {
    let grid = bordered(&["  ", "  "]);
    let mut k = PathFinder::new();
    // the calls before the due one process 100 requests each; the due call
    // processes all the rest, which have waited DELAY calls
    let n = 100 * DELAY + 250;
    let reqs: Vec<PathFindInfo> = (0..n)
        .map(|i| PathFindInfo { start: vec2(1, 1), end: vec2(2, 2), bot_index: i })
        .collect();
    assert!(k.handle_par(&grid, reqs).is_empty());
    for _ in 0..(DELAY - 1) {
        assert!(k.handle_par(&grid, vec![]).is_empty());
    }
    let out = k.handle_par(&grid, vec![]);
    assert_eq!(out.len(), n);
    for (i, r) in out.iter().enumerate() {
        assert_eq!(r.info.bot_index, i);
    }
    for call in 0..(DELAY + 5) {
        let more = vec![PathFindInfo { start: vec2(1, 1), end: vec2(2, 1), bot_index: n + call }];
        let back = k.handle_par(&grid, more);
        if call < DELAY {
            assert!(back.is_empty());
        } else {
            assert_eq!(back.len(), 1);
            assert_eq!(back[0].info.bot_index, n + call - DELAY);
        }
    }
}

#[test]
fn answers_hold_the_search_result_for_their_request() {
    let grid = bordered(&["     ", "\u{2588}\u{2588}\u{2588}\u{2588} ", "     "]);
    let mut k = PathFinder::new();
    let ends = [vec2(1, 3), vec2(5, 1), vec2(3, 3), vec2(5, 2)];
    let mut sent = Vec::new();
    let mut returned = Vec::new();
    for call in 0..(DELAY + 8) {
        let mut reqs = Vec::new();
        if call < ends.len() {
            let req = PathFindInfo { start: vec2(1, 1), end: ends[call], bot_index: call };
            sent.push(req.bot_index);
            reqs.push(req);
        }
        for r in k.handle_par(&grid, reqs) {
            assert_eq!(r.path, perform_astar(&grid, r.info));
            assert!(r.path.is_some());
            returned.push(r.info.bot_index);
        }
    }
    assert_eq!(returned, sent);
}

#[test]
fn answers_use_the_grid_of_the_call_that_brought_them() {
    let open = bordered(&["   ", "   ", "   "]);
    let blocked = bordered(&["   ", "\u{2588}\u{2588}\u{2588}", "   "]);
    let mut k = PathFinder::new();
    let req = PathFindInfo { start: vec2(1, 1), end: vec2(3, 3), bot_index: 7 };
    assert!(k.handle_par(&open, vec![req]).is_empty());
    for _ in 0..(DELAY - 1) {
        assert!(k.handle_par(&blocked, vec![]).is_empty());
    }
    let out = k.handle_par(&blocked, vec![]);
    assert_eq!(out.len(), 1);
    assert_eq!(out[0].path, perform_astar(&open, req));
    assert!(out[0].path.is_some());
    assert_eq!(perform_astar(&blocked, req), None);
}
