use gridbot::card_dir::CardDir2::{DD, RR};
use gridbot::game::{
    arrive, handle_path_assignment, ray_cell_outcome, steer_target, touches_wall, GridBotState,
    RayCellOutcome,
};
use gridbot::grid::Grid2D;
use gridbot::pathfind::{PathFinder, DELAY};
use gridbot::short_path::{PathPointIter, ShortPath2};
use gridbot::vec2::vec2;

fn moving(start: (isize, isize), dirs: Vec<gridbot::card_dir::CardDir2>, t: usize) -> GridBotState {
    let p = ShortPath2::new(&dirs);
    GridBotState::Moving(PathPointIter::new(vec2(start.0, start.1), p.iter()), t)
}

// A grid of the given size with walls all along its border.
fn walled(w: isize, h: isize) -> Grid2D {
    let mut walls = Grid2D::new(vec2(w, h));
    for x in 0..w {
        for y in 0..h {
            if x == 0 || y == 0 || x == w - 1 || y == h - 1 {
                walls.set(vec2(x, y), true);
            }
        }
    }
    walls
}

#[test]
fn idle_bots_get_paths_after_the_delay() {
    let walls = walled(5, 5);
    let mut pf = PathFinder::new();
    let mut states = vec![GridBotState::DoingNothing, GridBotState::Thinking];
    let cells = vec![vec2(1, 1), vec2(2, 2)];
    handle_path_assignment(&mut states, &cells, &walls, &mut pf);
    assert_eq!(states[0], GridBotState::Thinking);
    assert_eq!(states[1], GridBotState::Thinking);
    for _ in 0..(DELAY - 1) {
        handle_path_assignment(&mut states, &cells, &walls, &mut pf);
        assert_eq!(states[0], GridBotState::Thinking);
    }
    handle_path_assignment(&mut states, &cells, &walls, &mut pf);
    match states[0] {
        GridBotState::Moving(it, t) => {
            assert_eq!(it.pos(), vec2(1, 1));
            assert_eq!(t, DELAY + 1);
            assert_eq!(pf.get_time(), DELAY + 1);
        }
        s => panic!("expected a moving bot, got {:?}", s),
    }
    assert_eq!(states[1], GridBotState::Thinking);
}

#[test]
fn bots_in_walls_start_from_the_closest_empty_cell() {
    let mut walls = Grid2D::new(vec2(5, 5));
    for x in 0..5 {
        for y in 0..5 {
            walls.set(vec2(x, y), true);
        }
    }
    walls.set(vec2(3, 3), false);
    let mut pf = PathFinder::new();
    let mut states = vec![GridBotState::DoingNothing];
    let cells = vec![vec2(0, 0)];
    for _ in 0..(DELAY + 1) {
        handle_path_assignment(&mut states, &cells, &walls, &mut pf);
    }
    match states[0] {
        GridBotState::Moving(it, _) => {
            assert_eq!(it.pos(), vec2(3, 3));
            assert_eq!(it.len(), 0);
        }
        s => panic!("expected a moving bot, got {:?}", s),
    }
}

#[test]
fn steering_targets() {
    let walls = Grid2D::new(vec2(6, 6));
    let current = vec2(4, 4);

    let mut s = moving((2, 2), vec![RR, DD], 7);
    assert_eq!(steer_target(&mut s, false, true, true, current, &walls), Some((vec2(3, 2), true)));
    assert_eq!(steer_target(&mut s, true, false, true, current, &walls), Some((vec2(2, 2), false)));
    assert_eq!(steer_target(&mut s, true, true, false, current, &walls), Some((vec2(3, 3), false)));
    assert_eq!(steer_target(&mut s, true, true, true, current, &walls), Some((current, false)));
    assert_eq!(s, moving((2, 2), vec![RR, DD], 7));

    let mut last = moving((2, 2), vec![RR], 7);
    assert_eq!(steer_target(&mut last, true, true, false, current, &walls), Some((current, false)));

    let mut done = moving((2, 2), vec![], 7);
    assert_eq!(steer_target(&mut done, false, false, false, current, &walls), None);
    assert_eq!(done, GridBotState::DoingNothing);

    let mut thinking = GridBotState::Thinking;
    assert_eq!(steer_target(&mut thinking, false, false, false, current, &walls), None);
    assert_eq!(thinking, GridBotState::Thinking);
}

#[test]
fn arriving_moves_along_the_path() {
    let mut s = moving((0, 0), vec![RR, DD], 5);
    arrive(&mut s, 9);
    match s {
        GridBotState::Moving(it, t) => {
            assert_eq!(it.pos(), vec2(1, 0));
            assert_eq!(it.len(), 1);
            assert_eq!(t, 9);
        }
        other => panic!("expected a moving bot, got {:?}", other),
    }
    let mut end = moving((3, 3), vec![], 5);
    arrive(&mut end, 9);
    assert_eq!(end, moving((3, 3), vec![], 5));
    let mut idle = GridBotState::DoingNothing;
    arrive(&mut idle, 9);
    assert_eq!(idle, GridBotState::DoingNothing);
}

#[test]
fn wall_touching() {
    let mut walls = Grid2D::new(vec2(4, 4));
    walls.set(vec2(2, 1), true);
    assert!(!touches_wall(&walls, &vec![vec2(0, 0), vec2(3, 3), vec2(-5, 0)]));
    assert!(touches_wall(&walls, &vec![vec2(0, 0), vec2(2, 1)]));
}

#[test]
fn ray_cells() {
    let mut walls = Grid2D::new(vec2(4, 4));
    walls.set(vec2(2, 1), true);
    assert_eq!(ray_cell_outcome(&walls, vec2(2, 1), vec2(-1, 0)), RayCellOutcome::Hit);
    assert_eq!(ray_cell_outcome(&walls, vec2(1, 1), vec2(-1, 0)), RayCellOutcome::Continue);
    assert_eq!(ray_cell_outcome(&walls, vec2(4, 0), vec2(-1, 0)), RayCellOutcome::OffGrid);
}

#[test]
fn busy_bots_need_no_empty_cell() {
    let mut walls = Grid2D::new(vec2(2, 2));
    for x in 0..2 {
        for y in 0..2 {
            walls.set(vec2(x, y), true);
        }
    }
    let mut pf = PathFinder::new();
    let walking = moving((0, 0), vec![RR, DD], 4);
    let mut states = vec![walking, GridBotState::Thinking];
    let cells = vec![vec2(0, 0), vec2(1, 1)];
    for _ in 0..3 {
        handle_path_assignment(&mut states, &cells, &walls, &mut pf);
        assert_eq!(states[0], walking);
        assert_eq!(states[1], GridBotState::Thinking);
    }
    assert_eq!(pf.get_time(), 3);
}
