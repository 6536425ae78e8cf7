use gridbot::card_dir::CardDir2;
use gridbot::grid::{find_closest_empty, pick_empty_spot, Grid2D, Iterator2D};
use gridbot::short_path::{PathPointIter, ShortPath2};
use gridbot::vec2::vec2;

#[test]
fn test_iterator2d() {
    let i = Iterator2D::new(vec2(10, 20));
    assert_eq!(i.len(), 200);
    assert_eq!(i.count(), 200);

    let i = Iterator2D::new(vec2(20, 10));
    assert_eq!(i.len(), 200);
    assert_eq!(i.count(), 200);
}

#[test]
fn iterator2d_walks_rows_in_order() {
    let mut it = Iterator2D::new(vec2(3, 2));
    let mut seen = Vec::new();
    while let Some(p) = it.next() {
        seen.push((p.x, p.y));
    }
    assert_eq!(seen, vec![(0, 0), (1, 0), (2, 0), (0, 1), (1, 1), (2, 1)]);
    assert_eq!(it.len(), 0);
    assert!(it.next().is_none());
}

#[test]
fn iterator2d_size_hint_shrinks() {
    let mut it = Iterator2D::new(vec2(4, 3));
    assert_eq!(it.size_hint(), (12, Some(12)));
    it.next();
    it.next();
    assert_eq!(it.size_hint(), (10, Some(10)));
    assert_eq!(it.count(), 10);
}

#[test]
fn iterator2d_empty_grid() {
    let it = Iterator2D::new(vec2(5, 0));
    assert_eq!(it.len(), 0);
    assert_eq!(it.count(), 0);
}

fn sample() -> Grid2D {
    Grid2D::from_str(vec2(3, 2), "\u{2588} \u{2588}\n \u{2588} \n")
}

#[test]
fn from_str_reads_walls() {
    let g = sample();
    assert_eq!(g.dim(), vec2(3, 2));
    assert_eq!(g.len(), 6);
    assert!(g.get(vec2(0, 0)));
    assert!(!g.get(vec2(1, 0)));
    assert!(g.get(vec2(2, 0)));
    assert!(!g.get(vec2(0, 1)));
    assert!(g.get(vec2(1, 1)));
    assert!(!g.get(vec2(2, 1)));
}

#[test]
fn from_str_accepts_crlf_and_short_lines() {
    let g = Grid2D::from_str(vec2(3, 2), "\u{2588}\r\n  \u{2588}");
    assert!(g.get(vec2(0, 0)));
    assert!(!g.get(vec2(1, 0)));
    assert!(!g.get(vec2(2, 0)));
    assert!(!g.get(vec2(0, 1)));
    assert!(!g.get(vec2(1, 1)));
    assert!(g.get(vec2(2, 1)));
}

#[test]
fn new_grid_is_empty() {
    let g = Grid2D::new(vec2(4, 5));
    assert_eq!(g.len(), 20);
    for x in 0..4 {
        for y in 0..5 {
            assert!(!g.get(vec2(x, y)));
        }
    }
}

#[test]
fn set_then_get() {
    let mut g = Grid2D::new(vec2(3, 3));
    g.set(vec2(1, 2), true);
    assert!(g.get(vec2(1, 2)));
    assert!(!g.get(vec2(2, 1)));
    g.set(vec2(1, 2), false);
    assert!(!g.get(vec2(1, 2)));
}

#[test]
fn get_option_goes_by_storage_index() {
    let g = sample();
    // (0, 2) is stored at index 2, which is the cell (1, 0)
    assert_eq!(g.get_option(vec2(0, 2)), Some(false));
    assert_eq!(g.get_option(vec2(2, 0)), Some(true));
    assert_eq!(g.get_option(vec2(-1, 0)), None);
    assert_eq!(g.get_option(vec2(3, 0)), None);
    assert_eq!(g.get_option(vec2(0, -1)), None);
}

#[test]
fn cell_iterator_yields_walls_in_row_order() {
    let g = sample();
    let mut it = g.iter();
    assert_eq!(it.size_hint(), (6, Some(6)));
    let mut seen = Vec::new();
    while let Some((p, w)) = it.next() {
        seen.push((p.x, p.y, w));
    }
    assert_eq!(
        seen,
        vec![
            (0, 0, true),
            (1, 0, false),
            (2, 0, true),
            (0, 1, false),
            (1, 1, true),
            (2, 1, false)
        ]
    );
}

#[test]
fn draw_map_text() {
    let g = sample();
    assert_eq!(g.draw_map(), "\n1 0 1 \n0 1 0 \n");
}

#[test]
fn draw_map_and_path_text() {
    let mut g = Grid2D::new(vec2(3, 2));
    g.set(vec2(2, 1), true);
    let path = ShortPath2::new(&vec![CardDir2::RR, CardDir2::RD]);
    let it = PathPointIter::new(vec2(0, 0), path.iter());
    assert_eq!(g.draw_map_and_path(it), "\n* * 0 \n0 0 x \n");
}

#[test]
fn closest_empty_prefers_first_in_row_order() {
    let mut g = Grid2D::new(vec2(3, 3));
    for x in 0..3 {
        for y in 0..3 {
            g.set(vec2(x, y), true);
        }
    }
    assert_eq!(find_closest_empty(&g, vec2(0, 0)), None);
    g.set(vec2(0, 2), false);
    g.set(vec2(2, 0), false);
    assert_eq!(find_closest_empty(&g, vec2(0, 0)), Some(vec2(2, 0)));
    g.set(vec2(1, 1), false);
    assert_eq!(find_closest_empty(&g, vec2(0, 0)), Some(vec2(1, 1)));
    assert_eq!(find_closest_empty(&g, vec2(0, 3)), Some(vec2(0, 2)));
}

#[test]
fn pick_empty_spot_picks_an_empty_cell() {
    let mut g = Grid2D::new(vec2(2, 2));
    for x in 0..2 {
        for y in 0..2 {
            g.set(vec2(x, y), true);
        }
    }
    assert_eq!(pick_empty_spot(&g), None);
    g.set(vec2(1, 0), false);
    assert_eq!(pick_empty_spot(&g), Some(vec2(1, 0)));
    g.set(vec2(0, 1), false);
    for _ in 0..20 {
        let p = pick_empty_spot(&g).unwrap();
        assert!(p == vec2(1, 0) || p == vec2(0, 1));
    }
}
