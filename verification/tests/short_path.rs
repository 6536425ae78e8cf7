use gridbot::card_dir::CardDir2;
use gridbot::card_dir::CardDir2::{DD, DL, LL, RD, RR, UL, UR, UU};
use gridbot::short_path::{PathPointIter, ShortPath2, MAX_PATH_LENGTH};
use gridbot::vec2::vec2;

fn collect(p: &ShortPath2) -> Vec<CardDir2> {
    let mut it = p.iter();
    let mut v = Vec::new();
    while let Some(d) = it.next() {
        v.push(d);
    }
    v
}

#[test]
fn empty_path() {
    let p = ShortPath2::new(&vec![]);
    assert_eq!(p.len(), 0);
    let mut it = p.iter();
    assert_eq!(it.peek(), None);
    assert_eq!(it.next(), None);
    assert_eq!(it.len(), 0);
}

#[test]
fn path_round_trips() {
    let dirs = vec![UU, RD, LL, UL, DD, RR, UR, DL];
    let p = ShortPath2::new(&dirs);
    assert_eq!(p.len(), 8);
    assert_eq!(collect(&p), dirs);
}

#[test]
fn iterator_shrinks() {
    let p = ShortPath2::new(&vec![RR, DD, LL]);
    let mut it = p.iter();
    assert_eq!(it.size_hint(), (3, Some(3)));
    assert_eq!(it.peek(), Some(RR));
    assert_eq!(it.next(), Some(RR));
    assert_eq!(it.len(), 2);
    assert_eq!(it.peek(), Some(DD));
    assert_eq!(it.next(), Some(DD));
    assert_eq!(it.next(), Some(LL));
    assert_eq!(it.next(), None);
    assert_eq!(it.size_hint(), (0, Some(0)));
}

#[test]
fn len_counts_every_direction() {
    for n in 0..=MAX_PATH_LENGTH {
        let dirs: Vec<CardDir2> = (0..n).map(|i| CardDir2::from_u8((i % 8) as u8)).collect();
        let p = ShortPath2::new(&dirs);
        assert_eq!(p.len(), n);
        assert_eq!(collect(&p), dirs);
    }
}

#[test]
fn longest_path_of_last_code() {
    let dirs = vec![UL; MAX_PATH_LENGTH];
    let p = ShortPath2::new(&dirs);
    assert_eq!(p.len(), 42);
    assert_eq!(collect(&p), dirs);
}

#[test]
fn equal_directions_equal_paths() {
    let a = ShortPath2::new(&vec![RR, DD]);
    let b = ShortPath2::new(&vec![RR, DD]);
    let c = ShortPath2::new(&vec![DD, RR]);
    assert_eq!(a, b);
    assert_ne!(a, c);
}

#[test]
fn path_points_walk_the_cells() {
    let p = ShortPath2::new(&vec![RR, DD]);
    let mut it = PathPointIter::new(vec2(5, 5), p.iter());
    assert_eq!(it.pos(), vec2(5, 5));
    assert_eq!(it.size_hint(), (2, Some(2)));
    assert_eq!(it.peek(), Some((RR, vec2(6, 5))));
    assert_eq!(it.double_peek(), Some((DD, vec2(6, 6))));
    assert_eq!(it.next(), Some((RR, vec2(6, 5))));
    assert_eq!(it.pos(), vec2(6, 5));
    assert_eq!(it.double_peek(), None);
    assert_eq!(it.next(), Some((DD, vec2(6, 6))));
    assert_eq!(it.len(), 0);
    assert_eq!(it.peek(), None);
    assert_eq!(it.next(), None);
    assert_eq!(it.pos(), vec2(6, 6));
}
