use gridbot::card_dir::CardDir2;
use gridbot::card_dir::CardDir2::{DD, DL, LL, RD, RR, UL, UR, UU};
use gridbot::vec2::vec2;

#[test]
fn codes_round_trip() {
    for c in 0..8u8 {
        assert_eq!(CardDir2::from_u8(c).code(), c);
    }
    assert_eq!(CardDir2::from_u8(3), RD);
    assert_eq!(UL.code(), 7);
}

#[test]
fn offsets_and_costs() {
    assert_eq!(UU.into_offset(), (vec2(0, -1), 2));
    assert_eq!(UR.into_offset(), (vec2(1, -1), 3));
    assert_eq!(DL.into_offset(), (vec2(-1, 1), 3));
    assert_eq!(LL.into_offset(), (vec2(-1, 0), 2));
    assert_eq!(CardDir2::from_offset(vec2(-1, 1)), DL);
    assert_eq!(CardDir2::from_offset(vec2(1, 0)), RR);
    for c in 0..8u8 {
        let d = CardDir2::from_u8(c);
        assert_eq!(CardDir2::from_offset(d.into_offset().0), d);
    }
}

#[test]
fn all_offsets_in_code_order() {
    let all = CardDir2::all_offsets();
    for c in 0..8usize {
        assert_eq!(all[c], CardDir2::from_u8(c as u8).into_offset());
    }
    assert_eq!(all[3], (vec2(1, 1), 3));
}
