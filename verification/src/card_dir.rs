use vstd::prelude::*;
use crate::vec2::{vec2, Vec2};

verus! {

/// One of the eight directions of a step on the grid, diagonals included.
/// The variants are listed in the order of their three-bit codes `0..8`.
#[derive(Copy, Clone, Debug, PartialEq, Eq, Structural)]
pub enum CardDir2 {
    UU,
    UR,
    RR,
    RD,
    DD,
    DL,
    LL,
    UL,
}

/// The three-bit code of a direction.
pub open spec fn dir_code(d: CardDir2) -> u8 {
    match d {
        CardDir2::UU => 0,
        CardDir2::UR => 1,
        CardDir2::RR => 2,
        CardDir2::RD => 3,
        CardDir2::DD => 4,
        CardDir2::DL => 5,
        CardDir2::LL => 6,
        CardDir2::UL => 7,
    }
}

/// The direction with a given three-bit code.
pub open spec fn dir_of_code(c: u8) -> CardDir2 {
    if c == 0 {
        CardDir2::UU
    } else if c == 1 {
        CardDir2::UR
    } else if c == 2 {
        CardDir2::RR
    } else if c == 3 {
        CardDir2::RD
    } else if c == 4 {
        CardDir2::DD
    } else if c == 5 {
        CardDir2::DL
    } else if c == 6 {
        CardDir2::LL
    } else {
        CardDir2::UL
    }
}

/// The x component of a unit step in direction `d` (y grows downwards).
pub open spec fn dir_dx(d: CardDir2) -> int {
    match d {
        CardDir2::UU | CardDir2::DD => 0,
        CardDir2::UR | CardDir2::RR | CardDir2::RD => 1,
        CardDir2::DL | CardDir2::LL | CardDir2::UL => -1,
    }
}

/// The y component of a unit step in direction `d` (y grows downwards).
pub open spec fn dir_dy(d: CardDir2) -> int {
    match d {
        CardDir2::RR | CardDir2::LL => 0,
        CardDir2::RD | CardDir2::DD | CardDir2::DL => 1,
        CardDir2::UU | CardDir2::UR | CardDir2::UL => -1,
    }
}

/// The cost of a step: 2 along an axis, 3 along a diagonal.
pub open spec fn dir_cost(d: CardDir2) -> usize {
    if dir_dx(d) != 0 && dir_dy(d) != 0 {
        3
    } else {
        2
    }
}

/// Whether `(dx, dy)` is the offset of one of the eight steps.
pub open spec fn is_unit_offset(dx: int, dy: int) -> bool {
    -1 <= dx <= 1 && -1 <= dy <= 1 && !(dx == 0 && dy == 0)
}

/// The direction whose step is the unit offset `(dx, dy)`.
pub open spec fn dir_of_offset(dx: int, dy: int) -> CardDir2 {
    if dx == 0 && dy == -1 {
        CardDir2::UU
    } else if dx == 1 && dy == -1 {
        CardDir2::UR
    } else if dx == 1 && dy == 0 {
        CardDir2::RR
    } else if dx == 1 && dy == 1 {
        CardDir2::RD
    } else if dx == 0 && dy == 1 {
        CardDir2::DD
    } else if dx == -1 && dy == 1 {
        CardDir2::DL
    } else if dx == -1 && dy == 0 {
        CardDir2::LL
    } else {
        CardDir2::UL
    }
}

/// Codes and directions are in one-to-one correspondence.
pub proof fn lemma_code_roundtrip(d: CardDir2, c: u8)
    ensures
        dir_code(d) < 8,
        dir_of_code(dir_code(d)) == d,
        c < 8 ==> dir_code(dir_of_code(c)) == c,
{
}

/// Offsets and directions are in one-to-one correspondence.
pub proof fn lemma_offset_roundtrip(d: CardDir2, dx: int, dy: int)
    ensures
        is_unit_offset(dir_dx(d), dir_dy(d)),
        dir_of_offset(dir_dx(d), dir_dy(d)) == d,
        is_unit_offset(dx, dy) ==> dir_dx(dir_of_offset(dx, dy)) == dx && dir_dy(
            dir_of_offset(dx, dy),
        ) == dy,
{
}

impl CardDir2 {
    /// The direction with code `a`.
    pub fn from_u8(a: u8) -> (d: CardDir2)
        requires
            a < 8,
        ensures
            d == dir_of_code(a),
            dir_code(d) == a,
    {
        match a {
            0 => CardDir2::UU,
            1 => CardDir2::UR,
            2 => CardDir2::RR,
            3 => CardDir2::RD,
            4 => CardDir2::DD,
            5 => CardDir2::DL,
            6 => CardDir2::LL,
            _ => CardDir2::UL,
        }
    }

    /// The three-bit code of this direction.
    pub fn code(self) -> (c: u8)
        ensures
            c == dir_code(self),
            c < 8,
    {
        match self {
            CardDir2::UU => 0,
            CardDir2::UR => 1,
            CardDir2::RR => 2,
            CardDir2::RD => 3,
            CardDir2::DD => 4,
            CardDir2::DL => 5,
            CardDir2::LL => 6,
            CardDir2::UL => 7,
        }
    }

    /// The direction of a unit step.
    pub fn from_offset(offset: Vec2) -> (d: CardDir2)
        requires
            is_unit_offset(offset.x as int, offset.y as int),
        ensures
            d == dir_of_offset(offset.x as int, offset.y as int),
            dir_dx(d) == offset.x,
            dir_dy(d) == offset.y,
    {
        if offset.x == 0 && offset.y == -1 {
            CardDir2::UU
        } else if offset.x == 1 && offset.y == -1 {
            CardDir2::UR
        } else if offset.x == 1 && offset.y == 0 {
            CardDir2::RR
        } else if offset.x == 1 && offset.y == 1 {
            CardDir2::RD
        } else if offset.x == 0 && offset.y == 1 {
            CardDir2::DD
        } else if offset.x == -1 && offset.y == 1 {
            CardDir2::DL
        } else if offset.x == -1 && offset.y == 0 {
            CardDir2::LL
        } else {
            CardDir2::UL
        }
    }

    /// The offset of a step in this direction, with the step's cost.
    pub fn into_offset(self) -> (r: (Vec2, usize))
        ensures
            r.0.x == dir_dx(self),
            r.0.y == dir_dy(self),
            r.1 == dir_cost(self),
    {
        match self {
            CardDir2::UU => (vec2(0, -1), 2),
            CardDir2::UR => (vec2(1, -1), 3),
            CardDir2::RR => (vec2(1, 0), 2),
            CardDir2::RD => (vec2(1, 1), 3),
            CardDir2::DD => (vec2(0, 1), 2),
            CardDir2::DL => (vec2(-1, 1), 3),
            CardDir2::LL => (vec2(-1, 0), 2),
            CardDir2::UL => (vec2(-1, -1), 3),
        }
    }

    /// The offsets and costs of all eight directions, in code order.
    pub fn all_offsets() -> (r: [(Vec2, usize); 8])
        ensures
            forall|i: int|
                0 <= i < 8 ==> {
                    let d = #[trigger] dir_of_code(i as u8);
                    &&& r@[i].0.x == dir_dx(d)
                    &&& r@[i].0.y == dir_dy(d)
                    &&& r@[i].1 == dir_cost(d)
                },
    {
        let r = [
            CardDir2::UU.into_offset(),
            CardDir2::UR.into_offset(),
            CardDir2::RR.into_offset(),
            CardDir2::RD.into_offset(),
            CardDir2::DD.into_offset(),
            CardDir2::DL.into_offset(),
            CardDir2::LL.into_offset(),
            CardDir2::UL.into_offset(),
        ];
        assert forall|i: int| 0 <= i < 8 implies {
            let d = #[trigger] dir_of_code(i as u8);
            &&& r@[i].0.x == dir_dx(d)
            &&& r@[i].0.y == dir_dy(d)
            &&& r@[i].1 == dir_cost(d)
        } by {
            if i == 0 {} else if i == 1 {} else if i == 2 {} else if i == 3 {}
            else if i == 4 {} else if i == 5 {} else if i == 6 {} else {}
        }
        r
    }
}

} // verus!
