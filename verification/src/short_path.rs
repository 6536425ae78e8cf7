use vstd::prelude::*;
use crate::card_dir::{CardDir2, dir_code, dir_of_code, dir_dx, dir_dy, lemma_code_roundtrip};
use crate::vec2::{Vec2, GridNum};

verus! {

/// The most directions a [`ShortPath2`] can hold.
pub const MAX_PATH_LENGTH: usize = 42;

/// The two bits that mark the end of the packed directions.
const SENTINAL_VAL: u128 = 0b11;

/// `2^k`.
pub open spec fn two_pow(k: nat) -> nat
    decreases k,
{
    if k == 0 {
        1
    } else {
        2 * two_pow((k - 1) as nat)
    }
}

/// The packed form of a sequence of directions: the three-bit code of the
/// first direction in the lowest bits, then the rest, then the sentinel `0b11`.
pub open spec fn encode_dirs(s: Seq<CardDir2>) -> nat
    decreases s.len(),
{
    if s.len() == 0 {
        3
    } else {
        dir_code(s[0]) as nat + 8 * encode_dirs(s.drop_first())
    }
}

/// The directions that a packed value holds.
pub open spec fn decode_dirs(v: nat) -> Seq<CardDir2>
    decreases v,
{
    if v <= 3 {
        seq![]
    } else {
        seq![dir_of_code((v % 8) as u8)] + decode_dirs(v / 8)
    }
}

/// Whether `v` is the packed form of at most [`MAX_PATH_LENGTH`] directions.
pub open spec fn packed_wf(v: u128) -> bool {
    &&& encode_dirs(decode_dirs(v as nat)) == v as nat
    &&& decode_dirs(v as nat).len() <= MAX_PATH_LENGTH
}

proof fn lemma_two_pow_add(a: nat, b: nat)
    ensures
        two_pow(a + b) == two_pow(a) * two_pow(b),
    decreases a,
{
    if a == 0 {
        assert(two_pow(0) == 1);
        assert(a + b == b);
    } else {
        lemma_two_pow_add((a - 1) as nat, b);
        let x = two_pow((a - 1) as nat);
        let y = two_pow(b);
        assert(two_pow(a + b) == 2 * two_pow((a - 1 + b) as nat));
        assert(two_pow((a - 1 + b) as nat) == x * y);
        assert(two_pow(a) == 2 * x);
        assert((2 * x) * y == 2 * (x * y)) by (nonlinear_arith);
    }
}

proof fn lemma_two_pow_pos(k: nat)
    ensures
        two_pow(k) >= 1,
    decreases k,
{
    if k > 0 {
        lemma_two_pow_pos((k - 1) as nat);
    }
}

/// Packing then unpacking gives the directions back, and the packed value
/// has exactly `3 * len + 2` significant bits.
proof fn lemma_encode(s: Seq<CardDir2>)
    ensures
        decode_dirs(encode_dirs(s)) == s,
        3 * two_pow(3 * s.len()) <= encode_dirs(s) < 4 * two_pow(3 * s.len()),
    decreases s.len(),
{
    if s.len() == 0 {
        assert(two_pow(0) == 1);
        assert(decode_dirs(3) =~= seq![]);
    } else {
        let rest = s.drop_first();
        lemma_encode(rest);
        let e = encode_dirs(rest);
        let p = two_pow(3 * rest.len());
        lemma_two_pow_add(3, 3 * rest.len());
        lemma_two_pow_small();
        assert(3 * s.len() == 3 + 3 * rest.len());
        assert(two_pow(3 * s.len()) == 8 * p);
        lemma_code_roundtrip(s[0], 0);
        let v = encode_dirs(s);
        assert(v == dir_code(s[0]) + 8 * e);
        lemma_two_pow_pos(3 * rest.len());
        assert(v > 3);
        assert(v % 8 == dir_code(s[0]));
        assert(v / 8 == e);
        assert(decode_dirs(v) == seq![dir_of_code((v % 8) as u8)] + decode_dirs(v / 8));
        assert(decode_dirs(v) =~= s);
    }
}

proof fn lemma_two_pow_small()
    ensures
        two_pow(1) == 2,
        two_pow(2) == 4,
        two_pow(3) == 8,
        two_pow(8) == 256,
{
    reveal_with_fuel(two_pow, 9);
}

proof fn lemma_two_pow_128()
    ensures
        two_pow(128) == u128::MAX + 1,
        two_pow(125) == 0x2000_0000_0000_0000_0000_0000_0000_0000,
{
    lemma_two_pow_small();
    lemma_two_pow_add(8, 8);
    lemma_two_pow_add(16, 16);
    lemma_two_pow_add(32, 32);
    lemma_two_pow_add(64, 64);
    lemma_two_pow_add(125, 3);
    assert(256 * 256 == 0x1_0000) by (nonlinear_arith);
    assert(two_pow(16) == 0x1_0000);
    assert(0x1_0000 * 0x1_0000 == 0x1_0000_0000) by (nonlinear_arith);
    assert(two_pow(32) == 0x1_0000_0000);
    assert(0x1_0000_0000 * 0x1_0000_0000 == 0x1_0000_0000_0000_0000) by (nonlinear_arith);
    assert(two_pow(64) == 0x1_0000_0000_0000_0000);
    assert(0x1_0000_0000_0000_0000 * 0x1_0000_0000_0000_0000
        == 0x1_0000_0000_0000_0000_0000_0000_0000_0000) by (nonlinear_arith);
    assert(two_pow(128) == 0x1_0000_0000_0000_0000_0000_0000_0000_0000);
}

proof fn lemma_two_pow_mono(a: nat, b: nat)
    requires
        a <= b,
    ensures
        two_pow(a) <= two_pow(b),
    decreases b,
{
    if a < b {
        lemma_two_pow_mono(a, (b - 1) as nat);
    }
}

/// A path of up to [`MAX_PATH_LENGTH`] steps packed into one `u128`,
/// three bits per direction.
#[derive(Copy, Clone, Debug, PartialEq, Eq, Structural)]
pub struct ShortPath2 {
    value: u128,
}

impl ShortPath2 {
    #[verifier::type_invariant]
    spec fn inv(self) -> bool {
        packed_wf(self.value)
    }

    /// The directions of the path, first step first.
    pub closed spec fn dirs(self) -> Seq<CardDir2> {
        decode_dirs(self.value as nat)
    }

    /// The packed path holding `dirs`.
    pub closed spec fn from_dirs(dirs: Seq<CardDir2>) -> ShortPath2 {
        ShortPath2 { value: encode_dirs(dirs) as u128 }
    }

    /// A packed path is determined by its directions.
    pub proof fn lemma_from_dirs(dirs: Seq<CardDir2>)
        requires
            dirs.len() <= MAX_PATH_LENGTH,
        ensures
            Self::from_dirs(dirs).dirs() == dirs,
    {
        lemma_encode(dirs);
        lemma_two_pow_mono(3 * dirs.len(), 126);
        lemma_two_pow_add(2, 126);
        lemma_two_pow_small();
        lemma_two_pow_128();
    }

    /// Packs the directions of `it`; at most [`MAX_PATH_LENGTH`] fit.
    pub fn new(it: &Vec<CardDir2>) -> (p: ShortPath2)
        requires
            it.len() <= MAX_PATH_LENGTH,
        ensures
            p.dirs() == it@,
            p == Self::from_dirs(it@),
    {
        let n = it.len();
        let mut value: u128 = SENTINAL_VAL;
        let mut i = n;
        proof {
            assert(it@.subrange(n as int, n as int) =~= seq![]);
        }
        while i > 0
            invariant
                n == it.len(),
                n <= MAX_PATH_LENGTH,
                i <= n,
                value as nat == encode_dirs(it@.subrange(i as int, n as int)),
            decreases i,
        {
            let ghost rest = it@.subrange(i as int, n as int);
            i = i - 1;
            let c = it[i].code();
            proof {
                lemma_encode(rest);
                lemma_two_pow_mono(3 * rest.len(), 123);
                lemma_two_pow_add(2, 123);
                lemma_two_pow_small();
                lemma_two_pow_128();
                assert(value < two_pow(125));
                let s = it@.subrange(i as int, n as int);
                assert(s.drop_first() =~= rest);
                assert(s[0] == it@[i as int]);
            }
            let shifted: u128 = value << 3u32;
            proof {
                let v = value;
                assert(v < 0x2000_0000_0000_0000_0000_0000_0000_0000u128) by {
                    lemma_two_pow_128();
                }
                assert((v << 3u32) == v * 8) by (bit_vector)
                    requires v < 0x2000_0000_0000_0000_0000_0000_0000_0000u128;
                let cc = c as u128;
                assert(((v * 8) as u128 | cc) == v * 8 + cc) by (bit_vector)
                    requires v < 0x2000_0000_0000_0000_0000_0000_0000_0000u128, cc < 8;
            }
            value = shifted | (c as u128);
        }
        proof {
            assert(it@.subrange(0, n as int) =~= it@);
            lemma_encode(it@);
        }
        ShortPath2 { value }
    }

    /// The number of directions in the path, counted three bits at a time
    /// down to the end marker.
    pub fn len(&self) -> (l: usize)
        ensures
            l == self.dirs().len(),
    {
        proof {
            use_type_invariant(self);
        }
        let mut it = self.iter();
        let mut n: usize = 0;
        while it.peek().is_some()
            invariant
                n + it.remaining().len() == self.dirs().len(),
                self.dirs().len() <= MAX_PATH_LENGTH,
            decreases it.remaining().len(),
        {
            it.next();
            n = n + 1;
        }
        n
    }

    /// The iterator that [`ShortPath2::iter`] returns.
    pub closed spec fn spec_iter(self) -> ShortPath2Iter {
        ShortPath2Iter { path: self }
    }

    /// An iterator over the directions of the path.
    pub fn iter(&self) -> (it: ShortPath2Iter)
        ensures
            it == self.spec_iter(),
            it.remaining() == self.dirs(),
    {
        ShortPath2Iter { path: *self }
    }
}

/// Whether one call of an iterator's `next` took the first of the items
/// `before` still to come, leaving `after`; or, with none left, gave `None`
/// and left them as they were.
pub open spec fn pops<T>(before: Seq<T>, out: Option<T>, after: Seq<T>) -> bool {
    if before.len() == 0 {
        out is None && after == before
    } else {
        out == Some(before[0]) && after == before.drop_first()
    }
}

/// The smaller of `i` and `n`.
pub open spec fn min_int(i: int, n: int) -> int {
    if i < n {
        i
    } else {
        n
    }
}

/// Repeated calls of `next`: where each call takes the first item still to
/// come, the `i`-th call returns the `i`-th item of those at the start, and
/// `None` once they are all taken; after `i` calls the items still to come
/// are those at the start without the first `i`.
pub proof fn lemma_pops<T>(rem: Seq<Seq<T>>, outs: Seq<Option<T>>)
    requires
        rem.len() == outs.len() + 1,
        forall|i: int| 0 <= i < outs.len() ==> pops(rem[i], #[trigger] outs[i], rem[i + 1]),
    ensures
        forall|i: int|
            0 <= i < outs.len() ==> #[trigger] outs[i] == (if i < rem[0].len() {
                Some(rem[0][i])
            } else {
                None
            }),
        forall|i: int| 0 <= i < rem.len() ==> #[trigger] rem[i] == rem[0].skip(min_int(i, rem[0].len() as int)),
    decreases outs.len(),
{
    if outs.len() == 0 {
        assert(rem[0].skip(0) =~= rem[0]);
    } else {
        let n = outs.len() - 1;
        let rem1 = rem.drop_last();
        let outs1 = outs.drop_last();
        assert forall|i: int| 0 <= i < outs1.len() implies pops(rem1[i], #[trigger] outs1[i], rem1[i + 1]) by {
            assert(outs1[i] == outs[i] && rem1[i] == rem[i] && rem1[i + 1] == rem[i + 1]);
        }
        lemma_pops(rem1, outs1);
        let l = rem[0].len() as int;
        assert(rem[n] == rem1[n]);
        assert(rem[n] == rem[0].skip(min_int(n, l)));
        assert(pops(rem[n], outs[n], rem[n + 1]));
        assert forall|i: int| 0 <= i < outs.len() implies #[trigger] outs[i] == (if i < rem[0].len() {
            Some(rem[0][i])
        } else {
            None
        }) by {
            if i < n {
                assert(outs[i] == outs1[i]);
            } else {
                if n < l {
                    assert(rem[n][0] == rem[0][n]);
                }
            }
        }
        assert forall|i: int| 0 <= i < rem.len() implies #[trigger] rem[i] == rem[0].skip(min_int(i, l)) by {
            if i <= n {
                assert(rem[i] == rem1[i]);
            } else {
                if n < l {
                    assert(rem[n].drop_first() =~= rem[0].skip(n + 1));
                }
            }
        }
    }
}

/// Yields the directions of a [`ShortPath2`] one by one.
#[derive(Copy, Clone, Debug, PartialEq, Eq, Structural)]
pub struct ShortPath2Iter {
    path: ShortPath2,
}

impl ShortPath2Iter {
    /// The directions not yet yielded.
    pub closed spec fn remaining(self) -> Seq<CardDir2> {
        self.path.dirs()
    }

    proof fn lemma_front(self)
        requires
            packed_wf(self.path.value),
        ensures
            self.path.value == SENTINAL_VAL <==> self.remaining().len() == 0,
            self.remaining().len() > 0 ==> {
                &&& (self.path.value % 8) < 8
                &&& dir_of_code((self.path.value % 8) as u8) == self.remaining()[0]
                &&& packed_wf(self.path.value / 8)
                &&& decode_dirs((self.path.value / 8) as nat) == self.remaining().drop_first()
            },
    {
        let s = self.remaining();
        lemma_encode(s);
        if s.len() > 0 {
            let rest = s.drop_first();
            lemma_encode(rest);
            lemma_two_pow_pos(3 * rest.len());
            lemma_code_roundtrip(s[0], 0);
            let v = self.path.value as nat;
            assert(v == dir_code(s[0]) + 8 * encode_dirs(rest));
            assert(v / 8 == encode_dirs(rest));
        } else {
            assert(self.path.value == 3);
        }
    }

    /// The next direction, without consuming it.
    pub fn peek(&self) -> (r: Option<CardDir2>)
        ensures
            r == (if self.remaining().len() == 0 {
                None
            } else {
                Some(self.remaining()[0])
            }),
    {
        proof {
            use_type_invariant(&self.path);
            self.lemma_front();
        }
        if self.path.value == SENTINAL_VAL {
            return None;
        }
        let low = self.path.value & 0b111;
        proof {
            let v = self.path.value;
            assert(v & 0b111 == v % 8) by (bit_vector);
        }
        let dir = CardDir2::from_u8(low as u8);
        Some(dir)
    }

    /// Yields the next direction.
    pub fn next(&mut self) -> (r: Option<CardDir2>)
        ensures
            old(self).remaining().len() == 0 ==> r is None && *final(self) == *old(self),
            old(self).remaining().len() > 0 ==> r == Some(old(self).remaining()[0])
                && final(self).remaining() == old(self).remaining().drop_first(),
            pops(old(self).remaining(), r, final(self).remaining()),
    {
        proof {
            use_type_invariant(&self.path);
            self.lemma_front();
        }
        if self.path.value == SENTINAL_VAL {
            return None;
        }
        let v = self.path.value;
        let low = v & 0b111;
        proof {
            assert(v & 0b111 == v % 8) by (bit_vector);
            assert(v >> 3u32 == v / 8) by (bit_vector);
        }
        let dir = CardDir2::from_u8(low as u8);
        self.path = ShortPath2 { value: v >> 3u32 };
        Some(dir)
    }

    /// The number of directions not yet yielded, as an exact size hint.
    pub fn size_hint(&self) -> (r: (usize, Option<usize>))
        ensures
            r.0 == self.remaining().len(),
            r.1 == Some(self.remaining().len() as usize),
    {
        let l = self.path.len();
        (l, Some(l))
    }

    /// The number of directions not yet yielded.
    pub fn len(&self) -> (l: usize)
        ensures
            l == self.remaining().len(),
    {
        self.path.len()
    }
}

/// Repeated calls of [`ShortPath2Iter::next`] from `its[0]`, the `i`-th
/// leaving `its[i + 1]` and returning `outs[i]`: they return the directions
/// of `its[0]` in order, then `None` on every further call, and after `i`
/// calls the size hint is the number of directions left.
pub proof fn lemma_dirs_walk(its: Seq<ShortPath2Iter>, outs: Seq<Option<CardDir2>>)
    requires
        its.len() == outs.len() + 1,
        forall|i: int| 0 <= i < outs.len() ==> pops(its[i].remaining(), #[trigger] outs[i], its[i + 1].remaining()),
    ensures
        forall|i: int|
            0 <= i < outs.len() ==> #[trigger] outs[i] == (if i < its[0].remaining().len() {
                Some(its[0].remaining()[i])
            } else {
                None
            }),
        forall|i: int|
            0 <= i < its.len() ==> (#[trigger] its[i]).remaining().len() == its[0].remaining().len()
                - min_int(i, its[0].remaining().len() as int),
{
    let rem = Seq::new(its.len(), |i: int| its[i].remaining());
    assert forall|i: int| 0 <= i < outs.len() implies pops(rem[i], #[trigger] outs[i], rem[i + 1]) by {}
    lemma_pops(rem, outs);
    assert forall|i: int| 0 <= i < its.len() implies (#[trigger] its[i]).remaining().len() == its[0].remaining().len()
        - min_int(i, its[0].remaining().len() as int) by {
        assert(rem[i] == its[i].remaining());
    }
}

/// The cell reached from `p` by one step in direction `d`.
pub open spec fn step_from(p: (int, int), d: CardDir2) -> (int, int) {
    (p.0 + dir_dx(d), p.1 + dir_dy(d))
}

/// Whether the cell reached from `p` by one step in direction `d` has
/// coordinates that fit a [`GridNum`].
pub open spec fn step_fits(p: (int, int), d: CardDir2) -> bool {
    let q = step_from(p, d);
    &&& isize::MIN <= q.0 <= isize::MAX
    &&& isize::MIN <= q.1 <= isize::MAX
}

/// The cells visited when walking `dirs` from `start`, the start excluded.
pub open spec fn path_points(start: (int, int), dirs: Seq<CardDir2>) -> Seq<(int, int)>
    decreases dirs.len(),
{
    if dirs.len() == 0 {
        seq![]
    } else {
        let next = step_from(start, dirs[0]);
        seq![next] + path_points(next, dirs.drop_first())
    }
}

/// Walks a [`ShortPath2`] from a start cell, yielding each direction with
/// the cell it leads to.
#[derive(Copy, Clone, Debug, PartialEq, Eq, Structural)]
pub struct PathPointIter {
    cursor: Vec2,
    path: ShortPath2Iter,
}

impl PathPointIter {
    /// The cell reached so far.
    pub closed spec fn cursor(self) -> (int, int) {
        self.cursor.pair()
    }

    /// The directions not yet walked.
    pub closed spec fn remaining(self) -> Seq<CardDir2> {
        self.path.remaining()
    }

    /// The walker that [`PathPointIter::new`] returns.
    pub closed spec fn spec_new(start: Vec2, path: ShortPath2Iter) -> PathPointIter {
        PathPointIter { cursor: start, path }
    }

    /// Starts walking `path` from `start`.
    pub fn new(start: Vec2, path: ShortPath2Iter) -> (it: PathPointIter)
        ensures
            it == Self::spec_new(start, path),
            it.cursor() == start.pair(),
            it.remaining() == path.remaining(),
    {
        PathPointIter { cursor: start, path }
    }

    /// The cell reached so far.
    pub fn pos(&self) -> (p: Vec2)
        ensures
            p.pair() == self.cursor(),
    {
        self.cursor
    }

    /// The next direction and the cell it leads to, without walking it.
    pub fn peek(&self) -> (r: Option<(CardDir2, Vec2)>)
        requires
            self.remaining().len() > 0 ==> step_fits(self.cursor(), self.remaining()[0]),
        ensures
            self.remaining().len() == 0 ==> r is None,
            self.remaining().len() > 0 ==> (r matches Some((d, p)) && d == self.remaining()[0]
                && p.pair() == step_from(self.cursor(), d)),
    {
        match self.path.peek() {
            Some(a) => {
                let (off, _cost) = a.into_offset();
                Some((a, self.cursor.add(off)))
            },
            None => None,
        }
    }

    /// The direction after the next one and the cell it leads to, without walking.
    pub fn double_peek(&self) -> (r: Option<(CardDir2, Vec2)>)
        requires
            self.remaining().len() > 0 ==> step_fits(self.cursor(), self.remaining()[0]),
            self.remaining().len() > 1 ==> step_fits(
                step_from(self.cursor(), self.remaining()[0]),
                self.remaining()[1],
            ),
        ensures
            self.remaining().len() <= 1 ==> r is None,
            self.remaining().len() > 1 ==> (r matches Some((d, p)) && d == self.remaining()[1]
                && p.pair() == step_from(step_from(self.cursor(), self.remaining()[0]), d)),
    {
        let mut k = *self;
        k.next();
        k.peek()
    }

    /// Walks one direction, yielding it with the cell it leads to.
    pub fn next(&mut self) -> (r: Option<(CardDir2, Vec2)>)
        requires
            old(self).remaining().len() > 0 ==> step_fits(
                old(self).cursor(),
                old(self).remaining()[0],
            ),
        ensures
            old(self).remaining().len() == 0 ==> r is None && *final(self) == *old(self),
            old(self).remaining().len() > 0 ==> (r matches Some((d, p)) && d == old(
                self,
            ).remaining()[0] && p.pair() == step_from(old(self).cursor(), d)
                && final(self).cursor() == p.pair() && final(self).remaining() == old(
                self,
            ).remaining().drop_first()),
    {
        match self.path.next() {
            Some(p) => {
                let (off, _cost) = p.into_offset();
                self.cursor = self.cursor.add(off);
                Some((p, self.cursor))
            },
            None => None,
        }
    }

    /// The number of directions not yet walked, as an exact size hint.
    pub fn size_hint(&self) -> (r: (usize, Option<usize>))
        ensures
            r.0 == self.remaining().len(),
            r.1 == Some(self.remaining().len() as usize),
    {
        self.path.size_hint()
    }

    /// The number of directions not yet walked.
    pub fn len(&self) -> (l: usize)
        ensures
            l == self.remaining().len(),
    {
        self.path.len()
    }
}

} // verus!
