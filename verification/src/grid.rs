use vstd::prelude::*;
use bit_vec::BitVec;
use rand::rngs::ThreadRng;
use rand::seq::SliceRandom;
use crate::vec2::{vec2, Vec2, GridNum};
use crate::short_path::{PathPointIter, path_points, step_fits, step_from, pops, lemma_pops, min_int};
use crate::card_dir::CardDir2;

verus! {

#[verifier::external_type_specification]
#[verifier::external_body]
#[verifier::reject_recursive_types(B)]
pub struct ExBitVec<B = u32>(BitVec<B>);

/// The bits that a bit vector holds, lowest index first.
pub uninterp spec fn bitvec_bits(v: BitVec) -> Seq<bool>;

/// `BitVec::from_elem`: a vector of `nbits` bits, each equal to `bit`.
#[verifier::external_body]
fn bitvec_from_elem(nbits: usize, bit: bool) -> (v: BitVec)
    ensures
        bitvec_bits(v) == Seq::new(nbits as nat, |_i: int| bit),
{
    BitVec::from_elem(nbits, bit)
}

/// `BitVec::get`: the bit at index `i`, or `None` when `i` is not below the length.
#[verifier::external_body]
fn bitvec_get(v: &BitVec, i: usize) -> (r: Option<bool>)
    ensures
        r == (if i < bitvec_bits(*v).len() {
            Some(bitvec_bits(*v)[i as int])
        } else {
            None
        }),
{
    v.get(i)
}

/// `<BitVec as Index<usize>>::index`: the bit at index `i`; it panics when
/// `i` is not below the length, which `requires` rules out.
#[verifier::external_body]
fn bitvec_index(v: &BitVec, i: usize) -> (r: bool)
    requires
        i < bitvec_bits(*v).len(),
    ensures
        r == bitvec_bits(*v)[i as int],
{
    v[i]
}

/// `BitVec::set`: sets the bit at index `i` to `x`, leaving the others; it
/// panics when `i` is not below the length, which `requires` rules out.
#[verifier::external_body]
fn bitvec_set(v: &mut BitVec, i: usize, x: bool)
    requires
        i < bitvec_bits(*old(v)).len(),
    ensures
        bitvec_bits(*final(v)) == bitvec_bits(*old(v)).update(i as int, x),
{
    v.set(i, x)
}

/// The `k`-th cell, counting along rows, of a grid `dx` cells wide.
pub open spec fn cell_at(dx: int, k: int) -> (int, int) {
    (k % dx, k / dx)
}

/// Visits every cell position of a grid, row by row (x varies fastest).
#[derive(Copy, Clone, Debug)]
pub struct Iterator2D {
    counter: Vec2,
    dim: Vec2,
}

impl Iterator2D {
    /// The next position to yield.
    pub closed spec fn counter(self) -> (int, int) {
        self.counter.pair()
    }

    /// The dimensions being walked.
    pub closed spec fn dims(self) -> (int, int) {
        self.dim.pair()
    }

    /// A state reachable from [`Iterator2D::new`] on dimensions that the walk fits.
    pub open spec fn wf(self) -> bool {
        let (dx, dy) = self.dims();
        let (cx, cy) = self.counter();
        &&& dx >= 0 && dy >= 0 && dx * dy <= isize::MAX
        &&& dx > 0 || dy == 0
        &&& 0 <= cy <= dy
        &&& (cy < dy ==> 0 <= cx < dx)
        &&& (cy == dy ==> cx == 0)
    }

    /// How many positions yielded so far, in a well-formed state.
    pub open spec fn position(self) -> int {
        self.counter().1 * self.dims().0 + self.counter().0
    }

    /// How many positions are left to yield, in a well-formed state.
    pub open spec fn remaining_count(self) -> int {
        self.dims().0 * (self.dims().1 - self.counter().1) - self.counter().0
    }

    /// The positions still to be yielded, in order, in a well-formed state.
    pub open spec fn remaining_cells(self) -> Seq<(int, int)> {
        Seq::new(self.remaining_count() as nat, |k: int| cell_at(self.dims().0, self.position() + k))
    }

    /// Starts at the first cell of a grid of dimensions `dim`: it yields
    /// every position once, row by row, `dim.x * dim.y` in all.
    pub fn new(dim: Vec2) -> (it: Iterator2D)
        ensures
            it.counter() == (0int, 0int),
            it.dims() == dim.pair(),
            dim.x >= 0 && dim.y >= 0 && dim.x * dim.y <= isize::MAX && (dim.x > 0 || dim.y
                == 0) ==> it.wf() && it.remaining_cells() == Seq::new(
                (dim.x * dim.y) as nat,
                |k: int| cell_at(dim.x as int, k),
            ),
    {
        let it = Iterator2D { counter: vec2(0, 0), dim };
        proof {
            let dx = dim.x as int;
            assert(0 * dx == 0) by (nonlinear_arith);
            assert(it.position() == 0);
            assert(it.remaining_count() == dim.x * dim.y);
            assert(it.remaining_cells() =~= Seq::new(
                (dim.x * dim.y) as nat,
                |k: int| cell_at(dim.x as int, k),
            ));
        }
        it
    }

    /// The number of positions left, computed as `dim.x * (dim.y - 1 - y) + dim.x - x`.
    pub fn size_hint(&self) -> (r: (usize, Option<usize>))
        requires
            isize::MIN <= self.dims().1 - 1,
            isize::MIN <= self.dims().1 - 1 - self.counter().1 <= isize::MAX,
            isize::MIN <= self.dims().0 - self.counter().0 <= isize::MAX,
            isize::MIN <= self.dims().0 * (self.dims().1 - 1 - self.counter().1) <= isize::MAX,
            isize::MIN <= self.dims().0 * (self.dims().1 - 1 - self.counter().1) + (
            self.dims().0 - self.counter().0) <= isize::MAX,
        ensures
            r.0 == (self.dims().0 * (self.dims().1 - 1 - self.counter().1) + (self.dims().0
                - self.counter().0)) as usize,
            r.1 == Some(r.0),
            self.wf() ==> r.0 == self.remaining_count() && r.0 == self.remaining_cells().len(),
    {
        proof {
            if self.wf() {
                self.lemma_wf_bounds();
            }
        }
        let diffx = self.dim.x - self.counter.x;
        let diffy = (self.dim.y - 1) - self.counter.y;
        let l = #[verifier::truncate] ((self.dim.x * diffy + diffx) as usize);
        proof {
            let dx = self.dim.x as int;
            let dy = self.dim.y as int;
            let cy = self.counter.y as int;
            assert(dx * (dy - 1 - cy) + dx == dx * (dy - cy)) by (nonlinear_arith);
        }
        (l, Some(l))
    }

    /// The number of positions left, for an iterator whose size hint can be computed.
    pub fn len(&self) -> (l: usize)
        requires
            self.wf(),
        ensures
            l == self.remaining_count(),
    {
        proof {
            self.lemma_wf_bounds();
        }
        self.size_hint().0
    }

    proof fn lemma_wf_bounds(self)
        requires
            self.wf(),
        ensures
            0 <= self.position() <= self.dims().0 * self.dims().1,
            self.remaining_count() == self.dims().0 * self.dims().1 - self.position(),
            0 <= self.dims().0 * (self.dims().1 - 1 - self.counter().1) + self.dims().0
                <= isize::MAX,
            self.dims().0 * (self.dims().1 - 1 - self.counter().1) + self.dims().0 - self.counter().0
                == self.remaining_count(),
    {
        let (dx, dy) = self.dims();
        let (cx, cy) = self.counter();
        assert(dx * (dy - cy) == dx * dy - cy * dx) by (nonlinear_arith);
        assert(dx * (dy - 1 - cy) + dx == dx * (dy - cy)) by (nonlinear_arith);
        assert(0 <= dx * (dy - cy) <= dx * dy) by (nonlinear_arith)
            requires dx >= 0, 0 <= cy <= dy;
        if cy < dy {
            assert(dx * (dy - cy) >= dx) by (nonlinear_arith)
                requires dx >= 0, cy < dy;
        }
    }

    /// Yields the current position and moves to the next one along the row,
    /// wrapping to the start of the next row at the end of a row.
    pub fn next(&mut self) -> (r: Option<Vec2>)
        requires
            old(self).counter().1 != old(self).dims().1 ==> old(self).counter().0 + 1
                <= isize::MAX,
            old(self).counter().1 != old(self).dims().1 && old(self).counter().0 + 1 == old(
                self,
            ).dims().0 ==> old(self).counter().1 + 1 <= isize::MAX,
        ensures
            final(self).dims() == old(self).dims(),
            old(self).counter().1 == old(self).dims().1 ==> r is None && final(self).counter()
                == old(self).counter(),
            old(self).counter().1 != old(self).dims().1 ==> (r matches Some(k) && k.pair() == old(
                self,
            ).counter() && final(self).counter() == (if old(self).counter().0 + 1 == old(
                self,
            ).dims().0 {
                (0int, old(self).counter().1 + 1)
            } else {
                (old(self).counter().0 + 1, old(self).counter().1)
            })),
            old(self).wf() ==> final(self).wf(),
            old(self).wf() && r is Some ==> r->0.pair() == cell_at(
                old(self).dims().0,
                old(self).position(),
            ) && final(self).position() == old(self).position() + 1
                && final(self).remaining_count() == old(self).remaining_count() - 1,
            old(self).wf() && r is None ==> old(self).remaining_count() == 0,
            old(self).wf() ==> (if old(self).remaining_cells().len() == 0 {
                r is None && *final(self) == *old(self)
            } else {
                r matches Some(k) && k.pair() == old(self).remaining_cells()[0]
                    && final(self).remaining_cells() == old(self).remaining_cells().drop_first()
            }),
            old(self).wf() ==> pops(old(self).remaining_cells(), opt_pair(r), final(self).remaining_cells()),
    {
        proof {
            if old(self).wf() {
                old(self).lemma_wf_bounds();
                let (dx, dy) = old(self).dims();
                let (cx, cy) = old(self).counter();
                if cy < dy {
                    assert((cy * dx + cx) % dx == cx && (cy * dx + cx) / dx == cy) by (nonlinear_arith)
                        requires 0 <= cx < dx;
                    assert(dx * (dy - (cy + 1)) == dx * (dy - cy) - dx) by (nonlinear_arith);
                    assert((cy + 1) * dx == cy * dx + dx) by (nonlinear_arith);
                }
            }
        }
        if self.counter.y == self.dim.y {
            return None;
        }
        let k = self.counter;
        self.counter.x = self.counter.x + 1;
        if self.counter.x == self.dim.x {
            self.counter.x = 0;
            self.counter.y = self.counter.y + 1;
        }
        proof {
            if old(self).wf() {
                assert(self.remaining_cells() =~= old(self).remaining_cells().drop_first());
            }
        }
        Some(k)
    }

    /// Walks to the end, counting the positions yielded.
    pub fn count(self) -> (n: usize)
        requires
            self.wf(),
        ensures
            n == self.remaining_count(),
    {
        let mut it = self;
        let mut n: usize = 0;
        proof {
            it.lemma_wf_bounds();
        }
        while it.counter.y != it.dim.y
            invariant
                it.wf(),
                it.dims() == self.dims(),
                n + it.remaining_count() == self.remaining_count(),
                self.remaining_count() <= isize::MAX,
            decreases it.remaining_count(),
        {
            proof {
                it.lemma_wf_bounds();
            }
            it.next();
            n = n + 1;
        }
        proof {
            it.lemma_wf_bounds();
            let dx = it.dims().0;
            assert(dx * 0 == 0) by (nonlinear_arith);
        }
        n
    }
}

/// The character that marks a wall in a map text.
pub const WALL_CHAR: char = '\u{2588}';

/// Whether the character at index `k` of `s` belongs to a line, that is, is
/// neither a `'\n'` nor the `'\r'` of a `"\r\n"` line ending.
pub open spec fn is_line_char(s: Seq<char>, k: int) -> bool {
    &&& s[k] != '\n'
    &&& !(s[k] == '\r' && k + 1 < s.len() && s[k + 1] == '\n')
}

/// The `(column, line)` of the character at index `k` of `s`: the number of
/// characters since the last `'\n'`, and the number of `'\n'` before it.
pub open spec fn text_pos(s: Seq<char>, k: int) -> (int, int)
    decreases k,
{
    if k <= 0 {
        (0, 0)
    } else {
        let prev = text_pos(s, k - 1);
        if s[k - 1] == '\n' {
            (0, prev.1 + 1)
        } else {
            (prev.0 + 1, prev.1)
        }
    }
}

/// Where a character of a map text lands: its line is the number of line
/// breaks before it, empty lines included, and its column the number of
/// characters since the last line break before it (or since the start).
pub proof fn lemma_text_pos(s: Seq<char>, k: int)
    requires
        0 <= k <= s.len(),
    ensures
        text_pos(s, k).1 == s.take(k).filter(|c: char| c == '\n').len(),
        0 <= text_pos(s, k).0 <= k,
        forall|i: int| k - text_pos(s, k).0 <= i < k ==> s[i] != '\n',
        text_pos(s, k).0 < k ==> s[k - text_pos(s, k).0 - 1] == '\n',
    decreases k,
{
    if k == 0 {
        reveal_with_fuel(Seq::filter, 1);
        assert(s.take(0).len() == 0);
    } else {
        lemma_text_pos(s, k - 1);
        reveal_with_fuel(Seq::filter, 1);
        let t = s.take(k);
        assert(t.drop_last() =~= s.take(k - 1));
        assert(t.last() == s[k - 1]);
    }
}

/// Whether the character at index `k` of `s` is a wall mark whose cell is
/// stored at index `i` of a grid of height `dy`.
pub open spec fn wall_char_at(s: Seq<char>, dy: int, k: int, i: int) -> bool {
    &&& 0 <= k < s.len()
    &&& is_line_char(s, k)
    &&& s[k] == WALL_CHAR
    &&& text_pos(s, k).0 * dy + text_pos(s, k).1 == i
}

/// Whether `s` is a map text that [`Grid2D::from_str`] reads for dimensions
/// `dim`: each line character is a wall mark or a space, and each wall mark
/// lands on a stored cell.
pub open spec fn map_text_ok(dim: (int, int), s: Seq<char>) -> bool {
    forall|k: int|
        0 <= k < s.len() && is_line_char(s, k) ==> {
            &&& (s[k] == WALL_CHAR || s[k] == ' ')
            &&& (s[k] == WALL_CHAR ==> #[trigger] text_pos(s, k).0 * dim.1 + text_pos(s, k).1
                < dim.0 * dim.1)
        }
}

proof fn lemma_text_pos_bounds(s: Seq<char>, k: int)
    requires
        0 <= k,
    ensures
        0 <= text_pos(s, k).0 <= k,
        0 <= text_pos(s, k).1 <= k,
    decreases k,
{
    if k > 0 {
        lemma_text_pos_bounds(s, k - 1);
    }
}

/// The characters of `s`, collected into a vector.
fn chars_of(s: &str) -> (v: Vec<char>)
    ensures
        v@ == s@,
{
    let mut v: Vec<char> = Vec::new();
    for c in it: s.chars()
        invariant
            v@ == it.seq().take(it.index() as int),
    {
        v.push(c);
    }
    v
}

/// A wall map: one bit per cell, `true` for a wall. The cell `(x, y)` is
/// stored at index `x * dim.y + y` (column after column).
pub struct Grid2D {
    dim: Vec2,
    inner: BitVec,
}

impl Grid2D {
    /// The dimensions `(width, height)`.
    pub closed spec fn dims(self) -> (int, int) {
        self.dim.pair()
    }

    /// The cells, in storage order.
    pub closed spec fn cells(self) -> Seq<bool> {
        bitvec_bits(self.inner)
    }

    /// Holds of every grid: the dimensions are non-negative, their product
    /// fits a [`GridNum`], and there is one cell per position.
    pub open spec fn wf(self) -> bool {
        &&& self.dims().0 >= 0
        &&& self.dims().1 >= 0
        &&& self.dims().0 * self.dims().1 <= isize::MAX
        &&& self.cells().len() == self.dims().0 * self.dims().1
    }

    /// The storage index of the cell at `p`.
    pub open spec fn index_of(self, p: (int, int)) -> int {
        p.0 * self.dims().1 + p.1
    }

    /// Whether computing the storage index of `p` stays within [`GridNum`].
    pub open spec fn index_fits(self, p: (int, int)) -> bool {
        &&& isize::MIN <= p.0 * self.dims().1 <= isize::MAX
        &&& isize::MIN <= p.0 * self.dims().1 + p.1 <= isize::MAX
    }

    /// Whether `p` lies inside the grid's rectangle.
    pub open spec fn in_bounds(self, p: (int, int)) -> bool {
        0 <= p.0 < self.dims().0 && 0 <= p.1 < self.dims().1
    }

    /// Whether the storage index of `p` names a cell.
    pub open spec fn has_index(self, p: (int, int)) -> bool {
        self.index_fits(p) && 0 <= self.index_of(p) < self.cells().len()
    }

    /// The wall bit that the storage index of `p` names.
    pub open spec fn wall_at(self, p: (int, int)) -> bool {
        self.cells()[self.index_of(p)]
    }

    /// What [`Grid2D::get_option`] returns for `p`.
    pub open spec fn lookup(self, p: (int, int)) -> Option<bool> {
        if 0 <= self.index_of(p) < self.cells().len() {
            Some(self.wall_at(p))
        } else {
            None
        }
    }

    /// Every position inside the rectangle has its own storage index.
    pub proof fn lemma_in_bounds(self, p: (int, int))
        requires
            self.wf(),
            self.in_bounds(p),
        ensures
            self.has_index(p),
    {
        let (dx, dy) = self.dims();
        assert(0 <= p.0 * dy <= (dx - 1) * dy) by (nonlinear_arith)
            requires 0 <= p.0 < dx, dy >= 0;
        assert((dx - 1) * dy + dy == dx * dy) by (nonlinear_arith);
    }

    /// What a read gives back of a write: after the cell at `p` is set to
    /// `val`, a read at `q` gives `val` where `q` has the storage index of
    /// `p`, and what it gave before everywhere else.
    pub proof fn lemma_set_get(before: Grid2D, after: Grid2D, p: (int, int), q: (int, int), val: bool)
        requires
            before.wf(),
            before.has_index(p),
            before.has_index(q),
            after.dims() == before.dims(),
            after.cells() == before.cells().update(before.index_of(p), val),
        ensures
            after.has_index(q),
            after.wall_at(q) == if before.index_of(q) == before.index_of(p) {
                val
            } else {
                before.wall_at(q)
            },
    {
    }

    /// A grid of dimensions `dim` with no walls.
    pub fn new(dim: Vec2) -> (g: Grid2D)
        requires
            dim.x >= 0,
            dim.y >= 0,
            dim.x * dim.y <= isize::MAX,
        ensures
            g.wf(),
            g.dims() == dim.pair(),
            g.cells() == Seq::new((dim.x * dim.y) as nat, |_i: int| false),
    {
        proof {
            assert(dim.x * dim.y >= 0) by (nonlinear_arith)
                requires dim.x >= 0, dim.y >= 0;
        }
        let inner = bitvec_from_elem((dim.x * dim.y) as usize, false);
        Grid2D { dim, inner }
    }

    /// Reads a map text: line `y` describes the row `y`, its `x`-th character
    /// the cell `(x, y)`, a wall mark for a wall and a space for an empty cell.
    pub fn from_str(dim: Vec2, p: &str) -> (g: Grid2D)
        requires
            dim.x >= 0,
            dim.y >= 0,
            dim.x * dim.y <= isize::MAX,
            map_text_ok(dim.pair(), p@),
        ensures
            g.wf(),
            g.dims() == dim.pair(),
            forall|i: int|
                0 <= i < g.cells().len() ==> (g.cells()[i] <==> exists|k: int|
                    #[trigger] wall_char_at(p@, dim.y as int, k, i)),
    {
        let mut grid = Grid2D::new(dim);
        let chars = chars_of(p);
        let n = chars.len();
        let ghost s = p@;
        let ghost dy = dim.y as int;
        let mut x: usize = 0;
        let mut y: usize = 0;
        let mut k: usize = 0;
        while k < n
            invariant
                chars@ == s,
                n == s.len(),
                k <= n,
                grid.wf(),
                grid.dims() == dim.pair(),
                dim.x >= 0,
                dim.y >= 0,
                dim.x * dim.y <= isize::MAX,
                dy == dim.y,
                map_text_ok(dim.pair(), s),
                (x as int, y as int) == text_pos(s, k as int),
                forall|i: int|
                    0 <= i < grid.cells().len() ==> (grid.cells()[i] <==> exists|j: int|
                        #[trigger] wall_char_at(s, dy, j, i) && j < k),
            decreases n - k,
        {
            proof {
                lemma_text_pos_bounds(s, k as int);
                lemma_text_pos_bounds(s, k + 1);
            }
            let c = chars[k];
            let ghost old_cells = grid.cells();
            if c == '\n' {
                x = 0;
                y = y + 1;
            } else {
                let line_end = c == '\r' && k + 1 < n && chars[k + 1] == '\n';
                if !line_end && c == WALL_CHAR {
                    proof {
                        assert(is_line_char(s, k as int));
                        let tp = text_pos(s, k as int);
                        assert(tp.0 * dim.y + tp.1 < dim.x * dim.y);
                        assert(0 <= tp.0 * dy) by (nonlinear_arith)
                            requires tp.0 >= 0, dy >= 0;
                        if dy == 0 {
                            assert(tp.0 * dy == 0 && dim.x * dim.y == 0) by (nonlinear_arith)
                                requires dy == 0, dy == dim.y;
                        }
                        assert(dy >= 1);
                        assert(tp.0 <= tp.0 * dy) by (nonlinear_arith)
                            requires tp.0 >= 0, dy >= 1;
                        assert(x <= isize::MAX && y <= isize::MAX);
                    }
                    grid.set(vec2(x as isize, y as isize), true);
                }
                x = x + 1;
            }
            proof {
                let kk = k as int;
                assert forall|i: int| 0 <= i < grid.cells().len() implies (grid.cells()[i] <==> exists|j: int|
                    #[trigger] wall_char_at(s, dy, j, i) && j < kk + 1) by {
                    if wall_char_at(s, dy, kk, i) {
                        assert(grid.cells()[i]);
                    } else if grid.cells()[i] {
                        let j = choose|j: int| #[trigger] wall_char_at(s, dy, j, i) && j < kk;
                        assert(wall_char_at(s, dy, j, i) && j < kk + 1);
                    } else {
                        if exists|j: int| #[trigger] wall_char_at(s, dy, j, i) && j < kk + 1 {
                            let j = choose|j: int| #[trigger] wall_char_at(s, dy, j, i) && j < kk + 1;
                            assert(j != kk);
                            assert(old_cells[i]);
                        }
                    }
                }
            }
            k = k + 1;
        }
        grid
    }

    /// The dimensions `(width, height)`.
    pub fn dim(&self) -> (d: Vec2)
        ensures
            d.pair() == self.dims(),
    {
        self.dim
    }

    /// The wall bit of the cell at `p`.
    pub fn get(&self, p: Vec2) -> (b: bool)
        requires
            self.wf(),
            self.has_index(p.pair()),
        ensures
            b == self.wall_at(p.pair()),
    {
        bitvec_index(&self.inner, (p.x * self.dim.y + p.y) as usize)
    }

    /// The wall bit at the storage index of `p`, or `None` when that index
    /// names no cell.
    pub fn get_option(&self, p: Vec2) -> (r: Option<bool>)
        requires
            self.wf(),
            self.index_fits(p.pair()),
        ensures
            r == self.lookup(p.pair()),
    {
        let i = p.x * self.dim.y + p.y;
        if i < 0 {
            None
        } else {
            bitvec_get(&self.inner, i as usize)
        }
    }

    /// Sets the wall bit of the cell at `p`.
    pub fn set(&mut self, p: Vec2, val: bool)
        requires
            old(self).wf(),
            old(self).has_index(p.pair()),
        ensures
            final(self).wf(),
            final(self).dims() == old(self).dims(),
            final(self).cells() == old(self).cells().update(old(self).index_of(p.pair()), val),
    {
        bitvec_set(&mut self.inner, (p.x * self.dim.y + p.y) as usize, val)
    }

    /// The number of cells.
    pub fn len(&self) -> (l: usize)
        requires
            self.wf(),
        ensures
            l == self.cells().len(),
    {
        proof {
            let (dx, dy) = self.dims();
            assert(dx * dy >= 0) by (nonlinear_arith)
                requires dx >= 0, dy >= 0;
        }
        (self.dim.x * self.dim.y) as usize
    }

    /// Visits every cell with its wall bit, row by row.
    pub fn iter(&self) -> (it: CellIterator)
        requires
            self.wf(),
        ensures
            it.grid() == *self,
            it.inner().counter() == (0int, 0int),
            it.inner().dims() == self.dims(),
            self.dims().0 > 0 || self.dims().1 == 0 ==> it.wf() && it.remaining_items() == Seq::new(
                self.cells().len(),
                |k: int| (cell_at(self.dims().0, k), self.wall_at(cell_at(self.dims().0, k))),
            ),
    {
        let inner = Iterator2D::new(self.dim);
        let it = CellIterator { grid: self, inner };
        proof {
            if self.dims().0 > 0 || self.dims().1 == 0 {
                assert(it.remaining_items() =~= Seq::new(
                    self.cells().len(),
                    |k: int| (cell_at(self.dims().0, k), self.wall_at(cell_at(self.dims().0, k))),
                ));
            }
        }
        it
    }
}

/// Visits every cell of a [`Grid2D`] with its wall bit, row by row.
pub struct CellIterator<'a> {
    grid: &'a Grid2D,
    inner: Iterator2D,
}

impl<'a> CellIterator<'a> {
    /// The grid being visited.
    pub closed spec fn grid(self) -> Grid2D {
        *self.grid
    }

    /// The walk over positions.
    pub closed spec fn inner(self) -> Iterator2D {
        self.inner
    }

    /// The cells still to be visited, in order, each with its wall bit.
    pub open spec fn remaining_items(self) -> Seq<((int, int), bool)> {
        self.inner().remaining_cells().map_values(|p: (int, int)| (p, self.grid().wall_at(p)))
    }

    /// The walk covers exactly the grid.
    pub open spec fn wf(self) -> bool {
        &&& self.grid().wf()
        &&& self.inner().wf()
        &&& self.inner().dims() == self.grid().dims()
    }

    /// The number of cells left, as an exact size hint.
    pub fn size_hint(&self) -> (r: (usize, Option<usize>))
        requires
            self.wf(),
        ensures
            r.0 == self.inner().remaining_count(),
            r.0 == self.remaining_items().len(),
            r.1 == Some(r.0),
    {
        let l = self.inner.len();
        (l, Some(l))
    }

    /// Yields the next position with its wall bit.
    pub fn next(&mut self) -> (r: Option<(Vec2, bool)>)
        requires
            old(self).wf(),
        ensures
            final(self).wf(),
            final(self).grid() == old(self).grid(),
            old(self).inner().remaining_count() == 0 ==> r is None,
            old(self).inner().remaining_count() > 0 ==> (r matches Some((p, b)) && p.pair()
                == cell_at(old(self).grid().dims().0, old(self).inner().position())
                && b == old(self).grid().wall_at(p.pair())),
            final(self).inner().position() == old(self).inner().position() + (if r is Some {
                1int
            } else {
                0int
            }),
            if old(self).remaining_items().len() == 0 {
                r is None && final(self).remaining_items() == old(self).remaining_items()
            } else {
                r matches Some((p, b)) && (p.pair(), b) == old(self).remaining_items()[0]
                    && final(self).remaining_items() == old(self).remaining_items().drop_first()
            },
            pops(old(self).remaining_items(), opt_item(r), final(self).remaining_items()),
    {
        proof {
            self.inner.lemma_wf_bounds();
        }
        match self.inner.next() {
            Some(v) => {
                proof {
                    self.grid.lemma_in_bounds(v.pair());
                }
                let b = self.grid.get(v);
                proof {
                    assert(self.remaining_items() =~= old(self).remaining_items().drop_first());
                }
                Some((v, b))
            },
            None => None,
        }
    }
}

/// A yielded position as a pair, if any.
pub open spec fn opt_pair(r: Option<Vec2>) -> Option<(int, int)> {
    match r {
        Some(k) => Some(k.pair()),
        None => None,
    }
}

/// A yielded cell with its wall bit, the cell as a pair, if any.
pub open spec fn opt_item(r: Option<(Vec2, bool)>) -> Option<((int, int), bool)> {
    match r {
        Some((p, b)) => Some((p.pair(), b)),
        None => None,
    }
}

/// Repeated calls of [`Iterator2D::next`] from `its[0]`, the `i`-th
/// leaving `its[i + 1]` and returning `outs[i]`: they return the positions
/// still to come in `its[0]` in order (from [`Iterator2D::new`], every
/// position of the grid once, row by row), then `None` on every further
/// call; after `i` calls, the number left is that at the start less `i`,
/// and never below 0.
pub proof fn lemma_iterator2d_walk(its: Seq<Iterator2D>, outs: Seq<Option<Vec2>>)
    requires
        its.len() == outs.len() + 1,
        forall|i: int|
            0 <= i < outs.len() ==> (#[trigger] its[i]).wf() && pops(
                its[i].remaining_cells(),
                opt_pair(outs[i]),
                its[i + 1].remaining_cells(),
            ),
    ensures
        forall|i: int|
            0 <= i < outs.len() ==> opt_pair(#[trigger] outs[i]) == (if i < its[0].remaining_cells().len() {
                Some(its[0].remaining_cells()[i])
            } else {
                None
            }),
        forall|i: int|
            0 <= i < its.len() ==> (#[trigger] its[i]).remaining_cells().len() == its[0].remaining_cells().len()
                - min_int(i, its[0].remaining_cells().len() as int),
{
    let rem = Seq::new(its.len(), |i: int| its[i].remaining_cells());
    let o = Seq::new(outs.len(), |i: int| opt_pair(outs[i]));
    assert forall|i: int| 0 <= i < o.len() implies pops(rem[i], #[trigger] o[i], rem[i + 1]) by {
        assert(its[i].wf());
    }
    lemma_pops(rem, o);
    assert forall|i: int| 0 <= i < outs.len() implies opt_pair(#[trigger] outs[i]) == (if i
        < its[0].remaining_cells().len() {
        Some(its[0].remaining_cells()[i])
    } else {
        None
    }) by {
        assert(o[i] == opt_pair(outs[i]));
    }
    assert forall|i: int| 0 <= i < its.len() implies (#[trigger] its[i]).remaining_cells().len()
        == its[0].remaining_cells().len() - min_int(i, its[0].remaining_cells().len() as int) by {
        assert(rem[i] == its[i].remaining_cells());
    }
}

/// Repeated calls of [`CellIterator::next`] from `its[0]`, the `i`-th
/// leaving `its[i + 1]` and returning `outs[i]`: they return the cells still
/// to come in `its[0]` with their wall bits, in order (from
/// [`Grid2D::iter`], every cell of the grid once, row by row), then `None`
/// on every further call.
pub proof fn lemma_cells_walk(its: Seq<CellIterator>, outs: Seq<Option<(Vec2, bool)>>)
    requires
        its.len() == outs.len() + 1,
        forall|i: int|
            0 <= i < outs.len() ==> pops(
                (#[trigger] its[i]).remaining_items(),
                opt_item(outs[i]),
                its[i + 1].remaining_items(),
            ),
    ensures
        forall|i: int|
            0 <= i < outs.len() ==> opt_item(#[trigger] outs[i]) == (if i < its[0].remaining_items().len() {
                Some(its[0].remaining_items()[i])
            } else {
                None
            }),
        forall|i: int|
            0 <= i < its.len() ==> (#[trigger] its[i]).remaining_items().len() == its[0].remaining_items().len()
                - min_int(i, its[0].remaining_items().len() as int),
{
    let rem = Seq::new(its.len(), |i: int| its[i].remaining_items());
    let o = Seq::new(outs.len(), |i: int| opt_item(outs[i]));
    assert forall|i: int| 0 <= i < o.len() implies pops(rem[i], #[trigger] o[i], rem[i + 1]) by {
        assert(pops(its[i].remaining_items(), opt_item(outs[i]), its[i + 1].remaining_items()));
    }
    lemma_pops(rem, o);
    assert forall|i: int| 0 <= i < outs.len() implies opt_item(#[trigger] outs[i]) == (if i
        < its[0].remaining_items().len() {
        Some(its[0].remaining_items()[i])
    } else {
        None
    }) by {
        assert(o[i] == opt_item(outs[i]));
    }
    assert forall|i: int| 0 <= i < its.len() implies (#[trigger] its[i]).remaining_items().len()
        == its[0].remaining_items().len() - min_int(i, its[0].remaining_items().len() as int) by {
        assert(rem[i] == its[i].remaining_items());
    }
}

/// Positions in row order and their counts are in one-to-one correspondence.
pub proof fn lemma_cell_at(dx: int, dy: int, k: int, p: (int, int))
    requires
        dx > 0,
        dy >= 0,
    ensures
        0 <= k < dx * dy ==> 0 <= cell_at(dx, k).0 < dx && 0 <= cell_at(dx, k).1 < dy
            && cell_at(dx, k).1 * dx + cell_at(dx, k).0 == k,
        0 <= p.0 < dx && 0 <= p.1 < dy ==> 0 <= p.1 * dx + p.0 < dx * dy && cell_at(
            dx,
            p.1 * dx + p.0,
        ) == p,
{
    if 0 <= k < dx * dy {
        assert(0 <= k / dx < dy && k / dx * dx + k % dx == k && 0 <= k % dx < dx) by (nonlinear_arith)
            requires dx > 0, 0 <= k < dx * dy;
        assert(k / dx * dx == dx * (k / dx)) by (nonlinear_arith);
    }
    if 0 <= p.0 < dx && 0 <= p.1 < dy {
        let k = p.1 * dx + p.0;
        assert(0 <= k < dx * dy) by (nonlinear_arith)
            requires 0 <= p.0 < dx, 0 <= p.1 < dy, k == p.1 * dx + p.0;
        assert(k % dx == p.0 && k / dx == p.1) by (nonlinear_arith)
            requires 0 <= p.0 < dx, 0 <= p.1, k == p.1 * dx + p.0;
    }
}

/// The squared distance between two cells.
pub open spec fn dist2(a: (int, int), b: (int, int)) -> int {
    (a.0 - b.0) * (a.0 - b.0) + (a.1 - b.1) * (a.1 - b.1)
}

/// Whether the squared distance between `a` and `b`, computed as the
/// squared length of `a - b`, stays within [`GridNum`] at every step.
pub open spec fn dist2_fits(a: (int, int), b: (int, int)) -> bool {
    &&& isize::MIN <= a.0 - b.0 <= isize::MAX
    &&& isize::MIN <= a.1 - b.1 <= isize::MAX
    &&& (a.0 - b.0) * (a.0 - b.0) <= isize::MAX
    &&& (a.1 - b.1) * (a.1 - b.1) <= isize::MAX
    &&& dist2(a, b) <= isize::MAX
}

/// Whether `p` is an empty cell inside the grid.
pub open spec fn is_empty_cell(grid: Grid2D, p: (int, int)) -> bool {
    grid.in_bounds(p) && !grid.wall_at(p)
}

/// The position of a cell in row order.
pub open spec fn row_order(dx: int, p: (int, int)) -> int {
    p.1 * dx + p.0
}

/// Whether `c` is the empty cell closest to `start` by squared distance,
/// the first in row order among equally close ones.
pub open spec fn is_closest_empty(grid: Grid2D, start: (int, int), c: (int, int)) -> bool {
    &&& is_empty_cell(grid, c)
    &&& forall|p: (int, int)| #[trigger] is_empty_cell(grid, p) ==> dist2(start, c) <= dist2(start, p)
    &&& forall|p: (int, int)|
        #[trigger] is_empty_cell(grid, p) && row_order(grid.dims().0, p) < row_order(
            grid.dims().0,
            c,
        ) ==> dist2(start, c) < dist2(start, p)
}

/// The empty cells of the grid, in row order.
fn empty_cells(grid: &Grid2D) -> (v: Vec<Vec2>)
    requires
        grid.wf(),
    ensures
        forall|i: int| 0 <= i < v@.len() ==> is_empty_cell(*grid, #[trigger] v@[i].pair()),
        forall|p: (int, int)| #[trigger] is_empty_cell(*grid, p) ==> exists|i: int|
            0 <= i < v@.len() && #[trigger] v@[i].pair() == p,
{
    let mut v: Vec<Vec2> = Vec::new();
    let dim = grid.dim();
    if dim.x == 0 {
        proof {
            assert forall|p: (int, int)| #[trigger] is_empty_cell(*grid, p) implies exists|i: int|
                0 <= i < v@.len() && #[trigger] v@[i].pair() == p by {
                assert(false);
            }
        }
        return v;
    }
    let mut it = Iterator2D::new(dim);
    let ghost dx = dim.x as int;
    let ghost dy = dim.y as int;
    proof {
        it.lemma_wf_bounds();
    }
    while it.len() > 0
        invariant
            grid.wf(),
            it.wf(),
            it.dims() == grid.dims(),
            dx == grid.dims().0,
            dy == grid.dims().1,
            dx > 0,
            forall|i: int| 0 <= i < v@.len() ==> is_empty_cell(*grid, #[trigger] v@[i].pair()),
            forall|k: int|
                0 <= k < it.position() && #[trigger] is_empty_cell(*grid, cell_at(dx, k))
                    ==> exists|i: int| 0 <= i < v@.len() && #[trigger] v@[i].pair() == cell_at(dx, k),
        decreases it.remaining_count(),
    {
        proof {
            it.lemma_wf_bounds();
        }
        let ghost pos = it.position();
        let ghost old_v = v@;
        let a = it.next();
        match a {
            Some(a) => {
                proof {
                    lemma_cell_at(dx, dy, pos, a.pair());
                    grid.lemma_in_bounds(a.pair());
                }
                if !grid.get(a) {
                    v.push(a);
                    proof {
                        assert(v@[v@.len() - 1].pair() == cell_at(dx, pos));
                    }
                }
                proof {
                    assert forall|k: int|
                        0 <= k < it.position() && #[trigger] is_empty_cell(*grid, cell_at(dx, k))
                        implies exists|i: int| 0 <= i < v@.len() && #[trigger] v@[i].pair() == cell_at(dx, k) by {
                        if k == pos {
                            assert(v@[v@.len() - 1].pair() == cell_at(dx, k));
                        } else {
                            let i = choose|i: int| 0 <= i < old_v.len() && #[trigger] old_v[i].pair() == cell_at(dx, k);
                            assert(v@[i] == old_v[i]);
                        }
                    }
                }
            },
            None => {},
        }
    }
    proof {
        it.lemma_wf_bounds();
        assert forall|p: (int, int)| #[trigger] is_empty_cell(*grid, p) implies exists|i: int|
            0 <= i < v@.len() && #[trigger] v@[i].pair() == p by {
            lemma_cell_at(dx, dy, 0, p);
            assert(is_empty_cell(*grid, cell_at(dx, p.1 * dx + p.0)));
        }
    }
    v
}

#[verifier::external_type_specification]
#[verifier::external_body]
pub struct ExThreadRng(ThreadRng);

/// `rand::thread_rng`: a handle to the thread-local random number generator.
/// Nothing is stated of the numbers it will give.
#[verifier::external_body]
fn thread_rng() -> ThreadRng {
    rand::thread_rng()
}

/// `SliceRandom::shuffle`: reorders the cells at random; whatever order
/// comes out, it holds the same cells as many times each as before.
#[verifier::external_body]
fn shuffle_cells(v: &mut Vec<Vec2>, rng: &mut ThreadRng)
    ensures
        final(v)@.to_multiset() == old(v)@.to_multiset(),
{
    v.shuffle(rng)
}

/// A random empty cell of the grid, or `None` when every cell is a wall.
/// Which empty cell comes out is left to chance.
pub fn pick_empty_spot(grid: &Grid2D) -> (r: Option<Vec2>)
    requires
        grid.wf(),
    ensures
        r is None <==> !exists|p: (int, int)| #[trigger] is_empty_cell(*grid, p),
        r matches Some(p) ==> is_empty_cell(*grid, p.pair()),
{
    let mut k = empty_cells(grid);
    let mut rng = thread_rng();
    let ghost before = k@;
    shuffle_cells(&mut k, &mut rng);
    proof {
        broadcast use vstd::seq_lib::group_to_multiset_ensures;

        assert(k@.len() == before.len()) by {
            assert(k@.to_multiset().len() == before.to_multiset().len());
        }
        if k@.len() > 0 {
            assert(before.contains(k@[0])) by {
                assert(k@.contains(k@[0]));
                assert(k@.to_multiset().count(k@[0]) > 0);
            }
            let j = choose|j: int| 0 <= j < before.len() && before[j] == k@[0];
            assert(is_empty_cell(*grid, before[j].pair()));
            assert(is_empty_cell(*grid, k@[0].pair()));
        }
        if exists|p: (int, int)| #[trigger] is_empty_cell(*grid, p) {
            let p = choose|p: (int, int)| #[trigger] is_empty_cell(*grid, p);
            let i = choose|i: int| 0 <= i < before.len() && #[trigger] before[i].pair() == p;
        }
    }
    if k.len() > 0 {
        Some(k[0])
    } else {
        None
    }
}

/// The empty cell closest to `start` by squared distance; among equally
/// close ones, the first in row order. `None` when every cell is a wall.
pub fn find_closest_empty(grid: &Grid2D, start: Vec2) -> (r: Option<Vec2>)
    requires
        grid.wf(),
        forall|p: (int, int)| #[trigger] is_empty_cell(*grid, p) ==> dist2_fits(start.pair(), p),
    ensures
        r is None <==> !exists|p: (int, int)| #[trigger] is_empty_cell(*grid, p),
        r matches Some(c) ==> is_closest_empty(*grid, start.pair(), c.pair()),
{
    let dim = grid.dim();
    if dim.x == 0 {
        return None;
    }
    let ghost dx = dim.x as int;
    let ghost dy = dim.y as int;
    let ghost s = start.pair();
    let mut it = Iterator2D::new(dim);
    let mut best: Option<(Vec2, GridNum)> = None;
    proof {
        it.lemma_wf_bounds();
    }
    while it.len() > 0
        invariant
            grid.wf(),
            it.wf(),
            it.dims() == grid.dims(),
            dx == grid.dims().0,
            dy == grid.dims().1,
            dx > 0,
            s == start.pair(),
            forall|p: (int, int)| #[trigger] is_empty_cell(*grid, p) ==> dist2_fits(s, p),
            best is None ==> forall|k: int|
                0 <= k < it.position() ==> !#[trigger] is_empty_cell(*grid, cell_at(dx, k)),
            best matches Some((c, d)) ==> {
                &&& is_empty_cell(*grid, c.pair())
                &&& d == dist2(s, c.pair())
                &&& row_order(dx, c.pair()) < it.position()
                &&& forall|k: int|
                    0 <= k < it.position() && #[trigger] is_empty_cell(*grid, cell_at(dx, k)) ==> d
                        <= dist2(s, cell_at(dx, k))
                &&& forall|k: int|
                    0 <= k < row_order(dx, c.pair()) && #[trigger] is_empty_cell(
                        *grid,
                        cell_at(dx, k),
                    ) ==> d < dist2(s, cell_at(dx, k))
            },
        decreases it.remaining_count(),
    {
        proof {
            it.lemma_wf_bounds();
        }
        let ghost pos = it.position();
        let a = it.next();
        if let Some(a) = a {
            proof {
                lemma_cell_at(dx, dy, pos, a.pair());
                grid.lemma_in_bounds(a.pair());
            }
            if !grid.get(a) {
                proof {
                    assert(is_empty_cell(*grid, a.pair()));
                }
                let diff = start.sub(a);
                proof {
                    let (ex, ey) = (diff.x as int, diff.y as int);
                    assert(ex * ex >= 0 && ey * ey >= 0) by (nonlinear_arith);
                }
                let d = diff.x * diff.x + diff.y * diff.y;
                let better = match best {
                    None => true,
                    Some((_, bd)) => d < bd,
                };
                if better {
                    best = Some((a, d));
                }
            }
        }
    }
    proof {
        it.lemma_wf_bounds();
    }
    match best {
        None => {
            proof {
                if exists|p: (int, int)| #[trigger] is_empty_cell(*grid, p) {
                    let p = choose|p: (int, int)| #[trigger] is_empty_cell(*grid, p);
                    lemma_cell_at(dx, dy, 0, p);
                    assert(is_empty_cell(*grid, cell_at(dx, p.1 * dx + p.0)));
                }
            }
            None
        },
        Some((c, d)) => {
            proof {
                assert forall|p: (int, int)| #[trigger] is_empty_cell(*grid, p) implies dist2(s, c.pair())
                    <= dist2(s, p) by {
                    lemma_cell_at(dx, dy, 0, p);
                    assert(is_empty_cell(*grid, cell_at(dx, p.1 * dx + p.0)));
                }
                assert forall|p: (int, int)|
                    #[trigger] is_empty_cell(*grid, p) && row_order(dx, p) < row_order(dx, c.pair())
                    implies dist2(s, c.pair()) < dist2(s, p) by {
                    lemma_cell_at(dx, dy, 0, p);
                    assert(is_empty_cell(*grid, cell_at(dx, p.1 * dx + p.0)));
                }
            }
            Some(c)
        },
    }
}

/// The character drawn for a cell: `x` for a wall on the path, `*` for an
/// empty cell on the path, `1` for a wall, `0` for an empty cell.
pub open spec fn cell_char(wall: bool, on_path: bool) -> char {
    if on_path {
        if wall {
            'x'
        } else {
            '*'
        }
    } else {
        if wall {
            '1'
        } else {
            '0'
        }
    }
}

/// The first `n` cells of row `y`, each drawn as its character and a space.
pub open spec fn row_text(grid: Grid2D, on: Set<(int, int)>, y: int, n: int) -> Seq<char>
    decreases n,
{
    if n <= 0 {
        seq![]
    } else {
        row_text(grid, on, y, n - 1) + seq![
            cell_char(grid.wall_at((n - 1, y)), on.contains((n - 1, y))),
            ' ',
        ]
    }
}

/// The first `m` rows, each followed by a line break.
pub open spec fn rows_text(grid: Grid2D, on: Set<(int, int)>, m: int) -> Seq<char>
    decreases m,
{
    if m <= 0 {
        seq![]
    } else {
        rows_text(grid, on, m - 1) + row_text(grid, on, m - 1, grid.dims().0) + seq!['\n']
    }
}

/// The drawing of a grid with the cells of `on` marked: an empty line, then
/// one line per row.
pub open spec fn map_text(grid: Grid2D, on: Set<(int, int)>) -> Seq<char> {
    seq!['\n'] + rows_text(grid, on, grid.dims().1)
}

/// Whether every cell reached when walking `dirs` from `start` has
/// coordinates that fit a [`GridNum`].
pub open spec fn walk_fits(start: (int, int), dirs: Seq<CardDir2>) -> bool
    decreases dirs.len(),
{
    dirs.len() > 0 ==> step_fits(start, dirs[0]) && walk_fits(
        step_from(start, dirs[0]),
        dirs.drop_first(),
    )
}

fn cell_str(wall: bool, on_path: bool) -> (r: &'static str)
    ensures
        r@ == seq![cell_char(wall, on_path), ' '],
{
    proof {
        reveal_strlit("x ");
        reveal_strlit("* ");
        reveal_strlit("1 ");
        reveal_strlit("0 ");
    }
    if on_path {
        if wall {
            "x "
        } else {
            "* "
        }
    } else {
        if wall {
            "1 "
        } else {
            "0 "
        }
    }
}

/// The coordinates of a sequence of cells.
pub open spec fn pairs(v: Seq<Vec2>) -> Seq<(int, int)> {
    v.map_values(|q: Vec2| q.pair())
}

fn vec_contains(v: &Vec<Vec2>, p: Vec2) -> (b: bool)
    ensures
        b == pairs(v@).contains(p.pair()),
{
    let ghost m = pairs(v@);
    let mut i: usize = 0;
    while i < v.len()
        invariant
            i <= v@.len(),
            m == pairs(v@),
            forall|j: int| 0 <= j < i ==> m[j] != p.pair(),
        decreases v.len() - i,
    {
        if v[i].x == p.x && v[i].y == p.y {
            proof {
                assert(m[i as int] == p.pair());
            }
            return true;
        }
        i = i + 1;
    }
    proof {
        if m.contains(p.pair()) {
            let j = choose|j: int| 0 <= j < m.len() && m[j] == p.pair();
        }
    }
    false
}

impl Grid2D {
    fn draw_rows(&self, on: &Vec<Vec2>) -> (res: String)
        requires
            self.wf(),
        ensures
            res@ == map_text(*self, pairs(on@).to_set()),
    {
        let ghost on_set = pairs(on@).to_set();
        let mut res = String::new();
        proof {
            reveal_strlit("\n");
        }
        res.append("\n");
        let dim = self.dim();
        let mut i: GridNum = 0;
        while i < dim.y
            invariant
                self.wf(),
                dim.pair() == self.dims(),
                0 <= i <= dim.y,
                res@ == seq!['\n'] + rows_text(*self, on_set, i as int),
                on_set == pairs(on@).to_set(),
            decreases dim.y - i,
        {
            let mut j: GridNum = 0;
            let ghost before = res@;
            while j < dim.x
                invariant
                    self.wf(),
                    dim.pair() == self.dims(),
                    0 <= i < dim.y,
                    0 <= j <= dim.x,
                    res@ == before + row_text(*self, on_set, i as int, j as int),
                    on_set == pairs(on@).to_set(),
                decreases dim.x - j,
            {
                let p = vec2(j, i);
                proof {
                    self.lemma_in_bounds(p.pair());
                }
                let wall = self.get(p);
                let on_path = vec_contains(on, p);
                res.append(cell_str(wall, on_path));
                j = j + 1;
            }
            proof {
                reveal_strlit("\n");
            }
            res.append("\n");
            proof {
                assert(res@ =~= seq!['\n'] + rows_text(*self, on_set, i + 1));
            }
            i = i + 1;
        }
        res
    }

    /// The drawing of the walls: an empty line, then one line per row with
    /// `1 ` for a wall and `0 ` for an empty cell.
    pub fn draw_map(&self) -> (res: String)
        requires
            self.wf(),
        ensures
            res@ == map_text(*self, Set::empty()),
    {
        let on: Vec<Vec2> = Vec::new();
        let res = self.draw_rows(&on);
        proof {
            assert(pairs(on@).to_set() =~= Set::empty());
        }
        res
    }

    /// The drawing of the walls with a path on them: as [`Grid2D::draw_map`],
    /// with the start of the path and each cell it reaches drawn `* `, or
    /// `x ` where it crosses a wall.
    pub fn draw_map_and_path(&self, path: PathPointIter) -> (res: String)
        requires
            self.wf(),
            walk_fits(path.cursor(), path.remaining()),
        ensures
            res@ == map_text(
                *self,
                path_points(path.cursor(), path.remaining()).to_set().insert(path.cursor()),
            ),
    {
        let mut vv: Vec<Vec2> = Vec::new();
        let mut it = path;
        while it.len() > 0
            invariant
                walk_fits(it.cursor(), it.remaining()),
                pairs(vv@) + path_points(it.cursor(), it.remaining())
                    == path_points(path.cursor(), path.remaining()),
            decreases it.remaining().len(),
        {
            let ghost before = it;
            let ghost old_vv = vv@;
            let n = it.next();
            if let Some((_d, p)) = n {
                vv.push(p);
                proof {
                    assert(pairs(vv@) =~= pairs(old_vv).push(p.pair()));
                    assert(path_points(before.cursor(), before.remaining()) == seq![p.pair()]
                        + path_points(it.cursor(), it.remaining()));
                    assert(pairs(vv@) + path_points(it.cursor(), it.remaining()) =~= pairs(old_vv)
                        + path_points(before.cursor(), before.remaining()));
                }
            }
        }
        let ghost walked = vv@;
        vv.push(path.pos());
        proof {
            assert(path_points(it.cursor(), it.remaining()) =~= seq![]);
            assert(pairs(walked) =~= path_points(path.cursor(), path.remaining()));
            assert(pairs(vv@) =~= pairs(walked).push(path.cursor()));
            assert(pairs(vv@).to_set() =~= pairs(walked).to_set().insert(path.cursor())) by {
                assert forall|q: (int, int)| pairs(vv@).to_set().contains(q) <==> pairs(walked).to_set().insert(path.cursor()).contains(q) by {
                    if pairs(vv@).contains(q) && q != path.cursor() {
                        let j = choose|j: int| 0 <= j < pairs(vv@).len() && pairs(vv@)[j] == q;
                        assert(pairs(walked)[j] == q);
                    }
                    if pairs(walked).contains(q) {
                        let j = choose|j: int| 0 <= j < pairs(walked).len() && pairs(walked)[j] == q;
                        assert(pairs(vv@)[j] == q);
                    }
                    if q == path.cursor() {
                        assert(pairs(vv@)[pairs(vv@).len() - 1] == q);
                    }
                }
            }
        }
        self.draw_rows(&vv)
    }
}

} // verus!
