use vstd::prelude::*;
use std::collections::VecDeque;
use std::cmp::Ordering;
use vstd::std_specs::cmp::PartialOrdSpecImpl;
use pathfinding::directed::astar::astar;
use crate::vec2::{vec2, Vec2, GridNum};
use crate::card_dir::{
    CardDir2, dir_of_code, dir_dx, dir_dy, dir_cost, is_unit_offset, dir_of_offset,
    lemma_offset_roundtrip,
};
use crate::grid::{Grid2D, pairs, dist2, dist2_fits, is_empty_cell};
use crate::short_path::{ShortPath2, MAX_PATH_LENGTH, step_from};

verus! {

/// Whether a cell has coordinates that fit a [`GridNum`].
pub open spec fn fits(p: (int, int)) -> bool {
    isize::MIN <= p.0 <= isize::MAX && isize::MIN <= p.1 <= isize::MAX
}

/// What looking up `q` in the wall grid gives, where computing its storage
/// index stays within [`GridNum`]; `None` where it does not.
pub open spec fn probe(grid: Grid2D, q: (int, int)) -> Option<bool> {
    if fits(q) && grid.index_fits(q) {
        grid.lookup(q)
    } else {
        None
    }
}

/// Whether the path finder may step from `a` in direction `d`: the target
/// names an empty cell, and for a diagonal step neither of the two cells
/// beside the corner is a wall.
pub open spec fn step_allowed(grid: Grid2D, a: (int, int), d: CardDir2) -> bool {
    let c = step_from(a, d);
    &&& probe(grid, c) == Some(false)
    &&& (dir_dx(d) != 0 && dir_dy(d) != 0) ==> {
        &&& probe(grid, (a.0 + dir_dx(d), a.1)) != Some(true)
        &&& probe(grid, (a.0, a.1 + dir_dy(d))) != Some(true)
    }
}

/// Whether `b` is one allowed step away from `a`.
pub open spec fn is_successor(grid: Grid2D, a: (int, int), b: (int, int)) -> bool {
    exists|d: CardDir2| #[trigger] step_allowed(grid, a, d) && b == step_from(a, d)
}

/// The cost of the step from `a` to `b`: 2 along an axis, 3 along a diagonal.
pub open spec fn step_cost(a: (int, int), b: (int, int)) -> int {
    dir_cost(dir_of_offset(b.0 - a.0, b.1 - a.1)) as int
}

/// The total cost of the steps of a walk.
pub open spec fn walk_cost(p: Seq<(int, int)>) -> int
    decreases p.len(),
{
    if p.len() <= 1 {
        0
    } else {
        walk_cost(p.drop_last()) + step_cost(p[p.len() - 2], p[p.len() - 1])
    }
}

/// Whether `p` goes from `start` to `end` by allowed steps.
pub open spec fn is_walk_between(grid: Grid2D, p: Seq<(int, int)>, start: (int, int), end: (int, int)) -> bool {
    &&& p.len() >= 1
    &&& p[0] == start
    &&& p[p.len() - 1] == end
    &&& forall|i: int| 0 <= i < p.len() - 1 ==> is_successor(grid, #[trigger] p[i], p[i + 1])
}

/// The allowed steps from `a` among the first `n` directions in code order,
/// each with the cell it reaches and its cost.
pub open spec fn successors_upto(grid: Grid2D, a: (int, int), n: int) -> Seq<((int, int), u32)>
    decreases n,
{
    if n <= 0 {
        seq![]
    } else {
        let d = dir_of_code((n - 1) as u8);
        let prev = successors_upto(grid, a, n - 1);
        if step_allowed(grid, a, d) {
            prev.push((step_from(a, d), dir_cost(d) as u32))
        } else {
            prev
        }
    }
}

/// The name of what `pathfinding::directed::astar::astar` returns for the
/// wall grid with these cells and dimensions, searching from `start` to
/// `end` with the steps of [`successors`], the Manhattan distance to `end`
/// as heuristic, and reaching `end` as goal: the nodes of the path found.
pub uninterp spec fn astar_result(
    cells: Seq<bool>,
    dim_x: int,
    dim_y: int,
    start: (int, int),
    end: (int, int),
) -> Option<Seq<(int, int)>>;

/// The wall lookup of `q`, without overflow: `None` where computing the
/// storage index would leave [`GridNum`].
fn probe_cell(grid: &Grid2D, q: (i128, i128)) -> (r: Option<bool>)
    requires
        grid.wf(),
    ensures
        r == probe(*grid, (q.0 as int, q.1 as int)),
{
    let (x, y) = q;
    if x < isize::MIN as i128 || x > isize::MAX as i128 || y < isize::MIN as i128 || y
        > isize::MAX as i128 {
        return None;
    }
    let dy = grid.dim().y as i128;
    let ghost g = *grid;
    proof {
        assert(g.dims().1 >= 0);
        assert(-0x8000_0000_0000_0000 * dy <= x * dy <= 0x7fff_ffff_ffff_ffff * dy) by (nonlinear_arith)
            requires
                isize::MIN <= x <= isize::MAX,
                0 <= dy <= isize::MAX,
                isize::MIN >= -0x8000_0000_0000_0000,
                isize::MAX <= 0x7fff_ffff_ffff_ffff;
        assert(0x7fff_ffff_ffff_ffff * dy <= 0x7fff_ffff_ffff_ffff * 0x7fff_ffff_ffff_ffff) by (nonlinear_arith)
            requires 0 <= dy <= 0x7fff_ffff_ffff_ffff;
    }
    let prod = x * dy;
    if prod < isize::MIN as i128 || prod > isize::MAX as i128 {
        return None;
    }
    let idx = prod + y;
    if idx < isize::MIN as i128 || idx > isize::MAX as i128 {
        return None;
    }
    grid.get_option(vec2(x as isize, y as isize))
}

/// The steps allowed from `a`, in code order, each with the cell it reaches
/// and its cost (2 along an axis, 3 along a diagonal).
pub fn successors(a: &Vec2, grid: &Grid2D) -> (r: Vec<(Vec2, u32)>)
    requires
        grid.wf(),
    ensures
        r@.map_values(|e: (Vec2, u32)| (e.0.pair(), e.1)) == successors_upto(*grid, a.pair(), 8),
{
    let a = *a;
    let offsets = CardDir2::all_offsets();
    let mut res: Vec<(Vec2, u32)> = Vec::new();
    let mut i: usize = 0;
    while i < 8
        invariant
            grid.wf(),
            i <= 8,
            forall|j: int|
                0 <= j < 8 ==> {
                    let d = #[trigger] dir_of_code(j as u8);
                    &&& offsets@[j].0.x == dir_dx(d)
                    &&& offsets@[j].0.y == dir_dy(d)
                    &&& offsets@[j].1 == dir_cost(d)
                },
            res@.map_values(|e: (Vec2, u32)| (e.0.pair(), e.1)) == successors_upto(
                *grid,
                a.pair(),
                i as int,
            ),
        decreases 8 - i,
    {
        let ghost d = dir_of_code(i as u8);
        let (b, cost) = offsets[i];
        let ax = a.x as i128;
        let ay = a.y as i128;
        let bx = b.x as i128;
        let by = b.y as i128;
        let allowed = match probe_cell(grid, (ax + bx, ay + by)) {
            Some(wall) => {
                if wall {
                    false
                } else {
                    if (bx == 1 || bx == -1) && (by == 1 || by == -1) {
                        let mut ff = true;
                        if let Some(w) = probe_cell(grid, (ax + bx, ay)) {
                            if w {
                                ff = false;
                            }
                        }
                        if ff {
                            if let Some(w) = probe_cell(grid, (ax, ay + by)) {
                                if w {
                                    ff = false;
                                }
                            }
                        }
                        ff
                    } else {
                        true
                    }
                }
            },
            None => false,
        };
        let ghost before = res@;
        if allowed {
            proof {
                lemma_offset_roundtrip(d, 0, 0);
            }
            res.push((vec2(a.x + b.x, a.y + b.y), cost as u32));
            proof {
                assert(res@.map_values(|e: (Vec2, u32)| (e.0.pair(), e.1)) =~= before.map_values(
                    |e: (Vec2, u32)| (e.0.pair(), e.1),
                ).push((step_from(a.pair(), d), dir_cost(d) as u32)));
            }
        }
        i = i + 1;
    }
    res
}

/// The Manhattan distance from `p` to `end`, truncated to `u32`.
pub fn manhattan_heuristic(p: &Vec2, end: &Vec2) -> (r: u32)
    ensures
        r == (abs_int(p.x - end.x) + abs_int(p.y - end.y)) as u32,
{
    let dx = p.x as i128 - end.x as i128;
    let dy = p.y as i128 - end.y as i128;
    let ax = if dx < 0 {
        -dx
    } else {
        dx
    };
    let ay = if dy < 0 {
        -dy
    } else {
        dy
    };
    #[verifier::truncate]
    ((ax + ay) as u32)
}

/// `|x|`.
pub open spec fn abs_int(x: int) -> int {
    if x < 0 {
        -x
    } else {
        x
    }
}

/// Whether `p` is the goal `end`.
pub fn is_goal(p: &Vec2, end: &Vec2) -> (b: bool)
    ensures
        b == (p.pair() == end.pair()),
{
    p.x == end.x && p.y == end.y
}

/// `pathfinding::directed::astar::astar` on the wall grid, from `start` to
/// `end`, with the steps of [`successors`], the given `heuristic` and the
/// goal test [`is_goal`]. `requires` asks that the heuristic be the
/// Manhattan distance to `end`, truncated to `u32` (what
/// [`manhattan_heuristic`] computes), so that its result is the one named by
/// [`astar_result`], and that it never exceed the cost of a walk to `end`
/// (admissible), which the caller proves. As the crate's documentation
/// says, with an admissible heuristic a path found starts at `start`, ends
/// at `end`, goes from each node to one of that node's successors, and
/// costs no more than any other such walk; `None` means that no such walk
/// exists. Which of several cheapest walks comes out is left unsaid.
/// The search runs until it reaches the goal or has seen every node it can
/// reach; off the grid's rectangle, storage indices can alias stored cells
/// without end, so `requires` asks for walls all along the border and a
/// start inside the rectangle: then every step stays on an empty cell
/// inside the rectangle, and the search ends. It adds costs and the
/// heuristic in `u32`; a cost it holds is that of a walk without repeated
/// cells, at most 3 per cell of the grid, and the heuristic at a cell of the
/// grid is at most its dimensions plus the end's coordinates, which
/// [`search_fits`] keeps below 2^32.
#[verifier::external_body]
fn astar_grid<H: Fn(&Vec2) -> u32>(grid: &Grid2D, start: Vec2, end: Vec2, heuristic: H) -> (r: Option<
    Vec<Vec2>,
>)
    requires
        grid.wf(),
        border_walled(*grid),
        grid.in_bounds(start.pair()),
        search_fits(*grid, end.pair()),
        forall|p: Vec2| #[trigger] heuristic.requires((&p,)),
        forall|p: Vec2, h: u32|
            #[trigger] heuristic.ensures((&p,), h) ==> h == (abs_int(p.x - end.x) + abs_int(p.y - end.y)) as u32,
        forall|p: Vec2, h: u32, q: Seq<(int, int)>|
            #[trigger] heuristic.ensures((&p,), h) && #[trigger] is_walk_between(*grid, q, p.pair(), end.pair())
                ==> h <= walk_cost(q),
    ensures
        r matches Some(p) ==> astar_result(
            grid.cells(),
            grid.dims().0,
            grid.dims().1,
            start.pair(),
            end.pair(),
        ) == Some(pairs(p@)),
        r is None ==> astar_result(
            grid.cells(),
            grid.dims().0,
            grid.dims().1,
            start.pair(),
            end.pair(),
        ) is None,
        r matches Some(p) ==> {
            &&& p@.len() >= 1
            &&& p@[0] == start
            &&& p@[p@.len() - 1] == end
            &&& forall|i: int|
                0 <= i < p@.len() - 1 ==> is_successor(*grid, #[trigger] p@[i].pair(), p@[i + 1].pair())
            &&& forall|q: Seq<(int, int)>|
                #[trigger] is_walk_between(*grid, q, start.pair(), end.pair()) ==> walk_cost(pairs(p@))
                    <= walk_cost(q)
        },
        r is None ==> forall|q: Seq<(int, int)>|
            !#[trigger] is_walk_between(*grid, q, start.pair(), end.pair()),
{
    astar(
        &start,
        |p: &Vec2| successors(p, grid),
        heuristic,
        |p: &Vec2| is_goal(p, &end),
    ).map(|found| found.0)
}

/// Whether `p` lies on the border of the grid's rectangle.
pub open spec fn on_border(grid: Grid2D, p: (int, int)) -> bool {
    p.0 == 0 || p.1 == 0 || p.0 == grid.dims().0 - 1 || p.1 == grid.dims().1 - 1
}

/// Whether every cell on the border of the grid's rectangle is a wall.
pub open spec fn border_walled(grid: Grid2D) -> bool {
    forall|p: (int, int)| grid.in_bounds(p) && on_border(grid, p) ==> #[trigger] grid.wall_at(p)
}

/// Whether the search towards `end` stays within `u32`: three times the
/// number of cells, plus the dimensions, plus the end's distance from the
/// origin along each axis.
pub open spec fn search_fits(grid: Grid2D, end: (int, int)) -> bool {
    3 * (grid.dims().0 * grid.dims().1) + grid.dims().0 + grid.dims().1 + abs_int(end.0) + abs_int(
        end.1,
    ) <= u32::MAX
}

/// Whether the search for a request on `grid` ends without overflow: the
/// border is walled, the start is inside the grid, and [`search_fits`].
#[verifier::opaque]
pub open spec fn request_ok(grid: Grid2D, r: PathFindInfo) -> bool {
    &&& border_walled(grid)
    &&& grid.in_bounds(r.start.pair())
    &&& search_fits(grid, r.end.pair())
}

/// The index of a bot.
pub type BotIndex = usize;

/// A request for a path from `start` to `end` for the bot `bot_index`.
#[derive(Copy, Clone, Debug)]
pub struct PathFindInfo {
    pub start: Vec2,
    pub end: Vec2,
    pub bot_index: BotIndex,
}

/// The number of steps of `nodes` that a [`ShortPath2`] keeps: all steps
/// after the first node, at most [`MAX_PATH_LENGTH`].
pub open spec fn steps_kept(nodes: Seq<(int, int)>) -> int {
    if nodes.len() <= 1 {
        0
    } else if nodes.len() - 1 <= MAX_PATH_LENGTH {
        nodes.len() - 1
    } else {
        MAX_PATH_LENGTH as int
    }
}

/// The cell before the `i`-th node: `start` for the node after the first,
/// the previous node otherwise.
pub open spec fn node_before(start: (int, int), nodes: Seq<(int, int)>, i: int) -> (int, int) {
    if i == 1 {
        start
    } else {
        nodes[i - 1]
    }
}

/// Whether each kept step of `nodes`, walked from `start`, is a unit step.
pub open spec fn nodes_walk_ok(start: (int, int), nodes: Seq<(int, int)>) -> bool {
    forall|i: int|
        1 <= i <= steps_kept(nodes) ==> is_unit_offset(
            #[trigger] nodes[i].0 - node_before(start, nodes, i).0,
            nodes[i].1 - node_before(start, nodes, i).1,
        )
}

/// The directions of the kept steps of `nodes`, walked from `start`.
pub open spec fn nodes_dirs(start: (int, int), nodes: Seq<(int, int)>) -> Seq<CardDir2> {
    Seq::new(
        steps_kept(nodes) as nat,
        |j: int|
            dir_of_offset(
                nodes[j + 1].0 - node_before(start, nodes, j + 1).0,
                nodes[j + 1].1 - node_before(start, nodes, j + 1).1,
            ),
    )
}

/// The packed path of the first [`MAX_PATH_LENGTH`] steps of the nodes of
/// a path found from `start`; the first node is taken to be the start.
pub fn path_from_nodes(start: Vec2, nodes: &Vec<Vec2>) -> (r: ShortPath2)
    requires
        nodes_walk_ok(start.pair(), pairs(nodes@)),
    ensures
        r == ShortPath2::from_dirs(nodes_dirs(start.pair(), pairs(nodes@))),
{
    let ghost ns = pairs(nodes@);
    let mut cursor = start;
    let mut dirs: Vec<CardDir2> = Vec::new();
    let n = nodes.len();
    let mut i: usize = 1;
    while i < n && i <= MAX_PATH_LENGTH
        invariant
            ns == pairs(nodes@),
            n == ns.len(),
            1 <= i <= MAX_PATH_LENGTH + 1,
            i <= n || i == 1,
            nodes_walk_ok(start.pair(), ns),
            cursor.pair() == node_before(start.pair(), ns, i as int),
            dirs@.len() == i - 1,
            forall|j: int| 0 <= j < i - 1 ==> dirs@[j] == #[trigger] nodes_dirs(start.pair(), ns)[j],
        decreases n - i,
    {
        let curr = nodes[i];
        proof {
            assert(ns[i as int] == curr.pair());
            assert(1 <= i <= steps_kept(ns));
            assert(is_unit_offset(ns[i as int].0 - node_before(start.pair(), ns, i as int).0,
                ns[i as int].1 - node_before(start.pair(), ns, i as int).1));
        }
        let dir = CardDir2::from_offset(curr.sub(cursor));
        dirs.push(dir);
        cursor = curr;
        i = i + 1;
    }
    proof {
        assert(MAX_PATH_LENGTH == 42);
        if n <= 1 {
            assert(i == 1);
        } else if i > MAX_PATH_LENGTH {
            assert(i == 43);
            assert(ns.len() - 1 >= 42);
        } else {
            assert(i == n);
        }
        assert(dirs@.len() == steps_kept(ns));
        assert forall|j: int| 0 <= j < dirs@.len() implies dirs@[j] == nodes_dirs(start.pair(), ns)[j] by {
            assert(dirs@[j] == nodes_dirs(start.pair(), ns)[j]);
        }
        assert(dirs@ =~= nodes_dirs(start.pair(), ns));
    }
    ShortPath2::new(&dirs)
}

/// What [`perform_astar`] returns for a request: the packed path of the
/// nodes that [`astar_result`] names, or `None` where it names none.
pub open spec fn astar_short_path(grid: Grid2D, req: PathFindInfo) -> Option<ShortPath2> {
    match astar_result(grid.cells(), grid.dims().0, grid.dims().1, req.start.pair(), req.end.pair()) {
        None => None,
        Some(nodes) => Some(ShortPath2::from_dirs(nodes_dirs(req.start.pair(), nodes))),
    }
}

/// A step inside a walled grid: onto an empty cell of the grid, and for a
/// diagonal step, past two cells of the grid beside the corner that are
/// not walls.
pub open spec fn grid_step_allowed(grid: Grid2D, a: (int, int), d: CardDir2) -> bool {
    let c = step_from(a, d);
    &&& is_empty_cell(grid, c)
    &&& (dir_dx(d) != 0 && dir_dy(d) != 0) ==> {
        &&& !grid.wall_at((c.0, a.1))
        &&& !grid.wall_at((a.0, c.1))
    }
}

/// Off the rectangle of a grid with a walled border, a neighbour of a cell
/// of the grid names a wall or no cell: its storage index is that of a
/// border cell, or lies outside the storage.
proof fn lemma_off_grid_neighbour(grid: Grid2D, a: (int, int), c: (int, int))
    requires
        grid.wf(),
        border_walled(grid),
        grid.in_bounds(a),
        -1 <= c.0 - a.0 <= 1,
        -1 <= c.1 - a.1 <= 1,
        !grid.in_bounds(c),
    ensures
        grid.lookup(c) != Some(false),
{
    let (dx, dy) = grid.dims();
    let i = grid.index_of(c);
    if 0 <= i < grid.cells().len() {
        let q: (int, int) = if c.0 == -1 {
            assert(i == c.1 - dy) by (nonlinear_arith)
                requires i == c.0 * dy + c.1, c.0 == -1;
            (0, 0)
        } else if c.0 == dx {
            assert(i == dx * dy + c.1) by (nonlinear_arith)
                requires i == c.0 * dy + c.1, c.0 == dx;
            assert((dx - 1) * dy + (dy - 1) == dx * dy - 1) by (nonlinear_arith);
            (dx - 1, dy - 1)
        } else if c.1 == -1 {
            if c.0 == 0 {
                assert(i == -1) by (nonlinear_arith)
                    requires i == c.0 * dy + c.1, c.0 == 0, c.1 == -1;
            }
            assert((c.0 - 1) * dy + (dy - 1) == c.0 * dy - 1) by (nonlinear_arith);
            (c.0 - 1, dy - 1)
        } else {
            assert(c.1 == dy);
            assert((c.0 + 1) * dy == c.0 * dy + dy) by (nonlinear_arith);
            if c.0 + 1 == dx {
                assert(i == dx * dy);
            }
            (c.0 + 1, 0)
        };
        assert(grid.index_of(q) == i);
        assert(grid.in_bounds(q) && on_border(grid, q));
        assert(grid.wall_at(q));
    }
}

/// In a grid with a walled border, from a cell of the grid, the steps the
/// path finder allows are exactly the steps inside the grid.
pub proof fn lemma_step_allowed_in_grid(grid: Grid2D, a: (int, int), d: CardDir2)
    requires
        grid.wf(),
        border_walled(grid),
        grid.in_bounds(a),
    ensures
        step_allowed(grid, a, d) <==> grid_step_allowed(grid, a, d),
{
    let c = step_from(a, d);
    lemma_offset_roundtrip(d, 0, 0);
    let (dx, dy) = grid.dims();
    assert(dx <= dx * dy && dy <= dx * dy) by (nonlinear_arith)
        requires dx >= 1, dy >= 1;
    if grid.in_bounds(c) {
        grid.lemma_in_bounds(c);
        assert(probe(grid, c) == Some(grid.wall_at(c)));
        if dir_dx(d) != 0 && dir_dy(d) != 0 {
            grid.lemma_in_bounds((c.0, a.1));
            grid.lemma_in_bounds((a.0, c.1));
            assert(probe(grid, (a.0 + dir_dx(d), a.1)) == Some(grid.wall_at((c.0, a.1))));
            assert(probe(grid, (a.0, a.1 + dir_dy(d))) == Some(grid.wall_at((a.0, c.1))));
        }
    } else {
        lemma_off_grid_neighbour(grid, a, c);
        assert(probe(grid, c) != Some(false));
    }
}

/// A walk from a cell of a grid with a walled border stays on empty cells
/// of the grid after its first node.
proof fn lemma_walk_in_grid(grid: Grid2D, p: Seq<(int, int)>, k: int)
    requires
        grid.wf(),
        border_walled(grid),
        p.len() >= 1,
        grid.in_bounds(p[0]),
        forall|i: int| 0 <= i < p.len() - 1 ==> is_successor(grid, #[trigger] p[i], p[i + 1]),
        0 <= k < p.len(),
    ensures
        grid.in_bounds(p[k]),
        k >= 1 ==> is_empty_cell(grid, p[k]),
    decreases k,
{
    if k >= 1 {
        lemma_walk_in_grid(grid, p, k - 1);
        assert(is_successor(grid, p[k - 1], p[k]));
        let d = choose|d: CardDir2| #[trigger] step_allowed(grid, p[k - 1], d) && p[k] == step_from(p[k - 1], d);
        lemma_step_allowed_in_grid(grid, p[k - 1], d);
    }
}

/// Whether `b` is one step inside the grid away from `a`.
pub open spec fn is_grid_successor(grid: Grid2D, a: (int, int), b: (int, int)) -> bool {
    exists|d: CardDir2| #[trigger] grid_step_allowed(grid, a, d) && b == step_from(a, d)
}

/// Whether `p` goes from `start` to `end` by steps inside the grid
/// ([`grid_step_allowed`]).
pub open spec fn is_grid_walk_between(grid: Grid2D, p: Seq<(int, int)>, start: (int, int), end: (int, int)) -> bool {
    &&& p.len() >= 1
    &&& p[0] == start
    &&& p[p.len() - 1] == end
    &&& forall|i: int| 0 <= i < p.len() - 1 ==> is_grid_successor(grid, #[trigger] p[i], p[i + 1])
}

/// In a grid with a walled border, from a cell of the grid, the walks of
/// the path finder are exactly the walks by steps inside the grid.
pub proof fn lemma_walks_in_grid(grid: Grid2D, p: Seq<(int, int)>, start: (int, int), end: (int, int))
    requires
        grid.wf(),
        border_walled(grid),
        grid.in_bounds(start),
    ensures
        is_walk_between(grid, p, start, end) <==> is_grid_walk_between(grid, p, start, end),
{
    if is_walk_between(grid, p, start, end) {
        assert forall|i: int| 0 <= i < p.len() - 1 implies is_grid_successor(grid, #[trigger] p[i], p[i + 1]) by {
            lemma_walk_in_grid(grid, p, i);
            assert(is_successor(grid, p[i], p[i + 1]));
            let d = choose|d: CardDir2| #[trigger] step_allowed(grid, p[i], d) && p[i + 1] == step_from(p[i], d);
            lemma_step_allowed_in_grid(grid, p[i], d);
        }
    }
    if is_grid_walk_between(grid, p, start, end) {
        assert forall|i: int| 0 <= i < p.len() - 1 implies is_successor(grid, #[trigger] p[i], p[i + 1]) by {
            let d = choose|d: CardDir2| #[trigger] grid_step_allowed(grid, p[i], d) && p[i + 1] == step_from(
                p[i],
                d,
            );
            if i > 0 {
                assert(is_grid_successor(grid, p[i - 1], p[i]));
            }
            lemma_step_allowed_in_grid(grid, p[i], d);
        }
    }
}

/// Whether `p` keeps the first steps of `nodes`, a cheapest walk from the
/// start to the end of `req`: as many steps as [`steps_kept`] says, each
/// allowed, inside the grid, and leading from one node to the next; every
/// node after the start is an empty cell of the grid.
pub open spec fn keeps_cheapest_walk(grid: Grid2D, req: PathFindInfo, nodes: Seq<(int, int)>, p: ShortPath2) -> bool {
    &&& is_walk_between(grid, nodes, req.start.pair(), req.end.pair())
    &&& forall|q: Seq<(int, int)>|
        #[trigger] is_walk_between(grid, q, req.start.pair(), req.end.pair()) ==> walk_cost(nodes)
            <= walk_cost(q)
    &&& forall|q: Seq<(int, int)>|
        #[trigger] is_grid_walk_between(grid, q, req.start.pair(), req.end.pair()) ==> walk_cost(nodes)
            <= walk_cost(q)
    &&& p.dirs().len() == steps_kept(nodes)
    &&& forall|k: int|
        0 <= k < p.dirs().len() ==> {
            &&& step_allowed(grid, nodes[k], #[trigger] p.dirs()[k])
            &&& grid_step_allowed(grid, nodes[k], p.dirs()[k])
            &&& nodes[k + 1] == step_from(nodes[k], p.dirs()[k])
        }
    &&& forall|k: int| 1 <= k < nodes.len() ==> is_empty_cell(grid, #[trigger] nodes[k])
}

/// The Manhattan distance never exceeds the cost of a walk: each step
/// moves at most one cell along each axis and costs 2 along an axis, 3
/// along a diagonal.
pub proof fn lemma_walk_cost_manhattan(grid: Grid2D, q: Seq<(int, int)>)
    requires
        q.len() >= 1,
        forall|i: int| 0 <= i < q.len() - 1 ==> is_successor(grid, #[trigger] q[i], q[i + 1]),
    ensures
        walk_cost(q) >= abs_int(q[0].0 - q[q.len() - 1].0) + abs_int(q[0].1 - q[q.len() - 1].1),
    decreases q.len(),
{
    if q.len() > 1 {
        let p = q.drop_last();
        assert forall|i: int| 0 <= i < p.len() - 1 implies is_successor(grid, #[trigger] p[i], p[i + 1]) by {
            assert(p[i] == q[i] && p[i + 1] == q[i + 1]);
        }
        lemma_walk_cost_manhattan(grid, p);
        let n = q.len() as int;
        assert(is_successor(grid, q[n - 2], q[n - 1]));
        let d = choose|d: CardDir2| #[trigger] step_allowed(grid, q[n - 2], d) && q[n - 1] == step_from(q[n - 2], d);
        lemma_offset_roundtrip(d, 0, 0);
        assert(step_cost(q[n - 2], q[n - 1]) == dir_cost(d));
        assert(p[0] == q[0] && p[p.len() - 1] == q[n - 2]);
    }
}

/// Every step costs at least 2.
proof fn lemma_walk_cost_lower(p: Seq<(int, int)>)
    requires
        p.len() >= 1,
    ensures
        walk_cost(p) >= 2 * (p.len() - 1),
    decreases p.len(),
{
    if p.len() > 1 {
        lemma_walk_cost_lower(p.drop_last());
        let d = dir_of_offset(p[p.len() - 1].0 - p[p.len() - 2].0, p[p.len() - 1].1 - p[p.len() - 2].1);
        assert(dir_cost(d) >= 2);
    }
}

/// The packed path of a cheapest walk from the start of `req` keeps its
/// first steps as [`keeps_cheapest_walk`] says, and holds no step where
/// the start is the end.
proof fn lemma_kept_steps(grid: Grid2D, req: PathFindInfo, ns: Seq<(int, int)>)
    requires
        grid.wf(),
        border_walled(grid),
        grid.in_bounds(req.start.pair()),
        is_walk_between(grid, ns, req.start.pair(), req.end.pair()),
        forall|q: Seq<(int, int)>|
            #[trigger] is_walk_between(grid, q, req.start.pair(), req.end.pair()) ==> walk_cost(ns)
                <= walk_cost(q),
    ensures
        keeps_cheapest_walk(grid, req, ns, ShortPath2::from_dirs(nodes_dirs(req.start.pair(), ns))),
        req.start.pair() == req.end.pair() ==> ShortPath2::from_dirs(
            nodes_dirs(req.start.pair(), ns),
        ).dirs().len() == 0,
{
    let start = req.start.pair();
    let ds = nodes_dirs(start, ns);
    let p = ShortPath2::from_dirs(ds);
    ShortPath2::lemma_from_dirs(ds);
    assert forall|k: int| 0 <= k < p.dirs().len() implies {
        &&& step_allowed(grid, ns[k], #[trigger] p.dirs()[k])
        &&& grid_step_allowed(grid, ns[k], p.dirs()[k])
        &&& ns[k + 1] == step_from(ns[k], p.dirs()[k])
    } by {
        assert(is_successor(grid, ns[k], ns[k + 1]));
        let d = choose|d: CardDir2| #[trigger] step_allowed(grid, ns[k], d) && ns[k + 1] == step_from(ns[k], d);
        lemma_offset_roundtrip(d, 0, 0);
        assert(node_before(start, ns, k + 1) == ns[k]);
        assert(ds[k] == d);
        lemma_walk_in_grid(grid, ns, k);
        lemma_step_allowed_in_grid(grid, ns[k], d);
    }
    assert forall|k: int| 1 <= k < ns.len() implies is_empty_cell(grid, #[trigger] ns[k]) by {
        lemma_walk_in_grid(grid, ns, k);
    }
    assert forall|q: Seq<(int, int)>|
        #[trigger] is_grid_walk_between(grid, q, start, req.end.pair()) implies walk_cost(ns) <= walk_cost(q) by {
        lemma_walks_in_grid(grid, q, start, req.end.pair());
    }
    if start == req.end.pair() {
        let one = seq![start];
        assert(is_walk_between(grid, one, start, req.end.pair()));
        assert(walk_cost(one) == 0);
        lemma_walk_cost_lower(ns);
    }
}

/// In a grid with a walled border, from a cell of the grid, the walks of
/// the path finder are exactly the walks by steps inside the grid.
proof fn lemma_grid_walks_same(grid: Grid2D, start: (int, int), end: (int, int))
    requires
        grid.wf(),
        border_walled(grid),
        grid.in_bounds(start),
    ensures
        forall|q: Seq<(int, int)>|
            #![trigger is_grid_walk_between(grid, q, start, end)]
            #![trigger is_walk_between(grid, q, start, end)]
            is_grid_walk_between(grid, q, start, end) == is_walk_between(grid, q, start, end),
{
    assert forall|q: Seq<(int, int)>| #[trigger] is_grid_walk_between(grid, q, start, end)
        == is_walk_between(grid, q, start, end) by {
        lemma_walks_in_grid(grid, q, start, end);
    }
}

/// The nodes of a path found form a walk of allowed steps, each a unit step.
proof fn lemma_found_nodes(grid: Grid2D, start: (int, int), end: (int, int), a: Seq<Vec2>)
    requires
        a.len() >= 1,
        a[0].pair() == start,
        a[a.len() - 1].pair() == end,
        forall|i: int| 0 <= i < a.len() - 1 ==> is_successor(grid, #[trigger] a[i].pair(), a[i + 1].pair()),
    ensures
        is_walk_between(grid, pairs(a), start, end),
        nodes_walk_ok(start, pairs(a)),
{
    let ns = pairs(a);
    assert forall|i: int| 0 <= i < ns.len() - 1 implies is_successor(grid, #[trigger] ns[i], ns[i + 1]) by {
        assert(is_successor(grid, a[i].pair(), a[i + 1].pair()));
    }
    assert forall|i: int| 1 <= i <= steps_kept(ns) implies is_unit_offset(
        #[trigger] ns[i].0 - node_before(start, ns, i).0,
        ns[i].1 - node_before(start, ns, i).1,
    ) by {
        assert(is_successor(grid, a[i - 1].pair(), a[i].pair()));
        let d = choose|d: CardDir2| #[trigger] step_allowed(grid, a[i - 1].pair(), d)
            && a[i].pair() == step_from(a[i - 1].pair(), d);
        lemma_offset_roundtrip(d, 0, 0);
    }
}

/// Searches a path for the request and keeps its first [`MAX_PATH_LENGTH`] steps.
pub fn perform_astar(grid: &Grid2D, req: PathFindInfo) -> (r: Option<ShortPath2>)
    requires
        grid.wf(),
        request_ok(*grid, req),
    ensures
        r == astar_short_path(*grid, req),
        r is None <==> forall|q: Seq<(int, int)>|
            !#[trigger] is_walk_between(*grid, q, req.start.pair(), req.end.pair()),
        r is None <==> forall|q: Seq<(int, int)>|
            !#[trigger] is_grid_walk_between(*grid, q, req.start.pair(), req.end.pair()),
        r matches Some(p) ==> keeps_cheapest_walk(
            *grid,
            req,
            astar_result(grid.cells(), grid.dims().0, grid.dims().1, req.start.pair(), req.end.pair())->0,
            p,
        ),
        req.start.pair() == req.end.pair() ==> (r matches Some(p) && p.dirs().len() == 0),
{
    let start = req.start;
    let end = req.end;
    proof {
        reveal(request_ok);
        lemma_grid_walks_same(*grid, start.pair(), end.pair());
    }
    let heuristic = move |p: &Vec2| -> (h: u32)
        ensures
            h == (abs_int(p.x - end.x) + abs_int(p.y - end.y)) as u32,
        { manhattan_heuristic(p, &end) };
    proof {
        assert forall|p: Vec2, h: u32, q: Seq<(int, int)>|
            #[trigger] heuristic.ensures((&p,), h) && #[trigger] is_walk_between(*grid, q, p.pair(), end.pair())
            implies h <= walk_cost(q) by {
            lemma_walk_cost_manhattan(*grid, q);
            let m = abs_int(p.x - end.x) + abs_int(p.y - end.y);
            if m <= u32::MAX {
                assert(h == m);
            }
        }
    }
    match astar_grid(grid, start, end, heuristic) {
        Some(a) => {
            proof {
                lemma_found_nodes(*grid, start.pair(), end.pair(), a@);
            }
            let p = path_from_nodes(start, &a);
            proof {
                lemma_kept_steps(*grid, req, pairs(a@));
            }
            Some(p)
        },
        None => {
            proof {
                if start.pair() == end.pair() {
                    let one = seq![start.pair()];
                    assert(is_walk_between(*grid, one, start.pair(), end.pair()));
                }
            }
            None
        },
    }
}

/// How many calls of [`PathFinder::handle_par`] a request waits for its
/// answer: the answer comes back from the call made `DELAY` calls after the
/// one that brought the request, no sooner and no later.
pub const DELAY: usize = 60 * 3;

/// The least number of queued requests that one call processes.
pub const MIN_PROCESSED: usize = 100;

/// The answer to a request: the request and the path found, if any.
#[derive(Copy, Clone, Debug)]
pub struct PathFindResult {
    pub info: PathFindInfo,
    pub path: Option<ShortPath2>,
}

/// A cached path, if any.
#[derive(Copy, Clone, Debug)]
pub struct PathFindCacheResult {
    pub path: Option<ShortPath2>,
}

/// A request with the time at which it came in.
#[derive(Copy, Clone, Debug)]
struct PathFindTimer {
    info: PathFindInfo,
    time_put_in: usize,
}

/// The state of a [`PathFinder`]: the requests still waiting to be
/// processed with the time each came in, the processed answers with the
/// time their request came in, and the number of calls made so far.
pub struct PathFinderView {
    pub requests: Seq<(PathFindInfo, int)>,
    pub finished: Seq<(int, PathFindResult)>,
    pub timer: int,
}

/// Whether the queued request at `j` came in [`DELAY`] calls ago or
/// earlier, so that its answer is due now.
pub open spec fn overdue(reqs: Seq<(PathFindInfo, int)>, timer: int, j: int) -> bool {
    timer - reqs[j].1 >= DELAY
}

/// Whether `j` is the last overdue queued request.
pub open spec fn is_last_overdue(reqs: Seq<(PathFindInfo, int)>, timer: int, j: int) -> bool {
    &&& 0 <= j < reqs.len()
    &&& overdue(reqs, timer, j)
    &&& forall|k: int| j < k < reqs.len() ==> !#[trigger] overdue(reqs, timer, k)
}

/// How many queued requests must be processed now: all of them up to and
/// including the last overdue one, or none when none is overdue.
pub open spec fn overdue_count(reqs: Seq<(PathFindInfo, int)>, timer: int) -> int {
    if exists|j: int| #[trigger] is_last_overdue(reqs, timer, j) {
        (choose|j: int| #[trigger] is_last_overdue(reqs, timer, j)) + 1
    } else {
        0
    }
}

/// The number of answers at the front whose request came in exactly
/// [`DELAY`] calls ago.
pub open spec fn ready_count(fin: Seq<(int, PathFindResult)>, timer: int) -> nat
    decreases fin.len(),
{
    if fin.len() > 0 && timer - fin[0].0 == DELAY {
        1 + ready_count(fin.drop_first(), timer)
    } else {
        0
    }
}

/// The answer that processing a queued request gives.
pub open spec fn answer(grid: Grid2D, e: (PathFindInfo, int)) -> (int, PathFindResult) {
    (e.1, PathFindResult { info: e.0, path: astar_short_path(grid, e.0) })
}

/// One call of [`PathFinder::handle_par`]: the new requests join the queue
/// at the current time; the first [`MIN_PROCESSED`] queued requests, or all
/// those up to the last overdue one where they are more, are processed in
/// order (all of them where fewer are queued) and their answers
/// queued; the answers whose request came in [`DELAY`] calls ago are
/// taken from the front and returned; the time moves on by one.
pub open spec fn handle_step(m: PathFinderView, grid: Grid2D, new_requests: Seq<PathFindInfo>) -> (
    PathFinderView,
    Seq<PathFindResult>,
) {
    let reqs1 = m.requests + new_requests.map_values(|r: PathFindInfo| (r, m.timer));
    let must = overdue_count(reqs1, m.timer);
    let want = if must > MIN_PROCESSED {
        must
    } else {
        MIN_PROCESSED as int
    };
    let n = if want < reqs1.len() {
        want
    } else {
        reqs1.len() as int
    };
    let fin1 = m.finished + reqs1.take(n).map_values(|e: (PathFindInfo, int)| answer(grid, e));
    let k = ready_count(fin1, m.timer) as int;
    (
        PathFinderView { requests: reqs1.skip(n), finished: fin1.skip(k), timer: m.timer + 1 },
        fin1.take(k).map_values(|e: (int, PathFindResult)| e.1),
    )
}

/// Answers path requests after a fixed delay, spreading the searches over calls.
pub struct PathFinder {
    requests: VecDeque<PathFindTimer>,
    finished: VecDeque<(usize, PathFindResult)>,
    timer: usize,
}

impl View for PathFinder {
    type V = PathFinderView;

    closed spec fn view(&self) -> PathFinderView {
        PathFinderView {
            requests: self.requests@.map_values(|t: PathFindTimer| (t.info, t.time_put_in as int)),
            finished: self.finished@.map_values(|e: (usize, PathFindResult)| (e.0 as int, e.1)),
            timer: self.timer as int,
        }
    }
}

/// Every queued request can be searched on `grid` ([`request_ok`]).
pub open spec fn queue_ok(m: PathFinderView, grid: Grid2D) -> bool {
    forall|i: int| 0 <= i < m.requests.len() ==> request_ok(grid, #[trigger] m.requests[i].0)
}

/// No request or answer comes from a time after the current one.
pub open spec fn times_ok(m: PathFinderView) -> bool {
    &&& forall|i: int| 0 <= i < m.requests.len() ==> #[trigger] m.requests[i].1 <= m.timer
    &&& forall|i: int| 0 <= i < m.finished.len() ==> #[trigger] m.finished[i].0 <= m.timer
}

impl PathFinder {
    /// A path finder with nothing queued, at time 0.
    pub fn new() -> (pf: PathFinder)
        ensures
            times_ok(pf@),
            pf@.requests == Seq::<(PathFindInfo, int)>::empty(),
            pf@.finished == Seq::<(int, PathFindResult)>::empty(),
            pf@.timer == 0,
    {
        let pf = PathFinder { requests: VecDeque::new(), finished: VecDeque::new(), timer: 0 };
        proof {
            assert(pf@.requests =~= Seq::<(PathFindInfo, int)>::empty());
            assert(pf@.finished =~= Seq::<(int, PathFindResult)>::empty());
        }
        pf
    }

    /// The number of calls of [`PathFinder::handle_par`] made so far.
    pub fn get_time(&self) -> (t: usize)
        ensures
            t == self@.timer,
    {
        self.timer
    }

    /// Queues the new requests, processes some queued ones, and returns the
    /// answers whose request came in [`DELAY`] calls ago.
    #[verifier::rlimit(40)]
    pub fn handle_par(&mut self, grid: &Grid2D, new_requests: Vec<PathFindInfo>) -> (r: Vec<
        PathFindResult,
    >)
        requires
            grid.wf(),
            times_ok(old(self)@),
            queue_ok(old(self)@, *grid),
            forall|i: int| 0 <= i < new_requests@.len() ==> request_ok(*grid, #[trigger] new_requests@[i]),
            old(self)@.timer < usize::MAX,
        ensures
            times_ok(final(self)@),
            queue_ok(final(self)@, *grid),
            final(self)@.timer == old(self)@.timer + 1,
            (final(self)@, r@) == handle_step(old(self)@, *grid, new_requests@),
    {
        let ghost m = self@;
        let ghost reqs1 = m.requests + new_requests@.map_values(|r: PathFindInfo| (r, m.timer));
        let timer = self.timer;
        let mut i: usize = 0;
        while i < new_requests.len()
            invariant
                i <= new_requests@.len(),
                timer == m.timer,
                self.timer == timer,
                times_ok(m),
                self.finished@ == old(self).finished@,
                self@.requests == m.requests + new_requests@.take(i as int).map_values(
                    |r: PathFindInfo| (r, m.timer),
                ),
            decreases new_requests.len() - i,
        {
            let ghost before = self@.requests;
            self.requests.push_back(PathFindTimer { info: new_requests[i], time_put_in: timer });
            proof {
                assert(new_requests@.take(i + 1).map_values(|r: PathFindInfo| (r, m.timer))
                    =~= new_requests@.take(i as int).map_values(|r: PathFindInfo| (r, m.timer)).push(
                    (new_requests@[i as int], m.timer)));
                assert(self@.requests =~= before.push((new_requests@[i as int], m.timer)));
            }
            i = i + 1;
        }
        proof {
            assert(new_requests@.take(new_requests@.len() as int) =~= new_requests@);
            assert(self@.requests == reqs1);
            assert forall|i: int| 0 <= i < reqs1.len() implies #[trigger] reqs1[i].1 <= m.timer by {
                if i >= m.requests.len() {
                    assert(reqs1[i].1 == m.timer);
                }
            }
            assert(self@.finished == m.finished);
            assert(self@.timer == m.timer);
            assert(times_ok(self@));
            assert forall|i: int| 0 <= i < reqs1.len() implies request_ok(*grid, #[trigger] reqs1[i].0) by {
                if i >= m.requests.len() {
                    assert(reqs1[i].0 == new_requests@[i - m.requests.len()]);
                }
            }
        }
        // the last request that has waited too long
        let len = self.requests.len();
        let mut must: usize = 0;
        let mut found = false;
        let mut idx: usize = len;
        while idx > 0 && !found
            invariant
                idx <= len,
                len == reqs1.len(),
                self@.requests == reqs1,
                self@.finished == m.finished,
                self.timer == m.timer,
                times_ok(self@),
                !found ==> must == 0 && forall|k: int|
                    idx <= k < len ==> !#[trigger] overdue(reqs1, m.timer, k),
                found ==> must >= 1 && is_last_overdue(reqs1, m.timer, must - 1),
            decreases (if found {
                0int
            } else {
                idx + 1
            }),
        {
            let j = idx - 1;
            proof {
                assert(reqs1[j as int].1 <= m.timer);
                assert(self.requests@[j as int].time_put_in == reqs1[j as int].1);
            }
            if self.timer - self.requests[j].time_put_in >= DELAY {
                must = j + 1;
                found = true;
            } else {
                idx = j;
            }
        }
        proof {
            if found {
                assert(is_last_overdue(reqs1, m.timer, must - 1));
                let c = choose|j: int| #[trigger] is_last_overdue(reqs1, m.timer, j);
                if c < must - 1 {
                    assert(!overdue(reqs1, m.timer, must - 1));
                } else if c > must - 1 {
                    assert(!overdue(reqs1, m.timer, c));
                }
                assert(overdue_count(reqs1, m.timer) == must);
            } else {
                if exists|j: int| #[trigger] is_last_overdue(reqs1, m.timer, j) {
                    let c = choose|j: int| #[trigger] is_last_overdue(reqs1, m.timer, j);
                    assert(!overdue(reqs1, m.timer, c));
                }
                assert(overdue_count(reqs1, m.timer) == 0);
            }
        }
        let want = if must > MIN_PROCESSED {
            must
        } else {
            MIN_PROCESSED
        };
        let n = if want < len {
            want
        } else {
            len
        };
        // process the first `n` queued requests, in order
        let ghost processed = reqs1.take(n as int).map_values(|e: (PathFindInfo, int)| answer(*grid, e));
        let ghost fin1 = m.finished + processed;
        let mut done: usize = 0;
        while done < n
            invariant
                done <= n <= len,
                len == reqs1.len(),
                grid.wf(),
                self.timer == m.timer,
                times_ok(self@),
                processed == reqs1.take(n as int).map_values(|e: (PathFindInfo, int)| answer(*grid, e)),
                self@.requests == reqs1.skip(done as int),
                self@.finished == m.finished + processed.take(done as int),
                forall|i: int| 0 <= i < reqs1.len() ==> #[trigger] reqs1[i].1 <= m.timer,
                forall|i: int| 0 <= i < reqs1.len() ==> request_ok(*grid, #[trigger] reqs1[i].0),
            decreases n - done,
        {
            let ghost before_req = self@.requests;
            let ghost before_fin = self@.finished;
            let ghost raw = self.requests@;
            let t = self.requests.pop_front();
            match t {
                Some(t) => {
                    proof {
                        assert(before_req[0] == (raw[0].info, raw[0].time_put_in as int));
                        assert(before_req[0] == reqs1[done as int]);
                        assert(t.info == reqs1[done as int].0);
                    }
                    let res = PathFindResult { info: t.info, path: perform_astar(grid, t.info) };
                    self.finished.push_back((t.time_put_in, res));
                    proof {
                        assert(before_req[0] == reqs1[done as int]);
                        assert(self@.requests =~= before_req.subrange(1, before_req.len() as int));
                        assert(self@.requests =~= reqs1.skip(done + 1));
                        assert(processed[done as int] == answer(*grid, reqs1[done as int]));
                        assert(processed.take(done + 1) =~= processed.take(done as int).push(
                            processed[done as int]));
                        assert(self@.finished =~= before_fin.push((t.time_put_in as int, res)));
                    }
                },
                None => {
                    proof {
                        assert(before_req.len() == reqs1.len() - done);
                    }
                },
            }
            done = done + 1;
        }
        proof {
            assert(processed.take(n as int) =~= processed);
            assert(self@.finished == fin1);
        }
        // hand out the answers whose time has come
        let mut out: Vec<PathFindResult> = Vec::new();
        let ghost k = ready_count(fin1, m.timer) as int;
        proof {
            assert(fin1.skip(0) =~= fin1);
        }
        while self.finished.len() > 0 && self.timer - self.finished[0].0 == DELAY
            invariant
                self.timer == m.timer,
                times_ok(self@),
                self@.requests == reqs1.skip(n as int),
                0 <= out@.len() <= fin1.len(),
                self@.finished == fin1.skip(out@.len() as int),
                out@ == fin1.take(out@.len() as int).map_values(|e: (int, PathFindResult)| e.1),
                ready_count(fin1, m.timer) == out@.len() + ready_count(fin1.skip(out@.len() as int), m.timer),
            decreases self@.finished.len(),
        {
            let ghost c = out@.len() as int;
            let e = self.finished.pop_front();
            match e {
                Some(e) => {
                    out.push(e.1);
                    proof {
                        assert(fin1.skip(c).drop_first() =~= fin1.skip(c + 1));
                        assert(self@.finished =~= fin1.skip(c + 1));
                        assert(fin1.take(c + 1) =~= fin1.take(c).push(fin1[c]));
                        assert(out@ =~= fin1.take(c + 1).map_values(|e: (int, PathFindResult)| e.1));
                    }
                },
                None => {},
            }
        }
        proof {
            assert(ready_count(self@.finished, m.timer) == 0);
            assert(out@.len() == k);
        }
        self.timer = self.timer + 1;
        out
    }
}

proof fn lemma_ready_count(s: Seq<(int, PathFindResult)>, timer: int)
    ensures
        ready_count(s, timer) <= s.len(),
        forall|i: int| 0 <= i < ready_count(s, timer) ==> timer - #[trigger] s[i].0 == DELAY,
        ready_count(s, timer) < s.len() ==> timer - s[ready_count(s, timer) as int].0 != DELAY,
    decreases s.len(),
{
    if s.len() > 0 && timer - s[0].0 == DELAY {
        lemma_ready_count(s.drop_first(), timer);
        assert forall|i: int| 0 <= i < ready_count(s, timer) implies timer - #[trigger] s[i].0
            == DELAY by {
            if i > 0 {
                assert(s[i] == s.drop_first()[i - 1]);
            }
        }
    }
}

/// The requests still waiting for their answer to be returned, each with
/// the time it came in: first those already processed, then those still
/// queued, in the order they came in.
pub open spec fn timed_pending(m: PathFinderView) -> Seq<(PathFindInfo, int)> {
    m.finished.map_values(|e: (int, PathFindResult)| (e.1.info, e.0)) + m.requests
}

/// Whether no request still waiting came in more than [`DELAY`] calls ago
/// or after now, and they wait in the order they came in.
pub open spec fn on_time(m: PathFinderView) -> bool {
    let p = timed_pending(m);
    &&& forall|i: int| 0 <= i < p.len() ==> 0 <= m.timer - #[trigger] p[i].1 <= DELAY
    &&& forall|i: int, j: int| 0 <= i <= j < p.len() ==> #[trigger] p[i].1 <= #[trigger] p[j].1
}

/// A fresh path finder is on time.
pub proof fn lemma_new_on_time()
    ensures
        on_time(PathFinderView {
            requests: Seq::<(PathFindInfo, int)>::empty(),
            finished: Seq::<(int, PathFindResult)>::empty(),
            timer: 0,
        }),
{
    let m = PathFinderView {
        requests: Seq::<(PathFindInfo, int)>::empty(),
        finished: Seq::<(int, PathFindResult)>::empty(),
        timer: 0,
    };
    assert(timed_pending(m) =~= Seq::<(PathFindInfo, int)>::empty());
}

/// The requests waiting before a call, followed by the new ones at the
/// current time, came in no more than [`DELAY`] calls ago and are in the
/// order they came in.
proof fn lemma_pending_in_order(m: PathFinderView, new_requests: Seq<PathFindInfo>)
    requires
        on_time(m),
    ensures
        ({
            let all = timed_pending(m) + new_requests.map_values(|r: PathFindInfo| (r, m.timer));
            &&& forall|i: int| 0 <= i < all.len() ==> 0 <= m.timer - #[trigger] all[i].1 <= DELAY
            &&& forall|i: int, j: int| 0 <= i <= j < all.len() ==> #[trigger] all[i].1 <= #[trigger] all[j].1
        }),
{
    let t = m.timer;
    let newt = new_requests.map_values(|r: PathFindInfo| (r, m.timer));
    let tp = timed_pending(m);
    let all = tp + newt;
    assert forall|i: int| 0 <= i < all.len() implies 0 <= t - #[trigger] all[i].1 <= DELAY by {
        if i >= tp.len() {
            assert(all[i] == newt[i - tp.len()]);
        } else {
            assert(all[i] == tp[i]);
        }
    }
    assert forall|i: int, j: int| 0 <= i <= j < all.len() implies #[trigger] all[i].1 <= #[trigger] all[j].1 by {
        if j >= tp.len() {
            assert(all[j] == newt[j - tp.len()]);
            if i < tp.len() {
                assert(all[i] == tp[i]);
            } else {
                assert(all[i] == newt[i - tp.len()]);
            }
        } else {
            assert(all[i] == tp[i] && all[j] == tp[j]);
        }
    }
}

/// In a queue in the order requests came in, the overdue requests are
/// exactly the first [`overdue_count`] ones.
proof fn lemma_overdue_first(reqs: Seq<(PathFindInfo, int)>, t: int)
    requires
        forall|i: int, j: int| 0 <= i <= j < reqs.len() ==> #[trigger] reqs[i].1 <= #[trigger] reqs[j].1,
    ensures
        0 <= overdue_count(reqs, t) <= reqs.len(),
        forall|i: int| 0 <= i < overdue_count(reqs, t) ==> #[trigger] overdue(reqs, t, i),
        forall|i: int| overdue_count(reqs, t) <= i < reqs.len() ==> !#[trigger] overdue(reqs, t, i),
{
    let must = overdue_count(reqs, t);
    if exists|j: int| #[trigger] is_last_overdue(reqs, t, j) {
        let c = choose|j: int| #[trigger] is_last_overdue(reqs, t, j);
        assert(must == c + 1);
        assert forall|i: int| 0 <= i < must implies #[trigger] overdue(reqs, t, i) by {
            assert(reqs[i].1 <= reqs[c].1);
        }
    }
    assert forall|i: int| must <= i < reqs.len() implies !#[trigger] overdue(reqs, t, i) by {
        if exists|j: int| #[trigger] is_last_overdue(reqs, t, j) {
            let c = choose|j: int| #[trigger] is_last_overdue(reqs, t, j);
            if i > c {
                assert(!overdue(reqs, t, i));
            }
        } else {
            if overdue(reqs, t, i) {
                lemma_last_overdue_exists(reqs, t, i);
            }
        }
    }
}

/// Every request comes back from the call made exactly [`DELAY`] calls
/// after the one that brought it, no sooner and no later, whatever the
/// load: from a state that is on time, a call returns, in order, exactly
/// the waiting requests (the new ones last, at the current time) that came
/// in [`DELAY`] calls ago, keeps the rest waiting in order, and leaves a
/// state that is on time.
#[verifier::rlimit(30)]
pub proof fn lemma_handle_step_on_time(m: PathFinderView, grid: Grid2D, new_requests: Seq<PathFindInfo>)
    requires
        on_time(m),
    ensures
        ({
            let (m2, out) = handle_step(m, grid, new_requests);
            let all = timed_pending(m) + new_requests.map_values(|r: PathFindInfo| (r, m.timer));
            &&& on_time(m2)
            &&& m2.timer == m.timer + 1
            &&& out.len() <= all.len()
            &&& forall|j: int|
                0 <= j < out.len() ==> m.timer - #[trigger] all[j].1 == DELAY && out[j].info == all[j].0
            &&& forall|j: int| out.len() <= j < all.len() ==> m.timer - #[trigger] all[j].1 < DELAY
            &&& timed_pending(m2) == all.skip(out.len() as int)
        }),
{
    let t = m.timer;
    let newt = new_requests.map_values(|r: PathFindInfo| (r, m.timer));
    let reqs1 = m.requests + newt;
    let fi = |e: (int, PathFindResult)| (e.1.info, e.0);
    let fm = m.finished.map_values(fi);
    let tp = timed_pending(m);
    let all = tp + newt;
    let f = m.finished.len() as int;
    assert(tp == fm + m.requests);
    assert(all =~= fm + reqs1);
    lemma_pending_in_order(m, new_requests);
    assert forall|i: int| 0 <= i < reqs1.len() implies #[trigger] reqs1[i] == all[f + i] by {}
    assert forall|i: int, j: int| 0 <= i <= j < reqs1.len() implies #[trigger] reqs1[i].1 <= #[trigger] reqs1[j].1 by {
        assert(reqs1[i] == all[f + i] && reqs1[j] == all[f + j]);
    }
    lemma_overdue_first(reqs1, t);
    let must = overdue_count(reqs1, t);
    let want = if must > MIN_PROCESSED {
        must
    } else {
        MIN_PROCESSED as int
    };
    let n = if want < reqs1.len() {
        want
    } else {
        reqs1.len() as int
    };
    assert(0 <= must <= n);
    let processed = reqs1.take(n).map_values(|e: (PathFindInfo, int)| answer(grid, e));
    let fin1 = m.finished + processed;
    assert(fin1.map_values(fi) =~= all.take(f + n)) by {
        assert forall|i: int| 0 <= i < f + n implies #[trigger] fin1.map_values(fi)[i] == all.take(f + n)[i] by {
            if i < f {
                assert(fin1[i] == m.finished[i]);
                assert(fm[i] == fi(m.finished[i]));
            } else {
                assert(fin1[i] == processed[i - f]);
            }
        }
    }
    lemma_ready_count(fin1, t);
    let k = ready_count(fin1, t) as int;
    let (m2, out) = handle_step(m, grid, new_requests);
    assert(out == fin1.take(k).map_values(|e: (int, PathFindResult)| e.1));
    assert forall|j: int| 0 <= j < k implies t - #[trigger] all[j].1 == DELAY && out[j].info == all[j].0 by {
        assert(fin1.map_values(fi)[j] == all[j]);
    }
    assert forall|j: int| k <= j < all.len() implies t - #[trigger] all[j].1 < DELAY by {
        if k < f + n {
            assert(fin1.map_values(fi)[k] == all[k]);
            assert(all[k].1 <= all[j].1);
        } else {
            assert(j - f >= n && j - f >= must);
            assert(!overdue(reqs1, t, j - f));
            assert(reqs1[j - f] == all[j]);
        }
    }
    assert(m2.finished == fin1.skip(k));
    assert(m2.requests == reqs1.skip(n));
    assert(timed_pending(m2) =~= all.skip(k)) by {
        let p2 = timed_pending(m2);
        assert forall|i: int| 0 <= i < p2.len() implies #[trigger] p2[i] == all.skip(k)[i] by {
            if i < fin1.len() - k {
                assert(m2.finished[i] == fin1[i + k]);
                assert(fin1.map_values(fi)[i + k] == all[i + k]);
            } else {
                assert(p2[i] == reqs1[i - (fin1.len() - k) + n]);
            }
        }
    }
    let p2 = timed_pending(m2);
    assert forall|i: int| 0 <= i < p2.len() implies 0 <= m2.timer - #[trigger] p2[i].1 <= DELAY by {
        assert(p2[i] == all[i + k]);
    }
    assert forall|i: int, j: int| 0 <= i <= j < p2.len() implies #[trigger] p2[i].1 <= #[trigger] p2[j].1 by {
        assert(p2[i] == all[i + k] && p2[j] == all[j + k]);
    }
}

/// Where a queued request is overdue, there is a last overdue one.
proof fn lemma_last_overdue_exists(reqs: Seq<(PathFindInfo, int)>, timer: int, i: int)
    requires
        0 <= i < reqs.len(),
        overdue(reqs, timer, i),
    ensures
        exists|j: int| #[trigger] is_last_overdue(reqs, timer, j),
    decreases reqs.len() - i,
{
    if is_last_overdue(reqs, timer, i) {
    } else {
        let k = choose|k: int| i < k < reqs.len() && #[trigger] overdue(reqs, timer, k);
        lemma_last_overdue_exists(reqs, timer, k);
    }
}

/// A pair of endpoints, the key of a path cache.
#[derive(Copy, Clone, Debug, PartialEq, Eq, Structural)]
pub struct StartEnd {
    pub start: Vec2,
    pub end: Vec2,
}

/// The 64-bit key of a pair of endpoints: each coordinate converted to
/// `u64` (negative ones wrap), shifted by 48, 32, 16 and 0 bits, and or-ed.
pub open spec fn start_end_num(s: StartEnd) -> u64 {
    ((s.start.x as u64) << 48u64) | ((s.start.y as u64) << 32u64) | ((s.end.x as u64) << 16u64) | (
    s.end.y as u64)
}

/// Whether every coordinate of the endpoints lies in `0..2^16`.
pub open spec fn coords_16(s: StartEnd) -> bool {
    &&& 0 <= s.start.x < 0x1_0000
    &&& 0 <= s.start.y < 0x1_0000
    &&& 0 <= s.end.x < 0x1_0000
    &&& 0 <= s.end.y < 0x1_0000
}

impl StartEnd {
    /// The larger of the squared distances between the two starts and
    /// between the two ends.
    pub fn compare_difference(&self, other: &StartEnd) -> (r: GridNum)
        requires
            dist2_fits(other.start.pair(), self.start.pair()),
            dist2_fits(other.end.pair(), self.end.pair()),
        ensures
            r == if dist2(other.start.pair(), self.start.pair()) >= dist2(
                other.end.pair(),
                self.end.pair(),
            ) {
                dist2(other.start.pair(), self.start.pair())
            } else {
                dist2(other.end.pair(), self.end.pair())
            },
    {
        let a = other.start.sub(self.start);
        let b = other.end.sub(self.end);
        proof {
            let (ax, ay, bx, by) = (a.x as int, a.y as int, b.x as int, b.y as int);
            assert(ax * ax >= 0 && ay * ay >= 0 && bx * bx >= 0 && by * by >= 0) by (nonlinear_arith);
        }
        let dis1 = a.x * a.x + a.y * a.y;
        let dis2 = b.x * b.x + b.y * b.y;
        if dis1 >= dis2 {
            dis1
        } else {
            dis2
        }
    }

    /// The 64-bit key of the endpoints; see [`start_end_num`].
    pub fn into_num(&self) -> (r: u64)
        ensures
            r == start_end_num(*self),
            coords_16(*self) ==> r == self.start.x * 0x1_0000_0000_0000 + self.start.y
                * 0x1_0000_0000 + self.end.x * 0x1_0000 + self.end.y,
    {
        let sx = self.start.x as u64;
        let sy = self.start.y as u64;
        let ex = self.end.x as u64;
        let ey = self.end.y as u64;
        let r = (sx << 48u64) | (sy << 32u64) | (ex << 16u64) | ey;
        proof {
            if coords_16(*self) {
                assert(sx == self.start.x && sy == self.start.y && ex == self.end.x && ey == self.end.y);
                assert(r == sx * 0x1_0000_0000_0000 + sy * 0x1_0000_0000 + ex * 0x1_0000 + ey) by (bit_vector)
                    requires
                        sx < 0x1_0000u64,
                        sy < 0x1_0000u64,
                        ex < 0x1_0000u64,
                        ey < 0x1_0000u64,
                        r == (sx << 48u64) | (sy << 32u64) | (ex << 16u64) | ey;
            }
        }
        r
    }
}

impl PartialOrdSpecImpl for StartEnd {
    open spec fn obeys_partial_cmp_spec() -> bool {
        true
    }

    /// Endpoints are ordered by their 64-bit keys.
    open spec fn partial_cmp_spec(&self, other: &StartEnd) -> Option<Ordering> {
        if start_end_num(*self) < start_end_num(*other) {
            Some(Ordering::Less)
        } else if start_end_num(*self) > start_end_num(*other) {
            Some(Ordering::Greater)
        } else {
            Some(Ordering::Equal)
        }
    }
}

impl PartialOrd for StartEnd {
    fn partial_cmp(&self, other: &StartEnd) -> (r: Option<Ordering>) {
        let a = self.into_num();
        let b = other.into_num();
        if a < b {
            Some(Ordering::Less)
        } else if a > b {
            Some(Ordering::Greater)
        } else {
            Some(Ordering::Equal)
        }
    }
}

/// The key of endpoints with 16-bit coordinates packs them into four
/// 16-bit fields.
proof fn lemma_start_end_num_fields(s: StartEnd)
    requires
        coords_16(s),
    ensures
        start_end_num(s) == s.start.x * 0x1_0000_0000_0000 + s.start.y * 0x1_0000_0000 + s.end.x
            * 0x1_0000 + s.end.y,
{
    let sx = s.start.x as u64;
    let sy = s.start.y as u64;
    let ex = s.end.x as u64;
    let ey = s.end.y as u64;
    assert(((sx << 48u64) | (sy << 32u64) | (ex << 16u64) | ey) == sx * 0x1_0000_0000_0000 + sy
        * 0x1_0000_0000 + ex * 0x1_0000 + ey) by (bit_vector)
        requires
            sx < 0x1_0000u64,
            sy < 0x1_0000u64,
            ex < 0x1_0000u64,
            ey < 0x1_0000u64,
    ;
}

/// Lexicographic order on `(start.x, start.y, end.x, end.y)`.
pub open spec fn lex_less(a: StartEnd, b: StartEnd) -> bool {
    ||| a.start.x < b.start.x
    ||| a.start.x == b.start.x && a.start.y < b.start.y
    ||| a.start.x == b.start.x && a.start.y == b.start.y && a.end.x < b.end.x
    ||| a.start.x == b.start.x && a.start.y == b.start.y && a.end.x == b.end.x && a.end.y < b.end.y
}

/// For endpoints whose coordinates lie in `0..2^16`, the order of the keys
/// is the lexicographic order of the coordinates, and equal keys mean equal
/// endpoints.
pub proof fn lemma_key_order(a: StartEnd, b: StartEnd)
    requires
        coords_16(a),
        coords_16(b),
    ensures
        start_end_num(a) < start_end_num(b) <==> lex_less(a, b),
        start_end_num(a) == start_end_num(b) <==> a == b,
{
    lemma_start_end_num_fields(a);
    lemma_start_end_num_fields(b);
}

/// The requests still waiting for their answer to be returned: first those
/// already processed, then those still queued, in the order they came in.
pub open spec fn pending(m: PathFinderView) -> Seq<PathFindInfo> {
    m.finished.map_values(|e: (int, PathFindResult)| e.1.info) + m.requests.map_values(
        |e: (PathFindInfo, int)| e.0,
    )
}

/// No request is lost, duplicated or reordered: what a call returns,
/// followed by what is still pending after it, is what was pending before
/// it followed by the new requests.
pub proof fn lemma_handle_step_conserves(m: PathFinderView, grid: Grid2D, new_requests: Seq<PathFindInfo>)
    ensures
        ({
            let (m2, out) = handle_step(m, grid, new_requests);
            out.map_values(|r: PathFindResult| r.info) + pending(m2) == pending(m) + new_requests
        }),
{
    let reqs1 = m.requests + new_requests.map_values(|r: PathFindInfo| (r, m.timer));
    let must = overdue_count(reqs1, m.timer);
    let want = if must > MIN_PROCESSED {
        must
    } else {
        MIN_PROCESSED as int
    };
    let n = if want < reqs1.len() {
        want
    } else {
        reqs1.len() as int
    };
    let fin1 = m.finished + reqs1.take(n).map_values(|e: (PathFindInfo, int)| answer(grid, e));
    let k = ready_count(fin1, m.timer) as int;
    lemma_ready_count(fin1, m.timer);
    let (m2, out) = handle_step(m, grid, new_requests);
    let fi = |e: (int, PathFindResult)| e.1.info;
    let ri = |e: (PathFindInfo, int)| e.0;
    assert(out.map_values(|r: PathFindResult| r.info) =~= fin1.take(k).map_values(fi));
    assert(m2.finished.map_values(fi) =~= fin1.skip(k).map_values(fi));
    assert(fin1.take(k).map_values(fi) + fin1.skip(k).map_values(fi) =~= fin1.map_values(fi));
    assert(fin1.map_values(fi) =~= m.finished.map_values(fi) + reqs1.take(n).map_values(ri));
    assert(m2.requests.map_values(ri) =~= reqs1.skip(n).map_values(ri));
    assert(reqs1.take(n).map_values(ri) + reqs1.skip(n).map_values(ri) =~= reqs1.map_values(ri));
    assert(reqs1.map_values(ri) =~= m.requests.map_values(ri) + new_requests);
    assert(out.map_values(|r: PathFindResult| r.info) + pending(m2) =~= pending(m) + new_requests);
}

/// A call never answers a request that it brings: what it returns is a
/// prefix of what was pending before it, so each new request waits for a
/// later call.
pub proof fn lemma_handle_step_not_same_call(
    m: PathFinderView,
    grid: Grid2D,
    new_requests: Seq<PathFindInfo>,
)
    ensures
        ({
            let (m2, out) = handle_step(m, grid, new_requests);
            &&& out.len() <= pending(m).len()
            &&& forall|j: int| 0 <= j < out.len() ==> #[trigger] out[j].info == pending(m)[j]
        }),
{
    let reqs1 = m.requests + new_requests.map_values(|r: PathFindInfo| (r, m.timer));
    let must = overdue_count(reqs1, m.timer);
    let want = if must > MIN_PROCESSED {
        must
    } else {
        MIN_PROCESSED as int
    };
    let n = if want < reqs1.len() {
        want
    } else {
        reqs1.len() as int
    };
    let fin1 = m.finished + reqs1.take(n).map_values(|e: (PathFindInfo, int)| answer(grid, e));
    let k = ready_count(fin1, m.timer) as int;
    lemma_ready_count(fin1, m.timer);
    lemma_handle_step_conserves(m, grid, new_requests);
    let (m2, out) = handle_step(m, grid, new_requests);
    let f = m.finished.len() as int;
    let r = m.requests.len() as int;
    if k > f + r {
        assert(fin1[f + r] == answer(grid, reqs1[r]));
        assert(reqs1[r] == (new_requests[0], m.timer));
        assert(m.timer - fin1[f + r].0 == DELAY);
    }
    assert(out.len() == k);
    let outi = out.map_values(|x: PathFindResult| x.info);
    let big = pending(m) + new_requests;
    assert forall|j: int| 0 <= j < out.len() implies #[trigger] out[j].info == pending(m)[j] by {
        assert(outi[j] == out[j].info);
        assert((outi + pending(m2))[j] == big[j]);
    }
}

/// A run of calls, the `i`-th given `grids[i]` and bringing `calls[i]`: the
/// path finder after them, and all the answers they returned, in order.
pub open spec fn run_calls(m: PathFinderView, grids: Seq<Grid2D>, calls: Seq<Seq<PathFindInfo>>) -> (
    PathFinderView,
    Seq<PathFindResult>,
)
    decreases calls.len(),
{
    if calls.len() == 0 {
        (m, seq![])
    } else {
        let (m1, out1) = handle_step(m, grids[0], calls[0]);
        let (m2, out2) = run_calls(m1, grids.drop_first(), calls.drop_first());
        (m2, out1 + out2)
    }
}

/// No request is lost, duplicated or reordered over any run of calls: the
/// answers returned, followed by what is still pending, are what was
/// pending before followed by all the requests brought, in order.
pub proof fn lemma_run_calls_conserves(m: PathFinderView, grids: Seq<Grid2D>, calls: Seq<Seq<PathFindInfo>>)
    ensures
        ({
            let (mf, out) = run_calls(m, grids, calls);
            out.map_values(|r: PathFindResult| r.info) + pending(mf) == pending(m) + calls.flatten()
        }),
    decreases calls.len(),
{
    if calls.len() > 0 {
        let (m1, out1) = handle_step(m, grids[0], calls[0]);
        let rest = calls.drop_first();
        let (mf, out2) = run_calls(m1, grids.drop_first(), rest);
        lemma_handle_step_conserves(m, grids[0], calls[0]);
        lemma_run_calls_conserves(m1, grids.drop_first(), rest);
        let a = out1.map_values(|r: PathFindResult| r.info);
        let b = out2.map_values(|r: PathFindResult| r.info);
        assert(a + pending(m1) == pending(m) + calls[0]);
        assert(b + pending(mf) == pending(m1) + rest.flatten());
        assert((out1 + out2).map_values(|r: PathFindResult| r.info) =~= a + b);
        assert(calls.flatten() == calls[0] + rest.flatten());
        assert((a + b) + pending(mf) =~= a + (b + pending(mf)));
        assert(a + (pending(m1) + rest.flatten()) =~= (a + pending(m1)) + rest.flatten());
        assert((pending(m) + calls[0]) + rest.flatten() =~= pending(m) + (calls[0] + rest.flatten()));
    }
}

/// Whether every processed answer holds the path that the search finds for
/// its request on the grid `grid_at` gives for the time its request came in.
pub open spec fn answers_by_time(m: PathFinderView, grid_at: spec_fn(int) -> Grid2D) -> bool {
    forall|i: int|
        0 <= i < m.finished.len() ==> (#[trigger] m.finished[i]).1.path == astar_short_path(
            grid_at(m.finished[i].0),
            m.finished[i].1.info,
        )
}

/// While nothing waits unprocessed and no call brings more than
/// [`MIN_PROCESSED`] requests, each request is searched on the grid given to
/// the call that brought it: where `grid_at` gives the grid of the call made
/// at each time, every answer a call returns holds the search on the grid of
/// the call made [`DELAY`] calls before, and this stays so.
pub proof fn lemma_handle_step_grid_of_request(
    m: PathFinderView,
    grid: Grid2D,
    new_requests: Seq<PathFindInfo>,
    grid_at: spec_fn(int) -> Grid2D,
)
    requires
        m.requests.len() == 0,
        new_requests.len() <= MIN_PROCESSED,
        answers_by_time(m, grid_at),
        grid_at(m.timer) == grid,
    ensures
        ({
            let (m2, out) = handle_step(m, grid, new_requests);
            &&& m2.requests.len() == 0
            &&& answers_by_time(m2, grid_at)
            &&& forall|j: int|
                0 <= j < out.len() ==> (#[trigger] out[j]).path == astar_short_path(
                    grid_at(m.timer - DELAY),
                    out[j].info,
                )
        }),
{
    let reqs1 = m.requests + new_requests.map_values(|r: PathFindInfo| (r, m.timer));
    assert(reqs1 =~= new_requests.map_values(|r: PathFindInfo| (r, m.timer)));
    let must = overdue_count(reqs1, m.timer);
    if exists|j: int| #[trigger] is_last_overdue(reqs1, m.timer, j) {
        let c = choose|j: int| #[trigger] is_last_overdue(reqs1, m.timer, j);
        assert(must == c + 1 && c < reqs1.len());
    }
    let n = reqs1.len() as int;
    let processed = reqs1.take(n).map_values(|e: (PathFindInfo, int)| answer(grid, e));
    let fin1 = m.finished + processed;
    lemma_ready_count(fin1, m.timer);
    let k = ready_count(fin1, m.timer) as int;
    let (m2, out) = handle_step(m, grid, new_requests);
    assert(reqs1.skip(n) =~= Seq::<(PathFindInfo, int)>::empty());
    assert forall|i: int| 0 <= i < fin1.len() implies (#[trigger] fin1[i]).1.path == astar_short_path(
        grid_at(fin1[i].0),
        fin1[i].1.info,
    ) by {
        if i >= m.finished.len() {
            assert(fin1[i] == answer(grid, reqs1[i - m.finished.len()]));
        } else {
            assert(fin1[i] == m.finished[i]);
        }
    }
    assert forall|i: int| 0 <= i < m2.finished.len() implies (#[trigger] m2.finished[i]).1.path
        == astar_short_path(grid_at(m2.finished[i].0), m2.finished[i].1.info) by {
        assert(m2.finished[i] == fin1[i + k]);
    }
    assert forall|j: int| 0 <= j < out.len() implies (#[trigger] out[j]).path == astar_short_path(
        grid_at(m.timer - DELAY),
        out[j].info,
    ) by {
        assert(out[j] == fin1[j].1);
        assert(m.timer - fin1[j].0 == DELAY);
    }
}

/// Whether every processed answer holds the path that the search finds on
/// `grid` for its request.
pub open spec fn answers_match(m: PathFinderView, grid: Grid2D) -> bool {
    forall|i: int|
        0 <= i < m.finished.len() ==> (#[trigger] m.finished[i]).1.path == astar_short_path(
            grid,
            m.finished[i].1.info,
        )
}

/// With the same grid throughout, whatever the load, every answer returned
/// holds the path that the search finds for its request.
pub proof fn lemma_run_calls_answers(
    m: PathFinderView,
    grid: Grid2D,
    grids: Seq<Grid2D>,
    calls: Seq<Seq<PathFindInfo>>,
)
    requires
        answers_match(m, grid),
        grids.len() >= calls.len(),
        forall|i: int| 0 <= i < grids.len() ==> #[trigger] grids[i] == grid,
    ensures
        ({
            let (mf, out) = run_calls(m, grids, calls);
            &&& answers_match(mf, grid)
            &&& forall|j: int| 0 <= j < out.len() ==> (#[trigger] out[j]).path == astar_short_path(grid, out[j].info)
        }),
    decreases calls.len(),
{
    if calls.len() > 0 {
        assert(grids[0] == grid);
        let new_requests = calls[0];
        let reqs1 = m.requests + new_requests.map_values(|r: PathFindInfo| (r, m.timer));
        let must = overdue_count(reqs1, m.timer);
        let want = if must > MIN_PROCESSED {
            must
        } else {
            MIN_PROCESSED as int
        };
        let n = if want < reqs1.len() {
            want
        } else {
            reqs1.len() as int
        };
        let fin1 = m.finished + reqs1.take(n).map_values(|e: (PathFindInfo, int)| answer(grid, e));
        let k = ready_count(fin1, m.timer) as int;
        lemma_ready_count(fin1, m.timer);
        assert forall|i: int| 0 <= i < fin1.len() implies (#[trigger] fin1[i]).1.path == astar_short_path(
            grid,
            fin1[i].1.info,
        ) by {
            if i >= m.finished.len() {
                let e = reqs1.take(n)[i - m.finished.len()];
                assert(fin1[i] == answer(grid, e));
            }
        }
        let (m1, out1) = handle_step(m, grid, new_requests);
        assert forall|i: int| 0 <= i < m1.finished.len() implies (#[trigger] m1.finished[i]).1.path
            == astar_short_path(grid, m1.finished[i].1.info) by {
            assert(m1.finished[i] == fin1[i + k]);
        }
        let rest = calls.drop_first();
        let grest = grids.drop_first();
        assert forall|i: int| 0 <= i < grest.len() implies #[trigger] grest[i] == grid by {
            assert(grest[i] == grids[i + 1]);
        }
        lemma_run_calls_answers(m1, grid, grest, rest);
        let (mf, out2) = run_calls(m1, grest, rest);
        assert forall|j: int| 0 <= j < out1.len() + out2.len() implies (#[trigger] (out1 + out2)[j]).path
            == astar_short_path(grid, (out1 + out2)[j].info) by {
            if j < out1.len() {
                assert(out1[j] == fin1[j].1);
            } else {
                assert((out1 + out2)[j] == out2[j - out1.len()]);
            }
        }
    }
}

} // verus!
