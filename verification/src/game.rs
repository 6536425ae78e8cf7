use vstd::prelude::*;
use crate::vec2::Vec2;
use crate::grid::{Grid2D, find_closest_empty, pick_empty_spot, is_empty_cell, is_closest_empty, dist2_fits};
use crate::pathfind::{
    PathFindInfo, PathFindResult, PathFinder, PathFinderView, handle_step, pending, times_ok,
    lemma_handle_step_conserves, lemma_handle_step_not_same_call, border_walled, request_ok, queue_ok,
};
use crate::short_path::{PathPointIter, step_fits, step_from};

verus! {

/// What a bot on the grid is doing.
#[derive(Copy, Clone, Debug, PartialEq, Eq, Structural)]
pub enum GridBotState {
    /// Waiting for a new target.
    DoingNothing,
    /// Waiting for the answer to its path request.
    Thinking,
    /// Following a path, with the time at which it last reached a target.
    Moving(PathPointIter, usize),
}

/// Whether the grid has an empty cell.
pub open spec fn has_empty(grid: Grid2D) -> bool {
    exists|p: (int, int)| #[trigger] is_empty_cell(grid, p)
}

/// Whether some bot is idle.
pub open spec fn has_idle(states: Seq<GridBotState>) -> bool {
    exists|i: int| 0 <= i < states.len() && #[trigger] states[i] == GridBotState::DoingNothing
}

/// Whether a search on the grid towards any of its cells stays within
/// `u32`: three times the number of cells plus twice the dimensions.
pub open spec fn grid_fits_search(grid: Grid2D) -> bool {
    3 * (grid.dims().0 * grid.dims().1) + 2 * grid.dims().0 + 2 * grid.dims().1 <= u32::MAX
}

/// The start of the path of a bot in `cell`: that cell where it names an
/// empty cell, else the empty cell closest to it.
pub open spec fn request_start_ok(walls: Grid2D, cell: (int, int), start: (int, int)) -> bool {
    if walls.lookup(cell) == Some(false) {
        start == cell
    } else {
        is_closest_empty(walls, cell, start)
    }
}

/// Whether `reqs` are the requests made for the idle bots: one per idle
/// bot, in the order of the bots, each from the bot's start cell to some
/// empty cell.
pub open spec fn requests_ok(
    states: Seq<GridBotState>,
    cells: Seq<Vec2>,
    walls: Grid2D,
    reqs: Seq<PathFindInfo>,
) -> bool {
    &&& forall|j: int|
        0 <= j < reqs.len() ==> {
            let i = #[trigger] reqs[j].bot_index as int;
            &&& 0 <= i < states.len()
            &&& states[i] is DoingNothing
            &&& request_start_ok(walls, cells[i].pair(), reqs[j].start.pair())
            &&& is_empty_cell(walls, reqs[j].end.pair())
        }
    &&& forall|j: int, l: int|
        0 <= j < l < reqs.len() ==> #[trigger] reqs[j].bot_index < #[trigger] reqs[l].bot_index
    &&& forall|i: int|
        0 <= i < states.len() && #[trigger] states[i] is DoingNothing ==> exists|j: int|
            0 <= j < reqs.len() && #[trigger] reqs[j].bot_index == i
}

/// Whether the cell of each idle bot can be looked up; where it names an
/// empty cell, whether it lies inside the grid (it becomes the start
/// of a path request); and where it does not, whether the distance from it
/// to every empty cell can be computed.
pub open spec fn cells_ok(states: Seq<GridBotState>, cells: Seq<Vec2>, walls: Grid2D) -> bool {
    &&& cells.len() == states.len()
    &&& forall|i: int|
        0 <= i < states.len() && #[trigger] states[i] is DoingNothing ==> {
            &&& walls.index_fits(cells[i].pair())
            &&& walls.lookup(cells[i].pair()) == Some(false) ==> walls.in_bounds(cells[i].pair())
            &&& walls.lookup(cells[i].pair()) != Some(false) ==> forall|p: (int, int)|
                #[trigger] is_empty_cell(walls, p) ==> dist2_fits(cells[i].pair(), p)
        }
}

/// What the idle bots need of the walls: an empty cell to go to, walls all
/// along the border, so that each search ends, and a grid small
/// enough for [`grid_fits_search`].
pub open spec fn idle_ok(states: Seq<GridBotState>, walls: Grid2D) -> bool {
    has_idle(states) ==> has_empty(walls) && border_walled(walls) && grid_fits_search(walls)
}

/// The states after the idle bots have asked for a path.
pub open spec fn thinking(states: Seq<GridBotState>) -> Seq<GridBotState> {
    states.map_values(
        |s: GridBotState|
            if s is DoingNothing {
                GridBotState::Thinking
            } else {
                s
            },
    )
}

/// Each idle bot asks for a path from its start cell to a random empty
/// cell and starts thinking.
fn make_requests(states: &mut Vec<GridBotState>, cells: &Vec<Vec2>, walls: &Grid2D) -> (reqs: Vec<
    PathFindInfo,
>)
    requires
        walls.wf(),
        idle_ok(old(states)@, *walls),
        cells_ok(old(states)@, cells@, *walls),
    ensures
        requests_ok(old(states)@, cells@, *walls, reqs@),
        forall|j: int| 0 <= j < reqs@.len() ==> request_ok(*walls, #[trigger] reqs@[j]),
        final(states)@ == thinking(old(states)@),
{
    let ghost s0 = states@;
    let mut reqs: Vec<PathFindInfo> = Vec::new();
    let mut i: usize = 0;
    while i < states.len()
        invariant
            walls.wf(),
            idle_ok(s0, *walls),
            cells_ok(s0, cells@, *walls),
            forall|j: int| 0 <= j < reqs@.len() ==> request_ok(*walls, #[trigger] reqs@[j]),
            states@.len() == s0.len(),
            i <= s0.len(),
            forall|j: int| 0 <= j < i ==> #[trigger] states@[j] == thinking(s0)[j],
            forall|j: int| i <= j < s0.len() ==> #[trigger] states@[j] == s0[j],
            forall|j: int|
                0 <= j < reqs@.len() ==> {
                    let b = #[trigger] reqs@[j].bot_index as int;
                    &&& 0 <= b < i
                    &&& s0[b] is DoingNothing
                    &&& request_start_ok(*walls, cells@[b].pair(), reqs@[j].start.pair())
                    &&& is_empty_cell(*walls, reqs@[j].end.pair())
                },
            forall|j: int, l: int|
                0 <= j < l < reqs@.len() ==> #[trigger] reqs@[j].bot_index < #[trigger] reqs@[l].bot_index,
            forall|b: int|
                0 <= b < i && #[trigger] s0[b] is DoingNothing ==> exists|j: int|
                    0 <= j < reqs@.len() && #[trigger] reqs@[j].bot_index == b,
        decreases s0.len() - i,
    {
        if states[i] == GridBotState::DoingNothing {
            let c = cells[i];
            proof {
                assert(s0[i as int] is DoingNothing);
                assert(s0[i as int] == GridBotState::DoingNothing);
                assert(has_idle(s0));
            }
            let start = match walls.get_option(c) {
                None => find_closest_empty(walls, c).unwrap(),
                Some(wall) => {
                    if wall {
                        find_closest_empty(walls, c).unwrap()
                    } else {
                        c
                    }
                },
            };
            let end = pick_empty_spot(walls).unwrap();
            let ghost old_reqs = reqs@;
            proof {
                assert(is_empty_cell(*walls, end.pair()));
                if walls.lookup(c.pair()) != Some(false) {
                    assert(is_empty_cell(*walls, start.pair()));
                }
                assert(walls.in_bounds(start.pair()));
                reveal(request_ok);
                assert(request_ok(*walls, PathFindInfo { start, end, bot_index: i }));
            }
            reqs.push(PathFindInfo { start, end, bot_index: i });
            states[i] = GridBotState::Thinking;
            proof {
                assert forall|j: int| 0 <= j < reqs@.len() implies request_ok(*walls, #[trigger] reqs@[j]) by {
                    if j < old_reqs.len() {
                        assert(reqs@[j] == old_reqs[j]);
                    }
                }
                assert forall|b: int|
                    0 <= b < i + 1 && #[trigger] s0[b] is DoingNothing implies exists|j: int|
                    0 <= j < reqs@.len() && #[trigger] reqs@[j].bot_index == b by {
                    if b == i {
                        assert(reqs@[reqs@.len() - 1].bot_index == b);
                    } else {
                        let j = choose|j: int| 0 <= j < old_reqs.len() && #[trigger] old_reqs[j].bot_index == b;
                        assert(reqs@[j] == old_reqs[j]);
                    }
                }
            }
        }
        i = i + 1;
    }
    proof {
        assert(states@ =~= thinking(s0));
    }
    reqs
}

/// Whether the answers can be handed to their bots: each bot exists, is
/// thinking, and gets one answer.
pub open spec fn results_ok(states: Seq<GridBotState>, results: Seq<PathFindResult>) -> bool {
    &&& forall|j: int|
        0 <= j < results.len() ==> {
            let b = #[trigger] results[j].info.bot_index as int;
            &&& 0 <= b < states.len()
            &&& states[b] is Thinking
        }
    &&& forall|j: int, l: int|
        0 <= j < l < results.len() ==> #[trigger] results[j].info.bot_index != #[trigger] results[l].info.bot_index
}

/// The state of bot `b` after the answers: moving along the path of its
/// answer, if it got one with a path, from the start of its request, with
/// the given time; unchanged otherwise.
pub open spec fn state_after_results(
    states: Seq<GridBotState>,
    results: Seq<PathFindResult>,
    time: usize,
    b: int,
) -> GridBotState {
    if exists|j: int|
        0 <= j < results.len() && #[trigger] results[j].info.bot_index == b && results[j].path is Some {
        let j = choose|j: int|
            0 <= j < results.len() && #[trigger] results[j].info.bot_index == b
                && results[j].path is Some;
        GridBotState::Moving(
            PathPointIter::spec_new(results[j].info.start, results[j].path->0.spec_iter()),
            time,
        )
    } else {
        states[b]
    }
}

/// Hands each answer with a path to its bot, which starts moving along it.
fn apply_results(states: &mut Vec<GridBotState>, results: &Vec<PathFindResult>, time: usize)
    requires
        results_ok(old(states)@, results@),
    ensures
        final(states)@.len() == old(states)@.len(),
        forall|b: int|
            0 <= b < old(states)@.len() ==> #[trigger] final(states)@[b] == state_after_results(
                old(states)@,
                results@,
                time,
                b,
            ),
{
    let ghost s0 = states@;
    let mut j: usize = 0;
    while j < results.len()
        invariant
            results_ok(s0, results@),
            states@.len() == s0.len(),
            j <= results@.len(),
            forall|b: int|
                0 <= b < s0.len() ==> #[trigger] states@[b] == state_after_results(
                    s0,
                    results@.take(j as int),
                    time,
                    b,
                ),
        decreases results.len() - j,
    {
        let res = results[j];
        let ghost before = states@;
        let bi = res.info.bot_index;
        match res.path {
            Some(path) => {
                let k = PathPointIter::new(res.info.start, path.iter());
                states[bi] = GridBotState::Moving(k, time);
            },
            None => {},
        }
        proof {
            let rj = results@.take(j as int);
            let rj1 = results@.take(j + 1);
            assert forall|b: int| 0 <= b < s0.len() implies #[trigger] states@[b] == state_after_results(
                s0,
                rj1,
                time,
                b,
            ) by {
                if b == bi {
                    if res.path is Some {
                        assert(rj1[j as int] == res);
                        let jj = choose|jj: int|
                            0 <= jj < rj1.len() && #[trigger] rj1[jj].info.bot_index == b
                                && rj1[jj].path is Some;
                        if jj != j {
                            assert(results@[jj].info.bot_index != results@[j as int].info.bot_index);
                        }
                    } else {
                        if exists|jj: int|
                            0 <= jj < rj.len() && #[trigger] rj[jj].info.bot_index == b && rj[jj].path is Some {
                            let jj = choose|jj: int|
                                0 <= jj < rj.len() && #[trigger] rj[jj].info.bot_index == b
                                    && rj[jj].path is Some;
                            assert(results@[jj].info.bot_index != results@[j as int].info.bot_index);
                        }
                        if exists|jj: int|
                            0 <= jj < rj1.len() && #[trigger] rj1[jj].info.bot_index == b && rj1[jj].path is Some {
                            let jj = choose|jj: int|
                                0 <= jj < rj1.len() && #[trigger] rj1[jj].info.bot_index == b
                                    && rj1[jj].path is Some;
                            assert(jj != j);
                            assert(rj[jj] == rj1[jj]);
                        }
                    }
                } else {
                    assert(states@[b] == before[b]);
                    if exists|jj: int|
                        0 <= jj < rj1.len() && #[trigger] rj1[jj].info.bot_index == b && rj1[jj].path is Some {
                        let jj = choose|jj: int|
                            0 <= jj < rj1.len() && #[trigger] rj1[jj].info.bot_index == b
                                && rj1[jj].path is Some;
                        assert(rj[jj] == rj1[jj]);
                    }
                    if exists|jj: int|
                        0 <= jj < rj.len() && #[trigger] rj[jj].info.bot_index == b && rj[jj].path is Some {
                        let jj = choose|jj: int|
                            0 <= jj < rj.len() && #[trigger] rj[jj].info.bot_index == b
                                && rj[jj].path is Some;
                        assert(rj[jj] == rj1[jj]);
                    }
                }
            }
        }
        j = j + 1;
    }
    proof {
        assert(results@.take(results@.len() as int) =~= results@);
    }
}

/// Every pending path request belongs to an existing bot that is thinking,
/// and no bot has two pending requests.
pub open spec fn game_inv(states: Seq<GridBotState>, m: PathFinderView) -> bool {
    let p = pending(m);
    &&& forall|j: int|
        0 <= j < p.len() ==> {
            let b = #[trigger] p[j].bot_index as int;
            &&& 0 <= b < states.len()
            &&& states[b] is Thinking
        }
    &&& forall|j: int, l: int|
        0 <= j < l < p.len() ==> #[trigger] p[j].bot_index != #[trigger] p[l].bot_index
}

/// How one call of [`handle_path_assignment`] moves a bot on: an idle bot
/// starts thinking (its answer comes in a later call), a moving bot is left
/// as it is, and a thinking bot keeps thinking or starts moving.
pub open spec fn state_moves_on(before: GridBotState, after: GridBotState) -> bool {
    match before {
        GridBotState::DoingNothing => after == GridBotState::Thinking,
        GridBotState::Moving(..) => after == before,
        GridBotState::Thinking => after is Thinking || after is Moving,
    }
}

/// The idle bots ask for paths and start thinking; the path finder takes
/// the requests and returns the answers that are due; each thinking bot
/// whose answer has a path starts moving along it from the start of its
/// request, stamped with the path finder's new time.
pub fn handle_path_assignment(
    states: &mut Vec<GridBotState>,
    cells: &Vec<Vec2>,
    walls: &Grid2D,
    pathfinder: &mut PathFinder,
)
    requires
        walls.wf(),
        idle_ok(old(states)@, *walls),
        cells_ok(old(states)@, cells@, *walls),
        times_ok(old(pathfinder)@),
        queue_ok(old(pathfinder)@, *walls),
        old(pathfinder)@.timer < usize::MAX,
        game_inv(old(states)@, old(pathfinder)@),
    ensures
        times_ok(final(pathfinder)@),
        queue_ok(final(pathfinder)@, *walls),
        game_inv(final(states)@, final(pathfinder)@),
        final(states)@.len() == old(states)@.len(),
        forall|b: int|
            0 <= b < old(states)@.len() ==> state_moves_on(#[trigger] old(states)@[b], final(states)@[b]),
        exists|reqs: Seq<PathFindInfo>|
            #[trigger] requests_ok(old(states)@, cells@, *walls, reqs) && {
                let (m2, out) = handle_step(old(pathfinder)@, *walls, reqs);
                &&& final(pathfinder)@ == m2
                &&& forall|b: int|
                    0 <= b < old(states)@.len() ==> #[trigger] final(states)@[b]
                        == state_after_results(
                        thinking(old(states)@),
                        out,
                        (old(pathfinder)@.timer + 1) as usize,
                        b,
                    )
            },
{
    let ghost s0 = states@;
    let ghost m = pathfinder@;
    let path_requests = make_requests(states, cells, walls);
    let ghost reqs = path_requests@;
    let results = pathfinder.handle_par(walls, path_requests);
    let ghost m2 = pathfinder@;
    let ghost out = results@;
    let ghost s1 = states@;
    proof {
        lemma_handle_step_conserves(m, *walls, reqs);
        let big = pending(m) + reqs;
        let outi = out.map_values(|r: PathFindResult| r.info);
        assert(outi + pending(m2) == big);
        // every request in play belongs to a thinking bot, and no bot has two
        assert forall|j: int| 0 <= j < big.len() implies {
            let b = #[trigger] big[j].bot_index as int;
            0 <= b < s1.len() && s1[b] is Thinking
        } by {
            if j < pending(m).len() {
                assert(big[j] == pending(m)[j]);
                let b = big[j].bot_index as int;
                assert(s0[b] is Thinking);
                assert(s1[b] == thinking(s0)[b]);
            } else {
                assert(big[j] == reqs[j - pending(m).len()]);
                let b = big[j].bot_index as int;
                assert(s1[b] == thinking(s0)[b]);
            }
        }
        assert forall|j: int, l: int| 0 <= j < l < big.len() implies #[trigger] big[j].bot_index
            != #[trigger] big[l].bot_index by {
            let pl = pending(m).len();
            if l < pl {
                assert(big[j] == pending(m)[j] && big[l] == pending(m)[l]);
            } else if j >= pl {
                assert(big[j] == reqs[j - pl] && big[l] == reqs[l - pl]);
            } else {
                assert(big[j] == pending(m)[j] && big[l] == reqs[l - pl]);
                let b = big[j].bot_index as int;
                assert(s0[b] is Thinking);
                assert(0 <= l - pl < reqs.len());
                assert(s0[reqs[l - pl].bot_index as int] is DoingNothing);
            }
        }
        assert forall|j: int| 0 <= j < out.len() implies {
            let b = #[trigger] out[j].info.bot_index as int;
            &&& 0 <= b < s1.len()
            &&& s1[b] is Thinking
        } by {
            assert(outi[j] == out[j].info);
            assert(big[j] == outi[j]);
        }
        assert forall|j: int, l: int| 0 <= j < l < out.len() implies #[trigger] out[j].info.bot_index
            != #[trigger] out[l].info.bot_index by {
            assert(big[j] == outi[j] && big[l] == outi[l]);
            assert(outi[j] == out[j].info && outi[l] == out[l].info);
        }
        assert(results_ok(s1, out));
    }
    let time = pathfinder.get_time();
    apply_results(states, &results, time);
    proof {
        let big = pending(m) + reqs;
        let outi = out.map_values(|r: PathFindResult| r.info);
        let p2 = pending(m2);
        assert forall|j: int| 0 <= j < p2.len() implies {
            let b = #[trigger] p2[j].bot_index as int;
            &&& 0 <= b < states@.len()
            &&& states@[b] is Thinking
        } by {
            let ol = out.len() as int;
            assert(big[ol + j] == p2[j]);
            let b = p2[j].bot_index as int;
            assert(s1[b] is Thinking);
            if exists|jj: int|
                0 <= jj < out.len() && #[trigger] out[jj].info.bot_index == b && out[jj].path is Some {
                let jj = choose|jj: int|
                    0 <= jj < out.len() && #[trigger] out[jj].info.bot_index == b && out[jj].path is Some;
                assert(big[jj] == outi[jj]);
                assert(outi[jj] == out[jj].info);
                assert(big[jj].bot_index != big[ol + j].bot_index);
            }
            assert(states@[b] == state_after_results(s1, out, time, b));
        }
        assert forall|j: int, l: int| 0 <= j < l < p2.len() implies #[trigger] p2[j].bot_index
            != #[trigger] p2[l].bot_index by {
            let ol = out.len() as int;
            assert(big[ol + j] == p2[j] && big[ol + l] == p2[l]);
        }
        assert(s1 == thinking(s0));
        assert(requests_ok(s0, cells@, *walls, reqs));
        // answers only go to bots that were already thinking before the call
        lemma_handle_step_not_same_call(m, *walls, reqs);
        assert forall|b: int| 0 <= b < s0.len() implies state_moves_on(#[trigger] s0[b], states@[b]) by {
            assert(states@[b] == state_after_results(s1, out, time, b));
            assert(s1[b] == thinking(s0)[b]);
            if !(s0[b] is Thinking) {
                if exists|jj: int|
                    0 <= jj < out.len() && #[trigger] out[jj].info.bot_index == b && out[jj].path is Some {
                    let jj = choose|jj: int|
                        0 <= jj < out.len() && #[trigger] out[jj].info.bot_index == b && out[jj].path is Some;
                    assert(out[jj].info == pending(m)[jj]);
                    assert(s0[pending(m)[jj].bot_index as int] is Thinking);
                }
            }
        }
    }
}

/// At the start, every bot is idle and nothing is pending.
pub proof fn lemma_game_inv_start(states: Seq<GridBotState>, m: PathFinderView)
    requires
        m.requests.len() == 0,
        m.finished.len() == 0,
    ensures
        game_inv(states, m),
{
    assert(pending(m).len() == 0);
}

/// Whether the first two steps of a walk can be looked at.
pub open spec fn peekable(it: PathPointIter) -> bool {
    &&& it.remaining().len() > 0 ==> step_fits(it.cursor(), it.remaining()[0])
    &&& it.remaining().len() > 1 ==> step_fits(
        step_from(it.cursor(), it.remaining()[0]),
        it.remaining()[1],
    )
}

/// Whether a moving bot falls back to the cell it is in: it sees neither
/// its next cell, nor the cell it reached last, nor the cell after next
/// (where there is one).
pub open spec fn falls_back(it: PathPointIter, next_blocked: bool, pos_blocked: bool, ppos_blocked: bool) -> bool {
    &&& it.remaining().len() > 0
    &&& next_blocked
    &&& pos_blocked
    &&& (it.remaining().len() > 1 ==> ppos_blocked)
}

/// Where a bot heads, with whether that is the next cell of its path. A
/// moving bot heads for the next cell of its path if it sees it; else for
/// the cell it reached last if it sees that; else for the cell after next
/// if there is one and it sees it; else for the cell it is in, `current`.
/// A moving bot at the end of its path becomes idle and heads nowhere, as
/// does an idle or thinking bot. `next_blocked`, `pos_blocked` and
/// `ppos_blocked` say whether a wall hides the next cell, the cell reached
/// last and the cell after next.
pub fn steer_target(
    state: &mut GridBotState,
    next_blocked: bool,
    pos_blocked: bool,
    ppos_blocked: bool,
    current: Vec2,
    walls: &Grid2D,
) -> (r: Option<(Vec2, bool)>)
    requires
        walls.wf(),
        *old(state) matches GridBotState::Moving(it, _) ==> peekable(it) && (falls_back(
            it,
            next_blocked,
            pos_blocked,
            ppos_blocked,
        ) ==> walls.index_fits(current.pair()) && walls.lookup(current.pair()) != Some(true)),
    ensures
        match *old(state) {
            GridBotState::Moving(it, _) => {
                if it.remaining().len() == 0 {
                    r is None && *final(state) == GridBotState::DoingNothing
                } else {
                    let next = step_from(it.cursor(), it.remaining()[0]);
                    &&& *final(state) == *old(state)
                    &&& r matches Some((t, on_path)) && (if !next_blocked {
                        t.pair() == next && on_path
                    } else if !pos_blocked {
                        t.pair() == it.cursor() && !on_path
                    } else if it.remaining().len() > 1 && !ppos_blocked {
                        t.pair() == step_from(next, it.remaining()[1]) && !on_path
                    } else {
                        t == current && !on_path
                    })
                }
            },
            _ => r is None && *final(state) == *old(state),
        },
{
    match *state {
        GridBotState::Moving(pointiter, _time) => {
            match pointiter.peek() {
                Some((_carddir, next)) => {
                    let k = if next_blocked {
                        if pos_blocked {
                            if let Some((_carddir, ppos)) = pointiter.double_peek() {
                                if ppos_blocked {
                                    if let Some(wall) = walls.get_option(current) {
                                        proof {
                                            assert(!wall);
                                        }
                                    }
                                    (current, false)
                                } else {
                                    (ppos, false)
                                }
                            } else {
                                if let Some(wall) = walls.get_option(current) {
                                    proof {
                                        assert(!wall);
                                    }
                                }
                                (current, false)
                            }
                        } else {
                            (pointiter.pos(), false)
                        }
                    } else {
                        (next, true)
                    };
                    Some(k)
                },
                None => {
                    *state = GridBotState::DoingNothing;
                    None
                },
            }
        },
        GridBotState::Thinking | GridBotState::DoingNothing => None,
    }
}

/// A moving bot that has reached the next cell of its path moves on to the
/// following one and records `time`; at the end of its path it stays as it is.
pub fn arrive(state: &mut GridBotState, time: usize)
    requires
        *old(state) matches GridBotState::Moving(it, _) ==> peekable(it),
    ensures
        match *old(state) {
            GridBotState::Moving(it, t) => {
                if it.remaining().len() == 0 {
                    *final(state) == *old(state)
                } else {
                    *final(state) matches GridBotState::Moving(it2, t2) && t2 == time
                        && it2.cursor() == step_from(it.cursor(), it.remaining()[0])
                        && it2.remaining() == it.remaining().drop_first()
                }
            },
            _ => *final(state) == *old(state),
        },
{
    match state {
        GridBotState::Moving(pointiter, t) => {
            match pointiter.next() {
                Some(_target) => {
                    *t = time;
                },
                None => {},
            }
        },
        _ => {},
    }
}

/// Whether any of the cells names a wall.
pub fn touches_wall(walls: &Grid2D, cells: &Vec<Vec2>) -> (b: bool)
    requires
        walls.wf(),
        forall|i: int| 0 <= i < cells@.len() ==> walls.index_fits(#[trigger] cells@[i].pair()),
    ensures
        b == exists|i: int| 0 <= i < cells@.len() && walls.lookup(#[trigger] cells@[i].pair()) == Some(true),
{
    let mut i: usize = 0;
    while i < cells.len()
        invariant
            walls.wf(),
            i <= cells@.len(),
            forall|j: int| 0 <= j < cells@.len() ==> walls.index_fits(#[trigger] cells@[j].pair()),
            forall|j: int| 0 <= j < i ==> walls.lookup(#[trigger] cells@[j].pair()) != Some(true),
        decreases cells.len() - i,
    {
        match walls.get_option(cells[i]) {
            Some(wall) => {
                if wall {
                    return true;
                }
            },
            None => {},
        }
        i = i + 1;
    }
    false
}

/// What a cast ray does on entering a cell.
#[derive(Copy, Clone, Debug, PartialEq, Eq, Structural)]
pub enum RayCellOutcome {
    /// The cell is empty: the ray goes on.
    Continue,
    /// The cell is a wall: the ray stops on it.
    Hit,
    /// The cell is off the grid: the ray is lost.
    OffGrid,
}

/// What a cast ray does on entering `cell` through the side that faces
/// `cell + side`: it stops on a wall, goes on through an empty cell, and is
/// lost off the grid. A wall entered from a wall cannot happen.
pub fn ray_cell_outcome(walls: &Grid2D, cell: Vec2, side: Vec2) -> (r: RayCellOutcome)
    requires
        walls.wf(),
        walls.index_fits(cell.pair()),
        walls.lookup(cell.pair()) == Some(true) ==> {
            &&& isize::MIN <= cell.x + side.x <= isize::MAX
            &&& isize::MIN <= cell.y + side.y <= isize::MAX
            &&& walls.index_fits((cell.x + side.x, cell.y + side.y))
            &&& walls.lookup((cell.x + side.x, cell.y + side.y)) != Some(true)
        },
    ensures
        r == match walls.lookup(cell.pair()) {
            None => RayCellOutcome::OffGrid,
            Some(false) => RayCellOutcome::Continue,
            Some(true) => RayCellOutcome::Hit,
        },
{
    match walls.get_option(cell) {
        Some(wall) => {
            if wall {
                if let Some(wall2) = walls.get_option(cell.add(side)) {
                    proof {
                        assert(!wall2);
                    }
                }
                RayCellOutcome::Hit
            } else {
                RayCellOutcome::Continue
            }
        },
        None => RayCellOutcome::OffGrid,
    }
}

} // verus!
