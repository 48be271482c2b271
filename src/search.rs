//! Iterative-deepening depth-first search with a distance bound and a cache
//! of visited states.
use vstd::prelude::*;

use crate::grid::{
    lemma_step_in_grid, neighbor, occupied_at, open_toward, run_measure, slide_end, toggled,
    wall_at, Direction, Move, Piece,
};
use crate::heuristic::{
    in_run, lemma_mirrored_transfer, lemma_slide_is_run, lemma_step_back,
    lemma_table_below_any_solution, same_walls, walls_mirrored,
};
use crate::solver::{
    cache_key_of, in_sync, last_move, layout, lemma_cache_key_injective, lemma_relocate,
    lemma_slide_end_free, lemma_toggled_walls, placed, robot_on, undoes, Solver,
};

verus! {

broadcast use vstd::std_specs::hash::group_hash_axioms;

/// Whether playing `moves` in order from the cells `cells` and robot positions
/// `robots` moves a robot at every step and leaves `target` on `goal`.
pub open spec fn solves(
    cells: Seq<u8>,
    width: int,
    target: Piece,
    goal: int,
    robots: Seq<usize>,
    moves: Seq<Move>,
) -> bool
    decreases moves.len(),
{
    if moves.len() == 0 {
        robots[target.spec_index() as int] == goal
    } else {
        let m = moves[0];
        let i = m.robot_id.spec_index() as int;
        let start = robots[i] as int;
        let end = slide_end(cells, width, start, m.direction);
        &&& end != start
        &&& solves(
            toggled(toggled(cells, start), end),
            width,
            target,
            goal,
            robots.update(i, end as usize),
            moves.drop_first(),
        )
    }
}

/// A run only moves further from where it started.
pub proof fn lemma_run_measure(cells: Seq<u8>, width: int, x: int, d: Direction, y: int)
    requires
        0 <= x < cells.len(),
        in_run(cells, width, x, d, y),
    ensures
        run_measure(cells.len() as int, y, d) < run_measure(cells.len() as int, x, d),
    decreases run_measure(cells.len() as int, x, d),
{
    lemma_step_in_grid(cells, width, x, d);
    let next = neighbor(width, x, d);
    if next != y {
        lemma_run_measure(cells, width, next, d, y);
    }
}

/// A slide looks only at the walls and at the cells ahead of it.
pub proof fn lemma_slide_looks_ahead(a: Seq<u8>, b: Seq<u8>, width: int, x: int, d: Direction)
    requires
        same_walls(a, b),
        0 <= x < a.len(),
        forall|y: int| #[trigger] in_run(a, width, x, d, y) ==> occupied_at(a, y) == occupied_at(b, y),
    ensures
        slide_end(a, width, x, d) == slide_end(b, width, x, d),
    decreases run_measure(a.len() as int, x, d),
{
    assert(wall_at(a, x, d) == wall_at(b, x, d));
    if open_toward(a, width, x, d) {
        lemma_step_in_grid(a, width, x, d);
        let next = neighbor(width, x, d);
        assert(in_run(a, width, x, d, next));
        assert forall|y: int| #[trigger] in_run(a, width, next, d, y) implies occupied_at(a, y)
            == occupied_at(b, y) by {
            assert(in_run(a, width, x, d, y));
        }
        lemma_slide_looks_ahead(a, b, width, next, d);
    }
}

/// After a robot slides from `p` toward `d` to `q`, sliding it back from `q`
/// passes `p` and goes on as a slide from `p` would: cells `c2` are `c` with
/// the robot moved, `x` a cell of the forward slide.
pub proof fn lemma_slide_back(
    c: Seq<u8>,
    c2: Seq<u8>,
    width: int,
    p: int,
    q: int,
    x: int,
    d: Direction,
)
    requires
        walls_mirrored(c, width),
        0 <= p < c.len(),
        0 <= q < c.len(),
        p != q,
        c2 == toggled(toggled(c, p), q),
        occupied_at(c, p),
        0 <= x < c.len(),
        x == p || !occupied_at(c, x),
        run_measure(c.len() as int, x, d) <= run_measure(c.len() as int, p, d),
        slide_end(c, width, x, d) == q,
    ensures
        slide_end(c2, width, q, d.opposite()) == slide_end(c2, width, x, d.opposite()),
    decreases run_measure(c.len() as int, x, d),
{
    if x != q {
        lemma_step_in_grid(c, width, x, d);
        let next = neighbor(width, x, d);
        lemma_slide_back(c, c2, width, p, q, next, d);
        lemma_step_back(c, width, x, d);
        crate::solver::lemma_toggled_walls(c, p, next, d.opposite());
        crate::solver::lemma_toggled_walls(toggled(c, p), q, next, d.opposite());
        crate::solver::lemma_toggled_walls(c, p, x, d);
        crate::solver::lemma_toggled_walls(toggled(c, p), q, x, d);
        assert(!occupied_at(c2, x));
        assert(slide_end(c2, width, next, d.opposite()) == slide_end(c2, width, x, d.opposite()));
    }
}

/// Flipping the robot bits of `s` and `e` keeps the walls.
pub proof fn lemma_pair_same_walls(c: Seq<u8>, s: int, e: int)
    requires
        0 <= s < c.len(),
        0 <= e < c.len(),
    ensures
        same_walls(toggled(toggled(c, s), e), c),
        same_walls(c, toggled(toggled(c, s), e)),
{
    assert forall|x: int, d: Direction| 0 <= x < c.len() implies #[trigger] wall_at(
        toggled(toggled(c, s), e),
        x,
        d,
    ) == wall_at(c, x, d) by {
        lemma_toggled_walls(c, s, x, d);
        lemma_toggled_walls(toggled(c, s), e, x, d);
    }
}

/// With mirrored walls, a robot that slides toward `d` and straight back ends
/// where one slide back from its first cell would take it.
pub proof fn lemma_back_and_forth(
    c: Seq<u8>,
    width: int,
    robots: Seq<usize>,
    i: int,
    d: Direction,
)
    requires
        walls_mirrored(c, width),
        in_sync(c, robots),
        placed(robots, c.len() as int),
        0 <= i < 4,
        slide_end(c, width, robots[i] as int, d) != robots[i],
    ensures
        slide_end(
            toggled(toggled(c, robots[i] as int), slide_end(c, width, robots[i] as int, d)),
            width,
            slide_end(c, width, robots[i] as int, d),
            d.opposite(),
        ) == slide_end(c, width, robots[i] as int, d.opposite()),
{
    let p = robots[i] as int;
    let q = slide_end(c, width, p, d);
    let c2 = toggled(toggled(c, p), q);
    lemma_slide_end_free(c, width, p, d);
    assert(robot_on(robots, p));
    lemma_slide_back(c, c2, width, p, q, p, d);
    lemma_pair_same_walls(c, p, q);
    lemma_slide_is_run(c, width, p, d);
    lemma_run_measure(c, width, p, d, q);
    assert forall|y: int| #[trigger] in_run(c2, width, p, d.opposite(), y) implies occupied_at(
        c2,
        y,
    ) == occupied_at(c, y) by {
        lemma_run_measure(c2, width, p, d.opposite(), y);
        crate::heuristic::lemma_run_in_grid(c2, width, p, d.opposite(), y);
        lemma_toggled_walls(c, p, y, d);
        lemma_toggled_walls(toggled(c, p), q, y, d);
    }
    lemma_slide_looks_ahead(c2, c, width, p, d.opposite());
}

/// With mirrored walls, every solution can be shortened to one, no longer,
/// in which no move undoes the move before it.
pub proof fn lemma_shorten_undos(
    cells: Seq<u8>,
    width: int,
    target: Piece,
    goal: int,
    robots: Seq<usize>,
    ms: Seq<Move>,
)
    requires
        walls_mirrored(cells, width),
        width > 0,
        in_sync(cells, robots),
        placed(robots, cells.len() as int),
        cells.len() <= usize::MAX,
        solves(cells, width, target, goal, robots, ms),
    ensures
        exists|short: Seq<Move>|
            short.len() <= ms.len() && no_undo_from(short, 0) && #[trigger] solves(
                cells,
                width,
                target,
                goal,
                robots,
                short,
            ),
    decreases ms.len(),
{
    if ms.len() == 0 {
        assert(no_undo_from(ms, 0));
    } else {
        let m = ms[0];
        let i = m.robot_id.spec_index() as int;
        let p = robots[i] as int;
        let q = slide_end(cells, width, p, m.direction);
        lemma_slide_end_free(cells, width, p, m.direction);
        let c1 = toggled(toggled(cells, p), q);
        let r1 = robots.update(i, q as usize);
        lemma_relocate(cells, robots, i, p, q as usize);
        lemma_pair_same_walls(cells, p, q);
        lemma_mirrored_transfer(c1, cells, width);
        let rest = ms.drop_first();
        lemma_shorten_undos(c1, width, target, goal, r1, rest);
        let rest2 = choose|short: Seq<Move>|
            short.len() <= rest.len() && no_undo_from(short, 0) && #[trigger] solves(
                c1,
                width,
                target,
                goal,
                r1,
                short,
            );
        if rest2.len() == 0 || !undoes(m, rest2[0]) {
            let short = seq![m] + rest2;
            assert(short[0] == m);
            assert(short.drop_first() =~= rest2);
            assert forall|k: int| 0 <= k < short.len() && 0 < k implies !undoes(
                short[k - 1],
                #[trigger] short[k],
            ) by {
                if k > 1 {
                    assert(short[k] == rest2[k - 1]);
                    assert(short[k - 1] == rest2[k - 2]);
                }
            }
            assert(solves(cells, width, target, goal, robots, short));
        } else {
            let back = rest2[0];
            assert(back.robot_id == m.robot_id);
            assert(back.direction == m.direction.opposite());
            lemma_back_and_forth(cells, width, robots, i, m.direction);
            let e2 = slide_end(cells, width, p, back.direction);
            assert(r1[i] as int == q);
            assert(slide_end(c1, width, q, back.direction) == e2);
            let tail = rest2.drop_first();
            let c3 = toggled(toggled(c1, q), e2);
            let r3 = r1.update(i, e2 as usize);
            assert(solves(c3, width, target, goal, r3, tail));
            assert forall|k: int| 0 <= k < tail.len() && 0 < k implies !undoes(
                tail[k - 1],
                #[trigger] tail[k],
            ) by {
                assert(tail[k] == rest2[k + 1]);
                assert(tail[k - 1] == rest2[k]);
            }
            if e2 == p {
                crate::solver::lemma_undo_restores(cells, robots, i, q as usize);
                crate::solver::lemma_toggles_commute(toggled(toggled(cells, p), q), p, q);
                assert(r3 =~= robots);
                assert(solves(cells, width, target, goal, robots, tail));
            } else {
                lemma_slide_end_free(cells, width, p, back.direction);
                let y = toggled(cells, p);
                crate::solver::lemma_flip_bit(y[q]);
                assert(toggled(toggled(y, q), q) =~= y);
                assert(c3 =~= toggled(toggled(cells, p), e2));
                assert(r3 =~= robots.update(i, e2 as usize));
                assert(rest2[0] == back);
                assert(solves(cells, width, target, goal, robots, rest2));
            }
        }
    }
}

/// Whether no sequence of at most `budget` moves solves the puzzle from
/// `cells` and `robots`.
pub open spec fn no_solution_within(
    cells: Seq<u8>,
    width: int,
    target: Piece,
    goal: int,
    robots: Seq<usize>,
    budget: int,
) -> bool {
    forall|ms: Seq<Move>|
        ms.len() <= budget ==> !#[trigger] solves(cells, width, target, goal, robots, ms)
}

/// With mirrored walls, when no sequence without an undone move solves the
/// puzzle within `budget` moves, no sequence at all does.
pub proof fn lemma_no_solution_within(
    cells: Seq<u8>,
    width: int,
    target: Piece,
    goal: int,
    robots: Seq<usize>,
    budget: int,
)
    requires
        walls_mirrored(cells, width),
        width > 0,
        in_sync(cells, robots),
        placed(robots, cells.len() as int),
        cells.len() <= usize::MAX,
        unsolvable_within(cells, width, target, goal, robots, None, budget),
    ensures
        no_solution_within(cells, width, target, goal, robots, budget),
{
    assert forall|ms: Seq<Move>| ms.len() <= budget implies !#[trigger] solves(
        cells,
        width,
        target,
        goal,
        robots,
        ms,
    ) by {
        if solves(cells, width, target, goal, robots, ms) {
            lemma_shorten_undos(cells, width, target, goal, robots, ms);
            let short = choose|short: Seq<Move>|
                short.len() <= ms.len() && no_undo_from(short, 0) && #[trigger] solves(
                    cells,
                    width,
                    target,
                    goal,
                    robots,
                    short,
                );
            assert(may_follow(short, None));
        }
    }
}

fn copy_moves(v: &Vec<Move>) -> (r: Vec<Move>)
    ensures
        r@ == v@,
{
    let mut r: Vec<Move> = Vec::new();
    let mut i: usize = 0;
    while i < v.len()
        invariant
            i <= v@.len(),
            r@ == v@.subrange(0, i as int),
        decreases v@.len() - i,
    {
        r.push(v[i]);
        i = i + 1;
        assert(r@ =~= v@.subrange(0, i as int));
    }
    assert(r@ =~= v@);
    r
}

/// The budget recorded for `key`, zero when there is none.
pub open spec fn cached_budget(cache: Map<u64, u32>, key: u64) -> int {
    if cache.contains_key(key) {
        cache[key] as int
    } else {
        0
    }
}

/// No entry of `a` is removed or lowered in `b`.
pub open spec fn cache_grows(a: Map<u64, u32>, b: Map<u64, u32>) -> bool {
    forall|k: u64| #[trigger] a.contains_key(k) ==> b.contains_key(k) && b[k] >= a[k]
}

/// Every entry of `b` that is new or different from `a` is at most `bound`.
pub open spec fn changes_at_most(a: Map<u64, u32>, b: Map<u64, u32>, bound: int) -> bool {
    forall|k: u64|
        #[trigger] b.contains_key(k) && !(a.contains_key(k) && b[k] == a[k]) ==> b[k] <= bound
}

/// From index `from` on, no move of `moves` undoes the move before it.
pub open spec fn no_undo_from(moves: Seq<Move>, from: int) -> bool {
    forall|i: int| from <= i < moves.len() && 0 < i ==> !undoes(moves[i - 1], #[trigger] moves[i])
}

/// Whether `moves` could follow `last`: it undoes neither `last` with its
/// first move nor any of its own moves with the next.
pub open spec fn may_follow(moves: Seq<Move>, last: Option<Move>) -> bool {
    &&& no_undo_from(moves, 0)
    &&& !(moves.len() > 0 && last is Some && undoes(last->0, moves[0]))
}

/// Whether no sequence of at most `budget` moves that may follow `last`
/// solves the puzzle from `cells` and `robots`.
pub open spec fn unsolvable_within(
    cells: Seq<u8>,
    width: int,
    target: Piece,
    goal: int,
    robots: Seq<usize>,
    last: Option<Move>,
    budget: int,
) -> bool {
    forall|ms: Seq<Move>|
        ms.len() <= budget && may_follow(ms, last) ==> !#[trigger] solves(
            cells,
            width,
            target,
            goal,
            robots,
            ms,
        )
}

/// Position of a move in the order in which the search tries moves.
pub open spec fn branch_index(m: Move) -> int {
    (4 * m.robot_id.spec_index() + m.direction.index()) as int
}

/// Whether no sequence as in `unsolvable_within` whose first move comes
/// before branch `n` solves the puzzle.
pub open spec fn tried_before(
    cells: Seq<u8>,
    width: int,
    target: Piece,
    goal: int,
    robots: Seq<usize>,
    last: Option<Move>,
    budget: int,
    n: int,
) -> bool {
    forall|ms: Seq<Move>|
        ms.len() <= budget && may_follow(ms, last) && ms.len() > 0 && branch_index(ms[0]) < n
            ==> !#[trigger] solves(cells, width, target, goal, robots, ms)
}

/// Every cached placement and last move has no solution within its budget;
/// the cells of a placement are its layout over `base`.
pub open spec fn cache_sound(
    cache: Map<u64, u32>,
    base: Seq<u8>,
    width: int,
    target: Piece,
    goal: int,
) -> bool {
    forall|robots: Seq<usize>, last: Option<Move>|
        placed(robots, base.len() as int) && #[trigger] cache.contains_key(
            cache_key_of(robots, last) as u64,
        ) ==> unsolvable_within(
            layout(base, robots),
            width,
            target,
            goal,
            robots,
            last,
            cache[cache_key_of(robots, last) as u64] as int,
        )
}

/// Recording `key` with budget `rem` after entries changed only up to
/// `rem - 1` grows the cache and leaves `rem` at `key`.
pub proof fn lemma_cache_step(
    before: Map<u64, u32>,
    mid: Map<u64, u32>,
    key: u64,
    rem: int,
)
    requires
        0 <= rem <= u32::MAX,
        cached_budget(before, key) < rem,
        cache_grows(before, mid),
        changes_at_most(before, mid, rem - 1),
    ensures
        cache_grows(before, mid.insert(key, rem as u32)),
        changes_at_most(before, mid.insert(key, rem as u32), rem),
{
    let after = mid.insert(key, rem as u32);
    assert forall|k: u64| #[trigger] before.contains_key(k) implies after.contains_key(k)
        && after[k] >= before[k] by {
        assert(mid.contains_key(k));
    }
    assert forall|k: u64|
        #[trigger] after.contains_key(k) && !(before.contains_key(k) && after[k] == before[k])
            implies after[k] <= rem by {
        if k != key {
            assert(mid.contains_key(k));
        }
    }
}

impl Solver {
    /// Whether the target stands on the goal.
    pub open spec fn target_home(&self) -> bool {
        self.robots@[self.target_robot_id.spec_index() as int] == self.board.goal.position
    }

    /// The cache key of the current positions and last move.
    pub open spec fn key(&self) -> u64 {
        cache_key_of(self.robots@, last_move(self.move_stack@)) as u64
    }

    /// The table entry of the target's cell.
    pub open spec fn target_bound(&self) -> int {
        self.precomputed_target_moves@[self.robots@[self.target_robot_id.spec_index() as int] as int] as int
    }

    /// Whether each wall is recorded on both sides of its edge.
    pub open spec fn walls_ok(&self) -> bool {
        walls_mirrored(self.table_cells@, self.width())
    }

    /// The cache holds only budgets within which nothing was found.
    pub open spec fn cache_ok(&self) -> bool {
        cache_sound(
            self.cache@,
            self.table_cells@,
            self.width(),
            self.target_robot_id,
            self.board.goal.position as int,
        )
    }

    /// Whether no sequence of at most `budget` moves that may follow the top
    /// of the move stack solves the puzzle from the current state.
    pub open spec fn unsolvable_now(&self, budget: int) -> bool {
        unsolvable_within(
            self.cells(),
            self.width(),
            self.target_robot_id,
            self.board.goal.position as int,
            self.robots@,
            last_move(self.move_stack@),
            budget,
        )
    }

    /// The board, goal, target and distance table of `self` are those of `other`.
    pub open spec fn same_problem(&self, other: &Solver) -> bool {
        &&& self.board.width == other.board.width
        &&& self.board.height == other.board.height
        &&& self.board.goal == other.board.goal
        &&& self.board.initial_robots@ == other.board.initial_robots@
        &&& self.target_robot_id == other.target_robot_id
        &&& self.precomputed_target_moves@ == other.precomputed_target_moves@
        &&& self.table_cells@ == other.table_cells@
    }

    /// Whether `self.solution` extends `stack` by a solution of at most
    /// `budget` moves from the cells `cells` and positions `robots`.
    pub open spec fn found_from(
        &self,
        stack: Seq<Move>,
        cells: Seq<u8>,
        robots: Seq<usize>,
        budget: int,
    ) -> bool {
        let sol = self.solution@;
        &&& sol.len() >= stack.len()
        &&& sol.subrange(0, stack.len() as int) == stack
        &&& sol.len() - stack.len() <= budget
        &&& solves(
            cells,
            self.width(),
            self.target_robot_id,
            self.board.goal.position as int,
            robots,
            sol.subrange(stack.len() as int, sol.len() as int),
        )
    }

    /// Depth-bounded search from the current state, `depth` moves below the
    /// start, allowing `max_depth` moves in all. It succeeds at once when the
    /// target is home; otherwise it fails past the depth limit, when the
    /// target's table entry exceeds the remaining budget, or when the cache
    /// already holds at least that budget for this state and last move. Else
    /// it tries every piece and direction in turn and, when none succeeds,
    /// records the budget in the cache. On success `solution` holds the move
    /// stack followed by the moves that finish the puzzle. The state and the
    /// move stack are restored whatever the outcome.
    pub fn dfs(&mut self, depth: u32, max_depth: u32) -> (r: bool)
        requires
            old(self).inv(),
        ensures
            final(self).inv(),
            final(self).same_problem(old(self)),
            final(self).cells() == old(self).cells(),
            final(self).robots@ == old(self).robots@,
            final(self).move_stack@ == old(self).move_stack@,
            old(self).target_home() ==> r && final(self).cache@ == old(self).cache@
                && final(self).solution@ == old(self).move_stack@,
            !old(self).target_home() && depth > max_depth ==> !r && final(self).cache@ == old(
                self,
            ).cache@,
            !old(self).target_home() && depth <= max_depth && old(self).target_bound() > max_depth
                - depth ==> !r && final(self).cache@ == old(self).cache@,
            !old(self).target_home() && depth <= max_depth && old(self).target_bound() <= max_depth
                - depth && cached_budget(old(self).cache@, old(self).key()) >= max_depth - depth
                ==> !r && final(self).cache@ == old(self).cache@,
            !r && !old(self).target_home() && depth <= max_depth && old(self).target_bound()
                <= max_depth - depth && cached_budget(old(self).cache@, old(self).key())
                < max_depth - depth ==> final(self).cache@.contains_key(old(self).key())
                && final(self).cache@[old(self).key()] == max_depth - depth,
            cache_grows(old(self).cache@, final(self).cache@),
            changes_at_most(old(self).cache@, final(self).cache@, max_depth - depth),
            old(self).walls_ok() && old(self).cache_ok() ==> final(self).cache_ok(),
            old(self).walls_ok() && old(self).cache_ok() && !r ==> old(self).unsolvable_now(
                max_depth - depth,
            ),
            r ==> final(self).found_from(
                old(self).move_stack@,
                old(self).cells(),
                old(self).robots@,
                if depth <= max_depth {
                    max_depth - depth
                } else {
                    0
                },
            ),
            r ==> no_undo_from(final(self).solution@, old(self).move_stack@.len() as int),
        decreases max_depth - depth,
    {
        let position = self.robots[self.target_robot_id.index()];
        if position == self.board.goal.position {
            self.solution = copy_moves(&self.move_stack);
            proof {
                let sol = self.solution@;
                assert(sol.subrange(0, sol.len() as int) =~= sol);
                assert(sol.subrange(sol.len() as int, sol.len() as int).len() == 0);
            }
            return true;
        }
        if depth > max_depth {
            return false;
        }
        let remaining = max_depth - depth;
        let best_possible = self.precomputed_target_moves[position];
        if best_possible > remaining {
            proof {
                if self.walls_ok() {
                    assert forall|ms: Seq<Move>|
                        ms.len() <= remaining && may_follow(ms, last_move(self.move_stack@))
                            implies !#[trigger] solves(
                        self.cells(),
                        self.width(),
                        self.target_robot_id,
                        self.board.goal.position as int,
                        self.robots@,
                        ms,
                    ) by {
                        if solves(
                            self.cells(),
                            self.width(),
                            self.target_robot_id,
                            self.board.goal.position as int,
                            self.robots@,
                            ms,
                        ) {
                            lemma_table_below_any_solution(
                                self.table_cells@,
                                self.cells(),
                                self.width(),
                                self.target_robot_id,
                                self.board.goal.position as int,
                                self.precomputed_target_moves@,
                                self.robots@,
                                ms,
                            );
                        }
                    }
                }
            }
            return false;
        }
        let key = self.cache_key();
        let previous_best = match self.cache.get(&key) {
            Some(best) => *best,
            None => 0,
        };
        if previous_best >= remaining {
            proof {
                if self.walls_ok() && self.cache_ok() {
                    let last = last_move(self.move_stack@);
                    assert forall|ms: Seq<Move>|
                        ms.len() <= remaining && may_follow(ms, last) implies !#[trigger] solves(
                        self.cells(),
                        self.width(),
                        self.target_robot_id,
                        self.board.goal.position as int,
                        self.robots@,
                        ms,
                    ) by {
                        if self.cache@.contains_key(key) {
                            assert(self.cache@.contains_key(
                                cache_key_of(self.robots@, last) as u64,
                            ));
                        } else {
                            assert(ms.len() == 0);
                        }
                    }
                }
            }
            return false;
        }
        let ghost start = *self;
        let ghost last = last_move(self.move_stack@);
        let ghost cells = self.cells();
        let ghost w = self.width();
        let ghost target = self.target_robot_id;
        let ghost goal = self.board.goal.position as int;
        let mut p: usize = 0;
        while p < 4
            invariant
                p <= 4,
                depth < max_depth,
                remaining == max_depth - depth,
                start == *old(self),
                !start.target_home(),
                cached_budget(start.cache@, start.key()) < remaining,
                start.target_bound() <= remaining,
                last == last_move(start.move_stack@),
                cells == start.cells(),
                w == start.width(),
                target == start.target_robot_id,
                goal == start.board.goal.position,
                self.inv(),
                self.same_problem(&start),
                self.cells() == start.cells(),
                self.robots@ == start.robots@,
                self.move_stack@ == start.move_stack@,
                cache_grows(start.cache@, self.cache@),
                changes_at_most(start.cache@, self.cache@, remaining - 1),
                start.walls_ok() && start.cache_ok() ==> self.cache_ok(),
                start.walls_ok() && start.cache_ok() ==> tried_before(
                    cells,
                    w,
                    target,
                    goal,
                    start.robots@,
                    last,
                    remaining as int,
                    4 * p,
                ),
            decreases 4 - p,
        {
            let id = Piece::from_index(p);
            let mut q: usize = 0;
            while q < 4
                invariant
                    p < 4,
                    q <= 4,
                    id.spec_index() == p,
                    depth < max_depth,
                    remaining == max_depth - depth,
                    start == *old(self),
                    !start.target_home(),
                    cached_budget(start.cache@, start.key()) < remaining,
                start.target_bound() <= remaining,
                    last == last_move(start.move_stack@),
                    cells == start.cells(),
                    w == start.width(),
                    target == start.target_robot_id,
                    goal == start.board.goal.position,
                    self.inv(),
                    self.same_problem(&start),
                    self.cells() == start.cells(),
                    self.robots@ == start.robots@,
                    self.move_stack@ == start.move_stack@,
                    cache_grows(start.cache@, self.cache@),
                    changes_at_most(start.cache@, self.cache@, remaining - 1),
                    start.walls_ok() && start.cache_ok() ==> self.cache_ok(),
                    start.walls_ok() && start.cache_ok() ==> tried_before(
                        cells,
                        w,
                        target,
                        goal,
                        start.robots@,
                        last,
                        remaining as int,
                        4 * p + q,
                    ),
                decreases 4 - q,
            {
                let direction = Direction::from_index(q);
                let previous_position = self.robots[p];
                let ghost m = Move { robot_id: id, direction };
                let ghost s = previous_position as int;
                let ghost e = slide_end(cells, w, s, direction);
                let ghost cache_before = self.cache@;
                let moved = self.move_robot(id, direction);
                let ghost child_cells = self.cells();
                let ghost child_robots = self.robots@;
                let mut found = false;
                if moved {
                    self.move_stack.push(Move { robot_id: id, direction });
                    found = self.dfs(depth + 1, max_depth);
                    proof {
                        crate::solver::lemma_slide_end_free(cells, w, s, direction);
                        lemma_toggled_walls(cells, s, s, direction);
                        lemma_toggled_walls(toggled(cells, s), e, s, direction);
                        assert(last_move(start.move_stack@.push(m)) == Some(m));
                    }
                    self.undo_move(id, previous_position);
                    self.move_stack.pop();
                    proof {
                        crate::solver::lemma_undo_restores(
                            cells,
                            start.robots@,
                            p as int,
                            e as usize,
                        );
                        crate::solver::lemma_toggles_commute(toggled(toggled(cells, s), e), s, e);
                        assert(self.robots@ =~= start.robots@);
                        assert(self.move_stack@ =~= start.move_stack@);
                        if found {
                            let stack = start.move_stack@;
                            let sol = self.solution@;
                            let k = stack.len() as int;
                            assert(sol.subrange(0, k + 1) == stack.push(m));
                            assert(sol.subrange(0, k) =~= sol.subrange(0, k + 1).subrange(0, k));
                            assert(stack.push(m).subrange(0, k) =~= stack);
                            let suffix = sol.subrange(k, sol.len() as int);
                            assert(suffix[0] == sol.subrange(0, k + 1)[k]);
                            assert(suffix.drop_first() =~= sol.subrange(k + 1, sol.len() as int));
                        }
                    }
                    if found {
                        return true;
                    }
                }
                proof {
                    if start.walls_ok() && start.cache_ok() {
                        assert forall|ms: Seq<Move>|
                            ms.len() <= remaining && may_follow(ms, last) && ms.len() > 0
                                && branch_index(ms[0]) < 4 * p + q + 1 implies !#[trigger] solves(
                            cells,
                            w,
                            target,
                            goal,
                            start.robots@,
                            ms,
                        ) by {
                            if branch_index(ms[0]) == 4 * p + q {
                                assert(ms[0].robot_id == id);
                                assert(ms[0].direction == direction);
                                if moved {
                                    let rest = ms.drop_first();
                                    assert forall|i: int| 0 <= i < rest.len() && 0 < i implies !undoes(
                                        rest[i - 1],
                                        #[trigger] rest[i],
                                    ) by {
                                        assert(ms[i + 1] == rest[i]);
                                    }
                                    if rest.len() > 0 {
                                        assert(ms[1] == rest[0]);
                                    }
                                    assert(may_follow(rest, Some(m)));
                                    assert(!solves(
                                        child_cells,
                                        w,
                                        target,
                                        goal,
                                        child_robots,
                                        rest,
                                    ));
                                }
                            }
                        }
                    }
                }
                q = q + 1;
            }
            p = p + 1;
        }
        proof {
            lemma_cache_step(start.cache@, self.cache@, key, remaining as int);
        }
        self.cache.insert(key, remaining);
        proof {
            if start.walls_ok() && start.cache_ok() {
                assert forall|ms: Seq<Move>|
                    ms.len() <= remaining && may_follow(ms, last) implies !#[trigger] solves(
                    cells,
                    w,
                    target,
                    goal,
                    start.robots@,
                    ms,
                ) by {
                    if ms.len() > 0 {
                        assert(branch_index(ms[0]) < 16);
                    }
                }
                let base = self.table_cells@;
                assert forall|rs: Seq<usize>, l: Option<Move>|
                    placed(rs, base.len() as int) && #[trigger] self.cache@.contains_key(
                        cache_key_of(rs, l) as u64,
                    ) implies unsolvable_within(
                    layout(base, rs),
                    w,
                    target,
                    goal,
                    rs,
                    l,
                    self.cache@[cache_key_of(rs, l) as u64] as int,
                ) by {
                    if cache_key_of(rs, l) as u64 == key {
                        lemma_cache_key_injective(rs, l, start.robots@, last);
                    }
                }
            }
        }
        false
    }

    /// Searches with depth limits 1, 2, ..., `max_depth` in turn and stops at
    /// the first limit that reaches the goal. On success `solution` holds the
    /// moves found; the robots and cells are as they were before the call
    /// either way. With walls recorded on both sides of each edge, it fails
    /// only when no sequence of at most `max_depth` moves solves the puzzle,
    /// and what it finds is a shortest solution.
    pub fn solve(&mut self, max_depth: u8) -> (r: bool)
        requires
            old(self).inv(),
            old(self).move_stack@.len() == 0,
        ensures
            final(self).inv(),
            final(self).same_problem(old(self)),
            final(self).cells() == old(self).cells(),
            final(self).robots@ == old(self).robots@,
            final(self).move_stack@.len() == 0,
            max_depth >= 1 && old(self).target_home() ==> r,
            r ==> final(self).solution@.len() <= max_depth,
            r ==> no_undo_from(final(self).solution@, 0),
            r ==> solves(
                old(self).cells(),
                old(self).width(),
                old(self).target_robot_id,
                old(self).board.goal.position as int,
                old(self).robots@,
                final(self).solution@,
            ),
            !r ==> final(self).solution@.len() == 0,
            walls_mirrored(old(self).cells(), old(self).width()) && !old(self).target_home() && !r
                ==> no_solution_within(
                old(self).cells(),
                old(self).width(),
                old(self).target_robot_id,
                old(self).board.goal.position as int,
                old(self).robots@,
                max_depth as int,
            ),
            walls_mirrored(old(self).cells(), old(self).width()) && r ==> no_solution_within(
                old(self).cells(),
                old(self).width(),
                old(self).target_robot_id,
                old(self).board.goal.position as int,
                old(self).robots@,
                final(self).solution@.len() - 1,
            ),
    {
        self.cache = std::collections::HashMap::new();
        let ghost start = *self;
        let ghost mirrored = walls_mirrored(old(self).cells(), old(self).width());
        proof {
            if mirrored {
                lemma_mirrored_transfer(self.table_cells@, self.cells(), self.width());
            }
            assert(self.cache_ok());
            assert(last_move(self.move_stack@) == None::<Move>);
            if !self.target_home() {
                assert forall|ms: Seq<Move>|
                    ms.len() <= 0 && may_follow(ms, None) implies !#[trigger] solves(
                    self.cells(),
                    self.width(),
                    self.target_robot_id,
                    self.board.goal.position as int,
                    self.robots@,
                    ms,
                ) by {}
            }
        }
        let mut current_max_depth: u32 = 1;
        while current_max_depth <= max_depth as u32
            invariant
                1 <= current_max_depth <= max_depth as u32 + 1,
                start.move_stack@.len() == 0,
                mirrored == walls_mirrored(old(self).cells(), old(self).width()),
                mirrored ==> start.walls_ok(),
                max_depth >= 1 && old(self).target_home() ==> current_max_depth == 1,
                self.inv(),
                self.same_problem(&start),
                start.same_problem(old(self)),
                start.cells() == old(self).cells(),
                start.robots@ == old(self).robots@,
                start.move_stack@ == old(self).move_stack@,
                self.cells() == start.cells(),
                self.robots@ == start.robots@,
                self.move_stack@.len() == 0,
                mirrored ==> self.cache_ok(),
                mirrored && !old(self).target_home() ==> start.unsolvable_now(
                    current_max_depth - 1,
                ),
            decreases max_depth as u32 + 1 - current_max_depth,
        {
            proof {
                assert(self.move_stack@ =~= start.move_stack@);
            }
            if self.dfs(0, current_max_depth) {
                proof {
                    let sol = self.solution@;
                    assert(sol.subrange(0, sol.len() as int) =~= sol);
                    if mirrored && !old(self).target_home() {
                        assert forall|ms: Seq<Move>|
                            ms.len() <= sol.len() - 1 && may_follow(ms, None) implies !#[trigger] solves(
                            old(self).cells(),
                            old(self).width(),
                            old(self).target_robot_id,
                            old(self).board.goal.position as int,
                            old(self).robots@,
                            ms,
                        ) by {
                            assert(ms.len() <= current_max_depth - 1);
                        }
                        lemma_no_solution_within(
                            old(self).cells(),
                            old(self).width(),
                            old(self).target_robot_id,
                            old(self).board.goal.position as int,
                            old(self).robots@,
                            sol.len() - 1,
                        );
                    }
                }
                return true;
            }
            current_max_depth = current_max_depth + 1;
        }
        self.solution = Vec::new();
        proof {
            if mirrored && !old(self).target_home() {
                lemma_no_solution_within(
                    old(self).cells(),
                    old(self).width(),
                    old(self).target_robot_id,
                    old(self).board.goal.position as int,
                    old(self).robots@,
                    max_depth as int,
                );
            }
        }
        false
    }

    /// The moves found by the last successful `solve`.
    pub fn moves(&self) -> (r: &Vec<Move>)
        ensures
            r@ == self.solution@,
    {
        &self.solution
    }
}

} // verus!
