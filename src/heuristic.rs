//! The admissible distance table: for each cell, how many straight runs the
//! target needs to reach the goal when no robot is in the way.
use vstd::prelude::*;

use crate::grid::{
    has_neighbor, lemma_step_in_grid, neighbor, occupied_at, open_toward, run_measure, slide_end,
    toggled, wall_at, reverse, Board, Direction, Move, Piece,
};
use crate::search::solves;
use crate::solver::{lemma_slide_end_free, lemma_toggled_walls, Solver};

verus! {

/// Table entry of a cell from which the goal cannot be reached.
pub const UNREACHABLE: u32 = 0xFFFF_FFFF;

/// Whether `to` lies beyond `from` toward `d` with no wall on the way: a run
/// from `from` toward `d` may stop on `to`.
pub open spec fn in_run(cells: Seq<u8>, width: int, from: int, d: Direction, to: int) -> bool
    decreases run_measure(cells.len() as int, from, d),
    when 0 <= from < cells.len()
{
    if open_toward(cells, width, from, d) {
        proof {
            lemma_step_in_grid(cells, width, from, d);
        }
        neighbor(width, from, d) == to || in_run(cells, width, neighbor(width, from, d), d, to)
    } else {
        false
    }
}

/// Whether at most `k` runs lead out from `goal` to `c`, each stopping
/// anywhere along its way.
pub open spec fn within_runs(cells: Seq<u8>, width: int, goal: int, c: int, k: nat) -> bool
    decreases k,
{
    c == goal || (k > 0 && exists|x: int, d: Direction|
        0 <= x < cells.len() && #[trigger] in_run(cells, width, x, d, c) && within_runs(
            cells,
            width,
            goal,
            x,
            (k - 1) as nat,
        ))
}

/// The table is closed under runs: every cell that a run from a reachable
/// cell `x` can stop on is at most one more than `x`.
pub open spec fn closed_under_runs(cells: Seq<u8>, width: int, best: Seq<u32>) -> bool {
    forall|x: int, d: Direction, c: int|
        0 <= x < cells.len() && 0 <= c < cells.len() && best[x] < UNREACHABLE && #[trigger] in_run(
            cells,
            width,
            x,
            d,
            c,
        )
            ==> best[c] <= best[x] + 1
}

/// Each entry is the least number of runs from the goal to the cell, or
/// `UNREACHABLE` when no number below it will do.
pub open spec fn is_run_distance(cells: Seq<u8>, width: int, goal: int, best: Seq<u32>) -> bool {
    &&& best.len() == cells.len()
    &&& forall|c: int, k: nat|
        0 <= c < cells.len() && #[trigger] within_runs(cells, width, goal, c, k) ==> best[c] <= k
    &&& forall|c: int|
        0 <= c < cells.len() && best[c] < UNREACHABLE ==> within_runs(
            cells,
            width,
            goal,
            c,
            best[c] as nat,
        )
}

/// Sum of the entries of a table.
pub open spec fn total(s: Seq<u32>) -> nat
    decreases s.len(),
{
    if s.len() == 0 {
        0
    } else {
        total(s.drop_last()) + s.last() as nat
    }
}

pub proof fn lemma_total_update(s: Seq<u32>, i: int, v: u32)
    requires
        0 <= i < s.len(),
    ensures
        total(s.update(i, v)) == total(s) - s[i] + v,
    decreases s.len(),
{
    if i == s.len() - 1 {
        assert(s.update(i, v).drop_last() =~= s.drop_last());
    } else {
        assert(s.update(i, v).drop_last() =~= s.drop_last().update(i, v));
        lemma_total_update(s.drop_last(), i, v);
    }
}

/// A run that reaches `to` goes on to the next cell when `to` is open.
pub proof fn lemma_run_extends(cells: Seq<u8>, width: int, from: int, d: Direction, to: int)
    requires
        0 <= from < cells.len(),
        in_run(cells, width, from, d, to),
        open_toward(cells, width, to, d),
    ensures
        in_run(cells, width, from, d, neighbor(width, to, d)),
    decreases run_measure(cells.len() as int, from, d),
{
    lemma_step_in_grid(cells, width, from, d);
    let next = neighbor(width, from, d);
    if next != to {
        lemma_run_extends(cells, width, next, d, to);
    } else {
        lemma_step_in_grid(cells, width, to, d);
        assert(in_run(cells, width, to, d, neighbor(width, to, d)));
    }
}

/// In a table closed under runs, no cell is more than `k` when `k` runs lead
/// to it from the goal.
pub proof fn lemma_closed_is_lower_bound(
    cells: Seq<u8>,
    width: int,
    goal: int,
    best: Seq<u32>,
    c: int,
    k: nat,
)
    requires
        best.len() == cells.len(),
        0 <= goal < cells.len(),
        best[goal] == 0,
        closed_under_runs(cells, width, best),
        0 <= c < cells.len(),
        within_runs(cells, width, goal, c, k),
    ensures
        best[c] <= k,
    decreases k,
{
    if c != goal {
        let (x, d) = choose|x: int, d: Direction|
            0 <= x < cells.len() && #[trigger] in_run(cells, width, x, d, c) && within_runs(
                cells,
                width,
                goal,
                x,
                (k - 1) as nat,
            );
        lemma_closed_is_lower_bound(cells, width, goal, best, x, (k - 1) as nat);
    }
}

/// Every wall is seen from both sides: a cell has a wall toward `d` exactly
/// when its neighbour toward `d` has one toward the opposite side.
pub open spec fn walls_mirrored(cells: Seq<u8>, width: int) -> bool {
    forall|p: int, d: Direction|
        0 <= p < cells.len() && #[trigger] has_neighbor(width, cells.len() as int, p, d) ==> (
        wall_at(cells, p, d) <==> wall_at(cells, neighbor(width, p, d), d.opposite()))
}

impl Board {
    /// Checks `walls_mirrored` on the board's cells.
    pub fn walls_are_mirrored(&self) -> (r: bool)
        requires
            self.shaped(),
        ensures
            r == walls_mirrored(self.tiles@, self.width as int),
    {
        let n = self.tiles.len();
        let ghost cells = self.tiles@;
        let ghost w = self.width as int;
        let mut p: usize = 0;
        while p < n
            invariant
                p <= n,
                n == cells.len(),
                self.shaped(),
                self.tiles@ == cells,
                self.width == w,
                forall|q: int, d: Direction|
                    0 <= q < p && #[trigger] has_neighbor(w, n as int, q, d) ==> (wall_at(
                        cells,
                        q,
                        d,
                    ) <==> wall_at(cells, neighbor(w, q, d), d.opposite())),
            decreases n - p,
        {
            let mut k: usize = 0;
            while k < 4
                invariant
                    p < n,
                    k <= 4,
                    n == cells.len(),
                    self.shaped(),
                    self.tiles@ == cells,
                    self.width == w,
                    forall|q: int, d: Direction|
                        0 <= q < p && #[trigger] has_neighbor(w, n as int, q, d) ==> (wall_at(
                            cells,
                            q,
                            d,
                        ) <==> wall_at(cells, neighbor(w, q, d), d.opposite())),
                    forall|d: Direction|
                        d.index() < k && #[trigger] has_neighbor(w, n as int, p as int, d) ==> (
                        wall_at(cells, p as int, d) <==> wall_at(
                            cells,
                            neighbor(w, p as int, d),
                            d.opposite(),
                        )),
                decreases 4 - k,
            {
                let d = Direction::from_index(k);
                proof {
                    assert forall|e: Direction| e.index() == k implies e == d by {}
                }
                match self.neighbor_cell(p, d) {
                    None => {},
                    Some(next) => {
                        proof {
                            lemma_step_in_grid(cells, w, p as int, d);
                        }
                        if self.has_wall(p, d) != self.has_wall(next, reverse(d)) {
                            proof {
                                assert(has_neighbor(w, n as int, p as int, d));
                                assert(!(wall_at(cells, p as int, d) <==> wall_at(
                                    cells,
                                    neighbor(w, p as int, d),
                                    d.opposite(),
                                )));
                            }
                            return false;
                        }
                    },
                }
                k = k + 1;
            }
            p = p + 1;
        }
        true
    }
}

/// The two cell sequences have the same length and the same walls; they may
/// differ in occupancy.
pub open spec fn same_walls(a: Seq<u8>, b: Seq<u8>) -> bool {
    &&& a.len() == b.len()
    &&& forall|p: int, d: Direction|
        0 <= p < a.len() ==> #[trigger] wall_at(a, p, d) == wall_at(b, p, d)
}

/// Mirrored walls stay mirrored in cells with the same walls.
pub proof fn lemma_mirrored_transfer(a: Seq<u8>, b: Seq<u8>, width: int)
    requires
        same_walls(a, b),
        walls_mirrored(b, width),
        width > 0,
    ensures
        walls_mirrored(a, width),
{
    assert forall|p: int, d: Direction|
        0 <= p < a.len() && #[trigger] has_neighbor(width, a.len() as int, p, d) implies (wall_at(
        a,
        p,
        d,
    ) <==> wall_at(a, neighbor(width, p, d), d.opposite())) by {
        lemma_step_in_grid(b, width, p, d);
        assert(wall_at(a, p, d) == wall_at(b, p, d));
        assert(wall_at(a, neighbor(width, p, d), d.opposite()) == wall_at(
            b,
            neighbor(width, p, d),
            d.opposite(),
        ));
    }
}

/// Whether a robot on `c` can reach `goal` with at most `k` runs, each one
/// stopping anywhere along its way, whatever stands in the way.
pub open spec fn reaches_in_runs(cells: Seq<u8>, width: int, c: int, goal: int, k: nat) -> bool
    decreases k,
{
    c == goal || (k > 0 && exists|d: Direction, e: int|
        #[trigger] in_run(cells, width, c, d, e) && reaches_in_runs(
            cells,
            width,
            e,
            goal,
            (k - 1) as nat,
        ))
}

pub proof fn lemma_run_in_grid(cells: Seq<u8>, width: int, from: int, d: Direction, to: int)
    requires
        0 <= from < cells.len(),
        in_run(cells, width, from, d, to),
    ensures
        0 <= to < cells.len(),
    decreases run_measure(cells.len() as int, from, d),
{
    lemma_step_in_grid(cells, width, from, d);
    let next = neighbor(width, from, d);
    if next != to {
        lemma_run_in_grid(cells, width, next, d, to);
    }
}

/// A step toward `d` can be walked back toward the opposite side.
pub proof fn lemma_step_back(cells: Seq<u8>, width: int, p: int, d: Direction)
    requires
        walls_mirrored(cells, width),
        open_toward(cells, width, p, d),
    ensures
        open_toward(cells, width, neighbor(width, p, d), d.opposite()),
        neighbor(width, neighbor(width, p, d), d.opposite()) == p,
{
    lemma_step_in_grid(cells, width, p, d);
    assert(has_neighbor(width, cells.len() as int, p, d));
    let q = p / width;
    let r = p % width;
    vstd::arithmetic::div_mod::lemma_fundamental_div_mod(p, width);
    vstd::arithmetic::div_mod::lemma_mod_pos_bound(p, width);
    if d == Direction::Left {
        assert(p - 1 == q * width + (r - 1));
        vstd::arithmetic::div_mod::lemma_fundamental_div_mod_converse(p - 1, width, q, r - 1);
    }
    if d == Direction::Right {
        assert(p + 1 == q * width + (r + 1));
        vstd::arithmetic::div_mod::lemma_fundamental_div_mod_converse(p + 1, width, q, r + 1);
    }
}

/// With mirrored walls, a run from `from` to `to` can be run back.
pub proof fn lemma_run_reverses(cells: Seq<u8>, width: int, from: int, d: Direction, to: int)
    requires
        walls_mirrored(cells, width),
        0 <= from < cells.len(),
        in_run(cells, width, from, d, to),
    ensures
        in_run(cells, width, to, d.opposite(), from),
    decreases run_measure(cells.len() as int, from, d),
{
    lemma_step_in_grid(cells, width, from, d);
    lemma_step_back(cells, width, from, d);
    let next = neighbor(width, from, d);
    lemma_step_in_grid(cells, width, next, d.opposite());
    if next == to {
        assert(in_run(cells, width, to, d.opposite(), from));
    } else {
        lemma_run_reverses(cells, width, next, d, to);
        lemma_run_in_grid(cells, width, next, d, to);
        lemma_run_extends(cells, width, to, d.opposite(), next);
    }
}

/// Runs look at walls only.
pub proof fn lemma_run_same_walls(
    a: Seq<u8>,
    b: Seq<u8>,
    width: int,
    from: int,
    d: Direction,
    to: int,
)
    requires
        same_walls(a, b),
        0 <= from < a.len(),
    ensures
        in_run(a, width, from, d, to) == in_run(b, width, from, d, to),
    decreases run_measure(a.len() as int, from, d),
{
    assert(wall_at(a, from, d) == wall_at(b, from, d));
    if open_toward(a, width, from, d) {
        lemma_step_in_grid(a, width, from, d);
        lemma_run_same_walls(a, b, width, neighbor(width, from, d), d, to);
    }
}

/// A slide that moves its robot is a run.
pub proof fn lemma_slide_is_run(cells: Seq<u8>, width: int, p: int, d: Direction)
    requires
        0 <= p < cells.len(),
        slide_end(cells, width, p, d) != p,
    ensures
        in_run(cells, width, p, d, slide_end(cells, width, p, d)),
    decreases run_measure(cells.len() as int, p, d),
{
    lemma_step_in_grid(cells, width, p, d);
    let next = neighbor(width, p, d);
    if slide_end(cells, width, next, d) != next {
        lemma_slide_is_run(cells, width, next, d);
    }
}

pub proof fn lemma_reaches_more_runs(cells: Seq<u8>, width: int, c: int, goal: int, k: nat)
    requires
        reaches_in_runs(cells, width, c, goal, k),
    ensures
        reaches_in_runs(cells, width, c, goal, k + 1),
    decreases k,
{
    if c != goal {
        let (d, e) = choose|d: Direction, e: int|
            #[trigger] in_run(cells, width, c, d, e) && reaches_in_runs(
                cells,
                width,
                e,
                goal,
                (k - 1) as nat,
            );
        lemma_reaches_more_runs(cells, width, e, goal, (k - 1) as nat);
    }
}

/// With mirrored walls, the table never overestimates: a robot on `c` that
/// can reach the goal in `k` runs has a table entry of at most `k`.
pub proof fn lemma_table_admissible(
    cells: Seq<u8>,
    width: int,
    goal: int,
    best: Seq<u32>,
    c: int,
    k: nat,
)
    requires
        is_run_distance(cells, width, goal, best),
        walls_mirrored(cells, width),
        0 <= c < cells.len(),
        reaches_in_runs(cells, width, c, goal, k),
    ensures
        best[c] <= k,
{
    lemma_reaches_within(cells, width, goal, c, k);
}

pub proof fn lemma_reaches_within(cells: Seq<u8>, width: int, goal: int, c: int, k: nat)
    requires
        walls_mirrored(cells, width),
        0 <= c < cells.len(),
        reaches_in_runs(cells, width, c, goal, k),
    ensures
        within_runs(cells, width, goal, c, k),
    decreases k,
{
    if c != goal {
        let (d, e) = choose|d: Direction, e: int|
            #[trigger] in_run(cells, width, c, d, e) && reaches_in_runs(
                cells,
                width,
                e,
                goal,
                (k - 1) as nat,
            );
        lemma_run_in_grid(cells, width, c, d, e);
        lemma_reaches_within(cells, width, goal, e, (k - 1) as nat);
        lemma_run_reverses(cells, width, c, d, e);
        assert(in_run(cells, width, e, d.opposite(), c));
    }
}

/// The target needs at least as many moves as its table entry: with mirrored
/// walls, every solution from cells with the table's walls is at least as long
/// as the entry of the target's cell.
pub proof fn lemma_table_below_any_solution(
    table_cells: Seq<u8>,
    cells: Seq<u8>,
    width: int,
    target: Piece,
    goal: int,
    best: Seq<u32>,
    robots: Seq<usize>,
    moves: Seq<Move>,
)
    requires
        is_run_distance(table_cells, width, goal, best),
        walls_mirrored(table_cells, width),
        same_walls(table_cells, cells),
        cells.len() <= usize::MAX,
        robots.len() == 4,
        forall|i: int| 0 <= i < 4 ==> robots[i] < cells.len(),
        solves(cells, width, target, goal, robots, moves),
    ensures
        best[robots[target.spec_index() as int] as int] <= moves.len(),
{
    lemma_solution_reaches(table_cells, cells, width, target, goal, robots, moves);
    lemma_table_admissible(
        table_cells,
        width,
        goal,
        best,
        robots[target.spec_index() as int] as int,
        moves.len(),
    );
}

pub proof fn lemma_solution_reaches(
    table_cells: Seq<u8>,
    cells: Seq<u8>,
    width: int,
    target: Piece,
    goal: int,
    robots: Seq<usize>,
    moves: Seq<Move>,
)
    requires
        same_walls(table_cells, cells),
        cells.len() <= usize::MAX,
        robots.len() == 4,
        forall|i: int| 0 <= i < 4 ==> robots[i] < cells.len(),
        solves(cells, width, target, goal, robots, moves),
    ensures
        reaches_in_runs(
            table_cells,
            width,
            robots[target.spec_index() as int] as int,
            goal,
            moves.len(),
        ),
    decreases moves.len(),
{
    if moves.len() > 0 {
        let m = moves[0];
        let i = m.robot_id.spec_index() as int;
        let s = robots[i] as int;
        let e = slide_end(cells, width, s, m.direction);
        lemma_slide_end_free(cells, width, s, m.direction);
        let next_cells = toggled(toggled(cells, s), e);
        let next_robots = robots.update(i, e as usize);
        assert forall|p: int, d: Direction| 0 <= p < table_cells.len() implies #[trigger] wall_at(
            table_cells,
            p,
            d,
        ) == wall_at(next_cells, p, d) by {
            lemma_toggled_walls(cells, s, p, d);
            lemma_toggled_walls(toggled(cells, s), e, p, d);
        }
        lemma_solution_reaches(
            table_cells,
            next_cells,
            width,
            target,
            goal,
            next_robots,
            moves.drop_first(),
        );
        let t = target.spec_index() as int;
        let k = (moves.len() - 1) as nat;
        if i == t {
            assert(next_robots[t] as int == e);
            lemma_slide_is_run(cells, width, s, m.direction);
            lemma_run_same_walls(table_cells, cells, width, s, m.direction, e);
            assert(in_run(table_cells, width, s, m.direction, e));
            assert(reaches_in_runs(table_cells, width, e, goal, k));
        } else {
            assert(next_robots[t] == robots[t]);
            lemma_reaches_more_runs(table_cells, width, robots[t] as int, goal, k);
        }
    }
}

impl Solver {
    /// Fills `precomputed_target_moves` with the run distance of every cell to
    /// the goal, ignoring robots: a lower bound on the moves the target needs.
    pub fn precompute_target_moves(&mut self)
        requires
            old(self).board.shaped(),
            old(self).board.goal.position < old(self).cells().len(),
        ensures
            is_run_distance(
                final(self).cells(),
                final(self).width(),
                final(self).board.goal.position as int,
                final(self).precomputed_target_moves@,
            ),
            final(self).table_cells@ == final(self).cells(),
            final(self).board == old(self).board,
            final(self).robots == old(self).robots,
            final(self).target_robot_id == old(self).target_robot_id,
            final(self).cache == old(self).cache,
            final(self).move_stack == old(self).move_stack,
            final(self).solution == old(self).solution,
    {
        let n = self.board.tiles.len();
        let goal = self.board.goal.position;
        let ghost cells = self.cells();
        let ghost w = self.width();
        let mut optimal_moves: Vec<u32> = Vec::with_capacity(n);
        let mut active_cells: Vec<bool> = Vec::with_capacity(n);
        let mut i: usize = 0;
        while i < n
            invariant
                i <= n,
                n == cells.len(),
                optimal_moves@.len() == i,
                active_cells@.len() == i,
                forall|j: int| 0 <= j < i ==> optimal_moves@[j] == UNREACHABLE,
                forall|j: int| 0 <= j < i ==> !active_cells@[j],
            decreases n - i,
        {
            optimal_moves.push(UNREACHABLE);
            active_cells.push(false);
            i = i + 1;
        }
        optimal_moves.set(goal, 0);
        active_cells.set(goal, true);
        loop
            invariant
                self.board.shaped(),
                self.cells() == cells,
                self.width() == w,
                n == cells.len(),
                goal < n,
                goal == self.board.goal.position,
                optimal_moves@.len() == n,
                active_cells@.len() == n,
                optimal_moves@[goal as int] == 0,
                forall|j: int| 0 <= j < n && active_cells@[j] ==> optimal_moves@[j] < UNREACHABLE,
                forall|x: int, d: Direction, c: int|
                    0 <= x < n && 0 <= c < n && !active_cells@[x] && optimal_moves@[x] < UNREACHABLE
                        && #[trigger] in_run(cells, w, x, d, c) ==> optimal_moves@[c]
                        <= optimal_moves@[x] + 1,
                forall|c: int|
                    0 <= c < n && optimal_moves@[c] < UNREACHABLE ==> within_runs(
                        cells,
                        w,
                        goal as int,
                        c,
                        optimal_moves@[c] as nat,
                    ),
            ensures
                optimal_moves@.len() == n,
                optimal_moves@[goal as int] == 0,
                closed_under_runs(cells, w, optimal_moves@),
                forall|c: int|
                    0 <= c < n && optimal_moves@[c] < UNREACHABLE ==> within_runs(
                        cells,
                        w,
                        goal as int,
                        c,
                        optimal_moves@[c] as nat,
                    ),
            decreases total(optimal_moves@),
        {
            let ghost total0 = total(optimal_moves@);
            let mut done = true;
            let mut idx: usize = 0;
            while idx < n
                invariant
                    self.board.shaped(),
                    self.cells() == cells,
                    self.width() == w,
                    n == cells.len(),
                    goal < n,
                    idx <= n,
                    optimal_moves@.len() == n,
                    active_cells@.len() == n,
                    optimal_moves@[goal as int] == 0,
                    forall|j: int|
                        0 <= j < n && active_cells@[j] ==> optimal_moves@[j] < UNREACHABLE,
                    forall|x: int, d: Direction, c: int|
                        0 <= x < n && 0 <= c < n && !active_cells@[x] && optimal_moves@[x] < UNREACHABLE
                            && #[trigger] in_run(cells, w, x, d, c) ==> optimal_moves@[c]
                            <= optimal_moves@[x] + 1,
                    forall|c: int|
                        0 <= c < n && optimal_moves@[c] < UNREACHABLE ==> within_runs(
                            cells,
                            w,
                            goal as int,
                            c,
                            optimal_moves@[c] as nat,
                        ),
                    done ==> forall|j: int| 0 <= j < idx ==> !active_cells@[j],
                    total(optimal_moves@) <= total0,
                    !done ==> total(optimal_moves@) < total0,
                decreases n - idx,
            {
                if active_cells[idx] {
                    active_cells.set(idx, false);
                    let b0 = optimal_moves[idx];
                    let score = b0 + 1;
                    let mut k: usize = 0;
                    while k < 4
                        invariant
                            self.board.shaped(),
                            self.cells() == cells,
                            self.width() == w,
                            n == cells.len(),
                            goal < n,
                            idx < n,
                            k <= 4,
                            b0 < UNREACHABLE,
                            score == b0 + 1,
                            within_runs(cells, w, goal as int, idx as int, b0 as nat),
                            optimal_moves@.len() == n,
                            active_cells@.len() == n,
                            optimal_moves@[goal as int] == 0,
                            forall|j: int|
                                0 <= j < n && active_cells@[j] ==> optimal_moves@[j] < UNREACHABLE,
                            forall|x: int, d: Direction, c: int|
                                0 <= x < n && 0 <= c < n && x != idx && !active_cells@[x] && optimal_moves@[x]
                                    < UNREACHABLE && #[trigger] in_run(cells, w, x, d, c)
                                    ==> optimal_moves@[c] <= optimal_moves@[x] + 1,
                            !active_cells@[idx as int] ==> optimal_moves@[idx as int] == b0,
                            forall|d: Direction, c: int|
                                0 <= c < n && d.index() < k && #[trigger] in_run(cells, w, idx as int, d, c)
                                    ==> optimal_moves@[c] <= score,
                            forall|c: int|
                                0 <= c < n && optimal_moves@[c] < UNREACHABLE ==> within_runs(
                                    cells,
                                    w,
                                    goal as int,
                                    c,
                                    optimal_moves@[c] as nat,
                                ),
                            done ==> forall|j: int| 0 <= j <= idx ==> !active_cells@[j],
                            total(optimal_moves@) <= total0,
                            !done ==> total(optimal_moves@) < total0,
                        decreases 4 - k,
                    {
                        let dir = Direction::from_index(k);
                        let mut current_tile = idx;
                        let mut stepping = true;
                        while stepping
                            invariant
                                !stepping ==> !open_toward(cells, w, current_tile as int, dir),
                                self.board.shaped(),
                                self.cells() == cells,
                                self.width() == w,
                                n == cells.len(),
                                goal < n,
                                idx < n,
                                current_tile < n,
                                k < 4,
                                dir.index() == k,
                                b0 < UNREACHABLE,
                                score == b0 + 1,
                                within_runs(cells, w, goal as int, idx as int, b0 as nat),
                                current_tile == idx || in_run(
                                    cells,
                                    w,
                                    idx as int,
                                    dir,
                                    current_tile as int,
                                ),
                                optimal_moves@.len() == n,
                                active_cells@.len() == n,
                                optimal_moves@[goal as int] == 0,
                                forall|j: int|
                                    0 <= j < n && active_cells@[j] ==> optimal_moves@[j]
                                        < UNREACHABLE,
                                forall|x: int, d: Direction, c: int|
                                    0 <= x < n && 0 <= c < n && x != idx && !active_cells@[x]
                                        && optimal_moves@[x] < UNREACHABLE && #[trigger] in_run(
                                        cells,
                                        w,
                                        x,
                                        d,
                                        c,
                                    ) ==> optimal_moves@[c] <= optimal_moves@[x] + 1,
                                !active_cells@[idx as int] ==> optimal_moves@[idx as int] == b0,
                                forall|d: Direction, c: int|
                                    0 <= c < n && d.index() < k && #[trigger] in_run(
                                        cells,
                                        w,
                                        idx as int,
                                        d,
                                        c,
                                    ) ==> optimal_moves@[c] <= score,
                                forall|c: int|
                                    0 <= c < n && #[trigger] in_run(cells, w, idx as int, dir, c)
                                        ==> (
                                    optimal_moves@[c] <= score || in_run(
                                        cells,
                                        w,
                                        current_tile as int,
                                        dir,
                                        c,
                                    )),
                                forall|c: int|
                                    0 <= c < n && optimal_moves@[c] < UNREACHABLE ==> within_runs(
                                        cells,
                                        w,
                                        goal as int,
                                        c,
                                        optimal_moves@[c] as nat,
                                    ),
                                done ==> forall|j: int| 0 <= j <= idx ==> !active_cells@[j],
                                total(optimal_moves@) <= total0,
                                !done ==> total(optimal_moves@) < total0,
                            decreases run_measure(n as int, current_tile as int, dir) + if stepping {
                                1int
                            } else {
                                0
                            },
                        {
                            match self.board.next_open(current_tile, dir) {
                                None => {
                                    stepping = false;
                                },
                                Some(next) => {
                                    proof {
                                        lemma_step_in_grid(cells, w, current_tile as int, dir);
                                        if current_tile == idx {
                                            assert(in_run(cells, w, idx as int, dir, next as int));
                                        } else {
                                            lemma_run_extends(
                                                cells,
                                                w,
                                                idx as int,
                                                dir,
                                                current_tile as int,
                                            );
                                        }
                                    }
                                    current_tile = next;
                                    if score < optimal_moves[current_tile] {
                                        proof {
                                            lemma_total_update(
                                                optimal_moves@,
                                                current_tile as int,
                                                score,
                                            );
                                        }
                                        optimal_moves.set(current_tile, score);
                                        active_cells.set(current_tile, true);
                                        done = false;
                                    }
                                },
                            }
                        }
                        k = k + 1;
                    }
                }
                idx = idx + 1;
            }
            if done {
                break ;
            }
        }
        proof {
            assert forall|c: int, k: nat|
                0 <= c < n && #[trigger] within_runs(
                    cells,
                    w,
                    goal as int,
                    c,
                    k,
                ) implies optimal_moves@[c] <= k by {
                lemma_closed_is_lower_bound(cells, w, goal as int, optimal_moves@, c, k);
            }
        }
        self.precomputed_target_moves = optimal_moves;
        self.table_cells = Ghost(cells);
    }
}

} // verus!
