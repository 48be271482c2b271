//! The live search state: robot positions, occupancy bits, the move stack, and
//! the moves that change them.
use std::collections::HashMap;
use vstd::prelude::*;

use crate::grid::{
    lemma_step_in_grid, neighbor, occupied_at, open_toward, reverse, run_measure, slide_end,
    toggled, wall_at, Board, Direction, Move, Piece, Robot, MAX_CELLS, ROBOT,
};
use crate::heuristic::{is_run_distance, same_walls};

verus! {

/// Whether one of the four robots in `robots` stands on `p`.
pub open spec fn robot_on(robots: Seq<usize>, p: int) -> bool {
    robots[0] == p || robots[1] == p || robots[2] == p || robots[3] == p
}

/// Four robots on distinct cells of a grid of `n` cells.
pub open spec fn placed(robots: Seq<usize>, n: int) -> bool {
    &&& robots.len() == 4
    &&& forall|i: int| 0 <= i < 4 ==> robots[i] < n
    &&& forall|i: int, j: int| 0 <= i < 4 && 0 <= j < 4 && i != j ==> robots[i] != robots[j]
}

/// The occupancy bit of each cell is set exactly where a robot stands.
pub open spec fn in_sync(cells: Seq<u8>, robots: Seq<usize>) -> bool {
    forall|p: int| 0 <= p < cells.len() ==> (occupied_at(cells, p) <==> robot_on(robots, p))
}

/// Whether one of the initial robots `starts` stands on `p`.
pub open spec fn starts_on(starts: Seq<Robot>, p: int) -> bool {
    exists|j: int| 0 <= j < 4 && starts[j].position == p
}

impl Board {
    /// What a session needs of a board: its shape, a goal on the grid, the four
    /// robots on distinct cells of the grid, one of each piece, and no
    /// occupancy bit but under a robot.
    pub open spec fn valid(&self) -> bool {
        &&& self.shaped()
        &&& self.goal.position < self.tiles@.len()
        &&& self.initial_robots@.len() == 4
        &&& forall|i: int|
            0 <= i < 4 ==> #[trigger] self.initial_robots@[i].position < self.tiles@.len()
        &&& forall|i: int, j: int|
            0 <= i < 4 && 0 <= j < 4 && i != j ==> self.initial_robots@[i].id
                != self.initial_robots@[j].id && self.initial_robots@[i].position
                != self.initial_robots@[j].position
        &&& forall|p: int|
            0 <= p < self.tiles@.len() && occupied_at(self.tiles@, p) ==> starts_on(
                self.initial_robots@,
                p,
            )
    }

    /// Checks `valid`, for callers that build boards from outside input.
    pub fn is_valid(&self) -> (r: bool)
        ensures
            r == self.valid(),
    {
        let n = self.tiles.len();
        if self.width == 0 || self.height == 0 || n > MAX_CELLS {
            return false;
        }
        if self.width > n || self.height > n {
            proof {
                if self.shaped() {
                    self.lemma_width_fits();
                    let w = self.width as int;
                    let h = self.height as int;
                    assert(h <= w * h) by (nonlinear_arith)
                        requires
                            w >= 1,
                            h >= 0,
                    ;
                }
            }
            return false;
        }
        proof {
            let w = self.width as int;
            let h = self.height as int;
            assert(w * h <= 256 * 256) by (nonlinear_arith)
                requires
                    0 <= w <= 256,
                    0 <= h <= 256,
            ;
        }
        if self.width * self.height != n {
            return false;
        }
        if self.goal.position >= n || self.initial_robots.len() != 4 {
            return false;
        }
        let mut i: usize = 0;
        while i < 4
            invariant
                i <= 4,
                n == self.tiles@.len(),
                self.initial_robots@.len() == 4,
                forall|a: int| 0 <= a < i ==> #[trigger] self.initial_robots@[a].position < n,
                forall|a: int, b: int|
                    0 <= a < i && 0 <= b < 4 && a != b ==> self.initial_robots@[a].id
                        != self.initial_robots@[b].id && self.initial_robots@[a].position
                        != self.initial_robots@[b].position,
            decreases 4 - i,
        {
            let a = self.initial_robots[i];
            if a.position >= n {
                return false;
            }
            let mut j: usize = 0;
            while j < 4
                invariant
                    i < 4,
                    j <= 4,
                    self.initial_robots@.len() == 4,
                    a == self.initial_robots@[i as int],
                    forall|b: int|
                        0 <= b < j && b != i ==> a.id != self.initial_robots@[b].id
                            && a.position != self.initial_robots@[b].position,
                decreases 4 - j,
            {
                let b = self.initial_robots[j];
                if j != i && (a.id == b.id || a.position == b.position) {
                    return false;
                }
                j = j + 1;
            }
            i = i + 1;
        }
        let mut p: usize = 0;
        while p < n
            invariant
                p <= n,
                n == self.tiles@.len(),
                self.initial_robots@.len() == 4,
                forall|q: int|
                    0 <= q < p && occupied_at(self.tiles@, q) ==> starts_on(
                        self.initial_robots@,
                        q,
                    ),
            decreases n - p,
        {
            if self.has_robot(p) {
                let mut k: usize = 0;
                let mut found = false;
                while k < 4
                    invariant
                        k <= 4,
                        self.initial_robots@.len() == 4,
                        found == exists|j: int| 0 <= j < k && self.initial_robots@[j].position == p,
                    decreases 4 - k,
                {
                    if self.initial_robots[k].position == p {
                        found = true;
                    }
                    k = k + 1;
                }
                if !found {
                    return false;
                }
            }
            p = p + 1;
        }
        true
    }
}

/// Whether piece number `k` is among the initial robots `starts`.
pub open spec fn piece_starts(starts: Seq<Robot>, k: int) -> bool {
    exists|j: int| 0 <= j < 4 && starts[j].id.spec_index() == k
}

/// Four robots with distinct pieces include every piece.
pub proof fn lemma_each_piece_starts(starts: Seq<Robot>)
    requires
        starts.len() == 4,
        forall|i: int, j: int|
            0 <= i < 4 && 0 <= j < 4 && i != j ==> starts[i].id != starts[j].id,
    ensures
        forall|k: int| 0 <= k < 4 ==> #[trigger] piece_starts(starts, k),
{
    assert(starts[0].id != starts[1].id);
    assert(starts[0].id != starts[2].id);
    assert(starts[0].id != starts[3].id);
    assert(starts[1].id != starts[2].id);
    assert(starts[1].id != starts[3].id);
    assert(starts[2].id != starts[3].id);
    assert forall|k: int| 0 <= k < 4 implies #[trigger] piece_starts(starts, k) by {
        assert(starts[0].id.spec_index() == k || starts[1].id.spec_index() == k
            || starts[2].id.spec_index() == k || starts[3].id.spec_index() == k);
    }
}

/// Whether `m` would undo the last move of `stack`: the same robot, sliding
/// back the way it came.
pub open spec fn reverses_last(stack: Seq<Move>, m: Move) -> bool {
    stack.len() > 0 && undoes(stack.last(), m)
}

/// Whether `m` moves the robot of `prev` back the way `prev` moved it.
pub open spec fn undoes(prev: Move, m: Move) -> bool {
    &&& prev.robot_id == m.robot_id
    &&& prev.direction == m.direction.opposite()
}

/// Packed state key, one byte per robot: red in bits 0 to 7, blue in bits 8
/// to 15, green in bits 16 to 23 and yellow in bits 24 to 31.
pub open spec fn state_key(robots: Seq<usize>) -> int {
    robots[0] + robots[2] * 0x100 + robots[1] * 0x1_0000 + robots[3] * 0x100_0000
}

/// A search session over one board.
pub struct Solver {
    /// The board; its occupancy bits follow the robots.
    pub board: Board,
    /// Position of each robot, indexed by `Piece::index`.
    pub robots: Vec<usize>,
    pub target_robot_id: Piece,
    /// For each placement and last move (see `cache_key_of`), the largest
    /// remaining budget within which a search from it has found nothing.
    pub cache: HashMap<u64, u32>,
    /// Lower bound on the target's moves to the goal, for each cell.
    pub precomputed_target_moves: Vec<u32>,
    /// The moves that lead from the initial placement to the current state.
    pub move_stack: Vec<Move>,
    /// The moves found by the last successful search.
    pub solution: Vec<Move>,
    /// The cells on which the distance table was computed; their walls are
    /// those of `board.tiles`.
    pub table_cells: Ghost<Seq<u8>>,
}

impl Solver {
    pub open spec fn width(&self) -> int {
        self.board.width as int
    }

    pub open spec fn cells(&self) -> Seq<u8> {
        self.board.tiles@
    }

    /// Well-formedness of a session.
    pub open spec fn inv(&self) -> bool {
        &&& self.board.shaped()
        &&& placed(self.robots@, self.cells().len() as int)
        &&& in_sync(self.cells(), self.robots@)
        &&& self.board.goal.position < self.cells().len()
        &&& self.board.goal.robot_id == self.target_robot_id
        &&& same_walls(self.table_cells@, self.cells())
        &&& self.cells() == layout(self.table_cells@, self.robots@)
        &&& is_run_distance(
            self.table_cells@,
            self.width(),
            self.board.goal.position as int,
            self.precomputed_target_moves@,
        )
    }

    /// Everything but the cells and the robot positions is the same in `self`
    /// and `other`.
    pub open spec fn same_setting(&self, other: &Solver) -> bool {
        &&& self.board.width == other.board.width
        &&& self.board.height == other.board.height
        &&& self.board.goal == other.board.goal
        &&& self.board.initial_robots@ == other.board.initial_robots@
        &&& self.cells().len() == other.cells().len()
        &&& self.target_robot_id == other.target_robot_id
        &&& self.cache@ == other.cache@
        &&& self.precomputed_target_moves@ == other.precomputed_target_moves@
        &&& self.move_stack@ == other.move_stack@
        &&& self.solution@ == other.solution@
        &&& self.table_cells@ == other.table_cells@
    }

    /// Opens a session: sets the occupancy bit under each initial robot and
    /// computes the distance table for the goal.
    pub fn new(board: Board) -> (s: Solver)
        requires
            board.valid(),
        ensures
            s.inv(),
            s.board.width == board.width,
            s.board.height == board.height,
            s.board.goal == board.goal,
            s.board.initial_robots@ == board.initial_robots@,
            s.target_robot_id == board.goal.robot_id,
            forall|i: int|
                0 <= i < 4 ==> s.robots@[board.initial_robots@[i].id.spec_index() as int]
                    == board.initial_robots@[i].position,
            s.cells().len() == board.tiles@.len(),
            forall|p: int|
                0 <= p < board.tiles@.len() ==> s.cells()[p] == if starts_on(
                    board.initial_robots@,
                    p,
                ) {
                    board.tiles@[p] | ROBOT
                } else {
                    board.tiles@[p]
                },
            is_run_distance(
                s.cells(),
                s.width(),
                s.board.goal.position as int,
                s.precomputed_target_moves@,
            ),
            s.move_stack@.len() == 0,
            s.solution@.len() == 0,
            s.cache@ == Map::<u64, u32>::empty(),
    {
        let mut board = board;
        let ghost tiles0 = board.tiles@;
        let ghost starts = board.initial_robots@;
        let ghost shape = (board.width, board.height, board.goal);
        let mut robots: Vec<usize> = Vec::new();
        robots.push(0);
        robots.push(0);
        robots.push(0);
        robots.push(0);
        let mut i: usize = 0;
        while i < 4
            invariant
                i <= 4,
                board.shaped(),
                board.initial_robots@ == starts,
                (board.width, board.height, board.goal) == shape,
                board.goal.position < tiles0.len(),
                board.tiles@.len() == tiles0.len(),
                starts.len() == 4,
                forall|j: int| 0 <= j < 4 ==> starts[j].position < tiles0.len(),
                forall|j: int, l: int|
                    0 <= j < 4 && 0 <= l < 4 && j != l ==> starts[j].id != starts[l].id
                        && starts[j].position != starts[l].position,
                robots@.len() == 4,
                forall|j: int| 0 <= j < i ==> robots@[starts[j].id.spec_index() as int] == starts[j].position,
                forall|p: int|
                    0 <= p < tiles0.len() ==> board.tiles@[p] == if exists|j: int|
                        0 <= j < i && starts[j].position == p {
                        tiles0[p] | ROBOT
                    } else {
                        tiles0[p]
                    },
            decreases 4 - i,
        {
            let robot = board.initial_robots[i];
            robots.set(robot.id.index(), robot.position);
            let v = board.tiles[robot.position];
            board.tiles.set(robot.position, v | ROBOT);
            proof {
                assert forall|p: int| 0 <= p < tiles0.len() implies board.tiles@[p] == if exists|j: int|
                    0 <= j < i + 1 && starts[j].position == p {
                    tiles0[p] | ROBOT
                } else {
                    tiles0[p]
                } by {
                    if p == robot.position {
                        assert(starts[i as int].position == p);
                        assert((v | ROBOT) | ROBOT == v | ROBOT) by (bit_vector);
                    } else {
                        if exists|j: int| 0 <= j < i + 1 && starts[j].position == p {
                            let j = choose|j: int| 0 <= j < i + 1 && starts[j].position == p;
                            assert(j != i);
                        }
                    }
                }
            }
            i = i + 1;
        }
        proof {
            lemma_each_piece_starts(starts);
            assert forall|p: int| 0 <= p < tiles0.len() implies board.tiles@[p] == if starts_on(
                starts,
                p,
            ) {
                tiles0[p] | ROBOT
            } else {
                tiles0[p]
            } by {
                if starts_on(starts, p) {
                    let j = choose|j: int| 0 <= j < 4 && starts[j].position == p;
                }
            }
            assert forall|p: int| 0 <= p < tiles0.len() implies (occupied_at(board.tiles@, p)
                <==> robot_on(robots@, p)) by {
                let x = tiles0[p];
                assert((x | 16u8) & 16u8 != 0) by (bit_vector);
                if robot_on(robots@, p) {
                    let k = choose|k: int| 0 <= k < 4 && robots@[k] == p;
                    assert(piece_starts(starts, k));
                    let j = choose|j: int| 0 <= j < 4 && starts[j].id.spec_index() == k;
                    assert(starts[j].position == p);
                }
                if starts_on(starts, p) {
                    let j = choose|j: int| 0 <= j < 4 && starts[j].position == p;
                    assert(robots@[starts[j].id.spec_index() as int] == p);
                }
            }
            assert forall|a: int, b: int| 0 <= a < 4 && 0 <= b < 4 && a != b implies robots@[a]
                != robots@[b] by {
                assert(piece_starts(starts, a));
                assert(piece_starts(starts, b));
                let ja = choose|j: int| 0 <= j < 4 && starts[j].id.spec_index() == a;
                let jb = choose|j: int| 0 <= j < 4 && starts[j].id.spec_index() == b;
            }
            assert forall|a: int| 0 <= a < 4 implies robots@[a] < tiles0.len() by {
                assert(piece_starts(starts, a));
                let ja = choose|j: int| 0 <= j < 4 && starts[j].id.spec_index() == a;
            }
        }
        let target_robot_id = board.goal.robot_id;
        let mut solver = Solver {
            board,
            robots,
            target_robot_id,
            cache: HashMap::new(),
            precomputed_target_moves: Vec::new(),
            move_stack: Vec::new(),
            solution: Vec::new(),
            table_cells: Ghost(Seq::empty()),
        };
        solver.precompute_target_moves();
        proof {
            lemma_layout_of_synced(solver.cells(), solver.robots@);
        }
        solver
    }

    /// Where the robot `id` is now.
    pub fn position(&self, id: Piece) -> (r: usize)
        requires
            self.robots@.len() == 4,
        ensures
            r == self.robots@[id.spec_index() as int],
    {
        self.robots[id.index()]
    }

    /// Slides robot `id` toward `direction`. The move is refused, and nothing
    /// changes, when it would undo the last move on the stack or when the robot
    /// cannot leave its cell.
    pub fn move_robot(&mut self, id: Piece, direction: Direction) -> (r: bool)
        requires
            old(self).inv(),
        ensures
            final(self).inv(),
            final(self).same_setting(old(self)),
            ({
                let start = old(self).robots@[id.spec_index() as int] as int;
                let end = slide_end(old(self).cells(), old(self).width(), start, direction);
                &&& r == (!reverses_last(old(self).move_stack@, Move { robot_id: id, direction })
                    && end != start)
                &&& r ==> final(self).cells() == toggled(toggled(old(self).cells(), start), end)
                &&& r ==> final(self).robots@ == old(self).robots@.update(
                    id.spec_index() as int,
                    end as usize,
                )
                &&& !r ==> final(self).cells() == old(self).cells()
                &&& !r ==> final(self).robots@ == old(self).robots@
            }),
    {
        let idx = id.index();
        let start_tile = self.robots[idx];
        let depth = self.move_stack.len();
        if depth > 0 {
            let last_move = self.move_stack[depth - 1];
            if last_move.robot_id == id && reverse(last_move.direction) == direction {
                return false;
            }
        }
        let ghost cells = self.cells();
        let ghost w = self.width();
        let mut end_tile = start_tile;
        loop
            invariant
                self.board.shaped(),
                self.cells() == cells,
                self.width() == w,
                end_tile < cells.len(),
                slide_end(cells, w, end_tile as int, direction) == slide_end(
                    cells,
                    w,
                    start_tile as int,
                    direction,
                ),
            ensures
                end_tile < cells.len(),
                slide_end(cells, w, end_tile as int, direction) == end_tile,
                slide_end(cells, w, start_tile as int, direction) == end_tile,
            decreases run_measure(cells.len() as int, end_tile as int, direction),
        {
            match self.board.next_open(end_tile, direction) {
                None => {
                    assert(slide_end(cells, w, end_tile as int, direction) == end_tile);
                    break ;
                },
                Some(next) => {
                    proof {
                        lemma_step_in_grid(cells, w, end_tile as int, direction);
                    }
                    if self.board.has_robot(next) {
                        assert(slide_end(cells, w, end_tile as int, direction) == end_tile);
                        break ;
                    }
                    proof {
                        assert(slide_end(cells, w, end_tile as int, direction) == slide_end(
                            cells,
                            w,
                            next as int,
                            direction,
                        ));
                    }
                    end_tile = next;
                },
            }
        }
        if end_tile == start_tile {
            return false;
        }
        proof {
            lemma_slide_end_free(cells, w, start_tile as int, direction);
            lemma_relocate(cells, self.robots@, idx as int, start_tile as int, end_tile);
            lemma_layout_move(self.table_cells@, cells, self.robots@, idx as int, end_tile);
        }
        self.toggle_robot_bit(start_tile);
        self.toggle_robot_bit(end_tile);
        self.robots.set(idx, end_tile);
        true
    }

    /// Puts robot `id` back on `previous_position`, the cell it slid from.
    pub fn undo_move(&mut self, id: Piece, previous_position: usize)
        requires
            old(self).inv(),
            previous_position < old(self).cells().len(),
            !occupied_at(old(self).cells(), previous_position as int),
        ensures
            final(self).inv(),
            final(self).same_setting(old(self)),
            final(self).cells() == toggled(
                toggled(old(self).cells(), previous_position as int),
                old(self).robots@[id.spec_index() as int] as int,
            ),
            final(self).robots@ == old(self).robots@.update(
                id.spec_index() as int,
                previous_position,
            ),
    {
        let idx = id.index();
        let current = self.robots[idx];
        proof {
            lemma_relocate(self.cells(), self.robots@, idx as int, current as int, previous_position);
            lemma_layout_move(self.table_cells@, self.cells(), self.robots@, idx as int, previous_position);
            lemma_toggles_commute(self.cells(), current as int, previous_position as int);
        }
        self.toggle_robot_bit(previous_position);
        self.toggle_robot_bit(current);
        self.robots.set(idx, previous_position);
    }

    fn toggle_robot_bit(&mut self, location: usize)
        requires
            location < old(self).cells().len(),
        ensures
            final(self).cells() == toggled(old(self).cells(), location as int),
            final(self).robots@ == old(self).robots@,
            final(self).board.width == old(self).board.width,
            final(self).board.height == old(self).board.height,
            final(self).board.goal == old(self).board.goal,
            final(self).board.initial_robots@ == old(self).board.initial_robots@,
            final(self).target_robot_id == old(self).target_robot_id,
            final(self).cache@ == old(self).cache@,
            final(self).precomputed_target_moves@ == old(self).precomputed_target_moves@,
            final(self).move_stack@ == old(self).move_stack@,
            final(self).solution@ == old(self).solution@,
            final(self).table_cells@ == old(self).table_cells@,
    {
        let v = self.board.tiles[location];
        self.board.tiles.set(location, v ^ ROBOT);
    }

    /// The cache key of the current positions and the last move on the stack.
    pub fn cache_key(&self) -> (r: u64)
        requires
            self.inv(),
        ensures
            r == cache_key_of(self.robots@, last_move(self.move_stack@)),
    {
        let positions = self.compute_hash() as u64;
        let n = self.move_stack.len();
        let code: u64 = if n == 0 {
            0
        } else {
            let last = self.move_stack[n - 1];
            1 + 4 * last.robot_id.index() as u64 + last.direction.code() as u64
        };
        positions + code * 0x1_0000_0000
    }

    /// The packed state key of the current robot positions.
    pub fn compute_hash(&self) -> (r: u32)
        requires
            self.inv(),
        ensures
            r == state_key(self.robots@),
    {
        let r = self.robots[Piece::Red.index()] as u32;
        let g = self.robots[Piece::Green.index()] as u32;
        let b = self.robots[Piece::Blue.index()] as u32;
        let y = self.robots[Piece::Yellow.index()] as u32;
        r + b * 0x100 + g * 0x1_0000 + y * 0x100_0000
    }
}

/// Flipping the occupancy bit leaves the wall bits alone and negates the
/// occupancy.
pub proof fn lemma_flip_bit(x: u8)
    ensures
        (x ^ ROBOT) & ROBOT != 0 <==> !(x & ROBOT != 0),
        (x ^ ROBOT) & 1u8 == x & 1u8,
        (x ^ ROBOT) & 2u8 == x & 2u8,
        (x ^ ROBOT) & 4u8 == x & 4u8,
        (x ^ ROBOT) & 8u8 == x & 8u8,
        (x ^ ROBOT) ^ ROBOT == x,
{
    assert((x ^ 16u8) & 16u8 != 0 <==> !(x & 16u8 != 0)) by (bit_vector);
    assert((x ^ 16u8) & 1u8 == x & 1u8) by (bit_vector);
    assert((x ^ 16u8) & 2u8 == x & 2u8) by (bit_vector);
    assert((x ^ 16u8) & 4u8 == x & 4u8) by (bit_vector);
    assert((x ^ 16u8) & 8u8 == x & 8u8) by (bit_vector);
    assert((x ^ 16u8) ^ 16u8 == x) by (bit_vector);
}

pub proof fn lemma_toggled_walls(cells: Seq<u8>, p: int, q: int, d: Direction)
    requires
        0 <= p < cells.len(),
        0 <= q < cells.len(),
    ensures
        wall_at(toggled(cells, p), q, d) == wall_at(cells, q, d),
        occupied_at(toggled(cells, p), q) == (if q == p {
            !occupied_at(cells, q)
        } else {
            occupied_at(cells, q)
        }),
{
    lemma_flip_bit(cells[p]);
}

pub proof fn lemma_toggles_commute(cells: Seq<u8>, p: int, q: int)
    requires
        0 <= p < cells.len(),
        0 <= q < cells.len(),
    ensures
        toggled(toggled(cells, p), q) == toggled(toggled(cells, q), p),
{
    assert(toggled(toggled(cells, p), q) =~= toggled(toggled(cells, q), p));
}

/// A slide ends inside the grid, and on its starting cell or on a free cell.
pub proof fn lemma_slide_end_free(cells: Seq<u8>, width: int, p: int, d: Direction)
    requires
        0 <= p < cells.len(),
    ensures
        0 <= slide_end(cells, width, p, d) < cells.len(),
        slide_end(cells, width, p, d) == p || !occupied_at(cells, slide_end(cells, width, p, d)),
    decreases run_measure(cells.len() as int, p, d),
{
    if open_toward(cells, width, p, d) && !occupied_at(cells, neighbor(width, p, d)) {
        lemma_step_in_grid(cells, width, p, d);
        lemma_slide_end_free(cells, width, neighbor(width, p, d), d);
    }
}

/// Moving robot `i` from `s` to the free cell `e`, and flipping the two
/// occupancy bits, keeps the robots placed and the bits in sync.
pub proof fn lemma_relocate(cells: Seq<u8>, robots: Seq<usize>, i: int, s: int, e: usize)
    requires
        placed(robots, cells.len() as int),
        in_sync(cells, robots),
        0 <= i < 4,
        robots[i] == s,
        0 <= e < cells.len(),
        !occupied_at(cells, e as int),
    ensures
        placed(robots.update(i, e), cells.len() as int),
        in_sync(toggled(toggled(cells, s), e as int), robots.update(i, e)),
        same_walls(cells, toggled(toggled(cells, s), e as int)),
{
    let c1 = toggled(cells, s);
    let c2 = toggled(c1, e as int);
    let r2 = robots.update(i, e);
    assert(occupied_at(cells, s));
    assert(!robot_on(robots, e as int));
    assert forall|p: int| 0 <= p < cells.len() implies (occupied_at(c2, p) <==> robot_on(r2, p)) by {
        lemma_toggled_walls(cells, s, p, Direction::Up);
        lemma_toggled_walls(c1, e as int, p, Direction::Up);
    }
    assert forall|p: int, d: Direction| 0 <= p < cells.len() implies #[trigger] wall_at(cells, p, d)
        == wall_at(c2, p, d) by {
        lemma_toggled_walls(cells, s, p, d);
        lemma_toggled_walls(c1, e as int, p, d);
    }
}

/// Undoing a move restores the exact prior state: after robot `i` slides from
/// `robots[i]` to `e` (what `move_robot` does on success), putting it back
/// (what `undo_move` does) yields the cells and positions it started from.
pub proof fn lemma_undo_restores(cells: Seq<u8>, robots: Seq<usize>, i: int, e: usize)
    requires
        0 <= i < robots.len(),
        robots[i] < cells.len(),
        e < cells.len(),
    ensures
        toggled(
            toggled(toggled(toggled(cells, robots[i] as int), e as int), robots[i] as int),
            e as int,
        ) == cells,
        robots.update(i, e).update(i, robots[i]) == robots,
{
    let s = robots[i] as int;
    lemma_flip_bit(cells[s]);
    lemma_flip_bit(cells[e as int]);
    lemma_flip_bit(cells[s] ^ ROBOT);
    lemma_flip_bit(cells[e as int] ^ ROBOT);
    assert(toggled(toggled(toggled(toggled(cells, s), e as int), s), e as int) =~= cells);
    assert(robots.update(i, e).update(i, robots[i]) =~= robots);
}

/// Distinct placements have distinct state keys, as long as every position
/// fits in its 8-bit field (boards of at most `MAX_CELLS` cells).
pub proof fn lemma_state_key_injective(a: Seq<usize>, b: Seq<usize>)
    requires
        a.len() == 4,
        b.len() == 4,
        forall|i: int| 0 <= i < 4 ==> a[i] < MAX_CELLS && b[i] < MAX_CELLS,
        state_key(a) == state_key(b),
    ensures
        a == b,
{
    let (a0, a1, a2, a3) = (a[0] as u32, a[2] as u32, a[1] as u32, a[3] as u32);
    let (b0, b1, b2, b3) = (b[0] as u32, b[2] as u32, b[1] as u32, b[3] as u32);
    assert(a0 == b0 && a1 == b1 && a2 == b2 && a3 == b3) by (bit_vector)
        requires
            a0 < 256 && a1 < 256 && a2 < 256 && a3 < 256,
            b0 < 256 && b1 < 256 && b2 < 256 && b3 < 256,
            a0 + a1 * 0x100 + a2 * 0x1_0000 + a3 * 0x100_0000 == b0 + b1 * 0x100 + b2 * 0x1_0000
                + b3 * 0x100_0000,
    ;
    assert(a =~= b);
}

/// The cells built from the walls of `base` with a robot bit exactly under
/// each of `robots`.
pub open spec fn layout(base: Seq<u8>, robots: Seq<usize>) -> Seq<u8> {
    Seq::new(
        base.len(),
        |p: int|
            if robot_on(robots, p) {
                base[p] | ROBOT
            } else {
                base[p] & 0xEF
            },
    )
}

/// Cells whose robot bits follow `robots` are their own layout.
pub proof fn lemma_layout_of_synced(cells: Seq<u8>, robots: Seq<usize>)
    requires
        in_sync(cells, robots),
    ensures
        cells == layout(cells, robots),
{
    assert forall|p: int| 0 <= p < cells.len() implies cells[p] == layout(cells, robots)[p] by {
        let x = cells[p];
        assert(x & 16u8 != 0 ==> x | 16u8 == x) by (bit_vector);
        assert(x & 16u8 == 0 ==> x & 0xEFu8 == x) by (bit_vector);
    }
    assert(cells =~= layout(cells, robots));
}

/// Moving robot `i` to the free cell `e` moves its bit in the layout.
pub proof fn lemma_layout_move(base: Seq<u8>, cells: Seq<u8>, robots: Seq<usize>, i: int, e: usize)
    requires
        cells == layout(base, robots),
        placed(robots, cells.len() as int),
        in_sync(cells, robots),
        0 <= i < 4,
        e < cells.len(),
        !occupied_at(cells, e as int),
    ensures
        toggled(toggled(cells, robots[i] as int), e as int) == layout(base, robots.update(i, e)),
{
    let s = robots[i] as int;
    let r2 = robots.update(i, e);
    let c2 = toggled(toggled(cells, s), e as int);
    assert(!robot_on(robots, e as int));
    assert forall|p: int| 0 <= p < cells.len() implies c2[p] == layout(base, r2)[p] by {
        let x = base[p];
        assert((x | 16u8) ^ 16u8 == x & 0xEFu8) by (bit_vector);
        assert((x & 0xEFu8) ^ 16u8 == x | 16u8) by (bit_vector);
    }
    assert(c2 =~= layout(base, r2));
}

/// The last move of `stack`, if any.
pub open spec fn last_move(stack: Seq<Move>) -> Option<Move> {
    if stack.len() > 0 {
        Some(stack.last())
    } else {
        None
    }
}

/// Code of a last move in the cache key: 0 for none, else one more than four
/// times the piece index plus the direction index.
pub open spec fn last_code(last: Option<Move>) -> int {
    match last {
        None => 0,
        Some(m) => (1 + 4 * m.robot_id.spec_index() + m.direction.index()) as int,
    }
}

/// Cache key: the state key in bits 0 to 31 and the last move's code above.
pub open spec fn cache_key_of(robots: Seq<usize>, last: Option<Move>) -> int {
    state_key(robots) + last_code(last) * 0x1_0000_0000
}

/// Distinct placements or last moves have distinct cache keys.
pub proof fn lemma_cache_key_injective(
    a: Seq<usize>,
    la: Option<Move>,
    b: Seq<usize>,
    lb: Option<Move>,
)
    requires
        a.len() == 4,
        b.len() == 4,
        forall|i: int| 0 <= i < 4 ==> a[i] < MAX_CELLS && b[i] < MAX_CELLS,
        cache_key_of(a, la) == cache_key_of(b, lb),
    ensures
        a == b,
        la == lb,
{
    let sa = state_key(a);
    let sb = state_key(b);
    let ca = last_code(la);
    let cb = last_code(lb);
    assert(0 <= sa < 0x1_0000_0000);
    assert(0 <= sb < 0x1_0000_0000);
    assert(0 <= ca < 17 && 0 <= cb < 17);
    assert(ca == cb && sa == sb) by (nonlinear_arith)
        requires
            0 <= sa < 0x1_0000_0000,
            0 <= sb < 0x1_0000_0000,
            0 <= ca < 17,
            0 <= cb < 17,
            sa + ca * 0x1_0000_0000 == sb + cb * 0x1_0000_0000,
    ;
    lemma_state_key_injective(a, b);
    if la is Some && lb is Some {
        let (ma, mb) = (la->0, lb->0);
        assert(ma.robot_id.spec_index() == mb.robot_id.spec_index());
        assert(ma.direction.index() == mb.direction.index());
        assert(ma.robot_id == mb.robot_id);
        assert(ma.direction == mb.direction);
    }
}

} // verus!
