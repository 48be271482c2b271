//! The static grid: wall and occupancy bits per cell, directions and pieces.
use vstd::prelude::*;

verus! {

/// Wall on the upper edge of a cell.
pub const UP: u8 = 1;

/// Wall on the lower edge of a cell.
pub const DOWN: u8 = 2;

/// Wall on the left edge of a cell.
pub const LEFT: u8 = 4;

/// Wall on the right edge of a cell.
pub const RIGHT: u8 = 8;

/// Occupancy bit: a robot stands on the cell.
pub const ROBOT: u8 = 16;

/// Largest number of cells a board may have: each robot position is packed
/// into an 8-bit field of the state key.
pub const MAX_CELLS: usize = 256;

/// One of the four sliding directions.
#[derive(Clone, Copy, Debug, PartialEq, Eq, Structural)]
pub enum Direction {
    Up,
    Down,
    Left,
    Right,
}

impl Direction {
    /// The wall bit that blocks a slide out of a cell in this direction.
    pub open spec fn wall_bit(self) -> u8 {
        match self {
            Direction::Up => UP,
            Direction::Down => DOWN,
            Direction::Left => LEFT,
            Direction::Right => RIGHT,
        }
    }

    pub open spec fn opposite(self) -> Direction {
        match self {
            Direction::Up => Direction::Down,
            Direction::Down => Direction::Up,
            Direction::Left => Direction::Right,
            Direction::Right => Direction::Left,
        }
    }

    /// Position of the direction in the fixed enumeration order.
    pub open spec fn index(self) -> nat {
        match self {
            Direction::Up => 0,
            Direction::Down => 1,
            Direction::Left => 2,
            Direction::Right => 3,
        }
    }

    pub fn mask(self) -> (r: u8)
        ensures
            r == self.wall_bit(),
    {
        match self {
            Direction::Up => UP,
            Direction::Down => DOWN,
            Direction::Left => LEFT,
            Direction::Right => RIGHT,
        }
    }

    /// Position of the direction in the fixed order, as a number.
    pub fn code(self) -> (r: u8)
        ensures
            r == self.index(),
    {
        match self {
            Direction::Up => 0,
            Direction::Down => 1,
            Direction::Left => 2,
            Direction::Right => 3,
        }
    }

    /// The direction at position `i` of the fixed order up, down, left, right.
    pub fn from_index(i: usize) -> (r: Direction)
        requires
            i < 4,
        ensures
            r.index() == i,
    {
        if i == 0 {
            Direction::Up
        } else if i == 1 {
            Direction::Down
        } else if i == 2 {
            Direction::Left
        } else {
            Direction::Right
        }
    }
}

/// The direction that undoes a slide in `direction`.
pub fn reverse(direction: Direction) -> (r: Direction)
    ensures
        r == direction.opposite(),
{
    match direction {
        Direction::Up => Direction::Down,
        Direction::Down => Direction::Up,
        Direction::Left => Direction::Right,
        Direction::Right => Direction::Left,
    }
}

/// One-letter name of a direction, as used when a solution is written out.
pub fn direction_name(direction: Direction) -> (r: char)
    ensures
        r == match direction {
            Direction::Up => 'u',
            Direction::Down => 'd',
            Direction::Left => 'l',
            Direction::Right => 'r',
        },
{
    match direction {
        Direction::Up => 'u',
        Direction::Down => 'd',
        Direction::Left => 'l',
        Direction::Right => 'r',
    }
}

/// The four robots. The declaration order is the order in which the search
/// tries them and the order of their fields in the state key.
#[derive(Clone, Copy, Debug, PartialEq, Eq, Structural)]
pub enum Piece {
    Red,
    Green,
    Blue,
    Yellow,
}

impl Piece {
    pub open spec fn spec_index(self) -> nat {
        match self {
            Piece::Red => 0,
            Piece::Green => 1,
            Piece::Blue => 2,
            Piece::Yellow => 3,
        }
    }

    /// Slot of the piece in the solver's position table.
    pub fn index(self) -> (r: usize)
        ensures
            r == self.spec_index(),
    {
        match self {
            Piece::Red => 0,
            Piece::Green => 1,
            Piece::Blue => 2,
            Piece::Yellow => 3,
        }
    }

    pub fn from_index(i: usize) -> (r: Piece)
        requires
            i < 4,
        ensures
            r.spec_index() == i,
    {
        if i == 0 {
            Piece::Red
        } else if i == 1 {
            Piece::Green
        } else if i == 2 {
            Piece::Blue
        } else {
            Piece::Yellow
        }
    }

    /// The letter that names the piece.
    pub fn label(self) -> (r: char)
        ensures
            r == match self {
                Piece::Red => 'R',
                Piece::Green => 'G',
                Piece::Blue => 'B',
                Piece::Yellow => 'Y',
            },
    {
        match self {
            Piece::Red => 'R',
            Piece::Green => 'G',
            Piece::Blue => 'B',
            Piece::Yellow => 'Y',
        }
    }
}

/// A robot placed on a cell.
#[derive(Clone, Copy, Debug, PartialEq, Eq, Structural)]
pub struct Robot {
    pub id: Piece,
    pub position: usize,
}

/// The robot that must reach the goal, and the goal cell.
#[derive(Clone, Copy, Debug, PartialEq, Eq, Structural)]
pub struct Goal {
    pub robot_id: Piece,
    pub position: usize,
}

/// One slide of one robot.
#[derive(Clone, Copy, Debug, PartialEq, Eq, Structural)]
pub struct Move {
    pub robot_id: Piece,
    pub direction: Direction,
}

/// Whether cell `p` of `cells` has a wall on its edge toward `d`.
pub open spec fn wall_at(cells: Seq<u8>, p: int, d: Direction) -> bool {
    cells[p] & d.wall_bit() != 0
}

/// Whether the occupancy bit of cell `p` is set.
pub open spec fn occupied_at(cells: Seq<u8>, p: int) -> bool {
    cells[p] & ROBOT != 0
}

/// Whether the grid of `n` cells in rows of `width` has a cell next to `p`
/// toward `d`: the outer edge of the grid stops every slide.
pub open spec fn has_neighbor(width: int, n: int, p: int, d: Direction) -> bool {
    match d {
        Direction::Up => p >= width,
        Direction::Down => p + width < n,
        Direction::Left => p % width != 0,
        Direction::Right => p % width != width - 1 && p + 1 < n,
    }
}

/// The index of the cell next to `p` toward `d`.
pub open spec fn neighbor(width: int, p: int, d: Direction) -> int {
    match d {
        Direction::Up => p - width,
        Direction::Down => p + width,
        Direction::Left => p - 1,
        Direction::Right => p + 1,
    }
}

/// Whether a robot on `p` may leave it toward `d`, were the next cell free.
pub open spec fn open_toward(cells: Seq<u8>, width: int, p: int, d: Direction) -> bool {
    &&& 0 <= p < cells.len()
    &&& width > 0
    &&& !wall_at(cells, p, d)
    &&& has_neighbor(width, cells.len() as int, p, d)
}

/// How far `p` is from the grid's edge toward `d`, as a count that every step
/// toward `d` lowers.
pub open spec fn run_measure(n: int, p: int, d: Direction) -> int {
    match d {
        Direction::Up | Direction::Left => p,
        Direction::Down | Direction::Right => n - p,
    }
}

pub proof fn lemma_step_in_grid(cells: Seq<u8>, width: int, p: int, d: Direction)
    requires
        0 <= p < cells.len(),
        width > 0,
        has_neighbor(width, cells.len() as int, p, d),
    ensures
        0 <= neighbor(width, p, d) < cells.len(),
        0 <= run_measure(cells.len() as int, neighbor(width, p, d), d) < run_measure(
            cells.len() as int,
            p,
            d,
        ),
{
    if d == Direction::Left {
        vstd::arithmetic::div_mod::lemma_small_mod(0, width as nat);
    }
}

/// The cell where a robot on `p` comes to rest after sliding toward `d`: it
/// advances while its cell has no wall toward `d`, the grid goes on, and the
/// next cell is free.
pub open spec fn slide_end(cells: Seq<u8>, width: int, p: int, d: Direction) -> int
    decreases run_measure(cells.len() as int, p, d),
    when 0 <= p < cells.len()
{
    if open_toward(cells, width, p, d) && !occupied_at(cells, neighbor(width, p, d)) {
        proof {
            lemma_step_in_grid(cells, width, p, d);
        }
        slide_end(cells, width, neighbor(width, p, d), d)
    } else {
        p
    }
}

/// `cells` with the occupancy bit of cell `p` flipped.
pub open spec fn toggled(cells: Seq<u8>, p: int) -> Seq<u8> {
    cells.update(p, cells[p] ^ ROBOT)
}

/// A board as handed to the solver: walls, the initial robots and the goal.
pub struct Board {
    pub tiles: Vec<u8>,
    pub initial_robots: Vec<Robot>,
    pub width: usize,
    pub height: usize,
    pub goal: Goal,
}

impl Board {
    /// Shape of the grid: `width * height` cells, at most `MAX_CELLS`.
    pub open spec fn shaped(&self) -> bool {
        &&& self.width > 0
        &&& self.height > 0
        &&& self.tiles@.len() == self.width * self.height
        &&& self.tiles@.len() <= MAX_CELLS
    }

    pub proof fn lemma_width_fits(&self)
        requires
            self.shaped(),
        ensures
            self.width <= self.tiles@.len(),
    {
        let w = self.width as int;
        let h = self.height as int;
        assert(w <= w * h) by (nonlinear_arith)
            requires
                h >= 1,
                w >= 0,
        ;
    }

    /// Signed change of the cell index for one step toward `direction`.
    pub fn offset(&self, direction: Direction) -> (r: i32)
        requires
            self.width <= MAX_CELLS,
        ensures
            r == match direction {
                Direction::Up => -(self.width as int),
                Direction::Down => self.width as int,
                Direction::Left => -1int,
                Direction::Right => 1int,
            },
    {
        let w = self.width as i32;
        match direction {
            Direction::Up => 0 - w,
            Direction::Down => w,
            Direction::Left => -1,
            Direction::Right => 1,
        }
    }

    pub fn has_wall(&self, location: usize, direction: Direction) -> (r: bool)
        requires
            location < self.tiles@.len(),
        ensures
            r == wall_at(self.tiles@, location as int, direction),
    {
        self.tiles[location] & direction.mask() != 0
    }

    pub fn has_robot(&self, location: usize) -> (r: bool)
        requires
            location < self.tiles@.len(),
        ensures
            r == occupied_at(self.tiles@, location as int),
    {
        self.tiles[location] & ROBOT != 0
    }

    /// The cell next to `location` toward `direction`, if the grid goes on.
    pub fn neighbor_cell(&self, location: usize, direction: Direction) -> (r: Option<usize>)
        requires
            self.shaped(),
            location < self.tiles@.len(),
        ensures
            r == (if has_neighbor(
                self.width as int,
                self.tiles@.len() as int,
                location as int,
                direction,
            ) {
                Some(neighbor(self.width as int, location as int, direction) as usize)
            } else {
                None::<usize>
            }),
            r is Some ==> r->0 < self.tiles@.len(),
    {
        proof {
            self.lemma_width_fits();
        }
        let n = self.tiles.len();
        let w = self.width;
        let inside = match direction {
            Direction::Up => location >= w,
            Direction::Down => location + w < n,
            Direction::Left => location % w != 0,
            Direction::Right => location % w != w - 1 && location + 1 < n,
        };
        if !inside {
            return None;
        }
        proof {
            lemma_step_in_grid(self.tiles@, w as int, location as int, direction);
        }
        let next = location as i32 + self.offset(direction);
        Some(next as usize)
    }

    /// The cell a robot on `location` would step into toward `direction`, if
    /// the edge there is open; `None` at a wall or at the grid's edge.
    pub fn next_open(&self, location: usize, direction: Direction) -> (r: Option<usize>)
        requires
            self.shaped(),
            location < self.tiles@.len(),
        ensures
            r == (if open_toward(self.tiles@, self.width as int, location as int, direction) {
                Some(neighbor(self.width as int, location as int, direction) as usize)
            } else {
                None::<usize>
            }),
            r is Some ==> r->0 < self.tiles@.len(),
    {
        if self.has_wall(location, direction) {
            return None;
        }
        self.neighbor_cell(location, direction)
    }
}

} // verus!
