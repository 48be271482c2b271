use ricochet::grid::{
    direction_name, reverse, Board, Direction, Goal, Move, Piece, Robot, DOWN, LEFT, RIGHT, ROBOT, UP,
};
use ricochet::heuristic::UNREACHABLE;
use ricochet::solver::Solver;

fn small_board() -> Board {
    let tiles = vec![
        UP | LEFT, UP, UP | RIGHT,
        LEFT, 0, RIGHT,
        LEFT | DOWN, DOWN, DOWN | RIGHT,
    ];
    let initial_robots = vec![
        Robot { id: Piece::Red, position: 0 },
        Robot { id: Piece::Blue, position: 1 },
        Robot { id: Piece::Yellow, position: 2 },
        Robot { id: Piece::Green, position: 3 },
    ];
    let goal = Goal { robot_id: Piece::Red, position: 8 };
    Board { tiles, initial_robots, width: 3, height: 3, goal }
}

fn first_big_board() -> Board {
    let tiles = vec![
        5, 1, 9, 5, 1, 1, 1, 1, 1, 1, 1, 9, 5, 1, 1, 9,
        4, 0, 0, 0, 0, 0, 2, 0, 0, 10, 4, 0, 0, 0, 0, 8,
        4, 0, 0, 0, 0, 10, 5, 0, 0, 1, 0, 0, 0, 0, 0, 10,
        4, 0, 0, 0, 0, 1, 0, 0, 0, 0, 8, 6, 0, 0, 0, 9,
        4, 0, 0, 0, 0, 0, 0, 0, 0, 0, 0, 1, 0, 0, 2, 8,
        12, 6, 0, 0, 0, 0, 0, 0, 0, 0, 2, 0, 0, 8, 5, 8,
        6, 1, 0, 0, 2, 0, 0, 2, 2, 0, 9, 4, 0, 0, 0, 8,
        5, 0, 0, 0, 9, 4, 8, 5, 9, 4, 0, 0, 8, 6, 16, 8,
        4, 0, 2, 0, 8, 6, 8, 6, 10, 4, 0, 0, 2, 1, 0, 8,
        4, 8, 5, 0, 0, 1, 0, 1, 1, 0, 0, 0, 9, 6, 0, 10,
        4, 0, 0, 0, 0, 0, 0, 0, 0, 2, 0, 0, 0, 1, 0, 9,
        6, 0, 0, 0, 0, 0, 0, 0, 8, 5, 0, 0, 0, 0, 0, 8,
        5, 0, 0, 0, 2, 0, 0, 0, 0, 0, 0, 0, 0, 0, 10, 12,
        20, 0, 0, 0, 9, 4, 0, 0, 0, 0, 0, 16, 0, 0, 1, 8,
        4, 10, 4, 0, 0, 0, 0, 0, 0, 16, 0, 0, 0, 0, 0, 8,
        6, 3, 2, 2, 2, 10, 6, 2, 2, 10, 6, 2, 2, 2, 2, 10,
    ];
    let initial_robots = vec![
        Robot { id: Piece::Red, position: 208 },
        Robot { id: Piece::Blue, position: 126 },
        Robot { id: Piece::Green, position: 219 },
        Robot { id: Piece::Yellow, position: 233 },
    ];
    let goal = Goal { robot_id: Piece::Red, position: 225 };
    Board { tiles, initial_robots, width: 16, height: 16, goal }
}

fn second_big_board() -> Board {
    let tiles = vec![
        5, 1, 9, 5, 1, 1, 1, 1, 9, 5, 1, 1, 1, 1, 1, 9,
        4, 0, 0, 0, 0, 0, 2, 0, 0, 8, 6, 0, 0, 0, 0, 8,
        4, 0, 0, 0, 0, 10, 5, 0, 0, 0, 1, 0, 10, 4, 0, 8,
        4, 0, 0, 0, 0, 1, 0, 0, 2, 0, 0, 8, 5, 0, 0, 8,
        4, 0, 0, 0, 0, 0, 0, 0, 9, 4, 0, 0, 0, 0, 0, 8,
        12, 6, 0, 0, 0, 0, 0, 0, 0, 0, 0, 0, 0, 2, 0, 8,
        6, 1, 0, 0, 2, 0, 0, 2, 2, 16, 0, 0, 0, 25, 4, 8,
        5, 0, 0, 0, 9, 4, 8, 5, 9, 4, 0, 0, 0, 0, 0, 8,
        4, 0, 2, 16, 8, 6, 8, 6, 10, 4, 0, 0, 2, 0, 0, 8,
        4, 8, 5, 0, 0, 1, 0, 1, 1, 0, 0, 0, 9, 4, 0, 10,
        4, 0, 0, 0, 0, 0, 0, 0, 0, 0, 0, 0, 0, 0, 0, 9,
        6, 0, 0, 0, 0, 0, 0, 0, 0, 2, 0, 0, 0, 0, 0, 8,
        5, 0, 0, 0, 2, 0, 0, 0, 8, 5, 0, 0, 0, 0, 0, 8,
        4, 0, 0, 0, 9, 4, 0, 0, 0, 0, 0, 0, 0, 8, 6, 8,
        4, 10, 4, 16, 0, 0, 0, 0, 0, 0, 0, 10, 4, 0, 1, 8,
        6, 3, 2, 2, 2, 10, 6, 2, 2, 2, 2, 3, 2, 10, 6, 10,
    ];
    let initial_robots = vec![
        Robot { id: Piece::Blue, position: 109 },
        Robot { id: Piece::Green, position: 227 },
        Robot { id: Piece::Yellow, position: 131 },
        Robot { id: Piece::Red, position: 105 },
    ];
    let goal = Goal { robot_id: Piece::Yellow, position: 133 };
    Board { tiles, initial_robots, width: 16, height: 16, goal }
}

/// Plays `moves` with `move_robot` on a fresh session and returns where the
/// robots end up, or `None` if some move does not move its robot.
fn replay(board: Board, moves: &[Move]) -> Option<Vec<usize>> {
    let mut solver = Solver::new(board);
    for m in moves {
        if !solver.move_robot(m.robot_id, m.direction) {
            return None;
        }
    }
    Some(solver.robots.clone())
}

#[test]
fn test_move() {
    let mut solver = Solver::new(small_board());

    // initial locations
    assert_eq!(solver.position(Piece::Red), 0);
    assert_eq!(solver.position(Piece::Blue), 1);
    assert_eq!(solver.position(Piece::Yellow), 2);
    assert_eq!(solver.position(Piece::Green), 3);

    // can't move
    assert_eq!(solver.move_robot(Piece::Red, Direction::Up), false);
    assert_eq!(solver.move_robot(Piece::Red, Direction::Down), false);
    assert_eq!(solver.move_robot(Piece::Red, Direction::Left), false);
    assert_eq!(solver.move_robot(Piece::Red, Direction::Right), false);
    assert_eq!(solver.position(Piece::Red), 0);

    assert_eq!(solver.move_robot(Piece::Green, Direction::Down), true);
    assert_eq!(solver.position(Piece::Green), 6);

    assert_eq!(solver.move_robot(Piece::Red, Direction::Down), true);
    assert_eq!(solver.position(Piece::Red), 3);

    assert_eq!(solver.move_robot(Piece::Red, Direction::Right), true);
    assert_eq!(solver.position(Piece::Red), 5);

    assert_eq!(solver.move_robot(Piece::Red, Direction::Down), true);
    assert_eq!(solver.position(Piece::Red), 8);
}

#[test]
fn test_solve() {
    let mut solver = Solver::new(small_board());
    let solved = solver.solve(3);
    assert_eq!(solved, true);
}

#[test]
fn test_big_solve() {
    let mut solver = Solver::new(first_big_board());
    let solved = solver.solve(5);
    assert_eq!(solved, true);
}

#[test]
fn test_big_solve2() {
    let mut solver = Solver::new(second_big_board());
    let solved = solver.solve(10);
    assert_eq!(solved, true);
}

#[test]
fn small_board_three_move_solution_replays_to_goal() {
    let mut solver = Solver::new(small_board());
    assert!(solver.solve(3));
    let moves = solver.moves().clone();
    assert_eq!(moves.len(), 3);
    let robots = replay(small_board(), &moves).expect("every move moves a robot");
    assert_eq!(robots[Piece::Red.index()], 8);
}

#[test]
fn small_board_has_no_one_move_solution() {
    let mut solver = Solver::new(small_board());
    let tiles_before = solver.board.tiles.clone();
    assert!(!solver.solve(1));
    assert!(solver.moves().is_empty());
    assert_eq!(solver.robots, vec![0, 3, 1, 2]);
    assert_eq!(solver.board.tiles, tiles_before);
    assert!(solver.move_stack.is_empty());
}

#[test]
fn solve_restores_positions_after_success() {
    let mut solver = Solver::new(small_board());
    let tiles_before = solver.board.tiles.clone();
    assert!(solver.solve(3));
    assert_eq!(solver.robots, vec![0, 3, 1, 2]);
    assert_eq!(solver.board.tiles, tiles_before);
    assert!(solver.move_stack.is_empty());
}

#[test]
fn big_board_needs_exactly_five_moves() {
    let mut solver = Solver::new(first_big_board());
    assert!(!solver.solve(4));
    assert!(solver.solve(5));
    let moves = solver.moves().clone();
    assert_eq!(moves.len(), 5);
    let robots = replay(first_big_board(), &moves).expect("every move moves a robot");
    assert_eq!(robots[Piece::Red.index()], 225);
    assert_eq!(solver.position(Piece::Red), 208);
}

#[test]
fn second_big_board_solution_replays_to_goal() {
    let mut solver = Solver::new(second_big_board());
    assert!(solver.solve(10));
    let moves = solver.moves().clone();
    assert!(moves.len() <= 10);
    let robots = replay(second_big_board(), &moves).expect("every move moves a robot");
    assert_eq!(robots[Piece::Yellow.index()], 133);
}

#[test]
fn target_already_home_needs_no_moves() {
    let mut board = small_board();
    board.goal = Goal { robot_id: Piece::Red, position: 0 };
    let mut solver = Solver::new(board);
    assert!(solver.solve(1));
    assert!(solver.moves().is_empty());
}

#[test]
fn slide_stops_before_a_robot() {
    let mut solver = Solver::new(small_board());
    // Blue on 1 slides down to the bottom wall; Red on 0 then slides right
    // and stops at 1 because Yellow sits on 2.
    assert!(solver.move_robot(Piece::Blue, Direction::Down));
    assert_eq!(solver.position(Piece::Blue), 7);
    assert!(solver.move_robot(Piece::Red, Direction::Right));
    assert_eq!(solver.position(Piece::Red), 1);
    assert_eq!(solver.board.tiles[0] & ROBOT, 0);
    assert_eq!(solver.board.tiles[1] & ROBOT, ROBOT);
}

#[test]
fn reversing_the_last_move_is_refused() {
    let mut solver = Solver::new(small_board());
    assert!(solver.move_robot(Piece::Green, Direction::Down));
    solver.move_stack.push(Move { robot_id: Piece::Green, direction: Direction::Down });
    assert!(!solver.move_robot(Piece::Green, Direction::Up));
    assert_eq!(solver.position(Piece::Green), 6);
    // Another robot may still slide the other way.
    assert!(solver.move_robot(Piece::Red, Direction::Down));
    assert_eq!(solver.position(Piece::Red), 3);
}

#[test]
fn undo_restores_cells_and_position() {
    let mut solver = Solver::new(small_board());
    let tiles_before = solver.board.tiles.clone();
    assert!(solver.move_robot(Piece::Green, Direction::Down));
    assert_ne!(solver.board.tiles, tiles_before);
    solver.undo_move(Piece::Green, 3);
    assert_eq!(solver.board.tiles, tiles_before);
    assert_eq!(solver.position(Piece::Green), 3);
}

#[test]
fn state_key_packs_one_byte_per_robot() {
    let solver = Solver::new(small_board());
    // Red 0 in bits 0-7, Blue 1 in bits 8-15, Green 3 in bits 16-23, Yellow 2
    // in bits 24-31.
    assert_eq!(solver.compute_hash(), 0x0203_0100);
}

#[test]
fn distance_table_counts_runs_from_the_goal() {
    let solver = Solver::new(small_board());
    // The goal is the lower right corner of an open 3 by 3 room: its row and
    // column are one run away, every other cell two.
    assert_eq!(solver.precomputed_target_moves, vec![2, 2, 1, 2, 2, 1, 1, 1, 0]);
}

#[test]
fn distance_table_marks_walled_off_cells() {
    let tiles = vec![
        UP | LEFT | RIGHT, UP | LEFT | RIGHT, UP | LEFT | RIGHT,
        LEFT | RIGHT, LEFT | RIGHT, LEFT | RIGHT,
        LEFT | DOWN | RIGHT, LEFT | DOWN | RIGHT, LEFT | DOWN | RIGHT,
    ];
    let initial_robots = vec![
        Robot { id: Piece::Red, position: 0 },
        Robot { id: Piece::Green, position: 4 },
        Robot { id: Piece::Blue, position: 1 },
        Robot { id: Piece::Yellow, position: 7 },
    ];
    let goal = Goal { robot_id: Piece::Red, position: 6 };
    let board = Board { tiles, initial_robots, width: 3, height: 3, goal };
    let mut solver = Solver::new(board);
    assert_eq!(solver.precomputed_target_moves[0], 1);
    assert_eq!(solver.precomputed_target_moves[3], 1);
    assert_eq!(solver.precomputed_target_moves[6], 0);
    assert_eq!(solver.precomputed_target_moves[1], UNREACHABLE);
    assert_eq!(solver.precomputed_target_moves[8], UNREACHABLE);
    assert!(solver.solve(1));
    assert_eq!(solver.moves().clone(), vec![Move { robot_id: Piece::Red, direction: Direction::Down }]);
    assert!(!Solver::new(unsolvable_board()).solve(3));
}

fn unsolvable_board() -> Board {
    let tiles = vec![
        UP | LEFT | RIGHT, UP | LEFT | RIGHT, UP | LEFT | RIGHT,
        LEFT | RIGHT, LEFT | RIGHT, LEFT | RIGHT,
        LEFT | DOWN | RIGHT, LEFT | DOWN | RIGHT, LEFT | DOWN | RIGHT,
    ];
    let initial_robots = vec![
        Robot { id: Piece::Red, position: 0 },
        Robot { id: Piece::Green, position: 4 },
        Robot { id: Piece::Blue, position: 5 },
        Robot { id: Piece::Yellow, position: 7 },
    ];
    let goal = Goal { robot_id: Piece::Red, position: 8 };
    Board { tiles, initial_robots, width: 3, height: 3, goal }
}

#[test]
fn offsets_and_walls() {
    let board = small_board();
    assert_eq!(board.offset(Direction::Up), -3);
    assert_eq!(board.offset(Direction::Down), 3);
    assert_eq!(board.offset(Direction::Left), -1);
    assert_eq!(board.offset(Direction::Right), 1);
    assert!(board.has_wall(0, Direction::Up));
    assert!(!board.has_wall(0, Direction::Down));
    assert!(!board.has_robot(0));
    assert_eq!(board.next_open(4, Direction::Up), Some(1));
    assert_eq!(board.next_open(2, Direction::Right), None);
}

#[test]
fn directions_reverse_and_name() {
    assert_eq!(reverse(Direction::Up), Direction::Down);
    assert_eq!(reverse(Direction::Down), Direction::Up);
    assert_eq!(reverse(Direction::Left), Direction::Right);
    assert_eq!(reverse(Direction::Right), Direction::Left);
    assert_eq!(direction_name(Direction::Up), 'u');
    assert_eq!(direction_name(Direction::Down), 'd');
    assert_eq!(direction_name(Direction::Left), 'l');
    assert_eq!(direction_name(Direction::Right), 'r');
    assert_eq!(Piece::Yellow.label(), 'Y');
}

#[test]
fn dfs_finds_home_even_past_the_depth_limit() {
    let mut board = small_board();
    board.goal = Goal { robot_id: Piece::Red, position: 0 };
    let mut solver = Solver::new(board);
    assert!(solver.dfs(5, 1));
    assert!(solver.cache.is_empty());
}

#[test]
fn dfs_fails_past_the_depth_limit_without_touching_the_cache() {
    let mut solver = Solver::new(small_board());
    assert!(!solver.dfs(2, 1));
    assert!(solver.cache.is_empty());
}

#[test]
fn dfs_prunes_by_the_distance_table() {
    let mut solver = Solver::new(small_board());
    // Red's cell is two runs from the goal; one move of budget cannot do.
    assert!(!solver.dfs(0, 1));
    assert!(solver.cache.is_empty());
}

#[test]
fn dfs_records_and_then_prunes_by_the_state_key() {
    let mut solver = Solver::new(small_board());
    // With an empty move stack the cache key is the state key itself.
    let key = solver.cache_key();
    assert_eq!(key, solver.compute_hash() as u64);
    assert!(!solver.dfs(0, 2));
    assert_eq!(solver.cache.get(&key), Some(&2));
    let cache_before = solver.cache.clone();
    assert!(!solver.dfs(0, 2));
    assert_eq!(solver.cache, cache_before);
    assert_eq!(solver.robots, vec![0, 3, 1, 2]);
}

#[test]
fn cache_key_carries_the_last_move() {
    let mut solver = Solver::new(small_board());
    assert!(solver.move_robot(Piece::Green, Direction::Down));
    solver.move_stack.push(Move { robot_id: Piece::Green, direction: Direction::Down });
    // Green is piece 1 and down is direction 1: code 1 + 4 * 1 + 1.
    assert_eq!(solver.cache_key(), solver.compute_hash() as u64 + (6u64 << 32));
}

#[test]
fn mirrored_walls_are_recognised() {
    assert!(small_board().walls_are_mirrored());
    assert!(first_big_board().walls_are_mirrored());
    let mut board = small_board();
    board.tiles[0] |= RIGHT;
    assert!(!board.walls_are_mirrored());
}

#[test]
fn found_solution_never_undoes_its_previous_move() {
    let mut solver = Solver::new(second_big_board());
    assert!(solver.solve(10));
    let moves = solver.moves().clone();
    for pair in moves.windows(2) {
        assert!(!(pair[0].robot_id == pair[1].robot_id && reverse(pair[0].direction) == pair[1].direction));
    }
}
