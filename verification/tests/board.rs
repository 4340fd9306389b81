use reversi::board::{Board, Pos};
use reversi::square::Square;

fn count(board: &Board, s: Square) -> usize {
    let n = board.size() as isize;
    let mut k = 0;
    for y in 0..n {
        for x in 0..n {
            if board.get_at(&(y, x)) == s {
                k += 1;
            }
        }
    }
    k
}

fn snapshot(board: &Board) -> Vec<Square> {
    let n = board.size() as isize;
    let mut cells = Vec::new();
    for y in 0..n {
        for x in 0..n {
            cells.push(board.get_at(&(y, x)));
        }
    }
    cells
}

/// An 8×8 board with no disk on it.
fn blank() -> Board {
    let mut board = Board::new(8);
    for y in 3..5 {
        for x in 3..5 {
            board.put_at(&(y, x), Square::Empty);
        }
    }
    board
}

#[test]
fn opponent_of_black_is_white_and_of_anything_else_black() {
    assert_eq!(Square::Black.opponent(), Square::White);
    assert_eq!(Square::White.opponent(), Square::Black);
    assert_eq!(Square::Empty.opponent(), Square::Black);
}

#[test]
fn new_board_holds_the_four_centre_disks() {
    let board = Board::new(8);
    assert_eq!(board.size(), 8);
    assert_eq!(board.get_at(&(3, 3)), Square::Black);
    assert_eq!(board.get_at(&(4, 4)), Square::Black);
    assert_eq!(board.get_at(&(3, 4)), Square::White);
    assert_eq!(board.get_at(&(4, 3)), Square::White);
    assert_eq!(count(&board, Square::Black), 2);
    assert_eq!(count(&board, Square::White), 2);
    assert_eq!(count(&board, Square::Empty), 60);
}

#[test]
fn new_board_of_other_sizes_is_centred() {
    let small = Board::new(2);
    assert_eq!(
        snapshot(&small),
        vec![Square::Black, Square::White, Square::White, Square::Black]
    );
    let wide = Board::new(10);
    assert_eq!(wide.get_at(&(4, 4)), Square::Black);
    assert_eq!(wide.get_at(&(5, 5)), Square::Black);
    assert_eq!(wide.get_at(&(4, 5)), Square::White);
    assert_eq!(wide.get_at(&(5, 4)), Square::White);
    assert_eq!(count(&wide, Square::Empty), 96);
}

#[test]
fn create_accepts_positive_even_sizes_only() {
    assert!(Board::create(0).is_none());
    assert!(Board::create(1).is_none());
    assert!(Board::create(7).is_none());
    assert!(Board::create(usize::MAX).is_none());
    assert!(Board::create(usize::MAX - 1).is_none());
    let board = Board::create(8).unwrap();
    assert_eq!(snapshot(&board), snapshot(&Board::new(8)));
    assert_eq!(Board::create(2).unwrap().size(), 2);
}

#[test]
fn positions_outside_the_grid_are_off_board() {
    let board = Board::new(8);
    let outside: [Pos; 10] = [
        (-1, 0),
        (0, -1),
        (8, 0),
        (0, 8),
        (8, 8),
        (-1, -1),
        (isize::MAX, 0),
        (0, isize::MAX),
        (isize::MIN, 3),
        (3, isize::MIN),
    ];
    for pos in outside.iter() {
        assert!(!board.is_on_board(pos));
        assert_eq!(board.safe_get_at(pos), None);
    }
    for y in 0..8 {
        for x in 0..8 {
            assert!(board.is_on_board(&(y, x)));
            assert_eq!(board.safe_get_at(&(y, x)), Some(board.get_at(&(y, x))));
        }
    }
}

#[test]
fn put_at_changes_one_cell() {
    let mut board = Board::new(8);
    let before = snapshot(&board);
    board.put_at(&(2, 5), Square::White);
    let after = snapshot(&board);
    for i in 0..64 {
        if i == 2 * 8 + 5 {
            assert_eq!(after[i], Square::White);
        } else {
            assert_eq!(after[i], before[i]);
        }
    }
    board.put_at(&(2, 5), Square::Empty);
    assert_eq!(snapshot(&board), before);
}

#[test]
fn init_restores_the_starting_position() {
    let mut board = Board::new(8);
    board.put_at(&(0, 0), Square::Black);
    board.put_at(&(3, 3), Square::Empty);
    board.put_at(&(7, 7), Square::White);
    board.init();
    assert_eq!(snapshot(&board), snapshot(&Board::new(8)));
}

#[test]
fn one_direction_takes_the_flanked_run() {
    let board = Board::new(8);
    // From (3,5) to the left: white at (3,4), then black at (3,3).
    assert_eq!(
        board.flippable_poses_for(&(3, 5), &(0, -1), Square::Black),
        Some(vec![(3, 4)])
    );
    // Every other direction from (3,5) meets an empty cell or the edge.
    for dy in -1..2 {
        for dx in -1..2 {
            if (dy, dx) != (0, 0) && (dy, dx) != (0, -1) {
                assert_eq!(board.flippable_poses_for(&(3, 5), &(dy, dx), Square::Black), None);
            }
        }
    }
    // A neighbour of the mover's own colour flanks nothing.
    assert_eq!(board.flippable_poses_for(&(2, 3), &(1, 0), Square::Black), None);
}

#[test]
fn a_long_run_is_taken_nearest_first() {
    let mut board = blank();
    board.put_at(&(2, 1), Square::White);
    board.put_at(&(2, 2), Square::White);
    board.put_at(&(2, 3), Square::White);
    board.put_at(&(2, 4), Square::Black);
    assert_eq!(
        board.flippable_poses_for(&(2, 0), &(0, 1), Square::Black),
        Some(vec![(2, 1), (2, 2), (2, 3)])
    );
    assert_eq!(
        board.flippable_poses_for(&(2, 5), &(0, -1), Square::White),
        Some(vec![(2, 4)])
    );
    assert_eq!(board.flippable_poses(&(2, 0), Square::Black), vec![(2, 1), (2, 2), (2, 3)]);
}

#[test]
fn a_run_that_reaches_the_edge_takes_nothing() {
    let mut board = blank();
    board.put_at(&(0, 5), Square::White);
    board.put_at(&(0, 6), Square::White);
    board.put_at(&(0, 7), Square::White);
    assert_eq!(board.flippable_poses_for(&(0, 4), &(0, 1), Square::Black), None);
    assert_eq!(board.flippable_poses(&(0, 4), Square::Black), Vec::<Pos>::new());
    // The same run closed by a black disk is taken.
    let mut closed = blank();
    closed.put_at(&(0, 5), Square::White);
    closed.put_at(&(0, 6), Square::White);
    closed.put_at(&(0, 7), Square::Black);
    assert_eq!(closed.flippable_poses(&(0, 4), Square::Black), vec![(0, 5), (0, 6)]);
}

#[test]
fn a_run_that_ends_at_an_empty_cell_takes_nothing() {
    let mut board = blank();
    board.put_at(&(4, 2), Square::White);
    board.put_at(&(4, 3), Square::White);
    board.put_at(&(4, 5), Square::Black);
    assert_eq!(board.flippable_poses_for(&(4, 1), &(0, 1), Square::Black), None);
    assert_eq!(board.flippable_poses(&(4, 1), Square::Black), Vec::<Pos>::new());
}

#[test]
fn captures_come_direction_by_direction() {
    let mut board = blank();
    // Black disks around the target (4,4), each behind one white disk.
    let dirs: [Pos; 8] = [(-1, -1), (-1, 0), (-1, 1), (0, -1), (0, 1), (1, -1), (1, 0), (1, 1)];
    for &(dy, dx) in dirs.iter() {
        board.put_at(&(4 + dy, 4 + dx), Square::White);
        board.put_at(&(4 + 2 * dy, 4 + 2 * dx), Square::Black);
    }
    let expected: Vec<Pos> = dirs.iter().map(|&(dy, dx)| (4 + dy, 4 + dx)).collect();
    assert_eq!(board.flippable_poses(&(4, 4), Square::Black), expected);
    assert_eq!(board.flippable_poses(&(4, 4), Square::White), Vec::<Pos>::new());
    assert_eq!(board.flippable_poses(&(4, 4), Square::Empty), Vec::<Pos>::new());
}

#[test]
fn captures_are_other_cells_on_board_held_by_the_opponent() {
    let mut board = Board::new(8);
    board.put_at(&(2, 4), Square::White);
    board.put_at(&(5, 5), Square::White);
    board.put_at(&(5, 3), Square::Black);
    for &player in [Square::Black, Square::White].iter() {
        for y in 0..8 {
            for x in 0..8 {
                for c in board.flippable_poses(&(y, x), player) {
                    assert_ne!(c, (y, x));
                    assert!(board.is_on_board(&c));
                    assert_eq!(board.get_at(&c), player.opponent());
                }
            }
        }
    }
}

#[test]
fn asking_twice_gives_the_same_captures() {
    let board = Board::new(8);
    for y in 0..8 {
        for x in 0..8 {
            let first = board.flippable_poses(&(y, x), Square::White);
            let second = board.flippable_poses(&(y, x), Square::White);
            assert_eq!(first, second);
        }
    }
    assert_eq!(board.flippable_poses(&(2, 3), Square::White), vec![(3, 3)]);
}

#[test]
fn flip_gives_the_listed_cells_to_the_player() {
    let mut board = Board::new(8);
    let before = snapshot(&board);
    board.flip(Square::White, &[(3, 3), (0, 0), (3, 3)]);
    let after = snapshot(&board);
    for i in 0..64 {
        if i == 3 * 8 + 3 || i == 0 {
            assert_eq!(after[i], Square::White);
        } else {
            assert_eq!(after[i], before[i]);
        }
    }
    board.flip(Square::Black, &[]);
    assert_eq!(snapshot(&board), after);
}

#[test]
fn black_opens_at_row_4_column_6() {
    let mut board = Board::new(8);
    let captures = board.flippable_poses(&(3, 5), Square::Black);
    assert_eq!(captures, vec![(3, 4)]);
    board.apply_move(&(3, 5), Square::Black, &captures);
    assert_eq!(board.get_at(&(3, 5)), Square::Black);
    assert_eq!(board.get_at(&(3, 4)), Square::Black);
    assert_eq!(count(&board, Square::Black), 4);
    assert_eq!(count(&board, Square::White), 1);
    assert_eq!(count(&board, Square::Empty), 59);
}

#[test]
fn a_move_adds_exactly_one_disk() {
    let mut board = Board::new(8);
    let mut player = Square::Black;
    let moves: [Pos; 4] = [(3, 5), (2, 5), (1, 5), (3, 6)];
    for pos in moves.iter() {
        let occupied = 64 - count(&board, Square::Empty);
        assert_eq!(board.get_at(pos), Square::Empty);
        let captures = board.flippable_poses(pos, player);
        assert!(!captures.is_empty());
        board.apply_move(pos, player, &captures);
        assert_eq!(board.get_at(pos), player);
        for c in captures.iter() {
            assert_eq!(board.get_at(c), player);
        }
        assert_eq!(64 - count(&board, Square::Empty), occupied + 1);
        player = player.opponent();
    }
}

#[test]
fn an_occupied_cell_of_the_start_takes_nothing() {
    let board = Board::new(8);
    let centre: [Pos; 4] = [(3, 3), (3, 4), (4, 3), (4, 4)];
    for pos in centre.iter() {
        assert_eq!(board.flippable_poses(pos, Square::Black), Vec::<Pos>::new());
        assert_eq!(board.flippable_poses(pos, Square::White), Vec::<Pos>::new());
    }
}

#[test]
fn both_players_can_move_at_the_start() {
    let board = Board::new(8);
    assert!(board.has_available_pos(Square::Black));
    assert!(board.has_available_pos(Square::White));
    assert!(!board.has_available_pos(Square::Empty));
}

#[test]
fn nobody_can_move_on_a_dead_board() {
    let full = Board::new(2);
    assert!(!full.has_available_pos(Square::Black));
    assert!(!full.has_available_pos(Square::White));
    let empty = blank();
    assert!(!empty.has_available_pos(Square::Black));
    assert!(!empty.has_available_pos(Square::White));
    let mut one_colour = blank();
    one_colour.put_at(&(3, 3), Square::Black);
    one_colour.put_at(&(3, 4), Square::Black);
    assert!(!one_colour.has_available_pos(Square::Black));
    assert!(!one_colour.has_available_pos(Square::White));
}

#[test]
fn a_move_on_an_occupied_cell_does_not_count_as_available() {
    // White at (0,1) is flanked from (0,0) by black at (0,2), but (0,0) is taken.
    let mut board = blank();
    board.put_at(&(0, 0), Square::White);
    board.put_at(&(0, 1), Square::White);
    board.put_at(&(0, 2), Square::Black);
    assert_eq!(board.flippable_poses(&(0, 0), Square::Black), vec![(0, 1)]);
    assert!(!board.has_available_pos(Square::Black));
    assert!(board.has_available_pos(Square::White));
}
