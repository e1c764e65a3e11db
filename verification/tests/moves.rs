// Board construction, legal-move generation and the move operation.

use isolation_game::board::{Board, CellState, SIZE};

/// Makes a move after checking that it is legal for the given side.
fn play(board: &mut Board, human_turn: bool, dest: (usize, usize)) {
    let (_, dests) = board.children(human_turn);
    assert!(dests.contains(&dest), "move {:?} is not legal", dest);
    board.make_move(human_turn, dest);
}

fn non_blocked_count(board: &Board) -> usize {
    let mut count: usize = 0;
    for r in 0..SIZE {
        for c in 0..SIZE {
            if board.cell(r, c).unwrap() != CellState::Blocked {
                count += 1;
            }
        }
    }
    count
}

#[test]
fn new_board_cells() {
    let board = Board::new((0, 0), (3, 3), 'X', 'O');
    for r in 0..SIZE {
        for c in 0..SIZE {
            let expected = if (r, c) == (0, 0) {
                CellState::Human
            } else if (r, c) == (3, 3) {
                CellState::Computer
            } else {
                CellState::Empty
            };
            assert_eq!(board.cell(r, c), Some(expected));
        }
    }
    assert_eq!(board.cell(4, 0), None);
    assert_eq!(board.cell(0, 4), None);
    assert_eq!(board.human_position, (0, 0));
    assert_eq!(board.computer_position, (3, 3));
    assert_eq!(board.human_piece, 'X');
    assert_eq!(board.computer_piece, 'O');
}

#[test]
fn legal_moves_from_opposite_corners() {
    // Human in the top-left corner, computer in the bottom-right corner,
    // human to move: three cells down, three right, and the diagonal stops
    // short of the computer's cell. Order: up, down, left, right, up-right,
    // down-right, up-left, down-left rays.
    let board = Board::new((0, 0), (3, 3), 'X', 'O');
    let (children, dests) = board.children(true);
    assert_eq!(
        dests,
        vec![(1, 0), (2, 0), (3, 0), (0, 1), (0, 2), (0, 3), (1, 1), (2, 2)]
    );
    assert_eq!(children.len(), 8);
}

#[test]
fn legal_moves_stop_at_opponent() {
    let board = Board::new((0, 0), (0, 1), 'X', 'O');
    let (_, dests) = board.children(true);
    assert_eq!(dests, vec![(1, 0), (2, 0), (3, 0), (1, 1), (2, 2), (3, 3)]);
    assert!(!dests.contains(&(0, 1)));
}

#[test]
fn vacated_cell_blocks_paths() {
    // After the human moves from (0,0) to (0,3), the vacated cell (0,0) is
    // blocked, and no later move may pass through or land on it.
    let mut board = Board::new((0, 0), (3, 3), 'X', 'O');
    play(&mut board, true, (0, 3));
    assert_eq!(board.cell(0, 0), Some(CellState::Blocked));
    assert_eq!(board.cell(0, 3), Some(CellState::Human));
    assert_eq!(board.human_position, (0, 3));
    let (_, dests) = board.children(true);
    assert!(!dests.contains(&(0, 0)));
    // The leftward ray from (0,3) stops just before the blocked corner.
    assert!(dests.contains(&(0, 2)));
    assert!(dests.contains(&(0, 1)));
}

#[test]
fn move_blocks_exactly_one_cell() {
    let mut board = Board::new((1, 2), (3, 3), 'X', 'O');
    let before = non_blocked_count(&board);
    play(&mut board, true, (1, 0));
    assert_eq!(non_blocked_count(&board), before - 1);
    let after_first = non_blocked_count(&board);
    play(&mut board, false, (2, 2));
    assert_eq!(non_blocked_count(&board), after_first - 1);
}

#[test]
fn move_touches_only_source_and_destination() {
    let mut board = Board::new((1, 2), (3, 3), 'X', 'O');
    let mut before = Vec::new();
    for r in 0..SIZE {
        for c in 0..SIZE {
            before.push(board.cell(r, c).unwrap());
        }
    }
    play(&mut board, true, (1, 0));
    for r in 0..SIZE {
        for c in 0..SIZE {
            let expected = if (r, c) == (1, 2) {
                CellState::Blocked
            } else if (r, c) == (1, 0) {
                CellState::Human
            } else {
                before[r * SIZE + c]
            };
            assert_eq!(board.cell(r, c), Some(expected));
        }
    }
    assert_eq!(board.computer_position, (3, 3));
}

#[test]
fn blocked_cells_stay_blocked() {
    let mut board = Board::new((0, 0), (3, 3), 'X', 'O');
    play(&mut board, true, (0, 3));
    play(&mut board, false, (3, 0));
    play(&mut board, true, (1, 2));
    assert_eq!(board.cell(0, 0), Some(CellState::Blocked));
    assert_eq!(board.cell(3, 3), Some(CellState::Blocked));
    assert_eq!(board.cell(0, 3), Some(CellState::Blocked));
}

#[test]
fn children_agree_with_make_move() {
    let board = Board::new((2, 1), (0, 3), 'X', 'O');
    let (children, dests) = board.children(false);
    assert_eq!(children.len(), dests.len());
    for (child, dest) in children.iter().zip(dests.iter()) {
        let mut committed = Board::new((2, 1), (0, 3), 'X', 'O');
        committed.make_move(false, *dest);
        for r in 0..SIZE {
            for c in 0..SIZE {
                assert_eq!(child.cell(r, c), committed.cell(r, c));
            }
        }
        assert_eq!(child.human_position, committed.human_position);
        assert_eq!(child.computer_position, committed.computer_position);
    }
}

#[test]
fn enclosed_mover_has_no_moves() {
    // The human walks itself into the top-left corner: the three
    // neighbouring cells of (0,0) end up blocked and the human cannot move.
    let mut board = Board::new((1, 0), (3, 1), 'X', 'O');
    play(&mut board, true, (1, 1));
    play(&mut board, true, (0, 1));
    play(&mut board, true, (0, 0));
    let (children, dests) = board.children(true);
    assert!(children.is_empty());
    assert!(dests.is_empty());
}
