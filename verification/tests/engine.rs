// The exhaustive minimax engine: exact outcomes, forced wins, and the
// consistency between a position's value and its successors' values.

use isolation_game::board::Board;
use isolation_game::search::{computer_move, minimax_value, LOST, WON};

/// Makes a move after checking that it is legal for the given side.
fn play(board: &mut Board, human_turn: bool, dest: (usize, usize)) {
    let (_, dests) = board.children(human_turn);
    assert!(dests.contains(&dest), "move {:?} is not legal", dest);
    board.make_move(human_turn, dest);
}

/// Human enclosed in the top-left corner, computer at (3,3) with exactly one
/// legal destination, (3,2).
fn single_move_position() -> Board {
    let mut board = Board::new((1, 0), (3, 1), 'X', 'O');
    play(&mut board, true, (1, 1));
    play(&mut board, true, (0, 1));
    play(&mut board, true, (0, 0));
    play(&mut board, false, (2, 2));
    play(&mut board, false, (2, 3));
    play(&mut board, false, (3, 3));
    board
}

/// Human enclosed in the top-left corner, computer at (3,3) with the three
/// destinations of the leftward ray, every one of them winning.
fn three_winning_moves_position() -> Board {
    let mut board = Board::new((1, 0), (2, 2), 'X', 'O');
    play(&mut board, true, (1, 1));
    play(&mut board, true, (0, 1));
    play(&mut board, true, (0, 0));
    play(&mut board, false, (2, 3));
    play(&mut board, false, (3, 3));
    board
}

#[test]
fn enclosed_mover_evaluates_to_loss() {
    // The human, fully enclosed and to move, has lost: the value from the
    // computer's standpoint is WON.
    let board = single_move_position();
    let (_, dests) = board.children(true);
    assert!(dests.is_empty());
    assert_eq!(minimax_value(&board, true), WON);
}

#[test]
fn enclosed_computer_evaluates_to_loss() {
    // Mirror image: the computer walks itself into the corner and, to move,
    // has lost.
    let mut board = Board::new((3, 1), (1, 0), 'X', 'O');
    play(&mut board, false, (1, 1));
    play(&mut board, false, (0, 1));
    play(&mut board, false, (0, 0));
    let (_, dests) = board.children(false);
    assert!(dests.is_empty());
    assert_eq!(minimax_value(&board, false), LOST);
}

#[test]
fn single_destination_forced_win() {
    // The computer has exactly one legal destination and it leaves the human
    // without a move: a forced win that both evaluate and choose report.
    let board = single_move_position();
    let (children, dests) = board.children(false);
    assert_eq!(dests, vec![(3, 2)]);
    assert_eq!(minimax_value(&board, false), WON);
    let chosen = computer_move(&board, children, dests);
    assert_eq!(chosen, (3, 2));
}

#[test]
fn first_of_equally_good_moves_is_kept() {
    // All three destinations win; the first one generated is chosen.
    let board = three_winning_moves_position();
    let (children, dests) = board.children(false);
    assert_eq!(dests, vec![(3, 2), (3, 1), (3, 0)]);
    for child in &children {
        assert_eq!(minimax_value(child, true), WON);
    }
    assert_eq!(minimax_value(&board, false), WON);
    let chosen = computer_move(&board, children, dests);
    assert_eq!(chosen, (3, 2));
}

#[test]
fn value_is_always_an_exact_outcome() {
    let boards = vec![
        single_move_position(),
        three_winning_moves_position(),
        forced_loss_position(),
    ];
    for board in &boards {
        for human_turn in [true, false] {
            let v = minimax_value(board, human_turn);
            assert!(v == WON || v == LOST);
        }
    }
}

#[test]
fn value_consistent_with_children_computer_side() {
    // The position's value with the computer to move equals the best value
    // over its successors re-evaluated with the human to move.
    let board = three_winning_moves_position();
    let (children, _) = board.children(false);
    assert!(!children.is_empty());
    let any_child_won = children.iter().any(|c| minimax_value(c, true) == WON);
    assert_eq!(minimax_value(&board, false) == WON, any_child_won);
    let all_children_lost = children.iter().all(|c| minimax_value(c, true) == LOST);
    assert_eq!(minimax_value(&board, false) == LOST, all_children_lost);
}

#[test]
fn value_consistent_with_children_human_side() {
    // Mirror image with the human to move: the computer is enclosed, so
    // every human destination wins for the human (LOST for the computer).
    let mut board = Board::new((2, 2), (1, 0), 'X', 'O');
    play(&mut board, false, (1, 1));
    play(&mut board, false, (0, 1));
    play(&mut board, false, (0, 0));
    play(&mut board, true, (2, 3));
    play(&mut board, true, (3, 3));
    let (children, dests) = board.children(true);
    assert_eq!(dests, vec![(3, 2), (3, 1), (3, 0)]);
    let any_child_lost = children.iter().any(|c| minimax_value(c, false) == LOST);
    assert_eq!(minimax_value(&board, true) == LOST, any_child_lost);
    assert!(any_child_lost);
}

/// Computer at (3,3) with the single destination (3,2), which is itself
/// enclosed once (3,3) blocks behind it: a forced loss for the computer.
fn forced_loss_position() -> Board {
    let mut board = Board::new((2, 1), (3, 1), 'X', 'O');
    play(&mut board, true, (2, 2));
    play(&mut board, true, (2, 3));
    play(&mut board, true, (1, 3));
    play(&mut board, false, (3, 3));
    board
}

#[test]
fn losing_side_still_gets_a_move() {
    // The computer, about to lose whatever it does, still returns the first
    // (and here only) generated destination.
    let board = forced_loss_position();
    let (children, dests) = board.children(false);
    assert_eq!(dests, vec![(3, 2)]);
    assert_eq!(minimax_value(&board, false), LOST);
    let chosen = computer_move(&board, children, dests);
    assert_eq!(chosen, (3, 2));
}
