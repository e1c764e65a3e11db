//! Exhaustive minimax over the finite game tree. Values are from the
//! computer's standpoint: `WON` when the computer is bound to win with both
//! sides playing perfectly, `LOST` when it is bound to lose.

use vstd::prelude::*;

verus! {

use crate::board::Board;
use crate::board::CellState;
use crate::board::cell_at;
use crate::board::count_non_blocked;
use crate::board::grid_after_move;
use crate::board::is_move_result;
use crate::board::legal_dests_from;
use crate::board::lemma_grid_after_move_count;
use crate::board::lemma_legal_dests_sound;
use crate::board::lemma_move_preserves_wf;
use crate::board::move_applicable;
use crate::board::mover_piece;

/// Outcome value: the computer forces a win.
pub const WON: i8 = 1;

/// Outcome value: the computer is bound to lose.
pub const LOST: i8 = -1;

pub open spec fn min_i8(a: i8, b: i8) -> i8 {
    if a <= b {
        a
    } else {
        b
    }
}

pub open spec fn max_i8(a: i8, b: i8) -> i8 {
    if a >= b {
        a
    } else {
        b
    }
}

/// The worst value the side to move can be held to: the mover's loss.
pub open spec fn loss_for(human_turn: bool) -> i8 {
    if human_turn {
        WON
    } else {
        LOST
    }
}

/// The best value the side to move can hope for: the mover's win.
pub open spec fn win_for(human_turn: bool) -> i8 {
    if human_turn {
        LOST
    } else {
        WON
    }
}

/// Minimax value of the position reached when the side to move goes to
/// `dest`, evaluated with the opponent to move next. When the move cannot be
/// carried out (never the case for a legal destination), the mover's loss.
pub open spec fn child_value(
    grid: Seq<CellState>,
    hp: (int, int),
    cp: (int, int),
    human_turn: bool,
    dest: (usize, usize),
) -> i8
    decreases count_non_blocked(grid), 0int, 0int,
    via child_value_decreases
{
    let mover = if human_turn {
        hp
    } else {
        cp
    };
    if move_applicable(grid, mover, dest) {
        minimax_value_spec(
            grid_after_move(
                grid,
                mover.0,
                mover.1,
                dest.0 as int,
                dest.1 as int,
                mover_piece(human_turn),
            ),
            if human_turn {
                (dest.0 as int, dest.1 as int)
            } else {
                hp
            },
            if human_turn {
                cp
            } else {
                (dest.0 as int, dest.1 as int)
            },
            !human_turn,
        )
    } else {
        loss_for(human_turn)
    }
}

#[via_fn]
proof fn child_value_decreases(
    grid: Seq<CellState>,
    hp: (int, int),
    cp: (int, int),
    human_turn: bool,
    dest: (usize, usize),
) {
    let mover = if human_turn {
        hp
    } else {
        cp
    };
    if move_applicable(grid, mover, dest) {
        lemma_grid_after_move_count(
            grid,
            mover.0,
            mover.1,
            dest.0 as int,
            dest.1 as int,
            mover_piece(human_turn),
        );
    }
}

/// Folds the values of the successors named by `dests` into `acc`: the
/// minimum when the human moves (the human tries to push the computer's
/// value down), the maximum when the computer moves.
pub open spec fn fold_children(
    grid: Seq<CellState>,
    hp: (int, int),
    cp: (int, int),
    human_turn: bool,
    dests: Seq<(usize, usize)>,
    acc: i8,
) -> i8
    decreases count_non_blocked(grid), 1int, dests.len(),
{
    if dests.len() == 0 {
        acc
    } else {
        let v = child_value(grid, hp, cp, human_turn, dests[0]);
        let acc2 = if human_turn {
            min_i8(acc, v)
        } else {
            max_i8(acc, v)
        };
        fold_children(grid, hp, cp, human_turn, dests.drop_first(), acc2)
    }
}

/// Exact minimax value, from the computer's standpoint, of the position with
/// the given side to move. A side with no legal destination has lost; with
/// destinations, the best value over the successors, roles alternating every
/// ply. The value is always `WON` or `LOST`: the game is finite and admits
/// no draw.
pub open spec fn minimax_value_spec(
    grid: Seq<CellState>,
    hp: (int, int),
    cp: (int, int),
    human_turn: bool,
) -> i8
    decreases count_non_blocked(grid), 2int, 0int,
{
    let mover = if human_turn {
        hp
    } else {
        cp
    };
    let dests = legal_dests_from(grid, mover.0, mover.1);
    if dests.len() == 0 {
        loss_for(human_turn)
    } else {
        fold_children(grid, hp, cp, human_turn, dests, loss_for(human_turn))
    }
}

/// Minimax value of a board with the given side to move.
pub open spec fn board_value(b: Board, human_turn: bool) -> i8 {
    minimax_value_spec(b.board@, b.human_pos(), b.computer_pos(), human_turn)
}

/// Value of the successor the side to move reaches by going to `dest`,
/// evaluated with the opponent to move.
pub open spec fn dest_value(b: Board, human_turn: bool, dest: (usize, usize)) -> i8 {
    child_value(b.board@, b.human_pos(), b.computer_pos(), human_turn, dest)
}

proof fn lemma_child_value_in_range(
    grid: Seq<CellState>,
    hp: (int, int),
    cp: (int, int),
    human_turn: bool,
    dest: (usize, usize),
)
    ensures
        child_value(grid, hp, cp, human_turn, dest) == WON || child_value(
            grid,
            hp,
            cp,
            human_turn,
            dest,
        ) == LOST,
    decreases count_non_blocked(grid), 0int, 0int,
{
    let mover = if human_turn {
        hp
    } else {
        cp
    };
    if move_applicable(grid, mover, dest) {
        lemma_grid_after_move_count(
            grid,
            mover.0,
            mover.1,
            dest.0 as int,
            dest.1 as int,
            mover_piece(human_turn),
        );
        lemma_minimax_value_in_range(
            grid_after_move(
                grid,
                mover.0,
                mover.1,
                dest.0 as int,
                dest.1 as int,
                mover_piece(human_turn),
            ),
            if human_turn {
                (dest.0 as int, dest.1 as int)
            } else {
                hp
            },
            if human_turn {
                cp
            } else {
                (dest.0 as int, dest.1 as int)
            },
            !human_turn,
        );
    }
}

proof fn lemma_fold_children_in_range(
    grid: Seq<CellState>,
    hp: (int, int),
    cp: (int, int),
    human_turn: bool,
    dests: Seq<(usize, usize)>,
    acc: i8,
)
    requires
        acc == WON || acc == LOST,
    ensures
        fold_children(grid, hp, cp, human_turn, dests, acc) == WON || fold_children(
            grid,
            hp,
            cp,
            human_turn,
            dests,
            acc,
        ) == LOST,
    decreases count_non_blocked(grid), 1int, dests.len(),
{
    if dests.len() > 0 {
        lemma_child_value_in_range(grid, hp, cp, human_turn, dests[0]);
        let v = child_value(grid, hp, cp, human_turn, dests[0]);
        let acc2 = if human_turn {
            min_i8(acc, v)
        } else {
            max_i8(acc, v)
        };
        lemma_fold_children_in_range(grid, hp, cp, human_turn, dests.drop_first(), acc2);
    }
}

/// Law: the minimax value is always an exact outcome, `WON` or `LOST` —
/// never a draw or an undefined value.
pub proof fn lemma_minimax_value_in_range(
    grid: Seq<CellState>,
    hp: (int, int),
    cp: (int, int),
    human_turn: bool,
)
    ensures
        minimax_value_spec(grid, hp, cp, human_turn) == WON || minimax_value_spec(
            grid,
            hp,
            cp,
            human_turn,
        ) == LOST,
    decreases count_non_blocked(grid), 2int, 0int,
{
    let mover = if human_turn {
        hp
    } else {
        cp
    };
    let dests = legal_dests_from(grid, mover.0, mover.1);
    if dests.len() > 0 {
        lemma_fold_children_in_range(grid, hp, cp, human_turn, dests, loss_for(human_turn));
    }
}

/// The fold computes the minimum (human to move) or maximum (computer to
/// move) of `acc` and the successor values: it is bounded by each of them
/// and equal to one of them.
proof fn lemma_fold_children_props(
    grid: Seq<CellState>,
    hp: (int, int),
    cp: (int, int),
    human_turn: bool,
    dests: Seq<(usize, usize)>,
    acc: i8,
)
    ensures
        ({
            let m = fold_children(grid, hp, cp, human_turn, dests, acc);
            &&& (human_turn ==> m <= acc)
            &&& (!human_turn ==> m >= acc)
            &&& (human_turn ==> forall|j: int|
                0 <= j < dests.len() ==> m <= #[trigger] child_value(
                    grid,
                    hp,
                    cp,
                    human_turn,
                    dests[j],
                ))
            &&& (!human_turn ==> forall|j: int|
                0 <= j < dests.len() ==> m >= #[trigger] child_value(
                    grid,
                    hp,
                    cp,
                    human_turn,
                    dests[j],
                ))
            &&& (m == acc || exists|j: int|
                0 <= j < dests.len() && m == #[trigger] child_value(
                    grid,
                    hp,
                    cp,
                    human_turn,
                    dests[j],
                ))
        }),
    decreases dests.len(),
{
    if dests.len() > 0 {
        let v = child_value(grid, hp, cp, human_turn, dests[0]);
        let acc2 = if human_turn {
            min_i8(acc, v)
        } else {
            max_i8(acc, v)
        };
        lemma_fold_children_props(grid, hp, cp, human_turn, dests.drop_first(), acc2);
        let m = fold_children(grid, hp, cp, human_turn, dests, acc);
        assert forall|j: int| 1 <= j < dests.len() implies dests.drop_first()[j - 1]
            == dests[j] by {}
        if m != acc && !(m == v && 0 < dests.len()) {
            if m != acc2 {
                let w = choose|j: int|
                    0 <= j < dests.drop_first().len() && m == #[trigger] child_value(
                        grid,
                        hp,
                        cp,
                        human_turn,
                        dests.drop_first()[j],
                    );
                assert(m == child_value(grid, hp, cp, human_turn, dests[w + 1]));
            }
        }
    }
}

/// Once the accumulator has hit the extreme value the fold cannot leave it:
/// the mover's win while maximizing, the mover's loss while minimizing.
proof fn lemma_fold_children_extreme(
    grid: Seq<CellState>,
    hp: (int, int),
    cp: (int, int),
    human_turn: bool,
    dests: Seq<(usize, usize)>,
    acc: i8,
)
    requires
        acc == if human_turn {
            LOST
        } else {
            WON
        },
    ensures
        fold_children(grid, hp, cp, human_turn, dests, acc) == acc,
    decreases dests.len(),
{
    if dests.len() > 0 {
        lemma_child_value_in_range(grid, hp, cp, human_turn, dests[0]);
        lemma_fold_children_extreme(grid, hp, cp, human_turn, dests.drop_first(), acc);
    }
}

/// Law: with at least one legal destination, minimax evaluation and the
/// re-evaluation of the immediate successors from the other side's
/// standpoint agree: the side to move wins exactly when some successor is
/// lost for the opponent, and loses exactly when every successor is won for
/// the opponent.
pub proof fn lemma_value_consistent_with_children(b: Board, human_turn: bool)
    requires
        b.wf(),
        b.legal_dests(human_turn).len() > 0,
    ensures
        ({
            let dests = b.legal_dests(human_turn);
            &&& (board_value(b, human_turn) == win_for(human_turn) <==> exists|i: int|
                0 <= i < dests.len() && dest_value(b, human_turn, #[trigger] dests[i]) == win_for(
                    human_turn,
                ))
            &&& (board_value(b, human_turn) == loss_for(human_turn) <==> forall|i: int|
                0 <= i < dests.len() ==> dest_value(b, human_turn, #[trigger] dests[i]) == loss_for(
                    human_turn,
                ))
        }),
{
    let grid = b.board@;
    let hp = b.human_pos();
    let cp = b.computer_pos();
    let dests = b.legal_dests(human_turn);
    let m = fold_children(grid, hp, cp, human_turn, dests, loss_for(human_turn));
    lemma_fold_children_props(grid, hp, cp, human_turn, dests, loss_for(human_turn));
    lemma_minimax_value_in_range(grid, hp, cp, human_turn);
    assert forall|i: int| 0 <= i < dests.len() implies #[trigger] child_value(
        grid,
        hp,
        cp,
        human_turn,
        dests[i],
    ) == WON || child_value(grid, hp, cp, human_turn, dests[i]) == LOST by {
        lemma_child_value_in_range(grid, hp, cp, human_turn, dests[i]);
    }
    if m == win_for(human_turn) {
        let w = choose|j: int|
            0 <= j < dests.len() && m == #[trigger] child_value(grid, hp, cp, human_turn, dests[j]);
        assert(dest_value(b, human_turn, dests[w]) == win_for(human_turn));
    }
}

/// Uses minimax to compute the exact game value of a board with the given
/// side to move.
pub fn minimax_value(board: &Board, human_turn: bool) -> (value: i8)
    requires
        board.wf(),
    ensures
        value == board_value(*board, human_turn),
        value == WON || value == LOST,
        board.legal_dests(human_turn).len() == 0 ==> value == loss_for(human_turn),
    decreases count_non_blocked(board.board@),
{
    proof {
        lemma_minimax_value_in_range(
            board.board@,
            board.human_pos(),
            board.computer_pos(),
            human_turn,
        );
    }
    let (children, dests) = board.children(human_turn);
    if children.len() == 0 {
        return if human_turn {
            WON
        } else {
            LOST
        };
    }
    let ghost all = board.legal_dests(human_turn);
    let mut value: i8 = if human_turn {
        WON
    } else {
        LOST
    };
    let mut k: usize = 0;
    proof {
        assert(all.skip(0) =~= all);
    }
    loop
        invariant_except_break
            board.wf(),
            all == board.legal_dests(human_turn),
            children@.len() == all.len(),
            forall|i: int|
                0 <= i < all.len() ==> is_move_result(
                    *board,
                    human_turn,
                    all[i],
                    #[trigger] children@[i],
                ),
            k <= children@.len(),
            value == WON || value == LOST,
            fold_children(
                board.board@,
                board.human_pos(),
                board.computer_pos(),
                human_turn,
                all.skip(k as int),
                value,
            ) == board_value(*board, human_turn),
        ensures
            value == board_value(*board, human_turn),
            value == WON || value == LOST,
        decreases children@.len() - k,
    {
        if k == children.len() {
            proof {
                assert(all.skip(k as int) =~= Seq::<(usize, usize)>::empty());
            }
            break ;
        }
        proof {
            lemma_legal_dests_sound(*board, human_turn);
            lemma_move_preserves_wf(*board, human_turn, all[k as int], children@[k as int]);
        }
        let v = minimax_value(&children[k], !human_turn);
        proof {
            let m = board.mover_pos(human_turn);
            assert(cell_at(board.board@, m.0, m.1) == mover_piece(human_turn));
            assert(move_applicable(board.board@, m, all[k as int]));
            assert(v == child_value(
                board.board@,
                board.human_pos(),
                board.computer_pos(),
                human_turn,
                all[k as int],
            ));
            assert(all.skip(k as int).drop_first() =~= all.skip(k as int + 1));
            assert(all.skip(k as int)[0] == all[k as int]);
        }
        if human_turn {
            if v < value {
                value = v;
            }
        } else {
            if v > value {
                value = v;
            }
        }
        k = k + 1;
        if (human_turn && value == LOST) || (!human_turn && value == WON) {
            proof {
                lemma_fold_children_extreme(
                    board.board@,
                    board.human_pos(),
                    board.computer_pos(),
                    human_turn,
                    all.skip(k as int),
                    value,
                );
            }
            break ;
        }
    }
    value
}

/// Finds the best move for the computer: the first destination, in
/// generation order, whose successor value equals the exact value of the
/// whole position; earlier destinations are strictly worse. `children` and
/// `move_locations` must be the output of `board.children(false)`.
pub fn computer_move(
    board: &Board,
    children: Vec<Board>,
    move_locations: Vec<(usize, usize)>,
) -> (dest: (usize, usize))
    requires
        board.wf(),
        move_locations@ == board.legal_dests(false),
        children@.len() == move_locations@.len(),
        forall|i: int|
            0 <= i < children@.len() ==> is_move_result(
                *board,
                false,
                move_locations@[i],
                #[trigger] children@[i],
            ),
        move_locations@.len() > 0,
    ensures
        ({
            let dests = board.legal_dests(false);
            exists|i: int|
                {
                    &&& 0 <= i < dests.len()
                    &&& dest == #[trigger] dests[i]
                    &&& dest_value(*board, false, dests[i]) == board_value(*board, false)
                    &&& forall|j: int|
                        0 <= j < i ==> dest_value(*board, false, #[trigger] dests[j]) < dest_value(
                            *board,
                            false,
                            dests[i],
                        )
                }
        }),
{
    let ghost all = board.legal_dests(false);
    let mut max: i8 = LOST - 1;
    let mut move_location: (usize, usize) = (0, 0);
    let ghost mut best_i: int = 0;
    let mut i: usize = 0;
    loop
        invariant_except_break
            board.wf(),
            all == board.legal_dests(false),
            move_locations@ == all,
            children@.len() == all.len(),
            forall|j: int|
                0 <= j < children@.len() ==> is_move_result(
                    *board,
                    false,
                    all[j],
                    #[trigger] children@[j],
                ),
            all.len() > 0,
            i <= all.len(),
            i == 0 ==> max == LOST - 1,
            i > 0 ==> {
                &&& 0 <= best_i < i as int
                &&& max == dest_value(*board, false, all[best_i])
                &&& move_location == all[best_i]
                &&& forall|j: int|
                    0 <= j < best_i ==> dest_value(*board, false, #[trigger] all[j]) < max
                &&& forall|j: int|
                    0 <= j < i as int ==> dest_value(*board, false, #[trigger] all[j]) <= max
            },
        ensures
            all == board.legal_dests(false),
            0 <= best_i < all.len(),
            max == dest_value(*board, false, all[best_i]),
            move_location == all[best_i],
            forall|j: int| 0 <= j < best_i ==> dest_value(*board, false, #[trigger] all[j]) < max,
            forall|j: int|
                0 <= j < all.len() ==> dest_value(*board, false, #[trigger] all[j]) <= max,
        decreases all.len() - i,
    {
        if i == children.len() {
            break ;
        }
        proof {
            lemma_legal_dests_sound(*board, false);
            lemma_move_preserves_wf(*board, false, all[i as int], children@[i as int]);
        }
        let temp = minimax_value(&children[i], true);
        proof {
            let m = board.mover_pos(false);
            assert(cell_at(board.board@, m.0, m.1) == mover_piece(false));
            assert(move_applicable(board.board@, m, all[i as int]));
            assert(temp == dest_value(*board, false, all[i as int]));
        }
        if temp > max {
            max = temp;
            move_location = move_locations[i];
            proof {
                best_i = i as int;
            }
        }
        i = i + 1;
        if max == WON {
            proof {
                assert forall|j: int| 0 <= j < all.len() implies dest_value(
                    *board,
                    false,
                    #[trigger] all[j],
                ) <= max by {
                    lemma_child_value_in_range(
                        board.board@,
                        board.human_pos(),
                        board.computer_pos(),
                        false,
                        all[j],
                    );
                }
            }
            break ;
        }
    }
    proof {
        let grid = board.board@;
        let hp = board.human_pos();
        let cp = board.computer_pos();
        lemma_fold_children_props(grid, hp, cp, false, all, LOST);
        lemma_child_value_in_range(grid, hp, cp, false, all[best_i]);
        let m = fold_children(grid, hp, cp, false, all, LOST);
        if m != LOST {
            let w = choose|j: int|
                0 <= j < all.len() && m == #[trigger] child_value(grid, hp, cp, false, all[j]);
            assert(child_value(grid, hp, cp, false, all[w]) <= dest_value(
                *board,
                false,
                all[best_i],
            ));
        }
        assert(dest_value(*board, false, all[best_i]) == board_value(*board, false));
    }
    move_location
}

} // verus!
