//! The game board: a 4x4 grid of cell states plus both players' positions,
//! with queen-like legal-move generation and the move operation.

use vstd::prelude::*;

verus! {

use vstd::pervasive::VecAdditionalExecFns;

/// Side length of the square grid.
pub const SIZE: usize = 4;

/// State of one grid cell. A cell holds a player exactly while that player
/// stands on it; a vacated cell stays `Blocked` for the rest of the game.
#[derive(Clone, Copy, PartialEq, Eq, Structural, Debug)]
pub enum CellState {
    Empty,
    Blocked,
    Human,
    Computer,
}

/// True when (r, c) lies on the grid.
pub open spec fn in_bounds(r: int, c: int) -> bool {
    0 <= r < SIZE && 0 <= c < SIZE
}

/// Row-major index of (r, c) in the flattened grid.
pub open spec fn idx(r: int, c: int) -> int {
    r * (SIZE as int) + c
}

/// Cell state at (r, c) of a flattened grid.
pub open spec fn cell_at(grid: Seq<CellState>, r: int, c: int) -> CellState {
    grid[idx(r, c)]
}

/// The cell state that marks the given side's piece.
pub open spec fn mover_piece(human_turn: bool) -> CellState {
    if human_turn {
        CellState::Human
    } else {
        CellState::Computer
    }
}

/// Represents the board of the game.
pub struct Board {
    /// The grid, row-major, of length `SIZE * SIZE`.
    pub board: Vec<CellState>,
    pub human_position: (usize, usize),
    pub computer_position: (usize, usize),
    /// Display symbol of the human player; no effect on the rules.
    pub human_piece: char,
    /// Display symbol of the computer player; no effect on the rules.
    pub computer_piece: char,
}

impl Board {
    /// Human player's position as mathematical coordinates.
    pub open spec fn human_pos(self) -> (int, int) {
        (self.human_position.0 as int, self.human_position.1 as int)
    }

    /// Computer player's position as mathematical coordinates.
    pub open spec fn computer_pos(self) -> (int, int) {
        (self.computer_position.0 as int, self.computer_position.1 as int)
    }

    /// Position of the side to move.
    pub open spec fn mover_pos(self, human_turn: bool) -> (int, int) {
        if human_turn {
            self.human_pos()
        } else {
            self.computer_pos()
        }
    }

    /// Position of the side not to move.
    pub open spec fn opponent_pos(self, human_turn: bool) -> (int, int) {
        if human_turn {
            self.computer_pos()
        } else {
            self.human_pos()
        }
    }

    /// Well-formedness: the grid has the fixed size, both players stand on
    /// the grid on distinct cells, and each player's cell state appears on
    /// exactly the cell that player occupies.
    pub open spec fn wf(self) -> bool {
        &&& self.board@.len() == SIZE * SIZE
        &&& in_bounds(self.human_pos().0, self.human_pos().1)
        &&& in_bounds(self.computer_pos().0, self.computer_pos().1)
        &&& self.human_pos() != self.computer_pos()
        &&& self.human_piece != self.computer_piece
        &&& forall|r: int, c: int|
            in_bounds(r, c) ==> {
                &&& (#[trigger] cell_at(self.board@, r, c) == CellState::Human <==> (r, c)
                    == self.human_pos())
                &&& (cell_at(self.board@, r, c) == CellState::Computer <==> (r, c)
                    == self.computer_pos())
            }
    }

    /// Creates a Board object with both starting cells occupied and all
    /// other cells empty.
    pub fn new(
        human_position: (usize, usize),
        computer_position: (usize, usize),
        human_piece: char,
        computer_piece: char,
    ) -> (board: Board)
        requires
            human_position.0 < SIZE,
            human_position.1 < SIZE,
            computer_position.0 < SIZE,
            computer_position.1 < SIZE,
            human_position != computer_position,
            human_piece != computer_piece,
        ensures
            board.wf(),
            board.human_position == human_position,
            board.computer_position == computer_position,
            board.human_piece == human_piece,
            board.computer_piece == computer_piece,
            forall|r: int, c: int|
                in_bounds(r, c) ==> #[trigger] cell_at(board.board@, r, c) == (if (r, c)
                    == board.human_pos() {
                    CellState::Human
                } else if (r, c) == board.computer_pos() {
                    CellState::Computer
                } else {
                    CellState::Empty
                }),
    {
        let mut grid: Vec<CellState> = Vec::new();
        let mut i: usize = 0;
        while i < SIZE * SIZE
            invariant
                i <= SIZE * SIZE,
                grid@.len() == i,
                forall|j: int| 0 <= j < i ==> grid@[j] == CellState::Empty,
            decreases SIZE * SIZE - i,
        {
            grid.push(CellState::Empty);
            i += 1;
        }
        let mut board = Board {
            board: grid,
            human_position,
            computer_position,
            human_piece,
            computer_piece,
        };
        board.board.set(human_position.0 * SIZE + human_position.1, CellState::Human);
        board.board.set(computer_position.0 * SIZE + computer_position.1, CellState::Computer);
        proof {
            lemma_idx_injective();
        }
        board
    }
}

/// Destinations reachable from (r, c) along the single straight direction
/// (dr, dc), ordered by increasing distance. The walk stops, exclusive of
/// the stopping cell, as soon as it would leave the grid or step onto a
/// cell that is not empty (a blocked cell or either player's cell). `fuel`
/// bounds the walk; `SIZE` is enough on a `SIZE`-sided grid.
pub open spec fn ray_dests(
    grid: Seq<CellState>,
    r: int,
    c: int,
    dr: int,
    dc: int,
    fuel: nat,
) -> Seq<(usize, usize)>
    decreases fuel,
{
    if fuel == 0 {
        Seq::empty()
    } else if in_bounds(r + dr, c + dc) && cell_at(grid, r + dr, c + dc) == CellState::Empty {
        seq![((r + dr) as usize, (c + dc) as usize)] + ray_dests(
            grid,
            r + dr,
            c + dc,
            dr,
            dc,
            (fuel - 1) as nat,
        )
    } else {
        Seq::empty()
    }
}

/// All legal destinations for a piece standing at (r, c): the eight rays in
/// order up, down, left, right, up-right, down-right, up-left, down-left.
pub open spec fn legal_dests_from(grid: Seq<CellState>, r: int, c: int) -> Seq<(usize, usize)> {
    ray_dests(grid, r, c, -1, 0, SIZE as nat) + ray_dests(grid, r, c, 1, 0, SIZE as nat)
        + ray_dests(grid, r, c, 0, -1, SIZE as nat) + ray_dests(grid, r, c, 0, 1, SIZE as nat)
        + ray_dests(grid, r, c, -1, 1, SIZE as nat) + ray_dests(grid, r, c, 1, 1, SIZE as nat)
        + ray_dests(grid, r, c, -1, -1, SIZE as nat) + ray_dests(grid, r, c, 1, -1, SIZE as nat)
}

/// Every destination in `dests` lies on the grid and names an empty cell.
spec fn dests_ok(grid: Seq<CellState>, dests: Seq<(usize, usize)>) -> bool {
    forall|i: int|
        0 <= i < dests.len() ==> {
            let d = #[trigger] dests[i];
            in_bounds(d.0 as int, d.1 as int) && cell_at(grid, d.0 as int, d.1 as int)
                == CellState::Empty
        }
}

proof fn lemma_dests_ok_concat(grid: Seq<CellState>, a: Seq<(usize, usize)>, b: Seq<(usize, usize)>)
    requires
        dests_ok(grid, a),
        dests_ok(grid, b),
    ensures
        dests_ok(grid, a + b),
{
    assert forall|i: int| 0 <= i < (a + b).len() implies {
        let d = #[trigger] (a + b)[i];
        in_bounds(d.0 as int, d.1 as int) && cell_at(grid, d.0 as int, d.1 as int)
            == CellState::Empty
    } by {
        if i < a.len() {
            assert((a + b)[i] == a[i]);
        } else {
            assert((a + b)[i] == b[i - a.len()]);
        }
    }
}

proof fn lemma_ray_dests_sound(grid: Seq<CellState>, r: int, c: int, dr: int, dc: int, fuel: nat)
    ensures
        dests_ok(grid, ray_dests(grid, r, c, dr, dc, fuel)),
    decreases fuel,
{
    if fuel > 0 && in_bounds(r + dr, c + dc) && cell_at(grid, r + dr, c + dc) == CellState::Empty {
        lemma_ray_dests_sound(grid, r + dr, c + dc, dr, dc, (fuel - 1) as nat);
        lemma_dests_ok_concat(
            grid,
            seq![((r + dr) as usize, (c + dc) as usize)],
            ray_dests(grid, r + dr, c + dc, dr, dc, (fuel - 1) as nat),
        );
    }
}

proof fn lemma_legal_dests_from_sound(grid: Seq<CellState>, r: int, c: int)
    ensures
        dests_ok(grid, legal_dests_from(grid, r, c)),
{
    lemma_ray_dests_sound(grid, r, c, -1, 0, SIZE as nat);
    lemma_ray_dests_sound(grid, r, c, 1, 0, SIZE as nat);
    lemma_ray_dests_sound(grid, r, c, 0, -1, SIZE as nat);
    lemma_ray_dests_sound(grid, r, c, 0, 1, SIZE as nat);
    lemma_ray_dests_sound(grid, r, c, -1, 1, SIZE as nat);
    lemma_ray_dests_sound(grid, r, c, 1, 1, SIZE as nat);
    lemma_ray_dests_sound(grid, r, c, -1, -1, SIZE as nat);
    lemma_ray_dests_sound(grid, r, c, 1, -1, SIZE as nat);
    let s1 = ray_dests(grid, r, c, -1, 0, SIZE as nat);
    let s2 = ray_dests(grid, r, c, 1, 0, SIZE as nat);
    let s3 = ray_dests(grid, r, c, 0, -1, SIZE as nat);
    let s4 = ray_dests(grid, r, c, 0, 1, SIZE as nat);
    let s5 = ray_dests(grid, r, c, -1, 1, SIZE as nat);
    let s6 = ray_dests(grid, r, c, 1, 1, SIZE as nat);
    let s7 = ray_dests(grid, r, c, -1, -1, SIZE as nat);
    let s8 = ray_dests(grid, r, c, 1, -1, SIZE as nat);
    lemma_dests_ok_concat(grid, s1, s2);
    lemma_dests_ok_concat(grid, s1 + s2, s3);
    lemma_dests_ok_concat(grid, s1 + s2 + s3, s4);
    lemma_dests_ok_concat(grid, s1 + s2 + s3 + s4, s5);
    lemma_dests_ok_concat(grid, s1 + s2 + s3 + s4 + s5, s6);
    lemma_dests_ok_concat(grid, s1 + s2 + s3 + s4 + s5 + s6, s7);
    lemma_dests_ok_concat(grid, s1 + s2 + s3 + s4 + s5 + s6 + s7, s8);
}

impl Board {
    /// The ordered sequence of legal destinations for the side to move.
    pub open spec fn legal_dests(self, human_turn: bool) -> Seq<(usize, usize)> {
        legal_dests_from(
            self.board@,
            self.mover_pos(human_turn).0,
            self.mover_pos(human_turn).1,
        )
    }
}

/// Law: a legal destination always lies on the grid and names an empty cell,
/// so it is never a blocked cell, never the opponent's cell, and never the
/// mover's own cell.
pub proof fn lemma_legal_dests_sound(b: Board, human_turn: bool)
    requires
        b.wf(),
    ensures
        forall|i: int|
            0 <= i < b.legal_dests(human_turn).len() ==> {
                let d = #[trigger] b.legal_dests(human_turn)[i];
                &&& in_bounds(d.0 as int, d.1 as int)
                &&& cell_at(b.board@, d.0 as int, d.1 as int) == CellState::Empty
                &&& (d.0 as int, d.1 as int) != b.opponent_pos(human_turn)
                &&& (d.0 as int, d.1 as int) != b.mover_pos(human_turn)
            },
{
    let m = b.mover_pos(human_turn);
    lemma_legal_dests_from_sound(b.board@, m.0, m.1);
}

/// The grid after a piece moves from (fr, fc) to (tr, tc): the destination
/// takes the piece and the vacated cell becomes permanently blocked.
pub open spec fn grid_after_move(
    grid: Seq<CellState>,
    fr: int,
    fc: int,
    tr: int,
    tc: int,
    piece: CellState,
) -> Seq<CellState> {
    grid.update(idx(tr, tc), piece).update(idx(fr, fc), CellState::Blocked)
}

/// The move to `dest` can be carried out on this grid by a piece standing at
/// `mover`: both cells are on a grid of the fixed size, the destination is
/// empty and the mover's cell is not blocked.
pub open spec fn move_applicable(
    grid: Seq<CellState>,
    mover: (int, int),
    dest: (usize, usize),
) -> bool {
    &&& grid.len() == SIZE * SIZE
    &&& in_bounds(mover.0, mover.1)
    &&& in_bounds(dest.0 as int, dest.1 as int)
    &&& cell_at(grid, dest.0 as int, dest.1 as int) == CellState::Empty
    &&& cell_at(grid, mover.0, mover.1) != CellState::Blocked
}

/// `post` is `pre` after the side to move went to `dest`: the mover's symbol
/// stands at `dest`, the vacated cell is blocked, the mover's stored location
/// is `dest`, and the opponent's location, the symbols and the rest of the
/// grid are untouched.
pub open spec fn is_move_result(
    pre: Board,
    human_turn: bool,
    dest: (usize, usize),
    post: Board,
) -> bool {
    &&& post.board@ == grid_after_move(
        pre.board@,
        pre.mover_pos(human_turn).0,
        pre.mover_pos(human_turn).1,
        dest.0 as int,
        dest.1 as int,
        mover_piece(human_turn),
    )
    &&& post.human_position == (if human_turn {
        dest
    } else {
        pre.human_position
    })
    &&& post.computer_position == (if human_turn {
        pre.computer_position
    } else {
        dest
    })
    &&& post.human_piece == pre.human_piece
    &&& post.computer_piece == pre.computer_piece
}

/// How many cells of the grid are not blocked. Every move lowers this by
/// exactly one, which bounds the length of any game.
pub open spec fn count_non_blocked(grid: Seq<CellState>) -> nat
    decreases grid.len(),
{
    if grid.len() == 0 {
        0
    } else {
        count_non_blocked(grid.drop_last()) + (if grid.last() == CellState::Blocked {
            0nat
        } else {
            1nat
        })
    }
}

proof fn lemma_count_update(grid: Seq<CellState>, i: int, v: CellState)
    requires
        0 <= i < grid.len(),
    ensures
        count_non_blocked(grid.update(i, v)) + (if grid[i] == CellState::Blocked {
            0nat
        } else {
            1nat
        }) == count_non_blocked(grid) + (if v == CellState::Blocked {
            0nat
        } else {
            1nat
        }),
    decreases grid.len(),
{
    if i == grid.len() - 1 {
        assert(grid.update(i, v).drop_last() =~= grid.drop_last());
    } else {
        lemma_count_update(grid.drop_last(), i, v);
        assert(grid.update(i, v).drop_last() =~= grid.drop_last().update(i, v));
        assert(grid.update(i, v).last() == grid.last());
    }
}

/// A move onto an empty destination blocks exactly one formerly non-blocked
/// cell: the count of non-blocked cells goes down by exactly one.
pub proof fn lemma_grid_after_move_count(
    grid: Seq<CellState>,
    fr: int,
    fc: int,
    tr: int,
    tc: int,
    piece: CellState,
)
    requires
        grid.len() == SIZE * SIZE,
        in_bounds(fr, fc),
        in_bounds(tr, tc),
        cell_at(grid, tr, tc) == CellState::Empty,
        cell_at(grid, fr, fc) != CellState::Blocked,
        piece != CellState::Blocked,
    ensures
        count_non_blocked(grid_after_move(grid, fr, fc, tr, tc, piece)) + 1 == count_non_blocked(
            grid,
        ),
{
    let mid = grid.update(idx(tr, tc), piece);
    lemma_count_update(grid, idx(tr, tc), piece);
    lemma_count_update(mid, idx(fr, fc), CellState::Blocked);
}

/// Law: a move onto an empty on-grid destination keeps the board well
/// formed (exactly one cell per player holds that player's state), blocks
/// the vacated cell, keeps every already-blocked cell blocked, leaves every
/// other cell unchanged, and lowers the non-blocked count by exactly one.
pub proof fn lemma_move_preserves_wf(
    pre: Board,
    human_turn: bool,
    dest: (usize, usize),
    post: Board,
)
    requires
        pre.wf(),
        in_bounds(dest.0 as int, dest.1 as int),
        cell_at(pre.board@, dest.0 as int, dest.1 as int) == CellState::Empty,
        is_move_result(pre, human_turn, dest, post),
    ensures
        post.wf(),
        count_non_blocked(post.board@) + 1 == count_non_blocked(pre.board@),
        cell_at(post.board@, pre.mover_pos(human_turn).0, pre.mover_pos(human_turn).1)
            == CellState::Blocked,
        forall|r: int, c: int|
            in_bounds(r, c) && (r, c) != pre.mover_pos(human_turn) && (r, c) != (
                dest.0 as int,
                dest.1 as int,
            ) ==> #[trigger] cell_at(post.board@, r, c) == cell_at(pre.board@, r, c),
        forall|r: int, c: int|
            in_bounds(r, c) && cell_at(pre.board@, r, c) == CellState::Blocked
                ==> #[trigger] cell_at(post.board@, r, c) == CellState::Blocked,
{
    lemma_idx_injective();
    let (fr, fc) = pre.mover_pos(human_turn);
    let tr = dest.0 as int;
    let tc = dest.1 as int;
    assert((fr, fc) != (tr, tc));
    assert forall|r: int, c: int| in_bounds(r, c) implies #[trigger] cell_at(post.board@, r, c)
        == (if (r, c) == (fr, fc) {
        CellState::Blocked
    } else if (r, c) == (tr, tc) {
        mover_piece(human_turn)
    } else {
        cell_at(pre.board@, r, c)
    }) by {
        assert(idx(r, c) < SIZE * SIZE);
    }
    lemma_grid_after_move_count(pre.board@, fr, fc, tr, tc, mover_piece(human_turn));
}

/// `post` is the descendant of `pre` reached by playing `moves` in order:
/// each entry names the side that moves and a destination that is legal for
/// it at that point.
pub open spec fn reachable(pre: Board, moves: Seq<(bool, (usize, usize))>, post: Board) -> bool
    decreases moves.len(),
{
    if moves.len() == 0 {
        post == pre
    } else {
        &&& pre.legal_dests(moves[0].0).contains(moves[0].1)
        &&& exists|mid: Board|
            {
                &&& #[trigger] is_move_result(pre, moves[0].0, moves[0].1, mid)
                &&& reachable(mid, moves.drop_first(), post)
            }
    }
}

/// Law: blocking is monotonic. Every descendant of a well-formed board is
/// well formed, every cell blocked in the ancestor is still blocked in the
/// descendant, and each of the moves on the way blocked exactly one more
/// cell.
pub proof fn lemma_blocked_monotonic(pre: Board, moves: Seq<(bool, (usize, usize))>, post: Board)
    requires
        pre.wf(),
        reachable(pre, moves, post),
    ensures
        post.wf(),
        count_non_blocked(post.board@) + moves.len() == count_non_blocked(pre.board@),
        forall|r: int, c: int|
            in_bounds(r, c) && cell_at(pre.board@, r, c) == CellState::Blocked
                ==> #[trigger] cell_at(post.board@, r, c) == CellState::Blocked,
    decreases moves.len(),
{
    if moves.len() > 0 {
        let human_turn = moves[0].0;
        let dest = moves[0].1;
        let mid = choose|mid: Board|
            {
                &&& #[trigger] is_move_result(pre, human_turn, dest, mid)
                &&& reachable(mid, moves.drop_first(), post)
            };
        lemma_legal_dests_sound(pre, human_turn);
        let s = pre.legal_dests(human_turn);
        let w = choose|i: int| 0 <= i < s.len() && s[i] == dest;
        assert(s[w] == dest);
        lemma_move_preserves_wf(pre, human_turn, dest, mid);
        lemma_blocked_monotonic(mid, moves.drop_first(), post);
    }
}

impl Board {
    /// Copies the board and makes a move to the specified location.
    fn create_board(&self, human_turn: bool, move_location: (usize, usize)) -> (child: Board)
        requires
            self.wf(),
            in_bounds(move_location.0 as int, move_location.1 as int),
            cell_at(self.board@, move_location.0 as int, move_location.1 as int)
                == CellState::Empty,
        ensures
            is_move_result(*self, human_turn, move_location, child),
            child.wf(),
            count_non_blocked(child.board@) + 1 == count_non_blocked(self.board@),
    {
        let mut grid = self.board.clone();
        proof {
            assert(grid@ =~= self.board@);
        }
        let (fr, fc) = if human_turn {
            self.human_position
        } else {
            self.computer_position
        };
        let piece = if human_turn {
            CellState::Human
        } else {
            CellState::Computer
        };
        grid.set(move_location.0 * SIZE + move_location.1, piece);
        grid.set(fr * SIZE + fc, CellState::Blocked);
        let child = if human_turn {
            Board {
                board: grid,
                human_position: move_location,
                computer_position: self.computer_position,
                human_piece: self.human_piece,
                computer_piece: self.computer_piece,
            }
        } else {
            Board {
                board: grid,
                human_position: self.human_position,
                computer_position: move_location,
                human_piece: self.human_piece,
                computer_piece: self.computer_piece,
            }
        };
        proof {
            lemma_move_preserves_wf(*self, human_turn, move_location, child);
        }
        child
    }

    /// Walks one straight direction from the mover's cell, appending each
    /// destination, with the successor board it leads to, until the walk
    /// would leave the grid or hit a non-empty cell.
    fn scan_ray(
        &self,
        human_turn: bool,
        dr: i8,
        dc: i8,
        boards: &mut Vec<Board>,
        dests: &mut Vec<(usize, usize)>,
    )
        requires
            self.wf(),
            -1 <= dr <= 1,
            -1 <= dc <= 1,
            !(dr == 0 && dc == 0),
            old(boards)@.len() == old(dests)@.len(),
            forall|i: int|
                0 <= i < old(dests)@.len() ==> is_move_result(
                    *self,
                    human_turn,
                    old(dests)@[i],
                    #[trigger] old(boards)@[i],
                ),
        ensures
            final(dests)@ == old(dests)@ + ray_dests(
                self.board@,
                self.mover_pos(human_turn).0,
                self.mover_pos(human_turn).1,
                dr as int,
                dc as int,
                SIZE as nat,
            ),
            final(boards)@.len() == final(dests)@.len(),
            forall|i: int|
                0 <= i < final(dests)@.len() ==> is_move_result(
                    *self,
                    human_turn,
                    final(dests)@[i],
                    #[trigger] final(boards)@[i],
                ),
    {
        let (pr, pc) = if human_turn {
            self.human_position
        } else {
            self.computer_position
        };
        let mut cr = pr;
        let mut cc = pc;
        let mut fuel: usize = SIZE;
        let ghost full = ray_dests(
            self.board@,
            pr as int,
            pc as int,
            dr as int,
            dc as int,
            SIZE as nat,
        );
        let ghost dests0 = dests@;
        proof {
            assert(dests0 + full =~= dests@ + ray_dests(
                self.board@,
                cr as int,
                cc as int,
                dr as int,
                dc as int,
                fuel as nat,
            ));
        }
        loop
            invariant_except_break
                self.wf(),
                -1 <= dr <= 1,
                -1 <= dc <= 1,
                !(dr == 0 && dc == 0),
                (pr, pc) == (if human_turn {
                    self.human_position
                } else {
                    self.computer_position
                }),
                full == ray_dests(
                    self.board@,
                    pr as int,
                    pc as int,
                    dr as int,
                    dc as int,
                    SIZE as nat,
                ),
                in_bounds(cr as int, cc as int),
                fuel <= SIZE,
                boards@.len() == dests@.len(),
                forall|i: int|
                    0 <= i < dests@.len() ==> is_move_result(
                        *self,
                        human_turn,
                        dests@[i],
                        #[trigger] boards@[i],
                    ),
                dests0 + full == dests@ + ray_dests(
                    self.board@,
                    cr as int,
                    cc as int,
                    dr as int,
                    dc as int,
                    fuel as nat,
                ),
            ensures
                dests@ == dests0 + full,
                boards@.len() == dests@.len(),
                forall|i: int|
                    0 <= i < dests@.len() ==> is_move_result(
                        *self,
                        human_turn,
                        dests@[i],
                        #[trigger] boards@[i],
                    ),
            decreases fuel,
        {
            let ghost rest = ray_dests(
                self.board@,
                cr as int,
                cc as int,
                dr as int,
                dc as int,
                fuel as nat,
            );
            if fuel == 0 {
                proof {
                    assert(dests@ + rest =~= dests@);
                }
                break ;
            }
            if (dr < 0 && cr == 0) || (dr > 0 && cr == SIZE - 1) || (dc < 0 && cc == 0) || (dc > 0
                && cc == SIZE - 1) {
                proof {
                    assert(!in_bounds(cr as int + dr as int, cc as int + dc as int));
                    assert(dests@ + rest =~= dests@);
                }
                break ;
            }
            let nr = if dr > 0 {
                cr + 1
            } else if dr < 0 {
                cr - 1
            } else {
                cr
            };
            let nc = if dc > 0 {
                cc + 1
            } else if dc < 0 {
                cc - 1
            } else {
                cc
            };
            assert(nr as int == cr as int + dr as int && nc as int == cc as int + dc as int);
            assert(in_bounds(nr as int, nc as int));
            let cell = self.board[nr * SIZE + nc];
            assert(cell == cell_at(self.board@, nr as int, nc as int));
            if cell != CellState::Empty {
                proof {
                    assert(rest =~= Seq::<(usize, usize)>::empty());
                    assert(dests@ + rest =~= dests@);
                }
                break ;
            }
            let ghost pre_dests = dests@;
            dests.push((nr, nc));
            let child = self.create_board(human_turn, (nr, nc));
            boards.push(child);
            proof {
                let tail = ray_dests(
                    self.board@,
                    nr as int,
                    nc as int,
                    dr as int,
                    dc as int,
                    (fuel - 1) as nat,
                );
                assert(rest == seq![(nr, nc)] + tail);
                assert(pre_dests + rest =~= dests@ + tail);
            }
            cr = nr;
            cc = nc;
            fuel = fuel - 1;
        }
    }

    /// Generates all the children of a board given whose turn it is: for
    /// every legal destination, in generation order, the successor board and
    /// the destination itself.
    pub fn children(&self, human_turn: bool) -> (r: (Vec<Board>, Vec<(usize, usize)>))
        requires
            self.wf(),
        ensures
            r.1@ == self.legal_dests(human_turn),
            r.0@.len() == r.1@.len(),
            forall|i: int|
                0 <= i < r.1@.len() ==> is_move_result(
                    *self,
                    human_turn,
                    r.1@[i],
                    #[trigger] r.0@[i],
                ),
    {
        let mut boards: Vec<Board> = Vec::new();
        let mut dests: Vec<(usize, usize)> = Vec::new();
        let ghost g = self.board@;
        let ghost m = self.mover_pos(human_turn);
        self.scan_ray(human_turn, -1, 0, &mut boards, &mut dests);
        self.scan_ray(human_turn, 1, 0, &mut boards, &mut dests);
        self.scan_ray(human_turn, 0, -1, &mut boards, &mut dests);
        self.scan_ray(human_turn, 0, 1, &mut boards, &mut dests);
        self.scan_ray(human_turn, -1, 1, &mut boards, &mut dests);
        self.scan_ray(human_turn, 1, 1, &mut boards, &mut dests);
        self.scan_ray(human_turn, -1, -1, &mut boards, &mut dests);
        self.scan_ray(human_turn, 1, -1, &mut boards, &mut dests);
        proof {
            let f = SIZE as nat;
            assert(dests@ =~= ray_dests(g, m.0, m.1, -1, 0, f) + ray_dests(g, m.0, m.1, 1, 0, f)
                + ray_dests(g, m.0, m.1, 0, -1, f) + ray_dests(g, m.0, m.1, 0, 1, f) + ray_dests(
                g,
                m.0,
                m.1,
                -1,
                1,
                f,
            ) + ray_dests(g, m.0, m.1, 1, 1, f) + ray_dests(g, m.0, m.1, -1, -1, f) + ray_dests(
                g,
                m.0,
                m.1,
                1,
                -1,
                f,
            ));
        }
        (boards, dests)
    }

    /// Makes a move to the specified location, which must be one of the
    /// side's legal destinations. The vacated cell becomes blocked and stays
    /// blocked, every other cell but the destination is untouched, and the
    /// count of non-blocked cells goes down by exactly one.
    pub fn make_move(&mut self, human_turn: bool, move_location: (usize, usize))
        requires
            old(self).wf(),
            old(self).legal_dests(human_turn).contains(move_location),
        ensures
            is_move_result(*old(self), human_turn, move_location, *final(self)),
            final(self).wf(),
            count_non_blocked(final(self).board@) + 1 == count_non_blocked(old(self).board@),
            cell_at(
                final(self).board@,
                old(self).mover_pos(human_turn).0,
                old(self).mover_pos(human_turn).1,
            ) == CellState::Blocked,
            cell_at(final(self).board@, move_location.0 as int, move_location.1 as int)
                == mover_piece(human_turn),
            forall|r: int, c: int|
                in_bounds(r, c) && (r, c) != old(self).mover_pos(human_turn) && (r, c) != (
                    move_location.0 as int,
                    move_location.1 as int,
                ) ==> #[trigger] cell_at(final(self).board@, r, c) == cell_at(
                    old(self).board@,
                    r,
                    c,
                ),
            forall|r: int, c: int|
                in_bounds(r, c) && cell_at(old(self).board@, r, c) == CellState::Blocked
                    ==> #[trigger] cell_at(final(self).board@, r, c) == CellState::Blocked,
    {
        proof {
            lemma_legal_dests_sound(*self, human_turn);
            let s = self.legal_dests(human_turn);
            let w = choose|i: int| 0 <= i < s.len() && s[i] == move_location;
            assert(s[w] == move_location);
        }
        if human_turn {
            self.board.set(move_location.0 * SIZE + move_location.1, CellState::Human);
            let (hr, hc) = self.human_position;
            self.board.set(hr * SIZE + hc, CellState::Blocked);
            self.human_position = move_location;
        } else {
            self.board.set(move_location.0 * SIZE + move_location.1, CellState::Computer);
            let (kr, kc) = self.computer_position;
            self.board.set(kr * SIZE + kc, CellState::Blocked);
            self.computer_position = move_location;
        }
        proof {
            lemma_move_preserves_wf(*old(self), human_turn, move_location, *self);
        }
    }

    /// Reads the cell state at (row, col), for rendering and inspection.
    /// Returns `None` off the grid or on a board of the wrong size.
    pub fn cell(&self, row: usize, col: usize) -> (r: Option<CellState>)
        ensures
            r == (if in_bounds(row as int, col as int) && self.board@.len() == SIZE * SIZE {
                Some(cell_at(self.board@, row as int, col as int))
            } else {
                Option::<CellState>::None
            }),
    {
        if row < SIZE && col < SIZE && self.board.len() == SIZE * SIZE {
            Some(self.board[row * SIZE + col])
        } else {
            None
        }
    }
}

/// Distinct on-grid coordinates have distinct row-major indices.
proof fn lemma_idx_injective()
    ensures
        forall|r1: int, c1: int, r2: int, c2: int|
            in_bounds(r1, c1) && in_bounds(r2, c2) && #[trigger] idx(r1, c1) == #[trigger] idx(
                r2,
                c2,
            ) ==> r1 == r2 && c1 == c2,
{
}

} // verus!
