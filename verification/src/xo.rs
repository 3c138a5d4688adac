use vstd::prelude::*;

use crate::text::{board_text, grid_text};
use crate::players::{
    after_replacements, all_present, distinct_roles, handed_back, lemma_after_replacements_value,
    RolePlayers,
};

verus! {

/// Number of rows and of columns of the board.
pub const BOARD_SIZE: usize = 3;

/// The two sides of a Tic-Tac-Toe game.
#[derive(Clone, Copy, PartialEq, Eq, Hash, Debug, Structural)]
pub enum XOPlayerRole {
    X,
    O,
}

/// The other side.
pub open spec fn spec_opposite(role: XOPlayerRole) -> XOPlayerRole {
    match role {
        XOPlayerRole::X => XOPlayerRole::O,
        XOPlayerRole::O => XOPlayerRole::X,
    }
}

impl XOPlayerRole {
    /// The role that moves after this one.
    pub fn opposite(self) -> (r: Self)
        ensures
            r == spec_opposite(self),
    {
        match self {
            XOPlayerRole::X => XOPlayerRole::O,
            XOPlayerRole::O => XOPlayerRole::X,
        }
    }
}

/// A board as the game stores it: `board[row][col]`.
pub type Board = [[Option<XOPlayerRole>; BOARD_SIZE]; BOARD_SIZE];

/// The mathematical view of a board: a sequence of rows, each a sequence of cells.
pub open spec fn grid_of(board: Board) -> Seq<Seq<Option<XOPlayerRole>>> {
    board@.map_values(|row: [Option<XOPlayerRole>; BOARD_SIZE]| row@)
}

/// A grid has the shape of a board.
pub open spec fn is_square(g: Seq<Seq<Option<XOPlayerRole>>>) -> bool {
    &&& g.len() == BOARD_SIZE
    &&& forall|r: int| 0 <= r < BOARD_SIZE ==> #[trigger] g[r].len() == BOARD_SIZE
}

/// The grid with one cell set to `v`.
pub open spec fn grid_set(
    g: Seq<Seq<Option<XOPlayerRole>>>,
    r: int,
    c: int,
    v: Option<XOPlayerRole>,
) -> Seq<Seq<Option<XOPlayerRole>>> {
    g.update(r, g[r].update(c, v))
}

/// Whether a cell holds the given role.
fn holds(cell: Option<XOPlayerRole>, role: XOPlayerRole) -> (b: bool)
    ensures
        b == (cell == Some(role)),
{
    match cell {
        Some(p) => p == role,
        None => false,
    }
}

/// The role that owns row `r`: the one in its first cell, when every cell of the row holds it.
pub open spec fn row_owner(g: Seq<Seq<Option<XOPlayerRole>>>, r: int) -> Option<XOPlayerRole> {
    match g[r][0] {
        Some(p) => if forall|c: int| 0 <= c < BOARD_SIZE ==> #[trigger] g[r][c] == Some(p) {
            Some(p)
        } else {
            None
        },
        None => None,
    }
}

/// The role that owns column `c`.
pub open spec fn col_owner(g: Seq<Seq<Option<XOPlayerRole>>>, c: int) -> Option<XOPlayerRole> {
    match g[0][c] {
        Some(p) => if forall|r: int| 0 <= r < BOARD_SIZE ==> #[trigger] g[r][c] == Some(p) {
            Some(p)
        } else {
            None
        },
        None => None,
    }
}

/// The role that owns the main diagonal.
pub open spec fn diag_owner(g: Seq<Seq<Option<XOPlayerRole>>>) -> Option<XOPlayerRole> {
    match g[0][0] {
        Some(p) => if forall|i: int| 0 <= i < BOARD_SIZE ==> #[trigger] g[i][i] == Some(p) {
            Some(p)
        } else {
            None
        },
        None => None,
    }
}

/// The role that owns the anti-diagonal.
pub open spec fn anti_diag_owner(g: Seq<Seq<Option<XOPlayerRole>>>) -> Option<XOPlayerRole> {
    match g[0][BOARD_SIZE - 1] {
        Some(p) => if forall|i: int|
            0 <= i < BOARD_SIZE ==> #[trigger] g[i][BOARD_SIZE - 1 - i] == Some(p) {
            Some(p)
        } else {
            None
        },
        None => None,
    }
}

/// Every cell of row `r` holds `p`.
pub open spec fn row_full_of(g: Seq<Seq<Option<XOPlayerRole>>>, r: int, p: XOPlayerRole) -> bool {
    forall|c: int| 0 <= c < BOARD_SIZE ==> #[trigger] g[r][c] == Some(p)
}

/// Every cell of column `c` holds `p`.
pub open spec fn col_full_of(g: Seq<Seq<Option<XOPlayerRole>>>, c: int, p: XOPlayerRole) -> bool {
    forall|r: int| 0 <= r < BOARD_SIZE ==> #[trigger] g[r][c] == Some(p)
}

/// Every cell of the main diagonal holds `p`.
pub open spec fn diag_full_of(g: Seq<Seq<Option<XOPlayerRole>>>, p: XOPlayerRole) -> bool {
    forall|i: int| 0 <= i < BOARD_SIZE ==> #[trigger] g[i][i] == Some(p)
}

/// Every cell of the anti-diagonal holds `p`.
pub open spec fn anti_diag_full_of(g: Seq<Seq<Option<XOPlayerRole>>>, p: XOPlayerRole) -> bool {
    forall|i: int| 0 <= i < BOARD_SIZE ==> #[trigger] g[i][BOARD_SIZE - 1 - i] == Some(p)
}

/// Some row, column or diagonal is filled with `p`.
pub open spec fn owns_a_line(g: Seq<Seq<Option<XOPlayerRole>>>, p: XOPlayerRole) -> bool {
    ||| exists|r: int| 0 <= r < BOARD_SIZE && #[trigger] row_full_of(g, r, p)
    ||| exists|c: int| 0 <= c < BOARD_SIZE && #[trigger] col_full_of(g, c, p)
    ||| diag_full_of(g, p)
    ||| anti_diag_full_of(g, p)
}

/// The owner of the first of rows `0..k` that has one.
pub open spec fn first_row_owner(g: Seq<Seq<Option<XOPlayerRole>>>, k: nat) -> Option<
    XOPlayerRole,
>
    decreases k,
{
    if k == 0 {
        None
    } else {
        match first_row_owner(g, (k - 1) as nat) {
            Some(p) => Some(p),
            None => row_owner(g, k - 1),
        }
    }
}

/// The owner of the first of columns `0..k` that has one.
pub open spec fn first_col_owner(g: Seq<Seq<Option<XOPlayerRole>>>, k: nat) -> Option<
    XOPlayerRole,
>
    decreases k,
{
    if k == 0 {
        None
    } else {
        match first_col_owner(g, (k - 1) as nat) {
            Some(p) => Some(p),
            None => col_owner(g, k - 1),
        }
    }
}

/// The winner of a grid: rows are looked at first, top to bottom, then columns,
/// left to right, then the main diagonal, then the anti-diagonal; the first line
/// that one role fills completely decides.
pub open spec fn spec_winner(g: Seq<Seq<Option<XOPlayerRole>>>) -> Option<XOPlayerRole> {
    match first_row_owner(g, BOARD_SIZE as nat) {
        Some(p) => Some(p),
        None => match first_col_owner(g, BOARD_SIZE as nat) {
            Some(p) => Some(p),
            None => match diag_owner(g) {
                Some(p) => Some(p),
                None => anti_diag_owner(g),
            },
        },
    }
}

fn row_owner_of(board: &Board, r: usize) -> (res: Option<XOPlayerRole>)
    requires
        r < BOARD_SIZE,
    ensures
        res == row_owner(grid_of(*board), r as int),
{
    let ghost g = grid_of(*board);
    match board[r][0] {
        Some(role) => {
            let mut c: usize = 0;
            while c < BOARD_SIZE
                invariant
                    r < BOARD_SIZE,
                    c <= BOARD_SIZE,
                    g == grid_of(*board),
                    g[r as int][0] == Some(role),
                    forall|c2: int| 0 <= c2 < c ==> #[trigger] g[r as int][c2] == Some(role),
                decreases BOARD_SIZE - c,
            {
                if !holds(board[r][c], role) {
                    return None;
                }
                c = c + 1;
            }
            Some(role)
        },
        None => None,
    }
}

fn col_owner_of(board: &Board, c: usize) -> (res: Option<XOPlayerRole>)
    requires
        c < BOARD_SIZE,
    ensures
        res == col_owner(grid_of(*board), c as int),
{
    let ghost g = grid_of(*board);
    match board[0][c] {
        Some(role) => {
            let mut r: usize = 0;
            while r < BOARD_SIZE
                invariant
                    c < BOARD_SIZE,
                    r <= BOARD_SIZE,
                    g == grid_of(*board),
                    g[0][c as int] == Some(role),
                    forall|r2: int| 0 <= r2 < r ==> #[trigger] g[r2][c as int] == Some(role),
                decreases BOARD_SIZE - r,
            {
                if !holds(board[r][c], role) {
                    assert(g[r as int][c as int] != Some(role));
                    return None;
                }
                r = r + 1;
            }
            Some(role)
        },
        None => None,
    }
}

fn diag_owner_of(board: &Board) -> (res: Option<XOPlayerRole>)
    ensures
        res == diag_owner(grid_of(*board)),
{
    let ghost g = grid_of(*board);
    match board[0][0] {
        Some(role) => {
            let mut i: usize = 0;
            while i < BOARD_SIZE
                invariant
                    i <= BOARD_SIZE,
                    g == grid_of(*board),
                    g[0][0] == Some(role),
                    forall|i2: int| 0 <= i2 < i ==> #[trigger] g[i2][i2] == Some(role),
                decreases BOARD_SIZE - i,
            {
                if !holds(board[i][i], role) {
                    assert(g[i as int][i as int] != Some(role));
                    return None;
                }
                i = i + 1;
            }
            Some(role)
        },
        None => None,
    }
}

fn anti_diag_owner_of(board: &Board) -> (res: Option<XOPlayerRole>)
    ensures
        res == anti_diag_owner(grid_of(*board)),
{
    let ghost g = grid_of(*board);
    let size = BOARD_SIZE;
    match board[0][size - 1] {
        Some(role) => {
            let mut i: usize = 0;
            while i < size
                invariant
                    size == BOARD_SIZE,
                    i <= size,
                    g == grid_of(*board),
                    g[0][BOARD_SIZE - 1] == Some(role),
                    forall|i2: int|
                        0 <= i2 < i ==> #[trigger] g[i2][BOARD_SIZE - 1 - i2] == Some(role),
                decreases size - i,
            {
                if !holds(board[i][size - 1 - i], role) {
                    assert(g[i as int][BOARD_SIZE - 1 - i] != Some(role));
                    return None;
                }
                i = i + 1;
            }
            Some(role)
        },
        None => None,
    }
}

/// The winner of a board, as `spec_winner` defines it.
pub fn board_winner(board: &Board) -> (res: Option<XOPlayerRole>)
    ensures
        res == spec_winner(grid_of(*board)),
{
    let ghost g = grid_of(*board);
    let mut r: usize = 0;
    while r < BOARD_SIZE
        invariant
            r <= BOARD_SIZE,
            g == grid_of(*board),
            first_row_owner(g, r as nat) is None,
        decreases BOARD_SIZE - r,
    {
        if let Some(role) = row_owner_of(board, r) {
            assert(first_row_owner(g, (r + 1) as nat) == Some(role));
            assert(first_row_owner(g, 2) == Some(role) ==> first_row_owner(g, 3) == Some(role));
            assert(first_row_owner(g, 1) == Some(role) ==> first_row_owner(g, 2) == Some(role));
            return Some(role);
        }
        r = r + 1;
    }
    let mut c: usize = 0;
    while c < BOARD_SIZE
        invariant
            c <= BOARD_SIZE,
            g == grid_of(*board),
            first_row_owner(g, BOARD_SIZE as nat) is None,
            first_col_owner(g, c as nat) is None,
        decreases BOARD_SIZE - c,
    {
        if let Some(role) = col_owner_of(board, c) {
            assert(first_col_owner(g, (c + 1) as nat) == Some(role));
            assert(first_col_owner(g, 2) == Some(role) ==> first_col_owner(g, 3) == Some(role));
            assert(first_col_owner(g, 1) == Some(role) ==> first_col_owner(g, 2) == Some(role));
            return Some(role);
        }
        c = c + 1;
    }
    if let Some(role) = diag_owner_of(board) {
        return Some(role);
    }
    anti_diag_owner_of(board)
}

/// A move: mark the cell at `row`, `col` for the role whose turn it is.
#[derive(Clone, PartialEq, Eq, Debug, Structural)]
pub struct Select {
    pub row: usize,
    pub col: usize,
}

impl Select {
    /// The move on the cell at `row`, `col`.
    pub fn new(row: usize, col: usize) -> (s: Self)
        ensures
            s.row == row,
            s.col == col,
    {
        Self { row, col }
    }

    /// The move names a cell of the board.
    pub open spec fn in_bounds(self) -> bool {
        self.row < BOARD_SIZE && self.col < BOARD_SIZE
    }
}

/// Number of filled cells in a row.
pub open spec fn filled_in_row(row: Seq<Option<XOPlayerRole>>) -> nat
    decreases row.len(),
{
    if row.len() == 0 {
        0
    } else {
        filled_in_row(row.drop_last()) + if row.last() is Some {
            1nat
        } else {
            0nat
        }
    }
}

/// Number of filled cells in a grid.
pub open spec fn filled_count(g: Seq<Seq<Option<XOPlayerRole>>>) -> nat
    decreases g.len(),
{
    if g.len() == 0 {
        0
    } else {
        filled_count(g.drop_last()) + filled_in_row(g.last())
    }
}

/// Every cell of the grid is filled.
pub open spec fn board_full(g: Seq<Seq<Option<XOPlayerRole>>>) -> bool {
    forall|r: int, c: int| 0 <= r < BOARD_SIZE && 0 <= c < BOARD_SIZE ==> #[trigger] g[r][c] is Some
}

/// The moves on the empty cells of row `r`, left to right.
pub open spec fn empties_in_row(r: int, row: Seq<Option<XOPlayerRole>>) -> Seq<Select>
    decreases row.len(),
{
    if row.len() == 0 {
        seq![]
    } else {
        empties_in_row(r, row.drop_last()) + if row.last() is None {
            seq![Select { row: r as usize, col: (row.len() - 1) as usize }]
        } else {
            seq![]
        }
    }
}

/// The moves on the empty cells of a grid, row by row, each row left to right.
pub open spec fn empty_cells(g: Seq<Seq<Option<XOPlayerRole>>>) -> Seq<Select>
    decreases g.len(),
{
    if g.len() == 0 {
        seq![]
    } else {
        empty_cells(g.drop_last()) + empties_in_row(g.len() - 1, g.last())
    }
}

/// The grid of a new game: every cell empty.
pub open spec fn empty_grid() -> Seq<Seq<Option<XOPlayerRole>>> {
    Seq::new(BOARD_SIZE as nat, |r: int| Seq::new(BOARD_SIZE as nat, |c: int| None))
}

/// The score of `role` on a grid: 1 if it won, -1 if the other role won, 0 if nobody did.
pub open spec fn spec_final_score(g: Seq<Seq<Option<XOPlayerRole>>>, role: XOPlayerRole) -> int {
    match spec_winner(g) {
        None => 0,
        Some(w) => if w == role {
            1
        } else {
            -1
        },
    }
}

/// The board, the role whose turn it is and the recorded moves of a game.
pub type PlayState = (Seq<Seq<Option<XOPlayerRole>>>, XOPlayerRole, Seq<Select>);

/// The state after `step_forward_with(action)`: the cell marked for the role
/// whose turn it was, the turn passed, and the move recorded.
pub open spec fn forward_state(s: PlayState, action: Select) -> PlayState {
    (grid_set(s.0, action.row as int, action.col as int, Some(s.1)), spec_opposite(s.1), s.2.push(action))
}

/// The state after `step_backward`: unchanged without recorded moves; else the
/// cell of the last move emptied, the turn passed, and that move dropped.
pub open spec fn backward_state(s: PlayState) -> PlayState {
    if s.2.len() == 0 {
        s
    } else {
        (grid_set(s.0, s.2.last().row as int, s.2.last().col as int, None), spec_opposite(s.1), s.2.drop_last())
    }
}

/// A game of Tic-Tac-Toe on a 3 by 3 board, with the players that joined it
/// and the moves played so far.
pub struct XOGame<P> {
    pub board: Board,
    pub turn: XOPlayerRole,
    role_to_player: RolePlayers<P>,
    history: Vec<Select>,
}

impl<P> XOGame<P> {
    /// The board as a grid.
    pub closed spec fn grid(&self) -> Seq<Seq<Option<XOPlayerRole>>> {
        grid_of(self.board)
    }

    /// The role whose turn it is (the field `turn`).
    pub closed spec fn turn_role(&self) -> XOPlayerRole {
        self.turn
    }

    /// The grid always has the shape of a board.
    pub proof fn lemma_grid_square(&self)
        ensures
            is_square(self.grid()),
    {
    }

    /// The players, by role.
    pub closed spec fn players(&self) -> Map<XOPlayerRole, P> {
        self.role_to_player@
    }

    /// The moves played by `step_forward_with` and not yet taken back, oldest first.
    pub closed spec fn past_moves(&self) -> Seq<Select> {
        self.history@
    }

    /// Every recorded move names a cell of the board.
    pub open spec fn wf(&self) -> bool {
        forall|i: int| 0 <= i < self.past_moves().len() ==> #[trigger] self.past_moves()[i].in_bounds()
    }

    /// A game with an empty board, X to move, no players and no moves.
    pub fn new() -> (g: Self)
        ensures
            g.grid() == empty_grid(),
            g.turn_role() == XOPlayerRole::X,
            g.players() == Map::<XOPlayerRole, P>::empty(),
            g.past_moves() == Seq::<Select>::empty(),
            g.wf(),
    {
        let g = Self {
            board: [[None; BOARD_SIZE]; BOARD_SIZE],
            turn: XOPlayerRole::X,
            role_to_player: RolePlayers::new(),
            history: Vec::new(),
        };
        assert(g.grid() =~~= empty_grid());
        g
    }

    /// The winner, as `spec_winner` defines it.
    pub fn winner(&self) -> (r: Option<XOPlayerRole>)
        ensures
            r == spec_winner(self.grid()),
    {
        board_winner(&self.board)
    }

    /// The role whose turn it is.
    pub fn turn(&self) -> (r: XOPlayerRole)
        ensures
            r == self.turn_role(),
    {
        self.turn
    }

    /// What the cell at `row`, `col` holds.
    pub fn cell(&self, row: usize, col: usize) -> (r: Option<XOPlayerRole>)
        requires
            row < BOARD_SIZE,
            col < BOARD_SIZE,
        ensures
            r == self.grid()[row as int][col as int],
    {
        self.board[row][col]
    }

    /// The board, the turn and the recorded moves together.
    pub open spec fn play_state(&self) -> PlayState {
        (self.grid(), self.turn_role(), self.past_moves())
    }

    /// The players that joined, by role.
    pub fn get_each_role_player(&self) -> (r: &RolePlayers<P>)
        ensures
            r@ == self.players(),
    {
        &self.role_to_player
    }

    /// Adds the player of a role that has none yet.
    pub fn join_player(&mut self, role: XOPlayerRole, player: P)
        requires
            !old(self).players().contains_key(role),
        ensures
            final(self).players() == old(self).players().insert(role, player),
            final(self).grid() == old(self).grid(),
            final(self).turn_role() == old(self).turn_role(),
            final(self).past_moves() == old(self).past_moves(),
    {
        self.role_to_player.insert(role, player);
    }

    /// Puts `new` in place of the player of `role`, which has one, and hands back the one it had.
    pub fn replace_player(&mut self, role: XOPlayerRole, new: P) -> (r: P)
        requires
            old(self).players().contains_key(role),
        ensures
            r == old(self).players()[role],
            final(self).players() == old(self).players().insert(role, new),
            final(self).grid() == old(self).grid(),
            final(self).turn_role() == old(self).turn_role(),
            final(self).past_moves() == old(self).past_moves(),
    {
        match self.role_to_player.insert(role, new) {
            Some(p) => p,
            None => vstd::pervasive::unreached(),
        }
    }
}

impl Select {
    /// Whether the cell of the move is empty in `game`.
    pub fn is_feasible<P>(&self, game: &XOGame<P>) -> (b: bool)
        requires
            self.in_bounds(),
        ensures
            b == (game.grid()[self.row as int][self.col as int] is None),
    {
        game.board[self.row][self.col].is_none()
    }

    /// Marks the cell of the move for the role whose turn it is, and passes the turn.
    pub fn apply<P>(&self, game: &mut XOGame<P>)
        requires
            self.in_bounds(),
        ensures
            final(game).grid() == grid_set(
                old(game).grid(),
                self.row as int,
                self.col as int,
                Some(old(game).turn_role()),
            ),
            final(game).turn_role() == spec_opposite(old(game).turn_role()),
            final(game).players() == old(game).players(),
            final(game).past_moves() == old(game).past_moves(),
    {
        let mark = Some(game.turn);
        let mut row = game.board[self.row];
        row[self.col] = mark;
        game.board[self.row] = row;
        game.turn = game.turn.opposite();
        assert(game.grid() =~~= grid_set(
            old(game).grid(),
            self.row as int,
            self.col as int,
            Some(old(game).turn_role()),
        ));
    }

    /// Empties the cell of the move, and passes the turn.
    pub fn revert<P>(&self, game: &mut XOGame<P>)
        requires
            self.in_bounds(),
        ensures
            final(game).grid() == grid_set(old(game).grid(), self.row as int, self.col as int, None),
            final(game).turn_role() == spec_opposite(old(game).turn_role()),
            final(game).players() == old(game).players(),
            final(game).past_moves() == old(game).past_moves(),
    {
        let mut row = game.board[self.row];
        row[self.col] = None;
        game.board[self.row] = row;
        game.turn = game.turn.opposite();
        assert(game.grid() =~~= grid_set(old(game).grid(), self.row as int, self.col as int, None));
    }
}

impl<P> XOGame<P> {
    /// Number of filled cells of the board.
    pub fn number_of_filled_cells(&self) -> (n: usize)
        ensures
            n == filled_count(self.grid()),
    {
        let ghost g = self.grid();
        let mut count: usize = 0;
        let mut r: usize = 0;
        while r < BOARD_SIZE
            invariant
                r <= BOARD_SIZE,
                g == self.grid(),
                count == filled_count(g.take(r as int)),
                count <= r * BOARD_SIZE,
            decreases BOARD_SIZE - r,
        {
            let mut in_row: usize = 0;
            let mut c: usize = 0;
            while c < BOARD_SIZE
                invariant
                    r < BOARD_SIZE,
                    c <= BOARD_SIZE,
                    g == self.grid(),
                    in_row == filled_in_row(g[r as int].take(c as int)),
                    in_row <= c,
                decreases BOARD_SIZE - c,
            {
                assert(g[r as int].take(c + 1).drop_last() =~= g[r as int].take(c as int));
                if self.board[r][c].is_some() {
                    in_row = in_row + 1;
                }
                c = c + 1;
            }
            assert(g[r as int].take(BOARD_SIZE as int) =~= g[r as int]);
            assert(g.take(r + 1).drop_last() =~= g.take(r as int));
            count = count + in_row;
            r = r + 1;
        }
        assert(g.take(BOARD_SIZE as int) =~= g);
        count
    }

    /// Whether every cell of the board is filled.
    fn all_filled(&self) -> (b: bool)
        ensures
            b == board_full(self.grid()),
    {
        let ghost g = self.grid();
        let mut r: usize = 0;
        while r < BOARD_SIZE
            invariant
                r <= BOARD_SIZE,
                g == self.grid(),
                forall|r2: int, c2: int|
                    0 <= r2 < r && 0 <= c2 < BOARD_SIZE ==> #[trigger] g[r2][c2] is Some,
            decreases BOARD_SIZE - r,
        {
            let mut c: usize = 0;
            while c < BOARD_SIZE
                invariant
                    r < BOARD_SIZE,
                    c <= BOARD_SIZE,
                    g == self.grid(),
                    forall|r2: int, c2: int|
                        0 <= r2 < r && 0 <= c2 < BOARD_SIZE ==> #[trigger] g[r2][c2] is Some,
                    forall|c2: int| 0 <= c2 < c ==> #[trigger] g[r as int][c2] is Some,
                decreases BOARD_SIZE - c,
            {
                if self.board[r][c].is_none() {
                    return false;
                }
                c = c + 1;
            }
            r = r + 1;
        }
        true
    }

    /// The game is over: somebody won, or the board is full.
    pub fn finished(&self) -> (b: bool)
        ensures
            b == (spec_winner(self.grid()) is Some || board_full(self.grid())),
    {
        if self.winner().is_some() {
            return true;
        }
        self.all_filled()
    }

    /// The moves on the empty cells of the board, row by row, each row left to right.
    /// The player and the state that are passed in do not change the answer.
    pub fn possible_actions_for_player(&self, _player: &P, _state: &XOGame<P>) -> (v: Vec<Select>)
        ensures
            v@ == empty_cells(self.grid()),
    {
        let ghost g = self.grid();
        let mut actions: Vec<Select> = Vec::new();
        let mut r: usize = 0;
        while r < BOARD_SIZE
            invariant
                r <= BOARD_SIZE,
                g == self.grid(),
                actions@ == empty_cells(g.take(r as int)),
            decreases BOARD_SIZE - r,
        {
            let ghost before = actions@;
            let mut c: usize = 0;
            while c < BOARD_SIZE
                invariant
                    r < BOARD_SIZE,
                    c <= BOARD_SIZE,
                    g == self.grid(),
                    actions@ == before + empties_in_row(r as int, g[r as int].take(c as int)),
                decreases BOARD_SIZE - c,
            {
                assert(g[r as int].take(c + 1).drop_last() =~= g[r as int].take(c as int));
                if self.board[r][c].is_none() {
                    actions.push(Select::new(r, c));
                }
                assert(actions@ =~= before + empties_in_row(r as int, g[r as int].take(c + 1)));
                c = c + 1;
            }
            assert(g[r as int].take(BOARD_SIZE as int) =~= g[r as int]);
            assert(g.take(r + 1).drop_last() =~= g.take(r as int));
            assert(actions@ =~= empty_cells(g.take(r + 1)));
            r = r + 1;
        }
        assert(g.take(BOARD_SIZE as int) =~= g);
        actions
    }

    /// The score of `role`: 1 if it won, -1 if the other role won, 0 if nobody did.
    pub fn final_score_for_player(&self, role: XOPlayerRole) -> (s: i8)
        ensures
            s == spec_final_score(self.grid(), role),
    {
        match self.winner() {
            None => 0,
            Some(winner) => if winner == role {
                1
            } else {
                -1
            },
        }
    }
}

impl<P> XOGame<P> {
    /// Plays the move that the player whose turn it is chose, and records it.
    pub fn step_forward_with(&mut self, action: Select)
        requires
            action.in_bounds(),
        ensures
            final(self).grid() == grid_set(
                old(self).grid(),
                action.row as int,
                action.col as int,
                Some(old(self).turn_role()),
            ),
            final(self).turn_role() == spec_opposite(old(self).turn_role()),
            final(self).past_moves() == old(self).past_moves().push(action),
            final(self).players() == old(self).players(),
            final(self).play_state() == forward_state(old(self).play_state(), action),
            old(self).wf() ==> final(self).wf(),
    {
        action.apply(self);
        self.history.push(action);
    }

    /// Takes back the last recorded move, if there is one, and hands it back.
    pub fn step_backward(&mut self) -> (r: Option<Select>)
        requires
            old(self).wf(),
        ensures
            final(self).wf(),
            final(self).players() == old(self).players(),
            final(self).play_state() == backward_state(old(self).play_state()),
            old(self).past_moves().len() == 0 ==> {
                &&& r is None
                &&& final(self).grid() == old(self).grid()
                &&& final(self).turn_role() == old(self).turn_role()
                &&& final(self).past_moves() == old(self).past_moves()
            },
            old(self).past_moves().len() > 0 ==> {
                let last = old(self).past_moves().last();
                &&& r == Some(last)
                &&& final(self).grid() == grid_set(
                    old(self).grid(),
                    last.row as int,
                    last.col as int,
                    None,
                )
                &&& final(self).turn_role() == spec_opposite(old(self).turn_role())
                &&& final(self).past_moves() == old(self).past_moves().drop_last()
            },
    {
        match self.history.pop() {
            Some(action) => {
                assert(action.in_bounds());
                action.revert(self);
                Some(action)
            },
            None => None,
        }
    }
}

impl<P> XOGame<P> {
    /// Makes each replacement `(role, player)` in turn, first to last, and hands back
    /// the players they displaced, in the same order. Every role named must have a
    /// player and no role may be named twice.
    pub fn replace_players(&mut self, replacements: Vec<(XOPlayerRole, P)>) -> (back: Vec<
        (XOPlayerRole, P),
    >)
        requires
            distinct_roles(replacements@),
            all_present(old(self).players(), replacements@),
        ensures
            final(self).players() == after_replacements(old(self).players(), replacements@),
            back@ == handed_back(old(self).players(), replacements@),
            final(self).grid() == old(self).grid(),
            final(self).turn_role() == old(self).turn_role(),
            final(self).past_moves() == old(self).past_moves(),
    {
        let ghost all = replacements@;
        let ghost m0 = self.players();
        let mut rest = replacements;
        let mut back: Vec<(XOPlayerRole, P)> = Vec::new();
        let ghost mut k: int = 0;
        while rest.len() > 0
            invariant
                0 <= k <= all.len(),
                rest@ == all.subrange(k, all.len() as int),
                distinct_roles(all),
                all_present(m0, all),
                self.players() == after_replacements(m0, all.take(k)),
                back@ == handed_back(m0, all.take(k)),
                self.grid() == old(self).grid(),
                self.turn_role() == old(self).turn_role(),
                self.past_moves() == old(self).past_moves(),
            decreases rest.len(),
        {
            assert(rest@[0] == all[k]);
            let (role, player) = rest.remove(0);
            let ghost pre = all.take(k);
            assert forall|i: int, j: int| 0 <= i < j < pre.len() implies #[trigger] pre[i].0
                != #[trigger] pre[j].0 by {
                assert(pre[i] == all[i] && pre[j] == all[j]);
            }
            proof {
                lemma_after_replacements_value(m0, pre);
                assert(m0.contains_key(all[k].0));
                if exists|i: int| 0 <= i < pre.len() && #[trigger] pre[i].0 == role {
                    let i = choose|i: int| 0 <= i < pre.len() && #[trigger] pre[i].0 == role;
                    assert(pre[i] == all[i]);
                }
                assert(self.players().contains_key(role));
            }
            let displaced = self.replace_player(role, player);
            back.push((role, displaced));
            proof {
                assert(all.take(k + 1).drop_last() =~= pre);
                k = k + 1;
                assert(rest@ =~= all.subrange(k, all.len() as int));
            }
        }
        assert(all.take(all.len() as int) =~= all);
        back
    }
}

impl<P> XOGame<P> {
    /// The text of the board: one line per row, the cells separated by ` | `,
    /// `X`, `O` or `.` for each cell, and a line `---------` between two rows.
    pub fn to_string(&self) -> (t: String)
        ensures
            t@ == grid_text(self.grid()),
    {
        board_text(&self.board)
    }
}


} // verus!
