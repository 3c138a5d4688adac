use vstd::prelude::*;

use crate::xo::{
    board_full, empties_in_row, empty_cells, filled_count, filled_in_row, grid_set, is_square,
    spec_final_score, spec_opposite, spec_winner, Select, XOPlayerRole, BOARD_SIZE, owns_a_line,
    row_full_of, col_full_of, diag_full_of, anti_diag_full_of, first_row_owner, first_col_owner,
    row_owner, col_owner, empty_grid, forward_state, backward_state, PlayState,
};

use crate::selection::{
    all_digits, chosen_index, digit_value, digits_value, is_digit, is_white_space, numbered_label,
    numbered_labels, parse_usize, trim, trim_end, trim_start, unsigned_part, prompt_text,
    lemma_trim_start_skip, lemma_trim_end_take,
};
use crate::text::{backward_log, decimal, digit_char, forward_log, game_board_label, grid_text};

verus! {

/// Passing the turn twice gives it back, and never keeps it.
pub proof fn lemma_opposite_involution(role: XOPlayerRole)
    ensures
        spec_opposite(spec_opposite(role)) == role,
        spec_opposite(role) != role,
{
}

/// Reverting a move on a cell that was empty gives back the board and the turn
/// that were there before the move was applied.
pub proof fn lemma_revert_undoes_apply(
    g: Seq<Seq<Option<XOPlayerRole>>>,
    turn: XOPlayerRole,
    s: Select,
)
    requires
        is_square(g),
        s.in_bounds(),
        g[s.row as int][s.col as int] is None,
    ensures
        grid_set(grid_set(g, s.row as int, s.col as int, Some(turn)), s.row as int, s.col as int, None)
            == g,
        spec_opposite(spec_opposite(turn)) == turn,
{
    let r = s.row as int;
    let c = s.col as int;
    let g2 = grid_set(grid_set(g, r, c, Some(turn)), r, c, None);
    assert(g2[r] =~= g[r]);
    assert(g2 =~= g);
}

/// `step_backward` after `step_forward_with` on an empty cell gives back the board,
/// the turn and the recorded moves that were there before, and hands back that move.
pub proof fn lemma_step_backward_undoes_step_forward(
    g: Seq<Seq<Option<XOPlayerRole>>>,
    turn: XOPlayerRole,
    moves: Seq<Select>,
    action: Select,
)
    requires
        is_square(g),
        action.in_bounds(),
        g[action.row as int][action.col as int] is None,
    ensures
        ({
            let g1 = grid_set(g, action.row as int, action.col as int, Some(turn));
            let t1 = spec_opposite(turn);
            let m1 = moves.push(action);
            &&& m1.len() > 0
            &&& m1.last() == action
            &&& grid_set(g1, m1.last().row as int, m1.last().col as int, None) == g
            &&& spec_opposite(t1) == turn
            &&& m1.drop_last() == moves
        }),
{
    lemma_revert_undoes_apply(g, turn, action);
    assert(moves.push(action).drop_last() =~= moves);
}

proof fn lemma_row_update_filled(row: Seq<Option<XOPlayerRole>>, c: int, v: XOPlayerRole)
    requires
        0 <= c < row.len(),
        row[c] is None,
    ensures
        filled_in_row(row.update(c, Some(v))) == filled_in_row(row) + 1,
    decreases row.len(),
{
    let row2 = row.update(c, Some(v));
    if c == row.len() - 1 {
        assert(row2.drop_last() =~= row.drop_last());
    } else {
        assert(row2.drop_last() =~= row.drop_last().update(c, Some(v)));
        lemma_row_update_filled(row.drop_last(), c, v);
    }
}

proof fn lemma_grid_update_filled(
    g: Seq<Seq<Option<XOPlayerRole>>>,
    r: int,
    row: Seq<Option<XOPlayerRole>>,
    k: int,
)
    requires
        0 <= r < g.len(),
        filled_in_row(row) == filled_in_row(g[r]) + k,
    ensures
        filled_count(g.update(r, row)) == filled_count(g) + k,
    decreases g.len(),
{
    let g2 = g.update(r, row);
    if r == g.len() - 1 {
        assert(g2.drop_last() =~= g.drop_last());
    } else {
        assert(g2.drop_last() =~= g.drop_last().update(r, row));
        lemma_grid_update_filled(g.drop_last(), r, row, k);
    }
}

/// A move on an empty cell fills exactly one more cell, so a game whose moves
/// are taken among the possible actions ends after at most nine of them.
pub proof fn lemma_move_fills_one_cell(
    g: Seq<Seq<Option<XOPlayerRole>>>,
    s: Select,
    v: XOPlayerRole,
)
    requires
        is_square(g),
        s.in_bounds(),
        g[s.row as int][s.col as int] is None,
    ensures
        filled_count(grid_set(g, s.row as int, s.col as int, Some(v))) == filled_count(g) + 1,
{
    lemma_row_update_filled(g[s.row as int], s.col as int, v);
    lemma_grid_update_filled(g, s.row as int, g[s.row as int].update(s.col as int, Some(v)), 1);
}

proof fn lemma_row_partition(r: int, row: Seq<Option<XOPlayerRole>>)
    ensures
        empties_in_row(r, row).len() + filled_in_row(row) == row.len(),
        filled_in_row(row) <= row.len(),
        filled_in_row(row) == row.len() <==> forall|c: int| 0 <= c < row.len() ==> #[trigger] row[c] is Some,
    decreases row.len(),
{
    if row.len() > 0 {
        lemma_row_partition(r, row.drop_last());
        if filled_in_row(row) == row.len() {
            assert forall|c: int| 0 <= c < row.len() implies #[trigger] row[c] is Some by {
                if c < row.len() - 1 {
                    assert(row.drop_last()[c] == row[c]);
                }
            }
        }
        if forall|c: int| 0 <= c < row.len() ==> #[trigger] row[c] is Some {
            assert forall|c: int| 0 <= c < row.drop_last().len() implies #[trigger] row.drop_last()[c] is Some by {
                assert(row[c] is Some);
            }
        }
    }
}

proof fn lemma_grid_partition(g: Seq<Seq<Option<XOPlayerRole>>>)
    requires
        forall|r: int| 0 <= r < g.len() ==> #[trigger] g[r].len() == BOARD_SIZE,
    ensures
        empty_cells(g).len() + filled_count(g) == g.len() * BOARD_SIZE,
        filled_count(g) <= g.len() * BOARD_SIZE,
        filled_count(g) == g.len() * BOARD_SIZE <==> forall|r: int, c: int|
            0 <= r < g.len() && 0 <= c < BOARD_SIZE ==> #[trigger] g[r][c] is Some,
    decreases g.len(),
{
    if g.len() > 0 {
        let init = g.drop_last();
        assert forall|r: int| 0 <= r < init.len() implies #[trigger] init[r].len() == BOARD_SIZE by {
            assert(init[r] == g[r]);
        }
        lemma_grid_partition(init);
        lemma_row_partition(g.len() - 1, g.last());
        let all = forall|r: int, c: int|
            0 <= r < g.len() && 0 <= c < BOARD_SIZE ==> #[trigger] g[r][c] is Some;
        if filled_count(g) == g.len() * BOARD_SIZE {
            assert forall|r: int, c: int| 0 <= r < g.len() && 0 <= c < BOARD_SIZE implies #[trigger] g[r][c] is Some by {
                if r < g.len() - 1 {
                    assert(init[r][c] == g[r][c]);
                } else {
                    assert(g.last()[c] == g[r][c]);
                }
            }
        }
        if all {
            assert forall|r: int, c: int| 0 <= r < init.len() && 0 <= c < BOARD_SIZE implies #[trigger] init[r][c] is Some by {
                assert(g[r][c] is Some);
            }
            assert forall|c: int| 0 <= c < g.last().len() implies #[trigger] g.last()[c] is Some by {
                assert(g[g.len() - 1][c] is Some);
            }
        }
    }
}

/// The possible actions and the filled cells together cover the whole board,
/// and the board is full exactly when all of its cells are counted as filled.
pub proof fn lemma_empty_and_filled_partition(g: Seq<Seq<Option<XOPlayerRole>>>)
    requires
        is_square(g),
    ensures
        empty_cells(g).len() + filled_count(g) == BOARD_SIZE * BOARD_SIZE,
        board_full(g) <==> filled_count(g) == BOARD_SIZE * BOARD_SIZE,
        board_full(g) <==> empty_cells(g).len() == 0,
{
    lemma_grid_partition(g);
}

/// What one role scores, the other loses.
pub proof fn lemma_score_zero_sum(g: Seq<Seq<Option<XOPlayerRole>>>)
    ensures
        spec_final_score(g, XOPlayerRole::X) + spec_final_score(g, XOPlayerRole::O) == 0,
        spec_winner(g) is None ==> spec_final_score(g, XOPlayerRole::X) == 0,
{
}

proof fn lemma_row_empties_exact(r: int, row: Seq<Option<XOPlayerRole>>)
    requires
        0 <= r < BOARD_SIZE,
        row.len() <= BOARD_SIZE,
    ensures
        forall|i: int|
            0 <= i < empties_in_row(r, row).len() ==> {
                let s = #[trigger] empties_in_row(r, row)[i];
                &&& s.row == r
                &&& s.col < row.len()
                &&& row[s.col as int] is None
            },
        forall|c: int|
            0 <= c < row.len() && #[trigger] row[c] is None ==> empties_in_row(r, row).contains(
                Select { row: r as usize, col: c as usize },
            ),
    decreases row.len(),
{
    if row.len() > 0 {
        let init = row.drop_last();
        lemma_row_empties_exact(r, init);
        let e = empties_in_row(r, row);
        let e0 = empties_in_row(r, init);
        assert forall|i: int| 0 <= i < e.len() implies {
            let s = #[trigger] e[i];
            &&& s.row == r
            &&& s.col < row.len()
            &&& row[s.col as int] is None
        } by {
            if i < e0.len() {
                assert(e[i] == e0[i]);
                assert(init[e0[i].col as int] == row[e0[i].col as int]);
            }
        }
        assert forall|c: int| 0 <= c < row.len() && #[trigger] row[c] is None implies e.contains(
            Select { row: r as usize, col: c as usize },
        ) by {
            if c < row.len() - 1 {
                assert(init[c] == row[c]);
                let k = choose|k: int| 0 <= k < e0.len() && e0[k] == Select { row: r as usize, col: c as usize };
                assert(e[k] == e0[k]);
            } else {
                assert(e[e.len() - 1] == Select { row: r as usize, col: c as usize });
            }
        }
    }
}

proof fn lemma_grid_empties_exact(g: Seq<Seq<Option<XOPlayerRole>>>)
    requires
        g.len() <= BOARD_SIZE,
        forall|r: int| 0 <= r < g.len() ==> #[trigger] g[r].len() == BOARD_SIZE,
    ensures
        forall|i: int|
            0 <= i < empty_cells(g).len() ==> {
                let s = #[trigger] empty_cells(g)[i];
                &&& s.row < g.len()
                &&& s.col < BOARD_SIZE
                &&& g[s.row as int][s.col as int] is None
            },
        forall|r: int, c: int|
            0 <= r < g.len() && 0 <= c < BOARD_SIZE && #[trigger] g[r][c] is None
                ==> empty_cells(g).contains(Select { row: r as usize, col: c as usize }),
    decreases g.len(),
{
    if g.len() > 0 {
        let init = g.drop_last();
        let last = g.len() - 1;
        assert forall|r: int| 0 <= r < init.len() implies #[trigger] init[r].len() == BOARD_SIZE by {
            assert(init[r] == g[r]);
        }
        lemma_grid_empties_exact(init);
        lemma_row_empties_exact(last, g.last());
        let e = empty_cells(g);
        let e0 = empty_cells(init);
        let er = empties_in_row(last, g.last());
        assert(e == e0 + er);
        assert forall|i: int| 0 <= i < e.len() implies {
            let s = #[trigger] e[i];
            &&& s.row < g.len()
            &&& s.col < BOARD_SIZE
            &&& g[s.row as int][s.col as int] is None
        } by {
            if i < e0.len() {
                assert(e[i] == e0[i]);
                assert(init[e0[i].row as int] == g[e0[i].row as int]);
            } else {
                assert(e[i] == er[i - e0.len()]);
            }
        }
        assert forall|r: int, c: int|
            0 <= r < g.len() && 0 <= c < BOARD_SIZE && #[trigger] g[r][c] is None implies e.contains(
            Select { row: r as usize, col: c as usize },
        ) by {
            let s = Select { row: r as usize, col: c as usize };
            if r < last {
                assert(init[r][c] == g[r][c]);
                let k = choose|k: int| 0 <= k < e0.len() && e0[k] == s;
                assert(e[k] == e0[k]);
            } else {
                assert(g.last()[c] == g[r][c]);
                let k = choose|k: int| 0 <= k < er.len() && er[k] == s;
                assert(e[e0.len() + k] == er[k]);
            }
        }
    }
}

/// The possible actions are exactly the moves on the empty cells: each names an
/// empty cell of the board, and each empty cell is named by one of them.
pub proof fn lemma_possible_actions_exact(g: Seq<Seq<Option<XOPlayerRole>>>)
    requires
        is_square(g),
    ensures
        forall|i: int|
            0 <= i < empty_cells(g).len() ==> {
                let s = #[trigger] empty_cells(g)[i];
                &&& s.in_bounds()
                &&& g[s.row as int][s.col as int] is None
            },
        forall|r: int, c: int|
            0 <= r < BOARD_SIZE && 0 <= c < BOARD_SIZE && #[trigger] g[r][c] is None
                ==> empty_cells(g).contains(Select { row: r as usize, col: c as usize }),
{
    lemma_grid_empties_exact(g);
}

/// The winner is a role that fills a whole row, column or diagonal, and when some
/// role fills one, there is a winner.
pub proof fn lemma_winner_owns_a_line(g: Seq<Seq<Option<XOPlayerRole>>>)
    ensures
        spec_winner(g) matches Some(p) ==> owns_a_line(g, p),
        (owns_a_line(g, XOPlayerRole::X) || owns_a_line(g, XOPlayerRole::O)) ==> spec_winner(g) is Some,
{
    reveal_with_fuel(first_row_owner, 4);
    reveal_with_fuel(first_col_owner, 4);
    if let Some(p) = spec_winner(g) {
        if first_row_owner(g, BOARD_SIZE as nat) is Some {
            if row_owner(g, 0) is Some {
                assert(row_full_of(g, 0, p));
            } else if row_owner(g, 1) is Some {
                assert(row_full_of(g, 1, p));
            } else {
                assert(row_full_of(g, 2, p));
            }
        } else if first_col_owner(g, BOARD_SIZE as nat) is Some {
            if col_owner(g, 0) is Some {
                assert(col_full_of(g, 0, p));
            } else if col_owner(g, 1) is Some {
                assert(col_full_of(g, 1, p));
            } else {
                assert(col_full_of(g, 2, p));
            }
        }
    }
    assert forall|p: XOPlayerRole| owns_a_line(g, p) implies spec_winner(g) is Some by {
        if exists|r: int| 0 <= r < BOARD_SIZE && #[trigger] row_full_of(g, r, p) {
            let r = choose|r: int| 0 <= r < BOARD_SIZE && #[trigger] row_full_of(g, r, p);
            assert(g[r][0] == Some(p));
            assert(row_owner(g, r) == Some(p));
        } else if exists|c: int| 0 <= c < BOARD_SIZE && #[trigger] col_full_of(g, c, p) {
            let c = choose|c: int| 0 <= c < BOARD_SIZE && #[trigger] col_full_of(g, c, p);
            assert(g[0][c] == Some(p));
            assert(col_owner(g, c) == Some(p));
        } else if diag_full_of(g, p) {
            assert(g[0][0] == Some(p));
        } else {
            assert(g[0][BOARD_SIZE - 1 - 0] == Some(p));
        }
    }
}

/// Number of cells of a row that hold `p`.
pub open spec fn marks_in_row(row: Seq<Option<XOPlayerRole>>, p: XOPlayerRole) -> nat
    decreases row.len(),
{
    if row.len() == 0 {
        0
    } else {
        marks_in_row(row.drop_last(), p) + if row.last() == Some(p) {
            1nat
        } else {
            0nat
        }
    }
}

/// Number of cells of a grid that hold `p`.
pub open spec fn marks_of(g: Seq<Seq<Option<XOPlayerRole>>>, p: XOPlayerRole) -> nat
    decreases g.len(),
{
    if g.len() == 0 {
        0
    } else {
        marks_of(g.drop_last(), p) + marks_in_row(g.last(), p)
    }
}

proof fn lemma_row_update_marks(row: Seq<Option<XOPlayerRole>>, c: int, v: XOPlayerRole, p: XOPlayerRole)
    requires
        0 <= c < row.len(),
        row[c] is None,
    ensures
        marks_in_row(row.update(c, Some(v)), p) == marks_in_row(row, p) + if p == v {
            1int
        } else {
            0int
        },
    decreases row.len(),
{
    let row2 = row.update(c, Some(v));
    if c == row.len() - 1 {
        assert(row2.drop_last() =~= row.drop_last());
    } else {
        assert(row2.drop_last() =~= row.drop_last().update(c, Some(v)));
        lemma_row_update_marks(row.drop_last(), c, v, p);
    }
}

proof fn lemma_grid_update_marks(
    g: Seq<Seq<Option<XOPlayerRole>>>,
    r: int,
    row: Seq<Option<XOPlayerRole>>,
    p: XOPlayerRole,
    k: int,
)
    requires
        0 <= r < g.len(),
        marks_in_row(row, p) == marks_in_row(g[r], p) + k,
    ensures
        marks_of(g.update(r, row), p) == marks_of(g, p) + k,
    decreases g.len(),
{
    let g2 = g.update(r, row);
    if r == g.len() - 1 {
        assert(g2.drop_last() =~= g.drop_last());
    } else {
        assert(g2.drop_last() =~= g.drop_last().update(r, row));
        lemma_grid_update_marks(g.drop_last(), r, row, p, k);
    }
}

/// Marking an empty cell for `v` adds one mark of `v` and leaves the marks of the
/// other role as they were.
pub proof fn lemma_mark_counts(g: Seq<Seq<Option<XOPlayerRole>>>, s: Select, v: XOPlayerRole)
    requires
        is_square(g),
        s.in_bounds(),
        g[s.row as int][s.col as int] is None,
    ensures
        marks_of(grid_set(g, s.row as int, s.col as int, Some(v)), v) == marks_of(g, v) + 1,
        marks_of(grid_set(g, s.row as int, s.col as int, Some(v)), spec_opposite(v)) == marks_of(
            g,
            spec_opposite(v),
        ),
{
    let row = g[s.row as int];
    lemma_row_update_marks(row, s.col as int, v, v);
    lemma_row_update_marks(row, s.col as int, v, spec_opposite(v));
    lemma_grid_update_marks(g, s.row as int, row.update(s.col as int, Some(v)), v, 1);
    lemma_grid_update_marks(g, s.row as int, row.update(s.col as int, Some(v)), spec_opposite(v), 0);
}

proof fn lemma_row_filled_is_marks(row: Seq<Option<XOPlayerRole>>)
    ensures
        filled_in_row(row) == marks_in_row(row, XOPlayerRole::X) + marks_in_row(row, XOPlayerRole::O),
    decreases row.len(),
{
    if row.len() > 0 {
        lemma_row_filled_is_marks(row.drop_last());
        match row.last() {
            Some(XOPlayerRole::X) => {},
            Some(XOPlayerRole::O) => {},
            None => {},
        }
    }
}

/// The filled cells are the cells marked X and the cells marked O.
pub proof fn lemma_filled_is_marks(g: Seq<Seq<Option<XOPlayerRole>>>)
    ensures
        filled_count(g) == marks_of(g, XOPlayerRole::X) + marks_of(g, XOPlayerRole::O),
    decreases g.len(),
{
    if g.len() > 0 {
        lemma_filled_is_marks(g.drop_last());
        lemma_row_filled_is_marks(g.last());
    }
}

/// The role that plays move number `i` of a game, counting from 0: X first, then each in turn.
pub open spec fn mover_of(i: int) -> XOPlayerRole {
    if i % 2 == 0 {
        XOPlayerRole::X
    } else {
        XOPlayerRole::O
    }
}

/// A state that a game reaches from `XOGame::new` by `step_forward_with` on empty
/// cells and by `step_backward`: the recorded moves name distinct cells, each holding
/// the mark of the role that played it; no other cell is filled; the number of filled
/// cells is the number of moves, X having played half of them rounded up and O the
/// rest; and the turn belongs to the role of the next move.
pub open spec fn consistent(
    g: Seq<Seq<Option<XOPlayerRole>>>,
    turn: XOPlayerRole,
    moves: Seq<Select>,
) -> bool {
    &&& is_square(g)
    &&& turn == mover_of(moves.len() as int)
    &&& moves_marked(g, moves)
    &&& moves_distinct(moves)
    &&& marks_recorded(g, moves)
    &&& filled_count(g) == moves.len()
    &&& marks_of(g, XOPlayerRole::X) == (moves.len() + 1) / 2
    &&& marks_of(g, XOPlayerRole::O) == moves.len() / 2
}

/// Each move names a cell of the board that holds the mark of the role that played it.
pub open spec fn moves_marked(g: Seq<Seq<Option<XOPlayerRole>>>, moves: Seq<Select>) -> bool {
    forall|i: int|
        0 <= i < moves.len() ==> #[trigger] moves[i].in_bounds() && g[moves[i].row as int][moves[i].col as int]
            == Some(mover_of(i))
}

/// No two moves name the same cell.
pub open spec fn moves_distinct(moves: Seq<Select>) -> bool {
    forall|i: int, j: int| 0 <= i < j < moves.len() ==> #[trigger] moves[i] != #[trigger] moves[j]
}

/// Each filled cell is named by a move.
pub open spec fn marks_recorded(g: Seq<Seq<Option<XOPlayerRole>>>, moves: Seq<Select>) -> bool {
    forall|r: int, c: int|
        0 <= r < BOARD_SIZE && 0 <= c < BOARD_SIZE && #[trigger] g[r][c] is Some ==> exists|i: int|
            0 <= i < moves.len() && #[trigger] moves[i] == Select { row: r as usize, col: c as usize }
}

/// A new game is consistent.
pub proof fn lemma_new_game_consistent()
    ensures
        consistent(empty_grid(), XOPlayerRole::X, Seq::<Select>::empty()),
{
    let g = empty_grid();
    reveal_with_fuel(filled_count, 4);
    reveal_with_fuel(filled_in_row, 4);
    reveal_with_fuel(marks_of, 4);
    reveal_with_fuel(marks_in_row, 4);
    assert(g[0].drop_last().drop_last().drop_last().len() == 0);
    assert(filled_in_row(g[0]) == 0);
    assert(filled_in_row(g[1]) == 0);
    assert(filled_in_row(g[2]) == 0);
    assert(g.drop_last().drop_last().drop_last().len() == 0);
    assert(filled_count(g) == 0);
    assert(marks_in_row(g[0], XOPlayerRole::X) == 0);
    assert(marks_in_row(g[1], XOPlayerRole::X) == 0);
    assert(marks_in_row(g[2], XOPlayerRole::X) == 0);
    assert(marks_in_row(g[0], XOPlayerRole::O) == 0);
    assert(marks_in_row(g[1], XOPlayerRole::O) == 0);
    assert(marks_in_row(g[2], XOPlayerRole::O) == 0);
}

/// `step_forward_with` on an empty cell keeps a game consistent.
pub proof fn lemma_forward_keeps_consistent(
    g: Seq<Seq<Option<XOPlayerRole>>>,
    turn: XOPlayerRole,
    moves: Seq<Select>,
    action: Select,
)
    requires
        consistent(g, turn, moves),
        action.in_bounds(),
        g[action.row as int][action.col as int] is None,
    ensures
        consistent(
            grid_set(g, action.row as int, action.col as int, Some(turn)),
            spec_opposite(turn),
            moves.push(action),
        ),
{
    let ar = action.row as int;
    let ac = action.col as int;
    let g1 = grid_set(g, ar, ac, Some(turn));
    let m1 = moves.push(action);
    let n = moves.len() as int;
    lemma_move_fills_one_cell(g, action, turn);
    lemma_mark_counts(g, action, turn);
    assert forall|i: int| 0 <= i < m1.len() implies #[trigger] m1[i].in_bounds() && g1[m1[i].row as int][m1[i].col as int]
        == Some(mover_of(i)) by {
        if i < n {
            assert(m1[i] == moves[i]);
            assert(moves[i].in_bounds());
            assert(g[moves[i].row as int][moves[i].col as int] is Some);
        }
    }
    assert forall|i: int, j: int| 0 <= i < j < m1.len() implies #[trigger] m1[i] != #[trigger] m1[j] by {
        assert(m1[i] == moves[i]);
        if j < n {
            assert(m1[j] == moves[j]);
        } else {
            assert(moves[i].in_bounds());
            assert(g[moves[i].row as int][moves[i].col as int] is Some);
        }
    }
    assert forall|r: int, c: int|
        0 <= r < BOARD_SIZE && 0 <= c < BOARD_SIZE && #[trigger] g1[r][c] is Some implies exists|i: int|
        0 <= i < m1.len() && #[trigger] m1[i] == Select { row: r as usize, col: c as usize } by {
        if r == ar && c == ac {
            assert(m1[n] == Select { row: r as usize, col: c as usize });
        } else {
            assert(g1[r][c] == g[r][c]);
            let i = choose|i: int| 0 <= i < moves.len() && #[trigger] moves[i] == Select { row: r as usize, col: c as usize };
            assert(m1[i] == moves[i]);
        }
    }
    assert(marks_recorded(g1, m1));
}

/// `step_backward` keeps a game consistent.
pub proof fn lemma_backward_keeps_consistent(
    g: Seq<Seq<Option<XOPlayerRole>>>,
    turn: XOPlayerRole,
    moves: Seq<Select>,
)
    requires
        consistent(g, turn, moves),
        moves.len() > 0,
    ensures
        consistent(
            grid_set(g, moves.last().row as int, moves.last().col as int, None),
            spec_opposite(turn),
            moves.drop_last(),
        ),
{
    let last = moves.last();
    let n = moves.len() - 1;
    let lr = last.row as int;
    let lc = last.col as int;
    let g1 = grid_set(g, lr, lc, None);
    let m1 = moves.drop_last();
    assert(moves[n].in_bounds());
    let mark = mover_of(n);
    assert(g[lr][lc] == Some(mark));
    assert(grid_set(g1, lr, lc, Some(mark)) =~~= g);
    lemma_move_fills_one_cell(g1, last, mark);
    assert(is_square(g1));
    assert(g1[lr][lc] is None);
    lemma_mark_counts(g1, last, mark);
    assert forall|i: int| 0 <= i < m1.len() implies #[trigger] m1[i].in_bounds() && g1[m1[i].row as int][m1[i].col as int]
        == Some(mover_of(i)) by {
        assert(m1[i] == moves[i]);
        assert(moves[i] != moves[n]);
        assert(moves[i].in_bounds());
    }
    assert forall|i: int, j: int| 0 <= i < j < m1.len() implies #[trigger] m1[i] != #[trigger] m1[j] by {
        assert(m1[i] == moves[i]);
        assert(m1[j] == moves[j]);
    }
    assert forall|r: int, c: int|
        0 <= r < BOARD_SIZE && 0 <= c < BOARD_SIZE && #[trigger] g1[r][c] is Some implies exists|i: int|
        0 <= i < m1.len() && #[trigger] m1[i] == Select { row: r as usize, col: c as usize } by {
        assert(!(r == lr && c == lc));
        assert(g1[r][c] == g[r][c]);
        let i = choose|i: int| 0 <= i < moves.len() && #[trigger] moves[i] == Select { row: r as usize, col: c as usize };
        assert(i != n);
        assert(m1[i] == moves[i]);
    }
    assert(marks_recorded(g1, m1));
}

/// The state after `step_forward_with` with each of `actions`, first to last.
pub open spec fn forward_all(s: PlayState, actions: Seq<Select>) -> PlayState
    decreases actions.len(),
{
    if actions.len() == 0 {
        s
    } else {
        forward_state(forward_all(s, actions.drop_last()), actions.last())
    }
}

/// The state after `k` calls of `step_backward`.
pub open spec fn backward_n(s: PlayState, k: nat) -> PlayState
    decreases k,
{
    if k == 0 {
        s
    } else {
        backward_n(backward_state(s), (k - 1) as nat)
    }
}

/// Each action names a cell of the board that is empty when it is played.
pub open spec fn legal_moves(s: PlayState, actions: Seq<Select>) -> bool {
    forall|i: int|
        0 <= i < actions.len() ==> #[trigger] actions[i].in_bounds() && forward_all(
            s,
            actions.take(i),
        ).0[actions[i].row as int][actions[i].col as int] is None
}

proof fn lemma_forward_all_square(s: PlayState, actions: Seq<Select>)
    requires
        is_square(s.0),
        forall|i: int| 0 <= i < actions.len() ==> #[trigger] actions[i].in_bounds(),
    ensures
        is_square(forward_all(s, actions).0),
        forward_all(s, actions).2 == s.2 + actions,
    decreases actions.len(),
{
    if actions.len() > 0 {
        let init = actions.drop_last();
        assert forall|i: int| 0 <= i < init.len() implies #[trigger] init[i].in_bounds() by {
            assert(init[i] == actions[i]);
        }
        lemma_forward_all_square(s, init);
        assert(actions.last() == actions[actions.len() - 1]);
        assert(actions[actions.len() - 1].in_bounds());
        let g0 = forward_all(s, init).0;
        let g1 = forward_all(s, actions).0;
        assert forall|r: int| 0 <= r < BOARD_SIZE implies #[trigger] g1[r].len() == BOARD_SIZE by {
            assert(g0[r].len() == BOARD_SIZE);
        }
        assert(s.2 + init + seq![actions.last()] =~= s.2 + actions);
    }
}

/// `k` calls of `step_backward` after `k` calls of `step_forward_with`, each on a cell
/// that is empty when it is played, give back the board, the turn and the recorded
/// moves that were there before; the players are untouched by both.
pub proof fn lemma_undo_k_steps(s: PlayState, actions: Seq<Select>)
    requires
        is_square(s.0),
        legal_moves(s, actions),
    ensures
        backward_n(forward_all(s, actions), actions.len()) == s,
    decreases actions.len(),
{
    if actions.len() > 0 {
        let n = actions.len() - 1;
        let init = actions.drop_last();
        assert forall|i: int| 0 <= i < init.len() implies #[trigger] init[i].in_bounds() && forward_all(
            s,
            init.take(i),
        ).0[init[i].row as int][init[i].col as int] is None by {
            assert(init[i] == actions[i]);
            assert(init.take(i) =~= actions.take(i));
            assert(actions[i].in_bounds());
        }
        lemma_undo_k_steps(s, init);
        assert(forall|i: int| 0 <= i < actions.len() ==> #[trigger] actions[i].in_bounds()) by {
            assert forall|i: int| 0 <= i < actions.len() implies #[trigger] actions[i].in_bounds() by {
                assert(legal_moves(s, actions));
            }
        }
        assert forall|i: int| 0 <= i < init.len() implies #[trigger] init[i].in_bounds() by {
            assert(init[i] == actions[i]);
        }
        lemma_forward_all_square(s, init);
        let before = forward_all(s, init);
        let a = actions.last();
        assert(actions[n].in_bounds());
        assert(actions.take(n) =~= init);
        assert(before.0[a.row as int][a.col as int] is None);
        lemma_step_backward_undoes_step_forward(before.0, before.1, before.2, a);
        assert(backward_state(forward_all(s, actions)) == before);
    }
}

/// In a consistent game X has as many marks as O when it is X's turn, and one more
/// when it is O's turn; the filled cells are as many as the recorded moves, so that
/// many calls of `step_backward` take back all of them.
pub proof fn lemma_marks_balanced(
    g: Seq<Seq<Option<XOPlayerRole>>>,
    turn: XOPlayerRole,
    moves: Seq<Select>,
)
    requires
        consistent(g, turn, moves),
    ensures
        ({
            let x = marks_of(g, XOPlayerRole::X);
            let o = marks_of(g, XOPlayerRole::O);
            &&& (x == o && turn == XOPlayerRole::X) || (x == o + 1 && turn == XOPlayerRole::O)
            &&& moves.len() == x + o
            &&& filled_count(g) == x + o
        }),
{
    lemma_filled_is_marks(g);
}

/// The grid with rows and columns exchanged.
pub open spec fn transpose(g: Seq<Seq<Option<XOPlayerRole>>>) -> Seq<Seq<Option<XOPlayerRole>>> {
    Seq::new(BOARD_SIZE as nat, |r: int| Seq::new(BOARD_SIZE as nat, |c: int| g[c][r]))
}

proof fn lemma_transpose_lines(g: Seq<Seq<Option<XOPlayerRole>>>, p: XOPlayerRole)
    ensures
        owns_a_line(transpose(g), p) == owns_a_line(g, p),
{
    let t = transpose(g);
    assert forall|r: int| 0 <= r < BOARD_SIZE implies #[trigger] row_full_of(t, r, p) == col_full_of(g, r, p) by {
        if row_full_of(t, r, p) {
            assert forall|i: int| 0 <= i < BOARD_SIZE implies #[trigger] g[i][r] == Some(p) by {
                assert(t[r][i] == g[i][r]);
            }
        }
        if col_full_of(g, r, p) {
            assert forall|i: int| 0 <= i < BOARD_SIZE implies #[trigger] t[r][i] == Some(p) by {
                assert(g[i][r] == Some(p));
            }
        }
    }
    assert forall|c: int| 0 <= c < BOARD_SIZE implies #[trigger] col_full_of(t, c, p) == row_full_of(g, c, p) by {
        if col_full_of(t, c, p) {
            assert forall|i: int| 0 <= i < BOARD_SIZE implies #[trigger] g[c][i] == Some(p) by {
                assert(t[i][c] == g[c][i]);
            }
        }
        if row_full_of(g, c, p) {
            assert forall|i: int| 0 <= i < BOARD_SIZE implies #[trigger] t[i][c] == Some(p) by {
                assert(g[c][i] == Some(p));
            }
        }
    }
    if diag_full_of(t, p) {
        assert forall|i: int| 0 <= i < BOARD_SIZE implies #[trigger] g[i][i] == Some(p) by {
            assert(t[i][i] == g[i][i]);
        }
    }
    if diag_full_of(g, p) {
        assert forall|i: int| 0 <= i < BOARD_SIZE implies #[trigger] t[i][i] == Some(p) by {
            assert(g[i][i] == Some(p));
        }
    }
    if anti_diag_full_of(t, p) {
        assert forall|i: int| 0 <= i < BOARD_SIZE implies #[trigger] g[i][BOARD_SIZE - 1 - i] == Some(p) by {
            let j = BOARD_SIZE - 1 - i;
            assert(t[j][BOARD_SIZE - 1 - j] == Some(p));
        }
    }
    if anti_diag_full_of(g, p) {
        assert forall|i: int| 0 <= i < BOARD_SIZE implies #[trigger] t[i][BOARD_SIZE - 1 - i] == Some(p) by {
            let j = BOARD_SIZE - 1 - i;
            assert(g[j][BOARD_SIZE - 1 - j] == Some(p));
        }
    }
    if exists|r: int| 0 <= r < BOARD_SIZE && #[trigger] row_full_of(t, r, p) {
        let r = choose|r: int| 0 <= r < BOARD_SIZE && #[trigger] row_full_of(t, r, p);
        assert(col_full_of(g, r, p));
    }
    if exists|c: int| 0 <= c < BOARD_SIZE && #[trigger] col_full_of(t, c, p) {
        let c = choose|c: int| 0 <= c < BOARD_SIZE && #[trigger] col_full_of(t, c, p);
        assert(row_full_of(g, c, p));
    }
    if exists|r: int| 0 <= r < BOARD_SIZE && #[trigger] row_full_of(g, r, p) {
        let r = choose|r: int| 0 <= r < BOARD_SIZE && #[trigger] row_full_of(g, r, p);
        assert(col_full_of(t, r, p));
    }
    if exists|c: int| 0 <= c < BOARD_SIZE && #[trigger] col_full_of(g, c, p) {
        let c = choose|c: int| 0 <= c < BOARD_SIZE && #[trigger] col_full_of(g, c, p);
        assert(row_full_of(t, c, p));
    }
}

/// Exchanging rows and columns keeps the winner, when at most one role fills a line
/// (as in every game played by the rules; on a board where both do, the order in
/// which lines are looked at decides, and it is not symmetric).
pub proof fn lemma_winner_transpose(g: Seq<Seq<Option<XOPlayerRole>>>)
    requires
        !(owns_a_line(g, XOPlayerRole::X) && owns_a_line(g, XOPlayerRole::O)),
    ensures
        spec_winner(transpose(g)) == spec_winner(g),
{
    let t = transpose(g);
    lemma_transpose_lines(g, XOPlayerRole::X);
    lemma_transpose_lines(g, XOPlayerRole::O);
    lemma_winner_owns_a_line(g);
    lemma_winner_owns_a_line(t);
    match spec_winner(g) {
        Some(p) => {
            match spec_winner(t) {
                Some(q) => {
                    if p != q {
                        assert(owns_a_line(g, p) && owns_a_line(g, q));
                        match p {
                            XOPlayerRole::X => assert(q == XOPlayerRole::O),
                            XOPlayerRole::O => assert(q == XOPlayerRole::X),
                        }
                    }
                },
                None => {},
            }
        },
        None => {
            match spec_winner(t) {
                Some(q) => {
                    assert(owns_a_line(g, q));
                },
                None => {},
            }
        },
    }
}

/// When a role has won, it scores 1 and the other role scores -1; when nobody has
/// won, both score 0.
pub proof fn lemma_score_of_winner_and_loser(g: Seq<Seq<Option<XOPlayerRole>>>)
    ensures
        forall|w: XOPlayerRole|
            spec_winner(g) == Some(w) ==> spec_final_score(g, w) == 1 && spec_final_score(
                g,
                spec_opposite(w),
            ) == -1,
        spec_winner(g) is None ==> spec_final_score(g, XOPlayerRole::X) == 0 && spec_final_score(
            g,
            XOPlayerRole::O,
        ) == 0,
{
}

proof fn lemma_digit_char(d: nat)
    requires
        d < 10,
    ensures
        is_digit(digit_char(d)),
        digit_value(digit_char(d)) == d,
        !is_white_space(digit_char(d)),
        digit_char(d) != '+',
{
}

proof fn lemma_decimal_digits(n: nat)
    ensures
        decimal(n).len() > 0,
        forall|i: int|
            0 <= i < decimal(n).len() ==> is_digit(#[trigger] decimal(n)[i]) && !is_white_space(
                decimal(n)[i],
            ) && decimal(n)[i] != '+',
        digits_value(decimal(n)) == n,
    decreases n,
{
    lemma_digit_char(n % 10);
    if n >= 10 {
        lemma_decimal_digits(n / 10);
        let s = decimal(n);
        let head = decimal(n / 10);
        assert(s == head + seq![digit_char(n % 10)]);
        assert(s.drop_last() =~= head);
        assert(s.last() == digit_char(n % 10));
        assert(digits_value(s) == digits_value(head) * 10 + digit_value(s.last()));
        assert((n / 10) * 10 + n % 10 == n) by (nonlinear_arith);
        assert forall|i: int| 0 <= i < s.len() implies is_digit(#[trigger] s[i]) && !is_white_space(
            s[i],
        ) && s[i] != '+' by {
            if i < head.len() {
                assert(s[i] == head[i]);
            }
        }
    } else {
        assert(decimal(n).drop_last() =~= Seq::<char>::empty());
        assert(decimal(n).last() == digit_char(n));
        assert(n % 10 == n);
        assert(digits_value(decimal(n)) == digits_value(decimal(n).drop_last()) * 10 + digit_value(decimal(n).last()));
    }
}

/// Reading the decimal notation of an option number, with or without the line break
/// that ends a typed line, chooses that option: reading inverts printing.
pub proof fn lemma_reading_a_printed_number(n: nat, count: nat)
    requires
        1 <= n <= count,
        count <= usize::MAX,
    ensures
        chosen_index(decimal(n), count) == Some((n - 1) as nat),
        chosen_index(decimal(n) + seq!['\n'], count) == Some((n - 1) as nat),
{
    let s = decimal(n);
    lemma_decimal_digits(n);
    assert(trim_start(s) == s);
    assert(trim_end(s) == s);
    assert(trim(s) == s);
    assert(unsigned_part(s) == s);
    assert(all_digits(s));
    assert(parse_usize(s) == Some(n));
    let t = s + seq!['\n'];
    assert(t[0] == s[0]);
    assert(trim_start(t) == t);
    assert(t.last() == '\n');
    assert(t.drop_last() =~= s);
    assert(trim_end(t) == trim_end(s));
    assert(trim(t) == s);
}

/// With one label or more, one more label adds `, ` and the new label with the next
/// number, so every two consecutive numbered labels are separated by `, `.
pub proof fn lemma_numbered_labels_push(ls: Seq<Seq<char>>, l: Seq<char>)
    ensures
        ls.len() == 0 ==> numbered_labels(ls.push(l)) == numbered_label(0, l),
        ls.len() > 0 ==> numbered_labels(ls.push(l)) == numbered_labels(ls) + seq![',', ' ']
            + numbered_label(ls.len() as int, l),
{
    assert(ls.push(l).drop_last() =~= ls);
    if ls.len() == 0 {
        assert(ls.push(l)[0] == l);
    }
}

/// The text of a move: `Select(`, its row, `, `, its column, `)`.
pub open spec fn move_words(a: Select) -> Seq<char> {
    seq!['S', 'e', 'l', 'e', 'c', 't', '('] + decimal(a.row as nat) + seq![',', ' '] + decimal(
        a.col as nat,
    ) + seq![')']
}

/// The message of a played move names that move, row first, then the winner of the
/// board by its name `X` or `O`, or `none` when nobody has won, then the board.
pub proof fn lemma_forward_log_names_move_and_winner(a: Select, g: Seq<Seq<Option<XOPlayerRole>>>)
    ensures
        ({
            let head = seq!['A', 'c', 't', 'i', 'o', 'n', ':', ' '] + move_words(a) + seq![
                ',',
                ' ',
                'W',
                'i',
                'n',
                'n',
                'e',
                'r',
                ':',
                ' ',
            ];
            let tail = seq![',', ' ', 'G', 'a', 'm', 'e', ' ', 'B', 'o', 'a', 'r', 'd', ':', '\n']
                + grid_text(g);
            &&& spec_winner(g) == Some(XOPlayerRole::X) ==> forward_log(a, g) == head + seq!['X']
                + tail
            &&& spec_winner(g) == Some(XOPlayerRole::O) ==> forward_log(a, g) == head + seq!['O']
                + tail
            &&& spec_winner(g) is None ==> forward_log(a, g) == head + seq!['n', 'o', 'n', 'e']
                + tail
        }),
{
    let head = seq!['A', 'c', 't', 'i', 'o', 'n', ':', ' '] + move_words(a) + seq![
        ',',
        ' ',
        'W',
        'i',
        'n',
        'n',
        'e',
        'r',
        ':',
        ' ',
    ];
    let tail = seq![',', ' ', 'G', 'a', 'm', 'e', ' ', 'B', 'o', 'a', 'r', 'd', ':', '\n']
        + grid_text(g);
    assert(game_board_label() =~= seq![',', ' ', 'G', 'a', 'm', 'e', ' ', 'B', 'o', 'a', 'r', 'd', ':', '\n']);
    match spec_winner(g) {
        Some(XOPlayerRole::X) => assert(forward_log(a, g) =~= head + seq!['X'] + tail),
        Some(XOPlayerRole::O) => assert(forward_log(a, g) =~= head + seq!['O'] + tail),
        None => assert(forward_log(a, g) =~= head + seq!['n', 'o', 'n', 'e'] + tail),
    }
}

/// The message of a taken-back move names the move passed in, row first, then the board;
/// it names the same move, in the same words, as the message of that move when played.
pub proof fn lemma_backward_log_names_move(
    a: Select,
    g: Seq<Seq<Option<XOPlayerRole>>>,
    g2: Seq<Seq<Option<XOPlayerRole>>>,
)
    ensures
        backward_log(a, g) == seq![
            'A',
            'c',
            't',
            'i',
            'o',
            'n',
            ' ',
            'r',
            'e',
            'v',
            'e',
            'r',
            't',
            'e',
            'd',
            ':',
            ' ',
        ] + move_words(a) + seq![',', ' ', 'G', 'a', 'm', 'e', ' ', 'B', 'o', 'a', 'r', 'd', ':', '\n']
            + grid_text(g),
        backward_log(a, g).subrange(17, 17 + move_words(a).len() as int) == forward_log(a, g2).subrange(
            8,
            8 + move_words(a).len() as int,
        ),
{
    let m = move_words(a);
    let b = backward_log(a, g);
    let f = forward_log(a, g2);
    assert(game_board_label() =~= seq![',', ' ', 'G', 'a', 'm', 'e', ' ', 'B', 'o', 'a', 'r', 'd', ':', '\n']);
    assert(b =~= seq![
        'A',
        'c',
        't',
        'i',
        'o',
        'n',
        ' ',
        'r',
        'e',
        'v',
        'e',
        'r',
        't',
        'e',
        'd',
        ':',
        ' ',
    ] + m + game_board_label() + grid_text(g));
    assert(b.subrange(17, 17 + m.len() as int) =~= m);
    assert(f.subrange(8, 8 + m.len() as int) =~= m);
}

/// A space, a tab, a carriage return or a line break.
pub open spec fn is_blank(c: char) -> bool {
    c == ' ' || c == '\t' || c == '\r' || c == '\n'
}

/// An answer that is the number of an option, with blanks around it and an optional
/// `+` in front, chooses that option; `0`, or a number above the number of options,
/// chooses none.
pub proof fn lemma_reading_a_padded_number(
    pre: Seq<char>,
    post: Seq<char>,
    plus: bool,
    n: nat,
    count: nat,
)
    requires
        n <= usize::MAX,
        count <= usize::MAX,
        forall|i: int| 0 <= i < pre.len() ==> is_blank(#[trigger] pre[i]),
        forall|i: int| 0 <= i < post.len() ==> is_blank(#[trigger] post[i]),
    ensures
        ({
            let number = if plus {
                seq!['+'] + decimal(n)
            } else {
                decimal(n)
            };
            let answer = pre + number + post;
            &&& 1 <= n <= count ==> chosen_index(answer, count) == Some((n - 1) as nat)
            &&& (n == 0 || n > count) ==> chosen_index(answer, count) is None
        }),
{
    let d = decimal(n);
    lemma_decimal_digits(n);
    let number = if plus {
        seq!['+'] + d
    } else {
        d
    };
    let answer = pre + number + post;
    assert(number.len() > 0);
    assert(!is_white_space(number[0]));
    assert(!is_white_space(number.last()));
    assert forall|i: int| 0 <= i < pre.len() implies is_white_space(#[trigger] answer[i]) by {
        assert(answer[i] == pre[i]);
        assert(is_blank(pre[i]));
    }
    lemma_trim_start_skip(answer, pre.len() as int);
    let rest = answer.subrange(pre.len() as int, answer.len() as int);
    assert(rest =~= number + post);
    assert(rest[0] == number[0]);
    assert(trim_start(answer) == rest);
    let k = number.len() as int;
    assert forall|i: int| k <= i < rest.len() implies is_white_space(#[trigger] rest[i]) by {
        assert(rest[i] == post[i - k]);
        assert(is_blank(post[i - k]));
    }
    lemma_trim_end_take(rest, k);
    assert(rest.take(k) =~= number);
    assert(number.last() == number[k - 1]);
    assert(trim_end(number) == number);
    assert(trim(answer) == number);
    assert(unsigned_part(number) =~= d);
    assert(all_digits(d));
    assert(parse_usize(number) == Some(n));
}

/// The option that the question numbers `k + 1` is the one that the answer `k + 1`
/// chooses.
pub proof fn lemma_prompt_numbers_match_answers(ls: Seq<Seq<char>>, k: nat)
    requires
        k < ls.len(),
        ls.len() <= usize::MAX,
    ensures
        numbered_label(k as int, ls[k as int]) == decimal(k + 1) + seq![':', ' '] + ls[k as int],
        chosen_index(decimal(k + 1), ls.len()) == Some(k),
{
    lemma_reading_a_printed_number(k + 1, ls.len());
}

/// The question: `Select `, the title in double quotes and a space when there is one,
/// `between (`, the numbered labels, `): `.
pub proof fn lemma_prompt_words(ls: Seq<Seq<char>>, title: Option<Seq<char>>)
    ensures
        title is None ==> prompt_text(ls, title) == seq!['S', 'e', 'l', 'e', 'c', 't', ' ', 'b', 'e', 't', 'w', 'e', 'e', 'n', ' ', '(']
            + numbered_labels(ls) + seq![')', ':', ' '],
        title matches Some(t) ==> prompt_text(ls, title) == seq!['S', 'e', 'l', 'e', 'c', 't', ' ', '"'] + t + seq!['"', ' ', 'b', 'e', 't', 'w', 'e', 'e', 'n', ' ', '(']
            + numbered_labels(ls) + seq![')', ':', ' '],
{
    match title {
        None => assert(prompt_text(ls, title) =~= seq!['S', 'e', 'l', 'e', 'c', 't', ' ', 'b', 'e', 't', 'w', 'e', 'e', 'n', ' ', '(']
            + numbered_labels(ls) + seq![')', ':', ' ']),
        Some(t) => assert(prompt_text(ls, title) =~= seq!['S', 'e', 'l', 'e', 'c', 't', ' ', '"'] + t + seq!['"', ' ', 'b', 'e', 't', 'w', 'e', 'e', 'n', ' ', '(']
            + numbered_labels(ls) + seq![')', ':', ' ']),
    }
}

} // verus!
