use gamelink::players::RolePlayers;
use gamelink::xo::{Select, XOGame, XOPlayerRole, BOARD_SIZE};

use XOPlayerRole::{O, X};

fn game_with(cells: [[Option<XOPlayerRole>; 3]; 3]) -> XOGame<u32> {
    let mut g: XOGame<u32> = XOGame::new();
    g.board = cells;
    g
}

fn all_cells() -> Vec<(usize, usize)> {
    let mut v = Vec::new();
    for r in 0..BOARD_SIZE {
        for c in 0..BOARD_SIZE {
            v.push((r, c));
        }
    }
    v
}

#[test]
fn opposite_swaps_the_roles() {
    assert_eq!(X.opposite(), O);
    assert_eq!(O.opposite(), X);
    assert_eq!(X.opposite().opposite(), X);
    assert_eq!(O.opposite().opposite(), O);
}

#[test]
fn select_new_keeps_row_and_col() {
    let s = Select::new(2, 1);
    assert_eq!(s.row, 2);
    assert_eq!(s.col, 1);
    assert!(s == Select { row: 2, col: 1 });
}

#[test]
fn new_game_is_empty_with_x_to_move() {
    let g: XOGame<u32> = XOGame::new();
    assert_eq!(g.board, [[None; 3]; 3]);
    assert_eq!(g.turn, X);
    assert_eq!(g.number_of_filled_cells(), 0);
    assert_eq!(g.winner(), None);
    assert!(!g.finished());
    assert!(!g.get_each_role_player().contains_key(X));
    assert!(!g.get_each_role_player().contains_key(O));
}

#[test]
fn possible_actions_are_the_empty_cells_in_row_major_order() {
    let g: XOGame<u32> = XOGame::new();
    let actions = g.possible_actions_for_player(&0, &g);
    let expected: Vec<Select> = all_cells().into_iter().map(|(r, c)| Select::new(r, c)).collect();
    assert_eq!(actions, expected);

    let g = game_with([[Some(X), None, Some(O)], [None, Some(X), None], [Some(O), Some(O), None]]);
    let actions = g.possible_actions_for_player(&0, &g);
    assert_eq!(
        actions,
        vec![Select::new(0, 1), Select::new(1, 0), Select::new(1, 2), Select::new(2, 2)]
    );
    assert_eq!(g.number_of_filled_cells(), 5);
    assert_eq!(actions.len() + g.number_of_filled_cells(), 9);
}

#[test]
fn apply_marks_the_cell_and_passes_the_turn() {
    let mut g: XOGame<u32> = XOGame::new();
    let s = Select::new(1, 2);
    assert!(s.is_feasible(&g));
    s.apply(&mut g);
    assert_eq!(g.board[1][2], Some(X));
    assert_eq!(g.turn, O);
    assert!(!s.is_feasible(&g));
    Select::new(0, 0).apply(&mut g);
    assert_eq!(g.board[0][0], Some(O));
    assert_eq!(g.turn, X);
}

#[test]
fn revert_undoes_apply_on_an_empty_cell() {
    let mut g = game_with([[Some(X), None, None], [None, Some(O), None], [None, None, None]]);
    let before = g.board;
    let turn = g.turn;
    let s = Select::new(2, 0);
    s.apply(&mut g);
    s.revert(&mut g);
    assert_eq!(g.board, before);
    assert_eq!(g.turn, turn);
}

#[test]
fn revert_after_apply_on_a_filled_cell_empties_it() {
    let mut g = game_with([[Some(O), None, None], [None, None, None], [None, None, None]]);
    let s = Select::new(0, 0);
    s.apply(&mut g);
    s.revert(&mut g);
    assert_eq!(g.board[0][0], None);
}

#[test]
fn winner_by_row_column_and_diagonals() {
    let row = game_with([[None, None, None], [Some(O), Some(O), Some(O)], [Some(X), Some(X), None]]);
    assert_eq!(row.winner(), Some(O));
    let col = game_with([[Some(X), Some(O), None], [Some(X), Some(O), None], [None, Some(O), Some(X)]]);
    assert_eq!(col.winner(), Some(O));
    let diag = game_with([[Some(X), Some(O), None], [Some(O), Some(X), None], [None, None, Some(X)]]);
    assert_eq!(diag.winner(), Some(X));
    let anti = game_with([[None, None, Some(O)], [Some(X), Some(O), None], [Some(O), Some(X), Some(X)]]);
    assert_eq!(anti.winner(), Some(O));
    let none = game_with([[Some(X), Some(O), Some(X)], [Some(X), Some(O), Some(O)], [Some(O), Some(X), Some(X)]]);
    assert_eq!(none.winner(), None);
}

#[test]
fn rows_are_looked_at_before_columns() {
    // Row 2 belongs to O and column 0 to X: the row decides.
    let g = game_with([[Some(X), None, None], [Some(X), None, None], [Some(O), Some(O), Some(O)]]);
    assert_eq!(g.winner(), Some(O));
    let g = game_with([[Some(X), Some(O), None], [Some(X), Some(O), None], [Some(X), Some(O), None]]);
    assert_eq!(g.winner(), Some(X));
}

#[test]
fn finished_when_won_or_full() {
    let won = game_with([[Some(X), Some(X), Some(X)], [Some(O), Some(O), None], [None, None, None]]);
    assert!(won.finished());
    let draw = game_with([[Some(X), Some(O), Some(X)], [Some(X), Some(O), Some(O)], [Some(O), Some(X), Some(X)]]);
    assert!(draw.finished());
    assert_eq!(draw.number_of_filled_cells(), 9);
    assert!(draw.possible_actions_for_player(&0, &draw).is_empty());
    let open = game_with([[Some(X), Some(O), Some(X)], [Some(X), Some(O), Some(O)], [Some(O), Some(X), None]]);
    assert!(!open.finished());
}

#[test]
fn final_scores() {
    let won = game_with([[Some(X), Some(X), Some(X)], [Some(O), Some(O), None], [None, None, None]]);
    assert_eq!(won.final_score_for_player(X), 1);
    assert_eq!(won.final_score_for_player(O), -1);
    let draw = game_with([[Some(X), Some(O), Some(X)], [Some(X), Some(O), Some(O)], [Some(O), Some(X), Some(X)]]);
    assert_eq!(draw.final_score_for_player(X), 0);
    assert_eq!(draw.final_score_for_player(O), 0);
}

#[test]
fn step_backward_undoes_step_forward() {
    let mut g: XOGame<u32> = XOGame::new();
    g.step_forward_with(Select::new(1, 1));
    let board = g.board;
    g.step_forward_with(Select::new(0, 2));
    assert_eq!(g.board[0][2], Some(O));
    assert_eq!(g.turn, X);
    assert_eq!(g.step_backward(), Some(Select::new(0, 2)));
    assert_eq!(g.board, board);
    assert_eq!(g.turn, O);
    assert_eq!(g.step_backward(), Some(Select::new(1, 1)));
    assert_eq!(g.board, [[None; 3]; 3]);
    assert_eq!(g.turn, X);
}

#[test]
fn step_backward_without_moves_changes_nothing() {
    let mut g: XOGame<u32> = XOGame::new();
    assert_eq!(g.step_backward(), None);
    assert_eq!(g.board, [[None; 3]; 3]);
    assert_eq!(g.turn, X);
}

#[test]
fn a_game_ends_within_nine_moves() {
    let mut g: XOGame<u32> = XOGame::new();
    let mut steps = 0;
    while !g.finished() {
        let actions = g.possible_actions_for_player(&0, &g);
        let filled = g.number_of_filled_cells();
        g.step_forward_with(actions[actions.len() - 1].clone());
        assert_eq!(g.number_of_filled_cells(), filled + 1);
        steps += 1;
    }
    assert!(steps <= 9);
    // Last-cell-first play: X completes the anti-diagonal on the seventh move.
    assert_eq!(g.winner(), Some(X));
    assert_eq!(steps, 7);
}

#[test]
fn joining_and_replacing_players() {
    let mut g: XOGame<u32> = XOGame::new();
    g.join_player(X, 10);
    g.join_player(O, 20);
    assert_eq!(g.get_each_role_player().get(X), Some(&10));
    assert_eq!(g.get_each_role_player().get(O), Some(&20));
    assert_eq!(g.replace_player(O, 21), 20);
    assert_eq!(g.get_each_role_player().get(O), Some(&21));
    assert_eq!(g.get_each_role_player().get(X), Some(&10));
}

#[test]
fn replaced_players_roll_back_in_any_order() {
    let mut g: XOGame<u32> = XOGame::new();
    g.join_player(X, 1);
    g.join_player(O, 2);
    let back = g.replace_players(vec![(X, 11), (O, 12)]);
    assert_eq!(back, vec![(X, 1), (O, 2)]);
    assert_eq!(g.get_each_role_player().get(X), Some(&11));
    assert_eq!(g.get_each_role_player().get(O), Some(&12));
    let mut reversed = back;
    reversed.reverse();
    let displaced = g.replace_players(reversed);
    assert_eq!(displaced, vec![(O, 12), (X, 11)]);
    assert_eq!(g.get_each_role_player().get(X), Some(&1));
    assert_eq!(g.get_each_role_player().get(O), Some(&2));
}

#[test]
fn role_players_insert_and_get() {
    let mut p: RolePlayers<&str> = RolePlayers::new();
    assert_eq!(p.get(O), None);
    assert_eq!(p.insert(O, "a"), None);
    assert!(p.contains_key(O));
    assert!(!p.contains_key(X));
    assert_eq!(p.insert(O, "b"), Some("a"));
    assert_eq!(p.get(O), Some(&"b"));
}

#[test]
fn turn_and_cell_getters() {
    let mut g: XOGame<u32> = XOGame::new();
    assert_eq!(g.turn(), X);
    assert_eq!(g.cell(1, 2), None);
    g.step_forward_with(Select::new(1, 2));
    assert_eq!(g.turn(), O);
    assert_eq!(g.cell(1, 2), Some(X));
}

#[test]
fn k_steps_back_undo_k_steps_forward() {
    let mut g: XOGame<u32> = XOGame::new();
    g.join_player(X, 1);
    g.join_player(O, 2);
    g.step_forward_with(Select::new(0, 0));
    let board = g.board;
    let turn = g.turn;
    let moves = [Select::new(1, 1), Select::new(2, 2), Select::new(0, 1), Select::new(2, 0)];
    for m in moves.iter() {
        g.step_forward_with(m.clone());
    }
    for m in moves.iter().rev() {
        assert_eq!(g.step_backward(), Some(m.clone()));
    }
    assert_eq!(g.board, board);
    assert_eq!(g.turn, turn);
    assert_eq!(g.get_each_role_player().get(X), Some(&1));
    assert_eq!(g.get_each_role_player().get(O), Some(&2));
}

#[test]
fn marks_stay_balanced_and_every_move_can_be_taken_back() {
    let mut g: XOGame<u32> = XOGame::new();
    let order = [(1, 1), (0, 0), (2, 1), (0, 1), (0, 2), (2, 0), (1, 0)];
    for (i, (r, c)) in order.iter().enumerate() {
        g.step_forward_with(Select::new(*r, *c));
        let count = |p| g.board.iter().flatten().filter(|cell| **cell == Some(p)).count();
        let (x, o) = (count(X), count(O));
        assert!((x == o && g.turn == X) || (x == o + 1 && g.turn == O));
        assert_eq!(x + o, i + 1);
        assert_eq!(g.number_of_filled_cells(), i + 1);
    }
    let mut undone = 0;
    while g.step_backward().is_some() {
        undone += 1;
    }
    assert_eq!(undone, order.len());
    assert_eq!(g.board, [[None; 3]; 3]);
}

#[test]
fn winner_is_kept_by_transposition() {
    let boards = [
        [[Some(X), Some(O), None], [Some(X), Some(O), None], [Some(X), None, Some(O)]],
        [[Some(O), Some(O), Some(O)], [Some(X), Some(X), None], [None, None, Some(X)]],
        [[None, None, Some(O)], [Some(X), Some(O), None], [Some(O), Some(X), Some(X)]],
        [[Some(X), Some(O), Some(X)], [Some(X), Some(O), Some(O)], [Some(O), Some(X), Some(X)]],
    ];
    for b in boards {
        let mut t = [[None; 3]; 3];
        for r in 0..3 {
            for c in 0..3 {
                t[r][c] = b[c][r];
            }
        }
        assert_eq!(game_with(t).winner(), game_with(b).winner());
    }
}

#[test]
fn players_roll_back_after_replacements_in_between() {
    let mut g: XOGame<u32> = XOGame::new();
    g.join_player(X, 1);
    g.join_player(O, 2);
    let back = g.replace_players(vec![(O, 20)]);
    assert_eq!(g.replace_player(O, 30), 20);
    g.replace_players(back);
    assert_eq!(g.get_each_role_player().get(X), Some(&1));
    assert_eq!(g.get_each_role_player().get(O), Some(&2));
}
