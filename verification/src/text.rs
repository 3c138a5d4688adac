use vstd::prelude::*;

use crate::xo::{grid_of, spec_winner, Board, Select, XOGame, XOPlayerRole, BOARD_SIZE};

verus! {

/// The character of a decimal digit.
pub open spec fn digit_char(d: nat) -> char {
    if d == 0 {
        '0'
    } else if d == 1 {
        '1'
    } else if d == 2 {
        '2'
    } else if d == 3 {
        '3'
    } else if d == 4 {
        '4'
    } else if d == 5 {
        '5'
    } else if d == 6 {
        '6'
    } else if d == 7 {
        '7'
    } else if d == 8 {
        '8'
    } else {
        '9'
    }
}

/// The decimal notation of `n`, without leading zeros.
pub open spec fn decimal(n: nat) -> Seq<char>
    decreases n,
{
    if n < 10 {
        seq![digit_char(n)]
    } else {
        decimal(n / 10) + seq![digit_char(n % 10)]
    }
}

fn digit_str(d: usize) -> (s: &'static str)
    requires
        d < 10,
    ensures
        s@ == seq![digit_char(d as nat)],
{
    proof {
        reveal_strlit("0");
        reveal_strlit("1");
        reveal_strlit("2");
        reveal_strlit("3");
        reveal_strlit("4");
        reveal_strlit("5");
        reveal_strlit("6");
        reveal_strlit("7");
        reveal_strlit("8");
        reveal_strlit("9");
    }
    if d == 0 {
        "0"
    } else if d == 1 {
        "1"
    } else if d == 2 {
        "2"
    } else if d == 3 {
        "3"
    } else if d == 4 {
        "4"
    } else if d == 5 {
        "5"
    } else if d == 6 {
        "6"
    } else if d == 7 {
        "7"
    } else if d == 8 {
        "8"
    } else {
        "9"
    }
}

/// Appends the decimal notation of `n`.
pub fn push_decimal(s: &mut String, n: usize)
    ensures
        final(s)@ == old(s)@ + decimal(n as nat),
    decreases n,
{
    if n >= 10 {
        push_decimal(s, n / 10);
    }
    s.append(digit_str(n % 10));
    assert(final(s)@ =~= old(s)@ + decimal(n as nat));
}

/// The name of a role.
pub open spec fn role_text(role: XOPlayerRole) -> Seq<char> {
    match role {
        XOPlayerRole::X => seq!['X'],
        XOPlayerRole::O => seq!['O'],
    }
}

impl XOPlayerRole {
    /// The name of the role: "X" or "O".
    pub fn to_string(&self) -> (s: String)
        ensures
            s@ == role_text(*self),
    {
        proof {
            reveal_strlit("X");
            reveal_strlit("O");
        }
        match self {
            XOPlayerRole::X => String::from_str("X"),
            XOPlayerRole::O => String::from_str("O"),
        }
    }
}

/// The text of a move: `Select(row, col)`.
pub open spec fn select_text(s: Select) -> Seq<char> {
    seq!['S', 'e', 'l', 'e', 'c', 't', '('] + decimal(s.row as nat) + seq![',', ' '] + decimal(
        s.col as nat,
    ) + seq![')']
}

impl Select {
    /// The text of the move: `Select(row, col)`.
    pub fn to_string(&self) -> (t: String)
        ensures
            t@ == select_text(*self),
    {
        proof {
            reveal_strlit("Select(");
            reveal_strlit(", ");
            reveal_strlit(")");
        }
        let mut t = String::from_str("Select(");
        push_decimal(&mut t, self.row);
        t.append(", ");
        push_decimal(&mut t, self.col);
        t.append(")");
        assert(t@ =~= select_text(*self));
        t
    }
}

/// The character that shows a cell: its role, or `.` when it is empty.
pub open spec fn cell_char(cell: Option<XOPlayerRole>) -> char {
    match cell {
        Some(XOPlayerRole::X) => 'X',
        Some(XOPlayerRole::O) => 'O',
        None => '.',
    }
}

/// The cells of a row, shown one after the other with ` | ` between two of them.
pub open spec fn cells_text(row: Seq<Option<XOPlayerRole>>) -> Seq<char>
    decreases row.len(),
{
    if row.len() == 0 {
        seq![]
    } else if row.len() == 1 {
        seq![cell_char(row[0])]
    } else {
        cells_text(row.drop_last()) + seq![' ', '|', ' ', cell_char(row.last())]
    }
}

/// The rows of a grid, each on a line of its own, with a line `---------` between two of them.
pub open spec fn grid_text(g: Seq<Seq<Option<XOPlayerRole>>>) -> Seq<char>
    decreases g.len(),
{
    if g.len() == 0 {
        seq![]
    } else if g.len() == 1 {
        cells_text(g[0]) + seq!['\n']
    } else {
        grid_text(g.drop_last()) + seq!['-', '-', '-', '-', '-', '-', '-', '-', '-', '\n']
            + cells_text(g.last()) + seq!['\n']
    }
}

fn cell_str(cell: Option<XOPlayerRole>) -> (s: &'static str)
    ensures
        s@ == seq![cell_char(cell)],
{
    proof {
        reveal_strlit("X");
        reveal_strlit("O");
        reveal_strlit(".");
    }
    match cell {
        Some(XOPlayerRole::X) => "X",
        Some(XOPlayerRole::O) => "O",
        None => ".",
    }
}

/// The text of a board, as `grid_text` lays it out.
pub fn board_text(board: &Board) -> (t: String)
    ensures
        t@ == grid_text(grid_of(*board)),
{
    let ghost g = grid_of(*board);
    let mut t = String::new();
    let mut r: usize = 0;
    while r < BOARD_SIZE
        invariant
            r <= BOARD_SIZE,
            g == grid_of(*board),
            t@ == grid_text(g.take(r as int)),
        decreases BOARD_SIZE - r,
    {
        proof {
            reveal_strlit("---------\n");
            reveal_strlit("\n");
        }
        if r > 0 {
            t.append("---------\n");
        }
        let ghost mid = t@;
        let mut c: usize = 0;
        while c < BOARD_SIZE
            invariant
                r < BOARD_SIZE,
                c <= BOARD_SIZE,
                g == grid_of(*board),
                t@ == mid + cells_text(g[r as int].take(c as int)),
            decreases BOARD_SIZE - c,
        {
            assert(g[r as int].take(c + 1).drop_last() =~= g[r as int].take(c as int));
            proof {
                reveal_strlit(" | ");
            }
            if c > 0 {
                t.append(" | ");
            }
            t.append(cell_str(board[r][c]));
            let ghost row = g[r as int].take(c + 1);
            assert(row.len() == c + 1);
            assert(row.last() == g[r as int][c as int]);
            if c == 0 {
                assert(row[0] == g[r as int][0]);
            }
            assert(t@ =~= mid + cells_text(row));
            c = c + 1;
        }
        assert(g[r as int].take(BOARD_SIZE as int) =~= g[r as int]);
        t.append("\n");
        let ghost rows = g.take(r + 1);
        assert(rows.drop_last() =~= g.take(r as int));
        assert(rows.len() == r + 1);
        assert(rows.last() == g[r as int]);
        if r == 0 {
            assert(rows[0] == g[0]);
        }
        assert(t@ =~= grid_text(rows));
        r = r + 1;
    }
    assert(g.take(BOARD_SIZE as int) =~= g);
    t
}

/// The name of the winner, or `none`.
pub open spec fn winner_text(w: Option<XOPlayerRole>) -> Seq<char> {
    match w {
        Some(r) => role_text(r),
        None => seq!['n', 'o', 'n', 'e'],
    }
}

/// `Action: <move>, Winner: <winner>, Game Board:` and the board on the next lines.
pub open spec fn forward_log(action: Select, g: Seq<Seq<Option<XOPlayerRole>>>) -> Seq<char> {
    seq!['A', 'c', 't', 'i', 'o', 'n', ':', ' '] + select_text(action) + seq![
        ',',
        ' ',
        'W',
        'i',
        'n',
        'n',
        'e',
        'r',
        ':',
        ' ',
    ] + winner_text(spec_winner(g)) + game_board_label() + grid_text(g)
}

/// `Action reverted: <move>, Game Board:` and the board on the next lines.
pub open spec fn backward_log(action: Select, g: Seq<Seq<Option<XOPlayerRole>>>) -> Seq<char> {
    seq!['A', 'c', 't', 'i', 'o', 'n', ' ', 'r', 'e', 'v', 'e', 'r', 't', 'e', 'd', ':', ' ']
        + select_text(action) + game_board_label() + grid_text(g)
}

/// `, Game Board:` and a line break.
pub open spec fn game_board_label() -> Seq<char> {
    seq![',', ' ', 'G', 'a', 'm', 'e', ' ', 'B', 'o', 'a', 'r', 'd', ':', '\n']
}

impl<P> XOGame<P> {
    /// The message that reports `action` once it has been played on this game.
    pub fn forward_log_text(&self, action: &Select) -> (t: String)
        ensures
            t@ == forward_log(*action, self.grid()),
    {
        proof {
            reveal_strlit("Action: ");
            reveal_strlit(", Winner: ");
            reveal_strlit("none");
            reveal_strlit(", Game Board:\n");
        }
        let mut t = String::from_str("Action: ");
        let a = action.to_string();
        t.append(a.as_str());
        t.append(", Winner: ");
        match self.winner() {
            Some(w) => {
                let name = w.to_string();
                t.append(name.as_str());
            },
            None => t.append("none"),
        }
        t.append(", Game Board:\n");
        let board = self.to_string();
        t.append(board.as_str());
        assert(t@ =~= forward_log(*action, self.grid()));
        t
    }

    /// The message that reports `action` once it has been taken back from this game.
    pub fn backward_log_text(&self, action: &Select) -> (t: String)
        ensures
            t@ == backward_log(*action, self.grid()),
    {
        proof {
            reveal_strlit("Action reverted: ");
            reveal_strlit(", Game Board:\n");
        }
        let mut t = String::from_str("Action reverted: ");
        let a = action.to_string();
        t.append(a.as_str());
        t.append(", Game Board:\n");
        let board = self.to_string();
        t.append(board.as_str());
        assert(t@ =~= backward_log(*action, self.grid()));
        t
    }
}

} // verus!
