use gamelink::selection::{parse_selection, selection_prompt};
use gamelink::text::push_decimal;
use gamelink::xo::{Select, XOGame, XOPlayerRole};

#[test]
fn role_names() {
    assert_eq!(XOPlayerRole::X.to_string(), "X");
    assert_eq!(XOPlayerRole::O.to_string(), "O");
}

#[test]
fn select_text() {
    assert_eq!(Select::new(0, 2).to_string(), "Select(0, 2)");
    assert_eq!(Select::new(12, 305).to_string(), "Select(12, 305)");
}

#[test]
fn decimal_text() {
    let mut s = String::from("n=");
    push_decimal(&mut s, 0);
    assert_eq!(s, "n=0");
    let mut s = String::new();
    push_decimal(&mut s, 1234);
    assert_eq!(s, "1234");
    let mut s = String::new();
    push_decimal(&mut s, usize::MAX);
    assert_eq!(s, usize::MAX.to_string());
}

#[test]
fn board_text() {
    let mut g: XOGame<()> = XOGame::new();
    assert_eq!(g.to_string(), ". | . | .\n---------\n. | . | .\n---------\n. | . | .\n");
    g.step_forward_with(Select::new(0, 0));
    g.step_forward_with(Select::new(2, 1));
    assert_eq!(g.to_string(), "X | . | .\n---------\n. | . | .\n---------\n. | O | .\n");
}

#[test]
fn prompt_text() {
    let labels = ["Select(0, 1)", "Select(2, 2)"];
    assert_eq!(
        selection_prompt(&labels, Some("Cell Selection")),
        "Select \"Cell Selection\" between (1: Select(0, 1), 2: Select(2, 2)): "
    );
    assert_eq!(selection_prompt(&["a"], None), "Select between (1: a): ");
    assert_eq!(selection_prompt(&[], None), "Select between (): ");
}

#[test]
fn answers_that_choose() {
    assert_eq!(parse_selection("1", 3), Some(0));
    assert_eq!(parse_selection("3\n", 3), Some(2));
    assert_eq!(parse_selection("  2 \r\n", 3), Some(1));
    assert_eq!(parse_selection("+2", 3), Some(1));
    assert_eq!(parse_selection("002", 3), Some(1));
    assert_eq!(parse_selection("\u{3000}2\u{a0}", 3), Some(1));
}

#[test]
fn answers_that_do_not_choose() {
    assert_eq!(parse_selection("0", 3), None);
    assert_eq!(parse_selection("4", 3), None);
    assert_eq!(parse_selection("", 3), None);
    assert_eq!(parse_selection("   \n", 3), None);
    assert_eq!(parse_selection("+", 3), None);
    assert_eq!(parse_selection("-1", 3), None);
    assert_eq!(parse_selection("1 2", 3), None);
    assert_eq!(parse_selection("two", 3), None);
    assert_eq!(parse_selection("99999999999999999999999999", 3), None);
    assert_eq!(parse_selection("1", 0), None);
}

#[test]
fn answers_agree_with_std_parsing() {
    let inputs = ["7", " 7", "+0", "x", "18446744073709551615", "18446744073709551616", "\t5\u{2003}"];
    for input in inputs {
        let expected = match input.trim().parse::<usize>() {
            Ok(n) if n >= 1 && n <= 10 => Some(n - 1),
            _ => None,
        };
        assert_eq!(parse_selection(input, 10), expected, "{:?}", input);
    }
}

#[test]
fn white_space_is_what_trim_removes() {
    for code in 0u32..0x3100 {
        if let Some(c) = char::from_u32(code) {
            let input = format!("{c}1{c}");
            let expected = match input.trim().parse::<usize>() {
                Ok(1) => Some(0),
                _ => None,
            };
            assert_eq!(parse_selection(&input, 1), expected, "U+{:04X}", code);
        }
    }
}

#[test]
fn step_log_messages() {
    let mut g: XOGame<()> = XOGame::new();
    let a = Select::new(0, 0);
    g.step_forward_with(a.clone());
    assert_eq!(
        g.forward_log_text(&a),
        "Action: Select(0, 0), Winner: none, Game Board:\nX | . | .\n---------\n. | . | .\n---------\n. | . | .\n"
    );
    g.board = [[Some(XOPlayerRole::O); 3], [None; 3], [None; 3]];
    assert_eq!(
        g.forward_log_text(&a),
        "Action: Select(0, 0), Winner: O, Game Board:\nO | O | O\n---------\n. | . | .\n---------\n. | . | .\n"
    );
    let back = g.step_backward().unwrap();
    assert_eq!(
        g.backward_log_text(&back),
        "Action reverted: Select(0, 0), Game Board:\n. | O | O\n---------\n. | . | .\n---------\n. | . | .\n"
    );
}
