use gomoku_lib::board::{Board, Error};
use gomoku_lib::error::GomokuError;
use gomoku_lib::fen::{parse_fen_string, parse_fen_trimmed, to_fen_string, FenError};
use gomoku_lib::notation::{glyph_of, tile_of};
use gomoku_lib::search::check_winning;
use gomoku_lib::stats::Stats;
use gomoku_lib::node::Node;
use gomoku_lib::text::{chars_of, split_lines, string_of};
use gomoku_lib::utils::{is_game_end, Deadline};
use gomoku_lib::{Player, State, TilePointer};
use std::str::FromStr;

const POSITION: &str = "---------
---------
---x-----
---xoo---
----xo---
---xxxo--
------oo-
--------x
---------";

#[test]
fn short_notation_is_written() {
    let board = Board::from_str(POSITION).unwrap();
    assert_eq!(to_fen_string(&board), "9|//3x/3xoo/4xo/3xxxo/6oo/8x/");
    assert_eq!(to_fen_string(&Board::new_empty(12)), "12|///////////");
    let mut board = Board::new_empty(12);
    board.set_tile(TilePointer { x: 11, y: 0 }, Some(Player::O));
    board.set_tile(TilePointer { x: 0, y: 11 }, Some(Player::X));
    assert_eq!(to_fen_string(&board), "12|11o///////////x");
}

#[test]
fn short_notation_is_read() {
    assert_eq!(
        parse_fen_string("9|//3x/3xoo/4xo/3xxxo/6oo/8x/"),
        Ok(POSITION.replace('\n', "/"))
    );
    assert_eq!(
        parse_fen_string("  3|x1o/2/o \n"),
        Ok("x-o/---/o--".to_string())
    );
    assert_eq!(parse_fen_trimmed("2|/"), Ok("--/--".to_string()));
    assert_eq!(parse_fen_trimmed("+2|x/1o"), Ok("x-/-o".to_string()));
    assert_eq!(
        parse_fen_string("\u{2003}\u{a0}2|x/1o\u{3000}\t\u{85}"),
        Ok("x-/-o".to_string())
    );
    assert_eq!(parse_fen_trimmed(" 2|x/1o"), Err(FenError::BadSize));
    assert_eq!(parse_fen_trimmed("1|0x"), Ok("x".to_string()));
    assert_eq!(parse_fen_trimmed("0|"), Err(FenError::IncorrectRowCount));
    assert_eq!(
        parse_fen_trimmed("2|1x10/"),
        Err(FenError::RowTooLong)
    );
    assert_eq!(
        parse_fen_trimmed("12|1x10/x"),
        Err(FenError::IncorrectRowCount)
    );
    assert_eq!(
        parse_fen_trimmed("3|1x01/x//"),
        Err(FenError::IncorrectRowCount)
    );
    assert_eq!(parse_fen_trimmed("3|1x01/x/"), Ok("-x-/x--/---".to_string()));
}

#[test]
fn texts_that_are_no_short_notation() {
    assert_eq!(parse_fen_string("9"), Err(FenError::IncorrectFormat));
    assert_eq!(parse_fen_string("9|x|o"), Err(FenError::IncorrectFormat));
    assert_eq!(parse_fen_string(""), Err(FenError::IncorrectFormat));
    assert_eq!(parse_fen_string("x|x"), Err(FenError::BadSize));
    assert_eq!(parse_fen_string("+|x"), Err(FenError::BadSize));
    assert_eq!(parse_fen_string("++1|x"), Err(FenError::BadSize));
    assert_eq!(parse_fen_string("-1|x"), Err(FenError::BadSize));
    assert_eq!(parse_fen_string("\u{663}|x"), Err(FenError::BadSize));
    assert_eq!(parse_fen_string("3|x/\u{663}/o"), Err(FenError::BadNumber));
    assert_eq!(parse_fen_string("3|x/1\u{663}xxxxx/o"), Err(FenError::BadNumber));
    assert_eq!(parse_fen_string("9|x/\u{e9}\u{b2}/o//////"), Ok("x--------/\u{e9}\u{b2}-----/o--------/---------/---------/---------/---------/---------/---------".to_string()));
    assert_eq!(parse_fen_string("|x"), Err(FenError::BadSize));
    assert_eq!(
        parse_fen_string("99999999999999999999999999|x"),
        Err(FenError::BadSize)
    );
    assert_eq!(parse_fen_string("3|x/o"), Err(FenError::IncorrectRowCount));
    assert_eq!(parse_fen_string("2|xo/xxo"), Err(FenError::RowTooLong));
    assert_eq!(parse_fen_string("2|3/x"), Err(FenError::RowTooLong));
    assert_eq!(parse_fen_string("2|x/\u{e9}x"), Err(FenError::RowTooLong));
    assert_eq!(
        parse_fen_string("2|xxx/99999999999999999999999999"),
        Err(FenError::RowTooLong)
    );
    assert_eq!(
        parse_fen_string("2|99999999999999999999999999x/x"),
        Err(FenError::BadNumber)
    );
}

#[test]
fn tiles_and_characters() {
    assert_eq!(glyph_of(Some(Player::X)), 'x');
    assert_eq!(glyph_of(Some(Player::O)), 'o');
    assert_eq!(glyph_of(None), '-');
    assert_eq!(tile_of('X'), Some(Player::X));
    assert_eq!(tile_of('o'), Some(Player::O));
    assert_eq!(tile_of('.'), None);
    assert_eq!(tile_of(' '), None);
}

#[test]
fn texts_and_lines() {
    let chars = chars_of("a\u{e9}\r\n\nb\r");
    assert_eq!(chars, vec!['a', '\u{e9}', '\r', '\n', '\n', 'b', '\r']);
    assert_eq!(string_of(&chars), "a\u{e9}\r\n\nb\r");
    let lines = split_lines(&chars);
    assert_eq!(lines, vec![vec!['a', '\u{e9}'], vec![], vec!['b', '\r']]);
    let expected: Vec<Vec<char>> = "a\u{e9}\r\n\nb\r"
        .lines()
        .map(|line| line.chars().collect())
        .collect();
    assert_eq!(lines, expected);
    assert!(split_lines(&chars_of("")).is_empty());
    assert_eq!(split_lines(&chars_of("x\n")), vec![vec!['x']]);
}

#[test]
fn errors_in_words() {
    assert_eq!(
        Error::TooSmall { size: 8 }.to_text(),
        "board too small: 8, but minimum is 9"
    );
    assert_eq!(
        Error::NotSquare {
            height: 9,
            line: 5,
            width: 107
        }
        .to_text(),
        "board is not a square: line 5 is 107 tiles wide, but 9 was expected"
    );
    assert_eq!(
        Error::TooLarge { size: 256 }.to_text(),
        "board too large: 256, but maximum is 255"
    );
    assert_eq!(GomokuError::NoEmptyTiles.to_text(), "no empty tiles left");
    assert_eq!(
        GomokuError::MisshapedBoard(Error::TooSmall { size: 0 }).to_text(),
        "board too small: 0, but minimum is 9"
    );
}

#[test]
fn five_in_a_row_ends_the_game() {
    let board = Board::from_str(POSITION).unwrap();
    assert!(!is_game_end(&board, Player::X));
    assert!(!is_game_end(&board, Player::O));

    let mut diagonal = Board::new_empty(9);
    for i in 2..7 {
        diagonal.set_tile(TilePointer { x: i, y: 8 - i }, Some(Player::O));
    }
    assert!(is_game_end(&diagonal, Player::O));
    assert!(!is_game_end(&diagonal, Player::X));
    assert_eq!(diagonal.evaluate_for(Player::O).1, State::Win);
    diagonal.set_tile(TilePointer { x: 4, y: 4 }, None);
    assert!(!is_game_end(&diagonal, Player::O));

    let holed = Board::from_str(&POSITION.replacen("---------", "o-ooooo--", 1)).unwrap();
    assert!(is_game_end(&holed, Player::O));
    assert_eq!(holed.evaluate_for(Player::O).1, State::NotEnd);
}

#[test]
fn tiles_along_the_lines() {
    let board = Board::from_str(POSITION).unwrap();
    let all = board.get_all_tile_sequences();
    assert_eq!(all.len(), 52);
    let x = Some(Player::X);
    let o = Some(Player::O);
    let n = None;
    assert_eq!(all[3], vec![n, n, n, x, o, o, n, n, n]);
    assert_eq!(all[9 + 3], vec![n, n, x, x, n, x, n, n, n]);
    assert_eq!(all[18], vec![n]);
    assert_eq!(all[18 + 7], vec![n, n, n, o, n, n, n, n]);
    assert_eq!(all[35 + 8], vec![n, n, n, x, x, x, o, n, n]);
    assert!(Board::get_empty_board(9) == Board::new_empty(9));
}

#[test]
fn position_hash_combines_the_keys() {
    let board = Board::from_str(POSITION).unwrap();
    let table: Vec<Vec<u128>> = (0..81u128)
        .map(|cell| vec![0, 1 << (cell % 100), 1 << (cell % 100 + 20)])
        .collect();
    let mut expected = 0u128;
    for (cell, tile) in board.tiles().iter().enumerate() {
        expected ^= table[cell][tile.map_or(0, Player::value)];
    }
    assert_eq!(board.hash(&table), expected);
    assert!(expected != 0);
    assert_eq!(Board::new_empty(9).hash(&table), 0);
}

#[test]
fn the_best_winning_candidate() {
    let never = Deadline::never();
    let stats = Stats {
        nodes_evaluated: 7,
        nodes_pruned: 0,
    };
    let row = format!("{}\nxxxx-----", ["---------"; 4].join("\n"))
        + "\n---------\n---------\n---------\n---------";
    let board = Board::from_str(&row).unwrap();
    let mut nodes = vec![
        Node::new(TilePointer { x: 0, y: 0 }, Player::X, State::NotEnd),
        Node::new(TilePointer { x: 4, y: 4 }, Player::X, State::NotEnd),
        Node::new(TilePointer { x: 8, y: 8 }, Player::X, State::NotEnd),
    ];
    assert!(check_winning(&nodes, stats).is_none());
    for node in nodes.iter_mut() {
        node.compute_next_on_copy(&board, 0, &never);
    }
    let (found, counters) = check_winning(&nodes, stats).unwrap();
    assert_eq!(found.tile, TilePointer { x: 4, y: 4 });
    assert_eq!(found.score, 100_000_000 - 100_000);
    assert_eq!(counters, stats);
}
